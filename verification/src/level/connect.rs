//! Protected-aware connectivity: carve corridors until the whole level is one
//! connected component, crossing only *carvable* walls. Sealed room rings and
//! the map border are protected, so sealed rooms stay reachable solely through
//! their doorways while every floor tile is reachable from the spawn.

use std::collections::VecDeque;

use vstd::prelude::*;

use crate::grid::{
    adjacent, cell, cell_index, in_grid, index_cell,
    lemma_closed_contains_linked, lemma_index_cell, lemma_index_in_range, lemma_index_unique,
    lemma_linked_mono, lemma_linked_refl, lemma_linked_step, lemma_linked_symm, lemma_linked_trans,
    lemma_neighbour_list, linked, neighbour_list, neighbours4, passable, row_major_lt,
};

use super::map::{count_wall, LevelMap, Tile};
use super::route::{
    chain_link, cof, ctx_of, escape_walk, is_other, lemma_cell_roundtrip, lemma_walls_prepend, relaxed, route_out,
    route_result, wall_step, walls_in,
};

verus! {

/// The label a row-major label array gives cell `t`.
pub open spec fn label_of(labels: Seq<Option<usize>>, w: int, t: (int, int)) -> Option<usize> {
    labels[cell_index(w, t)]
}

/// `t` is an in-bounds floor tile of the map.
pub open spec fn floor_cell(map: &LevelMap, t: (int, int)) -> bool {
    map.in_bounds(t) && map.tile(t.0, t.1) == Tile::Floor
}

/// Number of unlabelled entries.
pub open spec fn count_none(s: Seq<Option<usize>>) -> nat
    decreases s.len(),
{
    if s.len() == 0 {
        0
    } else {
        count_none(s.drop_last()) + if s.last() is None {
            1nat
        } else {
            0nat
        }
    }
}

pub proof fn lemma_count_none_le(s: Seq<Option<usize>>)
    ensures
        count_none(s) <= s.len(),
    decreases s.len(),
{
    if s.len() > 0 {
        lemma_count_none_le(s.drop_last());
    }
}

pub proof fn lemma_count_none_update(s: Seq<Option<usize>>, i: int, v: usize)
    requires
        0 <= i < s.len(),
        s[i] is None,
    ensures
        count_none(s.update(i, Some(v))) + 1 == count_none(s),
    decreases s.len(),
{
    let t = s.update(i, Some(v));
    if i < s.len() - 1 {
        assert(t.drop_last() == s.drop_last().update(i, Some(v)));
        lemma_count_none_update(s.drop_last(), i, v);
    } else {
        assert(t.drop_last() == s.drop_last());
    }
}

/// Labels describe exactly the floor tiles.
pub open spec fn labels_mark_floor(map: &LevelMap, labels: Seq<Option<usize>>) -> bool {
    forall|t: (int, int)|
        #![trigger label_of(labels, map.width as int, t)]
        map.in_bounds(t) ==> (label_of(labels, map.width as int, t) is Some <==> floor_cell(map, t))
}

/// Edge-adjacent floor tiles always share a label.
pub open spec fn labels_closed(map: &LevelMap, labels: Seq<Option<usize>>) -> bool {
    forall|a: (int, int), b: (int, int)|
        #![trigger label_of(labels, map.width as int, a), label_of(labels, map.width as int, b)]
        floor_cell(map, a) && floor_cell(map, b) && adjacent(a, b) ==> label_of(
            labels,
            map.width as int,
            a,
        ) == label_of(labels, map.width as int, b)
}

/// Tiles that share a label are joined by a walk over floor.
pub open spec fn labels_sound(map: &LevelMap, labels: Seq<Option<usize>>) -> bool {
    forall|a: (int, int), b: (int, int)|
        #![trigger label_of(labels, map.width as int, a), label_of(labels, map.width as int, b)]
        map.in_bounds(a) && map.in_bounds(b) && label_of(labels, map.width as int, a) is Some
            && label_of(labels, map.width as int, a) == label_of(labels, map.width as int, b)
            ==> linked(map.width as int, map.height as int, map.floor_mask(), a, b)
}

/// A labelling whose classes are exactly the floor components of the map.
pub open spec fn labels_are_components(map: &LevelMap, labels: Seq<Option<usize>>) -> bool {
    &&& labels.len() == map.width * map.height
    &&& labels_mark_floor(map, labels)
    &&& labels_closed(map, labels)
    &&& labels_sound(map, labels)
}

/// A floor tile is passable in the floor mask.
pub proof fn lemma_floor_passable(map: &LevelMap, t: (int, int))
    requires
        map.inv(),
        map.in_bounds(t),
    ensures
        passable(map.width as int, map.height as int, map.floor_mask(), t) <==> floor_cell(map, t),
{
    lemma_index_in_range(map.width as int, map.height as int, t);
}

/// Some tile before `b` in row-major order carries label `l`.
pub open spec fn label_seen_before(map: &LevelMap, labels: Seq<Option<usize>>, l: int, b: (int, int)) -> bool {
    exists|u: (int, int)|
        map.in_bounds(u) && #[trigger] label_of(labels, map.width as int, u) == Some(l as usize) && row_major_lt(u, b)
}

/// Labels are numbered in the row-major order of each component's first
/// tile: every label below a tile's label already occurs before that tile, so
/// the labels used are `0..k` and the first tile of label `l` comes before
/// the first tile of label `l + 1`.
pub open spec fn labels_in_scan_order(map: &LevelMap, labels: Seq<Option<usize>>) -> bool {
    forall|b: (int, int), l: int|
        #![trigger label_of(labels, map.width as int, b), label_seen_before(map, labels, l, b)]
        map.in_bounds(b) && label_of(labels, map.width as int, b) is Some && 0 <= l < label_of(
            labels,
            map.width as int,
            b,
        ).unwrap() ==> label_seen_before(map, labels, l, b)
}

/// The first tile found of each label (its seed), in the order found: seeds
/// come in row-major order, each carries its own label, and no tile of a
/// label comes before that label's seed.
spec fn seeds_first(map: &LevelMap, labels: Seq<Option<usize>>, seeds: Seq<(int, int)>) -> bool {
    &&& forall|l1: int, l2: int|
        0 <= l1 < l2 < seeds.len() ==> row_major_lt(#[trigger] seeds[l1], #[trigger] seeds[l2])
    &&& forall|l: int|
        0 <= l < seeds.len() ==> map.in_bounds(#[trigger] seeds[l]) && label_of(
            labels,
            map.width as int,
            seeds[l],
        ) == Some(l as usize)
    &&& forall|t: (int, int)|
        #![trigger label_of(labels, map.width as int, t)]
        map.in_bounds(t) && label_of(labels, map.width as int, t) is Some && (label_of(
            labels,
            map.width as int,
            t,
        ).unwrap() as int) < seeds.len() ==> seeds[label_of(labels, map.width as int, t).unwrap() as int]
            == t || row_major_lt(seeds[label_of(labels, map.width as int, t).unwrap() as int], t)
}

/// Every seed comes before `p` in row-major order.
spec fn seeds_before_cell(seeds: Seq<(int, int)>, p: (int, int)) -> bool {
    forall|l: int| 0 <= l < seeds.len() ==> row_major_lt(#[trigger] seeds[l], p)
}

/// Labelling a fresh tile `nb`, later than the seed being filled from, with
/// the newest label keeps the seeds first.
proof fn lemma_seed_keeps(
    map: &LevelMap,
    before: Seq<Option<usize>>,
    after: Seq<Option<usize>>,
    seeds: Seq<(int, int)>,
    nb: (int, int),
)
    requires
        seeds_first(map, before, seeds),
        seeds.len() > 0,
        map.in_bounds(nb),
        label_of(before, map.width as int, nb) is None,
        row_major_lt(seeds.last(), nb),
        forall|t: (int, int)|
            #![trigger label_of(after, map.width as int, t)]
            map.in_bounds(t) ==> label_of(after, map.width as int, t) == if t == nb {
                Some((seeds.len() - 1) as usize)
            } else {
                label_of(before, map.width as int, t)
            },
    ensures
        seeds_first(map, after, seeds),
{
    let w = map.width as int;
    assert forall|l: int| 0 <= l < seeds.len() implies map.in_bounds(#[trigger] seeds[l]) && label_of(after, w, seeds[l])
        == Some(l as usize) by {
        assert(label_of(before, w, seeds[l]) == Some(l as usize));
    }
    assert forall|t: (int, int)|
        #![trigger label_of(after, w, t)]
        map.in_bounds(t) && label_of(after, w, t) is Some && (label_of(after, w, t).unwrap() as int)
            < seeds.len() implies seeds[label_of(after, w, t).unwrap() as int] == t || row_major_lt(
            seeds[label_of(after, w, t).unwrap() as int],
            t,
        ) by {
        if t != nb {
            assert(label_of(before, w, t) == label_of(after, w, t));
        }
    }
}

/// Flood-fill every walkable tile into a connected-component label.
pub fn label_components(map: &LevelMap) -> (labels: Vec<Option<usize>>)
    requires
        map.inv(),
    ensures
        labels_are_components(map, labels@),
        labels_in_scan_order(map, labels@),
{
    let (w, h) = (map.width, map.height);
    let ghost wi = w as int;
    let ghost hi = h as int;
    let mut labels: Vec<Option<usize>> = super::map::vec_filled(None, w * h);
    let mut next = 0usize;
    let ghost mut seeds: Seq<(int, int)> = Seq::empty();
    proof {
        lemma_count_none_le(labels@);
        assert forall|t: (int, int)|
            #![trigger label_of(labels@, wi, t)]
            map.in_bounds(t) implies label_of(labels@, wi, t) is None by {
            lemma_index_in_range(wi, hi, t);
        }
    }

    let mut y: usize = 0;
    while y < h
        invariant
            map.inv(),
            w == map.width,
            h == map.height,
            wi == w,
            hi == h,
            0 <= y <= h,
            labels@.len() == w * h,
            seeds.len() == next,
            next <= w * h,
            forall|t: (int, int)|
                #![trigger label_of(labels@, wi, t)]
                map.in_bounds(t) ==> (label_of(labels@, wi, t) matches Some(l) ==> floor_cell(map, t)
                    && l < next && map.in_bounds(seeds[l as int]) && linked(
                    wi,
                    hi,
                    map.floor_mask(),
                    seeds[l as int],
                    t,
                )),
            forall|t: (int, int)|
                #![trigger label_of(labels@, wi, t)]
                floor_cell(map, t) && t.1 < y ==> label_of(labels@, wi, t) is Some,
            forall|a: (int, int), b: (int, int)|
                #![trigger label_of(labels@, wi, a), label_of(labels@, wi, b)]
                map.in_bounds(a) && label_of(labels@, wi, a) is Some && adjacent(a, b) && floor_cell(
                    map,
                    b,
                ) ==> label_of(labels@, wi, b) == label_of(labels@, wi, a),
            count_none(labels@) + next <= w * h,
            seeds_first(map, labels@, seeds),
            seeds_before_cell(seeds, (0, y as int)),
        decreases h - y,
    {
        let mut x: usize = 0;
        while x < w
            invariant
                map.inv(),
                w == map.width,
                h == map.height,
                wi == w,
                hi == h,
                0 <= y < h,
                0 <= x <= w,
                labels@.len() == w * h,
                seeds.len() == next,
                forall|t: (int, int)|
                    #![trigger label_of(labels@, wi, t)]
                    map.in_bounds(t) ==> (label_of(labels@, wi, t) matches Some(l) ==> floor_cell(
                        map,
                        t,
                    ) && l < next && map.in_bounds(seeds[l as int]) && linked(
                        wi,
                        hi,
                        map.floor_mask(),
                        seeds[l as int],
                        t,
                    )),
                forall|t: (int, int)|
                    #![trigger label_of(labels@, wi, t)]
                    floor_cell(map, t) && (t.1 < y || (t.1 == y && t.0 < x)) ==> label_of(
                        labels@,
                        wi,
                        t,
                    ) is Some,
                forall|a: (int, int), b: (int, int)|
                    #![trigger label_of(labels@, wi, a), label_of(labels@, wi, b)]
                    map.in_bounds(a) && label_of(labels@, wi, a) is Some && adjacent(a, b)
                        && floor_cell(map, b) ==> label_of(labels@, wi, b) == label_of(
                        labels@,
                        wi,
                        a,
                    ),
                count_none(labels@) + next <= w * h,
                seeds_first(map, labels@, seeds),
                seeds_before_cell(seeds, (x as int, y as int)),
            decreases w - x,
        {
            proof {
                lemma_index_in_range(wi, hi, (x as int, y as int));
            }
            if map.is_walkable(x, y) && labels[y * w + x].is_none() {
                proof {
                    lemma_count_none_update(labels@, y * w + x, next);
                }
                let mut queue: VecDeque<(usize, usize)> = VecDeque::new();
                queue.push_back((x, y));
                let ghost old_labels = labels@;
                let ghost old_seeds = seeds;
                let ghost here = (x as int, y as int);
                labels.set(y * w + x, Some(next));
                proof {
                    let old_s = seeds;
                    seeds = seeds.push(here);
                    assert(seeds.drop_last() == old_s);
                    lemma_floor_passable(map, here);
                    lemma_linked_refl(wi, hi, map.floor_mask(), here);
                    assert forall|t: (int, int)|
                        #![trigger label_of(labels@, wi, t)]
                        map.in_bounds(t) implies label_of(labels@, wi, t) == (if t == here {
                            Some(next)
                        } else {
                            label_of(old_labels, wi, t)
                        }) by {
                        lemma_index_in_range(wi, hi, t);
                        if cell_index(wi, t) == y * w + x {
                            lemma_index_unique(wi, hi, t, here);
                        }
                    }
                    assert forall|t: (int, int)|
                        #![trigger label_of(labels@, wi, t)]
                        map.in_bounds(t) implies (label_of(labels@, wi, t) matches Some(l)
                            ==> floor_cell(map, t) && l < next + 1 && map.in_bounds(seeds[l as int])
                            && linked(wi, hi, map.floor_mask(), seeds[l as int], t)) by {
                        if t != here {
                            if label_of(old_labels, wi, t) is Some {
                                let l = label_of(old_labels, wi, t).unwrap();
                                assert(seeds[l as int] == old_seeds[l as int]);
                            }
                        }
                    }
                    assert forall|t: (int, int)|
                        #![trigger label_of(labels@, wi, t)]
                        floor_cell(map, t) && (t.1 < y || (t.1 == y && t.0 <= x)) implies label_of(
                            labels@,
                            wi,
                            t,
                        ) is Some by {
                        if t != here {
                            assert(label_of(old_labels, wi, t) is Some);
                        }
                    }
                    assert forall|a: (int, int), b: (int, int)|
                        #![trigger label_of(labels@, wi, a), label_of(labels@, wi, b)]
                        map.in_bounds(a) && label_of(labels@, wi, a) is Some && adjacent(a, b)
                            && floor_cell(map, b) && !queue@.contains((a.0 as usize, a.1 as usize))
                            implies label_of(labels@, wi, b) == label_of(labels@, wi, a) by {
                        if a == here {
                            assert(queue@[0] == (x, y));
                        }
                        assert(label_of(old_labels, wi, a) is Some);
                        assert(map.in_bounds(b));
                        assert(label_of(old_labels, wi, b) == label_of(old_labels, wi, a));
                    }
                    // The new seed is the latest found, and the first of its label.
                    assert forall|l1: int, l2: int|
                        0 <= l1 < l2 < seeds.len() implies row_major_lt(#[trigger] seeds[l1], #[trigger] seeds[l2]) by {
                        if l2 < old_s.len() {
                            assert(seeds[l1] == old_s[l1] && seeds[l2] == old_s[l2]);
                        } else {
                            assert(seeds[l1] == old_s[l1]);
                        }
                    }
                    assert forall|l: int| 0 <= l < seeds.len() implies map.in_bounds(#[trigger] seeds[l]) && label_of(
                        labels@,
                        wi,
                        seeds[l],
                    ) == Some(l as usize) by {
                        if l < old_s.len() {
                            assert(seeds[l] == old_s[l]);
                            assert(row_major_lt(old_s[l], here));
                        }
                    }
                    assert forall|t: (int, int)|
                        #![trigger label_of(labels@, wi, t)]
                        map.in_bounds(t) && label_of(labels@, wi, t) is Some && (label_of(labels@, wi, t).unwrap() as int)
                            < seeds.len() implies seeds[label_of(labels@, wi, t).unwrap() as int] == t || row_major_lt(
                            seeds[label_of(labels@, wi, t).unwrap() as int],
                            t,
                        ) by {
                        if t != here {
                            assert(label_of(old_labels, wi, t) == label_of(labels@, wi, t));
                            let l = label_of(labels@, wi, t).unwrap() as int;
                            assert(l < old_s.len());
                            assert(seeds[l] == old_s[l]);
                        }
                    }
                }
                while queue.len() > 0
                    invariant
                        map.inv(),
                        w == map.width,
                        h == map.height,
                        wi == w,
                        hi == h,
                        0 <= y < h,
                        0 <= x < w,
                        next < w * h,
                        labels@.len() == w * h,
                        seeds.len() == next + 1,
                        forall|t: (int, int)|
                            #![trigger label_of(labels@, wi, t)]
                            map.in_bounds(t) ==> (label_of(labels@, wi, t) matches Some(l)
                                ==> floor_cell(map, t) && l < next + 1 && map.in_bounds(
                                seeds[l as int],
                            ) && linked(wi, hi, map.floor_mask(), seeds[l as int], t)),
                        forall|t: (int, int)|
                            #![trigger label_of(labels@, wi, t)]
                            floor_cell(map, t) && (t.1 < y || (t.1 == y && t.0 <= x)) ==> label_of(
                                labels@,
                                wi,
                                t,
                            ) is Some,
                        forall|a: (int, int), b: (int, int)|
                            #![trigger label_of(labels@, wi, a), label_of(labels@, wi, b)]
                            map.in_bounds(a) && label_of(labels@, wi, a) is Some && adjacent(a, b)
                                && floor_cell(map, b) && !queue@.contains(
                                (a.0 as usize, a.1 as usize),
                            ) ==> label_of(labels@, wi, b) == label_of(labels@, wi, a),
                        forall|k: int|
                            0 <= k < queue@.len() ==> map.in_bounds(cell(#[trigger] queue@[k]))
                                && label_of(labels@, wi, cell(queue@[k])) == Some(next),
                        forall|k1: int, k2: int|
                            0 <= k1 < k2 < queue@.len() ==> queue@[k1] != queue@[k2],
                        count_none(labels@) + next + 1 <= w * h,
                        seeds_first(map, labels@, seeds),
                        seeds[next as int] == (x as int, y as int),
                        seeds_before_cell(seeds.drop_last(), (x as int, y as int)),
                    decreases 2 * count_none(labels@) + queue@.len(),
                {
                    let ghost old_queue = queue@;
                    let (cx, cy) = queue.pop_front().unwrap();
                    let ghost popped = (cx, cy);
                    assert forall|t: (usize, usize)|
                        old_queue.contains(t) && t != popped implies #[trigger] queue@.contains(t) by {
                        let q = choose|q: int| 0 <= q < old_queue.len() && old_queue[q] == t;
                        assert(queue@[q - 1] == t);
                    }
                    let ghost m1 = 2 * count_none(labels@) + queue@.len();
                    assert(map.in_bounds(cell(popped)));
                    assert(!queue@.contains(popped)) by {
                        if queue@.contains(popped) {
                            let k = choose|k: int| 0 <= k < queue@.len() && queue@[k] == popped;
                        }
                    }
                    let nbrs = neighbours4(cx, cy, w, h);
                    proof {
                        lemma_neighbour_list(cx, cy, w, h);
                    }
                    let mut k: usize = 0;
                    while k < nbrs.len()
                        invariant
                            map.inv(),
                            w == map.width,
                            h == map.height,
                            wi == w,
                            hi == h,
                            next < w * h,
                            labels@.len() == w * h,
                            seeds.len() == next + 1,
                            nbrs@ == neighbour_list(cx, cy, w, h),
                            map.in_bounds(cell(popped)),
                            popped == (cx, cy),
                            label_of(labels@, wi, cell(popped)) == Some(next),
                            !queue@.contains(popped),
                            0 <= k <= nbrs@.len(),
                            forall|t: (int, int)|
                                #![trigger label_of(labels@, wi, t)]
                                map.in_bounds(t) ==> (label_of(labels@, wi, t) matches Some(l)
                                    ==> floor_cell(map, t) && l < next + 1 && map.in_bounds(
                                    seeds[l as int],
                                ) && linked(wi, hi, map.floor_mask(), seeds[l as int], t)),
                            forall|t: (int, int)|
                                #![trigger label_of(labels@, wi, t)]
                                floor_cell(map, t) && (t.1 < y || (t.1 == y && t.0 <= x))
                                    ==> label_of(labels@, wi, t) is Some,
                            forall|a: (int, int), b: (int, int)|
                                #![trigger label_of(labels@, wi, a), label_of(labels@, wi, b)]
                                map.in_bounds(a) && label_of(labels@, wi, a) is Some && adjacent(
                                    a,
                                    b,
                                ) && floor_cell(map, b) && !queue@.contains(
                                    (a.0 as usize, a.1 as usize),
                                ) && a != cell(popped) ==> label_of(labels@, wi, b) == label_of(
                                    labels@,
                                    wi,
                                    a,
                                ),
                            forall|j: int|
                                0 <= j < k && floor_cell(map, cell(#[trigger] nbrs@[j]))
                                    ==> label_of(labels@, wi, cell(nbrs@[j])) == Some(next),
                            forall|q: int|
                                0 <= q < queue@.len() ==> map.in_bounds(cell(#[trigger] queue@[q]))
                                    && label_of(labels@, wi, cell(queue@[q])) == Some(next),
                            forall|k1: int, k2: int|
                                0 <= k1 < k2 < queue@.len() ==> queue@[k1] != queue@[k2],
                            count_none(labels@) + next + 1 <= w * h,
                            2 * count_none(labels@) + queue@.len() <= m1,
                            seeds_first(map, labels@, seeds),
                            seeds[next as int] == (x as int, y as int),
                            seeds_before_cell(seeds.drop_last(), (x as int, y as int)),
                            0 <= y < h,
                            0 <= x < w,
                        decreases nbrs@.len() - k,
                    {
                        let (nx, ny) = nbrs[k];
                        let ghost nb = (nx as int, ny as int);
                        proof {
                            lemma_index_in_range(wi, hi, nb);
                        }
                        let idx = ny * w + nx;
                        if labels[idx].is_none() && map.is_walkable(nx, ny) {
                            proof {
                                lemma_count_none_update(labels@, idx as int, next);
                                lemma_floor_passable(map, nb);
                                lemma_linked_step(
                                    wi,
                                    hi,
                                    map.floor_mask(),
                                    seeds[next as int],
                                    cell(popped),
                                    nb,
                                );
                            }
                            let ghost old_labels = labels@;
                            let ghost old_queue = queue@;
                            labels.set(idx, Some(next));
                            assert(!queue@.contains((nx, ny))) by {
                                if queue@.contains((nx, ny)) {
                                    let q = choose|q: int| 0 <= q < queue@.len() && queue@[q] == (nx, ny);
                                    assert(label_of(old_labels, wi, cell(queue@[q])) == Some(next));
                                }
                            }
                            queue.push_back((nx, ny));
                            proof {
                                assert forall|t: (int, int)|
                                    #![trigger label_of(labels@, wi, t)]
                                    map.in_bounds(t) implies label_of(labels@, wi, t) == (if t == nb {
                                        Some(next)
                                    } else {
                                        label_of(old_labels, wi, t)
                                    }) by {
                                    lemma_index_in_range(wi, hi, t);
                                    if cell_index(wi, t) == idx {
                                        lemma_index_unique(wi, hi, t, nb);
                                    }
                                }
                                assert(row_major_lt((x as int, y as int), nb)) by {
                                    assert(floor_cell(map, nb));
                                    assert(label_of(old_labels, wi, nb) is None);
                                }
                                lemma_seed_keeps(map, old_labels, labels@, seeds, nb);
                                assert forall|a: (int, int), b: (int, int)|
                                    #![trigger label_of(labels@, wi, a), label_of(labels@, wi, b)]
                                    map.in_bounds(a) && label_of(labels@, wi, a) is Some && adjacent(
                                        a,
                                        b,
                                    ) && floor_cell(map, b) && !queue@.contains(
                                        (a.0 as usize, a.1 as usize),
                                    ) && a != cell(popped) implies label_of(labels@, wi, b)
                                    == label_of(labels@, wi, a) by {
                                    assert(a != nb) by {
                                        if a == nb {
                                            assert(queue@[queue@.len() - 1] == (nx, ny));
                                        }
                                    }
                                    assert(label_of(old_labels, wi, a) is Some);
                                    assert(!old_queue.contains((a.0 as usize, a.1 as usize))) by {
                                        if old_queue.contains((a.0 as usize, a.1 as usize)) {
                                            let q = choose|q: int| 0 <= q < old_queue.len() && old_queue[q] == (a.0 as usize, a.1 as usize);
                                            assert(queue@[q] == old_queue[q]);
                                        }
                                    }
                                    assert(map.in_bounds(b));
                                    assert(label_of(old_labels, wi, b) == label_of(
                                        old_labels,
                                        wi,
                                        a,
                                    ));
                                }
                                assert forall|j: int|
                                    0 <= j < k + 1 && floor_cell(map, cell(#[trigger] nbrs@[j]))
                                        implies label_of(labels@, wi, cell(nbrs@[j])) == Some(next) by {
                                    assert(map.in_bounds(cell(nbrs@[j])));
                                }
                            }
                        } else {
                            proof {
                                if floor_cell(map, nb) {
                                    lemma_floor_passable(map, nb);
                                    assert(label_of(labels@, wi, nb) is Some);
                                    let l = label_of(labels@, wi, nb).unwrap();
                                    if l != next {
                                        assert(!queue@.contains((nx, ny))) by {
                                            if queue@.contains((nx, ny)) {
                                                let q = choose|q: int| 0 <= q < queue@.len() && queue@[q] == (nx, ny);
                                                assert(label_of(labels@, wi, cell(queue@[q])) == Some(next));
                                            }
                                        }
                                        assert(adjacent(nb, cell(popped)));
                                        assert(floor_cell(map, cell(popped)));
                                        assert(label_of(labels@, wi, cell(popped)) == label_of(
                                            labels@,
                                            wi,
                                            nb,
                                        ));
                                    }
                                }
                                assert forall|j: int|
                                    0 <= j < k + 1 && floor_cell(map, cell(#[trigger] nbrs@[j]))
                                        implies label_of(labels@, wi, cell(nbrs@[j])) == Some(next) by {
                                    assert(map.in_bounds(cell(nbrs@[j])));
                                }
                            }
                        }
                        k = k + 1;
                    }
                    proof {
                        assert forall|a: (int, int), b: (int, int)|
                            #![trigger label_of(labels@, wi, a), label_of(labels@, wi, b)]
                            map.in_bounds(a) && label_of(labels@, wi, a) is Some && adjacent(a, b)
                                && floor_cell(map, b) && !queue@.contains(
                                (a.0 as usize, a.1 as usize),
                            ) implies label_of(labels@, wi, b) == label_of(labels@, wi, a) by {
                            if a == cell(popped) {
                                let j = choose|j: int|
                                    0 <= j < nbrs@.len() && cell(#[trigger] nbrs@[j]) == b;
                                assert(floor_cell(map, cell(nbrs@[j])));
                            }
                        }
                    }
                }
                next = next + 1;
            }
            x = x + 1;
        }
        y = y + 1;
    }
    proof {
        assert forall|t: (int, int)|
            #![trigger label_of(labels@, wi, t)]
            map.in_bounds(t) implies (label_of(labels@, wi, t) is Some <==> floor_cell(map, t)) by {
        }
        assert forall|a: (int, int), b: (int, int)|
            #![trigger label_of(labels@, wi, a), label_of(labels@, wi, b)]
            floor_cell(map, a) && floor_cell(map, b) && adjacent(a, b) implies label_of(labels@, wi, a)
            == label_of(labels@, wi, b) by {
        }
        assert forall|a: (int, int), b: (int, int)|
            #![trigger label_of(labels@, wi, a), label_of(labels@, wi, b)]
            map.in_bounds(a) && map.in_bounds(b) && label_of(labels@, wi, a) is Some && label_of(
                labels@,
                wi,
                a,
            ) == label_of(labels@, wi, b) implies linked(wi, hi, map.floor_mask(), a, b) by {
            let l = label_of(labels@, wi, a).unwrap();
            let s = seeds[l as int];
            lemma_linked_symm(wi, hi, map.floor_mask(), s, a);
            lemma_linked_trans(wi, hi, map.floor_mask(), a, s, b);
        }
        assert forall|b: (int, int), l: int|
            #![trigger label_of(labels@, wi, b), label_seen_before(map, labels@, l, b)]
            map.in_bounds(b) && label_of(labels@, wi, b) is Some && 0 <= l < label_of(labels@, wi, b).unwrap()
                implies label_seen_before(map, labels@, l, b) by {
            let lb = label_of(labels@, wi, b).unwrap() as int;
            let u = seeds[l];
            assert(row_major_lt(seeds[l], seeds[lb]));
            assert(label_of(labels@, wi, u) == Some(l as usize));
        }
    }
    labels
}


/// Every floor tile of the map is joined to `s` by a walk over floor.
pub open spec fn all_floor_linked(map: &LevelMap, s: (int, int)) -> bool {
    forall|t: (int, int)|
        #[trigger] floor_cell(map, t) ==> linked(
            map.width as int,
            map.height as int,
            map.floor_mask(),
            s,
            t,
        )
}

/// The tiles a carved route may cross from `s`: any unprotected tile, and
/// floor that is already joined to `s`.
pub open spec fn carve_mask(map: &LevelMap, protected: Seq<bool>, s: (int, int)) -> Seq<bool> {
    Seq::new(
        map.cells().len(),
        |i: int|
            !protected[i] || (map.cells()[i] == Tile::Floor && linked(
                map.width as int,
                map.height as int,
                map.floor_mask(),
                s,
                index_cell(map.width as int, i),
            )),
    )
}

/// Some floor tile is cut off from `s`: no walk over floor joins them, and no
/// route through unprotected tiles could be carved to it.
pub open spec fn boxed_in(map: &LevelMap, protected: Seq<bool>, s: (int, int)) -> bool {
    exists|t: (int, int)|
        #[trigger] floor_cell(map, t) && !linked(
            map.width as int,
            map.height as int,
            map.floor_mask(),
            s,
            t,
        ) && !linked(map.width as int, map.height as int, carve_mask(map, protected, s), s, t)
}

/// `after` differs from `before` only where an unprotected wall became floor.
pub open spec fn only_carved(before: Seq<Tile>, after: Seq<Tile>, protected: Seq<bool>) -> bool {
    &&& after.len() == before.len()
    &&& forall|i: int|
        0 <= i < before.len() ==> #[trigger] after[i] == before[i] || (before[i] == Tile::Wall
            && after[i] == Tile::Floor && !protected[i])
}

proof fn lemma_count_wall_carve(s: Seq<Tile>, i: int)
    requires
        0 <= i < s.len(),
        s[i] == Tile::Wall,
    ensures
        count_wall(s.update(i, Tile::Floor)) + 1 == count_wall(s),
    decreases s.len(),
{
    let t = s.update(i, Tile::Floor);
    if i < s.len() - 1 {
        assert(t.drop_last() == s.drop_last().update(i, Tile::Floor));
        lemma_count_wall_carve(s.drop_last(), i);
    } else {
        assert(t.drop_last() == s.drop_last());
    }
}

/// Floor tiles joined by a walk over floor carry the same label.
pub proof fn lemma_linked_same_label(
    map: &LevelMap,
    labels: Seq<Option<usize>>,
    a: (int, int),
    b: (int, int),
)
    requires
        map.inv(),
        labels_are_components(map, labels),
        floor_cell(map, a),
        linked(map.width as int, map.height as int, map.floor_mask(), a, b),
    ensures
        floor_cell(map, b),
        label_of(labels, map.width as int, b) == label_of(labels, map.width as int, a),
{
    let w = map.width as int;
    let h = map.height as int;
    let la = label_of(labels, w, a);
    let mark = Seq::new(labels.len(), |i: int| labels[i] == la);
    assert forall|p: (int, int), q: (int, int)|
        #![trigger mark[cell_index(w, p)], mark[cell_index(w, q)]]
        in_grid(w, h, p) && mark[cell_index(w, p)] && adjacent(p, q) && passable(
            w,
            h,
            map.floor_mask(),
            q,
        ) implies mark[cell_index(w, q)] by {
        lemma_index_in_range(w, h, p);
        lemma_index_in_range(w, h, q);
        lemma_floor_passable(map, q);
        assert(label_of(labels, w, p) == la);
        assert(label_of(labels, w, p) is Some);
        assert(floor_cell(map, p));
        assert(label_of(labels, w, q) == label_of(labels, w, p));
    }
    lemma_index_in_range(w, h, a);
    lemma_closed_contains_linked(w, h, map.floor_mask(), mark, a, b);
    crate::grid::lemma_linked_ends(w, h, map.floor_mask(), a, b);
    lemma_index_in_range(w, h, b);
    lemma_floor_passable(map, b);
}

/// With no tile of another component left, every floor tile is joined to `s`.
proof fn lemma_single_component(
    map: &LevelMap,
    labels: Seq<Option<usize>>,
    main: usize,
    s: (int, int),
)
    requires
        map.inv(),
        labels_are_components(map, labels),
        floor_cell(map, s),
        label_of(labels, map.width as int, s) == Some(main),
        forall|i: int| 0 <= i < labels.len() ==> !is_other(labels, main, i),
    ensures
        all_floor_linked(map, s),
{
    let w = map.width as int;
    let h = map.height as int;
    assert forall|t: (int, int)| #[trigger] floor_cell(map, t) implies linked(
        w,
        h,
        map.floor_mask(),
        s,
        t,
    ) by {
        lemma_index_in_range(w, h, t);
        assert(label_of(labels, w, t) is Some);
        assert(!is_other(labels, main, cell_index(w, t)));
        assert(label_of(labels, w, s) == label_of(labels, w, t));
    }
}

/// A search that found nothing leaves some floor tile cut off from `s`.
proof fn lemma_search_exhausted(
    map: &LevelMap,
    protected: Seq<bool>,
    labels: Seq<Option<usize>>,
    main: usize,
    s: (int, int),
    came: Seq<Option<usize>>,
    dist: Seq<u32>,
    stamp: Seq<nat>,
    other: int,
)
    requires
        map.inv(),
        0 < map.width,
        protected.len() == map.width * map.height,
        labels_are_components(map, labels),
        floor_cell(map, s),
        label_of(labels, map.width as int, s) == Some(main),
        route_result(ctx_of(map, protected, labels, main), None, came, dist, stamp),
        0 <= other < labels.len(),
        is_other(labels, main, other),
    ensures
        floor_cell(map, index_cell(map.width as int, other)),
        !linked(map.width as int, map.height as int, map.floor_mask(), s, index_cell(map.width as int, other)),
        !linked(
            map.width as int,
            map.height as int,
            carve_mask(map, protected, s),
            s,
            index_cell(map.width as int, other),
        ),
{
    let w = map.width as int;
    let h = map.height as int;
    let n = w * h;
    let c = ctx_of(map, protected, labels, main);
    let pass = carve_mask(map, protected, s);
    lemma_index_cell(w, h, other);
    let t = index_cell(w, other);
    assert(label_of(labels, w, t) is Some);
    assert(floor_cell(map, t));
    if linked(w, h, map.floor_mask(), s, t) {
        lemma_linked_same_label(map, labels, s, t);
    }
    let mark = Seq::new(n as nat, |i: int| dist[i] < u32::MAX);
    assert forall|p: (int, int), q: (int, int)|
        #![trigger mark[cell_index(w, p)], mark[cell_index(w, q)]]
        in_grid(w, h, p) && mark[cell_index(w, p)] && adjacent(p, q) && passable(w, h, pass, q)
            implies mark[cell_index(w, q)] by {
        let ip = cell_index(w, p);
        let iq = cell_index(w, q);
        lemma_cell_roundtrip(map.width, map.height, p);
        lemma_cell_roundtrip(map.width, map.height, q);
        assert(dist[ip] < u32::MAX);
        if !protected[iq] {
            assert(relaxed(c.w, n, c.cells, c.protected, dist, ip));
            assert(adjacent(super::route::cof(c.w, ip), super::route::cof(c.w, iq)));
            assert(dist[iq] <= dist[ip] + wall_step(c.cells, iq));
        } else {
            assert(index_cell(w, iq) == q);
            assert(linked(w, h, map.floor_mask(), s, q));
            lemma_linked_same_label(map, labels, s, q);
            assert(labels[iq] == Some(main));
        }
    }
    lemma_index_in_range(w, h, s);
    assert(mark[cell_index(w, s)]);
    if linked(w, h, pass, s, t) {
        lemma_closed_contains_linked(w, h, pass, mark, s, t);
        assert(dist[other] < u32::MAX);
    }
}

/// Carving only adds floor, so every walk over the floor before carving is a
/// walk over the floor after it, and so is every walk a carve could have used.
proof fn lemma_carving_keeps_walks(before: &LevelMap, after: &LevelMap, protected: Seq<bool>, s: (int, int))
    requires
        before.inv(),
        after.inv(),
        after.width == before.width,
        after.height == before.height,
        protected.len() == before.width * before.height,
        only_carved(before.cells(), after.cells(), protected),
    ensures
        forall|i: int|
            0 <= i < before.width * before.height && #[trigger] before.floor_mask()[i] ==> after.floor_mask()[i],
        forall|i: int|
            0 <= i < before.width * before.height && #[trigger] carve_mask(before, protected, s)[i]
                ==> carve_mask(after, protected, s)[i],
{
    let w = before.width as int;
    let h = before.height as int;
    assert forall|i: int|
        0 <= i < w * h && #[trigger] before.floor_mask()[i] implies after.floor_mask()[i] by {
        assert(before.cells()[i] == Tile::Floor);
        assert(after.cells()[i] == before.cells()[i] || before.cells()[i] == Tile::Wall);
    }
    assert forall|i: int|
        0 <= i < w * h && #[trigger] carve_mask(before, protected, s)[i] implies carve_mask(
            after,
            protected,
            s,
        )[i] by {
        if protected[i] {
            assert(before.cells()[i] == Tile::Floor);
            assert(after.cells()[i] == Tile::Floor);
            lemma_linked_mono(w, h, before.floor_mask(), after.floor_mask(), s, index_cell(w, i));
        }
    }
}

/// The floor of a grid, as a mask.
pub open spec fn floor_of(cells: Seq<Tile>) -> Seq<bool> {
    cells.map_values(|c: Tile| c == Tile::Floor)
}

/// `q` lists the row-major indices of a route a carve could take out of the
/// floor joined to `s`: a 4-adjacent walk that starts on floor joined to `s`,
/// crosses only unprotected tiles after its first, and ends on floor not
/// joined to `s`.
pub open spec fn carvable_route(w: usize, h: usize, cells: Seq<Tile>, prot: Seq<bool>, s: (int, int), q: Seq<int>) -> bool {
    &&& q.len() >= 1
    &&& forall|i: int| 0 <= i < q.len() ==> 0 <= #[trigger] q[i] < w * h
    &&& forall|i: int| 0 <= i < q.len() - 1 ==> adjacent(cof(w, #[trigger] q[i]), cof(w, q[i + 1]))
    &&& forall|i: int| 1 <= i < q.len() ==> !prot[#[trigger] q[i]]
    &&& cells[q[0]] == Tile::Floor && linked(w as int, h as int, floor_of(cells), s, cof(w, q[0]))
    &&& cells[q.last()] == Tile::Floor && !linked(w as int, h as int, floor_of(cells), s, cof(w, q.last()))
}

/// `q` is a carvable route crossing as few walls as any.
pub open spec fn cheapest_route(w: usize, h: usize, cells: Seq<Tile>, prot: Seq<bool>, s: (int, int), q: Seq<int>) -> bool {
    &&& carvable_route(w, h, cells, prot, s, q)
    &&& forall|r: Seq<int>|
        #[trigger] carvable_route(w, h, cells, prot, s, r) ==> walls_in(cells, q.drop_first()) <= walls_in(
            cells,
            r.drop_first(),
        )
}

/// The grid with every tile `q` lists turned to floor.
pub open spec fn carve_along(cells: Seq<Tile>, q: Seq<int>) -> Seq<Tile> {
    Seq::new(cells.len(), |i: int| if q.contains(i) { Tile::Floor } else { cells[i] })
}

/// `out` is what carving one cheapest route after another, in the order of
/// `routes`, makes of `cells`; each route is cheapest on the grid as the
/// earlier rounds left it.
pub open spec fn carved_in_rounds(
    w: usize,
    h: usize,
    cells: Seq<Tile>,
    prot: Seq<bool>,
    s: (int, int),
    routes: Seq<Seq<int>>,
    out: Seq<Tile>,
) -> bool
    decreases routes.len(),
{
    if routes.len() == 0 {
        out == cells
    } else {
        &&& cheapest_route(w, h, cells, prot, s, routes[0])
        &&& carved_in_rounds(w, h, carve_along(cells, routes[0]), prot, s, routes.drop_first(), out)
    }
}

/// One more cheapest round extends the rounds so far.
proof fn lemma_rounds_push(
    w: usize,
    h: usize,
    cells: Seq<Tile>,
    prot: Seq<bool>,
    s: (int, int),
    routes: Seq<Seq<int>>,
    mid: Seq<Tile>,
    q: Seq<int>,
)
    requires
        carved_in_rounds(w, h, cells, prot, s, routes, mid),
        cheapest_route(w, h, mid, prot, s, q),
    ensures
        carved_in_rounds(w, h, cells, prot, s, routes.push(q), carve_along(mid, q)),
    decreases routes.len(),
{
    let r2 = routes.push(q);
    if routes.len() == 0 {
        assert(r2.drop_first() =~= Seq::<Seq<int>>::empty());
        assert(r2[0] == q);
        assert(mid == cells);
        assert(carved_in_rounds(w, h, carve_along(cells, q), prot, s, r2.drop_first(), carve_along(mid, q)));
    } else {
        assert(r2[0] == routes[0]);
        assert(r2.drop_first() =~= routes.drop_first().push(q));
        lemma_rounds_push(w, h, carve_along(cells, routes[0]), prot, s, routes.drop_first(), mid, q);
    }
}

/// There is a tile of another component.
fn has_other(labels: &Vec<Option<usize>>, main: usize) -> (r: bool)
    ensures
        r <==> exists|i: int| 0 <= i < labels@.len() && is_other(labels@, main, i),
{
    let mut i: usize = 0;
    while i < labels.len()
        invariant
            0 <= i <= labels@.len(),
            forall|j: int| 0 <= j < i ==> !is_other(labels@, main, j),
        decreases labels@.len() - i,
    {
        match labels[i] {
            Some(l) => {
                if l != main {
                    assert(is_other(labels@, main, i as int));
                    return true;
                }
            },
            None => {},
        }
        i = i + 1;
    }
    false
}

/// Carve unprotected walls until every floor tile is joined to `start`.
///
/// Repeatedly: label the floor components; while another component remains,
/// search out of `start`'s component (floor free, unprotected walls at cost
/// one, protected tiles impassable) for the cheapest route to another
/// component's floor, and carve the walls along it. Protected tiles are never
/// touched. A level already joined is left as it is; when no route exists
/// from the input level, some floor tile of it is cut off from `start`.
pub fn carve_connect(map: &mut LevelMap, protected: &[bool], start: (usize, usize))
    requires
        old(map).inv(),
        start.0 < old(map).width,
        start.1 < old(map).height,
        protected@.len() == old(map).width * old(map).height,
        old(map).width * old(map).height < u32::MAX - 2,
    ensures
        final(map).inv(),
        final(map).width == old(map).width,
        final(map).height == old(map).height,
        final(map).tags() == old(map).tags(),
        final(map).room_list() == old(map).room_list(),
        only_carved(old(map).cells(), final(map).cells(), protected@),
        !floor_cell(&*old(map), cell(start)) ==> final(map).cells() == old(map).cells(),
        all_floor_linked(&*old(map), cell(start)) ==> final(map).cells() == old(map).cells(),
        exists|routes: Seq<Seq<int>>|
            carved_in_rounds(
                old(map).width,
                old(map).height,
                old(map).cells(),
                protected@,
                cell(start),
                routes,
                final(map).cells(),
            ),
        floor_cell(&*old(map), cell(start)) ==> all_floor_linked(&*final(map), cell(start)) || (boxed_in(
            &*old(map),
            protected@,
            cell(start),
        ) && boxed_in(&*final(map), protected@, cell(start))),
{
    let (w, h) = (map.width, map.height);
    let ghost orig = *map;
    let ghost s = cell(start);
    let ghost wi = w as int;
    let ghost hi = h as int;
    proof {
        lemma_index_in_range(wi, hi, s);
    }
    let si = start.1 * w + start.0;
    let ghost mut routes: Seq<Seq<int>> = Seq::empty();
    loop
        invariant
            orig == *old(map),
            wi == w as int,
            hi == h as int,
            map.inv(),
            orig.inv(),
            map.width == w,
            map.height == h,
            orig.width == w,
            orig.height == h,
            0 < w,
            w * h < u32::MAX - 2,
            si == cell_index(wi, s),
            0 <= si < w * h,
            in_grid(wi, hi, s),
            s == cell(start),
            protected@.len() == w * h,
            map.tags() == orig.tags(),
            map.room_list() == orig.room_list(),
            only_carved(orig.cells(), map.cells(), protected@),
            orig.cells()[si as int] == Tile::Floor || map.cells() == orig.cells(),
            all_floor_linked(&orig, s) ==> map.cells() == orig.cells(),
            forall|i: int|
                0 <= i < w * h && #[trigger] map.cells()[i] != orig.cells()[i] ==> linked(
                    wi,
                    hi,
                    map.floor_mask(),
                    s,
                    index_cell(wi, i),
                ),
            carved_in_rounds(w, h, orig.cells(), protected@, s, routes, map.cells()),
        decreases count_wall(map.cells()),
    {
        let labels = label_components(map);
        let main = match labels[si] {
            Some(m) => m,
            None => {
                proof {
                    assert(label_of(labels@, wi, s) is None);
                    assert(labels_mark_floor(map, labels@));
                    assert(map.in_bounds(s));
                    assert(!floor_cell(map, s));
                }
                return;
            },
        };
        proof {
            assert(label_of(labels@, wi, s) == Some(main));
            assert(floor_cell(map, s));
        }
        if !has_other(&labels, main) {
            proof {
                lemma_single_component(map, labels@, main, s);
            }
            return;
        }
        proof {
            if all_floor_linked(&orig, s) {
                assert(map.floor_mask() =~= orig.floor_mask());
                let other = choose|i: int| 0 <= i < labels@.len() && is_other(labels@, main, i);
                let u = index_cell(wi, other);
                lemma_index_cell(wi, hi, other);
                assert(label_of(labels@, wi, u) is Some);
                assert(floor_cell(map, u));
                assert(floor_cell(&orig, u));
                lemma_linked_same_label(map, labels@, s, u);
                assert(false);
            }
        }
        let res = route_out(map, protected, &labels, main);
        let (target, came, dist, stamp_g) = res;
        let ghost stamp = stamp_g@;
        let ghost c = ctx_of(map, protected@, labels@, main);
        let t = match target {
            Some(t) => t,
            None => {
                proof {
                    let other = choose|i: int| 0 <= i < labels@.len() && is_other(labels@, main, i);
                    lemma_search_exhausted(map, protected@, labels@, main, s, came@, dist@, stamp, other);
                    let u = index_cell(wi, other);
                    lemma_index_cell(wi, hi, other);
                    assert(map.cells()[other] == orig.cells()[other]);
                    assert(floor_cell(&orig, u));
                    lemma_carving_keeps_walks(&orig, map, protected@, s);
                    if linked(wi, hi, orig.floor_mask(), s, u) {
                        lemma_linked_mono(wi, hi, orig.floor_mask(), map.floor_mask(), s, u);
                    }
                    if linked(wi, hi, carve_mask(&orig, protected@, s), s, u) {
                        lemma_linked_mono(wi, hi, carve_mask(&orig, protected@, s), carve_mask(map, protected@, s), s, u);
                    }
                    assert(boxed_in(&orig, protected@, s));
                    assert(floor_cell(map, u));
                    assert(boxed_in(map, protected@, s));
                }
                return;
            },
        };
        // Walk the route tree back from the target, carving its walls.
        let ghost map0 = *map;
        let ghost cells0 = map0.cells();
        proof {
            assert(forall|i: int|
                0 <= i < w * h && #[trigger] cells0[i] != orig.cells()[i] ==> linked(
                    wi,
                    hi,
                    map0.floor_mask(),
                    s,
                    index_cell(wi, i),
                ));
            assert(only_carved(orig.cells(), cells0, protected@));
            assert(!all_floor_linked(&orig, s));
            assert(labels_are_components(&map0, labels@));
            assert(label_of(labels@, wi, s) == Some(main));
        }
        let ghost mut carved = false;
        let ghost mut started = false;
        let ghost mut last: int = 0;
        let ghost mut qtail: Seq<int> = Seq::empty();
        proof {
            assert(carve_along(cells0, qtail) =~= cells0);
        }
        let mut cur = t;
        while came[cur].is_some()
            invariant
                wi == w as int,
                hi == h as int,
                map.inv(),
                map0.inv(),
                map.width == w,
                map.height == h,
                map0.width == w,
                map0.height == h,
                0 < w,
                w * h < u32::MAX - 2,
                cells0 == map0.cells(),
                protected@.len() == w * h,
                map.tags() == map0.tags(),
                map.room_list() == map0.room_list(),
                labels_are_components(&map0, labels@),
                c == ctx_of(&map0, protected@, labels@, main),
                route_result(c, Some(t), came@, dist@, stamp),
                cur < w * h,
                dist@[cur as int] < u32::MAX,
                t < w * h,
                is_other(labels@, main, t as int),
                only_carved(cells0, map.cells(), protected@),
                carved ==> count_wall(map.cells()) < count_wall(cells0),
                !carved ==> map.cells() == cells0,
                !carved ==> (cells0[cur as int] == Tile::Floor ==> labels@[cur as int] == labels@[t as int]),
                !started ==> cur == t,
                started ==> 0 <= last < w * h && map.cells()[last] == Tile::Floor && adjacent(
                    index_cell(wi, last),
                    index_cell(wi, cur as int),
                ),
                started ==> forall|i: int|
                    0 <= i < w * h && #[trigger] map.cells()[i] != cells0[i] ==> linked(
                        wi,
                        hi,
                        map.floor_mask(),
                        index_cell(wi, i),
                        index_cell(wi, last),
                    ),
                !started ==> map.cells() == cells0,
                !started ==> qtail.len() == 0,
                started ==> qtail.len() >= 1 && qtail[0] == last && qtail.last() == t as int,
                forall|i: int| 0 <= i < qtail.len() ==> 0 <= #[trigger] qtail[i] < w * h && !protected@[qtail[i]],
                forall|i: int| 0 <= i < qtail.len() - 1 ==> adjacent(cof(w, #[trigger] qtail[i]), cof(w, qtail[i + 1])),
                map.cells() == carve_along(cells0, qtail),
                walls_in(cells0, qtail) + dist@[cur as int] <= dist@[t as int],
            decreases dist@[cur as int], stamp[cur as int],
        {
            let prev = came[cur].unwrap();
            proof {
                assert(chain_link(c.w, c.n(), c.cells, c.protected, dist@, stamp, cur as int, prev as int));
                lemma_index_cell(wi, hi, cur as int);
                lemma_index_cell(wi, hi, prev as int);
            }
            let ghost map_step = *map;
            let ghost before_step = map.cells();
            let (cx, cy) = (cur % w, cur / w);
            if map.get(cx, cy) == Tile::Wall {
                let ghost before = map.cells();
                map.set(cx, cy, Tile::Floor);
                proof {
                    lemma_count_wall_carve(before, cur as int);
                    assert forall|i: int| 0 <= i < cells0.len() implies #[trigger] map.cells()[i]
                        == cells0[i] || (cells0[i] == Tile::Wall && map.cells()[i] == Tile::Floor
                        && !protected@[i]) by {
                        if i != cur {
                            assert(map.cells()[i] == before[i]);
                        }
                    }
                    carved = true;
                }
            }
            proof {
                let pc = index_cell(wi, cur as int);
                assert(map.cells()[cur as int] == Tile::Floor);
                assert(passable(wi, hi, map.floor_mask(), pc));
                lemma_linked_refl(wi, hi, map.floor_mask(), pc);
                if started {
                    let pl = index_cell(wi, last);
                    lemma_index_cell(wi, hi, last);
                    assert(passable(wi, hi, map.floor_mask(), pl));
                    lemma_linked_refl(wi, hi, map.floor_mask(), pl);
                    lemma_linked_step(wi, hi, map.floor_mask(), pl, pl, pc);
                }
                assert forall|i: int|
                    0 <= i < w * h && #[trigger] map.cells()[i] != cells0[i] implies linked(
                        wi,
                        hi,
                        map.floor_mask(),
                        index_cell(wi, i),
                        pc,
                    ) by {
                    if i == cur as int {
                        lemma_index_cell(wi, hi, i);
                    } else {
                        assert(started);
                        assert(map.cells()[i] == before_step[i]);
                        let pl = index_cell(wi, last);
                        assert forall|j: int| 0 <= j < wi * hi && #[trigger] map_step.floor_mask()[j] implies map.floor_mask()[j] by {
                            if j != cur as int {
                                assert(map.cells()[j] == before_step[j]);
                            }
                        }
                        lemma_linked_mono(wi, hi, map_step.floor_mask(), map.floor_mask(), index_cell(wi, i), pl);
                        lemma_linked_trans(wi, hi, map.floor_mask(), index_cell(wi, i), pl, pc);
                    }
                }
                // Record the tile just walked in the route.
                let q_old = qtail;
                let q_new = seq![cur as int] + q_old;
                lemma_walls_prepend(cells0, cur as int, q_old);
                assert forall|i: int| 0 <= i < q_new.len() implies 0 <= #[trigger] q_new[i] < w * h && !protected@[q_new[i]] by {
                    if i > 0 {
                        assert(q_new[i] == q_old[i - 1]);
                    }
                }
                assert forall|i: int| 0 <= i < q_new.len() - 1 implies adjacent(cof(w, #[trigger] q_new[i]), cof(w, q_new[i + 1])) by {
                    if i > 0 {
                        assert(q_new[i] == q_old[i - 1] && q_new[i + 1] == q_old[i]);
                    } else {
                        assert(q_new[1] == q_old[0]);
                    }
                }
                assert forall|i: int| 0 <= i < cells0.len() implies #[trigger] map.cells()[i] == carve_along(cells0, q_new)[i] by {
                    if q_old.contains(i) {
                        let k = choose|k: int| 0 <= k < q_old.len() && q_old[k] == i;
                        assert(q_new[k + 1] == i);
                    }
                    if q_new.contains(i) && i != cur as int {
                        let k = choose|k: int| 0 <= k < q_new.len() && q_new[k] == i;
                        assert(k > 0);
                        assert(q_old[k - 1] == i);
                    }
                    if i == cur as int {
                        assert(q_new[0] == i);
                    } else {
                        assert(map.cells()[i] == before_step[i]);
                    }
                }
                assert(map.cells() =~= carve_along(cells0, q_new));
                if started {
                    assert(q_new.last() == q_old.last());
                } else {
                    assert(q_new =~= seq![t as int]);
                }
                qtail = q_new;
                started = true;
                last = cur as int;
                if !carved {
                    let a = index_cell(wi, cur as int);
                    let b = index_cell(wi, prev as int);
                    assert(floor_cell(&map0, a));
                    if cells0[prev as int] == Tile::Floor {
                        assert(floor_cell(&map0, b));
                        assert(adjacent(a, b));
                        assert(label_of(labels@, wi, a) == label_of(labels@, wi, b));
                    }
                }
            }
            cur = prev;
        }
        proof {
            let a = index_cell(wi, cur as int);
            lemma_index_cell(wi, hi, cur as int);
            assert(labels@[cur as int] == Some(main));
            assert(label_of(labels@, wi, a) is Some);
            assert(floor_cell(&map0, a));
            assert(carved);
            assert forall|i: int| 0 <= i < orig.cells().len() implies #[trigger] map.cells()[i]
                == orig.cells()[i] || (orig.cells()[i] == Tile::Wall && map.cells()[i] == Tile::Floor
                && !protected@[i]) by {
                assert(cells0[i] == orig.cells()[i] || (orig.cells()[i] == Tile::Wall && cells0[i] == Tile::Floor));
            }
            assert(orig.cells()[si as int] == Tile::Floor);
            // Everything carved this round hangs off the start's component.
            if !started {
                assert(came@[t as int] is None);
                assert(labels@[t as int] == Some(main));
            }
            assert(started);
            lemma_index_in_range(wi, hi, s);
            assert(map0.in_bounds(s) && map0.in_bounds(a));
            assert(linked(wi, hi, map0.floor_mask(), s, a));
            assert forall|j: int| 0 <= j < wi * hi && #[trigger] map0.floor_mask()[j] implies map.floor_mask()[j] by {
                assert(cells0[j] == Tile::Floor);
            }
            lemma_linked_mono(wi, hi, map0.floor_mask(), map.floor_mask(), s, a);
            let pl = index_cell(wi, last);
            lemma_index_cell(wi, hi, last);
            assert(passable(wi, hi, map.floor_mask(), pl));
            lemma_linked_step(wi, hi, map.floor_mask(), s, a, pl);
            assert forall|i: int|
                0 <= i < w * h && #[trigger] map.cells()[i] != orig.cells()[i] implies linked(
                    wi,
                    hi,
                    map.floor_mask(),
                    s,
                    index_cell(wi, i),
                ) by {
                if map.cells()[i] != cells0[i] {
                    assert(linked(wi, hi, map.floor_mask(), index_cell(wi, i), pl));
                    lemma_linked_symm(wi, hi, map.floor_mask(), index_cell(wi, i), pl);
                    lemma_linked_trans(wi, hi, map.floor_mask(), s, pl, index_cell(wi, i));
                } else {
                    assert(cells0[i] != orig.cells()[i]);
                    lemma_linked_mono(wi, hi, map0.floor_mask(), map.floor_mask(), s, index_cell(wi, i));
                }
            }
            // The walls carved are those of one cheapest route out of the start's floor.
            let root = cur as int;
            let q = seq![root] + qtail;
            lemma_walls_prepend(cells0, root, qtail);
            assert(q.drop_first() =~= qtail);
            assert(dist@[root] == 0);
            assert(map0.floor_mask() =~= floor_of(cells0));
            assert forall|i: int| 0 <= i < cells0.len() implies #[trigger] carve_along(cells0, qtail)[i] == carve_along(cells0, q)[i] by {
                if qtail.contains(i) {
                    let k = choose|k: int| 0 <= k < qtail.len() && qtail[k] == i;
                    assert(q[k + 1] == i);
                }
                if q.contains(i) && i != root {
                    let k = choose|k: int| 0 <= k < q.len() && q[k] == i;
                    assert(qtail[k - 1] == i);
                }
                if i == root {
                    assert(q[0] == i);
                    assert(cells0[i] == Tile::Floor);
                }
            }
            assert(map.cells() =~= carve_along(cells0, q));
            lemma_index_cell(wi, hi, t as int);
            let tc = index_cell(wi, t as int);
            assert(label_of(labels@, wi, tc) == labels@[t as int]);
            assert(floor_cell(&map0, tc));
            assert(!linked(wi, hi, floor_of(cells0), s, tc)) by {
                if linked(wi, hi, floor_of(cells0), s, tc) {
                    lemma_linked_same_label(&map0, labels@, s, tc);
                }
            }
            assert(label_of(labels@, wi, a) == label_of(labels@, wi, s));
            lemma_index_in_range(wi, hi, a);
            assert(linked(wi, hi, floor_of(cells0), s, a));
            assert forall|i: int| 0 <= i < q.len() implies 0 <= #[trigger] q[i] < w * h by {
                if i > 0 {
                    assert(q[i] == qtail[i - 1]);
                }
            }
            assert forall|i: int| 1 <= i < q.len() implies !protected@[#[trigger] q[i]] by {
                assert(q[i] == qtail[i - 1]);
            }
            assert forall|i: int| 0 <= i < q.len() - 1 implies adjacent(cof(w, #[trigger] q[i]), cof(w, q[i + 1])) by {
                if i > 0 {
                    assert(q[i] == qtail[i - 1] && q[i + 1] == qtail[i]);
                } else {
                    assert(q[1] == qtail[0]);
                }
            }
            assert(q.last() == t as int);
            assert(carvable_route(w, h, cells0, protected@, s, q));
            assert forall|r: Seq<int>| #[trigger] carvable_route(w, h, cells0, protected@, s, r) implies walls_in(
                cells0,
                q.drop_first(),
            ) <= walls_in(cells0, r.drop_first()) by {
                let r0 = index_cell(wi, r[0]);
                let rl = index_cell(wi, r.last());
                lemma_index_cell(wi, hi, r[0]);
                lemma_index_cell(wi, hi, r.last());
                assert(floor_cell(&map0, r0));
                lemma_linked_same_label(&map0, labels@, s, r0);
                assert(labels@[r[0]] == Some(main));
                assert(floor_cell(&map0, rl));
                assert(label_of(labels@, wi, rl) is Some);
                assert(labels@[r.last()] != Some(main)) by {
                    if labels@[r.last()] == Some(main) {
                        assert(label_of(labels@, wi, rl) == label_of(labels@, wi, s));
                    }
                }
                assert(escape_walk(c, r));
            }
            lemma_rounds_push(w, h, orig.cells(), protected@, s, routes, cells0, q);
            routes = routes.push(q);
        }
    }
}

} // verus!
