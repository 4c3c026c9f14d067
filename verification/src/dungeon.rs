//! The dungeon pass over a noise cavern: find its floor regions and join them
//! into one piece by carving L-shaped corridors between the closest tiles of
//! neighbouring regions.

use std::collections::VecDeque;

use vstd::prelude::*;
use vstd::string::StringSliceAdditionalSpecFns;

use crate::grid::{
    adjacent, cell, cell_index, in_grid, index_cell, lemma_index_cell, lemma_index_in_range,
    lemma_closed_contains_linked, closed_under_steps, row_major_lt, lemma_index_unique, lemma_linked_mono, lemma_linked_refl, lemma_linked_step, lemma_linked_symm,
    lemma_linked_trans, lemma_neighbour_list, linked, neighbour_list, neighbours4, passable,
};
use crate::level::connect::{
    count_none, floor_cell, label_of, lemma_count_none_le, lemma_count_none_update, lemma_floor_passable,
};
use crate::level::map::{vec_filled, LevelMap, Tile, MAP_HEIGHT, MAP_WIDTH};
use crate::level::noise::{build_noise_map, central_dist, find_central_floor, is_floor_at, on_border};
use crate::seed::{derived, RunSeed};

verus! {

/// The dungeon grid: the same row-major tile grid as a level, without rooms.
pub type DungeonMap = LevelMap;

/// `v` lies between `a` and `b`, inclusive, in either order.
pub open spec fn between(a: int, b: int, v: int) -> bool {
    (a <= v <= b) || (b <= v <= a)
}

/// `t` is on the L-shaped corridor from `from` to `to`: along `from`'s row to
/// `to`'s column, then along that column to `to`.
pub open spec fn on_corridor(from: (int, int), to: (int, int), t: (int, int)) -> bool {
    (t.1 == from.1 && between(from.0, to.0, t.0)) || (t.0 == to.0 && between(from.1, to.1, t.1))
}

/// Setting one more tile to floor extends a walk from `from` that ended next
/// to it (or starts one, at `from` itself).
proof fn lemma_extend_walk(m0: LevelMap, m1: LevelMap, from: (int, int), last: Option<(int, int)>, c: (int, int))
    requires
        m0.inv(),
        m1.inv(),
        m0.width == m1.width,
        m0.height == m1.height,
        in_grid(m0.width as int, m0.height as int, c),
        m1.cells() == m0.cells().update(cell_index(m0.width as int, c), Tile::Floor),
        last matches Some(l) ==> linked(m0.width as int, m0.height as int, m0.floor_mask(), from, l) && adjacent(l, c),
        last is None ==> c == from,
    ensures
        linked(m1.width as int, m1.height as int, m1.floor_mask(), from, c),
{
    let (w, h) = (m0.width as int, m0.height as int);
    lemma_index_in_range(w, h, c);
    assert(passable(w, h, m1.floor_mask(), c));
    match last {
        Some(l) => {
            assert forall|i: int| 0 <= i < w * h && #[trigger] m0.floor_mask()[i] implies m1.floor_mask()[i] by {}
            lemma_linked_mono(w, h, m0.floor_mask(), m1.floor_mask(), from, l);
            lemma_linked_step(w, h, m1.floor_mask(), from, l, c);
        },
        None => {
            lemma_linked_refl(w, h, m1.floor_mask(), c);
        },
    }
}

/// Opening more cells keeps every cell that `p` selects joined to `s`.
proof fn lemma_linked_mono_all(w: int, h: int, a: Seq<bool>, b: Seq<bool>, s: (int, int), p: spec_fn((int, int)) -> bool)
    requires
        0 <= w,
        forall|i: int| 0 <= i < w * h && #[trigger] a[i] ==> b[i],
        forall|t: (int, int)| #[trigger] p(t) ==> linked(w, h, a, s, t),
    ensures
        forall|t: (int, int)| #[trigger] p(t) ==> linked(w, h, b, s, t),
{
    assert forall|t: (int, int)| #[trigger] p(t) implies linked(w, h, b, s, t) by {
        lemma_linked_mono(w, h, a, b, s, t);
    }
}

/// A grid with one more cell turned to floor lets through everything the
/// old one did.
proof fn lemma_floor_grows(m0: LevelMap, m1: LevelMap, c: (int, int))
    requires
        m0.inv(),
        m1.inv(),
        m0.width == m1.width,
        m0.height == m1.height,
        in_grid(m0.width as int, m0.height as int, c),
        m1.cells() == m0.cells().update(cell_index(m0.width as int, c), Tile::Floor),
    ensures
        forall|i: int| 0 <= i < m0.width * m0.height && #[trigger] m0.floor_mask()[i] ==> m1.floor_mask()[i],
{
    lemma_index_in_range(m0.width as int, m0.height as int, c);
}

/// `base` with every cell that `p` selects turned to floor.
pub open spec fn painted(base: Seq<Tile>, w: int, p: spec_fn((int, int)) -> bool) -> Seq<Tile> {
    Seq::new(base.len(), |i: int| if p(index_cell(w, i)) { Tile::Floor } else { base[i] })
}

/// Painting one more cell `c` onto a painted grid paints the selection
/// widened by `c`.
proof fn lemma_paint_one(
    base: Seq<Tile>,
    w: int,
    h: int,
    p: spec_fn((int, int)) -> bool,
    q: spec_fn((int, int)) -> bool,
    cur: Seq<Tile>,
    c: (int, int),
)
    requires
        0 < w,
        base.len() == w * h,
        cur == painted(base, w, p),
        in_grid(w, h, c),
        forall|t: (int, int)| #[trigger] q(t) == (p(t) || t == c),
    ensures
        cur.update(cell_index(w, c), Tile::Floor) == painted(base, w, q),
{
    lemma_index_in_range(w, h, c);
    let next = cur.update(cell_index(w, c), Tile::Floor);
    assert forall|i: int| 0 <= i < w * h implies next[i] == painted(base, w, q)[i] by {
        lemma_index_cell(w, h, i);
        let t = index_cell(w, i);
        assert(q(t) == (p(t) || t == c));
        if i == cell_index(w, c) {
            lemma_index_unique(w, h, t, c);
        } else if t == c {
            assert(cell_index(w, t) == i);
        }
    }
    assert(next =~= painted(base, w, q));
}

/// The cells of the horizontal leg painted before the walker reaches `x`.
pub open spec fn row_leg(from: (int, int), x: int) -> spec_fn((int, int)) -> bool {
    |t: (int, int)| t.1 == from.1 && between(from.0, x, t.0) && t.0 != x
}

/// The cells painted before the walker on the vertical leg reaches `y`.
pub open spec fn column_leg(from: (int, int), to: (int, int), y: int) -> spec_fn((int, int)) -> bool {
    |t: (int, int)|
        (t.1 == from.1 && between(from.0, to.0, t.0) && t.0 != to.0) || (t.0 == to.0 && between(
            from.1,
            y,
            t.1,
        ) && t.1 != y)
}



/// The rank of `b` among the neighbours of `a`, in the order the flood fill
/// visits them: left, right, up, down.
pub open spec fn nbr_rank(a: (usize, usize), b: (usize, usize)) -> int {
    if b.0 + 1 == a.0 {
        0
    } else if b.0 == a.0 + 1 {
        1
    } else if b.1 + 1 == a.1 {
        2
    } else {
        3
    }
}

/// `r[p]` is the earliest tile before `r[j]` that is adjacent to it.
pub open spec fn first_nbr(r: Seq<(usize, usize)>, j: int, p: int) -> bool {
    &&& 0 <= p < j < r.len()
    &&& adjacent(cell(r[p]), cell(r[j]))
    &&& forall|q: int| 0 <= q < p ==> !adjacent(cell(#[trigger] r[q]), cell(r[j]))
}

/// Some tile before `r[j]` is adjacent to it.
pub open spec fn found_from_earlier(r: Seq<(usize, usize)>, j: int) -> bool {
    exists|p: int| #[trigger] first_nbr(r, j, p)
}

/// `r` lists its tiles in breadth-first order from `r[0]`: every later tile
/// has an earlier neighbour, and tiles come in the order of their earliest
/// earlier neighbour, ties broken by neighbour rank.
pub open spec fn bfs_order(r: Seq<(usize, usize)>) -> bool {
    &&& forall|j: int| 0 < j < r.len() ==> #[trigger] found_from_earlier(r, j)
    &&& forall|i: int, j: int, pi: int, pj: int|
        #![trigger first_nbr(r, i, pi), first_nbr(r, j, pj)]
        0 < i < j < r.len() && first_nbr(r, i, pi) && first_nbr(r, j, pj) ==> pi < pj || (pi == pj
            && nbr_rank(r[pi], r[i]) < nbr_rank(r[pj], r[j]))
}

/// The breadth-first bookkeeping of the tiles found so far: tile `j` after
/// the first was found by its earliest earlier neighbour `par[j]`, and tiles
/// were found in the order of their finders, then of neighbour rank.
spec fn bfs_parents(s: Seq<(usize, usize)>, par: Seq<int>) -> bool {
    &&& par.len() == s.len()
    &&& forall|j: int| 0 < j < s.len() ==> first_nbr(s, j, #[trigger] par[j])
    &&& forall|i: int, j: int|
        0 < i < j < s.len() ==> #[trigger] par[i] < #[trigger] par[j] || (par[i] == par[j] && nbr_rank(
            s[par[i]],
            s[i],
        ) < nbr_rank(s[par[j]], s[j]))
}

/// A tile has exactly one earliest earlier neighbour.
proof fn lemma_first_nbr_unique(r: Seq<(usize, usize)>, j: int, p1: int, p2: int)
    requires
        first_nbr(r, j, p1),
        first_nbr(r, j, p2),
    ensures
        p1 == p2,
{
    if p1 < p2 {
        assert(!adjacent(cell(r[p1]), cell(r[j])));
    } else if p2 < p1 {
        assert(!adjacent(cell(r[p2]), cell(r[j])));
    }
}

/// Bookkeeping with parents makes a breadth-first order.
proof fn lemma_bfs_order(s: Seq<(usize, usize)>, par: Seq<int>)
    requires
        bfs_parents(s, par),
    ensures
        bfs_order(s),
{
    assert forall|j: int| 0 < j < s.len() implies #[trigger] found_from_earlier(s, j) by {
        assert(first_nbr(s, j, par[j]));
    }
    assert forall|i: int, j: int, pi: int, pj: int|
        #![trigger first_nbr(s, i, pi), first_nbr(s, j, pj)]
        0 < i < j < s.len() && first_nbr(s, i, pi) && first_nbr(s, j, pj) implies pi < pj || (pi == pj
            && nbr_rank(s[pi], s[i]) < nbr_rank(s[pj], s[j])) by {
        assert(first_nbr(s, i, par[i]));
        assert(first_nbr(s, j, par[j]));
        lemma_first_nbr_unique(s, i, pi, par[i]);
        lemma_first_nbr_unique(s, j, pj, par[j]);
    }
}

/// Along the neighbour list the ranks strictly increase.
proof fn lemma_nbr_ranks(x: usize, y: usize, w: usize, h: usize)
    ensures
        forall|k1: int, k2: int|
            0 <= k1 < k2 < neighbour_list(x, y, w, h).len() ==> nbr_rank(
                (x, y),
                #[trigger] neighbour_list(x, y, w, h)[k1],
            ) < nbr_rank((x, y), #[trigger] neighbour_list(x, y, w, h)[k2]),
        forall|k: int|
            0 <= k < neighbour_list(x, y, w, h).len() ==> 0 <= nbr_rank(
                (x, y),
                #[trigger] neighbour_list(x, y, w, h)[k],
            ) < 4,
{
    let l = neighbour_list(x, y, w, h);
    let s0 = Seq::<(usize, usize)>::empty();
    let s1 = if x > 0 { s0.push(((x - 1) as usize, y)) } else { s0 };
    let s2 = if x + 1 < w { s1.push(((x + 1) as usize, y)) } else { s1 };
    let s3 = if y > 0 { s2.push((x, (y - 1) as usize)) } else { s2 };
    assert forall|k: int| 0 <= k < s1.len() implies nbr_rank((x, y), #[trigger] s1[k]) == 0 by {}
    assert forall|k: int| 0 <= k < s2.len() implies nbr_rank((x, y), #[trigger] s2[k]) == if k < s1.len() {
        0int
    } else {
        1int
    } by {
        if k < s1.len() {
            assert(s2[k] == s1[k]);
        }
    }
    assert forall|k: int| 0 <= k < s3.len() implies nbr_rank((x, y), #[trigger] s3[k]) == if k < s1.len() {
        0int
    } else if k < s2.len() {
        1int
    } else {
        2int
    } by {
        if k < s2.len() {
            assert(s3[k] == s2[k]);
        }
    }
    assert forall|k: int| 0 <= k < l.len() implies nbr_rank((x, y), #[trigger] l[k]) == if k < s1.len() {
        0int
    } else if k < s2.len() {
        1int
    } else if k < s3.len() {
        2int
    } else {
        3int
    } by {
        if k < s3.len() {
            assert(l[k] == s3[k]);
        }
    }
}

/// A tile that is floor but unlabelled lies next to no tile of the region
/// other than the one being expanded: every other tile has handed its label
/// to its floor neighbours already.
proof fn lemma_unfound_apart(
    map: &LevelMap,
    lab: Seq<Option<usize>>,
    queue: Seq<(usize, usize)>,
    region: Seq<(usize, usize)>,
    next: usize,
    t: (int, int),
)
    requires
        all_labelled(map, lab, region, next),
        no_repeats(region),
        forall|k: int| 0 <= k < region.len() ==> !queue.contains(#[trigger] region[k]),
        region.len() > 0,
        closed_except(map, lab, queue, cell(region.last())),
        floor_cell(map, t),
        label_of(lab, map.width as int, t) is None,
    ensures
        forall|q: int| 0 <= q < region.len() - 1 ==> !adjacent(cell(#[trigger] region[q]), t),
{
    let w = map.width as int;
    assert forall|q: int| 0 <= q < region.len() - 1 implies !adjacent(cell(#[trigger] region[q]), t) by {
        let a = cell(region[q]);
        assert(map.in_bounds(a) && label_of(lab, w, a) == Some(next));
        assert(tile_at(a) == region[q]);
        assert(region[q] != region[region.len() - 1]);
        if adjacent(a, t) {
            assert(label_of(lab, w, t) == label_of(lab, w, a));
        }
    }
}

/// Queueing a newly found tile `t`, next to the tile being expanded (the
/// region's last) and to no earlier one, with a rank above every tile that
/// tile found before, keeps the breadth-first bookkeeping.
proof fn lemma_bfs_push(
    region: Seq<(usize, usize)>,
    queue: Seq<(usize, usize)>,
    par: Seq<int>,
    t: (usize, usize),
)
    requires
        region.len() > 0,
        bfs_parents(region + queue, par),
        forall|j: int| 0 < j < par.len() ==> #[trigger] par[j] <= region.len() - 1,
        forall|j: int|
            0 < j < par.len() && #[trigger] par[j] == region.len() - 1 ==> nbr_rank(
                region.last(),
                (region + queue)[j],
            ) < nbr_rank(region.last(), t),
        adjacent(cell(region.last()), cell(t)),
        forall|q: int| 0 <= q < region.len() - 1 ==> !adjacent(cell(#[trigger] region[q]), cell(t)),
    ensures
        bfs_parents(region + queue.push(t), par.push(region.len() - 1)),
        forall|j: int|
            0 < j < par.len() + 1 ==> #[trigger] par.push(region.len() - 1)[j] <= region.len() - 1,
{
    let s = region + queue;
    let s2 = region + queue.push(t);
    let p2 = par.push(region.len() - 1);
    let r = region.len() - 1;
    assert(s2 == s.push(t));
    assert forall|j: int| 0 <= j < s.len() implies s2[j] == s[j] by {}
    assert(s2[s.len() as int] == t);
    assert(s[r] == region.last());
    assert forall|j: int| 0 < j < s2.len() implies first_nbr(s2, j, #[trigger] p2[j]) by {
        if j < s.len() {
            assert(p2[j] == par[j]);
            assert(first_nbr(s, j, par[j]));
            assert forall|q: int| 0 <= q < par[j] implies !adjacent(cell(#[trigger] s2[q]), cell(s2[j])) by {
                assert(s2[q] == s[q]);
                assert(!adjacent(cell(s[q]), cell(s[j])));
            }
        } else {
            assert(p2[j] == r);
            assert forall|q: int| 0 <= q < r implies !adjacent(cell(#[trigger] s2[q]), cell(s2[j])) by {
                assert(s2[q] == region[q]);
            }
        }
    }
    assert forall|i: int, j: int| 0 < i < j < s2.len() implies #[trigger] p2[i] < #[trigger] p2[j] || (p2[i]
        == p2[j] && nbr_rank(s2[p2[i]], s2[i]) < nbr_rank(s2[p2[j]], s2[j])) by {
        assert(p2[i] == par[i]);
        if j < s.len() {
            assert(p2[j] == par[j]);
            assert(par[i] < par[j] || (par[i] == par[j] && nbr_rank(s[par[i]], s[i]) < nbr_rank(s[par[j]], s[j])));
            assert(first_nbr(s, i, par[i]));
            assert(first_nbr(s, j, par[j]));
        } else {
            assert(first_nbr(s, i, par[i]));
            if par[i] == r {
                assert(nbr_rank(region.last(), s[i]) < nbr_rank(region.last(), t));
            }
        }
    }
}

/// Flood-fill every walkable tile into its connected component: scan the
/// grid row by row and, from each floor tile not yet in a region, collect its
/// component breadth-first. Regions come in the row-major order of their
/// first tiles, and a region's first tile is its first in row-major order.
pub fn find_regions(map: &DungeonMap) -> (regions: Vec<Vec<(usize, usize)>>)
    requires
        map.inv(),
    ensures
        regions_are_components(map, regions@),
        regions_in_scan_order(regions@),
        forall|k: int| 0 <= k < regions@.len() ==> bfs_order(#[trigger] regions@[k]@),
{
    let ghost w = map.width as int;
    let ghost h = map.height as int;
    let mut visited: Vec<bool> = vec_filled(false, map.width * map.height);
    let mut regions: Vec<Vec<(usize, usize)>> = Vec::new();
    let ghost mut lab: Seq<Option<usize>> = Seq::new((map.width * map.height) as nat, |i: int| None);
    let ghost mut seeds: Seq<(int, int)> = Seq::empty();
    proof {
        lemma_count_none_le(lab);
        assert(mirrors(visited@, lab));
        assert forall|t: (int, int)|
            #![trigger label_of(lab, w, t)]
            map.in_bounds(t) implies label_of(lab, w, t) is None by {
            lemma_index_in_range(w, h, t);
        }
    }
    let mut y: usize = 0;
    while y < map.height
        invariant
            map.inv(),
            w == map.width,
            h == map.height,
            y <= map.height,
            scan_state(map, visited@, lab, seeds, regions@),
            scanned_to(map, lab, 0, y as int),
            seeds_before(seeds, (0, y as int)),
            forall|l: int| 0 <= l < regions@.len() ==> bfs_order(#[trigger] regions@[l]@),
        decreases map.height - y,
    {
        let mut x: usize = 0;
        while x < map.width
            invariant
                map.inv(),
                w == map.width,
                h == map.height,
                y < map.height,
                x <= map.width,
                scan_state(map, visited@, lab, seeds, regions@),
                scanned_to(map, lab, x as int, y as int),
                seeds_before(seeds, (x as int, y as int)),
                forall|l: int| 0 <= l < regions@.len() ==> bfs_order(#[trigger] regions@[l]@),
            decreases map.width - x,
        {
            let ghost here = (x as int, y as int);
            proof {
                lemma_index_in_range(w, h, here);
            }
            if map.is_walkable(x, y) && !visited[y * map.width + x] {
                proof {
                    lemma_start_region(map, visited@, lab, seeds, regions@, here, x as int, y as int);
                }
                let mut region: Vec<(usize, usize)> = Vec::new();
                let mut queue: VecDeque<(usize, usize)> = VecDeque::new();
                queue.push_back((x, y));
                visited.set(y * map.width + x, true);
                proof {
                    lab = lab.update(cell_index(w, here), Some(regions@.len() as usize));
                    seeds = seeds.push(here);
                    assert(region@ == Seq::<(usize, usize)>::empty());
                    assert(queue@ == seq![tile_at(here)]);
                }
                let ghost mut par: Seq<int> = seq![-1int];
                proof {
                    assert(region@ + queue@ =~= queue@);
                }
                while queue.len() > 0
                    invariant
                        map.inv(),
                        w == map.width,
                        h == map.height,
                        y < map.height,
                        x < map.width,
                        here == (x as int, y as int),
                        fill_state(map, visited@, lab, seeds, regions@, queue@, region@, here),
                        scanned_to(map, lab, x + 1, y as int),
                        closed_except(map, lab, queue@, (-1, -1)),
                        seeds_before(seeds, (x + 1, y as int)),
                        forall|l: int| 0 <= l < regions@.len() ==> bfs_order(#[trigger] regions@[l]@),
                        bfs_parents(region@ + queue@, par),
                        forall|j: int| 0 < j < par.len() ==> #[trigger] par[j] < region@.len(),
                    decreases 2 * count_none(lab) + queue@.len(),
                {
                    proof {
                        lemma_pop_tile(map, visited@, lab, seeds, regions@, queue@, region@, here);
                    }
                    let ghost before = region@ + queue@;
                    let (cx, cy) = queue.pop_front().unwrap();
                    let ghost popped = (cx as int, cy as int);
                    region.push((cx, cy));
                    proof {
                        assert(region@ + queue@ =~= before);
                    }
                    let ghost measure = 2 * count_none(lab) + queue@.len();
                    let nbrs = neighbours4(cx, cy, map.width, map.height);
                    proof {
                        lemma_neighbour_list(cx, cy, map.width, map.height);
                    }
                    let mut k: usize = 0;
                    while k < nbrs.len()
                        invariant
                            map.inv(),
                            w == map.width,
                            h == map.height,
                            y < map.height,
                            x < map.width,
                            here == (x as int, y as int),
                            nbrs@ == neighbour_list(cx, cy, map.width, map.height),
                            popped == cell((cx, cy)),
                            map.in_bounds(popped),
                            label_of(lab, w, popped) == Some(regions@.len() as usize),
                            region@.len() > 0,
                            0 <= k <= nbrs@.len(),
                            fill_state(map, visited@, lab, seeds, regions@, queue@, region@, here),
                            scanned_to(map, lab, x + 1, y as int),
                            closed_except(map, lab, queue@, popped),
                            seeds_before(seeds, (x + 1, y as int)),
                            forall|j: int|
                                0 <= j < k && floor_cell(map, cell(#[trigger] nbrs@[j])) ==> label_of(
                                    lab,
                                    w,
                                    cell(nbrs@[j]),
                                ) == Some(regions@.len() as usize),
                            2 * count_none(lab) + queue@.len() <= measure,
                            forall|l: int| 0 <= l < regions@.len() ==> bfs_order(#[trigger] regions@[l]@),
                            region@.last() == (cx, cy),
                            bfs_parents(region@ + queue@, par),
                            forall|j: int| 0 < j < par.len() ==> #[trigger] par[j] <= region@.len() - 1,
                            forall|j: int|
                                0 < j < par.len() && #[trigger] par[j] == region@.len() - 1 ==> nbr_rank(
                                    (cx, cy),
                                    (region@ + queue@)[j],
                                ) < if k < nbrs@.len() {
                                    nbr_rank((cx, cy), nbrs@[k as int])
                                } else {
                                    4
                                },
                        decreases nbrs@.len() - k,
                    {
                        let (nx, ny) = nbrs[k];
                        let ghost nb = (nx as int, ny as int);
                        proof {
                            lemma_index_in_range(w, h, nb);
                            lemma_nbr_ranks(cx, cy, map.width, map.height);
                        }
                        let idx = ny * map.width + nx;
                        if !visited[idx] && map.is_walkable(nx, ny) {
                            proof {
                                lemma_label_neighbour(
                                    map,
                                    visited@,
                                    lab,
                                    seeds,
                                    regions@,
                                    queue@,
                                    region@,
                                    here,
                                    popped,
                                    nb,
                                    x + 1,
                                    y as int,
                                );
                                lemma_unfound_apart(map, lab, queue@, region@, regions@.len() as usize, nb);
                                lemma_bfs_push(region@, queue@, par, (nx, ny));
                            }
                            visited.set(idx, true);
                            queue.push_back((nx, ny));
                            proof {
                                lab = lab.update(cell_index(w, nb), Some(regions@.len() as usize));
                                par = par.push(region@.len() - 1);
                            }
                        } else {
                            proof {
                                if floor_cell(map, nb) {
                                    lemma_floor_passable(map, nb);
                                    assert(label_of(lab, w, nb) is Some);
                                    if !queue@.contains(tile_at(nb)) {
                                        assert(label_of(lab, w, popped) == label_of(lab, w, nb));
                                    } else {
                                        let q = choose|q: int| 0 <= q < queue@.len() && queue@[q] == tile_at(nb);
                                        assert(label_of(lab, w, cell(queue@[q])) == Some(regions@.len() as usize));
                                    }
                                }
                            }
                        }
                        k = k + 1;
                    }
                    proof {
                        assert forall|a: (int, int), b: (int, int)|
                            #![trigger label_of(lab, w, a), label_of(lab, w, b)]
                            map.in_bounds(a) && label_of(lab, w, a) is Some && adjacent(a, b)
                                && floor_cell(map, b) && !queue@.contains(tile_at(a)) && a != (
                                -1int,
                                -1int,
                            ) implies label_of(lab, w, b) == label_of(lab, w, a) by {
                            if a == popped {
                                let j = choose|j: int|
                                    0 <= j < nbrs@.len() && cell(#[trigger] nbrs@[j]) == b;
                                assert(floor_cell(map, cell(nbrs@[j])));
                            }
                        }
                    }
                }
                proof {
                    assert(queue@ == Seq::<(usize, usize)>::empty());
                    lemma_finish_region(map, visited@, lab, seeds, regions@, region, here);
                    assert(region@ + queue@ =~= region@);
                    lemma_bfs_order(region@, par);
                }
                let ghost before_push = regions@;
                regions.push(region);
                proof {
                    assert forall|l: int| 0 <= l < regions@.len() implies bfs_order(#[trigger] regions@[l]@) by {
                        if l < before_push.len() {
                            assert(regions@[l] == before_push[l]);
                        }
                    }
                }
            }
            x = x + 1;
        }
        y = y + 1;
    }
    proof {
        lemma_regions_complete(map, visited@, lab, seeds, regions@);
    }
    regions
}


/// Index of the largest region; among equally large ones, the last.
fn largest_region(regions: &Vec<Vec<(usize, usize)>>) -> (best: usize)
    requires
        regions@.len() > 0,
    ensures
        best < regions@.len(),
        forall|k: int| 0 <= k < regions@.len() ==> (#[trigger] regions@[k])@.len() <= regions@[best as int]@.len(),
        forall|k: int| best < k < regions@.len() ==> (#[trigger] regions@[k])@.len() < regions@[best as int]@.len(),
{
    let mut best: usize = 0;
    let mut i: usize = 1;
    while i < regions.len()
        invariant
            1 <= i <= regions@.len(),
            best < i,
            forall|k: int| 0 <= k < i ==> (#[trigger] regions@[k])@.len() <= regions@[best as int]@.len(),
            forall|k: int| best < k < i ==> (#[trigger] regions@[k])@.len() < regions@[best as int]@.len(),
        decreases regions@.len() - i,
    {
        if regions[i].len() >= regions[best].len() {
            best = i;
        }
        i = i + 1;
    }
    best
}

/// Squared straight-line distance between two tiles.
pub open spec fn sq_dist(a: (usize, usize), b: (usize, usize)) -> int {
    (a.0 - b.0) * (a.0 - b.0) + (a.1 - b.1) * (a.1 - b.1)
}

/// `p` comes before `q` in the scan over (region, connected tile, region tile).
pub open spec fn scan_before(p: (int, int, int), q: (int, int, int)) -> bool {
    p.0 < q.0 || (p.0 == q.0 && (p.1 < q.1 || (p.1 == q.1 && p.2 < q.2)))
}

/// A (region, connected tile, region tile) index triple names a real pair.
pub open spec fn valid_pair(connected: Seq<(usize, usize)>, regions: Seq<Vec<(usize, usize)>>, p: (int, int, int)) -> bool {
    0 <= p.0 < regions.len() && 0 <= p.1 < connected.len() && 0 <= p.2 < regions[p.0]@.len()
}

/// The distance of the pair an index triple names.
pub open spec fn pair_dist(connected: Seq<(usize, usize)>, regions: Seq<Vec<(usize, usize)>>, p: (int, int, int)) -> int {
    sq_dist(connected[p.1], regions[p.0]@[p.2])
}

/// The squared distance of two tiles of a grid no wider or taller than
/// 32768, as an `i32`.
fn tile_sq_dist(a: (usize, usize), b: (usize, usize)) -> (d: i32)
    requires
        a.0 < 32768,
        a.1 < 32768,
        b.0 < 32768,
        b.1 < 32768,
    ensures
        d == sq_dist(a, b),
{
    let dx = a.0 as i32 - b.0 as i32;
    let dy = a.1 as i32 - b.1 as i32;
    assert(0 <= dx * dx <= 32767 * 32767) by (nonlinear_arith)
        requires
            -32768 < dx < 32768,
    ;
    assert(0 <= dy * dy <= 32767 * 32767) by (nonlinear_arith)
        requires
            -32768 < dy < 32768,
    ;
    dx * dx + dy * dy
}

/// The closest pair between a connected tile and a tile of some region: the
/// first in scan order among equally close pairs.
fn closest_pair(connected: &Vec<(usize, usize)>, regions: &Vec<Vec<(usize, usize)>>) -> (best: (usize, usize, usize))
    requires
        connected@.len() > 0,
        regions@.len() > 0,
        forall|k: int| 0 <= k < regions@.len() ==> (#[trigger] regions@[k])@.len() > 0,
        forall|i: int| 0 <= i < connected@.len() ==> (#[trigger] connected@[i]).0 < 32768 && connected@[i].1 < 32768,
        forall|k: int, j: int|
            0 <= k < regions@.len() && 0 <= j < regions@[k]@.len() ==> (#[trigger] regions@[k]@[j]).0 < 32768
                && regions@[k]@[j].1 < 32768,
    ensures
        valid_pair(connected@, regions@, (best.0 as int, best.1 as int, best.2 as int)),
        forall|p: (int, int, int)|
            #[trigger] valid_pair(connected@, regions@, p) ==> pair_dist(
                connected@,
                regions@,
                (best.0 as int, best.1 as int, best.2 as int),
            ) <= pair_dist(connected@, regions@, p),
        forall|p: (int, int, int)|
            #[trigger] valid_pair(connected@, regions@, p) && scan_before(
                p,
                (best.0 as int, best.1 as int, best.2 as int),
            ) ==> pair_dist(connected@, regions@, (best.0 as int, best.1 as int, best.2 as int))
                < pair_dist(connected@, regions@, p),
{
    let ghost c = connected@;
    let ghost rs = regions@;
    let mut best: Option<(usize, usize, usize, i32)> = None;
    let mut ri: usize = 0;
    while ri < regions.len()
        invariant
            c == connected@,
            rs == regions@,
            c.len() > 0,
            rs.len() > 0,
            forall|k: int| 0 <= k < rs.len() ==> (#[trigger] rs[k])@.len() > 0,
            forall|i: int| 0 <= i < c.len() ==> (#[trigger] c[i]).0 < 32768 && c[i].1 < 32768,
            forall|k: int, j: int|
                0 <= k < rs.len() && 0 <= j < rs[k]@.len() ==> (#[trigger] rs[k]@[j]).0 < 32768
                    && rs[k]@[j].1 < 32768,
            ri <= rs.len(),
            best is None <==> ri == 0,
            best matches Some(b) ==> {
                let bp = (b.0 as int, b.1 as int, b.2 as int);
                &&& valid_pair(c, rs, bp)
                &&& b.3 == pair_dist(c, rs, bp)
                &&& bp.0 < ri
                &&& forall|p: (int, int, int)|
                    #[trigger] valid_pair(c, rs, p) && p.0 < ri ==> b.3 <= pair_dist(c, rs, p)
                &&& forall|p: (int, int, int)|
                    #[trigger] valid_pair(c, rs, p) && scan_before(p, bp) ==> b.3 < pair_dist(c, rs, p)
            },
        decreases rs.len() - ri,
    {
        let region = &regions[ri];
        let mut ai: usize = 0;
        while ai < connected.len()
            invariant
                c == connected@,
                rs == regions@,
                c.len() > 0,
                forall|k: int| 0 <= k < rs.len() ==> (#[trigger] rs[k])@.len() > 0,
                forall|i: int| 0 <= i < c.len() ==> (#[trigger] c[i]).0 < 32768 && c[i].1 < 32768,
                forall|k: int, j: int|
                    0 <= k < rs.len() && 0 <= j < rs[k]@.len() ==> (#[trigger] rs[k]@[j]).0 < 32768
                        && rs[k]@[j].1 < 32768,
                ri < rs.len(),
                region@ == rs[ri as int]@,
                ai <= c.len(),
                best is None <==> (ri == 0 && ai == 0),
                best matches Some(b) ==> {
                    let bp = (b.0 as int, b.1 as int, b.2 as int);
                    &&& valid_pair(c, rs, bp)
                    &&& b.3 == pair_dist(c, rs, bp)
                    &&& scan_before(bp, (ri as int, ai as int, 0))
                    &&& forall|p: (int, int, int)|
                        #[trigger] valid_pair(c, rs, p) && scan_before(p, (ri as int, ai as int, 0))
                            ==> b.3 <= pair_dist(c, rs, p)
                    &&& forall|p: (int, int, int)|
                        #[trigger] valid_pair(c, rs, p) && scan_before(p, bp) ==> b.3 < pair_dist(c, rs, p)
                },
            decreases c.len() - ai,
        {
            let (ax, ay) = connected[ai];
            let mut bi: usize = 0;
            while bi < region.len()
                invariant
                    c == connected@,
                    rs == regions@,
                    forall|i: int| 0 <= i < c.len() ==> (#[trigger] c[i]).0 < 32768 && c[i].1 < 32768,
                    forall|k: int, j: int|
                        0 <= k < rs.len() && 0 <= j < rs[k]@.len() ==> (#[trigger] rs[k]@[j]).0
                            < 32768 && rs[k]@[j].1 < 32768,
                    ri < rs.len(),
                    region@ == rs[ri as int]@,
                    ai < c.len(),
                    (ax, ay) == c[ai as int],
                    bi <= region@.len(),
                    best is None <==> (ri == 0 && ai == 0 && bi == 0),
                    best matches Some(b) ==> {
                        let bp = (b.0 as int, b.1 as int, b.2 as int);
                        &&& valid_pair(c, rs, bp)
                        &&& b.3 == pair_dist(c, rs, bp)
                        &&& scan_before(bp, (ri as int, ai as int, bi as int))
                        &&& forall|p: (int, int, int)|
                            #[trigger] valid_pair(c, rs, p) && scan_before(p, (ri as int, ai as int, bi as int))
                                ==> b.3 <= pair_dist(c, rs, p)
                        &&& forall|p: (int, int, int)|
                            #[trigger] valid_pair(c, rs, p) && scan_before(p, bp) ==> b.3 < pair_dist(c, rs, p)
                    },
                decreases region@.len() - bi,
            {
                let (bx, by) = region[bi];
                proof {
                    assert(rs[ri as int]@[bi as int] == (bx, by));
                }
                let d = tile_sq_dist((ax, ay), (bx, by));
                let take = match best {
                    None => true,
                    Some(b) => d < b.3,
                };
                if take {
                    best = Some((ri, ai, bi, d));
                }
                proof {
                    let cur = (ri as int, ai as int, bi as int);
                    assert(valid_pair(c, rs, cur));
                    assert(d == pair_dist(c, rs, cur));
                }
                bi = bi + 1;
            }
            ai = ai + 1;
        }
        ri = ri + 1;
    }
    let b = best.unwrap();
    (b.0, b.1, b.2)
}


/// Every floor tile of the map is joined to every other by a walk over floor.
pub open spec fn all_floor_joined(map: &LevelMap) -> bool {
    forall|a: (int, int), b: (int, int)|
        #[trigger] floor_cell(map, a) && #[trigger] floor_cell(map, b) ==> linked(
            map.width as int,
            map.height as int,
            map.floor_mask(),
            a,
            b,
        )
}

/// Every floor tile of `before` is still floor in `after`.
pub open spec fn floor_kept(before: &LevelMap, after: &LevelMap) -> bool {
    forall|i: int|
        0 <= i < before.width * before.height && #[trigger] before.floor_mask()[i] ==> after.floor_mask()[i]
}

/// What the joining loop keeps: the connected tiles are floor joined to the
/// anchor `c0`; each waiting region is floor joined to its first tile; every
/// floor tile of the starting map is connected or waiting; and every tile
/// carved so far is joined to the anchor.
spec fn joining(
    m0: LevelMap,
    map: LevelMap,
    c0: (int, int),
    connected: Seq<(usize, usize)>,
    regions: Seq<Vec<(usize, usize)>>,
) -> bool {
    let (w, h) = (map.width as int, map.height as int);
    &&& map.inv()
    &&& m0.inv()
    &&& map.width == m0.width
    &&& map.height == m0.height
    &&& floor_kept(&m0, &map)
    &&& connected.len() > 0
    &&& cell(connected[0]) == c0
    &&& forall|i: int|
        0 <= i < connected.len() ==> floor_cell(&m0, cell(#[trigger] connected[i])) && linked(
            w,
            h,
            map.floor_mask(),
            c0,
            cell(connected[i]),
        )
    &&& forall|k: int| 0 <= k < regions.len() ==> (#[trigger] regions[k])@.len() > 0
    &&& forall|k: int, j: int|
        0 <= k < regions.len() && 0 <= j < regions[k]@.len() ==> floor_cell(
            &m0,
            cell(#[trigger] regions[k]@[j]),
        ) && linked(w, h, map.floor_mask(), cell(regions[k]@[0]), cell(regions[k]@[j]))
    &&& forall|t: (int, int)|
        #[trigger] floor_cell(&m0, t) ==> connected.contains(tile_at(t)) || exists|k: int|
            0 <= k < regions.len() && (#[trigger] regions[k])@.contains(tile_at(t))
    &&& forall|t: (int, int)|
        #[trigger] floor_cell(&map, t) && !floor_cell(&m0, t) ==> linked(w, h, map.floor_mask(), c0, t)
    &&& carved_between(&m0, &map)
}

/// Every tile that is floor in `after` but not in `before` lies on an
/// L-shaped corridor between two floor tiles of `before`.
pub open spec fn carved_between(before: &LevelMap, after: &LevelMap) -> bool {
    forall|t: (int, int)|
        #[trigger] floor_cell(after, t) && !floor_cell(before, t) ==> exists|a: (int, int), b: (int, int)|
            floor_cell(before, a) && floor_cell(before, b) && #[trigger] on_corridor(a, b, t)
}

/// The floor tiles of `map` joined to `a` by a walk over floor: its region.
pub open spec fn region_of(map: &LevelMap, a: (int, int)) -> Set<(int, int)> {
    Set::new(
        |t: (int, int)|
            floor_cell(map, t) && linked(map.width as int, map.height as int, map.floor_mask(), a, t),
    )
}

/// The squared distance between two cells.
pub open spec fn sq_cells(a: (int, int), b: (int, int)) -> int {
    (a.0 - b.0) * (a.0 - b.0) + (a.1 - b.1) * (a.1 - b.1)
}

/// The tiles joined after the first `k` joins of `pairs`, starting from the
/// region of `c0`: each join adds the region of its second tile.
pub open spec fn joined_after(map: &LevelMap, c0: (int, int), pairs: Seq<((int, int), (int, int))>, k: nat) -> Set<
    (int, int),
>
    decreases k,
{
    if k == 0 {
        region_of(map, c0)
    } else {
        joined_after(map, c0, pairs, (k - 1) as nat).union(region_of(map, pairs[k - 1].1))
    }
}

/// Join `k` of `pairs` runs from a joined tile to a floor tile not yet
/// joined, and no such pair is closer.
pub open spec fn closest_join(map: &LevelMap, c0: (int, int), pairs: Seq<((int, int), (int, int))>, k: int) -> bool {
    let joined = joined_after(map, c0, pairs, k as nat);
    &&& joined.contains(pairs[k].0)
    &&& floor_cell(map, pairs[k].1)
    &&& !joined.contains(pairs[k].1)
    &&& forall|a: (int, int), b: (int, int)|
        #[trigger] joined.contains(a) && #[trigger] floor_cell(map, b) && !joined.contains(b) ==> sq_cells(
            pairs[k].0,
            pairs[k].1,
        ) <= sq_cells(a, b)
}

/// How the regions of `map` are joined: from the region of `c0`, a region at
/// least as large as any other, each join takes a closest pair between the
/// tiles joined so far and a floor tile not yet joined, until every floor
/// tile is joined.
pub open spec fn join_plan(map: &LevelMap, c0: (int, int), pairs: Seq<((int, int), (int, int))>) -> bool {
    &&& (exists|t: (int, int)| #[trigger] floor_cell(map, t)) ==> floor_cell(map, c0) && forall|t: (int, int)|
        #[trigger] floor_cell(map, t) ==> region_of(map, t).len() <= region_of(map, c0).len()
    &&& forall|k: int| 0 <= k < pairs.len() ==> #[trigger] closest_join(map, c0, pairs, k)
    &&& forall|t: (int, int)| #[trigger] floor_cell(map, t) ==> joined_after(map, c0, pairs, pairs.len()).contains(t)
}

/// The tiles of `map` with the L-shaped corridor of every pair carved.
pub open spec fn with_corridors(map: &LevelMap, pairs: Seq<((int, int), (int, int))>) -> Seq<Tile> {
    Seq::new(
        map.cells().len(),
        |i: int|
            if exists|k: int|
                0 <= k < pairs.len() && #[trigger] on_corridor(
                    pairs[k].0,
                    pairs[k].1,
                    index_cell(map.width as int, i),
                ) {
                Tile::Floor
            } else {
                map.cells()[i]
            },
    )
}

/// The tiles joined after `k` joins depend only on the first `k` pairs.
proof fn lemma_joined_prefix(map: &LevelMap, c0: (int, int), pairs: Seq<((int, int), (int, int))>, p: ((int, int), (int, int)), k: nat)
    requires
        k <= pairs.len(),
    ensures
        joined_after(map, c0, pairs.push(p), k) == joined_after(map, c0, pairs, k),
    decreases k,
{
    if k > 0 {
        lemma_joined_prefix(map, c0, pairs, p, (k - 1) as nat);
        assert(pairs.push(p)[k - 1] == pairs[k - 1]);
    }
}

/// A region is exactly the component of its first tile: a tile is in it just
/// when it is floor joined to that tile.
proof fn lemma_region_exact(map: &LevelMap, regions: Seq<Vec<(usize, usize)>>, k: int, t: (int, int))
    requires
        map.inv(),
        regions_are_components(map, regions),
        0 <= k < regions.len(),
    ensures
        region_of(map, cell(regions[k]@[0])).contains(t) <==> (map.in_bounds(t) && regions[k]@.contains(
            tile_at(t),
        )),
{
    let (w, h) = (map.width as int, map.height as int);
    let mask = map.floor_mask();
    let r = regions[k]@;
    let a0 = cell(r[0]);
    if map.in_bounds(t) && r.contains(tile_at(t)) {
        let j = choose|j: int| 0 <= j < r.len() && r[j] == tile_at(t);
        assert(cell(regions[k]@[j]) == t);
    }
    if region_of(map, a0).contains(t) {
        let mark = Seq::new((w * h) as nat, |i: int| r.contains(tile_at(index_cell(w, i))));
        assert forall|u: (int, int)| in_grid(w, h, u) implies 0 <= #[trigger] cell_index(w, u) < w * h
            && index_cell(w, cell_index(w, u)) == u by {
            lemma_index_in_range(w, h, u);
            lemma_index_cell(w, h, cell_index(w, u));
            lemma_index_unique(w, h, u, index_cell(w, cell_index(w, u)));
        }
        assert(closed_under_steps(w, h, mask, mark)) by {
            assert forall|a: (int, int), b: (int, int)|
                #![trigger mark[cell_index(w, a)], mark[cell_index(w, b)]]
                in_grid(w, h, a) && mark[cell_index(w, a)] && adjacent(a, b) && passable(w, h, mask, b)
                    implies mark[cell_index(w, b)] by {
                assert(cell_index(w, a) >= 0);
                assert(index_cell(w, cell_index(w, a)) == a);
                let j = choose|j: int| 0 <= j < r.len() && r[j] == tile_at(a);
                assert(cell(regions[k]@[j]) == a);
                lemma_floor_passable(map, b);
                assert(floor_cell(map, b));
                assert(r.contains(tile_at(b)));
                assert(cell_index(w, b) >= 0);
            }
        }
        assert(floor_cell(map, a0));
        assert(cell_index(w, a0) >= 0);
        assert(mark[cell_index(w, a0)]) by {
            assert(r[0] == tile_at(a0));
        }
        lemma_closed_contains_linked(w, h, mask, mark, a0, t);
        assert(cell_index(w, t) >= 0);
    }
}

/// Two tiles of one region have the same region.
proof fn lemma_same_region(map: &LevelMap, a: (int, int), b: (int, int))
    requires
        region_of(map, a).contains(b),
        floor_cell(map, a),
        map.inv(),
    ensures
        region_of(map, a) == region_of(map, b),
{
    let (w, h) = (map.width as int, map.height as int);
    let mask = map.floor_mask();
    assert forall|t: (int, int)| region_of(map, a).contains(t) <==> region_of(map, b).contains(t) by {
        if region_of(map, a).contains(t) {
            lemma_linked_symm(w, h, mask, a, b);
            lemma_linked_trans(w, h, mask, b, a, t);
        }
        if region_of(map, b).contains(t) {
            lemma_linked_trans(w, h, mask, a, b, t);
        }
    }
    assert(region_of(map, a) =~= region_of(map, b));
}

/// A region has as many tiles as the list that holds it.
proof fn lemma_region_len(map: &LevelMap, regions: Seq<Vec<(usize, usize)>>, k: int)
    requires
        map.inv(),
        regions_are_components(map, regions),
        0 <= k < regions.len(),
    ensures
        region_of(map, cell(regions[k]@[0])).finite(),
        region_of(map, cell(regions[k]@[0])).len() == regions[k]@.len(),
{
    let r = regions[k]@;
    let cs = r.map_values(|u: (usize, usize)| cell(u));
    assert(cs.no_duplicates()) by {
        assert forall|i: int, j: int| 0 <= i < cs.len() && 0 <= j < cs.len() && i != j implies cs[i] != cs[j] by {
            assert(regions[k]@[i] != regions[k]@[j]);
        }
    }
    cs.unique_seq_to_set();
    vstd::seq_lib::seq_to_set_is_finite(cs);
    assert forall|t: (int, int)| region_of(map, cell(r[0])).contains(t) <==> cs.to_set().contains(t) by {
        lemma_region_exact(map, regions, k, t);
        if cs.to_set().contains(t) {
            let j = choose|j: int| 0 <= j < cs.len() && cs[j] == t;
            assert(cell(regions[k]@[j]) == t);
            assert(floor_cell(map, t));
            assert(r.contains(tile_at(t))) by {
                assert(r[j] == tile_at(t));
            }
        }
        if region_of(map, cell(r[0])).contains(t) {
            let j = choose|j: int| 0 <= j < r.len() && r[j] == tile_at(t);
            assert(cs[j] == t);
        }
    }
    assert(region_of(map, cell(r[0])) =~= cs.to_set());
}

/// The first tile of a largest region has a region at least as large as any
/// floor tile's.
proof fn lemma_largest(map: &LevelMap, regions: Seq<Vec<(usize, usize)>>, largest: int)
    requires
        map.inv(),
        regions_are_components(map, regions),
        0 <= largest < regions.len(),
        forall|k: int| 0 <= k < regions.len() ==> (#[trigger] regions[k])@.len() <= regions[largest]@.len(),
    ensures
        floor_cell(map, cell(regions[largest]@[0])),
        forall|t: (int, int)|
            #[trigger] floor_cell(map, t) ==> region_of(map, t).len() <= region_of(map, cell(regions[largest]@[0])).len(),
{
    lemma_region_len(map, regions, largest);
    assert forall|t: (int, int)|
        #[trigger] floor_cell(map, t) implies region_of(map, t).len() <= region_of(map, cell(regions[largest]@[0])).len() by {
        let (k, j) = choose|k: int, j: int|
            0 <= k < regions.len() && 0 <= j < regions[k]@.len() && cell(#[trigger] regions[k]@[j]) == t;
        let f = cell(regions[k]@[0]);
        lemma_region_exact(map, regions, k, t);
        assert(regions[k]@[j] == tile_at(t));
        assert(regions[k]@.contains(tile_at(t)));
        assert(floor_cell(map, f));
        lemma_same_region(map, f, t);
        lemma_region_len(map, regions, k);
    }
}

/// What the joining loop keeps of the join plan: every join so far was a
/// closest one; the tiles joined so far are the connected tiles; each waiting
/// region is exactly the region of its first tile; and waiting regions share
/// no tile with the connected tiles or with each other.
spec fn plan_state(
    m0: &LevelMap,
    c0: (int, int),
    pairs: Seq<((int, int), (int, int))>,
    connected: Seq<(usize, usize)>,
    regions: Seq<Vec<(usize, usize)>>,
) -> bool {
    &&& forall|k: int| 0 <= k < pairs.len() ==> #[trigger] closest_join(m0, c0, pairs, k)
    &&& forall|t: (int, int)|
        #[trigger] joined_after(m0, c0, pairs, pairs.len()).contains(t) <==> (m0.in_bounds(t) && connected.contains(
            tile_at(t),
        ))
    &&& forall|r: int, t: (int, int)|
        0 <= r < regions.len() ==> (region_of(m0, cell(regions[r]@[0])).contains(t) <==> (m0.in_bounds(t)
            && #[trigger] regions[r]@.contains(tile_at(t))))
    &&& forall|r: int, t: (int, int)|
        0 <= r < regions.len() && m0.in_bounds(t) && #[trigger] regions[r]@.contains(tile_at(t)) ==> !connected.contains(
            tile_at(t),
        )
    &&& forall|r1: int, r2: int, t: (int, int)|
        0 <= r1 < r2 < regions.len() && m0.in_bounds(t) && #[trigger] regions[r1]@.contains(tile_at(t))
            ==> !#[trigger] regions[r2]@.contains(tile_at(t))
}

/// The plan starts from the largest region, with the others waiting.
proof fn lemma_plan_start(m0: &LevelMap, regions: Seq<Vec<(usize, usize)>>, largest: int)
    requires
        m0.inv(),
        regions_are_components(m0, regions),
        0 <= largest < regions.len(),
    ensures
        plan_state(
            m0,
            cell(regions[largest]@[0]),
            Seq::empty(),
            regions[largest]@,
            regions.update(largest, regions.last()).drop_last(),
        ),
{
    let c0 = cell(regions[largest]@[0]);
    let pairs = Seq::<((int, int), (int, int))>::empty();
    let connected = regions[largest]@;
    let rest = regions.update(largest, regions.last()).drop_last();
    let last = regions.len() - 1;
    assert forall|t: (int, int)|
        #[trigger] joined_after(m0, c0, pairs, pairs.len()).contains(t) <==> (m0.in_bounds(t) && connected.contains(
            tile_at(t),
        )) by {
        lemma_region_exact(m0, regions, largest, t);
    }
    assert forall|r: int, t: (int, int)|
        0 <= r < rest.len() implies (region_of(m0, cell(rest[r]@[0])).contains(t) <==> (m0.in_bounds(t)
            && #[trigger] rest[r]@.contains(tile_at(t)))) by {
        let r0 = if r == largest { last } else { r };
        assert(rest[r] == regions[r0]);
        lemma_region_exact(m0, regions, r0, t);
    }
    assert forall|r: int, t: (int, int)|
        0 <= r < rest.len() && m0.in_bounds(t) && #[trigger] rest[r]@.contains(tile_at(t)) implies !connected.contains(
            tile_at(t),
        ) by {
        let r0 = if r == largest { last } else { r };
        assert(rest[r] == regions[r0]);
        if connected.contains(tile_at(t)) {
            let j1 = choose|j: int| 0 <= j < regions[r0]@.len() && regions[r0]@[j] == tile_at(t);
            let j2 = choose|j: int| 0 <= j < connected.len() && connected[j] == tile_at(t);
            assert(regions[largest]@[j2] == regions[r0]@[j1]);
        }
    }
    assert forall|r1: int, r2: int, t: (int, int)|
        0 <= r1 < r2 < rest.len() && m0.in_bounds(t) && #[trigger] rest[r1]@.contains(tile_at(t))
            implies !#[trigger] rest[r2]@.contains(tile_at(t)) by {
        let k1 = if r1 == largest { last } else { r1 };
        let k2 = if r2 == largest { last } else { r2 };
        assert(rest[r1] == regions[k1]);
        assert(rest[r2] == regions[k2]);
        if rest[r2]@.contains(tile_at(t)) {
            let j1 = choose|j: int| 0 <= j < regions[k1]@.len() && regions[k1]@[j] == tile_at(t);
            let j2 = choose|j: int| 0 <= j < regions[k2]@.len() && regions[k2]@[j] == tile_at(t);
            assert(regions[k1]@[j1] == regions[k2]@[j2]);
        }
    }
}

/// Joining the closest pair keeps the plan.
proof fn lemma_plan_step(
    m0: &LevelMap,
    map: &LevelMap,
    c0: (int, int),
    pairs: Seq<((int, int), (int, int))>,
    connected: Seq<(usize, usize)>,
    regions: Seq<Vec<(usize, usize)>>,
    ri: int,
    ai: int,
    bi: int,
)
    requires
        m0.inv(),
        joining(*m0, *map, c0, connected, regions),
        plan_state(m0, c0, pairs, connected, regions),
        valid_pair(connected, regions, (ri, ai, bi)),
        forall|p: (int, int, int)|
            #[trigger] valid_pair(connected, regions, p) ==> pair_dist(connected, regions, (ri, ai, bi)) <= pair_dist(
                connected,
                regions,
                p,
            ),
    ensures
        plan_state(
            m0,
            c0,
            pairs.push((cell(connected[ai]), cell(regions[ri]@[bi]))),
            connected + regions[ri]@,
            regions.update(ri, regions.last()).drop_last(),
        ),
{
    let from = connected[ai];
    let to = regions[ri]@[bi];
    let p = (cell(from), cell(to));
    let pairs2 = pairs.push(p);
    let joined_now = joined_after(m0, c0, pairs, pairs.len());
    let reg = regions[ri]@;
    let conn2 = connected + reg;
    let rest = regions.update(ri, regions.last()).drop_last();
    let last = regions.len() - 1;
    assert(floor_cell(m0, p.0));
    assert(floor_cell(m0, p.1));
    // Earlier joins are untouched; the new one is closest.
    assert forall|k: int| 0 <= k < pairs2.len() implies #[trigger] closest_join(m0, c0, pairs2, k) by {
        lemma_joined_prefix(m0, c0, pairs, p, k as nat);
        if k < pairs.len() {
            assert(pairs2[k] == pairs[k]);
            assert(closest_join(m0, c0, pairs, k));
        } else {
            assert(pairs2[k] == p);
            assert(connected[ai] == from);
            assert(joined_now.contains(p.0));
            assert(reg[bi] == to);
            assert(reg.contains(tile_at(p.1)));
            assert(!joined_now.contains(p.1));
            assert forall|a: (int, int), b: (int, int)|
                #[trigger] joined_now.contains(a) && #[trigger] floor_cell(m0, b) && !joined_now.contains(b)
                    implies sq_cells(p.0, p.1) <= sq_cells(a, b) by {
                let i = choose|i: int| 0 <= i < connected.len() && connected[i] == tile_at(a);
                assert(!connected.contains(tile_at(b)));
                let r = choose|r: int| 0 <= r < regions.len() && (#[trigger] regions[r])@.contains(tile_at(b));
                let j = choose|j: int| 0 <= j < regions[r]@.len() && regions[r]@[j] == tile_at(b);
                assert(valid_pair(connected, regions, (r, i, j)));
                assert(cell(connected[i]) == a);
                assert(cell(regions[r]@[j]) == b);
            }
        }
    }
    // The joined tiles grow by the new region, which is the connected tiles'
    // new part.
    let first = cell(reg[0]);
    assert(reg[bi] == to);
    assert(tile_at(p.1) == to);
    assert(regions[ri]@.contains(tile_at(p.1)));
    assert(m0.in_bounds(p.1));
    assert(region_of(m0, first).contains(p.1));
    assert(floor_cell(m0, first));
    lemma_same_region(m0, first, p.1);
    assert(joined_after(m0, c0, pairs2, pairs2.len()) == joined_now.union(region_of(m0, p.1))) by {
        lemma_joined_prefix(m0, c0, pairs, p, pairs.len());
        assert(pairs2[pairs.len() as int] == p);
    }
    assert forall|t: (int, int)|
        #[trigger] joined_after(m0, c0, pairs2, pairs2.len()).contains(t) <==> (m0.in_bounds(t) && conn2.contains(
            tile_at(t),
        )) by {
        if conn2.contains(tile_at(t)) {
            let i = choose|i: int| 0 <= i < conn2.len() && conn2[i] == tile_at(t);
            if i < connected.len() {
                assert(connected[i] == tile_at(t));
            } else {
                assert(reg[i - connected.len()] == tile_at(t));
            }
        }
        if connected.contains(tile_at(t)) {
            let i = choose|i: int| 0 <= i < connected.len() && connected[i] == tile_at(t);
            assert(conn2[i] == tile_at(t));
        }
        if reg.contains(tile_at(t)) {
            let i = choose|i: int| 0 <= i < reg.len() && reg[i] == tile_at(t);
            assert(conn2[connected.len() + i] == tile_at(t));
        }
    }
    assert forall|r: int, t: (int, int)|
        0 <= r < rest.len() implies (region_of(m0, cell(rest[r]@[0])).contains(t) <==> (m0.in_bounds(t)
            && #[trigger] rest[r]@.contains(tile_at(t)))) by {
        let r0 = if r == ri { last } else { r };
        assert(rest[r] == regions[r0]);
    }
    assert forall|r: int, t: (int, int)|
        0 <= r < rest.len() && m0.in_bounds(t) && #[trigger] rest[r]@.contains(tile_at(t)) implies !conn2.contains(
            tile_at(t),
        ) by {
        let r0 = if r == ri { last } else { r };
        assert(rest[r] == regions[r0]);
        assert(r0 != ri);
        assert(!connected.contains(tile_at(t)));
        assert(!reg.contains(tile_at(t))) by {
            if r0 < ri {
                assert(!regions[ri]@.contains(tile_at(t)));
            } else {
                if regions[ri]@.contains(tile_at(t)) {
                    assert(!regions[r0]@.contains(tile_at(t)));
                }
            }
        }
        if conn2.contains(tile_at(t)) {
            let i = choose|i: int| 0 <= i < conn2.len() && conn2[i] == tile_at(t);
            if i < connected.len() {
                assert(connected[i] == tile_at(t));
            } else {
                assert(reg[i - connected.len()] == tile_at(t));
            }
        }
    }
    assert forall|r1: int, r2: int, t: (int, int)|
        0 <= r1 < r2 < rest.len() && m0.in_bounds(t) && #[trigger] rest[r1]@.contains(tile_at(t))
            implies !#[trigger] rest[r2]@.contains(tile_at(t)) by {
        let k1 = if r1 == ri { last } else { r1 };
        let k2 = if r2 == ri { last } else { r2 };
        assert(rest[r1] == regions[k1]);
        assert(rest[r2] == regions[k2]);
        assert(k1 != k2);
        if rest[r2]@.contains(tile_at(t)) {
            if k1 < k2 {
                assert(!regions[k2]@.contains(tile_at(t)));
            } else {
                assert(!regions[k1]@.contains(tile_at(t)));
            }
        }
    }
}

/// Carving one more corridor carves the plan's corridors so far and that one.
proof fn lemma_corridors_push(m0: &LevelMap, pairs: Seq<((int, int), (int, int))>, p: ((int, int), (int, int)), after: Seq<Tile>)
    requires
        after.len() == m0.cells().len(),
        forall|i: int|
            0 <= i < m0.cells().len() ==> #[trigger] after[i] == if on_corridor(p.0, p.1, index_cell(m0.width as int, i)) {
                Tile::Floor
            } else {
                with_corridors(m0, pairs)[i]
            },
    ensures
        after == with_corridors(m0, pairs.push(p)),
{
    let w = m0.width as int;
    let pairs2 = pairs.push(p);
    assert forall|i: int| 0 <= i < m0.cells().len() implies #[trigger] after[i] == with_corridors(m0, pairs2)[i] by {
        let c = index_cell(w, i);
        if exists|k: int| 0 <= k < pairs.len() && #[trigger] on_corridor(pairs[k].0, pairs[k].1, c) {
            let k = choose|k: int| 0 <= k < pairs.len() && #[trigger] on_corridor(pairs[k].0, pairs[k].1, c);
            assert(pairs2[k] == pairs[k]);
        }
        if on_corridor(p.0, p.1, c) {
            assert(pairs2[pairs.len() as int] == p);
        }
        if exists|k: int| 0 <= k < pairs2.len() && #[trigger] on_corridor(pairs2[k].0, pairs2[k].1, c) {
            let k = choose|k: int| 0 <= k < pairs2.len() && #[trigger] on_corridor(pairs2[k].0, pairs2[k].1, c);
            if k < pairs.len() {
                assert(pairs2[k] == pairs[k]);
            }
        }
    }
    assert(after =~= with_corridors(m0, pairs2));
}

/// The largest region seeds the connected set; the rest wait.
proof fn lemma_joining_start(m0: LevelMap, regions: Seq<Vec<(usize, usize)>>, largest: int)
    requires
        m0.inv(),
        regions_are_components(&m0, regions),
        0 <= largest < regions.len(),
    ensures
        joining(
            m0,
            m0,
            cell(regions[largest]@[0]),
            regions[largest]@,
            regions.update(largest, regions.last()).drop_last(),
        ),
{
    let (w, h) = (m0.width as int, m0.height as int);
    let conn = regions[largest]@;
    let rest = regions.update(largest, regions.last()).drop_last();
    let c0 = cell(conn[0]);
    let last = regions.len() - 1;
    assert forall|i: int| 0 <= i < conn.len() implies floor_cell(&m0, cell(#[trigger] conn[i])) && linked(
        w,
        h,
        m0.floor_mask(),
        c0,
        cell(conn[i]),
    ) by {
        assert(conn[i] == regions[largest]@[i]);
    }
    assert forall|k: int| 0 <= k < rest.len() implies (#[trigger] rest[k])@.len() > 0 by {
        if k == largest {
            assert(rest[k] == regions[last]);
        } else {
            assert(rest[k] == regions[k]);
        }
    }
    assert forall|k: int, j: int| 0 <= k < rest.len() && 0 <= j < rest[k]@.len() implies floor_cell(
        &m0,
        cell(#[trigger] rest[k]@[j]),
    ) && linked(w, h, m0.floor_mask(), cell(rest[k]@[0]), cell(rest[k]@[j])) by {
        if k == largest {
            assert(rest[k] == regions[last]);
            assert(rest[k]@[j] == regions[last]@[j]);
        } else {
            assert(rest[k] == regions[k]);
            assert(rest[k]@[j] == regions[k]@[j]);
        }
    }
    assert forall|t: (int, int)| #[trigger] floor_cell(&m0, t) implies conn.contains(tile_at(t)) || exists|
        k: int,
    | 0 <= k < rest.len() && (#[trigger] rest[k])@.contains(tile_at(t)) by {
        let (k, j) = choose|k: int, j: int|
            0 <= k < regions.len() && 0 <= j < regions[k]@.len() && cell(#[trigger] regions[k]@[j]) == t;
        assert(regions[k]@[j] == tile_at(t));
        assert(regions[k]@.contains(tile_at(t)));
        if k == largest {
        } else if k == last {
            assert(rest[largest] == regions[k]);
        } else {
            assert(rest[k] == regions[k]);
        }
    }
}

/// One round of joining: carving a corridor from a connected tile to a tile
/// of region `ri`, then moving that region into the connected set.
proof fn lemma_joining_step(
    m0: LevelMap,
    before: LevelMap,
    after: LevelMap,
    c0: (int, int),
    connected: Seq<(usize, usize)>,
    regions: Seq<Vec<(usize, usize)>>,
    ri: int,
    ai: int,
    bi: int,
)
    requires
        joining(m0, before, c0, connected, regions),
        0 <= ri < regions.len(),
        0 <= ai < connected.len(),
        0 <= bi < regions[ri]@.len(),
        after.inv(),
        after.width == before.width,
        after.height == before.height,
        forall|i: int|
            0 <= i < before.width * before.height ==> #[trigger] after.cells()[i] == if on_corridor(
                cell(connected[ai]),
                cell(regions[ri]@[bi]),
                index_cell(before.width as int, i),
            ) {
                Tile::Floor
            } else {
                before.cells()[i]
            },
        forall|t: (int, int)|
            on_corridor(cell(connected[ai]), cell(regions[ri]@[bi]), t) ==> #[trigger] linked(
                after.width as int,
                after.height as int,
                after.floor_mask(),
                cell(connected[ai]),
                t,
            ),
    ensures
        joining(
            m0,
            after,
            c0,
            connected + regions[ri]@,
            regions.update(ri, regions.last()).drop_last(),
        ),
{
    let (w, h) = (before.width as int, before.height as int);
    let from = cell(connected[ai]);
    let to = cell(regions[ri]@[bi]);
    let reg = regions[ri]@;
    let conn2 = connected + reg;
    let rest = regions.update(ri, regions.last()).drop_last();
    let last = regions.len() - 1;
    let mb = before.floor_mask();
    let ma = after.floor_mask();
    assert(floor_kept(&before, &after)) by {
        assert forall|i: int| 0 <= i < w * h && #[trigger] mb[i] implies ma[i] by {
            assert(after.cells()[i] == Tile::Floor || after.cells()[i] == before.cells()[i]);
        }
    }
    assert forall|t: (int, int)| floor_cell(&before, t) implies floor_cell(&after, t) by {
        lemma_floor_passable(&before, t);
        lemma_floor_passable(&after, t);
        lemma_index_in_range(w, h, t);
    }
    assert(floor_kept(&m0, &after)) by {
        assert forall|i: int| 0 <= i < w * h && #[trigger] m0.floor_mask()[i] implies ma[i] by {
            assert(mb[i]);
        }
    }
    // The anchor reaches the start of the corridor, hence every corridor tile
    // and every tile of the region being joined.
    lemma_linked_mono(w, h, mb, ma, c0, from);
    assert(linked(w, h, ma, from, to)) by {
        assert(on_corridor(from, to, to));
    }
    lemma_linked_trans(w, h, ma, c0, from, to);
    lemma_linked_mono(w, h, mb, ma, cell(reg[0]), to);
    lemma_linked_symm(w, h, ma, cell(reg[0]), to);
    lemma_linked_trans(w, h, ma, c0, to, cell(reg[0]));
    assert forall|i: int| 0 <= i < conn2.len() implies floor_cell(&m0, cell(#[trigger] conn2[i])) && linked(
        w,
        h,
        ma,
        c0,
        cell(conn2[i]),
    ) by {
        if i < connected.len() {
            assert(conn2[i] == connected[i]);
            lemma_linked_mono(w, h, mb, ma, c0, cell(connected[i]));
        } else {
            let j = i - connected.len();
            assert(conn2[i] == reg[j]);
            assert(floor_cell(&m0, cell(regions[ri]@[j])));
            lemma_linked_mono(w, h, mb, ma, cell(reg[0]), cell(reg[j]));
            lemma_linked_trans(w, h, ma, c0, cell(reg[0]), cell(reg[j]));
        }
    }
    assert(conn2[0] == connected[0]);
    assert forall|k: int| 0 <= k < rest.len() implies (#[trigger] rest[k])@.len() > 0 by {
        if k == ri {
            assert(rest[k] == regions[last]);
        } else {
            assert(rest[k] == regions[k]);
        }
    }
    assert forall|k: int, j: int| 0 <= k < rest.len() && 0 <= j < rest[k]@.len() implies floor_cell(
        &m0,
        cell(#[trigger] rest[k]@[j]),
    ) && linked(w, h, ma, cell(rest[k]@[0]), cell(rest[k]@[j])) by {
        let k0 = if k == ri { last } else { k };
        assert(rest[k] == regions[k0]);
        assert(rest[k]@[j] == regions[k0]@[j]);
        assert(floor_cell(&m0, cell(regions[k0]@[j])));
        lemma_linked_mono(w, h, mb, ma, cell(regions[k0]@[0]), cell(regions[k0]@[j]));
    }
    assert forall|t: (int, int)| #[trigger] floor_cell(&m0, t) implies conn2.contains(tile_at(t)) || exists|
        k: int,
    | 0 <= k < rest.len() && (#[trigger] rest[k])@.contains(tile_at(t)) by {
        if connected.contains(tile_at(t)) {
            let i = choose|i: int| 0 <= i < connected.len() && connected[i] == tile_at(t);
            assert(conn2[i] == tile_at(t));
        } else {
            let k = choose|k: int| 0 <= k < regions.len() && (#[trigger] regions[k])@.contains(tile_at(t));
            if k == ri {
                let j = choose|j: int| 0 <= j < reg.len() && reg[j] == tile_at(t);
                assert(conn2[connected.len() + j] == tile_at(t));
            } else if k == last {
                assert(rest[ri] == regions[k]);
            } else {
                assert(rest[k] == regions[k]);
            }
        }
    }
    assert forall|t: (int, int)| #[trigger] floor_cell(&after, t) && !floor_cell(&m0, t) implies linked(
        w,
        h,
        ma,
        c0,
        t,
    ) by {
        if floor_cell(&before, t) {
            lemma_linked_mono(w, h, mb, ma, c0, t);
        } else {
            lemma_index_in_range(w, h, t);
            lemma_index_cell(w, h, cell_index(w, t));
            lemma_index_unique(w, h, t, index_cell(w, cell_index(w, t)));
            assert(after.cells()[cell_index(w, t)] == Tile::Floor);
            assert(on_corridor(from, to, t));
            lemma_linked_trans(w, h, ma, c0, from, t);
        }
    }
    assert(floor_cell(&m0, from));
    assert(floor_cell(&m0, to));
    assert forall|t: (int, int)| #[trigger] floor_cell(&after, t) && !floor_cell(&m0, t) implies exists|
        a: (int, int),
        b: (int, int),
    | floor_cell(&m0, a) && floor_cell(&m0, b) && #[trigger] on_corridor(a, b, t) by {
        if !floor_cell(&before, t) {
            lemma_index_in_range(w, h, t);
            lemma_index_cell(w, h, cell_index(w, t));
            lemma_index_unique(w, h, t, index_cell(w, cell_index(w, t)));
            assert(on_corridor(from, to, t));
        }
    }
}

/// With no region left waiting, every floor tile is joined to the anchor,
/// and so to every other.
proof fn lemma_joining_done(m0: LevelMap, map: LevelMap, c0: (int, int), connected: Seq<(usize, usize)>)
    requires
        joining(m0, map, c0, connected, Seq::empty()),
    ensures
        all_floor_joined(&map),
{
    let (w, h) = (map.width as int, map.height as int);
    let mask = map.floor_mask();
    assert forall|t: (int, int)| #[trigger] floor_cell(&map, t) implies linked(w, h, mask, c0, t) by {
        if floor_cell(&m0, t) {
            assert(connected.contains(tile_at(t)));
            let i = choose|i: int| 0 <= i < connected.len() && connected[i] == tile_at(t);
            assert(cell(connected[i]) == t);
        }
    }
    assert forall|a: (int, int), b: (int, int)|
        #[trigger] floor_cell(&map, a) && #[trigger] floor_cell(&map, b) implies linked(w, h, mask, a, b) by {
        lemma_linked_symm(w, h, mask, c0, a);
        lemma_linked_trans(w, h, mask, a, c0, b);
    }
}

/// A map whose floor makes at most one region is already joined.
proof fn lemma_one_region_joined(map: LevelMap, regions: Seq<Vec<(usize, usize)>>)
    requires
        map.inv(),
        regions_are_components(&map, regions),
        regions.len() <= 1,
    ensures
        all_floor_joined(&map),
{
    let (w, h) = (map.width as int, map.height as int);
    let mask = map.floor_mask();
    assert forall|a: (int, int), b: (int, int)|
        #[trigger] floor_cell(&map, a) && #[trigger] floor_cell(&map, b) implies linked(w, h, mask, a, b) by {
        let (ka, ja) = choose|k: int, j: int|
            0 <= k < regions.len() && 0 <= j < regions[k]@.len() && cell(#[trigger] regions[k]@[j]) == a;
        let (kb, jb) = choose|k: int, j: int|
            0 <= k < regions.len() && 0 <= j < regions[k]@.len() && cell(#[trigger] regions[k]@[j]) == b;
        let s = cell(regions[0]@[0]);
        assert(linked(w, h, mask, s, cell(regions[ka]@[ja])));
        assert(linked(w, h, mask, s, cell(regions[kb]@[jb])));
        lemma_linked_symm(w, h, mask, s, a);
        lemma_linked_trans(w, h, mask, a, s, b);
    }
}


/// Two regions are never joined by a walk over floor, so a map with more
/// than one region is not yet one piece.
proof fn lemma_several_regions_apart(map: LevelMap, regions: Seq<Vec<(usize, usize)>>)
    requires
        map.inv(),
        regions_are_components(&map, regions),
        regions.len() >= 2,
    ensures
        !all_floor_joined(&map),
{
    let (w, h) = (map.width as int, map.height as int);
    let mask = map.floor_mask();
    let r0 = regions[0]@;
    let a0 = cell(r0[0]);
    let b0 = cell(regions[1]@[0]);
    assert(floor_cell(&map, a0));
    assert(floor_cell(&map, b0));
    let mark = Seq::new((w * h) as nat, |i: int| r0.contains(tile_at(index_cell(w, i))));
    assert forall|t: (int, int)| in_grid(w, h, t) implies 0 <= #[trigger] cell_index(w, t) < w * h
        && index_cell(w, cell_index(w, t)) == t by {
        lemma_index_in_range(w, h, t);
        lemma_index_cell(w, h, cell_index(w, t));
        lemma_index_unique(w, h, t, index_cell(w, cell_index(w, t)));
    }
    assert(closed_under_steps(w, h, mask, mark)) by {
        assert forall|a: (int, int), b: (int, int)|
            #![trigger mark[cell_index(w, a)], mark[cell_index(w, b)]]
            in_grid(w, h, a) && mark[cell_index(w, a)] && adjacent(a, b) && passable(w, h, mask, b)
                implies mark[cell_index(w, b)] by {
            assert(cell_index(w, a) >= 0);
            assert(index_cell(w, cell_index(w, a)) == a);
            let j = choose|j: int| 0 <= j < r0.len() && r0[j] == tile_at(a);
            assert(cell(regions[0]@[j]) == a);
            lemma_floor_passable(&map, b);
            assert(floor_cell(&map, b));
            assert(r0.contains(tile_at(b)));
            assert(cell_index(w, b) >= 0);
        }
    }
    if all_floor_joined(&map) {
        assert(linked(w, h, mask, a0, b0));
        assert(cell_index(w, a0) >= 0);
        assert(mark[cell_index(w, a0)]) by {
            assert(r0[0] == tile_at(a0));
        }
        lemma_closed_contains_linked(w, h, mask, mark, a0, b0);
        assert(cell_index(w, b0) >= 0);
        let j = choose|j: int| 0 <= j < r0.len() && r0[j] == tile_at(b0);
        assert(regions[0]@[j] == regions[1]@[0]);
    }
}

/// Carve corridors until every floor tile is part of one connected
/// component: label the regions, seed the connected set with the largest,
/// then repeatedly join whichever remaining region has the closest pair of
/// tiles to the connected set through an L-shaped corridor between them.
pub fn connect_regions(map: &mut DungeonMap)
    requires
        old(map).inv(),
        old(map).width <= 32768,
        old(map).height <= 32768,
    ensures
        final(map).inv(),
        final(map).width == old(map).width,
        final(map).height == old(map).height,
        final(map).tags() == old(map).tags(),
        final(map).room_list() == old(map).room_list(),
        floor_kept(old(map), final(map)),
        carved_between(old(map), final(map)),
        all_floor_joined(final(map)),
        all_floor_joined(old(map)) ==> final(map).cells() == old(map).cells(),
        exists|c0: (int, int), pairs: Seq<((int, int), (int, int))>|
            join_plan(old(map), c0, pairs) && final(map).cells() == with_corridors(old(map), pairs),
{
    let ghost m0 = *map;
    let mut regions = find_regions(map);
    if regions.len() <= 1 {
        proof {
            lemma_one_region_joined(m0, regions@);
            let pairs = Seq::<((int, int), (int, int))>::empty();
            assert(with_corridors(&m0, pairs) =~= m0.cells());
            if regions.len() == 1 {
                let c0 = cell(regions@[0]@[0]);
                lemma_largest(&m0, regions@, 0);
                assert forall|t: (int, int)| #[trigger] floor_cell(&m0, t) implies joined_after(&m0, c0, pairs, 0).contains(t) by {
                    let (k, j) = choose|k: int, j: int|
                        0 <= k < regions@.len() && 0 <= j < regions@[k]@.len() && cell(#[trigger] regions@[k]@[j]) == t;
                    assert(regions@[0]@[j] == tile_at(t));
                    lemma_region_exact(&m0, regions@, 0, t);
                }
                assert(join_plan(&m0, c0, pairs));
            } else {
                assert forall|t: (int, int)| !#[trigger] floor_cell(&m0, t) by {
                    if floor_cell(&m0, t) {
                        let (k, j) = choose|k: int, j: int|
                            0 <= k < regions@.len() && 0 <= j < regions@[k]@.len() && cell(#[trigger] regions@[k]@[j]) == t;
                    }
                }
                assert(join_plan(&m0, (0, 0), pairs));
            }
        }
        return;
    }
    proof {
        lemma_several_regions_apart(m0, regions@);
    }
    let largest = largest_region(&regions);
    let ghost orig_regions = regions@;
    proof {
        lemma_joining_start(m0, regions@, largest as int);
        lemma_largest(&m0, regions@, largest as int);
    }
    let mut connected: Vec<(usize, usize)> = regions.swap_remove(largest);
    let ghost c0 = cell(connected@[0]);
    let ghost mut pairs: Seq<((int, int), (int, int))> = Seq::empty();
    proof {
        assert(with_corridors(&m0, pairs) =~= m0.cells());
        lemma_plan_start(&m0, orig_regions, largest as int);
    }
    while !regions.is_empty()
        invariant
            joining(m0, *map, c0, connected@, regions@),
            map.width <= 32768,
            map.height <= 32768,
            map.tags() == m0.tags(),
            map.room_list() == m0.room_list(),
            m0.inv(),
            floor_cell(&m0, c0),
            forall|t: (int, int)|
                #[trigger] floor_cell(&m0, t) ==> region_of(&m0, t).len() <= region_of(&m0, c0).len(),
            map.cells() == with_corridors(&m0, pairs),
            plan_state(&m0, c0, pairs, connected@, regions@),
        decreases regions@.len(),
    {
        proof {
            assert forall|i: int| 0 <= i < connected@.len() implies (#[trigger] connected@[i]).0 < 32768
                && connected@[i].1 < 32768 by {
                assert(floor_cell(&m0, cell(connected@[i])));
            }
            assert forall|k: int, j: int| 0 <= k < regions@.len() && 0 <= j < regions@[k]@.len() implies (
            #[trigger] regions@[k]@[j]).0 < 32768 && regions@[k]@[j].1 < 32768 by {
                assert(floor_cell(&m0, cell(regions@[k]@[j])));
            }
        }
        let (ri, ai, bi) = closest_pair(&connected, &regions);
        let from = connected[ai];
        let to = regions[ri][bi];
        let ghost before = *map;
        let ghost p = (cell(from), cell(to));
        proof {
            assert(floor_cell(&m0, cell(connected@[ai as int])));
            assert(floor_cell(&m0, cell(regions@[ri as int]@[bi as int])));
            lemma_plan_step(&m0, map, c0, pairs, connected@, regions@, ri as int, ai as int, bi as int);
        }
        carve_corridor(map, from, to);
        proof {
            lemma_joining_step(m0, before, *map, c0, connected@, regions@, ri as int, ai as int, bi as int);
            lemma_corridors_push(&m0, pairs, p, map.cells());
        }
        let mut joined = regions.swap_remove(ri);
        connected.append(&mut joined);
        proof {
            pairs = pairs.push(p);
        }
    }
    proof {
        lemma_joining_done(m0, *map, c0, connected@);
        assert forall|t: (int, int)| #[trigger] floor_cell(&m0, t) implies joined_after(&m0, c0, pairs, pairs.len()).contains(t) by {
            assert(connected@.contains(tile_at(t)));
        }
        assert(join_plan(&m0, c0, pairs));
    }
}

/// The noise seed of the dungeon: the run's `"dungeon"` sub-seed truncated to
/// the `u32` that Perlin noise takes. The sub-seed is already well mixed, so
/// its low 32 bits are as good as any.
pub fn dungeon_noise_seed(run_seed: &RunSeed) -> (s: u32)
    ensures
        s == derived(run_seed.0, "dungeon".spec_bytes()) as u32,
{
    run_seed.derive("dungeon") as u32
}

/// Tile `(x, y)` sampled above the floor threshold and lies inside the
/// forced solid border.
pub open spec fn noise_floor(floor_noise: Seq<bool>, x: int, y: int) -> bool {
    floor_noise[y * MAP_WIDTH + x] && !on_border(MAP_WIDTH as int, MAP_HEIGHT as int, x, y)
}

/// Build the dungeon from the thresholded noise field
/// (`floor_noise[y * MAP_WIDTH + x]`: the noise at `(x, y)` lies above the
/// floor threshold): keep the noise caverns, join them all into one piece
/// with L-shaped corridors, and pick the spawn tile closest to the centre.
pub fn generate_dungeon(floor_noise: &Vec<bool>) -> (out: (DungeonMap, (usize, usize)))
    requires
        floor_noise@.len() == MAP_WIDTH * MAP_HEIGHT,
    ensures
        out.0.inv(),
        out.0.width == MAP_WIDTH,
        out.0.height == MAP_HEIGHT,
        forall|x: int, y: int|
            0 <= x < MAP_WIDTH && 0 <= y < MAP_HEIGHT && noise_floor(floor_noise@, x, y) ==> #[trigger] out.0.tile(x, y)
                == Tile::Floor,
        forall|x: int, y: int|
            0 <= x < MAP_WIDTH && 0 <= y < MAP_HEIGHT && on_border(MAP_WIDTH as int, MAP_HEIGHT as int, x, y)
                ==> #[trigger] out.0.tile(x, y) == Tile::Wall,
        forall|t: (int, int)|
            #[trigger] floor_cell(&out.0, t) && !noise_floor(floor_noise@, t.0, t.1) ==> exists|
                a: (int, int),
                b: (int, int),
            |
                in_grid(MAP_WIDTH as int, MAP_HEIGHT as int, a) && in_grid(MAP_WIDTH as int, MAP_HEIGHT as int, b)
                    && noise_floor(floor_noise@, a.0, a.1) && noise_floor(floor_noise@, b.0, b.1)
                    && #[trigger] on_corridor(a, b, t),
        all_floor_joined(&out.0),
        (exists|x: int, y: int| #[trigger] is_floor_at(&out.0, x, y)) ==> {
            &&& is_floor_at(&out.0, out.1.0 as int, out.1.1 as int)
            &&& forall|x: int, y: int|
                #[trigger] is_floor_at(&out.0, x, y) ==> central_dist(
                    MAP_WIDTH as int,
                    MAP_HEIGHT as int,
                    out.1.0 as int,
                    out.1.1 as int,
                ) <= central_dist(MAP_WIDTH as int, MAP_HEIGHT as int, x, y)
            &&& forall|x: int, y: int|
                #[trigger] is_floor_at(&out.0, x, y) && (y < out.1.1 || (y == out.1.1 && x < out.1.0))
                    ==> central_dist(MAP_WIDTH as int, MAP_HEIGHT as int, out.1.0 as int, out.1.1 as int)
                    < central_dist(MAP_WIDTH as int, MAP_HEIGHT as int, x, y)
        },
        !(exists|x: int, y: int| #[trigger] is_floor_at(&out.0, x, y)) ==> out.1 == (
            MAP_WIDTH / 2,
            MAP_HEIGHT / 2,
        ),
{
    let mut map = build_noise_map(floor_noise);
    let ghost m0 = map;
    connect_regions(&mut map);
    proof {
        let (w, h) = (MAP_WIDTH as int, MAP_HEIGHT as int);
        assert forall|t: (int, int)| floor_cell(&m0, t) <==> in_grid(w, h, t) && noise_floor(floor_noise@, t.0, t.1) by {
            if in_grid(w, h, t) {
                assert(m0.tile(t.0, t.1) == Tile::Floor <==> noise_floor(floor_noise@, t.0, t.1));
            }
        }
        assert forall|x: int, y: int|
            0 <= x < w && 0 <= y < h && noise_floor(floor_noise@, x, y) implies #[trigger] map.tile(x, y)
                == Tile::Floor by {
            assert(m0.tile(x, y) == Tile::Floor);
            lemma_index_in_range(w, h, (x, y));
            assert(m0.floor_mask()[cell_index(w, (x, y))]);
        }
        assert forall|x: int, y: int|
            0 <= x < w && 0 <= y < h && on_border(w, h, x, y) implies #[trigger] map.tile(x, y) == Tile::Wall by {
            let t = (x, y);
            assert(m0.tile(x, y) == Tile::Wall);
            if map.tile(x, y) == Tile::Floor {
                assert(floor_cell(&map, t) && !floor_cell(&m0, t));
                let (a, b) = choose|a: (int, int), b: (int, int)|
                    floor_cell(&m0, a) && floor_cell(&m0, b) && #[trigger] on_corridor(a, b, t);
                assert(noise_floor(floor_noise@, a.0, a.1) && noise_floor(floor_noise@, b.0, b.1));
            }
        }
        assert forall|t: (int, int)|
            #[trigger] floor_cell(&map, t) && !noise_floor(floor_noise@, t.0, t.1) implies exists|
                a: (int, int),
                b: (int, int),
            |
                in_grid(w, h, a) && in_grid(w, h, b) && noise_floor(floor_noise@, a.0, a.1) && noise_floor(
                    floor_noise@,
                    b.0,
                    b.1,
                ) && #[trigger] on_corridor(a, b, t) by {
            assert(!floor_cell(&m0, t));
            let (a, b) = choose|a: (int, int), b: (int, int)|
                floor_cell(&m0, a) && floor_cell(&m0, b) && #[trigger] on_corridor(a, b, t);
            assert(in_grid(w, h, a) && noise_floor(floor_noise@, a.0, a.1));
            assert(in_grid(w, h, b) && noise_floor(floor_noise@, b.0, b.1));
        }
    }
    let spawn = find_central_floor(&map);
    (map, spawn)
}

/// Carve a 1-wide L-shaped floor corridor from `from` to `to`: a horizontal
/// leg along `from`'s row, then a vertical leg along `to`'s column.
pub fn carve_corridor(map: &mut DungeonMap, from: (usize, usize), to: (usize, usize))
    requires
        old(map).inv(),
        from.0 < old(map).width,
        from.1 < old(map).height,
        to.0 < old(map).width,
        to.1 < old(map).height,
    ensures
        final(map).inv(),
        final(map).width == old(map).width,
        final(map).height == old(map).height,
        final(map).tags() == old(map).tags(),
        final(map).room_list() == old(map).room_list(),
        forall|i: int|
            0 <= i < old(map).width * old(map).height ==> #[trigger] final(map).cells()[i] == if on_corridor(
                cell(from),
                cell(to),
                index_cell(old(map).width as int, i),
            ) {
                Tile::Floor
            } else {
                old(map).cells()[i]
            },
        linked(
            final(map).width as int,
            final(map).height as int,
            final(map).floor_mask(),
            cell(from),
            cell(to),
        ),
        forall|t: (int, int)|
            on_corridor(cell(from), cell(to), t) ==> #[trigger] linked(
                final(map).width as int,
                final(map).height as int,
                final(map).floor_mask(),
                cell(from),
                t,
            ),
{
    let ghost m0 = *map;
    let ghost w = map.width as int;
    let ghost h = map.height as int;
    let ghost f = cell(from);
    let ghost g = cell(to);
    let (mut x, y0) = from;
    let ghost mut last: Option<(int, int)> = None;
    proof {
        assert(m0.cells() =~= painted(m0.cells(), w, row_leg(f, x as int)));
    }
    while x != to.0
        invariant
            map.inv(),
            m0.inv(),
            map.width == m0.width,
            map.height == m0.height,
            w == map.width,
            h == map.height,
            f == cell(from),
            g == cell(to),
            from.0 < w,
            from.1 < h,
            to.0 < w,
            to.1 < h,
            y0 == from.1,
            between(from.0 as int, to.0 as int, x as int),
            map.tags() == m0.tags(),
            map.room_list() == m0.room_list(),
            map.cells() == painted(m0.cells(), w, row_leg(f, x as int)),
            forall|t: (int, int)| #[trigger] row_leg(f, x as int)(t) ==> linked(w, h, map.floor_mask(), f, t),
            last matches Some(l) ==> linked(w, h, map.floor_mask(), f, l) && adjacent(l, (x as int, y0 as int)),
            last is None ==> x == from.0,
        decreases if x < to.0 { to.0 - x } else { x - to.0 },
    {
        let ghost before = *map;
        let ghost c = (x as int, y0 as int);
        proof {
            lemma_index_in_range(w, h, c);
        }
        map.set(x, y0, Tile::Floor);
        proof {
            lemma_extend_walk(before, *map, f, last, c);
            last = Some(c);
        }
        let ghost px = x as int;
        x = if x < to.0 { x + 1 } else { x - 1 };
        proof {
            let p = row_leg(f, px);
            let q = row_leg(f, x as int);
            assert forall|t: (int, int)| #[trigger] q(t) == (p(t) || t == c) by {}
            lemma_paint_one(m0.cells(), w, h, p, q, before.cells(), c);
            lemma_floor_grows(before, *map, c);
            lemma_linked_mono_all(w, h, before.floor_mask(), map.floor_mask(), f, p);
        }
    }
    let mut y = y0;
    proof {
        assert forall|t: (int, int)|
            #[trigger] column_leg(f, g, y as int)(t) == row_leg(f, x as int)(t) by {}
        assert(column_leg(f, g, y as int) =~= row_leg(f, x as int));
    }
    while y != to.1
        invariant
            map.inv(),
            m0.inv(),
            map.width == m0.width,
            map.height == m0.height,
            w == map.width,
            h == map.height,
            f == cell(from),
            g == cell(to),
            from.0 < w,
            from.1 < h,
            to.0 < w,
            to.1 < h,
            y0 == from.1,
            x == to.0,
            between(from.1 as int, to.1 as int, y as int),
            map.tags() == m0.tags(),
            map.room_list() == m0.room_list(),
            map.cells() == painted(m0.cells(), w, column_leg(f, g, y as int)),
            forall|t: (int, int)| #[trigger] column_leg(f, g, y as int)(t) ==> linked(w, h, map.floor_mask(), f, t),
            last matches Some(l) ==> linked(w, h, map.floor_mask(), f, l) && adjacent(l, (to.0 as int, y as int)),
            last is None ==> (to.0 as int, y as int) == f,
        decreases if y < to.1 { to.1 - y } else { y - to.1 },
    {
        let ghost before = *map;
        let ghost c = (to.0 as int, y as int);
        proof {
            lemma_index_in_range(w, h, c);
        }
        map.set(to.0, y, Tile::Floor);
        proof {
            lemma_extend_walk(before, *map, f, last, c);
            last = Some(c);
        }
        let ghost py = y as int;
        y = if y < to.1 { y + 1 } else { y - 1 };
        proof {
            let p = column_leg(f, g, py);
            let q = column_leg(f, g, y as int);
            assert forall|t: (int, int)| #[trigger] q(t) == (p(t) || t == c) by {}
            lemma_paint_one(m0.cells(), w, h, p, q, before.cells(), c);
            lemma_floor_grows(before, *map, c);
            lemma_linked_mono_all(w, h, before.floor_mask(), map.floor_mask(), f, p);
        }
    }
    let ghost before = *map;
    proof {
        lemma_index_in_range(w, h, g);
    }
    map.set(to.0, to.1, Tile::Floor);
    proof {
        lemma_extend_walk(before, *map, f, last, g);
        let p = column_leg(f, g, y as int);
        let q = |t: (int, int)| on_corridor(f, g, t);
        assert forall|t: (int, int)| #[trigger] q(t) == (p(t) || t == g) by {}
        lemma_paint_one(m0.cells(), w, h, p, q, before.cells(), g);
        lemma_floor_grows(before, *map, g);
        lemma_linked_mono_all(w, h, before.floor_mask(), map.floor_mask(), f, p);
        assert forall|t: (int, int)| on_corridor(f, g, t) implies #[trigger] linked(w, h, map.floor_mask(), f, t) by {
            assert(q(t));
            if t != g {
                assert(p(t));
            }
        }
        assert forall|i: int| 0 <= i < w * h implies #[trigger] map.cells()[i] == if on_corridor(f, g, index_cell(w, i)) {
            Tile::Floor
        } else {
            m0.cells()[i]
        } by {
            assert(map.cells()[i] == painted(m0.cells(), w, q)[i]);
        }
    }
}

/// An in-bounds cell as the coordinate pair a region stores.
pub open spec fn tile_at(t: (int, int)) -> (usize, usize) {
    (t.0 as usize, t.1 as usize)
}

/// No tile occurs twice in `s`.
pub open spec fn no_repeats(s: Seq<(usize, usize)>) -> bool {
    forall|k1: int, k2: int| 0 <= k1 < k2 < s.len() ==> s[k1] != s[k2]
}

/// The regions are the floor components of `map`: each is a non-empty list of
/// floor tiles joined to its first tile, no tile appears twice anywhere, every
/// floor tile appears somewhere, and a floor tile next to a region's tile is in
/// that same region.
pub open spec fn regions_are_components(map: &LevelMap, regions: Seq<Vec<(usize, usize)>>) -> bool {
    let (w, h) = (map.width as int, map.height as int);
    &&& forall|k: int| 0 <= k < regions.len() ==> (#[trigger] regions[k])@.len() > 0
    &&& forall|k: int, j: int|
        0 <= k < regions.len() && 0 <= j < regions[k]@.len() ==> floor_cell(
            map,
            cell(#[trigger] regions[k]@[j]),
        ) && linked(w, h, map.floor_mask(), cell(regions[k]@[0]), cell(regions[k]@[j]))
    &&& forall|k1: int, j1: int, k2: int, j2: int|
        0 <= k1 < regions.len() && 0 <= j1 < regions[k1]@.len() && 0 <= k2 < regions.len() && 0 <= j2
            < regions[k2]@.len() && (k1 != k2 || j1 != j2) ==> #[trigger] regions[k1]@[j1]
            != #[trigger] regions[k2]@[j2]
    &&& forall|t: (int, int)|
        #[trigger] floor_cell(map, t) ==> exists|k: int, j: int|
            0 <= k < regions.len() && 0 <= j < regions[k]@.len() && cell(#[trigger] regions[k]@[j])
                == t
    &&& forall|k: int, j: int, b: (int, int)|
        #![trigger regions[k]@[j], floor_cell(map, b)]
        0 <= k < regions.len() && 0 <= j < regions[k]@.len() && floor_cell(map, b) && adjacent(
            cell(regions[k]@[j]),
            b,
        ) ==> regions[k]@.contains(tile_at(b))
}

/// The regions come in the row-major order of their first tiles, and each
/// region's first tile is its first in row-major order.
pub open spec fn regions_in_scan_order(regions: Seq<Vec<(usize, usize)>>) -> bool {
    &&& forall|k1: int, k2: int|
        0 <= k1 < k2 < regions.len() ==> row_major_lt(
            cell((#[trigger] regions[k1])@[0]),
            cell((#[trigger] regions[k2])@[0]),
        )
    &&& forall|k: int, j: int|
        0 <= k < regions.len() && 0 < j < regions[k]@.len() ==> row_major_lt(
            cell(regions[k]@[0]),
            cell(#[trigger] regions[k]@[j]),
        )
}

/// The seeds were found in row-major order, and a label's seed comes first
/// among its tiles.
spec fn seeds_ordered(map: &LevelMap, lab: Seq<Option<usize>>, seeds: Seq<(int, int)>) -> bool {
    &&& forall|l1: int, l2: int|
        0 <= l1 < l2 < seeds.len() ==> row_major_lt(#[trigger] seeds[l1], #[trigger] seeds[l2])
    &&& forall|t: (int, int)|
        #![trigger label_of(lab, map.width as int, t)]
        map.in_bounds(t) && label_of(lab, map.width as int, t) is Some && (label_of(
            lab,
            map.width as int,
            t,
        ).unwrap() as int) < seeds.len() ==> seeds[label_of(lab, map.width as int, t).unwrap() as int]
            == t || row_major_lt(seeds[label_of(lab, map.width as int, t).unwrap() as int], t)
}

/// Every seed lies before `p` in row-major order.
spec fn seeds_before(seeds: Seq<(int, int)>, p: (int, int)) -> bool {
    forall|l: int| 0 <= l < seeds.len() ==> row_major_lt(#[trigger] seeds[l], p)
}

/// Every tile of `s` is in bounds and labelled `l`.
spec fn all_labelled(map: &LevelMap, lab: Seq<Option<usize>>, s: Seq<(usize, usize)>, l: usize) -> bool {
    forall|k: int|
        0 <= k < s.len() ==> map.in_bounds(cell(#[trigger] s[k])) && label_of(
            lab,
            map.width as int,
            cell(s[k]),
        ) == Some(l)
}

/// The visited flags mirror which tiles carry a label.
spec fn mirrors(visited: Seq<bool>, lab: Seq<Option<usize>>) -> bool {
    &&& visited.len() == lab.len()
    &&& forall|i: int| 0 <= i < lab.len() ==> #[trigger] visited[i] == lab[i] is Some
}

/// Every labelled tile is floor, joined to the seed of its label, and its
/// label is below `bound`.
spec fn labels_sound_to(map: &LevelMap, lab: Seq<Option<usize>>, seeds: Seq<(int, int)>, bound: int) -> bool {
    forall|t: (int, int)|
        #![trigger label_of(lab, map.width as int, t)]
        map.in_bounds(t) && label_of(lab, map.width as int, t) is Some ==> {
            let l = label_of(lab, map.width as int, t).unwrap() as int;
            &&& floor_cell(map, t)
            &&& l < bound
            &&& map.in_bounds(seeds[l])
            &&& linked(map.width as int, map.height as int, map.floor_mask(), seeds[l], t)
        }
}

/// Every floor tile before `(x, y)` in row-major order is labelled.
spec fn scanned_to(map: &LevelMap, lab: Seq<Option<usize>>, x: int, y: int) -> bool {
    forall|t: (int, int)|
        #![trigger label_of(lab, map.width as int, t)]
        floor_cell(map, t) && (t.1 < y || (t.1 == y && t.0 < x)) ==> label_of(
            lab,
            map.width as int,
            t,
        ) is Some
}

/// A labelled tile that is neither waiting in `pending` nor `skip` passes its
/// label to each floor neighbour.
spec fn closed_except(map: &LevelMap, lab: Seq<Option<usize>>, pending: Seq<(usize, usize)>, skip: (int, int)) -> bool {
    forall|a: (int, int), b: (int, int)|
        #![trigger label_of(lab, map.width as int, a), label_of(lab, map.width as int, b)]
        map.in_bounds(a) && label_of(lab, map.width as int, a) is Some && adjacent(a, b) && floor_cell(
            map,
            b,
        ) && !pending.contains(tile_at(a)) && a != skip ==> label_of(lab, map.width as int, b)
            == label_of(lab, map.width as int, a)
}

/// Regions below `n` are finished: each starts at its seed and lists every
/// tile of its label exactly once.
spec fn finished(
    map: &LevelMap,
    lab: Seq<Option<usize>>,
    regions: Seq<Vec<(usize, usize)>>,
    seeds: Seq<(int, int)>,
) -> bool {
    &&& forall|l: int|
        0 <= l < regions.len() ==> (#[trigger] regions[l])@.len() > 0 && cell(regions[l]@[0])
            == seeds[l] && all_labelled(map, lab, regions[l]@, l as usize) && no_repeats(regions[l]@)
    &&& forall|t: (int, int)|
        #![trigger label_of(lab, map.width as int, t)]
        map.in_bounds(t) && label_of(lab, map.width as int, t) is Some && label_of(
            lab,
            map.width as int,
            t,
        ).unwrap() < regions.len() ==> regions[label_of(
            lab,
            map.width as int,
            t,
        ).unwrap() as int]@.contains(tile_at(t))
}


/// What the breadth-first fill of region `next` keeps: the queue and the
/// region so far hold tiles labelled `next` once each, never both, and every
/// tile labelled `next` is in one of them.
spec fn filling(
    map: &LevelMap,
    lab: Seq<Option<usize>>,
    queue: Seq<(usize, usize)>,
    region: Seq<(usize, usize)>,
    next: usize,
    here: (int, int),
) -> bool {
    &&& all_labelled(map, lab, queue, next)
    &&& no_repeats(queue)
    &&& all_labelled(map, lab, region, next)
    &&& no_repeats(region)
    &&& forall|k: int| 0 <= k < region.len() ==> !queue.contains(#[trigger] region[k])
    &&& forall|t: (int, int)|
        #![trigger label_of(lab, map.width as int, t)]
        map.in_bounds(t) && label_of(lab, map.width as int, t) == Some(next) ==> region.contains(
            tile_at(t),
        ) || queue.contains(tile_at(t))
    &&& (region.len() == 0 && queue == seq![tile_at(here)]) || (region.len() > 0 && cell(region[0])
        == here)
}

/// Everything the scan keeps between regions.
spec fn scan_state(
    map: &LevelMap,
    visited: Seq<bool>,
    lab: Seq<Option<usize>>,
    seeds: Seq<(int, int)>,
    regions: Seq<Vec<(usize, usize)>>,
) -> bool {
    &&& lab.len() == map.width * map.height
    &&& mirrors(visited, lab)
    &&& seeds.len() == regions.len()
    &&& count_none(lab) + regions.len() <= map.width * map.height
    &&& labels_sound_to(map, lab, seeds, regions.len() as int)
    &&& closed_except(map, lab, Seq::empty(), (-1, -1))
    &&& finished(map, lab, regions, seeds)
    &&& seeds_ordered(map, lab, seeds)
}

/// Everything the fill of region `next` keeps.
spec fn fill_state(
    map: &LevelMap,
    visited: Seq<bool>,
    lab: Seq<Option<usize>>,
    seeds: Seq<(int, int)>,
    regions: Seq<Vec<(usize, usize)>>,
    queue: Seq<(usize, usize)>,
    region: Seq<(usize, usize)>,
    here: (int, int),
) -> bool {
    let next = regions.len();
    &&& lab.len() == map.width * map.height
    &&& mirrors(visited, lab)
    &&& seeds.len() == next + 1
    &&& seeds[next as int] == here
    &&& map.in_bounds(here)
    &&& count_none(lab) + next < map.width * map.height
    &&& labels_sound_to(map, lab, seeds, next + 1int)
    &&& finished(map, lab, regions, seeds)
    &&& filling(map, lab, queue, region, next as usize, here)
    &&& seeds_ordered(map, lab, seeds)
}

/// Labelling a fresh seed starts the fill of a new region.
proof fn lemma_start_region(
    map: &LevelMap,
    visited: Seq<bool>,
    lab: Seq<Option<usize>>,
    seeds: Seq<(int, int)>,
    regions: Seq<Vec<(usize, usize)>>,
    here: (int, int),
    x: int,
    y: int,
)
    requires
        map.inv(),
        scan_state(map, visited, lab, seeds, regions),
        scanned_to(map, lab, x, y),
        seeds_before(seeds, (x, y)),
        here == (x, y),
        floor_cell(map, here),
        label_of(lab, map.width as int, here) is None,
    ensures
        ({
            let i = cell_index(map.width as int, here);
            let lab2 = lab.update(i, Some(regions.len() as usize));
            &&& 0 <= i < lab.len()
            &&& regions.len() < usize::MAX
            &&& fill_state(
                map,
                visited.update(i, true),
                lab2,
                seeds.push(here),
                regions,
                seq![tile_at(here)],
                Seq::empty(),
                here,
            )
            &&& scanned_to(map, lab2, x + 1, y)
            &&& closed_except(map, lab2, seq![tile_at(here)], (-1, -1))
        }),
{
    let (w, h) = (map.width as int, map.height as int);
    let i = cell_index(w, here);
    let next = regions.len() as usize;
    lemma_index_in_range(w, h, here);
    lemma_count_none_update(lab, i, next);
    lemma_count_none_le(lab.update(i, Some(next)));
    let lab2 = lab.update(i, Some(next));
    let seeds2 = seeds.push(here);
    let q = seq![tile_at(here)];
    lemma_relabel(map, lab, here, next);
    lemma_floor_passable(map, here);
    lemma_linked_refl(w, h, map.floor_mask(), here);
    assert(mirrors(visited.update(i, true), lab2));
    assert forall|t: (int, int)|
        #![trigger label_of(lab2, w, t)]
        map.in_bounds(t) && label_of(lab2, w, t) is Some implies {
            let l = label_of(lab2, w, t).unwrap() as int;
            &&& floor_cell(map, t)
            &&& l < next + 1
            &&& map.in_bounds(seeds2[l])
            &&& linked(w, h, map.floor_mask(), seeds2[l], t)
        } by {
        if t != here {
            let l = label_of(lab, w, t).unwrap() as int;
            assert(seeds2[l] == seeds[l]);
        }
    }
    assert forall|t: (int, int)|
        #![trigger label_of(lab2, w, t)]
        floor_cell(map, t) && (t.1 < y || (t.1 == y && t.0 < x + 1)) implies label_of(lab2, w, t) is Some by {
        if t != here {
            assert(label_of(lab, w, t) is Some);
        }
    }
    assert forall|a: (int, int), b: (int, int)|
        #![trigger label_of(lab2, w, a), label_of(lab2, w, b)]
        map.in_bounds(a) && label_of(lab2, w, a) is Some && adjacent(a, b) && floor_cell(map, b)
            && !q.contains(tile_at(a)) && a != (-1int, -1int) implies label_of(lab2, w, b) == label_of(
            lab2,
            w,
            a,
        ) by {
        if a == here {
            assert(q[0] == tile_at(a));
        }
        assert(label_of(lab, w, a) is Some);
        assert(!Seq::<(usize, usize)>::empty().contains(tile_at(a)));
        assert(map.in_bounds(b));
        assert(label_of(lab, w, b) == label_of(lab, w, a));
    }
    assert forall|l: int| 0 <= l < regions.len() implies (#[trigger] regions[l])@.len() > 0 && cell(
        regions[l]@[0],
    ) == seeds2[l] && all_labelled(map, lab2, regions[l]@, l as usize) && no_repeats(regions[l]@) by {
        assert(all_labelled(map, lab, regions[l]@, l as usize));
        assert forall|k: int| 0 <= k < regions[l]@.len() implies map.in_bounds(
            cell(#[trigger] regions[l]@[k]),
        ) && label_of(lab2, w, cell(regions[l]@[k])) == Some(l as usize) by {}
    }
    assert forall|t: (int, int)|
        #![trigger label_of(lab2, w, t)]
        map.in_bounds(t) && label_of(lab2, w, t) is Some && label_of(lab2, w, t).unwrap()
            < regions.len() implies regions[label_of(lab2, w, t).unwrap() as int]@.contains(
            tile_at(t),
        ) by {}
    assert forall|t: (int, int)|
        #![trigger label_of(lab2, w, t)]
        map.in_bounds(t) && label_of(lab2, w, t) == Some(next) implies Seq::<(usize, usize)>::empty().contains(
            tile_at(t),
        ) || q.contains(tile_at(t)) by {
        if t != here {
            let l = label_of(lab, w, t).unwrap();
        } else {
            assert(q[0] == tile_at(t));
        }
    }
    assert(all_labelled(map, lab2, q, next)) by {
        assert(cell(q[0]) == here);
    }
    assert forall|l1: int, l2: int| 0 <= l1 < l2 < seeds2.len() implies row_major_lt(
        #[trigger] seeds2[l1],
        #[trigger] seeds2[l2],
    ) by {
        assert(seeds2[l1] == seeds[l1]);
        if l2 < seeds.len() {
            assert(seeds2[l2] == seeds[l2]);
        }
    }
    assert forall|t: (int, int)|
        #![trigger label_of(lab2, w, t)]
        map.in_bounds(t) && label_of(lab2, w, t) is Some && (label_of(lab2, w, t).unwrap() as int)
            < seeds2.len() implies seeds2[label_of(lab2, w, t).unwrap() as int] == t || row_major_lt(
            seeds2[label_of(lab2, w, t).unwrap() as int],
            t,
        ) by {
        if t != here {
            let l = label_of(lab, w, t).unwrap() as int;
            assert(seeds2[l] == seeds[l]);
        }
    }
}


/// Taking the front tile off the queue and appending it to the region keeps
/// the fill's invariant; until its neighbours are seen, only that tile may
/// withhold its label from a floor neighbour.
proof fn lemma_pop_tile(
    map: &LevelMap,
    visited: Seq<bool>,
    lab: Seq<Option<usize>>,
    seeds: Seq<(int, int)>,
    regions: Seq<Vec<(usize, usize)>>,
    queue: Seq<(usize, usize)>,
    region: Seq<(usize, usize)>,
    here: (int, int),
)
    requires
        map.inv(),
        fill_state(map, visited, lab, seeds, regions, queue, region, here),
        closed_except(map, lab, queue, (-1, -1)),
        queue.len() > 0,
    ensures
        fill_state(
            map,
            visited,
            lab,
            seeds,
            regions,
            queue.subrange(1, queue.len() as int),
            region.push(queue[0]),
            here,
        ),
        closed_except(map, lab, queue.subrange(1, queue.len() as int), cell(queue[0])),
        map.in_bounds(cell(queue[0])),
        label_of(lab, map.width as int, cell(queue[0])) == Some(regions.len() as usize),
{
    let w = map.width as int;
    let next = regions.len() as usize;
    let p = queue[0];
    let q2 = queue.subrange(1, queue.len() as int);
    let r2 = region.push(p);
    assert(map.in_bounds(cell(queue[0])));
    assert forall|t: (usize, usize)| #[trigger] q2.contains(t) implies queue.contains(t) && t != p by {
        let k = choose|k: int| 0 <= k < q2.len() && q2[k] == t;
        assert(queue[k + 1] == t);
    }
    assert(!region.contains(p)) by {
        if region.contains(p) {
            let k = choose|k: int| 0 <= k < region.len() && region[k] == p;
            assert(queue[0] == p);
        }
    }
    assert(all_labelled(map, lab, q2, next)) by {
        assert forall|k: int| 0 <= k < q2.len() implies map.in_bounds(cell(#[trigger] q2[k])) && label_of(
            lab,
            w,
            cell(q2[k]),
        ) == Some(next) by {
            assert(q2[k] == queue[k + 1]);
        }
    }
    assert(all_labelled(map, lab, r2, next)) by {
        assert forall|k: int| 0 <= k < r2.len() implies map.in_bounds(cell(#[trigger] r2[k])) && label_of(
            lab,
            w,
            cell(r2[k]),
        ) == Some(next) by {
            if k < region.len() {
                assert(r2[k] == region[k]);
            }
        }
    }
    assert forall|k: int| 0 <= k < r2.len() implies !q2.contains(#[trigger] r2[k]) by {
        if k < region.len() {
            assert(r2[k] == region[k]);
        }
    }
    assert forall|t: (int, int)|
        #![trigger label_of(lab, w, t)]
        map.in_bounds(t) && label_of(lab, w, t) == Some(next) implies r2.contains(tile_at(t)) || q2.contains(
            tile_at(t),
        ) by {
        if region.contains(tile_at(t)) {
            let k = choose|k: int| 0 <= k < region.len() && region[k] == tile_at(t);
            assert(r2[k] == tile_at(t));
        } else if tile_at(t) == p {
            assert(r2[region.len() as int] == p);
        } else {
            let k = choose|k: int| 0 <= k < queue.len() && queue[k] == tile_at(t);
            assert(q2[k - 1] == tile_at(t));
        }
    }
    if region.len() == 0 {
        assert(cell(p) == here);
    }
    assert(r2[0] == if region.len() == 0 { p } else { region[0] });
}

/// Labelling an unvisited floor neighbour of the tile being expanded and
/// queueing it keeps the fill's invariant.
proof fn lemma_label_neighbour(
    map: &LevelMap,
    visited: Seq<bool>,
    lab: Seq<Option<usize>>,
    seeds: Seq<(int, int)>,
    regions: Seq<Vec<(usize, usize)>>,
    queue: Seq<(usize, usize)>,
    region: Seq<(usize, usize)>,
    here: (int, int),
    popped: (int, int),
    nb: (int, int),
    x: int,
    y: int,
)
    requires
        map.inv(),
        fill_state(map, visited, lab, seeds, regions, queue, region, here),
        scanned_to(map, lab, x, y),
        closed_except(map, lab, queue, popped),
        region.len() > 0,
        map.in_bounds(popped),
        label_of(lab, map.width as int, popped) == Some(regions.len() as usize),
        floor_cell(map, nb),
        label_of(lab, map.width as int, nb) is None,
        adjacent(popped, nb),
        here == (x - 1, y),
    ensures
        ({
            let i = cell_index(map.width as int, nb);
            let lab2 = lab.update(i, Some(regions.len() as usize));
            let q2 = queue.push(tile_at(nb));
            &&& 0 <= i < lab.len()
            &&& fill_state(map, visited.update(i, true), lab2, seeds, regions, q2, region, here)
            &&& scanned_to(map, lab2, x, y)
            &&& closed_except(map, lab2, q2, popped)
            &&& count_none(lab2) + 1 == count_none(lab)
            &&& forall|t: (int, int)|
                #![trigger label_of(lab2, map.width as int, t)]
                map.in_bounds(t) ==> label_of(lab2, map.width as int, t) == if t == nb {
                    Some(regions.len() as usize)
                } else {
                    label_of(lab, map.width as int, t)
                }
        }),
{
    let (w, h) = (map.width as int, map.height as int);
    let i = cell_index(w, nb);
    let next = regions.len() as usize;
    lemma_index_in_range(w, h, nb);
    lemma_count_none_update(lab, i, next);
    let lab2 = lab.update(i, Some(next));
    let q2 = queue.push(tile_at(nb));
    lemma_relabel(map, lab, nb, next);
    lemma_floor_passable(map, nb);
    lemma_linked_step(w, h, map.floor_mask(), here, popped, nb);
    assert(mirrors(visited.update(i, true), lab2));
    assert(cell(tile_at(nb)) == nb);
    assert forall|t: (int, int)|
        #![trigger label_of(lab2, w, t)]
        map.in_bounds(t) && label_of(lab2, w, t) is Some implies {
            let l = label_of(lab2, w, t).unwrap() as int;
            &&& floor_cell(map, t)
            &&& l < next + 1
            &&& map.in_bounds(seeds[l])
            &&& linked(w, h, map.floor_mask(), seeds[l], t)
        } by {}
    assert forall|t: (int, int)|
        #![trigger label_of(lab2, w, t)]
        floor_cell(map, t) && (t.1 < y || (t.1 == y && t.0 < x)) implies label_of(lab2, w, t) is Some by {
        if t != nb {
            assert(label_of(lab, w, t) is Some);
        }
    }
    assert forall|t: (usize, usize)| #[trigger] queue.contains(t) implies q2.contains(t) by {
        let k = choose|k: int| 0 <= k < queue.len() && queue[k] == t;
        assert(q2[k] == t);
    }
    assert(q2[queue.len() as int] == tile_at(nb));
    assert(!queue.contains(tile_at(nb))) by {
        if queue.contains(tile_at(nb)) {
            let k = choose|k: int| 0 <= k < queue.len() && queue[k] == tile_at(nb);
            assert(label_of(lab, w, cell(queue[k])) == Some(next));
        }
    }
    assert forall|a: (int, int), b: (int, int)|
        #![trigger label_of(lab2, w, a), label_of(lab2, w, b)]
        map.in_bounds(a) && label_of(lab2, w, a) is Some && adjacent(a, b) && floor_cell(map, b)
            && !q2.contains(tile_at(a)) && a != popped implies label_of(lab2, w, b) == label_of(
            lab2,
            w,
            a,
        ) by {
        assert(a != nb);
        assert(label_of(lab, w, a) is Some);
        assert(map.in_bounds(b));
        assert(label_of(lab, w, b) == label_of(lab, w, a));
    }
    assert forall|l: int| 0 <= l < regions.len() implies (#[trigger] regions[l])@.len() > 0 && cell(
        regions[l]@[0],
    ) == seeds[l] && all_labelled(map, lab2, regions[l]@, l as usize) && no_repeats(regions[l]@) by {
        assert(all_labelled(map, lab, regions[l]@, l as usize));
        assert forall|k: int| 0 <= k < regions[l]@.len() implies map.in_bounds(
            cell(#[trigger] regions[l]@[k]),
        ) && label_of(lab2, w, cell(regions[l]@[k])) == Some(l as usize) by {}
    }
    assert forall|t: (int, int)|
        #![trigger label_of(lab2, w, t)]
        map.in_bounds(t) && label_of(lab2, w, t) is Some && label_of(lab2, w, t).unwrap()
            < regions.len() implies regions[label_of(lab2, w, t).unwrap() as int]@.contains(
            tile_at(t),
        ) by {}
    assert(all_labelled(map, lab2, q2, next)) by {
        assert forall|k: int| 0 <= k < q2.len() implies map.in_bounds(cell(#[trigger] q2[k])) && label_of(
            lab2,
            w,
            cell(q2[k]),
        ) == Some(next) by {
            if k < queue.len() {
                assert(q2[k] == queue[k]);
            }
        }
    }
    assert(all_labelled(map, lab2, region, next)) by {
        assert forall|k: int| 0 <= k < region.len() implies map.in_bounds(cell(#[trigger] region[k]))
            && label_of(lab2, w, cell(region[k])) == Some(next) by {}
    }
    assert(no_repeats(q2)) by {
        assert forall|k1: int, k2: int| 0 <= k1 < k2 < q2.len() implies q2[k1] != q2[k2] by {
            if k2 == queue.len() {
                assert(q2[k1] == queue[k1]);
            } else {
                assert(q2[k1] == queue[k1] && q2[k2] == queue[k2]);
            }
        }
    }
    assert forall|k: int| 0 <= k < region.len() implies !q2.contains(#[trigger] region[k]) by {
        if q2.contains(region[k]) {
            let j = choose|j: int| 0 <= j < q2.len() && q2[j] == region[k];
            if j < queue.len() {
                assert(queue[j] == region[k]);
            } else {
                assert(cell(region[k]) == nb);
            }
        }
    }
    assert forall|t: (int, int)|
        #![trigger label_of(lab2, w, t)]
        map.in_bounds(t) && label_of(lab2, w, t) == Some(next) implies region.contains(tile_at(t))
            || q2.contains(tile_at(t)) by {}
    assert(row_major_lt(here, nb)) by {
        if !row_major_lt(here, nb) && nb != here {
            assert(label_of(lab, w, nb) is Some);
        }
        if nb == here {
            assert(label_of(lab, w, nb) is Some);
        }
    }
    assert forall|t: (int, int)|
        #![trigger label_of(lab2, w, t)]
        map.in_bounds(t) && label_of(lab2, w, t) is Some && (label_of(lab2, w, t).unwrap() as int)
            < seeds.len() implies seeds[label_of(lab2, w, t).unwrap() as int] == t || row_major_lt(
            seeds[label_of(lab2, w, t).unwrap() as int],
            t,
        ) by {
        if t == nb {
            assert(seeds[next as int] == here);
        }
    }
}

/// Once the queue runs dry the region is complete: appending it finishes
/// its label.
proof fn lemma_finish_region(
    map: &LevelMap,
    visited: Seq<bool>,
    lab: Seq<Option<usize>>,
    seeds: Seq<(int, int)>,
    regions: Seq<Vec<(usize, usize)>>,
    region: Vec<(usize, usize)>,
    here: (int, int),
)
    requires
        map.inv(),
        fill_state(map, visited, lab, seeds, regions, Seq::empty(), region@, here),
        closed_except(map, lab, Seq::empty(), (-1, -1)),
    ensures
        scan_state(map, visited, lab, seeds, regions.push(region)),
{
    let w = map.width as int;
    let r2 = regions.push(region);
    assert(region@.len() > 0) by {
        if region@.len() == 0 {
            assert(seq![tile_at(here)].len() == 1);
        }
    }
    assert forall|l: int| 0 <= l < r2.len() implies (#[trigger] r2[l])@.len() > 0 && cell(r2[l]@[0])
        == seeds[l] && all_labelled(map, lab, r2[l]@, l as usize) && no_repeats(r2[l]@) by {
        if l < regions.len() {
            assert(r2[l] == regions[l]);
        }
    }
    assert forall|t: (int, int)|
        #![trigger label_of(lab, w, t)]
        map.in_bounds(t) && label_of(lab, w, t) is Some && label_of(lab, w, t).unwrap() < r2.len()
            implies r2[label_of(lab, w, t).unwrap() as int]@.contains(tile_at(t)) by {
        let l = label_of(lab, w, t).unwrap() as int;
        if l < regions.len() {
            assert(r2[l] == regions[l]);
        } else {
            assert(!Seq::<(usize, usize)>::empty().contains(tile_at(t)));
        }
    }
}

/// With every floor tile labelled, the finished regions are the floor
/// components.
proof fn lemma_regions_complete(
    map: &LevelMap,
    visited: Seq<bool>,
    lab: Seq<Option<usize>>,
    seeds: Seq<(int, int)>,
    regions: Seq<Vec<(usize, usize)>>,
)
    requires
        map.inv(),
        scan_state(map, visited, lab, seeds, regions),
        scanned_to(map, lab, 0, map.height as int),
    ensures
        regions_are_components(map, regions),
        regions_in_scan_order(regions),
{
    let (w, h) = (map.width as int, map.height as int);
    assert forall|k: int, j: int|
        0 <= k < regions.len() && 0 <= j < regions[k]@.len() implies floor_cell(
            map,
            cell(#[trigger] regions[k]@[j]),
        ) && linked(w, h, map.floor_mask(), cell(regions[k]@[0]), cell(regions[k]@[j])) by {
        assert(all_labelled(map, lab, regions[k]@, k as usize));
        assert(label_of(lab, w, cell(regions[k]@[j])) == Some(k as usize));
    }
    assert forall|k1: int, j1: int, k2: int, j2: int|
        0 <= k1 < regions.len() && 0 <= j1 < regions[k1]@.len() && 0 <= k2 < regions.len() && 0 <= j2
            < regions[k2]@.len() && (k1 != k2 || j1 != j2) implies #[trigger] regions[k1]@[j1]
            != #[trigger] regions[k2]@[j2] by {
        assert(all_labelled(map, lab, regions[k1]@, k1 as usize));
        assert(all_labelled(map, lab, regions[k2]@, k2 as usize));
        assert(label_of(lab, w, cell(regions[k1]@[j1])) == Some(k1 as usize));
        assert(label_of(lab, w, cell(regions[k2]@[j2])) == Some(k2 as usize));
        if k1 == k2 {
            assert(no_repeats(regions[k1]@));
        }
    }
    assert forall|t: (int, int)| #[trigger] floor_cell(map, t) implies exists|k: int, j: int|
        0 <= k < regions.len() && 0 <= j < regions[k]@.len() && cell(#[trigger] regions[k]@[j]) == t by {
        assert(label_of(lab, w, t) is Some);
        let l = label_of(lab, w, t).unwrap() as int;
        assert(regions[l]@.contains(tile_at(t)));
        let j = choose|j: int| 0 <= j < regions[l]@.len() && regions[l]@[j] == tile_at(t);
        assert(cell(regions[l]@[j]) == t);
    }
    assert forall|k: int, j: int, b: (int, int)|
        #![trigger regions[k]@[j], floor_cell(map, b)]
        0 <= k < regions.len() && 0 <= j < regions[k]@.len() && floor_cell(map, b) && adjacent(
            cell(regions[k]@[j]),
            b,
        ) implies regions[k]@.contains(tile_at(b)) by {
        let a = cell(regions[k]@[j]);
        assert(all_labelled(map, lab, regions[k]@, k as usize));
        assert(label_of(lab, w, a) == Some(k as usize));
        assert(!Seq::<(usize, usize)>::empty().contains(tile_at(a)));
        assert(label_of(lab, w, b) == label_of(lab, w, a));
    }
    assert forall|k1: int, k2: int| 0 <= k1 < k2 < regions.len() implies row_major_lt(
        cell((#[trigger] regions[k1])@[0]),
        cell((#[trigger] regions[k2])@[0]),
    ) by {
        assert(seeds[k1] == cell(regions[k1]@[0]));
        assert(seeds[k2] == cell(regions[k2]@[0]));
    }
    assert forall|k: int, j: int| 0 <= k < regions.len() && 0 < j < regions[k]@.len() implies row_major_lt(
        cell(regions[k]@[0]),
        cell(#[trigger] regions[k]@[j]),
    ) by {
        let t = cell(regions[k]@[j]);
        assert(all_labelled(map, lab, regions[k]@, k as usize));
        assert(label_of(lab, w, t) == Some(k as usize));
        assert(seeds[k] == cell(regions[k]@[0]));
        assert(no_repeats(regions[k]@));
        assert(regions[k]@[0] != regions[k]@[j]);
    }
}

/// Relabelling one in-bounds cell changes the label of that cell only.
proof fn lemma_relabel(map: &LevelMap, lab: Seq<Option<usize>>, c: (int, int), v: usize)
    requires
        map.inv(),
        lab.len() == map.width * map.height,
        map.in_bounds(c),
    ensures
        forall|t: (int, int)|
            #![trigger label_of(lab.update(cell_index(map.width as int, c), Some(v)), map.width as int, t)]
            map.in_bounds(t) ==> label_of(
                lab.update(cell_index(map.width as int, c), Some(v)),
                map.width as int,
                t,
            ) == if t == c {
                Some(v)
            } else {
                label_of(lab, map.width as int, t)
            },
{
    let (w, h) = (map.width as int, map.height as int);
    lemma_index_in_range(w, h, c);
    assert forall|t: (int, int)| map.in_bounds(t) implies label_of(
        lab.update(cell_index(w, c), Some(v)),
        w,
        t,
    ) == if t == c {
        Some(v)
    } else {
        label_of(lab, w, t)
    } by {
        lemma_index_in_range(w, h, t);
        if cell_index(w, t) == cell_index(w, c) {
            lemma_index_unique(w, h, t, c);
        }
    }
}

} // verus!
