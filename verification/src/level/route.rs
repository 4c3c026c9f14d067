//! Routing out of the spawn's floor component: a 0-1 breadth-first search in
//! which floor costs nothing, a carvable wall costs one, and protected tiles are
//! impassable. It yields the cheapest route tree from the component, stopping
//! at the first tile of another component it reaches.

use std::collections::VecDeque;

use vstd::prelude::*;

use crate::grid::{
    adjacent, cell, cell_index, in_grid, lemma_index_in_range, lemma_index_unique,
    lemma_neighbour_list, neighbour_list, neighbours4,
};

use super::map::{LevelMap, Tile};

verus! {

/// The cell at row-major index `i` of a `w`-wide grid.
pub open spec fn cof(w: usize, i: int) -> (int, int) {
    crate::grid::index_cell(w as int, i)
}

/// Cost of stepping onto tile `i`: one per wall crossed, nothing for floor.
pub open spec fn wall_step(cells: Seq<Tile>, i: int) -> int {
    if cells[i] == Tile::Wall {
        1
    } else {
        0
    }
}

/// Tile `i` carries a label other than `main`.
pub open spec fn is_other(labels: Seq<Option<usize>>, main: usize, i: int) -> bool {
    labels[i] matches Some(l) && l != main
}

/// Every unprotected neighbour of `i` is within one step's cost of `i`.
pub open spec fn relaxed(
    w: usize,
    n: int,
    cells: Seq<Tile>,
    protected: Seq<bool>,
    dist: Seq<u32>,
    i: int,
) -> bool {
    forall|j: int|
        #![trigger adjacent(cof(w, i), cof(w, j))]
        0 <= j < n && adjacent(cof(w, i), cof(w, j)) && !protected[j] ==> dist[j] <= dist[i]
            + wall_step(cells, j)
}

/// `p` is a sound predecessor of `i` in the route tree: adjacent, reached, and
/// strictly earlier by (cost, stamp).
pub open spec fn chain_link(
    w: usize,
    n: int,
    cells: Seq<Tile>,
    protected: Seq<bool>,
    dist: Seq<u32>,
    stamp: Seq<nat>,
    i: int,
    p: int,
) -> bool {
    &&& 0 <= p < n
    &&& dist[i] < u32::MAX
    &&& dist[p] < u32::MAX
    &&& adjacent(cof(w, p), cof(w, i))
    &&& !protected[i]
    &&& (dist[i] > dist[p] + wall_step(cells, i) || (dist[i] == dist[p] + wall_step(cells, i)
        && stamp[p] < stamp[i]))
}

/// Row-major index of a usize cell.
pub open spec fn nb_index(w: usize, t: (usize, usize)) -> int {
    t.1 * w + t.0
}

/// Sum of a sequence of distances.
pub open spec fn sum_u32(s: Seq<u32>) -> int
    decreases s.len(),
{
    if s.len() == 0 {
        0
    } else {
        sum_u32(s.drop_last()) + s.last()
    }
}

proof fn lemma_sum_u32_update(s: Seq<u32>, i: int, v: u32)
    requires
        0 <= i < s.len(),
    ensures
        sum_u32(s.update(i, v)) == sum_u32(s) - s[i] + v,
    decreases s.len(),
{
    let t = s.update(i, v);
    if i < s.len() - 1 {
        assert(t.drop_last() == s.drop_last().update(i, v));
        lemma_sum_u32_update(s.drop_last(), i, v);
    } else {
        assert(t.drop_last() == s.drop_last());
    }
}

proof fn lemma_sum_u32_nonneg(s: Seq<u32>)
    ensures
        sum_u32(s) >= 0,
    decreases s.len(),
{
    if s.len() > 0 {
        lemma_sum_u32_nonneg(s.drop_last());
    }
}

/// In-bounds cells round-trip through their row-major index.
pub proof fn lemma_cell_roundtrip(w: usize, h: usize, t: (int, int))
    requires
        in_grid(w as int, h as int, t),
    ensures
        0 <= cell_index(w as int, t) < w * h,
        cof(w, cell_index(w as int, t)) == t,
{
    lemma_index_in_range(w as int, h as int, t);
    crate::grid::lemma_index_cell(w as int, h as int, cell_index(w as int, t));
    lemma_index_unique(w as int, h as int, t, cof(w, cell_index(w as int, t)));
}

/// A finite set of indices below `n` has at most `n` members.
proof fn lemma_index_set_len(s: Set<int>, n: int)
    requires
        0 <= n,
        forall|r: int| s.contains(r) ==> 0 <= r < n,
    ensures
        s.finite(),
        s.len() <= n,
{
    let full = Set::new(|r: int| 0 <= r < n);
    assert(full =~= vstd::set_lib::set_int_range(0, n));
    vstd::set_lib::lemma_int_range(0, n);
    assert(s.subset_of(full));
    vstd::set_lib::lemma_len_subset(s, full);
}



/// The fixed inputs of a route search.
pub struct RouteCtx {
    pub w: usize,
    pub h: usize,
    pub cells: Seq<Tile>,
    pub protected: Seq<bool>,
    pub labels: Seq<Option<usize>>,
    pub main: usize,
}

impl RouteCtx {
    pub open spec fn n(self) -> int {
        self.w * self.h
    }

    pub open spec fn wf(self) -> bool {
        &&& 0 < self.w
        &&& self.n() < u32::MAX - 2
        &&& self.cells.len() == self.n()
        &&& self.protected.len() == self.n()
        &&& self.labels.len() == self.n()
    }
}

/// The evolving state of a route search: costs, predecessor tree, the deque of
/// tiles to expand, and ghost bookkeeping (each queued entry's cost when it was
/// queued, the order tree edges were made in, the cost level being expanded,
/// and the walls crossed so far).
pub struct RouteState {
    pub dist: Seq<u32>,
    pub came: Seq<Option<usize>>,
    pub dq: Seq<usize>,
    pub keys: Seq<nat>,
    pub stamp: Seq<nat>,
    pub clock: nat,
    pub level: nat,
    pub rw: Set<int>,
}

pub open spec fn lens_ok(c: RouteCtx, s: RouteState) -> bool {
    &&& s.dist.len() == c.n()
    &&& s.came.len() == c.n()
    &&& s.stamp.len() == c.n()
    &&& s.keys.len() == s.dq.len()
}

/// Queue shape: every entry in range and no cheaper than its tile's cost;
/// queued costs sorted and within one level; reached costs bounded by the
/// number of walls crossed.
#[verifier::opaque]
pub open spec fn queue_ok(c: RouteCtx, s: RouteState) -> bool {
    &&& forall|k: int|
        0 <= k < s.dq.len() ==> #[trigger] s.dq[k] < c.n() && s.dist[s.dq[k] as int] <= s.keys[k]
    &&& forall|a: int, b: int| 0 <= a < b < s.keys.len() ==> s.keys[a] <= s.keys[b]
    &&& forall|k: int| 0 <= k < s.keys.len() ==> s.level <= #[trigger] s.keys[k] <= s.level + 1
    &&& forall|j: int|
        0 <= j < c.n() && #[trigger] s.dist[j] < u32::MAX ==> s.dist[j] <= s.level + 1
    &&& s.rw.finite()
    &&& forall|r: int|
        #[trigger] s.rw.contains(r) ==> 0 <= r < c.n() && s.dist[r] <= s.level + 1 && c.cells[r]
            == Tile::Wall
    &&& s.level <= s.rw.len()
    &&& (exists|k: int| 0 <= k < s.keys.len() && s.keys[k] > s.level) ==> s.level + 1 <= s.rw.len()
}

/// The predecessor tree is rooted in the main component and every edge is a
/// sound [`chain_link`].
#[verifier::opaque]
pub open spec fn tree_ok(c: RouteCtx, s: RouteState) -> bool {
    &&& forall|j: int| 0 <= j < c.n() ==> #[trigger] s.stamp[j] < s.clock
    &&& forall|j: int|
        0 <= j < c.n() && #[trigger] c.labels[j] == Some(c.main) ==> s.dist[j] == 0 && s.came[j] is None
    &&& forall|j: int|
        0 <= j < c.n() && #[trigger] s.came[j] is None && s.dist[j] < u32::MAX ==> c.labels[j]
            == Some(c.main)
    &&& forall|j: int|
        0 <= j < c.n() ==> (#[trigger] s.came[j] matches Some(p) ==> chain_link(
            c.w,
            c.n(),
            c.cells,
            c.protected,
            s.dist,
            s.stamp,
            j,
            p as int,
        ))
}

/// Every reached tile (other than `skip`) is queued at its current cost or
/// already fully relaxed.
#[verifier::opaque]
pub open spec fn frontier_ok(c: RouteCtx, s: RouteState, skip: int) -> bool {
    forall|j: int|
        0 <= j < c.n() && #[trigger] s.dist[j] < u32::MAX && j != skip ==> ((exists|k: int|
            0 <= k < s.dq.len() && s.dq[k] == j && s.keys[k] == s.dist[j]) || relaxed(
            c.w,
            c.n(),
            c.cells,
            c.protected,
            s.dist,
            j,
        ))
}

/// Every reached tile (other than `skip`) is still queued at its current cost
/// or was checked not to belong to another component.
#[verifier::opaque]
pub open spec fn checked_ok(c: RouteCtx, s: RouteState, skip: int) -> bool {
    forall|j: int|
        0 <= j < c.n() && #[trigger] s.dist[j] < u32::MAX && j != skip ==> ((exists|k: int|
            0 <= k < s.dq.len() && s.dq[k] == j && s.keys[k] == s.dist[j]) || !is_other(c.labels, c.main, j))
}

/// The state after popping the front of the deque.
pub open spec fn pop_state(s: RouteState) -> RouteState {
    RouteState {
        dist: s.dist,
        came: s.came,
        dq: s.dq.drop_first(),
        keys: s.keys.drop_first(),
        stamp: s.stamp,
        clock: s.clock,
        level: s.keys[0],
        rw: s.rw,
    }
}

/// The state after lowering tile `ni`'s cost to `nd` via `ci`.
pub open spec fn relax_state(s: RouteState, ci: int, ni: int, nd: u32, wall: bool) -> RouteState {
    RouteState {
        dist: s.dist.update(ni, nd),
        came: s.came.update(ni, Some(ci as usize)),
        dq: if wall {
            s.dq.push(ni as usize)
        } else {
            seq![ni as usize] + s.dq
        },
        keys: if wall {
            s.keys.push(nd as nat)
        } else {
            seq![nd as nat] + s.keys
        },
        stamp: s.stamp.update(ni, s.clock),
        clock: s.clock + 1,
        level: s.level,
        rw: if wall {
            s.rw.insert(ni)
        } else {
            s.rw
        },
    }
}

proof fn lemma_pop(c: RouteCtx, s: RouteState)
    requires
        c.wf(),
        lens_ok(c, s),
        queue_ok(c, s),
        tree_ok(c, s),
        frontier_ok(c, s, -1),
        checked_ok(c, s, -1),
        s.dq.len() > 0,
    ensures
        ({
            let s2 = pop_state(s);
            let ci = s.dq[0] as int;
            &&& lens_ok(c, s2)
            &&& queue_ok(c, s2)
            &&& tree_ok(c, s2)
            &&& frontier_ok(c, s2, ci)
            &&& checked_ok(c, s2, ci)
            &&& 0 <= ci < c.n()
            &&& s.dist[ci] <= s2.level
            &&& s2.level <= c.n()
            &&& (s.dist[ci] < s2.level ==> relaxed(c.w, c.n(), c.cells, c.protected, s.dist, ci))
        }),
{
    reveal(queue_ok);
    reveal(tree_ok);
    reveal(frontier_ok);
    reveal(checked_ok);
    let s2 = pop_state(s);
    let ci = s.dq[0] as int;
    let old_level = s.level;
    assert forall|k: int| 0 <= k < s2.dq.len() implies s2.dq[k] == s.dq[k + 1] && s2.keys[k] == s.keys[k + 1] by {}
    assert(s.keys[0] > old_level ==> old_level + 1 <= s.rw.len());
    lemma_index_set_len(s.rw, c.n());
    assert forall|k: int| 0 <= k < s2.keys.len() implies s2.level <= #[trigger] s2.keys[k] <= s2.level + 1 by {
        assert(s.keys[0] <= s.keys[k + 1]);
    }
    if exists|k: int| 0 <= k < s2.keys.len() && s2.keys[k] > s2.level {
        let k = choose|k: int| 0 <= k < s2.keys.len() && s2.keys[k] > s2.level;
        assert(s.keys[k + 1] > old_level);
    }
    assert(queue_ok(c, s2));
    if s.dist[ci] < s2.level {
        // A stale entry: no queued copy carries its cost, so it was already
        // fully relaxed.
        assert forall|k: int| 0 <= k < s.dq.len() && s.dq[k] == ci implies s.keys[k] != s.dist[ci] by {
            assert(s.keys[0] <= s.keys[k]);
        }
    }
    assert forall|j: int|
        0 <= j < c.n() && #[trigger] s2.dist[j] < u32::MAX && j != ci implies ((exists|k: int|
            0 <= k < s2.dq.len() && s2.dq[k] == j && s2.keys[k] == s2.dist[j]) || relaxed(
            c.w,
            c.n(),
            c.cells,
            c.protected,
            s2.dist,
            j,
        )) by {
        if !relaxed(c.w, c.n(), c.cells, c.protected, s.dist, j) {
            let k = choose|k: int| 0 <= k < s.dq.len() && s.dq[k] == j && s.keys[k] == s.dist[j];
            assert(s2.dq[k - 1] == j && s2.keys[k - 1] == s2.dist[j]);
        }
    }
    assert forall|j: int|
        0 <= j < c.n() && #[trigger] s2.dist[j] < u32::MAX && j != ci implies ((exists|k: int|
            0 <= k < s2.dq.len() && s2.dq[k] == j && s2.keys[k] == s2.dist[j]) || !is_other(c.labels, c.main, j)) by {
        if is_other(c.labels, c.main, j) {
            let k = choose|k: int| 0 <= k < s.dq.len() && s.dq[k] == j && s.keys[k] == s.dist[j];
            assert(s2.dq[k - 1] == j && s2.keys[k - 1] == s2.dist[j]);
        }
    }
    assert(frontier_ok(c, s2, ci));
    assert(checked_ok(c, s2, ci));
    assert(tree_ok(c, s2));
}

proof fn lemma_relax(c: RouteCtx, s: RouteState, ci: int, ni: int, nd: u32, wall: bool)
    requires
        c.wf(),
        lens_ok(c, s),
        queue_ok(c, s),
        tree_ok(c, s),
        frontier_ok(c, s, ci),
        checked_ok(c, s, ci),
        0 <= ci < c.n(),
        0 <= ni < c.n(),
        adjacent(cof(c.w, ci), cof(c.w, ni)),
        !c.protected[ni],
        s.dist[ci] <= s.level,
        s.dist[ci] < s.level ==> relaxed(c.w, c.n(), c.cells, c.protected, s.dist, ci),
        wall == (c.cells[ni] == Tile::Wall),
        nd == s.dist[ci] + wall_step(c.cells, ni),
        nd < s.dist[ni],
    ensures
        ({
            let s2 = relax_state(s, ci, ni, nd, wall);
            &&& lens_ok(c, s2)
            &&& queue_ok(c, s2)
            &&& tree_ok(c, s2)
            &&& frontier_ok(c, s2, ci)
            &&& checked_ok(c, s2, ci)
            &&& sum_u32(s2.dist) < sum_u32(s.dist)
            &&& s.dist[ci] == s.level
            &&& ni != ci
            &&& forall|j: int| 0 <= j < c.n() ==> #[trigger] s2.dist[j] <= s.dist[j]
        }),
{
    reveal(queue_ok);
    reveal(tree_ok);
    reveal(frontier_ok);
    reveal(checked_ok);
    let s2 = relax_state(s, ci, ni, nd, wall);
    let n = c.n();
    let d = s.dist[ci];
    assert(ni != ci) by {
        if ni == ci {
            assert(cof(c.w, ni) == cof(c.w, ci));
        }
    }
    if d < s.level {
        assert(s.dist[ni] <= d + wall_step(c.cells, ni));
    }
    assert(d == s.level);
    lemma_sum_u32_update(s.dist, ni, nd);
    let pos = if wall { s2.dq.len() - 1 } else { 0int };
    assert(s2.dq[pos] == ni && s2.keys[pos] == nd);
    // Old queue entries keep their values at shifted positions.
    assert forall|q: int| #![trigger s.dq[q]] 0 <= q < s.dq.len() implies ({
        let q2 = if wall { q } else { q + 1 };
        s2.dq[q2] == s.dq[q] && s2.keys[q2] == s.keys[q]
    }) by {}
    assert forall|q: int| #![trigger s2.dq[q]] 0 <= q < s2.dq.len() && q != pos implies ({
        let q0 = if wall { q } else { q - 1 };
        0 <= q0 < s.dq.len() && s2.dq[q] == s.dq[q0] && s2.keys[q] == s.keys[q0]
    }) by {}
    // Queue shape.
    assert forall|k: int| 0 <= k < s2.dq.len() implies #[trigger] s2.dq[k] < n && s2.dist[s2.dq[k] as int] <= s2.keys[k] by {
        if k != pos {
            let q0 = if wall { k } else { k - 1 };
            assert(s.dist[s.dq[q0] as int] <= s.keys[q0]);
        }
    }
    assert forall|a: int, b: int| 0 <= a < b < s2.keys.len() implies s2.keys[a] <= s2.keys[b] by {
        if wall {
            if b < s2.keys.len() - 1 {
                assert(s2.keys[a] == s.keys[a] && s2.keys[b] == s.keys[b]);
            } else {
                assert(s2.keys[a] == s.keys[a]);
            }
        } else {
            if a > 0 {
                assert(s2.keys[a] == s.keys[a - 1] && s2.keys[b] == s.keys[b - 1]);
            } else {
                assert(s2.keys[b] == s.keys[b - 1]);
            }
        }
    }
    assert forall|k: int| 0 <= k < s2.keys.len() implies s2.level <= #[trigger] s2.keys[k] <= s2.level + 1 by {
        if k != pos {
            let q0 = if wall { k } else { k - 1 };
            assert(s2.keys[k] == s.keys[q0]);
        }
    }
    if wall {
        assert(!s.rw.contains(ni));
        assert(s2.rw.len() == s.rw.len() + 1);
    } else {
        if exists|k: int| 0 <= k < s2.keys.len() && s2.keys[k] > s2.level {
            let k = choose|k: int| 0 <= k < s2.keys.len() && s2.keys[k] > s2.level;
            assert(k != 0);
            assert(s.keys[k - 1] > s.level);
        }
    }
    assert(queue_ok(c, s2));
    // Tree.
    assert forall|j: int|
        0 <= j < n implies (#[trigger] s2.came[j] matches Some(p) ==> chain_link(
            c.w,
            n,
            c.cells,
            c.protected,
            s2.dist,
            s2.stamp,
            j,
            p as int,
        )) by {
        if j != ni {
            if let Some(p) = s2.came[j] {
                assert(s.came[j] == Some(p));
                assert(chain_link(c.w, n, c.cells, c.protected, s.dist, s.stamp, j, p as int));
            }
        }
    }
    assert(tree_ok(c, s2));
    // Frontier and checks, everywhere but `ci`.
    assert forall|j: int|
        0 <= j < n && #[trigger] s2.dist[j] < u32::MAX && j != ci implies ((exists|k: int|
            0 <= k < s2.dq.len() && s2.dq[k] == j && s2.keys[k] == s2.dist[j]) || relaxed(
            c.w,
            n,
            c.cells,
            c.protected,
            s2.dist,
            j,
        )) by {
        if j == ni {
            assert(s2.dq[pos] == j && s2.keys[pos] == s2.dist[j]);
        } else if relaxed(c.w, n, c.cells, c.protected, s.dist, j) {
            assert forall|jj: int|
                #![trigger adjacent(cof(c.w, j), cof(c.w, jj))]
                0 <= jj < n && adjacent(cof(c.w, j), cof(c.w, jj)) && !c.protected[jj] implies s2.dist[jj]
                    <= s2.dist[j] + wall_step(c.cells, jj) by {
                assert(s.dist[jj] <= s.dist[j] + wall_step(c.cells, jj));
            }
        } else {
            let q = choose|q: int| 0 <= q < s.dq.len() && s.dq[q] == j && s.keys[q] == s.dist[j];
            let q2 = if wall { q } else { q + 1 };
            assert(s2.dq[q2] == j && s2.keys[q2] == s2.dist[j]);
        }
    }
    assert forall|j: int|
        0 <= j < n && #[trigger] s2.dist[j] < u32::MAX && j != ci implies ((exists|k: int|
            0 <= k < s2.dq.len() && s2.dq[k] == j && s2.keys[k] == s2.dist[j]) || !is_other(c.labels, c.main, j)) by {
        if j == ni {
            assert(s2.dq[pos] == j && s2.keys[pos] == s2.dist[j]);
        } else if is_other(c.labels, c.main, j) {
            let q = choose|q: int| 0 <= q < s.dq.len() && s.dq[q] == j && s.keys[q] == s.dist[j];
            let q2 = if wall { q } else { q + 1 };
            assert(s2.dq[q2] == j && s2.keys[q2] == s2.dist[j]);
        }
    }
    assert(frontier_ok(c, s2, ci));
    assert(checked_ok(c, s2, ci));
}

proof fn lemma_finish(c: RouteCtx, s: RouteState, ci: int)
    requires
        frontier_ok(c, s, ci),
        checked_ok(c, s, ci),
        relaxed(c.w, c.n(), c.cells, c.protected, s.dist, ci),
        !is_other(c.labels, c.main, ci),
    ensures
        frontier_ok(c, s, -1),
        checked_ok(c, s, -1),
{
    reveal(frontier_ok);
    reveal(checked_ok);
}

/// The number of walls among the tiles `q` lists.
pub open spec fn walls_in(cells: Seq<Tile>, q: Seq<int>) -> int
    decreases q.len(),
{
    if q.len() == 0 {
        0
    } else {
        walls_in(cells, q.drop_last()) + wall_step(cells, q.last())
    }
}

/// Putting a tile in front adds its wall to the count.
pub proof fn lemma_walls_prepend(cells: Seq<Tile>, x: int, q: Seq<int>)
    ensures
        walls_in(cells, seq![x] + q) == wall_step(cells, x) + walls_in(cells, q),
    decreases q.len(),
{
    let p = seq![x] + q;
    if q.len() > 0 {
        lemma_walls_prepend(cells, x, q.drop_last());
        assert(p.drop_last() =~= seq![x] + q.drop_last());
        assert(p.last() == q.last());
    } else {
        assert(p.drop_last() =~= Seq::<int>::empty());
        assert(p.last() == x);
        assert(walls_in(cells, Seq::<int>::empty()) == 0);
        assert(q =~= Seq::<int>::empty());
    }
}

/// `q` (row-major indices) is a walk out of the main component: it starts on
/// a main tile, crosses only unprotected tiles after that, and ends on a tile
/// of another component.
pub open spec fn escape_walk(c: RouteCtx, q: Seq<int>) -> bool {
    &&& q.len() >= 1
    &&& forall|i: int| 0 <= i < q.len() ==> 0 <= #[trigger] q[i] < c.n()
    &&& forall|i: int| 0 <= i < q.len() - 1 ==> adjacent(cof(c.w, #[trigger] q[i]), cof(c.w, q[i + 1]))
    &&& forall|i: int| 1 <= i < q.len() ==> !c.protected[#[trigger] q[i]]
    &&& c.labels[q[0]] == Some(c.main)
    &&& is_other(c.labels, c.main, q.last())
}

/// Along an escape walk, while its walls so far stay below the cost `g` of
/// the front of the queue, every tile is reached at no more than that count.
proof fn lemma_prefix_bound(c: RouteCtx, s: RouteState, q: Seq<int>, i: int)
    requires
        c.wf(),
        lens_ok(c, s),
        queue_ok(c, s),
        tree_ok(c, s),
        frontier_ok(c, s, -1),
        s.dq.len() > 0,
        escape_walk(c, q),
        0 <= i < q.len(),
    ensures
        walls_in(c.cells, q.subrange(1, i + 1)) >= s.keys[0] || s.dist[q[i]] <= walls_in(
            c.cells,
            q.subrange(1, i + 1),
        ),
    decreases i,
{
    if i == 0 {
        assert(q.subrange(1, 1) =~= Seq::<int>::empty());
        assert(s.dist[q[0]] == 0) by {
            reveal(tree_ok);
        }
    } else {
        lemma_prefix_bound(c, s, q, i - 1);
        let pre = q.subrange(1, i);
        let cur = q.subrange(1, i + 1);
        assert(cur.drop_last() =~= pre);
        assert(cur.last() == q[i]);
        let a = q[i - 1];
        let b = q[i];
        if walls_in(c.cells, pre) < s.keys[0] {
            assert(s.keys[0] < u32::MAX) by {
                reveal(queue_ok);
                lemma_index_set_len(s.rw, c.n());
            }
            assert(s.dist[a] < u32::MAX);
            assert(relaxed(c.w, c.n(), c.cells, c.protected, s.dist, a)) by {
                reveal(frontier_ok);
                reveal(queue_ok);
                if !relaxed(c.w, c.n(), c.cells, c.protected, s.dist, a) {
                    let k = choose|k: int| 0 <= k < s.dq.len() && s.dq[k] == a && s.keys[k] == s.dist[a];
                    if k > 0 {
                        assert(s.keys[0] <= s.keys[k]);
                    }
                }
            }
            assert(adjacent(cof(c.w, a), cof(c.w, b)));
            assert(!c.protected[b]);
            assert(s.dist[b] <= s.dist[a] + wall_step(c.cells, b));
        }
    }
}

/// When the front of the queue is a tile of another component, no escape walk
/// crosses fewer walls than that tile's cost.
proof fn lemma_lower_bound(c: RouteCtx, s: RouteState)
    requires
        c.wf(),
        lens_ok(c, s),
        queue_ok(c, s),
        tree_ok(c, s),
        frontier_ok(c, s, -1),
        checked_ok(c, s, -1),
        s.dq.len() > 0,
    ensures
        forall|q: Seq<int>|
            #[trigger] escape_walk(c, q) ==> walls_in(c.cells, q.drop_first()) >= s.dist[s.dq[0] as int],
{
    reveal(queue_ok);
    reveal(checked_ok);
    assert(s.dist[s.dq[0] as int] <= s.keys[0]);
    lemma_index_set_len(s.rw, c.n());
    assert(s.keys[0] < u32::MAX);
    assert forall|q: Seq<int>| #[trigger] escape_walk(c, q) implies walls_in(c.cells, q.drop_first()) >= s.dist[
        s.dq[0] as int] by {
        let n = q.len() - 1;
        lemma_prefix_bound(c, s, q, n);
        assert(q.subrange(1, n + 1) =~= q.drop_first());
        let u = q[n];
        if walls_in(c.cells, q.drop_first()) < s.keys[0] {
            assert(s.dist[u] < u32::MAX);
            if exists|k: int| 0 <= k < s.dq.len() && s.dq[k] == u && s.keys[k] == s.dist[u] {
                let k = choose|k: int| 0 <= k < s.dq.len() && s.dq[k] == u && s.keys[k] == s.dist[u];
                if k > 0 {
                    assert(s.keys[0] <= s.keys[k]);
                }
            }
            assert(!is_other(c.labels, c.main, u));
        }
    }
}

/// The result a route search hands back: tree and costs over the final state,
/// with the found tile, or closure facts when nothing was found.
pub open spec fn route_result(
    c: RouteCtx,
    target: Option<usize>,
    came: Seq<Option<usize>>,
    dist: Seq<u32>,
    stamp: Seq<nat>,
) -> bool {
    let n = c.n();
    &&& came.len() == n
    &&& dist.len() == n
    &&& stamp.len() == n
    &&& forall|i: int|
        0 <= i < n && #[trigger] c.labels[i] == Some(c.main) ==> dist[i] == 0 && came[i] is None
    &&& forall|i: int|
        0 <= i < n && #[trigger] came[i] is None && dist[i] < u32::MAX ==> c.labels[i] == Some(c.main)
    &&& forall|i: int|
        0 <= i < n ==> (#[trigger] came[i] matches Some(p) ==> chain_link(
            c.w,
            n,
            c.cells,
            c.protected,
            dist,
            stamp,
            i,
            p as int,
        ))
    &&& target matches Some(t) ==> t < n && is_other(c.labels, c.main, t as int) && dist[t as int]
        < u32::MAX && forall|q: Seq<int>|
        #[trigger] escape_walk(c, q) ==> walls_in(c.cells, q.drop_first()) >= dist[t as int]
    &&& target is None ==> forall|i: int|
        0 <= i < n && #[trigger] dist[i] < u32::MAX ==> !is_other(c.labels, c.main, i) && relaxed(
            c.w,
            n,
            c.cells,
            c.protected,
            dist,
            i,
        ) && dist[i] + 1 < u32::MAX
}

/// The search context for a map, protection mask and labelling.
pub open spec fn ctx_of(
    map: &LevelMap,
    protected: Seq<bool>,
    labels: Seq<Option<usize>>,
    main: usize,
) -> RouteCtx {
    RouteCtx {
        w: map.width,
        h: map.height,
        cells: map.cells(),
        protected,
        labels,
        main,
    }
}

/// 0-1 breadth-first search out of the `main` component: floor costs nothing,
/// a carvable wall costs one, protected tiles are impassable. Stops at the first
/// tile of another component it reaches. Returns that tile (if any), the
/// predecessor tree, the costs, and a ghost stamp ordering each tree edge.
pub fn route_out(
    map: &LevelMap,
    protected: &[bool],
    labels: &Vec<Option<usize>>,
    main: usize,
) -> (res: (Option<usize>, Vec<Option<usize>>, Vec<u32>, Ghost<Seq<nat>>))
    requires
        map.inv(),
        0 < map.width,
        map.width * map.height < u32::MAX - 2,
        protected@.len() == map.width * map.height,
        labels@.len() == map.width * map.height,
    ensures
        route_result(ctx_of(map, protected@, labels@, main), res.0, res.1@, res.2@, res.3@),
{
    let (w, h) = (map.width, map.height);
    let n = w * h;
    let ghost c = ctx_of(map, protected@, labels@, main);
    let mut dist: Vec<u32> = super::map::vec_filled(u32::MAX, n);
    let mut came: Vec<Option<usize>> = super::map::vec_filled(None, n);
    let mut dq: VecDeque<usize> = VecDeque::new();
    let ghost mut keys: Seq<nat> = Seq::empty();
    let ghost mut stamp: Seq<nat> = Seq::new(n as nat, |i: int| 0nat);
    let ghost mut clock: nat = 1;
    let ghost mut level: nat = 0;
    let ghost mut rw: Set<int> = Set::empty();

    let mut i: usize = 0;
    while i < n
        invariant
            n == w * h,
            labels@.len() == n,
            dist@.len() == n,
            came@.len() == n,
            0 <= i <= n,
            keys.len() == dq@.len(),
            forall|k: int| 0 <= k < keys.len() ==> keys[k] == 0,
            forall|k: int|
                0 <= k < dq@.len() ==> #[trigger] dq@[k] < i && labels@[dq@[k] as int] == Some(main),
            forall|j: int| 0 <= j < n ==> came@[j] is None,
            forall|j: int| 0 <= j < n ==> (#[trigger] dist@[j] == 0 <==> (j < i && labels@[j] == Some(main))),
            forall|j: int| 0 <= j < n ==> (dist@[j] == 0 || dist@[j] == u32::MAX),
            forall|j: int|
                0 <= j < i && labels@[j] == Some(main) ==> exists|k: int| 0 <= k < dq@.len() && dq@[k] == j,
        decreases n - i,
    {
        if labels[i] == Some(main) {
            let ghost old_dq = dq@;
            dist.set(i, 0);
            dq.push_back(i);
            proof {
                keys = keys.push(0);
                assert(dq@[dq@.len() - 1] == i);
                assert forall|j: int| 0 <= j < i && labels@[j] == Some(main) implies exists|k: int|
                    0 <= k < dq@.len() && dq@[k] == j by {
                    let k = choose|k: int| 0 <= k < old_dq.len() && old_dq[k] == j;
                    assert(dq@[k] == j);
                }
            }
        }
        i = i + 1;
    }

    let mut target: Option<usize> = None;
    proof {
        reveal(queue_ok);
        reveal(tree_ok);
        reveal(frontier_ok);
        reveal(checked_ok);
        let s = RouteState { dist: dist@, came: came@, dq: dq@, keys, stamp, clock, level, rw };
        assert(c.n() == n);
        assert forall|j: int|
            0 <= j < c.n() && #[trigger] s.dist[j] < u32::MAX && j != -1 implies ((exists|k: int|
                0 <= k < s.dq.len() && s.dq[k] == j && s.keys[k] == s.dist[j]) || relaxed(
                c.w,
                c.n(),
                c.cells,
                c.protected,
                s.dist,
                j,
            )) by {
            assert(dist@[j] == 0);
            let k = choose|k: int| 0 <= k < dq@.len() && dq@[k] == j;
            assert(keys[k] == 0);
            assert(s.dq[k] == j && s.keys[k] == s.dist[j]);
        }
        assert(frontier_ok(c, s, -1));
        assert(checked_ok(c, s, -1));
        assert(queue_ok(c, s));
        assert(tree_ok(c, s));
        lemma_sum_u32_nonneg(dist@);
    }
    while target.is_none() && dq.len() > 0
        invariant
            map.inv(),
            w == map.width,
            h == map.height,
            n == w * h,
            c == ctx_of(map, protected@, labels@, main),
            c.wf(),
            lens_ok(c, RouteState { dist: dist@, came: came@, dq: dq@, keys, stamp, clock, level, rw }),
            queue_ok(c, RouteState { dist: dist@, came: came@, dq: dq@, keys, stamp, clock, level, rw }),
            tree_ok(c, RouteState { dist: dist@, came: came@, dq: dq@, keys, stamp, clock, level, rw }),
            target matches Some(t) ==> t < n && is_other(labels@, main, t as int) && dist@[t as int]
                < u32::MAX && forall|q: Seq<int>|
                #[trigger] escape_walk(c, q) ==> walls_in(c.cells, q.drop_first()) >= dist@[t as int],
            target is None ==> frontier_ok(
                c,
                RouteState { dist: dist@, came: came@, dq: dq@, keys, stamp, clock, level, rw },
                -1,
            ),
            target is None ==> checked_ok(
                c,
                RouteState { dist: dist@, came: came@, dq: dq@, keys, stamp, clock, level, rw },
                -1,
            ),
        decreases 2 * sum_u32(dist@) + dq@.len(),
    {
        proof {
            lemma_sum_u32_nonneg(dist@);
        }
        let ghost s0 = RouteState { dist: dist@, came: came@, dq: dq@, keys, stamp, clock, level, rw };
        let ghost measure0 = 2 * sum_u32(dist@) + dq@.len();
        proof {
            lemma_pop(c, s0);
            lemma_lower_bound(c, s0);
        }
        let ci = dq.pop_front().unwrap();
        proof {
            keys = s0.keys.drop_first();
            level = s0.keys[0];
            assert(dq@ =~= s0.dq.drop_first());
            assert(w > 0);
        }
        let ghost m1 = 2 * sum_u32(dist@) + dq@.len();
        // First floor tile reached that belongs to another component wins.
        let is_other_here = match labels[ci] {
            Some(l) => l != main,
            None => false,
        };
        if is_other_here {
            target = Some(ci);
        } else {
            let (cx, cy) = (ci % w, ci / w);
            let d = dist[ci];
            proof {
                crate::grid::lemma_index_cell(w as int, h as int, ci as int);
            }
            let nbrs = neighbours4(cx, cy, w, h);
            proof {
                lemma_neighbour_list(cx, cy, w, h);
            }
            let mut k: usize = 0;
            while k < nbrs.len()
                invariant
                    map.inv(),
                    w == map.width,
                    h == map.height,
                    n == w * h,
                    c == ctx_of(map, protected@, labels@, main),
                    c.wf(),
                    lens_ok(c, RouteState { dist: dist@, came: came@, dq: dq@, keys, stamp, clock, level, rw }),
                    queue_ok(c, RouteState { dist: dist@, came: came@, dq: dq@, keys, stamp, clock, level, rw }),
                    tree_ok(c, RouteState { dist: dist@, came: came@, dq: dq@, keys, stamp, clock, level, rw }),
                    frontier_ok(
                        c,
                        RouteState { dist: dist@, came: came@, dq: dq@, keys, stamp, clock, level, rw },
                        ci as int,
                    ),
                    checked_ok(
                        c,
                        RouteState { dist: dist@, came: came@, dq: dq@, keys, stamp, clock, level, rw },
                        ci as int,
                    ),
                    target is None,
                    ci < n,
                    (cx as int, cy as int) == cof(w, ci as int),
                    in_grid(w as int, h as int, cof(w, ci as int)),
                    nbrs@ == neighbour_list(cx, cy, w, h),
                    0 <= k <= nbrs@.len(),
                    d == dist@[ci as int],
                    d <= level,
                    level <= n,
                    !is_other(labels@, main, ci as int),
                    d < level ==> relaxed(w, n as int, c.cells, protected@, dist@, ci as int),
                    forall|kk: int|
                        0 <= kk < k && !protected@[nb_index(w, #[trigger] nbrs@[kk])] ==> dist@[nb_index(w, nbrs@[kk])]
                            <= d + wall_step(c.cells, nb_index(w, nbrs@[kk])),
                    2 * sum_u32(dist@) + dq@.len() <= m1,
                decreases nbrs@.len() - k,
            {
                let (nx, ny) = nbrs[k];
                let ghost nb = (nx as int, ny as int);
                proof {
                    lemma_cell_roundtrip(w, h, nb);
                    assert(adjacent(cof(w, ci as int), nb));
                }
                let ni = ny * w + nx;
                if !protected[ni] {
                    let step: u32 = if map.get(nx, ny) == Tile::Wall {
                        1
                    } else {
                        0
                    };
                    assert(step == wall_step(c.cells, ni as int));
                    let nd = d + step;
                    if nd < dist[ni] {
                        let ghost s1 = RouteState { dist: dist@, came: came@, dq: dq@, keys, stamp, clock, level, rw };
                        proof {
                            lemma_relax(c, s1, ci as int, ni as int, nd, step == 1);
                            lemma_sum_u32_nonneg(dist@.update(ni as int, nd));
                        }
                        let ghost s2 = relax_state(s1, ci as int, ni as int, nd, step == 1);
                        dist.set(ni, nd);
                        came.set(ni, Some(ci));
                        if step == 0 {
                            dq.push_front(ni);
                        } else {
                            dq.push_back(ni);
                        }
                        proof {
                            keys = s2.keys;
                            stamp = s2.stamp;
                            clock = s2.clock;
                            rw = s2.rw;
                            assert(dq@ =~= s2.dq);
                            assert(RouteState { dist: dist@, came: came@, dq: dq@, keys, stamp, clock, level, rw } == s2);
                            assert forall|kk: int|
                                0 <= kk < k + 1 && !protected@[nb_index(w, #[trigger] nbrs@[kk])] implies dist@[nb_index(w, nbrs@[kk])]
                                    <= d + wall_step(c.cells, nb_index(w, nbrs@[kk])) by {
                                let ni2 = nb_index(w, nbrs@[kk]);
                                if kk < k {
                                    lemma_cell_roundtrip(w, h, cell(nbrs@[kk]));
                                    assert(0 <= ni2 < c.n());
                                    assert(s1.dist[ni2] <= d + wall_step(c.cells, ni2));
                                    assert(s2.dist[ni2] <= s1.dist[ni2]);
                                } else {
                                    assert(ni2 == ni);
                                }
                            }
                        }
                    }
                }
                k = k + 1;
            }
            proof {
                let s3 = RouteState { dist: dist@, came: came@, dq: dq@, keys, stamp, clock, level, rw };
                assert forall|j: int|
                    #![trigger adjacent(cof(w, ci as int), cof(w, j))]
                    0 <= j < n && adjacent(cof(w, ci as int), cof(w, j)) && !protected@[j] implies dist@[j]
                        <= dist@[ci as int] + wall_step(c.cells, j) by {
                    if d == level {
                        crate::grid::lemma_index_cell(w as int, h as int, j);
                        let kk = choose|kk: int|
                            0 <= kk < nbrs@.len() && cell(#[trigger] nbrs@[kk]) == cof(w, j);
                        assert(nb_index(w, nbrs@[kk]) == j);
                    }
                }
                assert(relaxed(w, n as int, c.cells, protected@, dist@, ci as int));
                lemma_finish(c, s3, ci as int);
            }
        }
        proof {
            lemma_sum_u32_nonneg(dist@);
        }
    }
    proof {
        let s = RouteState { dist: dist@, came: came@, dq: dq@, keys, stamp, clock, level, rw };
        reveal(queue_ok);
        reveal(tree_ok);
        reveal(frontier_ok);
        reveal(checked_ok);
        if target is None {
            lemma_index_set_len(rw, n as int);
        }
    }
    (target, came, dist, Ghost(stamp))
}

} // verus!
