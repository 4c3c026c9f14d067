//! Grid pathfinding for guards: shortest routes, local search patterns and
//! random goals over the walkable tiles of a [`LevelMap`].

use std::collections::VecDeque;

use vstd::prelude::*;

use crate::grid::{
    adjacent, cell, cell_index, in_grid, index_cell, is_walk, lemma_index_cell, lemma_index_in_range,
    lemma_index_unique, lemma_neighbour_list, linked, neighbour_list, passable,
};
use crate::level::map::{LevelMap, Tile};
use crate::rng::gen_index;
use rand::rngs::SmallRng;
use crate::level::route::lemma_cell_roundtrip;
use crate::level::map::vec_filled;
use crate::grid::{closed_under_steps, lemma_closed_contains_linked, lemma_linked_ends, lemma_linked_refl, lemma_linked_step};
use crate::level::rooms::listed;

verus! {

/// The in-bounds 4-neighbours of `(x, y)` in a `w`×`h` grid: left, right, up,
/// down, skipping any that fall off the edge.
pub fn neighbours(x: usize, y: usize, w: usize, h: usize) -> (out: Vec<(usize, usize)>)
    ensures
        out@ == neighbour_list(x, y, w, h),
{
    let mut out: Vec<(usize, usize)> = Vec::with_capacity(4);
    if x > 0 {
        out.push((x - 1, y));
    }
    if x < usize::MAX && x + 1 < w {
        out.push((x + 1, y));
    }
    if y > 0 {
        out.push((x, y - 1));
    }
    if y < usize::MAX && y + 1 < h {
        out.push((x, y + 1));
    }
    out
}

/// The tiles a guard may step through from `start`: every floor tile, and the
/// start tile itself.
pub open spec fn walk_mask(map: &LevelMap, start: (int, int)) -> Seq<bool> {
    Seq::new(
        map.cells().len(),
        |i: int| map.cells()[i] == Tile::Floor || i == cell_index(map.width as int, start),
    )
}

/// `p` is a walk from `start` to `goal` over the walk mask.
pub open spec fn walk_between(map: &LevelMap, p: Seq<(int, int)>, start: (int, int), goal: (int, int)) -> bool {
    &&& is_walk(map.width as int, map.height as int, walk_mask(map, start), p)
    &&& p[0] == start
    &&& p.last() == goal
}

/// The fixed inputs of a path search.
pub struct BfsCtx {
    pub w: usize,
    pub h: usize,
    pub mask: Seq<bool>,
    pub s: int,
}

impl BfsCtx {
    pub open spec fn n(self) -> int {
        self.w * self.h
    }
}

/// The evolving state of a path search: visited flags, predecessor links,
/// ghost step counts, the queue and the step count being expanded.
pub struct BfsState {
    pub visited: Seq<bool>,
    pub came: Seq<Option<(usize, usize)>>,
    pub d: Seq<int>,
    pub q: Seq<(usize, usize)>,
    pub level: int,
}

/// Row-major index of queue entry `k`.
pub open spec fn qi(c: BfsCtx, st: BfsState, k: int) -> int {
    cell_index(c.w as int, cell(st.q[k]))
}

/// Every in-mask neighbour of `i` is visited within one step of it.
pub open spec fn bfs_relaxed(c: BfsCtx, st: BfsState, i: int) -> bool {
    forall|j: int|
        #![trigger adjacent(index_cell(c.w as int, i), index_cell(c.w as int, j))]
        0 <= j < c.n() && adjacent(index_cell(c.w as int, i), index_cell(c.w as int, j)) && c.mask[j]
            ==> st.visited[j] && st.d[j] <= st.d[i] + 1
}

/// Lengths agree with the grid.
pub open spec fn bfs_lens(c: BfsCtx, st: BfsState) -> bool {
    &&& 0 < c.w
    &&& c.n() == c.mask.len()
    &&& st.visited.len() == c.n()
    &&& st.came.len() == c.n()
    &&& st.d.len() == c.n()
    &&& 0 <= c.s < c.n()
}

/// Queue entries are visited grid cells, queued in nondecreasing step count,
/// all at the current level or the next.
#[verifier::opaque]
pub open spec fn bfs_queue(c: BfsCtx, st: BfsState) -> bool {
    &&& forall|k: int|
        0 <= k < st.q.len() ==> in_grid(c.w as int, c.h as int, cell(#[trigger] st.q[k]))
            && st.visited[qi(c, st, k)]
    &&& forall|a: int, b: int|
        0 <= a < b < st.q.len() ==> st.d[qi(c, st, a)] <= st.d[qi(c, st, b)]
    &&& forall|k: int|
        0 <= k < st.q.len() ==> st.level <= st.d[#[trigger] qi(c, st, k)] <= st.level + 1
}

/// Cell `i` links back to a visited, adjacent cell one step nearer the start.
pub open spec fn tree_link(c: BfsCtx, st: BfsState, i: int) -> bool {
    &&& st.came[i] is Some
    &&& in_grid(c.w as int, c.h as int, cell(st.came[i].unwrap()))
    &&& st.visited[cell_index(c.w as int, cell(st.came[i].unwrap()))]
    &&& adjacent(cell(st.came[i].unwrap()), index_cell(c.w as int, i))
    &&& st.d[i] == st.d[cell_index(c.w as int, cell(st.came[i].unwrap()))] + 1
}

/// The predecessor links form a tree rooted at the start, each link one step
/// between adjacent in-mask cells.
#[verifier::opaque]
pub open spec fn bfs_tree(c: BfsCtx, st: BfsState) -> bool {
    &&& st.visited[c.s]
    &&& st.d[c.s] == 0
    &&& st.came[c.s] is None
    &&& forall|i: int|
        0 <= i < c.n() && #[trigger] st.visited[i] ==> c.mask[i] && 0 <= st.d[i] <= st.level + 1
    &&& forall|i: int|
        0 <= i < c.n() && #[trigger] st.visited[i] && i != c.s ==> tree_link(c, st, i)
}

/// Every visited cell other than `skip` is still queued or already relaxed.
#[verifier::opaque]
pub open spec fn bfs_frontier(c: BfsCtx, st: BfsState, skip: int) -> bool {
    forall|i: int|
        0 <= i < c.n() && #[trigger] st.visited[i] && i != skip ==> (exists|k: int|
            0 <= k < st.q.len() && qi(c, st, k) == i) || bfs_relaxed(c, st, i)
}

/// The state after popping the queue's front.
pub open spec fn bfs_pop(c: BfsCtx, st: BfsState) -> BfsState {
    BfsState {
        visited: st.visited,
        came: st.came,
        d: st.d,
        q: st.q.drop_first(),
        level: st.d[qi(c, st, 0)],
    }
}

/// The state after discovering cell `j` from the popped cell `p`.
pub open spec fn bfs_visit(c: BfsCtx, st: BfsState, p: (usize, usize), j: int) -> BfsState {
    BfsState {
        visited: st.visited.update(j, true),
        came: st.came.update(j, Some(p)),
        d: st.d.update(j, st.d[cell_index(c.w as int, cell(p))] + 1),
        q: st.q.push((index_cell(c.w as int, j).0 as usize, index_cell(c.w as int, j).1 as usize)),
        level: st.level,
    }
}

proof fn lemma_bfs_pop(c: BfsCtx, st: BfsState)
    requires
        bfs_lens(c, st),
        bfs_queue(c, st),
        bfs_tree(c, st),
        bfs_frontier(c, st, -1),
        st.q.len() > 0,
    ensures
        ({
            let st2 = bfs_pop(c, st);
            let ci = qi(c, st, 0);
            &&& bfs_lens(c, st2)
            &&& bfs_queue(c, st2)
            &&& bfs_tree(c, st2)
            &&& bfs_frontier(c, st2, ci)
            &&& 0 <= ci < c.n()
            &&& in_grid(c.w as int, c.h as int, cell(st.q[0]))
            &&& st.visited[ci]
            &&& st2.d[ci] == st2.level
            &&& st.level <= st2.level
        }),
{
    reveal(bfs_queue);
    reveal(bfs_tree);
    reveal(bfs_frontier);
    let st2 = bfs_pop(c, st);
    let ci = qi(c, st, 0);
    assert(in_grid(c.w as int, c.h as int, cell(st.q[0])));
    lemma_index_in_range(c.w as int, c.h as int, cell(st.q[0]));
    assert forall|k: int| 0 <= k < st2.q.len() implies #[trigger] st2.q[k] == st.q[k + 1] && qi(c, st2, k) == qi(c, st, k + 1) by {}
    assert forall|k: int| 0 <= k < st2.q.len() implies st2.level <= st2.d[#[trigger] qi(c, st2, k)] <= st2.level + 1 by {
        assert(qi(c, st2, k) == qi(c, st, k + 1));
        assert(st.d[qi(c, st, 0)] <= st.d[qi(c, st, k + 1)]);
        assert(st.level <= st.d[qi(c, st, k + 1)] <= st.level + 1);
    }
    assert forall|a: int, b: int| 0 <= a < b < st2.q.len() implies st2.d[qi(c, st2, a)] <= st2.d[qi(c, st2, b)] by {
        assert(qi(c, st2, a) == qi(c, st, a + 1));
        assert(qi(c, st2, b) == qi(c, st, b + 1));
    }
    assert forall|k: int| 0 <= k < st2.q.len() implies in_grid(c.w as int, c.h as int, cell(#[trigger] st2.q[k]))
        && st2.visited[qi(c, st2, k)] by {
        assert(st2.q[k] == st.q[k + 1]);
        assert(qi(c, st2, k) == qi(c, st, k + 1));
    }
    assert(bfs_queue(c, st2));
    assert forall|i: int|
        0 <= i < c.n() && #[trigger] st2.visited[i] && i != ci implies (exists|k: int|
            0 <= k < st2.q.len() && qi(c, st2, k) == i) || bfs_relaxed(c, st2, i) by {
        if !bfs_relaxed(c, st, i) {
            let k = choose|k: int| 0 <= k < st.q.len() && qi(c, st, k) == i;
            assert(k != 0);
            assert(qi(c, st2, k - 1) == i);
        }
    }
    assert(bfs_frontier(c, st2, ci));
    assert(bfs_tree(c, st2));
}

proof fn lemma_bfs_visit(c: BfsCtx, st: BfsState, p: (usize, usize), j: int)
    requires
        bfs_lens(c, st),
        bfs_queue(c, st),
        bfs_tree(c, st),
        bfs_frontier(c, st, cell_index(c.w as int, cell(p))),
        in_grid(c.w as int, c.h as int, cell(p)),
        st.visited[cell_index(c.w as int, cell(p))],
        st.d[cell_index(c.w as int, cell(p))] == st.level,
        0 <= j < c.n(),
        !st.visited[j],
        c.mask[j],
        adjacent(cell(p), index_cell(c.w as int, j)),
    ensures
        ({
            let st2 = bfs_visit(c, st, p, j);
            &&& bfs_lens(c, st2)
            &&& bfs_queue(c, st2)
            &&& bfs_tree(c, st2)
            &&& bfs_frontier(c, st2, cell_index(c.w as int, cell(p)))
            &&& st2.visited[j]
            &&& st2.d[j] == st.d[cell_index(c.w as int, cell(p))] + 1
            &&& forall|i: int| 0 <= i < c.n() && #[trigger] st.visited[i] ==> st2.visited[i] && st2.d[i] == st.d[i]
            &&& forall|i: int| 0 <= i < c.n() ==> (#[trigger] st2.visited[i] <==> st.visited[i] || i == j)
        }),
{
    reveal(bfs_queue);
    reveal(bfs_tree);
    reveal(bfs_frontier);
    let st2 = bfs_visit(c, st, p, j);
    let pi = cell_index(c.w as int, cell(p));
    lemma_index_cell(c.w as int, c.h as int, j);
    let tj = index_cell(c.w as int, j);
    let last = st2.q.len() - 1;
    assert(cell(st2.q[last]) == tj);
    assert(qi(c, st2, last) == j);
    assert(j != c.s);
    assert forall|k: int| 0 <= k < st.q.len() implies #[trigger] st2.q[k] == st.q[k] && qi(c, st2, k) == qi(c, st, k) by {}
    assert forall|k: int| 0 <= k < st.q.len() implies qi(c, st, k) != j by {
        assert(st.visited[qi(c, st, k)]);
    }
    assert forall|k: int| 0 <= k < st2.q.len() implies in_grid(c.w as int, c.h as int, cell(#[trigger] st2.q[k]))
        && st2.visited[qi(c, st2, k)] by {
        if k < st.q.len() {
            assert(qi(c, st2, k) == qi(c, st, k));
            assert(in_grid(c.w as int, c.h as int, cell(st.q[k])));
            lemma_index_in_range(c.w as int, c.h as int, cell(st.q[k]));
            assert(st.visited[qi(c, st, k)]);
        } else {
            assert(k == last);
        }
    }
    assert forall|a: int, b: int| 0 <= a < b < st2.q.len() implies st2.d[qi(c, st2, a)] <= st2.d[qi(c, st2, b)] by {
        assert(qi(c, st2, a) == qi(c, st, a));
        assert(st.level <= st.d[qi(c, st, a)] <= st.level + 1);
        assert(in_grid(c.w as int, c.h as int, cell(st.q[a])));
        lemma_index_in_range(c.w as int, c.h as int, cell(st.q[a]));
        assert(st.visited[qi(c, st, a)]);
        assert(qi(c, st, a) != j);
        if b < st.q.len() {
            assert(qi(c, st2, b) == qi(c, st, b));
            assert(in_grid(c.w as int, c.h as int, cell(st.q[b])));
            lemma_index_in_range(c.w as int, c.h as int, cell(st.q[b]));
            assert(st.visited[qi(c, st, b)]);
            assert(st.d[qi(c, st, a)] <= st.d[qi(c, st, b)]);
        } else {
            assert(b == last);
        }
    }
    assert forall|k: int| 0 <= k < st2.q.len() implies st2.level <= st2.d[#[trigger] qi(c, st2, k)] <= st2.level + 1 by {
        if k < st.q.len() {
            assert(qi(c, st2, k) == qi(c, st, k));
            assert(st.level <= st.d[qi(c, st, k)] <= st.level + 1);
            assert(in_grid(c.w as int, c.h as int, cell(st.q[k])));
            lemma_index_in_range(c.w as int, c.h as int, cell(st.q[k]));
            assert(st.visited[qi(c, st, k)]);
        }
    }
    assert(bfs_queue(c, st2));
    assert forall|i: int|
        0 <= i < c.n() && #[trigger] st2.visited[i] && i != c.s implies tree_link(c, st2, i) by {
        lemma_index_in_range(c.w as int, c.h as int, cell(p));
        if i != j {
            assert(tree_link(c, st, i));
            lemma_index_in_range(c.w as int, c.h as int, cell(st.came[i].unwrap()));
        } else {
            assert(st2.came[j] == Some(p));
        }
    }
    assert(bfs_tree(c, st2));
    assert forall|i: int|
        0 <= i < c.n() && #[trigger] st2.visited[i] && i != pi implies (exists|k: int|
            0 <= k < st2.q.len() && qi(c, st2, k) == i) || bfs_relaxed(c, st2, i) by {
        if i == j {
            assert(qi(c, st2, last) == i);
        } else if bfs_relaxed(c, st, i) {
            assert forall|jj: int|
                #![trigger adjacent(index_cell(c.w as int, i), index_cell(c.w as int, jj))]
                0 <= jj < c.n() && adjacent(index_cell(c.w as int, i), index_cell(c.w as int, jj)) && c.mask[jj]
                    implies st2.visited[jj] && st2.d[jj] <= st2.d[i] + 1 by {
                assert(st.visited[jj] && st.d[jj] <= st.d[i] + 1);
            }
        } else {
            let k = choose|k: int| 0 <= k < st.q.len() && qi(c, st, k) == i;
            assert(qi(c, st2, k) == i);
        }
    }
    assert(bfs_frontier(c, st2, pi));
}

/// While the cell at level `level` is being expanded, any walk from the start
/// reaches its `j`-th cell within `j` steps, or is at least `level` long.
proof fn lemma_bfs_walk_bound(c: BfsCtx, st: BfsState, skip: int, p: Seq<(int, int)>, j: int)
    requires
        bfs_lens(c, st),
        bfs_queue(c, st),
        bfs_tree(c, st),
        bfs_frontier(c, st, skip),
        0 <= skip < c.n() ==> st.d[skip] >= st.level,
        is_walk(c.w as int, c.h as int, c.mask, p),
        p[0] == index_cell(c.w as int, c.s),
        0 <= j < p.len(),
    ensures
        ({
            let pj = cell_index(c.w as int, p[j]);
            (st.visited[pj] && st.d[pj] <= j) || st.level <= j
        }),
    decreases j,
{
    reveal(bfs_tree);
    lemma_index_cell(c.w as int, c.h as int, c.s);
    if j == 0 {
        assert(cell_index(c.w as int, p[0]) == c.s);
    } else {
        lemma_bfs_walk_bound(c, st, skip, p, j - 1);
        let a = p[j - 1];
        let b = p[j];
        let ai = cell_index(c.w as int, a);
        let bi = cell_index(c.w as int, b);
        if !(st.level <= j - 1) {
            assert(passable(c.w as int, c.h as int, c.mask, a));
            assert(passable(c.w as int, c.h as int, c.mask, b));
            assert(adjacent(a, b));
            lemma_cell_roundtrip(c.w, c.h, a);
            lemma_cell_roundtrip(c.w, c.h, b);
            assert(st.d[ai] < st.level);
            assert(ai != skip);
            reveal(bfs_frontier);
            reveal(bfs_queue);
            if exists|k: int| 0 <= k < st.q.len() && qi(c, st, k) == ai {
                let k = choose|k: int| 0 <= k < st.q.len() && qi(c, st, k) == ai;
                assert(st.level <= st.d[qi(c, st, k)]);
            }
            assert(bfs_relaxed(c, st, ai));
            assert(adjacent(index_cell(c.w as int, ai), index_cell(c.w as int, bi)));
        }
    }
}

/// Number of unset flags.
pub open spec fn count_unset(s: Seq<bool>) -> nat
    decreases s.len(),
{
    if s.len() == 0 {
        0
    } else {
        count_unset(s.drop_last()) + if s.last() {
            0nat
        } else {
            1nat
        }
    }
}

proof fn lemma_count_unset_update(s: Seq<bool>, i: int)
    requires
        0 <= i < s.len(),
        !s[i],
    ensures
        count_unset(s.update(i, true)) + 1 == count_unset(s),
    decreases s.len(),
{
    let t = s.update(i, true);
    if i < s.len() - 1 {
        assert(t.drop_last() == s.drop_last().update(i, true));
        lemma_count_unset_update(s.drop_last(), i);
    } else {
        assert(t.drop_last() == s.drop_last());
    }
}

proof fn lemma_bfs_finish(c: BfsCtx, st: BfsState, ci: int)
    requires
        bfs_frontier(c, st, ci),
        bfs_relaxed(c, st, ci),
    ensures
        bfs_frontier(c, st, -1),
{
    reveal(bfs_frontier);
}

/// The cells of a path of tiles.
pub open spec fn as_cells(path: Seq<(usize, usize)>) -> Seq<(int, int)> {
    path.map_values(|t: (usize, usize)| cell(t))
}

/// `path` (the waypoints after `start`) walks from `start` to `goal` over the
/// walk mask, and no such walk is shorter.
pub open spec fn shortest_route(map: &LevelMap, start: (usize, usize), goal: (usize, usize), path: Seq<(usize, usize)>) -> bool {
    &&& walk_between(map, seq![cell(start)] + as_cells(path), cell(start), cell(goal))
    &&& forall|q: Seq<(int, int)>|
        #[trigger] walk_between(map, q, cell(start), cell(goal)) ==> path.len() <= q.len() - 1
}

/// Breadth-first shortest path over walkable tiles, returning the waypoints
/// after `start` up to and including `goal`: empty when already at the goal,
/// `None` when no route exists.
pub fn bfs_path(map: &LevelMap, start: (usize, usize), goal: (usize, usize)) -> (r: Option<Vec<(usize, usize)>>)
    requires
        map.inv(),
        start.0 < map.width,
        start.1 < map.height,
    ensures
        start == goal ==> (r matches Some(p) && p@.len() == 0),
        start != goal ==> (r is None <==> !linked(
            map.width as int,
            map.height as int,
            walk_mask(map, cell(start)),
            cell(start),
            cell(goal),
        )),
        r matches Some(p) ==> shortest_route(map, start, goal, p@),
{
    let ghost wi = map.width as int;
    let ghost hi = map.height as int;
    let ghost mask = walk_mask(map, cell(start));
    if start.0 == goal.0 && start.1 == goal.1 {
        let path: Vec<(usize, usize)> = Vec::new();
        proof {
            lemma_index_in_range(wi, hi, cell(start));
            let walk = seq![cell(start)] + as_cells(path@);
            assert(walk =~= seq![cell(start)]);
            assert(is_walk(wi, hi, mask, walk));
        }
        return Some(path);
    }
    let (w, h) = (map.width, map.height);
    proof {
        lemma_index_in_range(wi, hi, cell(start));
    }
    let n = w * h;
    let si = start.1 * w + start.0;
    let ghost c = BfsCtx { w, h, mask, s: si as int };
    let mut came: Vec<Option<(usize, usize)>> = vec_filled(None, n);
    let mut visited: Vec<bool> = vec_filled(false, n);
    let mut queue: VecDeque<(usize, usize)> = VecDeque::new();
    proof {
        lemma_count_unset_update(visited@, si as int);
    }
    visited.set(si, true);
    queue.push_back(start);
    let ghost mut d: Seq<int> = Seq::new(n as nat, |i: int| 0int);
    let ghost mut level: int = 0;
    let ghost gin = in_grid(wi, hi, cell(goal));
    let ghost gi = cell_index(wi, cell(goal));
    proof {
        reveal(bfs_queue);
        reveal(bfs_tree);
        reveal(bfs_frontier);
        let st = BfsState { visited: visited@, came: came@, d, q: queue@, level };
        assert(cell(queue@[0]) == cell(start));
        assert(qi(c, st, 0) == si);
        assert(bfs_queue(c, st));
        assert(bfs_tree(c, st));
        assert forall|i: int| 0 <= i < c.n() && #[trigger] st.visited[i] && i != -1 implies (exists|k: int|
            0 <= k < st.q.len() && qi(c, st, k) == i) || bfs_relaxed(c, st, i) by {
            assert(qi(c, st, 0) == i);
        }
        assert(bfs_frontier(c, st, -1));
        if gin {
            lemma_index_in_range(wi, hi, cell(goal));
            if visited@[gi] {
                lemma_index_unique(wi, hi, cell(goal), cell(start));
            }
        }
    }
    while queue.len() > 0
        invariant
            map.inv(),
            wi == w as int,
            hi == h as int,
            w == map.width,
            h == map.height,
            n == w * h,
            start != goal,
            in_grid(wi, hi, cell(start)),
            si == cell_index(wi, cell(start)),
            mask == walk_mask(map, cell(start)),
            c == (BfsCtx { w, h, mask, s: si as int }),
            gin == in_grid(wi, hi, cell(goal)),
            gi == cell_index(wi, cell(goal)),
            gin ==> 0 <= gi < n,
            bfs_lens(c, BfsState { visited: visited@, came: came@, d, q: queue@, level }),
            bfs_queue(c, BfsState { visited: visited@, came: came@, d, q: queue@, level }),
            bfs_tree(c, BfsState { visited: visited@, came: came@, d, q: queue@, level }),
            bfs_frontier(c, BfsState { visited: visited@, came: came@, d, q: queue@, level }, -1),
            gin && visited@[gi] ==> exists|k: int| 0 <= k < queue@.len() && cell(queue@[k]) == cell(goal),
        decreases 2 * count_unset(visited@) + queue@.len(),
    {
        let ghost st0 = BfsState { visited: visited@, came: came@, d, q: queue@, level };
        let ghost measure0 = 2 * count_unset(visited@) + queue@.len();
        proof {
            lemma_bfs_pop(c, st0);
        }
        let (cx, cy) = queue.pop_front().unwrap();
        let ghost ci = cell_index(wi, cell((cx, cy)));
        let ghost st1 = bfs_pop(c, st0);
        proof {
            assert(queue@ =~= st1.q);
            level = st1.level;
            assert(ci == qi(c, st0, 0));
        }
        if cx == goal.0 && cy == goal.1 {
            // Reconstruct the route by walking the predecessor links back.
            let ghost dd = d[ci];
            let mut rev: Vec<(usize, usize)> = Vec::new();
            let mut cur = goal;
            proof {
                reveal(bfs_tree);
                assert(ci != si as int) by {
                    if ci == si as int {
                        lemma_index_unique(wi, hi, cell(goal), cell(start));
                    }
                }
            }
            while cur.0 != start.0 || cur.1 != start.1
                invariant
                    wi == w as int,
                    hi == h as int,
                    n == w * h,
                    c == (BfsCtx { w, h, mask, s: si as int }),
                    in_grid(wi, hi, cell(start)),
                    si == cell_index(wi, cell(start)),
                    bfs_lens(c, st1),
                    bfs_tree(c, st1),
                    st1.came == came@,
                    st1.d == d,
                    in_grid(wi, hi, cell(cur)),
                    st1.visited[cell_index(wi, cell(cur))],
                    d[cell_index(wi, cell(cur))] + rev@.len() == dd,
                    rev@.len() > 0 ==> rev@[0] == goal && adjacent(cell(cur), cell(rev@.last())),
                    rev@.len() == 0 ==> cur == goal,
                    forall|k: int|
                        0 <= k < rev@.len() ==> in_grid(wi, hi, cell(#[trigger] rev@[k])) && st1.visited[cell_index(wi, cell(rev@[k]))],
                    forall|k: int| 0 <= k < rev@.len() - 1 ==> adjacent(cell(#[trigger] rev@[k + 1]), cell(rev@[k])),
                decreases d[cell_index(wi, cell(cur))],
            {
                let ghost curi = cell_index(wi, cell(cur));
                proof {
                    reveal(bfs_tree);
                    lemma_index_in_range(wi, hi, cell(cur));
                    assert(curi != si as int) by {
                        if curi == si as int {
                            lemma_index_unique(wi, hi, cell(cur), cell(start));
                        }
                    }
                    assert(tree_link(c, st1, curi));
                    lemma_cell_roundtrip(w, h, cell(cur));
                }
                rev.push(cur);
                let ci2 = cur.1 * w + cur.0;
                cur = came[ci2].unwrap();
                proof {
                    lemma_index_in_range(wi, hi, cell(cur));
                    assert(d[cell_index(wi, cell(cur))] >= 0);
                }
            }
            proof {
                reveal(bfs_tree);
                assert(cell(cur) == cell(start));
            }
            let len = rev.len();
            let mut path: Vec<(usize, usize)> = Vec::new();
            let mut k: usize = 0;
            while k < len
                invariant
                    len == rev@.len(),
                    0 <= k <= len,
                    path@.len() == k,
                    forall|m: int| 0 <= m < k ==> path@[m] == rev@[len - 1 - m],
                decreases len - k,
            {
                path.push(rev[len - 1 - k]);
                k = k + 1;
            }
            proof {
                let walk = seq![cell(start)] + as_cells(path@);
                assert(d[si as int] == 0) by {
                    reveal(bfs_tree);
                }
                assert(len == dd);
                assert(dd >= 1) by {
                    reveal(bfs_tree);
                    assert(tree_link(c, st1, ci));
                }
                assert forall|m: int| 0 <= m < walk.len() implies passable(wi, hi, mask, #[trigger] walk[m]) by {
                    reveal(bfs_tree);
                    if m == 0 {
                    } else {
                        assert(walk[m] == cell(rev@[len - m]));
                        assert(in_grid(wi, hi, cell(rev@[len - m])));
                        assert(st1.visited[cell_index(wi, cell(rev@[len - m]))]);
                        lemma_index_in_range(wi, hi, cell(rev@[len - m]));
                    }
                }
                assert forall|m: int| 0 <= m < walk.len() - 1 implies adjacent(#[trigger] walk[m], walk[m + 1]) by {
                    if m == 0 {
                        assert(walk[1] == cell(rev@[len - 1]));
                    } else {
                        assert(walk[m] == cell(rev@[len - m]));
                        assert(walk[m + 1] == cell(rev@[len - m - 1]));
                        assert(adjacent(cell(rev@[(len - m - 1) + 1]), cell(rev@[len - m - 1])));
                    }
                }
                assert(walk.last() == cell(rev@[0]));
                assert(walk_between(map, walk, cell(start), cell(goal)));
                assert forall|q: Seq<(int, int)>| #[trigger] walk_between(map, q, cell(start), cell(goal)) implies path@.len() <= q.len() - 1 by {
                    lemma_cell_roundtrip(w, h, cell(start));
                    lemma_bfs_walk_bound(c, st1, ci, q, q.len() - 1);
                    lemma_index_in_range(wi, hi, cell(goal));
                }
                assert(linked(wi, hi, mask, cell(start), cell(goal)));
            }
            return Some(path);
        }
        let nbrs = neighbours(cx, cy, w, h);
        proof {
            if gin && visited@[gi] {
                let kq = choose|kq: int| 0 <= kq < st0.q.len() && cell(st0.q[kq]) == cell(goal);
                assert(st0.q[0] == (cx, cy));
                assert(kq != 0);
                assert(queue@[kq - 1] == st0.q[kq]);
            }
            lemma_neighbour_list(cx, cy, w, h);
            reveal(bfs_queue);
            assert(in_grid(wi, hi, cell(st0.q[0])));
        }
        let ghost m1 = 2 * count_unset(visited@) + queue@.len();
        let mut k: usize = 0;
        while k < nbrs.len()
            invariant
                map.inv(),
                wi == w as int,
                hi == h as int,
                w == map.width,
                h == map.height,
                n == w * h,
                in_grid(wi, hi, cell(start)),
                si == cell_index(wi, cell(start)),
                mask == walk_mask(map, cell(start)),
                c == (BfsCtx { w, h, mask, s: si as int }),
                gin == in_grid(wi, hi, cell(goal)),
                gi == cell_index(wi, cell(goal)),
                gin ==> 0 <= gi < n,
                cell((cx, cy)) != cell(goal),
                in_grid(wi, hi, cell((cx, cy))),
                ci == cell_index(wi, cell((cx, cy))),
                nbrs@ == neighbour_list(cx, cy, w, h),
                0 <= k <= nbrs@.len(),
                bfs_lens(c, BfsState { visited: visited@, came: came@, d, q: queue@, level }),
                bfs_queue(c, BfsState { visited: visited@, came: came@, d, q: queue@, level }),
                bfs_tree(c, BfsState { visited: visited@, came: came@, d, q: queue@, level }),
                bfs_frontier(c, BfsState { visited: visited@, came: came@, d, q: queue@, level }, ci),
                visited@[ci],
                d[ci] == level,
                forall|kk: int|
                    0 <= kk < k && mask[cell_index(wi, cell(#[trigger] nbrs@[kk]))] ==> visited@[cell_index(wi, cell(nbrs@[kk]))]
                        && d[cell_index(wi, cell(nbrs@[kk]))] <= level + 1,
                gin && visited@[gi] ==> exists|q: int| 0 <= q < queue@.len() && cell(queue@[q]) == cell(goal),
                2 * count_unset(visited@) + queue@.len() <= m1,
            decreases nbrs@.len() - k,
        {
            let (nx, ny) = nbrs[k];
            let ghost nb = cell((nx, ny));
            proof {
                assert(in_grid(wi, hi, nb));
                lemma_index_in_range(wi, hi, nb);
            }
            let idx = ny * w + nx;
            if !visited[idx] && map.is_walkable(nx, ny) {
                let ghost st = BfsState { visited: visited@, came: came@, d, q: queue@, level };
                proof {
                    lemma_cell_roundtrip(w, h, nb);
                    assert(mask[idx as int]);
                    assert(adjacent(cell((cx, cy)), index_cell(wi, idx as int)));
                    lemma_bfs_visit(c, st, (cx, cy), idx as int);
                    lemma_count_unset_update(visited@, idx as int);
                }
                let ghost st2 = bfs_visit(c, st, (cx, cy), idx as int);
                visited.set(idx, true);
                came.set(idx, Some((cx, cy)));
                queue.push_back((nx, ny));
                proof {
                    lemma_index_in_range(wi, hi, cell((cx, cy)));
                    assert(st.visited[ci]);
                    assert(st2.visited[ci] && st2.d[ci] == st.d[ci]);
                    d = st2.d;
                    assert(queue@ =~= st2.q);
                    assert(visited@ =~= st2.visited);
                    assert(came@ =~= st2.came);
                    if gin && visited@[gi] {
                        if gi == idx as int {
                            lemma_index_unique(wi, hi, cell(goal), nb);
                            assert(cell(queue@[queue@.len() - 1]) == cell(goal));
                        } else {
                            let q = choose|q: int| 0 <= q < st.q.len() && cell(st.q[q]) == cell(goal);
                            assert(queue@[q] == st.q[q]);
                        }
                    }
                    assert forall|kk: int|
                        0 <= kk < k + 1 && mask[cell_index(wi, cell(#[trigger] nbrs@[kk]))] implies visited@[cell_index(wi, cell(nbrs@[kk]))]
                            && d[cell_index(wi, cell(nbrs@[kk]))] <= level + 1 by {
                        let j = cell_index(wi, cell(nbrs@[kk]));
                        assert(in_grid(wi, hi, cell(nbrs@[kk])));
                        lemma_index_in_range(wi, hi, cell(nbrs@[kk]));
                        if kk < k {
                            assert(st.visited[j] && st.d[j] <= level + 1);
                        }
                    }
                }
            } else {
                proof {
                    reveal(bfs_tree);
                    let st = BfsState { visited: visited@, came: came@, d, q: queue@, level };
                    if mask[idx as int] {
                        if !visited@[idx as int] {
                            assert(map.cells()[idx as int] == Tile::Floor || idx == si);
                        }
                        assert(visited@[idx as int]);
                        assert(d[idx as int] <= level + 1);
                    }
                }
            }
            k = k + 1;
        }
        proof {
            let st = BfsState { visited: visited@, came: came@, d, q: queue@, level };
            assert forall|j: int|
                #![trigger adjacent(index_cell(c.w as int, ci), index_cell(c.w as int, j))]
                0 <= j < c.n() && adjacent(index_cell(c.w as int, ci), index_cell(c.w as int, j)) && c.mask[j]
                    implies st.visited[j] && st.d[j] <= st.d[ci] + 1 by {
                lemma_index_cell(wi, hi, j);
                lemma_cell_roundtrip(w, h, cell((cx, cy)));
                let kk = choose|kk: int|
                    0 <= kk < nbrs@.len() && cell(#[trigger] nbrs@[kk]) == index_cell(wi, j);
                assert(cell_index(wi, cell(nbrs@[kk])) == j);
            }
            lemma_bfs_finish(c, st, ci);
        }
    }
    proof {
        let st = BfsState { visited: visited@, came: came@, d, q: queue@, level };
        reveal(bfs_frontier);
        reveal(bfs_tree);
        if linked(wi, hi, mask, cell(start), cell(goal)) {
            assert(closed_under_steps(wi, hi, mask, visited@)) by {
                assert forall|a: (int, int), b: (int, int)|
                    #![trigger visited@[cell_index(wi, a)], visited@[cell_index(wi, b)]]
                    in_grid(wi, hi, a) && visited@[cell_index(wi, a)] && adjacent(a, b) && passable(wi, hi, mask, b)
                        implies visited@[cell_index(wi, b)] by {
                    lemma_cell_roundtrip(w, h, a);
                    lemma_cell_roundtrip(w, h, b);
                    let ai = cell_index(wi, a);
                    assert(bfs_relaxed(c, st, ai));
                    assert(adjacent(index_cell(wi, ai), index_cell(wi, cell_index(wi, b))));
                }
            }
            lemma_closed_contains_linked(wi, hi, mask, visited@, cell(start), cell(goal));
            lemma_linked_ends(wi, hi, mask, cell(start), cell(goal));
        }
    }
    None
}

/// Absolute value.
pub open spec fn abs_i(x: int) -> int {
    if x < 0 {
        -x
    } else {
        x
    }
}

/// Chebyshev (king-move) distance between two cells.
pub open spec fn cheb(a: (int, int), b: (int, int)) -> int {
    let dx = abs_i(b.0 - a.0);
    let dy = abs_i(b.1 - a.1);
    if dx > dy {
        dx
    } else {
        dy
    }
}

/// Which quarter-turn band the direction `v` falls in when bearings are read
/// as `atan2(dy, dx)`: negative `dy` first, then due +x, then positive `dy`,
/// then due −x.
pub open spec fn half_of(v: (int, int)) -> int {
    if v.1 < 0 {
        0
    } else if v.1 == 0 && v.0 > 0 {
        1
    } else if v.1 > 0 {
        2
    } else {
        3
    }
}

/// The cross product of two directions.
pub open spec fn cross(a: (int, int), b: (int, int)) -> int {
    a.0 * b.1 - a.1 * b.0
}

/// Direction `a` has the smaller bearing `atan2(dy, dx)` than `b`.
pub open spec fn bearing_lt(a: (int, int), b: (int, int)) -> bool {
    half_of(a) < half_of(b) || (half_of(a) == half_of(b) && cross(a, b) > 0)
}

/// Around `o`, tile `s` comes before tile `t`: a nearer ring first, then the
/// smaller bearing.
#[verifier::opaque]
pub open spec fn ring_lt(o: (int, int), s: (int, int), t: (int, int)) -> bool {
    let a = (s.0 - o.0, s.1 - o.1);
    let b = (t.0 - o.0, t.1 - o.1);
    cheb(o, s) < cheb(o, t) || (cheb(o, s) == cheb(o, t) && bearing_lt(a, b))
}

proof fn lemma_cross_trans(a: (int, int), b: (int, int), c: (int, int))
    requires
        half_of(a) == half_of(b),
        half_of(b) == half_of(c),
        cross(a, b) > 0,
        cross(b, c) > 0,
    ensures
        cross(a, c) > 0,
{
    let p = cross(a, b);
    let q = cross(b, c);
    let x = cross(a, c);
    assert(b.1 * x == c.1 * p + a.1 * q) by (nonlinear_arith)
        requires
            p == a.0 * b.1 - a.1 * b.0,
            q == b.0 * c.1 - b.1 * c.0,
            x == a.0 * c.1 - a.1 * c.0,
    ;
    if a.1 > 0 {
        assert(c.1 * p > 0) by (nonlinear_arith)
            requires
                c.1 > 0,
                p > 0,
        ;
        assert(a.1 * q > 0) by (nonlinear_arith)
            requires
                a.1 > 0,
                q > 0,
        ;
        assert(x > 0) by (nonlinear_arith)
            requires
                b.1 > 0,
                b.1 * x > 0,
        ;
    } else if a.1 < 0 {
        assert(c.1 * p < 0) by (nonlinear_arith)
            requires
                c.1 < 0,
                p > 0,
        ;
        assert(a.1 * q < 0) by (nonlinear_arith)
            requires
                a.1 < 0,
                q > 0,
        ;
        assert(x > 0) by (nonlinear_arith)
            requires
                b.1 < 0,
                b.1 * x < 0,
        ;
    } else {
        assert(b.1 == 0 && c.1 == 0);
        assert(cross(a, b) == 0) by (nonlinear_arith)
            requires
                a.1 == 0,
                b.1 == 0,
        ;
    }
}

/// Proportional non-negative pairs of equal maximum are equal.
proof fn lemma_same_scale(p: int, q: int, r: int, s: int)
    requires
        p >= 0,
        q > 0,
        r >= 0,
        s > 0,
        p * s == q * r,
        (if p > q { p } else { q }) == (if r > s { r } else { s }),
    ensures
        p == r,
        q == s,
{
    if q < s {
        assert(p * s < s * r || r == 0) by (nonlinear_arith)
            requires
                p * s == q * r,
                q < s,
                r >= 0,
                s > 0,
        ;
        assert(p < r || (r == 0 && p == 0)) by (nonlinear_arith)
            requires
                p * s < s * r || r == 0,
                p * s == q * r,
                p >= 0,
                s > 0,
        ;
    } else if q > s {
        assert(r * q < q * p || p == 0) by (nonlinear_arith)
            requires
                p * s == q * r,
                s < q,
                p >= 0,
                q > 0,
        ;
        assert(r < p || (p == 0 && r == 0)) by (nonlinear_arith)
            requires
                r * q < q * p || p == 0,
                p * s == q * r,
                r >= 0,
                q > 0,
        ;
    } else {
        assert(p == r) by (nonlinear_arith)
            requires
                p * s == q * r,
                q == s,
                s > 0,
        ;
    }
}

/// Distinct tiles around `o` are always ordered one way or the other.
pub proof fn lemma_ring_total(o: (int, int), s: (int, int), t: (int, int))
    requires
        s != t,
        s != o,
        t != o,
    ensures
        ring_lt(o, s, t) || ring_lt(o, t, s),
{
    reveal(ring_lt);
    let a = (s.0 - o.0, s.1 - o.1);
    let b = (t.0 - o.0, t.1 - o.1);
    if cheb(o, s) == cheb(o, t) && half_of(a) == half_of(b) && cross(a, b) == 0 {
        assert(cross(b, a) == 0) by (nonlinear_arith)
            requires
                cross(a, b) == 0,
        ;
        if a.1 == 0 {
            assert(b.1 == 0);
        } else {
            assert(abs_i(a.0) * abs_i(b.1) == abs_i(a.1) * abs_i(b.0)) by (nonlinear_arith)
                requires
                    a.0 * b.1 == a.1 * b.0,
            ;
            lemma_same_scale(abs_i(a.0), abs_i(a.1), abs_i(b.0), abs_i(b.1));
            assert(a.1 == b.1);
            assert(a.0 == b.0) by (nonlinear_arith)
                requires
                    a.0 * b.1 == a.1 * b.0,
                    a.1 == b.1,
                    b.1 != 0,
            ;
        }
        assert(s == t);
    } else if cheb(o, s) == cheb(o, t) && half_of(a) == half_of(b) {
        assert(cross(b, a) == -cross(a, b)) by (nonlinear_arith);
    }
}

/// The ring order is transitive.
pub proof fn lemma_ring_trans(o: (int, int), s: (int, int), t: (int, int), u: (int, int))
    requires
        ring_lt(o, s, t),
        ring_lt(o, t, u),
    ensures
        ring_lt(o, s, u),
{
    reveal(ring_lt);
    let a = (s.0 - o.0, s.1 - o.1);
    let b = (t.0 - o.0, t.1 - o.1);
    let c = (u.0 - o.0, u.1 - o.1);
    if cheb(o, s) == cheb(o, t) && cheb(o, t) == cheb(o, u) && half_of(a) == half_of(b)
        && half_of(b) == half_of(c) {
        lemma_cross_trans(a, b, c);
    }
}

/// Tiles a search flood from `o` may cross: floor within Chebyshev `radius`
/// of `o`, and `o` itself.
pub open spec fn ring_mask(map: &LevelMap, o: (int, int), radius: int) -> Seq<bool> {
    Seq::new(
        map.cells().len(),
        |i: int|
            (map.cells()[i] == Tile::Floor && cheb(o, index_cell(map.width as int, i)) <= radius) || i
                == cell_index(map.width as int, o),
    )
}

/// Chebyshev distance between two tiles.
pub fn chebyshev(a: (usize, usize), b: (usize, usize)) -> (r: i64)
    requires
        a.0 <= i32::MAX,
        a.1 <= i32::MAX,
        b.0 <= i32::MAX,
        b.1 <= i32::MAX,
    ensures
        r == cheb(cell(a), cell(b)),
{
    let dx0 = b.0 as i64 - a.0 as i64;
    let dy0 = b.1 as i64 - a.1 as i64;
    let dx = if dx0 < 0 { -dx0 } else { dx0 };
    let dy = if dy0 < 0 { -dy0 } else { dy0 };
    if dx > dy { dx } else { dy }
}

/// Whether, around `o`, tile `s` comes before tile `t` in search order.
fn ring_less(o: (usize, usize), s: (usize, usize), t: (usize, usize)) -> (r: bool)
    requires
        o.0 <= i32::MAX,
        o.1 <= i32::MAX,
        s.0 <= i32::MAX,
        s.1 <= i32::MAX,
        t.0 <= i32::MAX,
        t.1 <= i32::MAX,
    ensures
        r == ring_lt(cell(o), cell(s), cell(t)),
{
    reveal(ring_lt);
    let cs = chebyshev(o, s);
    let ct = chebyshev(o, t);
    if cs != ct {
        return cs < ct;
    }
    let ax = s.0 as i64 - o.0 as i64;
    let ay = s.1 as i64 - o.1 as i64;
    let bx = t.0 as i64 - o.0 as i64;
    let by = t.1 as i64 - o.1 as i64;
    let ha: u8 = if ay < 0 { 0 } else if ay == 0 && ax > 0 { 1 } else if ay > 0 { 2 } else { 3 };
    let hb: u8 = if by < 0 { 0 } else if by == 0 && bx > 0 { 1 } else if by > 0 { 2 } else { 3 };
    if ha != hb {
        return ha < hb;
    }
    assert(-0x4000_0000_0000_0000 <= ax * by <= 0x4000_0000_0000_0000) by (nonlinear_arith)
        requires
            -0x8000_0000 < ax < 0x8000_0000,
            -0x8000_0000 < by < 0x8000_0000,
    ;
    assert(-0x4000_0000_0000_0000 <= ay * bx <= 0x4000_0000_0000_0000) by (nonlinear_arith)
        requires
            -0x8000_0000 < ay < 0x8000_0000,
            -0x8000_0000 < bx < 0x8000_0000,
    ;
    (ax as i128) * (by as i128) - (ay as i128) * (bx as i128) > 0
}

/// Flood state: every visited tile is in the mask and joined to the origin;
/// every queued tile is a visited grid tile; every visited tile other than
/// `skip` is queued or has all its in-mask neighbours visited.
#[verifier::opaque]
pub open spec fn flood_ok(
    w: usize,
    h: usize,
    mask: Seq<bool>,
    o: (int, int),
    visited: Seq<bool>,
    q: Seq<(usize, usize)>,
    skip: int,
) -> bool {
    &&& forall|i: int|
        0 <= i < w * h && #[trigger] visited[i] ==> mask[i] && linked(
            w as int,
            h as int,
            mask,
            o,
            index_cell(w as int, i),
        )
    &&& forall|k: int|
        0 <= k < q.len() ==> in_grid(w as int, h as int, cell(#[trigger] q[k]))
            && visited[cell_index(w as int, cell(q[k]))]
    &&& forall|i: int|
        0 <= i < w * h && #[trigger] visited[i] && i != skip ==> (exists|k: int|
            0 <= k < q.len() && cell_index(w as int, cell(q[k])) == i) || forall|j: int|
            #![trigger adjacent(index_cell(w as int, i), index_cell(w as int, j))]
            0 <= j < w * h && adjacent(index_cell(w as int, i), index_cell(w as int, j)) && mask[j]
                ==> visited[j]
}

/// Flood from `origin` over floor within Chebyshev `radius`: the flags mark
/// exactly the tiles joined to `origin` inside that radius.
fn flood_ring(map: &LevelMap, origin: (usize, usize), radius: i32) -> (reachable: Vec<bool>)
    requires
        map.inv(),
        origin.0 < map.width,
        origin.1 < map.height,
        map.width <= i32::MAX,
        map.height <= i32::MAX,
    ensures
        reachable@.len() == map.width * map.height,
        reachable@[cell_index(map.width as int, cell(origin))],
        forall|i: int|
            0 <= i < map.width * map.height && #[trigger] reachable@[i] ==> ring_mask(
                map,
                cell(origin),
                radius as int,
            )[i] && linked(
                map.width as int,
                map.height as int,
                ring_mask(map, cell(origin), radius as int),
                cell(origin),
                index_cell(map.width as int, i),
            ),
        forall|i: int, j: int|
            #![trigger reachable@[i], adjacent(index_cell(map.width as int, i), index_cell(map.width as int, j))]
            0 <= i < map.width * map.height && reachable@[i] && 0 <= j < map.width * map.height
                && adjacent(index_cell(map.width as int, i), index_cell(map.width as int, j))
                && ring_mask(map, cell(origin), radius as int)[j] ==> reachable@[j],
{
    let (w, h) = (map.width, map.height);
    let ghost wi = w as int;
    let ghost hi = h as int;
    let ghost o = cell(origin);
    let ghost mask = ring_mask(map, o, radius as int);
    proof {
        lemma_index_in_range(wi, hi, o);
    }
    let n = w * h;
    let oi = origin.1 * w + origin.0;
    let mut reachable: Vec<bool> = vec_filled(false, n);
    let mut queue: VecDeque<(usize, usize)> = VecDeque::new();
    proof {
        lemma_count_unset_update(reachable@, oi as int);
    }
    reachable.set(oi, true);
    queue.push_back(origin);
    proof {
        reveal(flood_ok);
        lemma_cell_roundtrip(w, h, o);
        assert(passable(wi, hi, mask, o));
        lemma_linked_refl(wi, hi, mask, o);
        assert forall|i: int| 0 <= i < n && #[trigger] reachable@[i] && i != -1 implies (exists|k: int|
            0 <= k < queue@.len() && cell_index(wi, cell(queue@[k])) == i) by {
            assert(cell_index(wi, cell(queue@[0])) == i);
        }
        assert(flood_ok(w, h, mask, o, reachable@, queue@, -1));
    }
    while queue.len() > 0
        invariant
            map.inv(),
            wi == w as int,
            hi == h as int,
            w == map.width,
            h == map.height,
            n == w * h,
            w <= i32::MAX,
            h <= i32::MAX,
            in_grid(wi, hi, o),
            o == cell(origin),
            oi == cell_index(wi, o),
            mask == ring_mask(map, o, radius as int),
            reachable@.len() == n,
            0 <= oi < n,
            reachable@[oi as int],
            flood_ok(w, h, mask, o, reachable@, queue@, -1),
        decreases 2 * count_unset(reachable@) + queue@.len(),
    {
        let ghost q0 = queue@;
        let (cx, cy) = queue.pop_front().unwrap();
        let ghost ci = cell_index(wi, cell((cx, cy)));
        proof {
            reveal(flood_ok);
            assert(q0[0] == (cx, cy));
            assert(in_grid(wi, hi, cell((cx, cy))));
            lemma_index_in_range(wi, hi, cell((cx, cy)));
            assert forall|i: int| 0 <= i < n && #[trigger] reachable@[i] && i != ci implies (exists|k: int|
                0 <= k < queue@.len() && cell_index(wi, cell(queue@[k])) == i) || forall|j: int|
                #![trigger adjacent(index_cell(wi, i), index_cell(wi, j))]
                0 <= j < n && adjacent(index_cell(wi, i), index_cell(wi, j)) && mask[j] ==> reachable@[j] by {
                if exists|k: int| 0 <= k < q0.len() && cell_index(wi, cell(q0[k])) == i {
                    let k = choose|k: int| 0 <= k < q0.len() && cell_index(wi, cell(q0[k])) == i;
                    assert(k != 0);
                    assert(queue@[k - 1] == q0[k]);
                }
            }
            assert forall|k: int| 0 <= k < queue@.len() implies in_grid(wi, hi, cell(#[trigger] queue@[k]))
                && reachable@[cell_index(wi, cell(queue@[k]))] by {
                assert(queue@[k] == q0[k + 1]);
            }
            assert(flood_ok(w, h, mask, o, reachable@, queue@, ci));
        }
        let ghost m1 = 2 * count_unset(reachable@) + queue@.len();
        let nbrs = neighbours(cx, cy, w, h);
        proof {
            lemma_neighbour_list(cx, cy, w, h);
        }
        let mut k: usize = 0;
        while k < nbrs.len()
            invariant
                map.inv(),
                wi == w as int,
                hi == h as int,
                w == map.width,
                h == map.height,
                n == w * h,
                w <= i32::MAX,
                h <= i32::MAX,
                in_grid(wi, hi, o),
                o == cell(origin),
                oi == cell_index(wi, o),
                mask == ring_mask(map, o, radius as int),
                reachable@.len() == n,
                0 <= oi < n,
                reachable@[oi as int],
                in_grid(wi, hi, cell((cx, cy))),
                ci == cell_index(wi, cell((cx, cy))),
                0 <= ci < n,
                reachable@[ci],
                nbrs@ == neighbour_list(cx, cy, w, h),
                0 <= k <= nbrs@.len(),
                flood_ok(w, h, mask, o, reachable@, queue@, ci),
                forall|kk: int|
                    0 <= kk < k && mask[cell_index(wi, cell(#[trigger] nbrs@[kk]))] ==> reachable@[cell_index(wi, cell(nbrs@[kk]))],
                2 * count_unset(reachable@) + queue@.len() <= m1,
            decreases nbrs@.len() - k,
        {
            let (nx, ny) = nbrs[k];
            let ghost nb = cell((nx, ny));
            proof {
                assert(in_grid(wi, hi, nb));
                lemma_index_in_range(wi, hi, nb);
                lemma_cell_roundtrip(w, h, nb);
            }
            let idx = ny * w + nx;
            if !reachable[idx] && chebyshev((nx, ny), origin) <= radius as i64 && map.is_walkable(nx, ny) {
                let ghost v0 = reachable@;
                let ghost qq0 = queue@;
                proof {
                    reveal(flood_ok);
                    assert(cheb(o, nb) == cheb(nb, o));
                    assert(mask[idx as int]);
                    lemma_count_unset_update(reachable@, idx as int);
                    lemma_cell_roundtrip(w, h, cell((cx, cy)));
                    assert(linked(wi, hi, mask, o, index_cell(wi, ci)));
                    lemma_linked_step(wi, hi, mask, o, cell((cx, cy)), nb);
                }
                reachable.set(idx, true);
                queue.push_back((nx, ny));
                proof {
                    reveal(flood_ok);
                    assert forall|i: int| 0 <= i < n && #[trigger] reachable@[i] implies mask[i] && linked(
                        wi,
                        hi,
                        mask,
                        o,
                        index_cell(wi, i),
                    ) by {
                        if i != idx as int {
                            assert(v0[i]);
                        }
                    }
                    assert forall|kq: int| 0 <= kq < queue@.len() implies in_grid(wi, hi, cell(#[trigger] queue@[kq]))
                        && reachable@[cell_index(wi, cell(queue@[kq]))] by {
                        if kq < qq0.len() {
                            assert(queue@[kq] == qq0[kq]);
                            lemma_index_in_range(wi, hi, cell(qq0[kq]));
                        }
                    }
                    assert forall|i: int| 0 <= i < n && #[trigger] reachable@[i] && i != ci implies (exists|kq: int|
                        0 <= kq < queue@.len() && cell_index(wi, cell(queue@[kq])) == i) || forall|j: int|
                        #![trigger adjacent(index_cell(wi, i), index_cell(wi, j))]
                        0 <= j < n && adjacent(index_cell(wi, i), index_cell(wi, j)) && mask[j] ==> reachable@[j] by {
                        if i == idx as int {
                            assert(cell_index(wi, cell(queue@[queue@.len() - 1])) == i);
                        } else if exists|kq: int| 0 <= kq < qq0.len() && cell_index(wi, cell(qq0[kq])) == i {
                            let kq = choose|kq: int| 0 <= kq < qq0.len() && cell_index(wi, cell(qq0[kq])) == i;
                            assert(queue@[kq] == qq0[kq]);
                        } else {
                            assert(v0[i]);
                        }
                    }
                    assert(flood_ok(w, h, mask, o, reachable@, queue@, ci));
                    assert forall|kk: int|
                        0 <= kk < k + 1 && mask[cell_index(wi, cell(#[trigger] nbrs@[kk]))] implies reachable@[cell_index(wi, cell(nbrs@[kk]))] by {
                        assert(in_grid(wi, hi, cell(nbrs@[kk])));
                        lemma_index_in_range(wi, hi, cell(nbrs@[kk]));
                        if kk < k {
                            assert(v0[cell_index(wi, cell(nbrs@[kk]))]);
                        }
                    }
                }
            } else {
                proof {
                    if mask[idx as int] && !reachable@[idx as int] {
                        assert(cheb(o, nb) == cheb(nb, o));
                        assert(idx != oi);
                    }
                }
            }
            k = k + 1;
        }
        proof {
            reveal(flood_ok);
            assert forall|j: int|
                #![trigger adjacent(index_cell(wi, ci), index_cell(wi, j))]
                0 <= j < n && adjacent(index_cell(wi, ci), index_cell(wi, j)) && mask[j] implies reachable@[j] by {
                lemma_index_cell(wi, hi, j);
                lemma_cell_roundtrip(w, h, cell((cx, cy)));
                let kk = choose|kk: int|
                    0 <= kk < nbrs@.len() && cell(#[trigger] nbrs@[kk]) == index_cell(wi, j);
                assert(cell_index(wi, cell(nbrs@[kk])) == j);
            }
            assert(flood_ok(w, h, mask, o, reachable@, queue@, -1));
        }
    }
    proof {
        reveal(flood_ok);
    }
    reachable
}

/// Every flagged tile but `origin`, in row-major order.
fn flagged_tiles(reachable: &Vec<bool>, w: usize, h: usize, origin: (usize, usize)) -> (tiles: Vec<(usize, usize)>)
    requires
        0 < w,
        w * h <= usize::MAX,
        reachable@.len() == w * h,
        w <= i32::MAX,
        h <= i32::MAX,
        origin.0 < w,
        origin.1 < h,
    ensures
        forall|k: int|
            0 <= k < tiles@.len() ==> {
                let c = cell(#[trigger] tiles@[k]);
                &&& in_grid(w as int, h as int, c)
                &&& reachable@[cell_index(w as int, c)]
                &&& c != cell(origin)
            },
        forall|a: int, b: int| 0 <= a < b < tiles@.len() ==> tiles@[a] != tiles@[b],
        forall|j: int|
            0 <= j < w * h && #[trigger] reachable@[j] && index_cell(w as int, j) != cell(origin) ==> listed(
                tiles@,
                index_cell(w as int, j),
            ),
{
    let ghost wi = w as int;
    let ghost hi = h as int;
    let ghost o = cell(origin);
    let n = w * h;
    // Every flooded tile but the origin, in row-major order.
    let mut tiles: Vec<(usize, usize)> = Vec::new();
    let mut i: usize = 0;
    while i < n
        invariant
            wi == w as int,
            hi == h as int,
            0 < w,
            n == w * h,
            w <= i32::MAX,
            h <= i32::MAX,
            o == cell(origin),
            in_grid(wi, hi, o),
            reachable@.len() == n,
            0 <= i <= n,
            forall|k: int|
                0 <= k < tiles@.len() ==> {
                    let c = cell(#[trigger] tiles@[k]);
                    &&& in_grid(wi, hi, c)
                    &&& 0 <= cell_index(wi, c) < i
                    &&& reachable@[cell_index(wi, c)]
                    &&& c != o
                },
            forall|a: int, b: int|
                0 <= a < b < tiles@.len() ==> cell_index(wi, cell(tiles@[a])) < cell_index(wi, cell(tiles@[b])),
            forall|j: int| 0 <= j < i && reachable@[j] && index_cell(wi, j) != o ==> listed(tiles@, index_cell(wi, j)),
        decreases n - i,
    {
        if reachable[i] {
            let t = (i % w, i / w);
            proof {
                lemma_index_cell(wi, hi, i as int);
            }
            if t.0 != origin.0 || t.1 != origin.1 {
                let ghost before = tiles@;
                tiles.push(t);
                proof {
                    assert(cell(tiles@[before.len() as int]) == index_cell(wi, i as int));
                    assert forall|j: int| 0 <= j < i + 1 && reachable@[j] && index_cell(wi, j) != o implies listed(tiles@, index_cell(wi, j)) by {
                        if j < i {
                            let k = choose|k: int| 0 <= k < before.len() && cell(#[trigger] before[k]) == index_cell(wi, j);
                            assert(tiles@[k] == before[k]);
                        } else {
                            assert(cell(tiles@[before.len() as int]) == index_cell(wi, j));
                        }
                    }
                }
            }
        }
        i = i + 1;
    }
    proof {
        assert forall|a: int, b: int| 0 <= a < b < tiles@.len() implies tiles@[a] != tiles@[b] by {
            assert(cell_index(wi, cell(tiles@[a])) < cell_index(wi, cell(tiles@[b])));
        }
    }
    tiles
}

/// Inserting `x` after everything before it and before everything after it
/// keeps a sequence in ring order.
proof fn lemma_insert_in_order(o: (int, int), s: Seq<(usize, usize)>, p: int, x: (usize, usize))
    requires
        forall|a: int, b: int| 0 <= a < b < s.len() ==> ring_lt(o, cell(s[a]), cell(s[b])),
        0 <= p <= s.len(),
        forall|m: int| 0 <= m < p ==> ring_lt(o, cell(#[trigger] s[m]), cell(x)),
        p < s.len() ==> ring_lt(o, cell(x), cell(s[p])),
    ensures
        forall|a: int, b: int|
            0 <= a < b < s.insert(p, x).len() ==> ring_lt(o, cell(s.insert(p, x)[a]), cell(s.insert(p, x)[b])),
{
    let t = s.insert(p, x);
    assert forall|a: int, b: int| 0 <= a < b < t.len() implies ring_lt(o, cell(t[a]), cell(t[b])) by {
        if b < p {
            assert(t[a] == s[a] && t[b] == s[b]);
        } else if b == p {
            assert(t[a] == s[a] && t[b] == x);
        } else if a < p {
            assert(t[a] == s[a] && t[b] == s[b - 1]);
        } else if a == p {
            assert(t[a] == x && t[b] == s[b - 1]);
            if b - 1 > p {
                lemma_ring_trans(o, cell(x), cell(s[p]), cell(s[b - 1]));
            }
        } else {
            assert(t[a] == s[a - 1] && t[b] == s[b - 1]);
        }
    }
}

/// The tiles sorted into search order around `origin`.
fn sort_ring(origin: (usize, usize), tiles: &Vec<(usize, usize)>) -> (out: Vec<(usize, usize)>)
    requires
        origin.0 <= i32::MAX,
        origin.1 <= i32::MAX,
        forall|m: int| 0 <= m < tiles@.len() ==> (#[trigger] tiles@[m]).0 <= i32::MAX && tiles@[m].1 <= i32::MAX && cell(tiles@[m]) != cell(origin),
        forall|a: int, b: int| 0 <= a < b < tiles@.len() ==> tiles@[a] != tiles@[b],
    ensures
        out@.to_multiset() == tiles@.to_multiset(),
        forall|a: int, b: int| 0 <= a < b < out@.len() ==> ring_lt(cell(origin), cell(out@[a]), cell(out@[b])),
{
    let ghost o = cell(origin);
    let mut out: Vec<(usize, usize)> = Vec::new();
    let mut k: usize = 0;
    proof {
        assert(tiles@.take(0) =~= Seq::<(usize, usize)>::empty());
        assert(out@ =~= Seq::<(usize, usize)>::empty());
    }
    while k < tiles.len()
        invariant
            origin.0 <= i32::MAX,
            origin.1 <= i32::MAX,
            o == cell(origin),
            0 <= k <= tiles@.len(),
            forall|m: int| 0 <= m < tiles@.len() ==> (#[trigger] tiles@[m]).0 <= i32::MAX && tiles@[m].1 <= i32::MAX && cell(tiles@[m]) != o,
            forall|a: int, b: int| 0 <= a < b < tiles@.len() ==> tiles@[a] != tiles@[b],
            out@.to_multiset() == tiles@.take(k as int).to_multiset(),
            forall|m: int| 0 <= m < out@.len() ==> (#[trigger] out@[m]).0 <= i32::MAX && out@[m].1 <= i32::MAX && cell(out@[m]) != o,
            k < tiles@.len() ==> forall|m: int| 0 <= m < out@.len() ==> #[trigger] out@[m] != tiles@[k as int],
            forall|a: int, b: int| 0 <= a < b < out@.len() ==> ring_lt(o, cell(out@[a]), cell(out@[b])),
        decreases tiles@.len() - k,
    {
        let x = tiles[k];
        let mut p: usize = 0;
        while p < out.len() && !ring_less(origin, x, out[p])
            invariant
                origin.0 <= i32::MAX,
                origin.1 <= i32::MAX,
                o == cell(origin),
                x.0 <= i32::MAX,
                x.1 <= i32::MAX,
                cell(x) != o,
                forall|m: int| 0 <= m < out@.len() ==> (#[trigger] out@[m]).0 <= i32::MAX && out@[m].1 <= i32::MAX && cell(out@[m]) != o && out@[m] != x,
                0 <= p <= out@.len(),
                forall|m: int| 0 <= m < p ==> ring_lt(o, cell(#[trigger] out@[m]), cell(x)),
            decreases out@.len() - p,
        {
            proof {
                assert(cell(out@[p as int]) != cell(x));
                lemma_ring_total(o, cell(x), cell(out@[p as int]));
            }
            p = p + 1;
        }
        let ghost old_out = out@;
        proof {
            if p < out@.len() {
                assert(ring_lt(o, cell(x), cell(out@[p as int])));
            }
        }
        out.insert(p, x);
        proof {
            lemma_insert_in_order(o, old_out, p as int, x);
            vstd::seq_lib::to_multiset_insert(old_out, p as int, x);
            assert(tiles@.take(k + 1) =~= tiles@.take(k as int).push(x));
            vstd::seq_lib::to_multiset_build(tiles@.take(k as int), x);
            if k + 1 < tiles@.len() {
                let nx = tiles@[k + 1];
                assert forall|m: int| 0 <= m < out@.len() implies (#[trigger] out@[m]).0 <= i32::MAX && out@[m].1 <= i32::MAX && cell(out@[m]) != o && out@[m] != nx by {
                    if out@[m] == nx {
                        vstd::seq_lib::to_multiset_contains(out@, nx);
                        assert(out@.contains(nx));
                        vstd::seq_lib::to_multiset_contains(tiles@.take(k + 1), nx);
                        let q = choose|q: int| 0 <= q < k + 1 && #[trigger] tiles@.take(k + 1)[q] == nx;
                        assert(tiles@[q] == tiles@[k + 1]);
                    }
                    if m < p {
                        assert(out@[m] == old_out[m]);
                    } else if m > p {
                        assert(out@[m] == old_out[m - 1]);
                    }
                }
            } else {
                assert forall|m: int| 0 <= m < out@.len() implies (#[trigger] out@[m]).0 <= i32::MAX && out@[m].1 <= i32::MAX && cell(out@[m]) != o by {
                    if m < p {
                        assert(out@[m] == old_out[m]);
                    } else if m > p {
                        assert(out@[m] == old_out[m - 1]);
                    }
                }
            }
        }
        k = k + 1;
    }
    proof {
        assert(tiles@.take(k as int) =~= tiles@);
    }
    out
}

/// Tiles to investigate around `origin` while searching: walkable tiles
/// within Chebyshev `radius` reachable from `origin` without leaving that
/// radius, ordered ring by ring and then by bearing, excluding `origin`.
pub fn search_ring(map: &LevelMap, origin: (usize, usize), radius: i32) -> (out: Vec<(usize, usize)>)
    requires
        map.inv(),
        origin.0 < map.width,
        origin.1 < map.height,
        map.width <= i32::MAX,
        map.height <= i32::MAX,
    ensures
        forall|k: int|
            0 <= k < out@.len() ==> cell(#[trigger] out@[k]) != cell(origin) && linked(
                map.width as int,
                map.height as int,
                ring_mask(map, cell(origin), radius as int),
                cell(origin),
                cell(out@[k]),
            ),
        forall|t: (int, int)|
            t != cell(origin) && #[trigger] linked(
                map.width as int,
                map.height as int,
                ring_mask(map, cell(origin), radius as int),
                cell(origin),
                t,
            ) ==> listed(out@, t),
        forall|a: int, b: int|
            0 <= a < b < out@.len() ==> ring_lt(cell(origin), cell(out@[a]), cell(out@[b])),
{
    let (w, h) = (map.width, map.height);
    let ghost wi = w as int;
    let ghost hi = h as int;
    let ghost o = cell(origin);
    let ghost mask = ring_mask(map, o, radius as int);
    let reachable = flood_ring(map, origin, radius);
    let tiles = flagged_tiles(&reachable, w, h, origin);
    let out = sort_ring(origin, &tiles);
    proof {
        assert forall|m: int| 0 <= m < out@.len() implies cell(#[trigger] out@[m]) != o && linked(wi, hi, mask, o, cell(out@[m])) by {
            vstd::seq_lib::to_multiset_contains(out@, out@[m]);
            vstd::seq_lib::to_multiset_contains(tiles@, out@[m]);
            assert(out@.contains(out@[m]));
            let q = choose|q: int| 0 <= q < tiles@.len() && tiles@[q] == out@[m];
            let c = cell(tiles@[q]);
            lemma_cell_roundtrip(w, h, c);
            assert(reachable@[cell_index(wi, c)]);
        }
        assert forall|t: (int, int)| t != o && #[trigger] linked(wi, hi, mask, o, t) implies listed(out@, t) by {
            assert(closed_under_steps(wi, hi, mask, reachable@)) by {
                assert forall|a: (int, int), b: (int, int)|
                    #![trigger reachable@[cell_index(wi, a)], reachable@[cell_index(wi, b)]]
                    in_grid(wi, hi, a) && reachable@[cell_index(wi, a)] && adjacent(a, b) && passable(wi, hi, mask, b)
                        implies reachable@[cell_index(wi, b)] by {
                    lemma_cell_roundtrip(w, h, a);
                    lemma_cell_roundtrip(w, h, b);
                    assert(adjacent(index_cell(wi, cell_index(wi, a)), index_cell(wi, cell_index(wi, b))));
                }
            }
            lemma_cell_roundtrip(w, h, o);
            lemma_closed_contains_linked(wi, hi, mask, reachable@, o, t);
            lemma_linked_ends(wi, hi, mask, o, t);
            lemma_cell_roundtrip(w, h, t);
            let j = cell_index(wi, t);
            assert(index_cell(wi, j) == t);
            assert(reachable@[j]);
            let kt = choose|kt: int| 0 <= kt < tiles@.len() && cell(#[trigger] tiles@[kt]) == t;
            vstd::seq_lib::to_multiset_contains(out@, tiles@[kt]);
            vstd::seq_lib::to_multiset_contains(tiles@, tiles@[kt]);
            assert(tiles@.contains(tiles@[kt]));
            let m = choose|m: int| 0 <= m < out@.len() && out@[m] == tiles@[kt];
            assert(cell(out@[m]) == t);
        }
    }
    out
}

/// `(x, y)` is a floor tile of the map.
pub open spec fn walkable_at(map: &LevelMap, t: (usize, usize)) -> bool {
    t.0 < map.width && t.1 < map.height && map.tile(t.0 as int, t.1 as int) == Tile::Floor
}

/// Random draws tried before [`random_walkable`] falls back to a scan.
pub const RANDOM_TILE_TRIES: usize = 1_048_576;

/// Pick a uniformly random walkable tile. Draws are retried until one lands on
/// floor; after [`RANDOM_TILE_TRIES`] misses (vanishingly unlikely on a map
/// with any floor) the first floor tile in row-major order is taken instead.
pub fn random_walkable(map: &LevelMap, rng: &mut SmallRng) -> (t: (usize, usize))
    requires
        map.inv(),
        exists|x: usize, y: usize| #[trigger] walkable_at(map, (x, y)),
    ensures
        walkable_at(map, t),
{
    let mut tries: usize = 0;
    proof {
        let (x, y) = choose|x: usize, y: usize| #[trigger] walkable_at(map, (x, y));
        assert(map.width > 0 && map.height > 0);
    }
    while tries < RANDOM_TILE_TRIES
        invariant
            map.inv(),
            0 < map.width,
            0 < map.height,
        decreases RANDOM_TILE_TRIES - tries,
    {
        let x = gen_index(rng, 0, map.width);
        let y = gen_index(rng, 0, map.height);
        proof {
            lemma_index_in_range(map.width as int, map.height as int, (x as int, y as int));
        }
        if map.is_walkable(x, y) {
            return (x, y);
        }
        tries = tries + 1;
    }
    let mut y: usize = 0;
    while y < map.height
        invariant
            map.inv(),
            0 < map.width,
            forall|xx: usize, yy: usize| yy < y ==> !#[trigger] walkable_at(map, (xx, yy)),
            exists|x: usize, y: usize| #[trigger] walkable_at(map, (x, y)),
        decreases map.height - y,
    {
        let mut x: usize = 0;
        while x < map.width
            invariant
                map.inv(),
                0 < map.width,
                y < map.height,
                forall|xx: usize, yy: usize| (yy < y || (yy == y && xx < x)) ==> !#[trigger] walkable_at(map, (xx, yy)),
            decreases map.width - x,
        {
            proof {
                lemma_index_in_range(map.width as int, map.height as int, (x as int, y as int));
            }
            if map.is_walkable(x, y) {
                return (x, y);
            }
            x = x + 1;
        }
        y = y + 1;
    }
    proof {
        let (x, y) = choose|x: usize, y: usize| #[trigger] walkable_at(map, (x, y));
        assert(!walkable_at(map, (x, y)));
    }
    (0, 0)
}

} // verus!
