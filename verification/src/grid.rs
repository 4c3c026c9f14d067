//! The shared vocabulary of row-major tile grids: cells, 4-adjacency, the
//! in-bounds neighbour list, and walks over the cells a mask lets through.
//! Every search over a level (component labelling, corridor routing, guard
//! pathing) is specified against these definitions.

use vstd::prelude::*;

verus! {

/// A cell `(x, y)` lies inside a `w`×`h` grid.
pub open spec fn in_grid(w: int, h: int, t: (int, int)) -> bool {
    0 <= t.0 < w && 0 <= t.1 < h
}

/// Row-major index of a cell.
pub open spec fn cell_index(w: int, t: (int, int)) -> int {
    t.1 * w + t.0
}

/// The flag a row-major mask holds for `(x, y)`.
pub open spec fn mask_at(s: Seq<bool>, w: int, x: int, y: int) -> bool {
    s[y * w + x]
}

/// Two cells share an edge.
pub open spec fn adjacent(a: (int, int), b: (int, int)) -> bool {
    ||| (a.0 == b.0 && (a.1 == b.1 + 1 || b.1 == a.1 + 1))
    ||| (a.1 == b.1 && (a.0 == b.0 + 1 || b.0 == a.0 + 1))
}

/// A cell is inside the grid and marked open in the row-major mask `pass`.
pub open spec fn passable(w: int, h: int, pass: Seq<bool>, t: (int, int)) -> bool {
    in_grid(w, h, t) && pass[cell_index(w, t)]
}

/// `p` is a non-empty walk of edge-adjacent cells, every one passable.
pub open spec fn is_walk(w: int, h: int, pass: Seq<bool>, p: Seq<(int, int)>) -> bool {
    &&& p.len() > 0
    &&& forall|i: int| 0 <= i < p.len() ==> passable(w, h, pass, #[trigger] p[i])
    &&& forall|i: int| 0 <= i < p.len() - 1 ==> adjacent(#[trigger] p[i], p[i + 1])
}

/// Some walk over passable cells leads from `a` to `b`.
pub open spec fn linked(w: int, h: int, pass: Seq<bool>, a: (int, int), b: (int, int)) -> bool {
    exists|p: Seq<(int, int)>| #[trigger] is_walk(w, h, pass, p) && p[0] == a && p.last() == b
}

/// `a` comes before `b` in row-major order.
pub open spec fn row_major_lt(a: (int, int), b: (int, int)) -> bool {
    a.1 < b.1 || (a.1 == b.1 && a.0 < b.0)
}

/// The usize pair as a spec cell.
pub open spec fn cell(t: (usize, usize)) -> (int, int) {
    (t.0 as int, t.1 as int)
}

/// The in-bounds 4-neighbours of `(x, y)`, in the order left, right, up, down.
pub open spec fn neighbour_list(x: usize, y: usize, w: usize, h: usize) -> Seq<(usize, usize)> {
    let s0 = Seq::<(usize, usize)>::empty();
    let s1 = if x > 0 { s0.push(((x - 1) as usize, y)) } else { s0 };
    let s2 = if x + 1 < w { s1.push(((x + 1) as usize, y)) } else { s1 };
    let s3 = if y > 0 { s2.push((x, (y - 1) as usize)) } else { s2 };
    if y + 1 < h { s3.push((x, (y + 1) as usize)) } else { s3 }
}

/// The row-major index of an in-bounds cell is in range, and distinct cells
/// get distinct indices.
pub proof fn lemma_index_in_range(w: int, h: int, t: (int, int))
    requires
        in_grid(w, h, t),
    ensures
        0 <= cell_index(w, t) < w * h,
{
    assert(0 <= t.1 * w) by (nonlinear_arith)
        requires
            0 <= t.1,
            0 <= w,
    ;
    assert(t.1 * w + t.0 < w * h) by (nonlinear_arith)
        requires
            0 <= t.0 < w,
            0 <= t.1 < h,
    ;
}

/// An index in range names exactly one in-bounds cell.
pub proof fn lemma_index_unique(w: int, h: int, a: (int, int), b: (int, int))
    requires
        in_grid(w, h, a),
        in_grid(w, h, b),
        cell_index(w, a) == cell_index(w, b),
    ensures
        a == b,
{
    if a.1 < b.1 {
        assert(a.1 * w + w <= b.1 * w) by (nonlinear_arith)
            requires
                a.1 < b.1,
                0 <= w,
        ;
    } else if b.1 < a.1 {
        assert(b.1 * w + w <= a.1 * w) by (nonlinear_arith)
            requires
                b.1 < a.1,
                0 <= w,
        ;
    }
}

/// The cell at row-major index `i`.
pub open spec fn index_cell(w: int, i: int) -> (int, int) {
    (i % w, i / w)
}

/// Row-major indexing and its inverse agree.
pub proof fn lemma_index_cell(w: int, h: int, i: int)
    requires
        0 < w,
        0 <= i < w * h,
    ensures
        in_grid(w, h, index_cell(w, i)),
        cell_index(w, index_cell(w, i)) == i,
{
    assert(i == (i / w) * w + i % w && 0 <= i % w < w) by (nonlinear_arith)
        requires
            0 < w,
    ;
    assert(0 <= i / w < h) by (nonlinear_arith)
        requires
            0 < w,
            0 <= i < w * h,
    ;
}

/// The neighbour list holds exactly the in-bounds cells adjacent to `(x, y)`.
pub proof fn lemma_neighbour_list(x: usize, y: usize, w: usize, h: usize)
    ensures
        neighbour_list(x, y, w, h).len() <= 4,
        forall|k: int|
            0 <= k < neighbour_list(x, y, w, h).len() ==> {
                let n = #[trigger] neighbour_list(x, y, w, h)[k];
                &&& adjacent(cell((x, y)), cell(n))
                &&& (in_grid(w as int, h as int, cell((x, y))) ==> in_grid(
                    w as int,
                    h as int,
                    cell(n),
                ))
            },
        forall|u: (int, int)|
            in_grid(w as int, h as int, u) && adjacent(cell((x, y)), u) ==> exists|k: int|
                0 <= k < neighbour_list(x, y, w, h).len() && cell(
                    #[trigger] neighbour_list(x, y, w, h)[k],
                ) == u,
{
    let l = neighbour_list(x, y, w, h);
    assert forall|u: (int, int)|
        in_grid(w as int, h as int, u) && adjacent(cell((x, y)), u) implies exists|k: int|
            0 <= k < l.len() && cell(#[trigger] l[k]) == u by {
        let s0 = Seq::<(usize, usize)>::empty();
        let s1 = if x > 0 {
            s0.push(((x - 1) as usize, y))
        } else {
            s0
        };
        let s2 = if x + 1 < w {
            s1.push(((x + 1) as usize, y))
        } else {
            s1
        };
        let s3 = if y > 0 {
            s2.push((x, (y - 1) as usize))
        } else {
            s2
        };
        if u.0 == x - 1 {
            assert(cell(l[0]) == u);
        } else if u.0 == x + 1 {
            assert(cell(l[s1.len() as int]) == u);
        } else if u.1 == y - 1 {
            assert(cell(l[s2.len() as int]) == u);
        } else {
            assert(cell(l[s3.len() as int]) == u);
        }
    }
}

/// The in-bounds 4-neighbours of `(x, y)` in a `w`×`h` grid: left, right, up,
/// down, skipping any that fall off the edge.
pub fn neighbours4(x: usize, y: usize, w: usize, h: usize) -> (out: Vec<(usize, usize)>)
    ensures
        out@ == neighbour_list(x, y, w, h),
{
    let mut out: Vec<(usize, usize)> = Vec::with_capacity(4);
    if x > 0 {
        out.push((x - 1, y));
    }
    if x < usize::MAX && x + 1 < w {
        out.push((x + 1, y));
    }
    if y > 0 {
        out.push((x, y - 1));
    }
    if y < usize::MAX && y + 1 < h {
        out.push((x, y + 1));
    }
    out
}

/// A single passable cell is a walk to itself.
pub proof fn lemma_linked_refl(w: int, h: int, pass: Seq<bool>, a: (int, int))
    requires
        passable(w, h, pass, a),
    ensures
        linked(w, h, pass, a, a),
{
    let p = seq![a];
    assert(is_walk(w, h, pass, p));
}

/// A walk can be extended by one passable adjacent cell.
pub proof fn lemma_linked_step(
    w: int,
    h: int,
    pass: Seq<bool>,
    a: (int, int),
    b: (int, int),
    c: (int, int),
)
    requires
        linked(w, h, pass, a, b),
        adjacent(b, c),
        passable(w, h, pass, c),
    ensures
        linked(w, h, pass, a, c),
{
    let p = choose|p: Seq<(int, int)>| #[trigger] is_walk(w, h, pass, p) && p[0] == a && p.last() == b;
    let q = p.push(c);
    assert forall|i: int| 0 <= i < q.len() - 1 implies adjacent(#[trigger] q[i], q[i + 1]) by {
        if i < p.len() - 1 {
            assert(q[i] == p[i] && q[i + 1] == p[i + 1]);
        }
    }
    assert forall|i: int| 0 <= i < q.len() implies passable(w, h, pass, #[trigger] q[i]) by {
        if i < p.len() {
            assert(q[i] == p[i]);
        }
    }
    assert(is_walk(w, h, pass, q));
}

/// Walks run both ways.
pub proof fn lemma_linked_symm(w: int, h: int, pass: Seq<bool>, a: (int, int), b: (int, int))
    requires
        linked(w, h, pass, a, b),
    ensures
        linked(w, h, pass, b, a),
{
    let p = choose|p: Seq<(int, int)>| #[trigger] is_walk(w, h, pass, p) && p[0] == a && p.last() == b;
    let q = p.reverse();
    assert forall|i: int| 0 <= i < q.len() - 1 implies adjacent(#[trigger] q[i], q[i + 1]) by {
        let j = p.len() - 2 - i;
        assert(adjacent(p[j], p[j + 1]));
        assert(q[i] == p[j + 1] && q[i + 1] == p[j]);
    }
    assert forall|i: int| 0 <= i < q.len() implies passable(w, h, pass, #[trigger] q[i]) by {
        assert(q[i] == p[p.len() - 1 - i]);
    }
    assert(is_walk(w, h, pass, q));
    assert(q[0] == b && q.last() == a);
}

/// Walks compose.
pub proof fn lemma_linked_trans(
    w: int,
    h: int,
    pass: Seq<bool>,
    a: (int, int),
    b: (int, int),
    c: (int, int),
)
    requires
        linked(w, h, pass, a, b),
        linked(w, h, pass, b, c),
    ensures
        linked(w, h, pass, a, c),
    decreases 0int,
{
    let q = choose|q: Seq<(int, int)>| #[trigger] is_walk(w, h, pass, q) && q[0] == b && q.last() == c;
    lemma_linked_trans_along(w, h, pass, a, q, q.len() as int);
}

proof fn lemma_linked_trans_along(
    w: int,
    h: int,
    pass: Seq<bool>,
    a: (int, int),
    q: Seq<(int, int)>,
    n: int,
)
    requires
        is_walk(w, h, pass, q),
        linked(w, h, pass, a, q[0]),
        1 <= n <= q.len(),
    ensures
        linked(w, h, pass, a, q[n - 1]),
    decreases n,
{
    if n > 1 {
        lemma_linked_trans_along(w, h, pass, a, q, n - 1);
        assert(adjacent(q[n - 2], q[n - 1]));
        assert(passable(w, h, pass, q[n - 1]));
        lemma_linked_step(w, h, pass, a, q[n - 2], q[n - 1]);
    }
}

/// A linked pair are both passable.
pub proof fn lemma_linked_ends(w: int, h: int, pass: Seq<bool>, a: (int, int), b: (int, int))
    requires
        linked(w, h, pass, a, b),
    ensures
        passable(w, h, pass, a),
        passable(w, h, pass, b),
{
    let p = choose|p: Seq<(int, int)>| #[trigger] is_walk(w, h, pass, p) && p[0] == a && p.last() == b;
    assert(passable(w, h, pass, p[0]));
    assert(passable(w, h, pass, p[p.len() - 1]));
}

/// A mask `mark` is closed under stepping to passable neighbours.
pub open spec fn closed_under_steps(w: int, h: int, pass: Seq<bool>, mark: Seq<bool>) -> bool {
    forall|a: (int, int), b: (int, int)|
        #![trigger mark[cell_index(w, a)], mark[cell_index(w, b)]]
        in_grid(w, h, a) && mark[cell_index(w, a)] && adjacent(a, b) && passable(w, h, pass, b)
            ==> mark[cell_index(w, b)]
}

/// Any walk that starts inside a step-closed mask stays inside it.
pub proof fn lemma_closed_contains_linked(
    w: int,
    h: int,
    pass: Seq<bool>,
    mark: Seq<bool>,
    a: (int, int),
    b: (int, int),
)
    requires
        closed_under_steps(w, h, pass, mark),
        in_grid(w, h, a),
        mark[cell_index(w, a)],
        linked(w, h, pass, a, b),
    ensures
        mark[cell_index(w, b)],
{
    let p = choose|p: Seq<(int, int)>| #[trigger] is_walk(w, h, pass, p) && p[0] == a && p.last() == b;
    lemma_closed_walk_prefix(w, h, pass, mark, p, p.len() as int);
}

proof fn lemma_closed_walk_prefix(
    w: int,
    h: int,
    pass: Seq<bool>,
    mark: Seq<bool>,
    p: Seq<(int, int)>,
    n: int,
)
    requires
        closed_under_steps(w, h, pass, mark),
        is_walk(w, h, pass, p),
        in_grid(w, h, p[0]),
        mark[cell_index(w, p[0])],
        1 <= n <= p.len(),
    ensures
        mark[cell_index(w, p[n - 1])],
    decreases n,
{
    if n > 1 {
        lemma_closed_walk_prefix(w, h, pass, mark, p, n - 1);
        let a = p[n - 2];
        let b = p[n - 1];
        assert(adjacent(a, b));
        assert(passable(w, h, pass, a));
        assert(passable(w, h, pass, b));
        assert(mark[cell_index(w, a)] && mark[cell_index(w, b)]);
    }
}

/// Opening more cells keeps every walk: a walk over `a` is a walk over any
/// mask that lets through at least what `a` does.
pub proof fn lemma_linked_mono(w: int, h: int, a: Seq<bool>, b: Seq<bool>, s: (int, int), t: (int, int))
    requires
        linked(w, h, a, s, t),
        forall|i: int| 0 <= i < w * h && #[trigger] a[i] ==> b[i],
        0 <= w,
    ensures
        linked(w, h, b, s, t),
{
    let p = choose|p: Seq<(int, int)>| #[trigger] is_walk(w, h, a, p) && p[0] == s && p.last() == t;
    assert forall|i: int| 0 <= i < p.len() implies passable(w, h, b, #[trigger] p[i]) by {
        assert(passable(w, h, a, p[i]));
        lemma_index_in_range(w, h, p[i]);
    }
    assert(is_walk(w, h, b, p));
}

} // verus!
