//! Route-following state for guards and the decisions that pick where a guard
//! heads next: along its patrol loop, to a random tile, back to its post, or
//! round the ring of tiles it investigates while searching.

use vstd::prelude::*;

use rand::rngs::SmallRng;

use crate::level::map::LevelMap;

use super::path::{bfs_path, random_walkable, shortest_route, walkable_at};

verus! {

/// Tiles out from the last-seen position a searching guard investigates.
pub const SEARCH_RING_RADIUS: i32 = 3;

/// Progress along the current route: the waypoints being followed and the
/// index of the next one.
pub struct Navigation {
    pub path: Vec<(usize, usize)>,
    pub index: usize,
}

/// A patrolling guard's fixed loop of waypoints and the one it last headed
/// for.
pub struct PatrolRoute {
    pub waypoints: Vec<(usize, usize)>,
    pub index: usize,
}

/// The ring of tiles a searching guard investigates, and how many it has
/// headed for so far.
pub struct SearchPlan {
    pub points: Vec<(usize, usize)>,
    pub step: usize,
}

impl Navigation {
    /// A guard with nowhere to go.
    pub fn new() -> (n: Self)
        ensures
            n.path@.len() == 0,
            n.index == 0,
    {
        Navigation { path: Vec::new(), index: 0 }
    }
}

/// A route from `here` to `goal` exists: the guard is there already, or a
/// walk over walkable tiles joins them.
pub open spec fn reachable(map: &LevelMap, here: (usize, usize), goal: (usize, usize)) -> bool {
    here == goal || crate::grid::linked(
        map.width as int,
        map.height as int,
        super::path::walk_mask(map, crate::grid::cell(here)),
        crate::grid::cell(here),
        crate::grid::cell(goal),
    )
}

/// `after` is `before` re-aimed at `goal`: a fresh shortest route from
/// `here`, followed from its start, when one exists; otherwise unchanged.
pub open spec fn headed_for(
    map: &LevelMap,
    here: (usize, usize),
    goal: (usize, usize),
    before: Navigation,
    after: Navigation,
) -> bool {
    if reachable(map, here, goal) {
        after.index == 0 && shortest_route(map, here, goal, after.path@)
    } else {
        after.path@ == before.path@ && after.index == before.index
    }
}

/// Replace the followed route with a fresh shortest route from `here` to
/// `goal`; when no route exists the current one is kept.
pub fn repath(map: &LevelMap, nav: &mut Navigation, here: (usize, usize), goal: (usize, usize)) -> (found: bool)
    requires
        map.inv(),
        here.0 < map.width,
        here.1 < map.height,
    ensures
        found == reachable(map, here, goal),
        headed_for(map, here, goal, *old(nav), *final(nav)),
{
    match bfs_path(map, here, goal) {
        Some(path) => {
            nav.path = path;
            nav.index = 0;
            true
        },
        None => false,
    }
}

/// Head for the next tile of the search ring, wrapping round it, and count
/// the step. Does nothing with an empty ring.
pub fn next_search_goal(map: &LevelMap, here: (usize, usize), search: &mut SearchPlan, nav: &mut Navigation)
    requires
        map.inv(),
        here.0 < map.width,
        here.1 < map.height,
        old(search).step < usize::MAX,
    ensures
        old(search).points@.len() == 0 ==> *final(search) == *old(search) && *final(nav) == *old(nav),
        old(search).points@.len() > 0 ==> {
            let goal = old(search).points@[(old(search).step as int) % (old(search).points@.len() as int)];
            &&& final(search).points@ == old(search).points@
            &&& final(search).step == old(search).step + 1
            &&& headed_for(map, here, goal, *old(nav), *final(nav))
            &&& here == goal ==> final(nav).index == 0 && final(nav).path@.len() == 0
        },
{
    if search.points.len() == 0 {
        return;
    }
    let goal = search.points[search.step % search.points.len()];
    search.step = search.step + 1;
    repath(map, nav, here, goal);
    proof {
        if here == goal {
            let c = crate::grid::cell(here);
            let q = seq![c];
            crate::grid::lemma_index_in_range(map.width as int, map.height as int, c);
            assert(crate::grid::is_walk(map.width as int, map.height as int, super::path::walk_mask(map, c), q));
            assert(super::path::walk_between(map, q, c, c));
        }
    }
}

/// Begin investigating around `origin` (the last-seen tile, when it is on the
/// grid): the ring of reachable tiles within [`SEARCH_RING_RADIUS`] of it, in
/// search order, then head for the first.
pub fn begin_search(map: &LevelMap, here: (usize, usize), origin: Option<(usize, usize)>, search: &mut SearchPlan, nav: &mut Navigation)
    requires
        map.inv(),
        map.width <= i32::MAX,
        map.height <= i32::MAX,
        here.0 < map.width,
        here.1 < map.height,
        origin matches Some(o) ==> o.0 < map.width && o.1 < map.height,
    ensures
        final(search).step == if final(search).points@.len() > 0 { 1int } else { 0int },
        origin is None ==> final(search).points@.len() == 0,
        origin matches Some(o) ==> {
            &&& forall|k: int|
                0 <= k < final(search).points@.len() ==> crate::grid::cell(#[trigger] final(search).points@[k]) != crate::grid::cell(o)
                    && crate::grid::linked(
                    map.width as int,
                    map.height as int,
                    super::path::ring_mask(map, crate::grid::cell(o), SEARCH_RING_RADIUS as int),
                    crate::grid::cell(o),
                    crate::grid::cell(final(search).points@[k]),
                )
            &&& forall|t: (int, int)|
                t != crate::grid::cell(o) && #[trigger] crate::grid::linked(
                    map.width as int,
                    map.height as int,
                    super::path::ring_mask(map, crate::grid::cell(o), SEARCH_RING_RADIUS as int),
                    crate::grid::cell(o),
                    t,
                ) ==> crate::level::rooms::listed(final(search).points@, t)
            &&& forall|a: int, b: int|
                0 <= a < b < final(search).points@.len() ==> super::path::ring_lt(
                    crate::grid::cell(o),
                    crate::grid::cell(final(search).points@[a]),
                    crate::grid::cell(final(search).points@[b]),
                )
        },
        final(search).points@.len() == 0 ==> *final(nav) == *old(nav),
        final(search).points@.len() > 0 ==> headed_for(map, here, final(search).points@[0], *old(nav), *final(nav)),
{
    search.step = 0;
    search.points = match origin {
        Some(o) => super::path::search_ring(map, o, SEARCH_RING_RADIUS),
        None => Vec::new(),
    };
    next_search_goal(map, here, search, nav);
}

/// Advance a patrol to its next waypoint (cycling) and head there. Does
/// nothing with an empty route.
pub fn advance_patrol(map: &LevelMap, here: (usize, usize), nav: &mut Navigation, route: &mut PatrolRoute)
    requires
        map.inv(),
        here.0 < map.width,
        here.1 < map.height,
        old(route).index < usize::MAX,
    ensures
        final(route).waypoints@ == old(route).waypoints@,
        old(route).waypoints@.len() == 0 ==> final(route).index == old(route).index && *final(nav) == *old(nav),
        old(route).waypoints@.len() > 0 ==> {
            &&& final(route).index == (old(route).index + 1) % (old(route).waypoints@.len() as int)
            &&& headed_for(map, here, final(route).waypoints@[final(route).index as int], *old(nav), *final(nav))
        },
{
    if route.waypoints.len() == 0 {
        return;
    }
    route.index = (route.index + 1) % route.waypoints.len();
    let goal = route.waypoints[route.index];
    repath(map, nav, here, goal);
}

/// A wandering guard heads for a fresh random walkable tile.
pub fn wander_to(map: &LevelMap, here: (usize, usize), nav: &mut Navigation, rng: &mut SmallRng) -> (dest: (usize, usize))
    requires
        map.inv(),
        here.0 < map.width,
        here.1 < map.height,
        exists|x: usize, y: usize| #[trigger] walkable_at(map, (x, y)),
    ensures
        walkable_at(map, dest),
        headed_for(map, here, dest, *old(nav), *final(nav)),
{
    let dest = random_walkable(map, rng);
    repath(map, nav, here, dest);
    dest
}

/// A displaced static guard walks back to its post (when the post is on the
/// grid and the guard is not already there).
pub fn return_to_post(map: &LevelMap, here: (usize, usize), nav: &mut Navigation, post: Option<(usize, usize)>)
    requires
        map.inv(),
        here.0 < map.width,
        here.1 < map.height,
    ensures
        (post is None || post == Some(here)) ==> *final(nav) == *old(nav),
        post is Some && post != Some(here) ==> headed_for(map, here, post.unwrap(), *old(nav), *final(nav)),
{
    if let Some(p) = post {
        if p.0 != here.0 || p.1 != here.1 {
            repath(map, nav, here, p);
        }
    }
}

/// Ghost `a` is considered before ghost `b`: a newer loop first, and among
/// ghosts of the same loop, the one listed first.
pub open spec fn prey_before(loops: Seq<usize>, a: int, b: int) -> bool {
    loops[a] > loops[b] || (loops[a] == loops[b] && a < b)
}

/// The order in which guards consider ghosts as prey (after the live
/// player): by loop index, newest first, keeping listing order among equals.
/// `loops[i]` is ghost `i`'s loop index; the result lists each ghost once.
pub fn prey_order(loops: &Vec<usize>) -> (order: Vec<usize>)
    ensures
        order@.len() == loops@.len(),
        forall|k: int| 0 <= k < order@.len() ==> #[trigger] order@[k] < loops@.len(),
        forall|a: int, b: int| 0 <= a < b < order@.len() ==> order@[a] != order@[b],
        forall|a: int, b: int|
            0 <= a < b < order@.len() ==> prey_before(loops@, order@[a] as int, order@[b] as int),
{
    let mut order: Vec<usize> = Vec::new();
    let mut i: usize = 0;
    while i < loops.len()
        invariant
            0 <= i <= loops@.len(),
            order@.len() == i,
            forall|k: int| 0 <= k < order@.len() ==> #[trigger] order@[k] < i,
            forall|a: int, b: int| 0 <= a < b < order@.len() ==> order@[a] != order@[b],
            forall|a: int, b: int|
                0 <= a < b < order@.len() ==> prey_before(loops@, order@[a] as int, order@[b] as int),
        decreases loops@.len() - i,
    {
        let mut p: usize = 0;
        while p < order.len() && loops[order[p]] >= loops[i]
            invariant
                0 <= i < loops@.len(),
                order@.len() == i,
                forall|k: int| 0 <= k < order@.len() ==> #[trigger] order@[k] < i,
                0 <= p <= order@.len(),
                forall|q: int| 0 <= q < p ==> loops@[#[trigger] order@[q] as int] >= loops@[i as int],
            decreases order@.len() - p,
        {
            p = p + 1;
        }
        let ghost old_order = order@;
        order.insert(p, i);
        proof {
            assert forall|a: int, b: int| 0 <= a < b < order@.len() implies prey_before(loops@, order@[a] as int, order@[b] as int) by {
                if b < p {
                    assert(order@[a] == old_order[a] && order@[b] == old_order[b]);
                } else if b == p {
                    assert(order@[a] == old_order[a]);
                    assert(loops@[old_order[a] as int] >= loops@[i as int]);
                } else if a < p {
                    assert(order@[a] == old_order[a] && order@[b] == old_order[b - 1]);
                } else if a == p {
                    assert(order@[b] == old_order[b - 1]);
                    assert(loops@[old_order[p as int] as int] < loops@[i as int]);
                    if b - 1 > p {
                        assert(prey_before(loops@, old_order[p as int] as int, old_order[b - 1] as int));
                    }
                } else {
                    assert(order@[a] == old_order[a - 1] && order@[b] == old_order[b - 1]);
                }
            }
            assert forall|a: int, b: int| 0 <= a < b < order@.len() implies order@[a] != order@[b] by {
                if a == p {
                    assert(order@[b] == old_order[b - 1]);
                } else if b == p {
                    assert(order@[a] == old_order[a]);
                } else {
                    let a0 = if a < p { a } else { a - 1 };
                    let b0 = if b < p { b } else { b - 1 };
                    assert(order@[a] == old_order[a0] && order@[b] == old_order[b0]);
                }
            }
            assert forall|k: int| 0 <= k < order@.len() implies #[trigger] order@[k] < i + 1 by {
                if k < p {
                    assert(order@[k] == old_order[k]);
                } else if k > p {
                    assert(order@[k] == old_order[k - 1]);
                }
            }
        }
        i = i + 1;
    }
    order
}

} // verus!
