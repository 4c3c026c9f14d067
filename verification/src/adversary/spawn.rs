//! Guard placement against the things worth guarding: the patroller paces the
//! vault door's frontage, the static guard posts a few tiles off the code note
//! and watches it, the wanderer starts clear of the player's spawn. Each
//! objective-anchored placement degrades to a fallback when its landmark is
//! absent. Headings are integer directions across the floor plane, `dx` along
//! the grid's x axis and `dz` along its y axis.

use vstd::prelude::*;

use rand::rngs::SmallRng;

use crate::level::map::{LevelMap, Room, RoomKind, Tile};
use crate::rng::shuffle_tiles;

use super::path::{cheb, random_walkable, walkable_at};
use crate::grid::cell;

verus! {

/// Don't start a non-posted guard within this many tiles of the spawn.
pub const SPAWN_CLEARANCE: i32 = 8;

/// Waypoints a patrolling guard's fixed route cycles through.
pub const PATROL_WAYPOINTS: usize = 4;

/// Keep a patroller's waypoints within this tile radius of its spawn.
pub const PATROL_RADIUS: i32 = 10;

/// How far (in tiles) the static guard stands off the code note it watches.
pub const WATCH_DISTANCE: i32 = 3;

/// How far to each side of the vault door the patroller paces.
pub const VAULT_PATROL_SPAN: i32 = 3;

/// Random picks tried before a placement helper falls back to a scan.
pub const PLACEMENT_TRIES: usize = 65_536;

/// How a guard behaves while it hasn't yet locked onto a target.
#[derive(Clone, Copy, PartialEq, Eq, Debug, Structural)]
pub enum GuardKind {
    /// Holds a fixed post, sweeping its cone.
    Static,
    /// Walks a fixed seeded loop of waypoints.
    Patrolling,
    /// Roams to random reachable tiles.
    Wandering,
}

impl GuardKind {
    /// The kind's name, for labelling the guard.
    pub fn label(self) -> (s: &'static str)
        ensures
            s@ == match self {
                GuardKind::Static => "static"@,
                GuardKind::Patrolling => "patrolling"@,
                GuardKind::Wandering => "wandering"@,
            },
    {
        match self {
            GuardKind::Static => "static",
            GuardKind::Patrolling => "patrolling",
            GuardKind::Wandering => "wandering",
        }
    }
}

/// The roster of guards to spawn, by kind: one of each, in the order that
/// also indexes each guard's seeded stream.
pub fn guard_kinds() -> (v: Vec<GuardKind>)
    ensures
        v@ == seq![GuardKind::Static, GuardKind::Patrolling, GuardKind::Wandering],
{
    let v = vec![GuardKind::Static, GuardKind::Patrolling, GuardKind::Wandering];
    assert(v@ == seq![GuardKind::Static, GuardKind::Patrolling, GuardKind::Wandering]);
    v
}

/// A horizontal facing: the direction `(dx, dz)` across the floor plane,
/// never zero.
#[derive(Clone, Copy, PartialEq, Eq, Debug, Structural)]
pub struct Facing {
    pub dx: i64,
    pub dz: i64,
}

/// The facing used when there is nothing to look at: straight along +z.
pub open spec fn default_facing() -> Facing {
    Facing { dx: 0, dz: 1 }
}

/// The facing from tile `from` toward tile `to`, or the default when they
/// coincide.
pub open spec fn facing_between(from: (usize, usize), to: (usize, usize)) -> Facing {
    if from == to {
        default_facing()
    } else {
        Facing { dx: (to.0 - from.0) as i64, dz: (to.1 - from.1) as i64 }
    }
}

/// Tile coordinates small enough for signed 32-bit offsets.
pub open spec fn small_tile(t: (usize, usize)) -> bool {
    t.0 < 0x4000_0000 && t.1 < 0x4000_0000
}

/// A facing from one tile toward another (the default if they coincide).
pub fn face_toward(from: (usize, usize), to: (usize, usize)) -> (f: Facing)
    requires
        small_tile(from),
        small_tile(to),
    ensures
        f == facing_between(from, to),
{
    if from.0 == to.0 && from.1 == to.1 {
        Facing { dx: 0, dz: 1 }
    } else {
        Facing { dx: to.0 as i64 - from.0 as i64, dz: to.1 as i64 - from.1 as i64 }
    }
}

/// Chebyshev (king-move) tile distance.
pub fn chebyshev(a: (usize, usize), b: (usize, usize)) -> (d: i32)
    requires
        small_tile(a),
        small_tile(b),
    ensures
        d == super::path::cheb(crate::grid::cell(a), crate::grid::cell(b)),
{
    let dx0 = a.0 as i32 - b.0 as i32;
    let dy0 = a.1 as i32 - b.1 as i32;
    let dx = if dx0 < 0 { -dx0 } else { dx0 };
    let dy = if dy0 < 0 { -dy0 } else { dy0 };
    if dx > dy { dx } else { dy }
}

/// `tile` shifted by `delta`, if that stays on the grid.
pub open spec fn shifted(w: usize, h: usize, tile: (usize, usize), delta: (int, int)) -> Option<(usize, usize)> {
    let x = tile.0 + delta.0;
    let y = tile.1 + delta.1;
    if x < 0 || y < 0 || x >= w || y >= h {
        None
    } else {
        Some((x as usize, y as usize))
    }
}

/// `tile` shifted by a signed delta, or `None` if it leaves the grid.
pub fn offset(map: &LevelMap, tile: (usize, usize), delta: (i32, i32)) -> (r: Option<(usize, usize)>)
    requires
        small_tile(tile),
        -0x4000_0000 <= delta.0 <= 0x4000_0000,
        -0x4000_0000 <= delta.1 <= 0x4000_0000,
    ensures
        r == shifted(map.width, map.height, tile, (delta.0 as int, delta.1 as int)),
{
    let x = tile.0 as i32 + delta.0;
    let y = tile.1 as i32 + delta.1;
    if x < 0 || y < 0 || x as usize >= map.width || y as usize >= map.height {
        None
    } else {
        Some((x as usize, y as usize))
    }
}

/// Step `s` of walking from `from` along `dir` lands on open floor.
pub open spec fn face_step_ok(map: &LevelMap, from: (usize, usize), dir: (i32, i32), s: int) -> bool {
    match shifted(map.width, map.height, from, (dir.0 * s, dir.1 * s)) {
        Some(t) => walkable_at(map, t),
        None => false,
    }
}

/// Walking from `from` along `dir`, the first `k` steps all land on open floor
/// and (short of `max`) the next does not.
pub open spec fn face_reach(map: &LevelMap, from: (usize, usize), dir: (i32, i32), max: i32, k: int) -> bool {
    &&& 0 <= k <= max
    &&& forall|s: int| 1 <= s <= k ==> #[trigger] face_step_ok(map, from, dir, s)
    &&& k < max ==> !face_step_ok(map, from, dir, k + 1)
}

/// Step out from `from` along `dir`, returning the furthest contiguously
/// walkable tile reached within `max` steps (`from` itself if the first step
/// is blocked).
pub fn walk_face(map: &LevelMap, from: (usize, usize), dir: (i32, i32), max: i32) -> (last: (usize, usize))
    requires
        map.inv(),
        small_tile(from),
        -1 <= dir.0 <= 1,
        -1 <= dir.1 <= 1,
        0 <= max <= 0x1000_0000,
    ensures
        exists|k: int| #[trigger] face_reach(map, from, dir, max, k) && (if k == 0 {
            last == from
        } else {
            shifted(map.width, map.height, from, (dir.0 * k, dir.1 * k)) == Some(last)
        }),
{
    let mut last = from;
    let mut step: i32 = 1;
    while step <= max
        invariant
            map.inv(),
            small_tile(from),
            -1 <= dir.0 <= 1,
            -1 <= dir.1 <= 1,
            0 <= max <= 0x1000_0000,
            1 <= step <= max + 1,
            forall|s: int| 1 <= s < step ==> #[trigger] face_step_ok(map, from, dir, s),
            if step == 1 {
                last == from
            } else {
                shifted(map.width, map.height, from, (dir.0 * (step - 1), dir.1 * (step - 1))) == Some(last)
            },
        decreases max + 1 - step,
    {
        proof {
            assert(-step <= dir.0 * step <= step) by (nonlinear_arith)
                requires
                    -1 <= dir.0 <= 1,
                    step >= 1,
            ;
            assert(-step <= dir.1 * step <= step) by (nonlinear_arith)
                requires
                    -1 <= dir.1 <= 1,
                    step >= 1,
            ;
        }
        let o = offset(map, from, (dir.0 * step, dir.1 * step));
        match o {
            Some(t) => {
                proof {
                    crate::grid::lemma_index_in_range(map.width as int, map.height as int, (t.0 as int, t.1 as int));
                }
                if map.is_walkable(t.0, t.1) {
                    last = t;
                } else {
                    proof {
                        assert(face_reach(map, from, dir, max, step - 1));
                    }
                    return last;
                }
            },
            None => {
                proof {
                    assert(face_reach(map, from, dir, max, step - 1));
                }
                return last;
            },
        }
        step = step + 1;
    }
    proof {
        assert(face_reach(map, from, dir, max, max as int));
    }
    last
}

/// The eight standoff directions tried for the watch post: cardinals first,
/// then diagonals.
pub open spec fn watch_dirs_spec() -> Seq<(i32, i32)> {
    seq![(1i32, 0i32), (-1i32, 0i32), (0i32, 1i32), (0i32, -1i32), (1i32, 1i32), (1i32, -1i32), (-1i32, 1i32), (-1i32, -1i32)]
}

/// The standoff directions as a vector.
pub fn watch_dirs() -> (v: Vec<(i32, i32)>)
    ensures
        v@ == watch_dirs_spec(),
{
    let v = vec![(1i32, 0i32), (-1i32, 0i32), (0i32, 1i32), (0i32, -1i32), (1i32, 1i32), (1i32, -1i32), (-1i32, 1i32), (-1i32, -1i32)];
    assert(v@ == watch_dirs_spec());
    v
}

/// The tile [`WATCH_DISTANCE`] off `note` in standoff direction `k`.
pub open spec fn watch_spot(map: &LevelMap, note: (usize, usize), k: int) -> Option<(usize, usize)> {
    let d = watch_dirs_spec()[k];
    shifted(map.width, map.height, note, (d.0 * WATCH_DISTANCE, d.1 * WATCH_DISTANCE))
}

/// Standoff direction `k` lands on open floor.
pub open spec fn watch_ok(map: &LevelMap, note: (usize, usize), k: int) -> bool {
    match watch_spot(map, note, k) {
        Some(t) => walkable_at(map, t),
        None => false,
    }
}

/// `r` is the watch post for `note`: the first clear standoff (cardinals,
/// then diagonals) facing the note, or the note itself facing +z.
pub open spec fn watch_result(map: &LevelMap, note: (usize, usize), r: ((usize, usize), Facing)) -> bool {
    &&& forall|k: int|
        0 <= k < 8 && #[trigger] watch_ok(map, note, k) && (forall|j: int| 0 <= j < k ==> !watch_ok(map, note, j))
            ==> Some(r.0) == watch_spot(map, note, k) && r.1 == facing_between(r.0, note)
    &&& (forall|k: int| 0 <= k < 8 ==> !#[trigger] watch_ok(map, note, k)) ==> r == (note, default_facing())
}

/// A static guard's post for watching the code note: the first walkable tile
/// [`WATCH_DISTANCE`] off the note (cardinals, then diagonals), facing the
/// note; the note's own tile, facing +z, if none is clear.
pub fn watch_post(map: &LevelMap, note: (usize, usize)) -> (r: ((usize, usize), Facing))
    requires
        map.inv(),
        map.width < 0x4000_0000,
        map.height < 0x4000_0000,
        small_tile(note),
    ensures
        watch_result(map, note, r),
{
    let dirs = watch_dirs();
    let mut k: usize = 0;
    while k < dirs.len()
        invariant
            map.inv(),
            map.width < 0x4000_0000,
            map.height < 0x4000_0000,
            small_tile(note),
            dirs@ == watch_dirs_spec(),
            0 <= k <= 8,
            forall|j: int| 0 <= j < k ==> !#[trigger] watch_ok(map, note, j),
        decreases 8 - k,
    {
        let (dx, dy) = dirs[k];
        let o = offset(map, note, (dx * WATCH_DISTANCE, dy * WATCH_DISTANCE));
        if let Some(t) = o {
            proof {
                crate::grid::lemma_index_in_range(map.width as int, map.height as int, (t.0 as int, t.1 as int));
            }
            if map.is_walkable(t.0, t.1) {
                proof {
                    assert(watch_ok(map, note, k as int));
                    assert forall|kk: int|
                        0 <= kk < 8 && #[trigger] watch_ok(map, note, kk) && (forall|j: int| 0 <= j < kk ==> !watch_ok(map, note, j))
                            implies Some(t) == watch_spot(map, note, kk) by {
                        if kk < k {
                        } else if kk > k {
                            assert(!watch_ok(map, note, k as int));
                        }
                    }
                }
                return (t, face_toward(t, note));
            }
        }
        k = k + 1;
    }
    (note, Facing { dx: 0, dz: 1 })
}

/// Sign of an integer.
pub open spec fn sign(x: int) -> int {
    if x > 0 {
        1
    } else if x < 0 {
        -1
    } else {
        0
    }
}

/// Room `k` is the first vault with a doorway.
pub open spec fn first_vault(rooms: Seq<Room>, k: int) -> bool {
    &&& 0 <= k < rooms.len()
    &&& rooms[k].kind == RoomKind::Vault && rooms[k].doorway is Some
    &&& forall|j: int| 0 <= j < k ==> !(rooms[j].kind == RoomKind::Vault && rooms[j].doorway is Some)
}

/// Every room's footprint and doorway are small tiles.
pub open spec fn rooms_small(rooms: Seq<Room>) -> bool {
    forall|k: int|
        #![trigger rooms[k]]
        0 <= k < rooms.len() ==> rooms[k].rect.max_x < 0x4000_0000 && rooms[k].rect.max_y
            < 0x4000_0000 && rooms[k].rect.min_x <= rooms[k].rect.max_x && rooms[k].rect.min_y
            <= rooms[k].rect.max_y && (rooms[k].doorway matches Some(d) ==> small_tile(d))
}

/// The map's dimensions fit small tiles.
pub open spec fn dims_small(map: &LevelMap) -> bool {
    &&& map.width < 0x4000_0000
    &&& map.height < 0x4000_0000
}

/// The map's dimensions and rooms all fit small tiles.
pub open spec fn map_small(map: &LevelMap) -> bool {
    &&& dims_small(map)
    &&& rooms_small(map.room_list())
}

/// `t` ends a walk along the wall face from `from` in direction `dir`.
pub open spec fn face_end(map: &LevelMap, from: (usize, usize), dir: (i32, i32), t: (usize, usize)) -> bool {
    exists|k: int| #[trigger] face_reach(map, from, dir, VAULT_PATROL_SPAN, k) && (if k == 0 {
        t == from
    } else {
        shifted(map.width, map.height, from, (dir.0 * k, dir.1 * k)) == Some(t)
    })
}

/// The vault patroller's beat from the vault room `k`: the post one tile
/// outside its door (stepping away from the room's centre), a facing back at
/// the door, and a route pacing the door's frontage to either side.
pub open spec fn beat_of(map: &LevelMap, k: int, beat: ((usize, usize), Facing, Seq<(usize, usize)>)) -> bool {
    let room = map.room_list()[k];
    let door = room.doorway.unwrap();
    let cx = (room.rect.min_x + room.rect.max_x) / 2;
    let cy = (room.rect.min_y + room.rect.max_y) / 2;
    let out = (sign(door.0 - cx), sign(door.1 - cy));
    let perp = (-out.1, out.0);
    let (post, heading, route) = beat;
    &&& shifted(map.width, map.height, door, out) == Some(post)
    &&& walkable_at(map, post)
    &&& heading == facing_between(post, door)
    &&& ((route.len() == 2 && route[0] != route[1] && face_end(map, post, (perp.0 as i32, perp.1 as i32), route[0])
        && face_end(map, post, (-perp.0 as i32, -perp.1 as i32), route[1])) || (route == seq![post]
        && face_end(map, post, (perp.0 as i32, perp.1 as i32), post) && face_end(
        map,
        post,
        (-perp.0 as i32, -perp.1 as i32),
        post,
    )))
}

/// Two walks from one tile in opposite non-zero directions, at least one of
/// them taking a step, end on different tiles.
proof fn lemma_opposite_walks(
    fx: int,
    fy: int,
    a: int,
    b: int,
    kl: int,
    kr: int,
    lx: int,
    ly: int,
    rx: int,
    ry: int,
)
    requires
        -1 <= a <= 1,
        -1 <= b <= 1,
        a != 0 || b != 0,
        kl >= 0,
        kr >= 0,
        kl + kr > 0,
        lx == fx + a * kl,
        ly == fy + b * kl,
        rx == fx + (-a) * kr,
        ry == fy + (-b) * kr,
    ensures
        lx != rx || ly != ry,
{
    if a != 0 {
        assert(a * kl + a * kr != 0) by (nonlinear_arith)
            requires
                a == 1 || a == -1,
                kl >= 0,
                kr >= 0,
                kl + kr > 0,
        ;
        assert((-a) * kr == -(a * kr)) by (nonlinear_arith);
    } else {
        assert(b * kl + b * kr != 0) by (nonlinear_arith)
            requires
                b == 1 || b == -1,
                kl >= 0,
                kr >= 0,
                kl + kr > 0,
        ;
        assert((-b) * kr == -(b * kr)) by (nonlinear_arith);
    }
}

/// The vault patroller's beat: a post one tile outside the vault door, a
/// facing back at the door, and a route pacing the door's frontage to either
/// side. `None` when there is no vault with a doorway, or no open floor in
/// front of its door to stand on.
pub fn vault_beat(map: &LevelMap) -> (r: Option<((usize, usize), Facing, Vec<(usize, usize)>)>)
    requires
        map.inv(),
        map_small(map),
    ensures
        (forall|k: int| 0 <= k < map.room_list().len() ==> !(#[trigger] map.room_list()[k].kind == RoomKind::Vault
            && map.room_list()[k].doorway is Some)) ==> r is None,
        forall|k: int| #[trigger] first_vault(map.room_list(), k) ==> match r {
            Some(b) => beat_of(map, k, (b.0, b.1, b.2@)),
            None => {
                let room = map.room_list()[k];
                let door = room.doorway.unwrap();
                let cx = (room.rect.min_x + room.rect.max_x) / 2;
                let cy = (room.rect.min_y + room.rect.max_y) / 2;
                match shifted(map.width, map.height, door, (sign(door.0 - cx), sign(door.1 - cy))) {
                    Some(t) => !walkable_at(map, t),
                    None => true,
                }
            },
        },
{
    let rooms = map.rooms();
    let mut k: usize = 0;
    while k < rooms.len() && !(rooms[k].kind == RoomKind::Vault && rooms[k].doorway.is_some())
        invariant
            rooms@ == map.room_list(),
            0 <= k <= rooms@.len(),
            forall|j: int| 0 <= j < k ==> !(#[trigger] rooms@[j].kind == RoomKind::Vault && rooms@[j].doorway is Some),
        decreases rooms@.len() - k,
    {
        k = k + 1;
    }
    if k == rooms.len() {
        return None;
    }
    let ghost kk = k as int;
    proof {
        assert(first_vault(map.room_list(), kk));
        assert forall|j: int| #[trigger] first_vault(map.room_list(), j) implies j == kk by {
            if j < kk {
            } else if j > kk {
                assert(!(rooms@[kk].kind == RoomKind::Vault && rooms@[kk].doorway is Some));
            }
        }
        assert(rooms_small(map.room_list()));
        assert(small_tile(rooms@[kk].doorway.unwrap()));
    }
    let vault = &rooms[k];
    let door = vault.doorway.unwrap();
    let (cx, cy) = vault.rect.center();
    let ox0 = door.0 as i32 - cx as i32;
    let oy0 = door.1 as i32 - cy as i32;
    let ox: i32 = if ox0 > 0 { 1 } else if ox0 < 0 { -1 } else { 0 };
    let oy: i32 = if oy0 > 0 { 1 } else if oy0 < 0 { -1 } else { 0 };
    let front = match offset(map, door, (ox, oy)) {
        Some(t) => t,
        None => {
            return None;
        },
    };
    proof {
        crate::grid::lemma_index_in_range(map.width as int, map.height as int, (front.0 as int, front.1 as int));
    }
    if !map.is_walkable(front.0, front.1) {
        return None;
    }
    let (px, py) = (-oy, ox);
    let left = walk_face(map, front, (px, py), VAULT_PATROL_SPAN);
    let right = walk_face(map, front, (-px, -py), VAULT_PATROL_SPAN);
    let route = if left.0 == right.0 && left.1 == right.1 {
        proof {
            // Opposite walks meet only when both stayed at the post.
            let kl = choose|kl: int| #[trigger] face_reach(map, front, (px, py), VAULT_PATROL_SPAN, kl) && (if kl == 0 {
                left == front
            } else {
                shifted(map.width, map.height, front, (px * kl, py * kl)) == Some(left)
            });
            let kr = choose|kr: int| #[trigger] face_reach(map, front, ((-px) as i32, (-py) as i32), VAULT_PATROL_SPAN, kr) && (if kr == 0 {
                right == front
            } else {
                shifted(map.width, map.height, front, (((-px) as i32) * kr, ((-py) as i32) * kr)) == Some(right)
            });
            let (lx, ly, rx, ry) = (left.0 as int, left.1 as int, right.0 as int, right.1 as int);
            let (fx, fy) = (front.0 as int, front.1 as int);
            let (a, b) = (px as int, py as int);
            assert(a * 0 == 0 && b * 0 == 0) by (nonlinear_arith);
            if kl > 0 {
                assert(lx == fx + a * kl && ly == fy + b * kl);
            } else {
                assert(lx == fx + a * kl && ly == fy + b * kl);
            }
            assert(((-px) as i32) as int == -a && ((-py) as i32) as int == -b);
            assert(rx == fx + (-a) * kr && ry == fy + (-b) * kr);
            if (a != 0 || b != 0) && kl + kr > 0 {
                lemma_opposite_walks(fx, fy, a, b, kl, kr, lx, ly, rx, ry);
            } else if kl + kr == 0 {
                assert(a * kl == 0 && b * kl == 0) by (nonlinear_arith)
                    requires
                        kl == 0,
                ;
                assert(lx == fx && ly == fy);
            } else {
                assert(a * kl == 0 && b * kl == 0) by (nonlinear_arith)
                    requires
                        a == 0,
                        b == 0,
                ;
                assert(lx == fx && ly == fy);
            }
            assert(left == front);
        }
        vec![front]
    } else {
        vec![left, right]
    };
    let heading = face_toward(front, door);
    proof {
        let b = (front, heading, route@);
        assert(cx == (rooms@[kk].rect.min_x + rooms@[kk].rect.max_x) / 2);
        if route@.len() == 1 {
            assert(route@ == seq![front]);
        }
        assert(beat_of(map, kk, b));
    }
    Some((front, heading, route))
}

/// Room `k` has a doorway and lists `tile` among its tiles.
pub open spec fn door_room_holding(rooms: Seq<Room>, tile: (usize, usize), k: int) -> bool {
    rooms[k].doorway is Some && rooms[k].tiles@.contains(tile)
}

/// Room `k` is the first room with a doorway that holds `tile`.
pub open spec fn first_own_door(rooms: Seq<Room>, tile: (usize, usize), k: int) -> bool {
    &&& 0 <= k < rooms.len()
    &&& door_room_holding(rooms, tile, k)
    &&& forall|j: int| 0 <= j < k ==> !door_room_holding(rooms, tile, j)
}

/// Distance from `tile` to room `k`'s doorway.
pub open spec fn door_dist(rooms: Seq<Room>, tile: (usize, usize), k: int) -> int {
    cheb(cell(tile), cell(rooms[k].doorway.unwrap()))
}

/// Room `k`'s doorway is the first of the nearest doorways to `tile`.
pub open spec fn nearest_door(rooms: Seq<Room>, tile: (usize, usize), k: int) -> bool {
    &&& 0 <= k < rooms.len()
    &&& rooms[k].doorway is Some
    &&& forall|j: int|
        0 <= j < rooms.len() && rooms[j].doorway is Some ==> door_dist(rooms, tile, k) <= door_dist(
            rooms,
            tile,
            j,
        )
    &&& forall|j: int|
        0 <= j < k && rooms[j].doorway is Some ==> door_dist(rooms, tile, k) < door_dist(rooms, tile, j)
}

/// Face doorway `d` unless the guard stands on it; then face the spawn.
pub open spec fn face_door_or_spawn(tile: (usize, usize), d: (usize, usize), spawn: (usize, usize)) -> Facing {
    if d != tile {
        facing_between(tile, d)
    } else {
        facing_between(tile, spawn)
    }
}

/// Whether `tiles` holds `t`.
fn holds_tile(tiles: &Vec<(usize, usize)>, t: (usize, usize)) -> (b: bool)
    ensures
        b == tiles@.contains(t),
{
    let mut i: usize = 0;
    while i < tiles.len()
        invariant
            0 <= i <= tiles@.len(),
            forall|j: int| 0 <= j < i ==> tiles@[j] != t,
        decreases tiles@.len() - i,
    {
        if tiles[i].0 == t.0 && tiles[i].1 == t.1 {
            assert(tiles@[i as int] == t);
            return true;
        }
        i = i + 1;
    }
    false
}

/// `f` is the facing a guard posted on `tile` takes: toward the doorway of
/// the room it stands in, else the nearest doorway, else the spawn.
pub open spec fn facing_result(map: &LevelMap, tile: (usize, usize), spawn: (usize, usize), f: Facing) -> bool {
    &&& forall|k: int| #[trigger] first_own_door(map.room_list(), tile, k) ==> f == face_door_or_spawn(
        tile,
        map.room_list()[k].doorway.unwrap(),
        spawn,
    )
    &&& (forall|k: int| 0 <= k < map.room_list().len() ==> !#[trigger] door_room_holding(map.room_list(), tile, k))
        ==> forall|k: int| #[trigger] nearest_door(map.room_list(), tile, k) ==> f == face_door_or_spawn(
        tile,
        map.room_list()[k].doorway.unwrap(),
        spawn,
    )
    &&& (forall|k: int| 0 <= k < map.room_list().len() ==> (#[trigger] map.room_list()[k]).doorway is None)
        ==> f == facing_between(tile, spawn)
}

/// A facing for a posted static guard: toward the doorway of the room it
/// stands in, else the nearest doorway anywhere, else the player's spawn;
/// +z only when even the spawn is its own tile.
pub fn interesting_facing(map: &LevelMap, tile: (usize, usize), spawn: (usize, usize)) -> (f: Facing)
    requires
        map_small(map),
        small_tile(tile),
        small_tile(spawn),
    ensures
        facing_result(map, tile, spawn, f),
{
    let rooms = map.rooms();
    let ghost rs = map.room_list();
    // The doorway of the room this guard stands in, if any.
    let mut own: Option<(usize, usize)> = None;
    let mut i: usize = 0;
    while i < rooms.len() && own.is_none()
        invariant
            rooms@ == rs,
            0 <= i <= rs.len(),
            own is None ==> forall|j: int| 0 <= j < i ==> !#[trigger] door_room_holding(rs, tile, j),
            own matches Some(d) ==> exists|k: int| #[trigger] first_own_door(rs, tile, k) && rs[k].doorway == Some(d),
        decreases rs.len() - i,
    {
        if rooms[i].doorway.is_some() && holds_tile(&rooms[i].tiles, tile) {
            own = rooms[i].doorway;
            assert(first_own_door(rs, tile, i as int));
        }
        i = i + 1;
    }
    // Otherwise the closest doorway on the whole map.
    let mut nearest: Option<(usize, usize)> = None;
    let ghost mut nk: int = -1;
    let mut best: i32 = 0;
    let mut j: usize = 0;
    while j < rooms.len()
        invariant
            rooms@ == rs,
            rooms_small(rs),
            small_tile(tile),
            0 <= j <= rs.len(),
            nearest is None ==> forall|q: int| 0 <= q < j ==> (#[trigger] rs[q]).doorway is None,
            nearest matches Some(d) ==> {
                &&& 0 <= nk < j
                &&& rs[nk].doorway == Some(d)
                &&& best == door_dist(rs, tile, nk)
                &&& forall|q: int| 0 <= q < j && (#[trigger] rs[q]).doorway is Some ==> best <= door_dist(rs, tile, q)
                &&& forall|q: int| 0 <= q < nk && (#[trigger] rs[q]).doorway is Some ==> best < door_dist(rs, tile, q)
            },
        decreases rs.len() - j,
    {
        if let Some(d) = rooms[j].doorway {
            proof {
                assert(small_tile(d));
            }
            let dd = chebyshev(tile, d);
            if nearest.is_none() || dd < best {
                nearest = Some(d);
                best = dd;
                proof {
                    nk = j as int;
                }
            }
        }
        j = j + 1;
    }
    proof {
        if let Some(d) = nearest {
            assert(nearest_door(rs, tile, nk));
            assert forall|k: int| #[trigger] nearest_door(rs, tile, k) implies k == nk by {
                if k < nk {
                    assert(door_dist(rs, tile, nk) <= door_dist(rs, tile, k));
                } else if k > nk {
                    assert(door_dist(rs, tile, k) < door_dist(rs, tile, nk));
                }
            }
        }
        if let Some(d) = own {
            let k0 = choose|k: int| #[trigger] first_own_door(rs, tile, k) && rs[k].doorway == Some(d);
            assert forall|k: int| #[trigger] first_own_door(rs, tile, k) implies k == k0 by {
                if k < k0 {
                    assert(!door_room_holding(rs, tile, k));
                } else if k > k0 {
                    assert(!door_room_holding(rs, tile, k0));
                }
            }
        }
    }
    let choice = if own.is_some() { own } else { nearest };
    match choice {
        Some(d) => {
            proof {
                let k = if own.is_some() {
                    choose|k: int| #[trigger] first_own_door(rs, tile, k) && rs[k].doorway == Some(d)
                } else {
                    nk
                };
                assert(small_tile(rs[k].doorway.unwrap()));
            }
            if d.0 != tile.0 || d.1 != tile.1 {
                face_toward(tile, d)
            } else {
                face_toward(tile, spawn)
            }
        },
        None => face_toward(tile, spawn),
    }
}

/// Pick a random walkable tile within [`PATROL_RADIUS`] of `origin`; after
/// [`PLACEMENT_TRIES`] misses, `origin` itself (which is walkable).
pub fn near_tile(map: &LevelMap, rng: &mut SmallRng, origin: (usize, usize)) -> (t: (usize, usize))
    requires
        map.inv(),
        dims_small(map),
        walkable_at(map, origin),
    ensures
        walkable_at(map, t),
        cheb(cell(origin), cell(t)) <= PATROL_RADIUS,
{
    let mut tries: usize = 0;
    while tries < PLACEMENT_TRIES
        invariant
            map.inv(),
            dims_small(map),
            walkable_at(map, origin),
        decreases PLACEMENT_TRIES - tries,
    {
        let t = random_walkable(map, rng);
        if chebyshev(origin, t) <= PATROL_RADIUS {
            return t;
        }
        tries = tries + 1;
    }
    origin
}

/// `t` lies at least [`SPAWN_CLEARANCE`] tiles from `(sx, sy)` on some axis.
pub open spec fn far_from(t: (usize, usize), sx: int, sy: int) -> bool {
    super::path::abs_i(t.0 - sx) >= SPAWN_CLEARANCE || super::path::abs_i(t.1 - sy) >= SPAWN_CLEARANCE
}

/// Whether `t` lies clear of `(sx, sy)`.
fn is_far(t: (usize, usize), sx: i32, sy: i32) -> (b: bool)
    requires
        small_tile(t),
    ensures
        b == far_from(t, sx as int, sy as int),
{
    let dx0 = t.0 as i64 - sx as i64;
    let dy0 = t.1 as i64 - sy as i64;
    let dx = if dx0 < 0 { -dx0 } else { dx0 };
    let dy = if dy0 < 0 { -dy0 } else { dy0 };
    dx >= SPAWN_CLEARANCE as i64 || dy >= SPAWN_CLEARANCE as i64
}

/// Pick a random walkable tile at least [`SPAWN_CLEARANCE`] tiles from the
/// player's spawn on at least one axis; after [`PLACEMENT_TRIES`] misses, the
/// first such tile in row-major order.
pub fn far_tile(map: &LevelMap, rng: &mut SmallRng, sx: i32, sy: i32) -> (t: (usize, usize))
    requires
        map.inv(),
        dims_small(map),
        exists|x: usize, y: usize| #[trigger] walkable_at(map, (x, y)) && far_from((x, y), sx as int, sy as int),
    ensures
        walkable_at(map, t),
        far_from(t, sx as int, sy as int),
{
    let mut tries: usize = 0;
    while tries < PLACEMENT_TRIES
        invariant
            map.inv(),
            dims_small(map),
            exists|x: usize, y: usize| #[trigger] walkable_at(map, (x, y)) && far_from((x, y), sx as int, sy as int),
        decreases PLACEMENT_TRIES - tries,
    {
        let t = random_walkable(map, rng);
        if is_far(t, sx, sy) {
            return t;
        }
        tries = tries + 1;
    }
    match first_far_tile(map, sx, sy) {
        Some(t) => t,
        None => {
            proof {
                let (x, y) = choose|x: usize, y: usize| #[trigger] walkable_at(map, (x, y)) && far_from((x, y), sx as int, sy as int);
                assert(walkable_at(map, (x, y)) && far_from((x, y), sx as int, sy as int));
            }
            (0, 0)
        },
    }
}

/// The first walkable tile in row-major order lying at least
/// [`SPAWN_CLEARANCE`] tiles from `(sx, sy)` on some axis, if there is one.
pub fn first_far_tile(map: &LevelMap, sx: i32, sy: i32) -> (r: Option<(usize, usize)>)
    requires
        map.inv(),
        dims_small(map),
    ensures
        r is None <==> !exists|x: usize, y: usize| #[trigger] walkable_at(map, (x, y)) && far_from((x, y), sx as int, sy as int),
        r matches Some(t) ==> walkable_at(map, t) && far_from(t, sx as int, sy as int) && forall|x: usize, y: usize|
            (y < t.1 || (y == t.1 && x < t.0)) ==> !(#[trigger] walkable_at(map, (x, y)) && far_from((x, y), sx as int, sy as int)),
{
    let mut y: usize = 0;
    while y < map.height
        invariant
            map.inv(),
            dims_small(map),
            forall|xx: usize, yy: usize| yy < y ==> !(#[trigger] walkable_at(map, (xx, yy)) && far_from((xx, yy), sx as int, sy as int)),
        decreases map.height - y,
    {
        let mut x: usize = 0;
        while x < map.width
            invariant
                map.inv(),
                dims_small(map),
                y < map.height,
                forall|xx: usize, yy: usize| (yy < y || (yy == y && xx < x)) ==> !(#[trigger] walkable_at(map, (xx, yy)) && far_from((xx, yy), sx as int, sy as int)),
            decreases map.width - x,
        {
            proof {
                crate::grid::lemma_index_in_range(map.width as int, map.height as int, (x as int, y as int));
            }
            if map.is_walkable(x, y) && is_far((x, y), sx, sy) {
                assert(walkable_at(map, (x, y)) && far_from((x, y), sx as int, sy as int));
                return Some((x, y));
            }
            x = x + 1;
        }
        y = y + 1;
    }
    proof {
        assert forall|x: usize, y: usize| !(#[trigger] walkable_at(map, (x, y)) && far_from((x, y), sx as int, sy as int)) by {
            if y >= map.height {
                assert(!walkable_at(map, (x, y)));
            }
        }
    }
    None
}

/// Whether some walkable tile lies clear of the player's spawn, as
/// [`place_guard`] needs.
pub fn has_clear_tile(map: &LevelMap, spawn: (usize, usize)) -> (b: bool)
    requires
        map.inv(),
        dims_small(map),
        small_tile(spawn),
    ensures
        b == exists|x: usize, y: usize| #[trigger] walkable_at(map, (x, y)) && far_from((x, y), spawn.0 as int, spawn.1 as int),
{
    first_far_tile(map, spawn.0 as i32, spawn.1 as i32).is_some()
}

/// A fixed patrol loop: `start` plus random walkable tiles within
/// [`PATROL_RADIUS`] of it, chained nearest-first from `start` so the guard
/// walks a coherent local beat.
pub fn patrol_route(map: &LevelMap, rng: &mut SmallRng, start: (usize, usize)) -> (route: Vec<(usize, usize)>)
    requires
        map.inv(),
        dims_small(map),
        walkable_at(map, start),
    ensures
        route@.len() == PATROL_WAYPOINTS,
        route@[0] == start,
        forall|k: int| 0 <= k < route@.len() ==> walkable_at(map, #[trigger] route@[k]) && cheb(cell(start), cell(route@[k])) <= PATROL_RADIUS,
        forall|i: int, j: int|
            #![trigger route@[i], route@[j]]
            1 <= i < j < route@.len() ==> cheb(cell(route@[i - 1]), cell(route@[i])) <= cheb(cell(route@[i - 1]), cell(route@[j])),
{
    let mut pool: Vec<(usize, usize)> = Vec::with_capacity(PATROL_WAYPOINTS - 1);
    while pool.len() < PATROL_WAYPOINTS - 1
        invariant
            map.inv(),
            dims_small(map),
            walkable_at(map, start),
            pool@.len() <= PATROL_WAYPOINTS - 1,
            forall|k: int| 0 <= k < pool@.len() ==> walkable_at(map, #[trigger] pool@[k]) && cheb(cell(start), cell(pool@[k])) <= PATROL_RADIUS,
        decreases PATROL_WAYPOINTS - 1 - pool@.len(),
    {
        let t = near_tile(map, rng, start);
        pool.push(t);
    }
    // Greedily chain the nearest unvisited tile from where we are.
    let mut route: Vec<(usize, usize)> = Vec::with_capacity(PATROL_WAYPOINTS);
    route.push(start);
    let mut cur = start;
    while pool.len() > 0
        invariant
            map.inv(),
            dims_small(map),
            walkable_at(map, start),
            route@.len() + pool@.len() == PATROL_WAYPOINTS,
            route@.len() >= 1,
            route@[0] == start,
            cur == route@.last(),
            forall|k: int| 0 <= k < pool@.len() ==> walkable_at(map, #[trigger] pool@[k]) && cheb(cell(start), cell(pool@[k])) <= PATROL_RADIUS,
            forall|k: int| 0 <= k < route@.len() ==> walkable_at(map, #[trigger] route@[k]) && cheb(cell(start), cell(route@[k])) <= PATROL_RADIUS,
            forall|i: int, j: int|
                #![trigger route@[i], route@[j]]
                1 <= i < j < route@.len() ==> cheb(cell(route@[i - 1]), cell(route@[i])) <= cheb(cell(route@[i - 1]), cell(route@[j])),
            forall|i: int, m: int|
                #![trigger route@[i], pool@[m]]
                1 <= i < route@.len() && 0 <= m < pool@.len() ==> cheb(cell(route@[i - 1]), cell(route@[i])) <= cheb(cell(route@[i - 1]), cell(pool@[m])),
        decreases pool@.len(),
    {
        let mut bi: usize = 0;
        let mut bd = chebyshev(cur, pool[0]);
        let mut m: usize = 1;
        while m < pool.len()
            invariant
                dims_small(map),
                small_tile(cur),
                forall|k: int| 0 <= k < pool@.len() ==> walkable_at(map, #[trigger] pool@[k]),
                0 <= bi < m <= pool@.len(),
                bd == cheb(cell(cur), cell(pool@[bi as int])),
                forall|q: int| 0 <= q < m ==> bd <= cheb(cell(cur), cell(#[trigger] pool@[q])),
            decreases pool@.len() - m,
        {
            let d = chebyshev(cur, pool[m]);
            if d < bd {
                bi = m;
                bd = d;
            }
            m = m + 1;
        }
        let ghost old_pool = pool@;
        let ghost old_route = route@;
        let next = pool.swap_remove(bi);
        route.push(next);
        cur = next;
        proof {
            assert forall|q: int| 0 <= q < pool@.len() implies #[trigger] pool@[q] == old_pool[q] || pool@[q] == old_pool[old_pool.len() - 1] by {}
            assert forall|i: int, j: int|
                #![trigger route@[i], route@[j]]
                1 <= i < j < route@.len() implies cheb(cell(route@[i - 1]), cell(route@[i])) <= cheb(cell(route@[i - 1]), cell(route@[j])) by {
                if j == route@.len() - 1 {
                    assert(route@[j] == old_pool[bi as int]);
                    if i < old_route.len() {
                        assert(route@[i - 1] == old_route[i - 1] && route@[i] == old_route[i]);
                    }
                } else {
                    assert(route@[i - 1] == old_route[i - 1] && route@[i] == old_route[i] && route@[j] == old_route[j]);
                }
            }
            assert forall|i: int, mm: int|
                #![trigger route@[i], pool@[mm]]
                1 <= i < route@.len() && 0 <= mm < pool@.len() implies cheb(cell(route@[i - 1]), cell(route@[i])) <= cheb(cell(route@[i - 1]), cell(pool@[mm])) by {
                let src = if pool@[mm] == old_pool[mm] { mm } else { old_pool.len() - 1 };
                assert(pool@[mm] == old_pool[src]);
                if i < old_route.len() {
                    assert(route@[i - 1] == old_route[i - 1] && route@[i] == old_route[i]);
                } else {
                    assert(route@[i - 1] == old_route.last());
                }
            }
            assert forall|k: int| 0 <= k < pool@.len() implies walkable_at(map, #[trigger] pool@[k]) && cheb(cell(start), cell(pool@[k])) <= PATROL_RADIUS by {
                if pool@[k] == old_pool[k] {
                } else {
                    assert(pool@[k] == old_pool[old_pool.len() - 1]);
                }
            }
        }
    }
    route
}

/// The tiles of every Security room, room by room.
pub open spec fn security_tiles(rooms: Seq<Room>) -> Seq<(usize, usize)>
    decreases rooms.len(),
{
    if rooms.len() == 0 {
        Seq::empty()
    } else {
        security_tiles(rooms.drop_last()) + if rooms.last().kind == RoomKind::Security {
            rooms.last().tiles@
        } else {
            Seq::empty()
        }
    }
}

/// The Security room's tiles, shuffled: the pool from which fallback posts
/// for the static guard are handed out.
pub fn security_posts(map: &LevelMap, rng: &mut SmallRng) -> (posts: Vec<(usize, usize)>)
    ensures
        posts@.to_multiset() == security_tiles(map.room_list()).to_multiset(),
{
    let rooms = map.rooms();
    let mut posts: Vec<(usize, usize)> = Vec::new();
    let mut i: usize = 0;
    while i < rooms.len()
        invariant
            rooms@ == map.room_list(),
            0 <= i <= rooms@.len(),
            posts@ == security_tiles(rooms@.take(i as int)),
        decreases rooms@.len() - i,
    {
        let ghost before = posts@;
        if rooms[i].kind == RoomKind::Security {
            let mut j: usize = 0;
            while j < rooms[i].tiles.len()
                invariant
                    rooms@ == map.room_list(),
                    0 <= i < rooms@.len(),
                    0 <= j <= rooms@[i as int].tiles@.len(),
                    posts@ == before + rooms@[i as int].tiles@.take(j as int),
                decreases rooms@[i as int].tiles@.len() - j,
            {
                posts.push(rooms[i].tiles[j]);
                proof {
                    assert(rooms@[i as int].tiles@.take(j + 1) == rooms@[i as int].tiles@.take(j as int).push(rooms@[i as int].tiles@[j as int]));
                }
                j = j + 1;
            }
            proof {
                assert(rooms@[i as int].tiles@.take(j as int) == rooms@[i as int].tiles@);
            }
        }
        proof {
            assert(rooms@.take(i + 1).drop_last() == rooms@.take(i as int));
            assert(rooms@.take(i + 1).last() == rooms@[i as int]);
        }
        i = i + 1;
    }
    proof {
        assert(rooms@.take(i as int) == rooms@);
    }
    shuffle_tiles(rng, &mut posts);
    posts
}

/// Where a guard of `kind` starts and which way it faces (`None`: a random
/// heading, drawn by the caller). The static guard watches the code note when
/// there is one, else takes the next Security post (or a tile clear of the
/// spawn) facing something worth watching; the patroller stands at the vault
/// beat's post when there is a beat; otherwise a guard starts clear of the
/// spawn.
pub fn place_guard(
    map: &LevelMap,
    kind: GuardKind,
    spawn: (usize, usize),
    code: Option<(usize, usize)>,
    beat: &Option<((usize, usize), Facing, Vec<(usize, usize)>)>,
    posts: &Vec<(usize, usize)>,
    next_post: &mut usize,
    rng: &mut SmallRng,
) -> (r: ((usize, usize), Option<Facing>))
    requires
        map.inv(),
        map_small(map),
        small_tile(spawn),
        code matches Some(n) ==> small_tile(n),
        forall|k: int| 0 <= k < posts@.len() ==> small_tile(#[trigger] posts@[k]),
        exists|x: usize, y: usize| #[trigger] walkable_at(map, (x, y)) && far_from((x, y), spawn.0 as int, spawn.1 as int),
    ensures
        kind == GuardKind::Static && code is Some ==> r.1 is Some && watch_result(map, code.unwrap(), (r.0, r.1.unwrap())) && *final(next_post) == *old(next_post),
        kind == GuardKind::Static && code is None ==> {
            &&& r.1 is Some
            &&& facing_result(map, r.0, spawn, r.1.unwrap())
            &&& *old(next_post) < posts@.len() ==> r.0 == posts@[*old(next_post) as int] && *final(next_post) == *old(next_post) + 1
            &&& *old(next_post) >= posts@.len() ==> walkable_at(map, r.0) && far_from(r.0, spawn.0 as int, spawn.1 as int) && *final(next_post) == *old(next_post)
        },
        kind == GuardKind::Patrolling && beat is Some ==> r == (beat.unwrap().0, Some(beat.unwrap().1)) && *final(next_post) == *old(next_post),
        (kind == GuardKind::Patrolling && beat is None) || kind == GuardKind::Wandering ==> r.1 is None && walkable_at(map, r.0) && far_from(r.0, spawn.0 as int, spawn.1 as int) && *final(next_post) == *old(next_post),
{
    let (sx, sy) = (spawn.0 as i32, spawn.1 as i32);
    match kind {
        GuardKind::Static => match code {
            Some(note) => {
                let (t, f) = watch_post(map, note);
                (t, Some(f))
            },
            None => {
                let tile = if *next_post < posts.len() {
                    let t = posts[*next_post];
                    *next_post = *next_post + 1;
                    t
                } else {
                    let t = far_tile(map, rng, sx, sy);
                    t
                };
                (tile, Some(interesting_facing(map, tile, spawn)))
            },
        },
        GuardKind::Patrolling => match beat {
            Some(b) => (b.0, Some(b.1)),
            None => (far_tile(map, rng, sx, sy), None),
        },
        GuardKind::Wandering => (far_tile(map, rng, sx, sy), None),
    }
}

} // verus!
