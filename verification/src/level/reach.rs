//! Why a stamped level can always be joined up: off the border and the
//! sealed rooms' footprints, the open ground is one piece, and a sealed
//! room's interior opens onto it through its doorway. Walks here run over
//! any mask that lets those tiles through.

use vstd::prelude::*;

use crate::grid::{
    adjacent, cell, in_grid, lemma_linked_refl, lemma_linked_step, lemma_linked_symm, lemma_linked_trans, linked,
    passable,
};

use super::connect::{boxed_in, carve_mask, floor_cell};
use super::map::{LevelMap, Room, Tile, TileRect, MAP_HEIGHT, MAP_WIDTH};
use super::noise::on_border;
use super::rooms::{door_at, door_ok, lemma_map_cell, map_cell, map_index, ring_guard_tile, rooms_apart, stands_in, ROOM_PAD};

verus! {

/// Every room keeps two tiles clear of the border.
pub open spec fn rooms_in_margins(rooms: Seq<Room>) -> bool {
    forall|k: int|
        #![trigger rooms[k]]
        0 <= k < rooms.len() ==> rooms[k].rect.min_x >= 2 && rooms[k].rect.min_y >= 2 && rooms[k].rect.max_x
            + 2 < MAP_WIDTH && rooms[k].rect.max_y + 2 < MAP_HEIGHT && rooms[k].rect.ordered()
}

/// Some sealed room's footprint covers `t`.
pub open spec fn sealed_cover(rooms: Seq<Room>, t: (int, int)) -> bool {
    exists|k: int| 0 <= k < rooms.len() && (#[trigger] rooms[k]).kind.is_sealed() && rooms[k].rect.covers(t)
}

/// `t` is off the border and off every sealed footprint.
pub open spec fn open_ground(rooms: Seq<Room>, t: (int, int)) -> bool {
    &&& 1 <= t.0 <= MAP_WIDTH - 2
    &&& 1 <= t.1 <= MAP_HEIGHT - 2
    &&& !sealed_cover(rooms, t)
}

/// Two rooms that stand apart are never within a tile's diagonal step of
/// each other: no tile of one is next to, or diagonal to, a tile of another.
pub proof fn lemma_apart_gap(rooms: Seq<Room>, a: int, b: int, p: (int, int), q: (int, int))
    requires
        rooms_apart(rooms),
        rooms_in_margins(rooms),
        0 <= a < rooms.len(),
        0 <= b < rooms.len(),
        a != b,
        rooms[a].rect.covers(p),
        rooms[b].rect.covers(q),
    ensures
        p.0 - q.0 > 2 || q.0 - p.0 > 2 || p.1 - q.1 > 2 || q.1 - p.1 > 2,
{
    let ra = rooms[a].rect;
    let rb = rooms[b].rect;
    if a < b {
        assert(!rooms[a].rect.spec_intersects_padded(&rooms[b].rect, ROOM_PAD as int));
    } else {
        assert(!rooms[b].rect.spec_intersects_padded(&rooms[a].rect, ROOM_PAD as int));
    }
}

/// Every tile of the open ground is joined to `(1, 1)` over any mask that
/// lets the open ground through: step up or left, one of which always stays
/// on open ground.
pub proof fn lemma_open_ground_joined(rooms: Seq<Room>, pass: Seq<bool>, t: (int, int))
    requires
        rooms_apart(rooms),
        rooms_in_margins(rooms),
        forall|u: (int, int)| #[trigger] open_ground(rooms, u) ==> passable(MAP_WIDTH as int, MAP_HEIGHT as int, pass, u),
        open_ground(rooms, t),
    ensures
        linked(MAP_WIDTH as int, MAP_HEIGHT as int, pass, (1, 1), t),
    decreases t.0 + t.1,
{
    let (w, h) = (MAP_WIDTH as int, MAP_HEIGHT as int);
    if t == (1int, 1int) {
        lemma_linked_refl(w, h, pass, t);
    } else {
        let up = (t.0, t.1 - 1);
        let left = (t.0 - 1, t.1);
        if t.1 > 1 && open_ground(rooms, up) {
            lemma_open_ground_joined(rooms, pass, up);
            lemma_linked_step(w, h, pass, (1, 1), up, t);
        } else if t.0 > 1 && open_ground(rooms, left) {
            lemma_open_ground_joined(rooms, pass, left);
            lemma_linked_step(w, h, pass, (1, 1), left, t);
        } else {
            if t.1 == 1 {
                assert(open_ground(rooms, left)) by {
                    if sealed_cover(rooms, left) {
                        let k = choose|k: int|
                            0 <= k < rooms.len() && (#[trigger] rooms[k]).kind.is_sealed() && rooms[k].rect.covers(left);
                    }
                }
            } else if t.0 == 1 {
                assert(open_ground(rooms, up)) by {
                    if sealed_cover(rooms, up) {
                        let k = choose|k: int|
                            0 <= k < rooms.len() && (#[trigger] rooms[k]).kind.is_sealed() && rooms[k].rect.covers(up);
                    }
                }
            } else {
                let a = choose|k: int|
                    0 <= k < rooms.len() && (#[trigger] rooms[k]).kind.is_sealed() && rooms[k].rect.covers(up);
                let b = choose|k: int|
                    0 <= k < rooms.len() && (#[trigger] rooms[k]).kind.is_sealed() && rooms[k].rect.covers(left);
                if a == b {
                    assert(rooms[a].rect.covers(t));
                } else {
                    lemma_apart_gap(rooms, a, b, up, left);
                }
            }
        }
    }
}

/// The tile just inside doorway `d` of `rect`, given its approach `a`.
pub open spec fn inward(d: (int, int), a: (int, int)) -> (int, int) {
    (2 * d.0 - a.0, 2 * d.1 - a.1)
}

/// Every interior tile of a room with doorway `d` and approach `a` is joined
/// to the approach over any mask that lets the interior, doorway and
/// approach through.
pub proof fn lemma_interior_joined(rect: TileRect, d: (int, int), a: (int, int), pass: Seq<bool>, t: (int, int))
    requires
        door_ok(rect, d, a),
        forall|u: (int, int)| #[trigger] rect.interior(u) ==> passable(MAP_WIDTH as int, MAP_HEIGHT as int, pass, u),
        passable(MAP_WIDTH as int, MAP_HEIGHT as int, pass, d),
        passable(MAP_WIDTH as int, MAP_HEIGHT as int, pass, a),
        rect.interior(t),
    ensures
        linked(MAP_WIDTH as int, MAP_HEIGHT as int, pass, a, t),
    decreases (if t.0 >= inward(d, a).0 { t.0 - inward(d, a).0 } else { inward(d, a).0 - t.0 }) + (if t.1
        >= inward(d, a).1 {
        t.1 - inward(d, a).1
    } else {
        inward(d, a).1 - t.1
    }),
{
    let (w, h) = (MAP_WIDTH as int, MAP_HEIGHT as int);
    let i = inward(d, a);
    assert(rect.interior(i));
    if t == i {
        lemma_linked_refl(w, h, pass, a);
        lemma_linked_step(w, h, pass, a, a, d);
        lemma_linked_step(w, h, pass, a, d, i);
    } else {
        let prev = if t.0 < i.0 {
            (t.0 + 1, t.1)
        } else if t.0 > i.0 {
            (t.0 - 1, t.1)
        } else if t.1 < i.1 {
            (t.0, t.1 + 1)
        } else {
            (t.0, t.1 - 1)
        };
        assert(rect.interior(prev));
        lemma_interior_joined(rect, d, a, pass, prev);
        assert(adjacent(prev, t));
        lemma_linked_step(w, h, pass, a, prev, t);
    }
}

/// A stamped level whose rooms stand apart has no floor pocket a carve
/// cannot reach from an open-ground spawn: every floor tile is open ground,
/// a sealed room's doorway, or inside one, and all of those join up over
/// the tiles a carve may cross.
pub proof fn lemma_no_pocket(map: &LevelMap, prot: Seq<bool>, s: (int, int))
    requires
        map.inv(),
        map.width == MAP_WIDTH,
        map.height == MAP_HEIGHT,
        prot.len() == MAP_WIDTH * MAP_HEIGHT,
        rooms_apart(map.room_list()),
        rooms_in_margins(map.room_list()),
        forall|k: int|
            0 <= k < map.room_list().len() && (#[trigger] map.room_list()[k]).kind.is_sealed() ==> map.room_list()[k].doorway
                is Some && exists|a: (int, int)|
                door_ok(map.room_list()[k].rect, cell(map.room_list()[k].doorway.unwrap()), a),
        forall|k: int| 0 <= k < map.room_list().len() ==> stands_in(map.cells(), prot, #[trigger] map.room_list()[k]),
        forall|i: int|
            0 <= i < MAP_WIDTH * MAP_HEIGHT && #[trigger] prot[i] ==> on_border(
                MAP_WIDTH as int,
                MAP_HEIGHT as int,
                map_cell(i).0,
                map_cell(i).1,
            ) || ring_guard_tile(map.room_list(), map_cell(i)),
        forall|i: int|
            0 <= i < MAP_WIDTH * MAP_HEIGHT && on_border(MAP_WIDTH as int, MAP_HEIGHT as int, map_cell(i).0, map_cell(i).1)
                ==> #[trigger] map.cells()[i] == Tile::Wall,
        open_ground(map.room_list(), s),
    ensures
        !boxed_in(map, prot, s),
{
    let (w, h) = (MAP_WIDTH as int, MAP_HEIGHT as int);
    let rooms = map.room_list();
    let pass = carve_mask(map, prot, s);
    // Off the border and off every sealed ring, a carve may cross.
    assert forall|u: (int, int)|
        in_grid(w, h, u) && !on_border(w, h, u.0, u.1) && !ring_guard_tile(rooms, u) implies passable(w, h, pass, u) by {
        let i = map_index(u);
        lemma_map_cell(u, i);
        assert(map_cell(i) == u);
    }
    assert forall|u: (int, int)| #[trigger] open_ground(rooms, u) implies passable(w, h, pass, u) by {
        if ring_guard_tile(rooms, u) {
            let k = choose|k: int|
                0 <= k < rooms.len() && (#[trigger] rooms[k]).kind.is_sealed() && rooms[k].rect.on_perimeter(u)
                    && !door_at(rooms[k], u);
            assert(sealed_cover(rooms, u));
        }
    }
    lemma_open_ground_joined(rooms, pass, s);
    lemma_linked_symm(w, h, pass, (1, 1), s);
    assert forall|t: (int, int)| #[trigger] floor_cell(map, t) implies linked(w, h, pass, s, t) by {
        let i = map_index(t);
        lemma_map_cell(t, i);
        assert(map.cells()[i] == Tile::Floor);
        assert(!on_border(w, h, t.0, t.1));
        if open_ground(rooms, t) {
            lemma_open_ground_joined(rooms, pass, t);
        } else {
            let k = choose|k: int| 0 <= k < rooms.len() && (#[trigger] rooms[k]).kind.is_sealed() && rooms[k].rect.covers(t);
            let r = rooms[k];
            let d = cell(r.doorway.unwrap());
            let a = choose|a: (int, int)| door_ok(r.rect, d, a);
            assert(door_ok(r.rect, d, a));
            assert(stands_in(map.cells(), prot, r));
            // The approach is open ground; the doorway and interior may be crossed.
            assert(open_ground(rooms, a)) by {
                if sealed_cover(rooms, a) {
                    let k2 = choose|k2: int|
                        0 <= k2 < rooms.len() && (#[trigger] rooms[k2]).kind.is_sealed() && rooms[k2].rect.covers(a);
                    if k2 != k {
                        assert(r.rect.covers(d));
                        lemma_apart_gap(rooms, k, k2, d, a);
                    }
                }
            }
            lemma_open_ground_joined(rooms, pass, a);
            assert(passable(w, h, pass, d)) by {
                assert(r.rect.covers(d));
                if ring_guard_tile(rooms, d) {
                    let k2 = choose|k2: int|
                        0 <= k2 < rooms.len() && (#[trigger] rooms[k2]).kind.is_sealed() && rooms[k2].rect.on_perimeter(d)
                            && !door_at(rooms[k2], d);
                    if k2 != k {
                        lemma_apart_gap(rooms, k, k2, d, d);
                    }
                }
            }
            assert forall|u: (int, int)| #[trigger] r.rect.interior(u) implies passable(w, h, pass, u) by {
                assert(r.rect.covers(u));
                if ring_guard_tile(rooms, u) {
                    let k2 = choose|k2: int|
                        0 <= k2 < rooms.len() && (#[trigger] rooms[k2]).kind.is_sealed() && rooms[k2].rect.on_perimeter(u)
                            && !door_at(rooms[k2], u);
                    if k2 != k {
                        lemma_apart_gap(rooms, k, k2, u, u);
                    }
                }
            }
            assert(adjacent(a, d));
            lemma_linked_step(w, h, pass, (1, 1), a, d);
            if r.rect.on_perimeter(t) {
                assert(map.cells()[map_index(t)] == Tile::Floor);
                assert(door_at(r, t));
                assert(t == d);
            } else {
                assert(r.rect.interior(t));
                lemma_interior_joined(r.rect, d, a, pass, t);
                lemma_linked_trans(w, h, pass, (1, 1), a, t);
            }
        }
        lemma_linked_trans(w, h, pass, s, (1, 1), t);
    }
}

} // verus!
