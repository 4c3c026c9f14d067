//! Level sources: generators that produce a fully described [`Level`] from a
//! seed and the cavern noise sampled for it.
//!
//! [`NoiseSource`] builds pure noise caverns; [`HybridSource`] (the default)
//! stamps typed rooms into them. Both finish by carving the level into one
//! connected piece around the spawn.

use vstd::prelude::*;

use crate::grid::{cell, in_grid, lemma_index_in_range, linked};
use crate::rng::seeded_rng;

use super::connect::{all_floor_linked, boxed_in, carve_connect, floor_cell, only_carved};
use super::map::{LevelMap, RoomId, RoomKind, SpawnPoint, Tile, MAP_HEIGHT, MAP_WIDTH};
use super::noise::{border_mask, build_noise_map, find_central_floor, on_border};
use super::noise::{central_dist, is_floor_at};
use super::reach::{lemma_apart_gap, lemma_no_pocket, open_ground, rooms_in_margins, sealed_cover};
use super::rooms::{
    claims, covered_by_any, door_ok, near_any, door_at, lemma_apart_outside, lemma_map_cell, listed, lists_claim, map_cell, map_index,
    placed_per_plan, ring_guard_tile, room_plan, rooms_apart, specs_of, stamp_rooms,
    stands_in,
};

verus! {

/// A fully described level ready to be turned into resources and meshes.
pub struct Level {
    pub map: LevelMap,
    pub spawn: SpawnPoint,
}

/// `p` protects only the map border and the rings of the map's sealed rooms
/// (never a doorway).
pub open spec fn guards_only_rings(map: &LevelMap, p: Seq<bool>) -> bool {
    &&& p.len() == MAP_WIDTH * MAP_HEIGHT
    &&& forall|i: int|
        0 <= i < MAP_WIDTH * MAP_HEIGHT && #[trigger] p[i] ==> on_border(
            MAP_WIDTH as int,
            MAP_HEIGHT as int,
            map_cell(i).0,
            map_cell(i).1,
        ) || ring_guard_tile(map.room_list(), map_cell(i))
}

/// Every floor tile is joined to the spawn, unless some floor tile is cut off
/// from it by the border or sealed rings.
pub open spec fn joined_or_walled_off(level: &Level) -> bool {
    let s = cell(level.spawn.tile);
    ||| all_floor_linked(&level.map, s)
    ||| exists|p: Seq<bool>| guards_only_rings(&level.map, p) && #[trigger] boxed_in(&level.map, p, s)
}

/// What every level source delivers: a map-sized grid with the spawn on it,
/// joined into one piece around the spawn as far as protected walls allow.
pub open spec fn level_ok(level: &Level) -> bool {
    &&& level.map.inv()
    &&& level.map.tags_resolve()
    &&& level.map.width == MAP_WIDTH
    &&& level.map.height == MAP_HEIGHT
    &&& in_grid(MAP_WIDTH as int, MAP_HEIGHT as int, cell(level.spawn.tile))
    &&& joined_or_walled_off(level)
}

/// Produces a [`Level`] from a seed. `floor_noise[y * MAP_WIDTH + x]` says
/// whether the cavern noise sampled at tile `(x, y)` clears the floor
/// threshold.
pub trait LevelSource {
    fn build(&self, seed: u64, floor_noise: &Vec<bool>) -> (level: Level)
        requires
            floor_noise@.len() == MAP_WIDTH * MAP_HEIGHT,
        ensures
            level_ok(&level),
    ;
}

/// Pure noise caverns with no semantic rooms.
pub struct NoiseSource;

/// Noise caverns with typed rooms stamped in — the default.
pub struct HybridSource;

/// The noise at `(x, y)` clears the floor threshold off the border.
pub open spec fn noise_floor(floor_noise: Seq<bool>, x: int, y: int) -> bool {
    &&& 0 <= x < MAP_WIDTH
    &&& 0 <= y < MAP_HEIGHT
    &&& floor_noise[y * MAP_WIDTH + x]
    &&& !on_border(MAP_WIDTH as int, MAP_HEIGHT as int, x, y)
}

/// The tiles of the thresholded noise map: floor exactly at noise floor.
pub open spec fn noise_cells(floor_noise: Seq<bool>) -> Seq<Tile> {
    Seq::new(
        (MAP_WIDTH * MAP_HEIGHT) as nat,
        |i: int|
            if noise_floor(floor_noise, map_cell(i).0, map_cell(i).1) {
                Tile::Floor
            } else {
                Tile::Wall
            },
    )
}

/// The floor of the thresholded noise map, as a mask.
pub open spec fn noise_mask(floor_noise: Seq<bool>) -> Seq<bool> {
    noise_cells(floor_noise).map_values(|c: Tile| c == Tile::Floor)
}

/// Every noise floor tile is joined to `s` by a walk over noise floor.
pub open spec fn noise_joined(floor_noise: Seq<bool>, s: (int, int)) -> bool {
    forall|x: int, y: int|
        #[trigger] noise_floor(floor_noise, x, y) ==> linked(
            MAP_WIDTH as int,
            MAP_HEIGHT as int,
            noise_mask(floor_noise),
            s,
            (x, y),
        )
}

/// The map border, as a protection mask.
pub open spec fn border_flags() -> Seq<bool> {
    Seq::new(
        (MAP_WIDTH * MAP_HEIGHT) as nat,
        |i: int| on_border(MAP_WIDTH as int, MAP_HEIGHT as int, map_cell(i).0, map_cell(i).1),
    )
}

/// The noise floor is floor and the border is wall in `map`.
pub open spec fn keeps_noise_and_border(map: &LevelMap, floor_noise: Seq<bool>, kept: spec_fn((int, int)) -> bool) -> bool {
    &&& forall|x: int, y: int|
        #[trigger] noise_floor(floor_noise, x, y) && kept((x, y)) ==> map.tile(x, y) == Tile::Floor
    &&& forall|x: int, y: int|
        0 <= x < MAP_WIDTH && 0 <= y < MAP_HEIGHT && #[trigger] on_border(
            MAP_WIDTH as int,
            MAP_HEIGHT as int,
            x,
            y,
        ) ==> map.tile(x, y) == Tile::Wall
}

/// The thresholded noise map, and the border mask, as the generator builds
/// them.
proof fn lemma_noise_start(m0: &LevelMap, floor_noise: Seq<bool>, p: Seq<bool>)
    requires
        m0.width == MAP_WIDTH,
        m0.height == MAP_HEIGHT,
        m0.cells().len() == MAP_WIDTH * MAP_HEIGHT,
        floor_noise.len() == MAP_WIDTH * MAP_HEIGHT,
        forall|x: int, y: int|
            0 <= x < MAP_WIDTH && 0 <= y < MAP_HEIGHT ==> (#[trigger] m0.tile(x, y) == Tile::Floor
                <==> (floor_noise[y * MAP_WIDTH + x] && !on_border(MAP_WIDTH as int, MAP_HEIGHT as int, x, y))),
        p.len() == MAP_WIDTH * MAP_HEIGHT,
        forall|x: int, y: int|
            0 <= x < MAP_WIDTH && 0 <= y < MAP_HEIGHT ==> (crate::grid::mask_at(p, MAP_WIDTH as int, x, y)
                <==> on_border(MAP_WIDTH as int, MAP_HEIGHT as int, x, y)),
    ensures
        m0.cells() == noise_cells(floor_noise),
        m0.floor_mask() == noise_mask(floor_noise),
        p == border_flags(),
{
    assert forall|i: int| 0 <= i < MAP_WIDTH * MAP_HEIGHT implies m0.cells()[i] == noise_cells(floor_noise)[i]
        && p[i] == border_flags()[i] by {
        crate::grid::lemma_index_cell(MAP_WIDTH as int, MAP_HEIGHT as int, i);
        let t = map_cell(i);
        assert(m0.tile(t.0, t.1) == m0.cells()[i]);
        assert(crate::grid::mask_at(p, MAP_WIDTH as int, t.0, t.1) == p[i]);
        if m0.cells()[i] != Tile::Floor {
            assert(m0.cells()[i] == Tile::Wall);
        }
    }
    assert(m0.cells() =~= noise_cells(floor_noise));
    assert(p =~= border_flags());
    assert(m0.floor_mask() =~= noise_mask(floor_noise));
}

/// Carving a map that starts as the noise map, with the border protected,
/// keeps the noise floor (off `skip`) and the border wall.
proof fn lemma_carved_noise(
    map: &LevelMap,
    start: Seq<Tile>,
    floor_noise: Seq<bool>,
    p: Seq<bool>,
    kept: spec_fn((int, int)) -> bool,
)
    requires
        map.width == MAP_WIDTH,
        map.height == MAP_HEIGHT,
        only_carved(start, map.cells(), p),
        start.len() == MAP_WIDTH * MAP_HEIGHT,
        forall|i: int|
            0 <= i < MAP_WIDTH * MAP_HEIGHT && #[trigger] noise_cells(floor_noise)[i] == Tile::Floor
                && kept(map_cell(i)) ==> start[i] == Tile::Floor,
        forall|i: int|
            0 <= i < MAP_WIDTH * MAP_HEIGHT && #[trigger] border_flags()[i] ==> start[i] == Tile::Wall && p[i],
    ensures
        keeps_noise_and_border(map, floor_noise, kept),
{
    assert forall|x: int, y: int|
        #[trigger] noise_floor(floor_noise, x, y) && kept((x, y)) implies map.tile(x, y) == Tile::Floor by {
        let i = y * MAP_WIDTH + x;
        lemma_map_cell((x, y), i);
        assert(noise_cells(floor_noise)[i] == Tile::Floor);
        assert(start[i] == Tile::Floor);
    }
    assert forall|x: int, y: int|
        0 <= x < MAP_WIDTH && 0 <= y < MAP_HEIGHT && #[trigger] on_border(MAP_WIDTH as int, MAP_HEIGHT as int, x, y)
            implies map.tile(x, y) == Tile::Wall by {
        let i = y * MAP_WIDTH + x;
        lemma_map_cell((x, y), i);
        assert(border_flags()[i]);
    }
}

/// `t` is the noise floor tile closest to the grid centre (the first in
/// row-major order among equally close ones), or the centre when there is no
/// noise floor at all.
pub open spec fn central_pick(floor_noise: Seq<bool>, t: (usize, usize)) -> bool {
    let w = MAP_WIDTH as int;
    let h = MAP_HEIGHT as int;
    &&& (exists|x: int, y: int| #[trigger] noise_floor(floor_noise, x, y)) ==> {
        &&& noise_floor(floor_noise, t.0 as int, t.1 as int)
        &&& forall|x: int, y: int|
            #[trigger] noise_floor(floor_noise, x, y) ==> central_dist(w, h, t.0 as int, t.1 as int)
                <= central_dist(w, h, x, y)
        &&& forall|x: int, y: int|
            #[trigger] noise_floor(floor_noise, x, y) && (y < t.1 || (y == t.1 && x < t.0))
                ==> central_dist(w, h, t.0 as int, t.1 as int) < central_dist(w, h, x, y)
    }
    &&& !(exists|x: int, y: int| #[trigger] noise_floor(floor_noise, x, y)) ==> t == (
        MAP_WIDTH / 2,
        MAP_HEIGHT / 2,
    )
}

/// A mask that protects exactly the border guards only rings.
proof fn lemma_border_guards(map: &LevelMap, p: Seq<bool>)
    requires
        p.len() == MAP_WIDTH * MAP_HEIGHT,
        forall|x: int, y: int|
            0 <= x < MAP_WIDTH && 0 <= y < MAP_HEIGHT ==> (crate::grid::mask_at(p, MAP_WIDTH as int, x, y)
                <==> on_border(MAP_WIDTH as int, MAP_HEIGHT as int, x, y)),
    ensures
        guards_only_rings(map, p),
{
    assert forall|i: int| 0 <= i < MAP_WIDTH * MAP_HEIGHT && #[trigger] p[i] implies on_border(
        MAP_WIDTH as int,
        MAP_HEIGHT as int,
        map_cell(i).0,
        map_cell(i).1,
    ) || ring_guard_tile(map.room_list(), map_cell(i)) by {
        crate::grid::lemma_index_cell(MAP_WIDTH as int, MAP_HEIGHT as int, i);
        let t = map_cell(i);
        assert(crate::grid::mask_at(p, MAP_WIDTH as int, t.0, t.1) == p[i]);
    }
}

impl LevelSource for NoiseSource {
    fn build(&self, seed: u64, floor_noise: &Vec<bool>) -> (level: Level)
        ensures
            level.map.room_list().len() == 0,
            central_pick(floor_noise@, level.spawn.tile),
            keeps_noise_and_border(&level.map, floor_noise@, |t: (int, int)| true),
            only_carved(noise_cells(floor_noise@), level.map.cells(), border_flags()),
            noise_joined(floor_noise@, cell(level.spawn.tile)) ==> level.map.cells() == noise_cells(floor_noise@),
    {
        let mut map = build_noise_map(floor_noise);
        let start = find_central_floor(&map);
        let protected = border_mask();
        let ghost m0 = map;
        proof {
            assert forall|x: int, y: int| #[trigger] is_floor_at(&m0, x, y) <==> noise_floor(floor_noise@, x, y) by {
                if 0 <= x < MAP_WIDTH && 0 <= y < MAP_HEIGHT {
                    assert(m0.tile(x, y) == Tile::Floor <==> noise_floor(floor_noise@, x, y));
                }
            }
            assert forall|x: int, y: int| #[trigger] noise_floor(floor_noise@, x, y) implies is_floor_at(&m0, x, y) by {}
            if exists|x: int, y: int| #[trigger] noise_floor(floor_noise@, x, y) {
                let (x, y) = choose|x: int, y: int| #[trigger] noise_floor(floor_noise@, x, y);
                assert(is_floor_at(&m0, x, y));
            }
            if exists|x: int, y: int| #[trigger] is_floor_at(&m0, x, y) {
                let (x, y) = choose|x: int, y: int| #[trigger] is_floor_at(&m0, x, y);
                assert(noise_floor(floor_noise@, x, y));
            }
            assert(central_pick(floor_noise@, start));
            lemma_border_guards(&m0, protected@);
            lemma_noise_start(&m0, floor_noise@, protected@);
            let s = cell(start);
            if noise_joined(floor_noise@, s) {
                assert forall|t: (int, int)| #[trigger] floor_cell(&m0, t) implies crate::grid::linked(
                    MAP_WIDTH as int,
                    MAP_HEIGHT as int,
                    m0.floor_mask(),
                    s,
                    t,
                ) by {
                    assert(is_floor_at(&m0, t.0, t.1));
                    assert(noise_floor(floor_noise@, t.0, t.1));
                }
                assert(all_floor_linked(&m0, s));
            }
        }
        carve_connect(&mut map, &protected, start);
        let level = Level { map, spawn: SpawnPoint { tile: start } };
        proof {
            let s = cell(start);
            lemma_carved_noise(&level.map, m0.cells(), floor_noise@, protected@, |t: (int, int)| true);
            if floor_cell(&m0, s) {
                if !all_floor_linked(&level.map, s) {
                    assert(boxed_in(&level.map, protected@, s));
                    assert(guards_only_rings(&level.map, protected@));
                }
            } else {
                assert(is_floor_at(&m0, s.0, s.1) == floor_cell(&m0, s));
                assert forall|t: (int, int)| #[trigger] floor_cell(&level.map, t) implies crate::grid::linked(
                    MAP_WIDTH as int,
                    MAP_HEIGHT as int,
                    level.map.floor_mask(),
                    s,
                    t,
                ) by {
                    assert(is_floor_at(&m0, t.0, t.1));
                }
            }
            assert(level.map.tags_resolve());
        }
        level
    }
}

/// A stamped room is still whole in the finished map: every tile it claims is
/// floor tagged with its index, and a sealed room's ring is wall everywhere
/// but its doorway.
pub open spec fn room_intact(map: &LevelMap, k: int) -> bool {
    let room = map.room_list()[k];
    &&& forall|t: (int, int)|
        #[trigger] claims(room.kind, room.rect, t) ==> map.cells()[map_index(t)] == Tile::Floor
            && map.tags()[map_index(t)] == Some(RoomId(k as usize))
    &&& room.kind.is_sealed() ==> room.doorway is Some && forall|t: (int, int)|
        #[trigger] room.rect.on_perimeter(t) ==> (map.cells()[map_index(t)] == Tile::Floor
            <==> door_at(room, t))
}

impl LevelSource for HybridSource {
    fn build(&self, seed: u64, floor_noise: &Vec<bool>) -> (level: Level)
        ensures
            level.map.room_list().len() == room_plan().len(),
            forall|k: int|
                0 <= k < room_plan().len() ==> (#[trigger] level.map.room_list()[k]).kind
                    == room_plan()[k].0,
            cell(level.spawn.tile) == (
                (level.map.room_list()[2].rect.min_x + level.map.room_list()[2].rect.max_x) / 2,
                (level.map.room_list()[2].rect.min_y + level.map.room_list()[2].rect.max_y) / 2,
            ),
            floor_cell(&level.map, cell(level.spawn.tile)),
            rooms_apart(level.map.room_list()),
            forall|k: int| 0 <= k < room_plan().len() ==> #[trigger] room_intact(&level.map, k),
            forall|k: int|
                0 <= k < room_plan().len() ==> #[trigger] placed_per_plan(specs_of(level.map.room_list()), k),
            keeps_noise_and_border(
                &level.map,
                floor_noise@,
                |t: (int, int)| !covered_by_any(level.map.room_list(), t),
            ),
            all_floor_linked(&level.map, cell(level.spawn.tile)),
    {
        let mut rng = seeded_rng(seed);
        let mut map = build_noise_map(floor_noise);
        let mut protected = border_mask();
        let ghost prot_border = protected@;
        let ghost m_noise = map;
        proof {
            lemma_noise_start(&m_noise, floor_noise@, prot_border);
        }

        // Place and stamp the typed rooms, then tag their tiles.
        let rooms = stamp_rooms(&mut map, &mut protected, &mut rng);
        proof {
            assert(rooms_apart(rooms@));
            assert(forall|i: int|
                0 <= i < MAP_WIDTH * MAP_HEIGHT && !covered_by_any(rooms@, map_cell(i)) ==> #[trigger] map.cells()[i]
                    == m_noise.cells()[i] || map.cells()[i] == Tile::Floor);
            assert(forall|i: int|
                0 <= i < MAP_WIDTH * MAP_HEIGHT && !near_any(rooms@, map_cell(i)) ==> #[trigger] map.cells()[i]
                    == m_noise.cells()[i] && protected@[i] == prot_border[i]);
        }
        let ghost cells_s = map.cells();
        let ghost rs = rooms@;
        let ghost n = room_plan().len();
        proof {
            assert forall|k: int| #![trigger rs[k]] 0 <= k < n implies rs[k].rect.min_x >= 2 && rs[k].rect.min_y >= 2
                && rs[k].rect.max_x + 2 < MAP_WIDTH && rs[k].rect.max_y + 2 < MAP_HEIGHT
                && rs[k].kind == room_plan()[k].0 && rs[k].rect.ordered() by {
                assert(placed_per_plan(specs_of(rs), k));
                assert(specs_of(rs)[k].rect == rs[k].rect);
                assert(specs_of(rs)[k].kind == rs[k].kind);
            }
        }
        let mut i: usize = 0;
        while i < rooms.len()
            invariant
                rooms@ == rs,
                rs.len() == n,
                n == room_plan().len(),
                forall|k: int| #![trigger rs[k]] 0 <= k < n ==> rs[k].rect.min_x >= 2 && rs[k].rect.min_y >= 2
                    && rs[k].rect.max_x + 2 < MAP_WIDTH && rs[k].rect.max_y + 2 < MAP_HEIGHT
                    && rs[k].kind == room_plan()[k].0 && rs[k].rect.ordered(),
                forall|k: int|
                    0 <= k < n ==> lists_claim(
                        (#[trigger] rs[k]).tiles@,
                        rs[k].kind,
                        rs[k].rect,
                    ),
                0 <= i <= n,
                map.inv(),
                map.width == MAP_WIDTH,
                map.height == MAP_HEIGHT,
                map.cells() == cells_s,
                forall|j: int|
                    0 <= j < MAP_WIDTH * MAP_HEIGHT ==> (#[trigger] map.tags()[j] matches Some(id)
                        ==> id.0 < i),
                rooms_apart(rs),
                forall|k: int, t: (int, int)|
                    0 <= k < i && #[trigger] claims(rs[k].kind, rs[k].rect, t) ==> map.tags()[map_index(t)]
                        == Some(RoomId(k as usize)),
            decreases n - i,
        {
            let mut j: usize = 0;
            let ghost tags_i = map.tags();
            while j < rooms[i].tiles.len()
                invariant
                    rooms@ == rs,
                    rs.len() == n,
                    n == room_plan().len(),
                    0 <= i < n,
                    forall|k: int| #![trigger rs[k]] 0 <= k < n ==> rs[k].rect.min_x >= 2 && rs[k].rect.min_y >= 2
                        && rs[k].rect.max_x + 2 < MAP_WIDTH && rs[k].rect.max_y + 2 < MAP_HEIGHT
                        && rs[k].kind == room_plan()[k].0 && rs[k].rect.ordered(),
                    lists_claim(rs[i as int].tiles@, rs[i as int].kind, rs[i as int].rect),
                    0 <= j <= rs[i as int].tiles@.len(),
                    map.inv(),
                    map.width == MAP_WIDTH,
                    map.height == MAP_HEIGHT,
                    map.cells() == cells_s,
                    tags_i.len() == MAP_WIDTH * MAP_HEIGHT,
                    forall|q: int|
                        0 <= q < MAP_WIDTH * MAP_HEIGHT ==> #[trigger] map.tags()[q] == if listed(
                            rs[i as int].tiles@.take(j as int),
                            map_cell(q),
                        ) {
                            Some(RoomId(i))
                        } else {
                            tags_i[q]
                        },
                decreases rs[i as int].tiles@.len() - j,
            {
                let (x, y) = rooms[i].tiles[j];
                let ghost u = cell(rs[i as int].tiles@[j as int]);
                let ghost before = map.tags();
                proof {
                    assert(claims(rs[i as int].kind, rs[i as int].rect, u));
                    assert(rs[i as int].rect.covers(u));
                    lemma_index_in_range(MAP_WIDTH as int, MAP_HEIGHT as int, u);
                }
                map.assign_room(x, y, RoomId(i));
                proof {
                    let tj1 = rs[i as int].tiles@.take(j + 1);
                    let tj = rs[i as int].tiles@.take(j as int);
                    assert forall|q: int| 0 <= q < MAP_WIDTH * MAP_HEIGHT implies #[trigger] map.tags()[q]
                        == if listed(tj1, map_cell(q)) {
                        Some(RoomId(i))
                    } else {
                        tags_i[q]
                    } by {
                        lemma_map_cell(u, q);
                        let c = map_cell(q);
                        if c == u {
                            assert(tj1[j as int] == rs[i as int].tiles@[j as int]);
                        } else {
                            assert(map.tags()[q] == before[q]);
                            if listed(tj1, c) {
                                let kk = choose|kk: int| 0 <= kk < tj1.len() && cell(#[trigger] tj1[kk]) == c;
                                assert(kk != j);
                                assert(tj[kk] == tj1[kk]);
                            }
                            if listed(tj, c) {
                                let kk = choose|kk: int| 0 <= kk < tj.len() && cell(#[trigger] tj[kk]) == c;
                                assert(tj[kk] == tj1[kk]);
                            }
                        }
                    }
                }
                j = j + 1;
            }
            proof {
                let all = rs[i as int].tiles@;
                assert(all.take(j as int) == all);
                assert forall|q: int|
                    0 <= q < MAP_WIDTH * MAP_HEIGHT implies (#[trigger] map.tags()[q] matches Some(id)
                        ==> id.0 < i + 1) by {
                    if !listed(all, map_cell(q)) {
                        assert(map.tags()[q] == tags_i[q]);
                    }
                }
                {
                    assert forall|k: int, t: (int, int)|
                        0 <= k < i + 1 && #[trigger] claims(rs[k].kind, rs[k].rect, t) implies map.tags()[map_index(t)]
                            == Some(RoomId(k as usize)) by {
                        assert(in_grid(MAP_WIDTH as int, MAP_HEIGHT as int, t));
                        lemma_map_cell(t, map_index(t));
                        if k < i {
                            assert(!listed(all, t)) by {
                                if listed(all, t) {
                                    let kk = choose|kk: int| 0 <= kk < all.len() && cell(#[trigger] all[kk]) == t;
                                    assert(claims(rs[i as int].kind, rs[i as int].rect, cell(all[kk])));
                                    lemma_apart_outside(rs[k].rect, rs[i as int].rect, t);
                                }
                            }
                        } else {
                            assert(listed(all, t));
                        }
                    }
                }
            }
            i = i + 1;
        }

        // Spawn at the Start room's centre; connect everything from there.
        let mut found: Option<(usize, usize)> = None;
        let mut k: usize = 0;
        while k < rooms.len() && found.is_none()
            invariant
                rooms@ == rs,
                rs.len() == n,
                n == room_plan().len(),
                forall|q: int| #![trigger rs[q]] 0 <= q < n ==> rs[q].rect.min_x >= 2 && rs[q].rect.min_y >= 2
                    && rs[q].rect.max_x + 2 < MAP_WIDTH && rs[q].rect.max_y + 2 < MAP_HEIGHT
                    && rs[q].kind == room_plan()[q].0 && rs[q].rect.ordered(),
                0 <= k <= n,
                found is None ==> k <= 2,
                found matches Some(c) ==> cell(c) == (
                    (rs[2].rect.min_x + rs[2].rect.max_x) / 2,
                    (rs[2].rect.min_y + rs[2].rect.max_y) / 2,
                ),
            decreases n - k,
        {
            proof {
                assert(rs[k as int].kind == room_plan()[k as int].0);
            }
            if rooms[k].kind == RoomKind::Start {
                found = Some(rooms[k].rect.center());
            }
            k = k + 1;
        }
        let start = match found {
            Some(c) => c,
            None => find_central_floor(&map),
        };
        let ghost s = cell(start);
        proof {
            assert(rs[2].rect.covers(s));
            assert(cells_s[map_index(s)] == Tile::Floor);
            lemma_index_in_range(MAP_WIDTH as int, MAP_HEIGHT as int, s);
        }
        map.set_rooms(rooms);
        let ghost pre = map;
        proof {
            assert(floor_cell(&pre, s));
            assert(pre.tags_resolve());
        }
        carve_connect(&mut map, &protected, start);
        let level = Level { map, spawn: SpawnPoint { tile: start } };
        proof {
            let fm = level.map;
            assert(fm.room_list() == rs);
            assert forall|q: int| 0 <= q < n implies (#[trigger] fm.room_list()[q]).kind == room_plan()[q].0 by {
                assert(rs[q].kind == room_plan()[q].0);
            }
            assert(floor_cell(&fm, s)) by {
                assert(only_carved(pre.cells(), fm.cells(), protected@));
                assert(fm.cells()[map_index(s)] == pre.cells()[map_index(s)] || pre.cells()[map_index(s)] == Tile::Wall);
            }
            // The carver only ever stopped short at the border or a sealed ring.
            assert forall|q: int| 0 <= q < MAP_WIDTH * MAP_HEIGHT && #[trigger] protected@[q] implies on_border(
                MAP_WIDTH as int,
                MAP_HEIGHT as int,
                map_cell(q).0,
                map_cell(q).1,
            ) || ring_guard_tile(fm.room_list(), map_cell(q)) by {
                crate::grid::lemma_index_cell(MAP_WIDTH as int, MAP_HEIGHT as int, q);
                let t = map_cell(q);
                assert(crate::grid::mask_at(prot_border, MAP_WIDTH as int, t.0, t.1) == prot_border[q]);
            }
            assert(guards_only_rings(&fm, protected@));
            // Off the footprints the noise floor survives; the border stays wall.
            let kept = |t: (int, int)| !covered_by_any(fm.room_list(), t);
            assert forall|i: int|
                0 <= i < MAP_WIDTH * MAP_HEIGHT && #[trigger] noise_cells(floor_noise@)[i] == Tile::Floor && kept(
                    map_cell(i),
                ) implies cells_s[i] == Tile::Floor by {
                assert(m_noise.cells()[i] == Tile::Floor);
            }
            assert forall|i: int|
                0 <= i < MAP_WIDTH * MAP_HEIGHT && #[trigger] border_flags()[i] implies cells_s[i] == Tile::Wall
                    && protected@[i] by {
                let t = map_cell(i);
                crate::grid::lemma_index_cell(MAP_WIDTH as int, MAP_HEIGHT as int, i);
                assert(!near_any(rs, t)) by {
                    if near_any(rs, t) {
                        let k = choose|k: int|
                            0 <= k < rs.len() && (#[trigger] rs[k]).rect.min_x - 1 <= t.0 <= rs[k].rect.max_x + 1
                                && rs[k].rect.min_y - 1 <= t.1 <= rs[k].rect.max_y + 1;
                        assert(rs[k].rect.min_x >= 2 && rs[k].rect.min_y >= 2 && rs[k].rect.max_x + 2 < MAP_WIDTH
                            && rs[k].rect.max_y + 2 < MAP_HEIGHT);
                    }
                }
                assert(m_noise.cells()[i] == noise_cells(floor_noise@)[i]);
                assert(prot_border[i] == border_flags()[i]);
            }
            lemma_carved_noise(&fm, cells_s, floor_noise@, protected@, kept);
            // The rooms stand apart, so nothing is left walled off from the spawn.
            {
                assert(rooms_in_margins(pre.room_list()));
                assert forall|k: int| 0 <= k < n && (#[trigger] rs[k]).kind.is_sealed() implies rs[k].doorway
                    is Some && exists|a: (int, int)| door_ok(rs[k].rect, cell(rs[k].doorway.unwrap()), a) by {}
                assert forall|i: int|
                    0 <= i < MAP_WIDTH * MAP_HEIGHT && on_border(MAP_WIDTH as int, MAP_HEIGHT as int, map_cell(i).0, map_cell(i).1)
                        implies #[trigger] pre.cells()[i] == Tile::Wall by {
                    assert(border_flags()[i]);
                }
                assert(open_ground(rs, s)) by {
                    assert(rs[2].rect.covers(s));
                    assert(rs[2].kind == RoomKind::Start);
                    if sealed_cover(rs, s) {
                        let k = choose|k: int| 0 <= k < rs.len() && (#[trigger] rs[k]).kind.is_sealed() && rs[k].rect.covers(s);
                        lemma_apart_gap(rs, k, 2, s, s);
                    }
                }
                lemma_no_pocket(&pre, protected@, s);
                assert(all_floor_linked(&fm, s));
            }
            {
                assert forall|kk: int| 0 <= kk < n implies #[trigger] room_intact(&fm, kk) by {
                    let room = rs[kk];
                    assert(stands_in(cells_s, protected@, room));
                    assert forall|t: (int, int)| #[trigger] claims(room.kind, room.rect, t) implies fm.cells()[map_index(t)]
                        == Tile::Floor && fm.tags()[map_index(t)] == Some(RoomId(kk as usize)) by {
                        assert(in_grid(MAP_WIDTH as int, MAP_HEIGHT as int, t));
                        lemma_map_cell(t, map_index(t));
                        assert(pre.cells()[map_index(t)] == Tile::Floor);
                    }
                    if room.kind.is_sealed() {
                        assert(room.doorway is Some);
                        assert forall|t: (int, int)| #[trigger] room.rect.on_perimeter(t) implies (fm.cells()[map_index(t)]
                            == Tile::Floor <==> door_at(room, t)) by {
                            assert(in_grid(MAP_WIDTH as int, MAP_HEIGHT as int, t));
                            lemma_map_cell(t, map_index(t));
                            assert(pre.cells()[map_index(t)] == cells_s[map_index(t)]);
                        }
                    }
                }
            }
            assert(fm.tags_resolve());
        }
        level
    }
}

} // verus!
