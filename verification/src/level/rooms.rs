//! Room placement and stamping: choose footprints for every room kind that
//! keep clear of each other, then write them into the grid. Open rooms
//! overwrite floor only and merge with the cavern; sealed rooms also force a
//! protected wall ring with a single deliberate doorway.

use vstd::prelude::*;

use crate::grid::{cell, cell_index, in_grid, index_cell, lemma_index_cell, lemma_index_in_range, lemma_index_unique};
use crate::rng::{gen_index, gen_u32};
use rand::rngs::SmallRng;

use super::map::{LevelMap, Room, RoomKind, Tile, TileRect, MAP_HEIGHT, MAP_WIDTH};

verus! {

/// Tiles of separation kept between rooms, so sealed rings don't fuse and a
/// doorway's approach tile clears its neighbours.
pub const ROOM_PAD: usize = 2;

/// Distance rooms keep from the map border.
pub const ROOM_MARGIN: usize = 2;

/// Random placement attempts before falling back to a scan.
pub const SLOT_TRIES: usize = 400;

/// `t` is one of the listed tiles.
pub open spec fn listed(s: Seq<(usize, usize)>, t: (int, int)) -> bool {
    exists|k: int| 0 <= k < s.len() && cell(#[trigger] s[k]) == t
}

/// Every listed tile lies inside a `w`×`h` grid.
pub open spec fn all_in_grid(s: Seq<(usize, usize)>, w: int, h: int) -> bool {
    forall|k: int| 0 <= k < s.len() ==> in_grid(w, h, cell(#[trigger] s[k]))
}

/// Write `tile` onto every listed position; nothing else changes.
pub fn paint_tiles(map: &mut LevelMap, tiles: &Vec<(usize, usize)>, tile: Tile)
    requires
        old(map).inv(),
        0 < old(map).width,
        all_in_grid(tiles@, old(map).width as int, old(map).height as int),
    ensures
        final(map).inv(),
        final(map).width == old(map).width,
        final(map).height == old(map).height,
        final(map).tags() == old(map).tags(),
        final(map).room_list() == old(map).room_list(),
        forall|i: int|
            0 <= i < old(map).width * old(map).height ==> #[trigger] final(map).cells()[i] == if listed(
                tiles@,
                index_cell(old(map).width as int, i),
            ) {
                tile
            } else {
                old(map).cells()[i]
            },
{
    let ghost m0 = *map;
    let ghost w = map.width as int;
    let ghost h = map.height as int;
    let mut j: usize = 0;
    while j < tiles.len()
        invariant
            map.inv(),
            m0.inv(),
            w == map.width,
            h == map.height,
            w == m0.width,
            h == m0.height,
            0 < w,
            all_in_grid(tiles@, w, h),
            0 <= j <= tiles@.len(),
            map.tags() == m0.tags(),
            map.room_list() == m0.room_list(),
            forall|i: int|
                0 <= i < w * h ==> #[trigger] map.cells()[i] == if listed(
                    tiles@.take(j as int),
                    index_cell(w, i),
                ) {
                    tile
                } else {
                    m0.cells()[i]
                },
        decreases tiles@.len() - j,
    {
        let (x, y) = tiles[j];
        let ghost before = map.cells();
        let ghost t = cell(tiles@[j as int]);
        proof {
            assert(in_grid(w, h, t));
            lemma_index_in_range(w, h, t);
        }
        map.set(x, y, tile);
        proof {
            assert forall|i: int| 0 <= i < w * h implies #[trigger] map.cells()[i] == if listed(
                tiles@.take(j + 1),
                index_cell(w, i),
            ) {
                tile
            } else {
                m0.cells()[i]
            } by {
                lemma_index_cell(w, h, i);
                let u = index_cell(w, i);
                if u == t {
                    assert(tiles@.take(j + 1)[j as int] == tiles@[j as int]);
                    assert(i == cell_index(w, t));
                } else {
                    if i == cell_index(w, t) {
                        lemma_index_unique(w, h, u, t);
                    }
                    assert(map.cells()[i] == before[i]);
                    if listed(tiles@.take(j + 1), u) {
                        let k = choose|k: int| 0 <= k < j + 1 && cell(#[trigger] tiles@.take(j + 1)[k]) == u;
                        assert(k != j);
                        assert(tiles@.take(j as int)[k] == tiles@.take(j + 1)[k]);
                    }
                    if listed(tiles@.take(j as int), u) {
                        let k = choose|k: int| 0 <= k < j && cell(#[trigger] tiles@.take(j as int)[k]) == u;
                        assert(tiles@.take(j as int)[k] == tiles@.take(j + 1)[k]);
                    }
                }
            }
        }
        j = j + 1;
    }
    proof {
        assert(tiles@.take(j as int) == tiles@);
    }
}

/// Set `value` in the row-major mask at every listed position of a
/// `MAP_WIDTH`-wide grid; nothing else changes.
pub fn mark_tiles(protected: &mut Vec<bool>, tiles: &Vec<(usize, usize)>, value: bool)
    requires
        old(protected)@.len() == MAP_WIDTH * MAP_HEIGHT,
        all_in_grid(tiles@, MAP_WIDTH as int, MAP_HEIGHT as int),
    ensures
        final(protected)@.len() == MAP_WIDTH * MAP_HEIGHT,
        forall|i: int|
            0 <= i < MAP_WIDTH * MAP_HEIGHT ==> #[trigger] final(protected)@[i] == if listed(
                tiles@,
                index_cell(MAP_WIDTH as int, i),
            ) {
                value
            } else {
                old(protected)@[i]
            },
{
    let ghost p0 = protected@;
    let ghost w = MAP_WIDTH as int;
    let ghost h = MAP_HEIGHT as int;
    let mut j: usize = 0;
    while j < tiles.len()
        invariant
            w == MAP_WIDTH,
            h == MAP_HEIGHT,
            p0.len() == w * h,
            protected@.len() == w * h,
            all_in_grid(tiles@, w, h),
            0 <= j <= tiles@.len(),
            forall|i: int|
                0 <= i < w * h ==> #[trigger] protected@[i] == if listed(
                    tiles@.take(j as int),
                    index_cell(w, i),
                ) {
                    value
                } else {
                    p0[i]
                },
        decreases tiles@.len() - j,
    {
        let (x, y) = tiles[j];
        let ghost before = protected@;
        let ghost t = cell(tiles@[j as int]);
        proof {
            assert(in_grid(w, h, t));
            lemma_index_in_range(w, h, t);
        }
        protected.set(y * MAP_WIDTH + x, value);
        proof {
            assert forall|i: int| 0 <= i < w * h implies #[trigger] protected@[i] == if listed(
                tiles@.take(j + 1),
                index_cell(w, i),
            ) {
                value
            } else {
                p0[i]
            } by {
                lemma_index_cell(w, h, i);
                let u = index_cell(w, i);
                if u == t {
                    assert(tiles@.take(j + 1)[j as int] == tiles@[j as int]);
                    assert(i == cell_index(w, t));
                } else {
                    if i == cell_index(w, t) {
                        lemma_index_unique(w, h, u, t);
                    }
                    assert(protected@[i] == before[i]);
                    if listed(tiles@.take(j + 1), u) {
                        let k = choose|k: int| 0 <= k < j + 1 && cell(#[trigger] tiles@.take(j + 1)[k]) == u;
                        assert(k != j);
                        assert(tiles@.take(j as int)[k] == tiles@.take(j + 1)[k]);
                    }
                    if listed(tiles@.take(j as int), u) {
                        let k = choose|k: int| 0 <= k < j && cell(#[trigger] tiles@.take(j as int)[k]) == u;
                        assert(tiles@.take(j as int)[k] == tiles@.take(j + 1)[k]);
                    }
                }
            }
        }
        j = j + 1;
    }
    proof {
        assert(tiles@.take(j as int) == tiles@);
    }
}

/// A chosen footprint awaiting stamping.
#[derive(Clone, Copy, Debug)]
pub struct RoomSpec {
    pub kind: RoomKind,
    pub rect: TileRect,
}

/// The rooms every hybrid level contains, as `(kind, width, height)`. Critical
/// and sealed rooms come first so they win placement when space is tight; the
/// list holds exactly one Vault and one Security room.
pub open spec fn room_plan() -> Seq<(RoomKind, usize, usize)> {
    seq![
        (RoomKind::Vault, 6usize, 6usize),
        (RoomKind::Security, 5usize, 5usize),
        (RoomKind::Start, 5usize, 5usize),
        (RoomKind::Lobby, 9usize, 7usize),
        (RoomKind::GameTables, 9usize, 7usize),
        (RoomKind::Service, 6usize, 5usize),
    ]
}

/// The room plan as a vector.
pub fn room_plan_list() -> (v: Vec<(RoomKind, usize, usize)>)
    ensures
        v@ == room_plan(),
{
    let v = vec![
        (RoomKind::Vault, 6usize, 6usize),
        (RoomKind::Security, 5usize, 5usize),
        (RoomKind::Start, 5usize, 5usize),
        (RoomKind::Lobby, 9usize, 7usize),
        (RoomKind::GameTables, 9usize, 7usize),
        (RoomKind::Service, 6usize, 5usize),
    ];
    assert(v@ == room_plan());
    v
}

/// The `w`×`h` footprint whose top-left tile is `(x, y)`.
pub open spec fn slot_rect(x: usize, y: usize, w: usize, h: usize) -> TileRect {
    TileRect { min_x: x, min_y: y, max_x: (x + w - 1) as usize, max_y: (y + h - 1) as usize }
}

/// A `w`×`h` footprint at `(x, y)` keeps [`ROOM_MARGIN`] tiles off the border.
pub open spec fn in_margins(x: usize, y: usize, w: usize, h: usize) -> bool {
    &&& ROOM_MARGIN <= x
    &&& x + w + ROOM_MARGIN <= MAP_WIDTH
    &&& ROOM_MARGIN <= y
    &&& y + h + ROOM_MARGIN <= MAP_HEIGHT
}

/// No placed room, grown by [`ROOM_PAD`], overlaps `r`.
pub open spec fn clear_of(placed: Seq<RoomSpec>, r: TileRect) -> bool {
    forall|k: int|
        0 <= k < placed.len() ==> !(#[trigger] placed[k]).rect.spec_intersects_padded(
            &r,
            ROOM_PAD as int,
        )
}

/// Every footprint in the margins collides with a placed room.
pub open spec fn no_slot(placed: Seq<RoomSpec>, w: usize, h: usize) -> bool {
    forall|x: usize, y: usize|
        in_margins(x, y, w, h) ==> !clear_of(placed, #[trigger] slot_rect(x, y, w, h))
}

/// Every placed footprint lies inside the map.
pub open spec fn placed_in_map(placed: Seq<RoomSpec>) -> bool {
    forall|k: int|
        0 <= k < placed.len() ==> (#[trigger] placed[k]).rect.max_x < MAP_WIDTH
            && placed[k].rect.max_y < MAP_HEIGHT
}

/// Whether `rect` keeps clear of every placed room.
fn is_clear(placed: &Vec<RoomSpec>, rect: &TileRect) -> (b: bool)
    requires
        placed_in_map(placed@),
    ensures
        b == clear_of(placed@, *rect),
{
    let mut k: usize = 0;
    while k < placed.len()
        invariant
            placed_in_map(placed@),
            0 <= k <= placed@.len(),
            forall|j: int|
                0 <= j < k ==> !(#[trigger] placed@[j]).rect.spec_intersects_padded(
                    rect,
                    ROOM_PAD as int,
                ),
        decreases placed@.len() - k,
    {
        if placed[k].rect.intersects_padded(rect, ROOM_PAD) {
            return false;
        }
        k = k + 1;
    }
    true
}

/// Find a `w`×`h` footprint that clears all `placed` rooms: random tries first
/// (for variety), then a row-by-row scan that finds one whenever any exists.
pub fn find_slot(rng: &mut SmallRng, placed: &Vec<RoomSpec>, w: usize, h: usize) -> (r: Option<
    TileRect,
>)
    requires
        1 <= w <= MAP_WIDTH - 2 * ROOM_MARGIN,
        1 <= h <= MAP_HEIGHT - 2 * ROOM_MARGIN,
        placed_in_map(placed@),
    ensures
        r matches Some(rect) ==> rect == slot_rect(rect.min_x, rect.min_y, w, h) && in_margins(
            rect.min_x,
            rect.min_y,
            w,
            h,
        ) && clear_of(placed@, rect),
        r is None ==> no_slot(placed@, w, h),
{
    let max_x0 = MAP_WIDTH - ROOM_MARGIN - w;
    let max_y0 = MAP_HEIGHT - ROOM_MARGIN - h;
    let mut attempt: usize = 0;
    while attempt < SLOT_TRIES
        invariant
            1 <= w <= MAP_WIDTH - 2 * ROOM_MARGIN,
            1 <= h <= MAP_HEIGHT - 2 * ROOM_MARGIN,
            max_x0 == MAP_WIDTH - ROOM_MARGIN - w,
            max_y0 == MAP_HEIGHT - ROOM_MARGIN - h,
            placed_in_map(placed@),
        decreases SLOT_TRIES - attempt,
    {
        let min_x = gen_index(rng, ROOM_MARGIN, max_x0 + 1);
        let min_y = gen_index(rng, ROOM_MARGIN, max_y0 + 1);
        let rect = TileRect { min_x, min_y, max_x: min_x + w - 1, max_y: min_y + h - 1 };
        if is_clear(placed, &rect) {
            return Some(rect);
        }
        attempt = attempt + 1;
    }
    let mut min_y = ROOM_MARGIN;
    while min_y <= max_y0
        invariant
            1 <= w <= MAP_WIDTH - 2 * ROOM_MARGIN,
            1 <= h <= MAP_HEIGHT - 2 * ROOM_MARGIN,
            max_x0 == MAP_WIDTH - ROOM_MARGIN - w,
            max_y0 == MAP_HEIGHT - ROOM_MARGIN - h,
            placed_in_map(placed@),
            ROOM_MARGIN <= min_y <= max_y0 + 1,
            forall|x: usize, y: usize|
                in_margins(x, y, w, h) && y < min_y ==> !clear_of(
                    placed@,
                    #[trigger] slot_rect(x, y, w, h),
                ),
        decreases max_y0 + 1 - min_y,
    {
        let mut min_x = ROOM_MARGIN;
        while min_x <= max_x0
            invariant
                1 <= w <= MAP_WIDTH - 2 * ROOM_MARGIN,
                1 <= h <= MAP_HEIGHT - 2 * ROOM_MARGIN,
                max_x0 == MAP_WIDTH - ROOM_MARGIN - w,
                max_y0 == MAP_HEIGHT - ROOM_MARGIN - h,
                placed_in_map(placed@),
                ROOM_MARGIN <= min_y <= max_y0,
                ROOM_MARGIN <= min_x <= max_x0 + 1,
                forall|x: usize, y: usize|
                    in_margins(x, y, w, h) && (y < min_y || (y == min_y && x < min_x)) ==> !clear_of(
                        placed@,
                        #[trigger] slot_rect(x, y, w, h),
                    ),
            decreases max_x0 + 1 - min_x,
        {
            let rect = TileRect { min_x, min_y, max_x: min_x + w - 1, max_y: min_y + h - 1 };
            assert(rect == slot_rect(min_x, min_y, w, h));
            if is_clear(placed, &rect) {
                return Some(rect);
            }
            min_x = min_x + 1;
        }
        min_y = min_y + 1;
    }
    None
}

/// The footprint forced into the top-left corner when no clear slot exists.
pub open spec fn forced_rect(w: usize, h: usize) -> TileRect {
    slot_rect(ROOM_MARGIN, ROOM_MARGIN, w, h)
}

/// Room `k` of `specs` follows the plan: its kind and size, inside the
/// margins, clear of every earlier room unless no clear slot was left (then
/// forced into the corner).
pub open spec fn placed_per_plan(specs: Seq<RoomSpec>, k: int) -> bool {
    let (kind, w, h) = room_plan()[k];
    &&& specs[k].kind == kind
    &&& specs[k].rect == slot_rect(specs[k].rect.min_x, specs[k].rect.min_y, w, h)
    &&& in_margins(specs[k].rect.min_x, specs[k].rect.min_y, w, h)
    &&& (clear_of(specs.take(k), specs[k].rect) || (no_slot(specs.take(k), w, h)
        && specs[k].rect == forced_rect(w, h)))
}

/// One of six fixed footprints, spread over the map so that no room of the
/// plan's sizes can come near two of them: columns 2 and 24, rows 2, 20
/// and 38.
pub open spec fn spread_slot(i: int) -> (usize, usize) {
    ((if i % 2 == 0 { 2usize } else { 24usize }), (if i / 2 == 0 { 2usize } else if i / 2 == 1 { 20usize } else { 38usize }))
}

/// A placed room of at most the plan's size (9 by 7) blocks at most one of
/// the spread footprints of a room of at most that size.
proof fn lemma_blocks_one(p: TileRect, w: usize, h: usize, i: int, j: int)
    requires
        2 <= p.min_x <= p.max_x <= p.min_x + 8,
        2 <= p.min_y <= p.max_y <= p.min_y + 6,
        1 <= w <= 9,
        1 <= h <= 7,
        0 <= i < j < 6,
        p.spec_intersects_padded(&slot_rect(spread_slot(i).0, spread_slot(i).1, w, h), ROOM_PAD as int),
    ensures
        !p.spec_intersects_padded(&slot_rect(spread_slot(j).0, spread_slot(j).1, w, h), ROOM_PAD as int),
{
}

/// With at most five rooms placed, all of at most the plan's size, some
/// spread footprint of a room of at most that size is clear of them all.
pub proof fn lemma_slot_left(placed: Seq<RoomSpec>, w: usize, h: usize)
    requires
        placed.len() <= 5,
        forall|k: int|
            #![trigger placed[k]]
            0 <= k < placed.len() ==> 2 <= placed[k].rect.min_x <= placed[k].rect.max_x <= placed[k].rect.min_x + 8
                && 2 <= placed[k].rect.min_y <= placed[k].rect.max_y <= placed[k].rect.min_y + 6,
        1 <= w <= 9,
        1 <= h <= 7,
    ensures
        !no_slot(placed, w, h),
{
    if no_slot(placed, w, h) {
        let blocker = |i: int|
            choose|k: int|
                0 <= k < placed.len() && placed[k].rect.spec_intersects_padded(
                    &slot_rect(spread_slot(i).0, spread_slot(i).1, w, h),
                    ROOM_PAD as int,
                );
        assert forall|i: int| 0 <= i < 6 implies 0 <= #[trigger] blocker(i) < placed.len()
            && placed[blocker(i)].rect.spec_intersects_padded(
            &slot_rect(spread_slot(i).0, spread_slot(i).1, w, h),
            ROOM_PAD as int,
        ) by {
            let (x, y) = spread_slot(i);
            assert(in_margins(x, y, w, h));
            assert(!clear_of(placed, slot_rect(x, y, w, h)));
        }
        assert forall|i: int, j: int| 0 <= i < j < 6 implies #[trigger] blocker(i) != #[trigger] blocker(j) by {
            if blocker(i) == blocker(j) {
                lemma_blocks_one(placed[blocker(i)].rect, w, h, i, j);
            }
        }
        let (b0, b1, b2, b3, b4, b5) = (blocker(0), blocker(1), blocker(2), blocker(3), blocker(4), blocker(5));
        assert(b0 != b1 && b0 != b2 && b0 != b3 && b0 != b4 && b0 != b5);
        assert(b1 != b2 && b1 != b3 && b1 != b4 && b1 != b5);
        assert(b2 != b3 && b2 != b4 && b2 != b5);
        assert(b3 != b4 && b3 != b5);
        assert(b4 != b5);
    }
}

/// Pick footprints for every room of the plan, in plan order.
pub fn place_rooms(rng: &mut SmallRng) -> (specs: Vec<RoomSpec>)
    ensures
        specs@.len() == room_plan().len(),
        forall|k: int| 0 <= k < specs@.len() ==> placed_per_plan(specs@, k),
        forall|k: int| 0 <= k < specs@.len() ==> clear_of(specs@.take(k), #[trigger] specs@[k].rect),
{
    let plan = room_plan_list();
    let mut placed: Vec<RoomSpec> = Vec::new();
    let mut i: usize = 0;
    while i < plan.len()
        invariant
            plan@ == room_plan(),
            0 <= i <= plan@.len(),
            placed@.len() == i,
            placed_in_map(placed@),
            forall|k: int| 0 <= k < i ==> placed_per_plan(placed@, k),
            forall|k: int| 0 <= k < i ==> clear_of(placed@.take(k), #[trigger] placed@[k].rect),
        decreases plan@.len() - i,
    {
        let (kind, w, h) = plan[i];
        proof {
            assert forall|k: int|
                #![trigger placed@[k]]
                0 <= k < placed@.len() implies 2 <= placed@[k].rect.min_x <= placed@[k].rect.max_x <= placed@[k].rect.min_x + 8
                    && 2 <= placed@[k].rect.min_y <= placed@[k].rect.max_y <= placed@[k].rect.min_y + 6 by {
                assert(placed_per_plan(placed@, k));
                assert(room_plan()[k].1 <= 9 && room_plan()[k].2 <= 7 && room_plan()[k].1 >= 1 && room_plan()[k].2 >= 1);
            }
            assert(room_plan()[i as int] == (kind, w, h));
            assert(w <= 9 && h <= 7);
            lemma_slot_left(placed@, w, h);
        }
        let found = find_slot(rng, &placed, w, h);
        let rect = match found {
            Some(r) => r,
            None => TileRect {
                min_x: ROOM_MARGIN,
                min_y: ROOM_MARGIN,
                max_x: ROOM_MARGIN + w - 1,
                max_y: ROOM_MARGIN + h - 1,
            },
        };
        proof {
            assert(room_plan()[i as int] == (kind, w, h));
            if found is None {
                assert(rect == forced_rect(w, h));
            }
            assert(rect == slot_rect(rect.min_x, rect.min_y, w, h));
            assert(in_margins(rect.min_x, rect.min_y, w, h));
            assert(clear_of(placed@, rect) || (no_slot(placed@, w, h) && rect == forced_rect(w, h)));
        }
        let ghost before = placed@;
        placed.push(RoomSpec { kind, rect });
        proof {
            assert(placed@.take(i as int) == before);
            assert(found is Some);
            assert forall|k: int| 0 <= k < i + 1 implies clear_of(placed@.take(k), #[trigger] placed@[k].rect) by {
                if k < i {
                    assert(placed@.take(k) == before.take(k));
                    assert(placed@[k] == before[k]);
                } else {
                    assert(placed@[k].rect == rect);
                }
            }
            assert forall|k: int| 0 <= k < i + 1 implies placed_per_plan(placed@, k) by {
                if k < i {
                    assert(placed_per_plan(before, k));
                    assert(placed@.take(k) == before.take(k));
                    assert(placed@[k] == before[k]);
                } else {
                    assert(placed@[k] == RoomSpec { kind, rect });
                    assert(placed@.take(k) == before);
                }
            }
        }
        i = i + 1;
    }
    placed
}

/// `d` is a doorway on one side of `rect` (never a corner) and `a` the
/// approach tile just outside it.
pub open spec fn door_ok(rect: TileRect, d: (int, int), a: (int, int)) -> bool {
    ||| (d.1 == rect.min_y && rect.min_x < d.0 < rect.max_x && a == (d.0, d.1 - 1))
    ||| (d.1 == rect.max_y && rect.min_x < d.0 < rect.max_x && a == (d.0, d.1 + 1))
    ||| (d.0 == rect.min_x && rect.min_y < d.1 < rect.max_y && a == (d.0 - 1, d.1))
    ||| (d.0 == rect.max_x && rect.min_y < d.1 < rect.max_y && a == (d.0 + 1, d.1))
}

/// Choose a doorway on a random side of a sealed room (never a corner) and the
/// approach tile immediately outside it, as `(door_x, door_y, approach_x,
/// approach_y)`.
pub fn pick_doorway(rect: &TileRect, rng: &mut SmallRng) -> (r: (usize, usize, usize, usize))
    requires
        rect.min_x + 1 < rect.max_x,
        rect.min_y + 1 < rect.max_y,
        1 <= rect.min_x,
        1 <= rect.min_y,
        rect.max_x < usize::MAX,
        rect.max_y < usize::MAX,
    ensures
        door_ok(*rect, (r.0 as int, r.1 as int), (r.2 as int, r.3 as int)),
{
    let side = gen_u32(rng, 0, 4);
    if side == 0 {
        let x = gen_index(rng, rect.min_x + 1, rect.max_x);
        (x, rect.min_y, x, rect.min_y - 1)
    } else if side == 1 {
        let x = gen_index(rng, rect.min_x + 1, rect.max_x);
        (x, rect.max_y, x, rect.max_y + 1)
    } else if side == 2 {
        let y = gen_index(rng, rect.min_y + 1, rect.max_y);
        (rect.min_x, y, rect.min_x - 1, y)
    } else {
        let y = gen_index(rng, rect.min_y + 1, rect.max_y);
        (rect.max_x, y, rect.max_x + 1, y)
    }
}

/// The tiles a room claims: the interior of a sealed room, the whole
/// footprint of an open one.
pub open spec fn claims(kind: RoomKind, rect: TileRect, t: (int, int)) -> bool {
    if kind.is_sealed() {
        rect.interior(t)
    } else {
        rect.covers(t)
    }
}

/// `tiles` lists exactly the tiles a `kind` room claims in `rect`, each once.
pub open spec fn lists_claim(tiles: Seq<(usize, usize)>, kind: RoomKind, rect: TileRect) -> bool {
    &&& forall|k: int| 0 <= k < tiles.len() ==> claims(kind, rect, cell(#[trigger] tiles[k]))
    &&& forall|t: (int, int)| #[trigger] claims(kind, rect, t) ==> listed(tiles, t)
    &&& forall|a: int, b: int| 0 <= a < b < tiles.len() ==> tiles[a] != tiles[b]
}

/// The cell of row-major index `i` on the map grid.
pub open spec fn map_cell(i: int) -> (int, int) {
    index_cell(MAP_WIDTH as int, i)
}

/// The grid after stamping an open room over `rect`: its footprint is floor.
pub open spec fn open_stamp(cells: Seq<Tile>, rect: TileRect) -> Seq<Tile> {
    Seq::new(
        cells.len(),
        |i: int|
            if rect.covers(map_cell(i)) {
                Tile::Floor
            } else {
                cells[i]
            },
    )
}

/// The grid after stamping a sealed room over `rect` with doorway `d` and
/// approach `a`: interior, doorway and approach are floor, the rest of the
/// ring is wall.
pub open spec fn sealed_stamp(cells: Seq<Tile>, rect: TileRect, d: (int, int), a: (int, int)) -> Seq<
    Tile,
> {
    Seq::new(
        cells.len(),
        |i: int|
            if map_cell(i) == d || map_cell(i) == a || rect.interior(map_cell(i)) {
                Tile::Floor
            } else if rect.on_perimeter(map_cell(i)) {
                Tile::Wall
            } else {
                cells[i]
            },
    )
}

/// The protection mask after stamping a sealed room over `rect` with doorway
/// `d`: the ring is protected, the doorway is not.
pub open spec fn sealed_guard(prot: Seq<bool>, rect: TileRect, d: (int, int)) -> Seq<bool> {
    Seq::new(
        prot.len(),
        |i: int|
            if map_cell(i) == d {
                false
            } else if rect.on_perimeter(map_cell(i)) {
                true
            } else {
                prot[i]
            },
    )
}

/// `after` and `guard` are what stamping a sealed room over `rect` with
/// doorway `d` (and its approach) makes of `before` and `prot`.
pub open spec fn sealed_stamped(
    before: Seq<Tile>,
    after: Seq<Tile>,
    prot: Seq<bool>,
    guard: Seq<bool>,
    rect: TileRect,
    d: (int, int),
) -> bool {
    exists|a: (int, int)|
        #[trigger] door_ok(rect, d, a) && after == sealed_stamp(before, rect, d, a) && guard
            == sealed_guard(prot, rect, d)
}

/// A footprint that can be stamped: ordered, with a tile of room around it
/// inside the map, and (for sealed rooms) an interior to open a doorway onto.
pub open spec fn stampable(kind: RoomKind, rect: TileRect) -> bool {
    &&& rect.ordered()
    &&& 1 <= rect.min_x
    &&& 1 <= rect.min_y
    &&& rect.max_x + 1 < MAP_WIDTH
    &&& rect.max_y + 1 < MAP_HEIGHT
    &&& kind.is_sealed() ==> rect.min_x + 1 < rect.max_x && rect.min_y + 1 < rect.max_y
}

/// Map-grid cells and their row-major index round-trip.
pub proof fn lemma_map_cell(t: (int, int), i: int)
    requires
        in_grid(MAP_WIDTH as int, MAP_HEIGHT as int, t),
        0 <= i < MAP_WIDTH * MAP_HEIGHT,
    ensures
        0 <= cell_index(MAP_WIDTH as int, t) < MAP_WIDTH * MAP_HEIGHT,
        in_grid(MAP_WIDTH as int, MAP_HEIGHT as int, map_cell(i)),
        map_cell(i) == t <==> i == cell_index(MAP_WIDTH as int, t),
{
    lemma_index_in_range(MAP_WIDTH as int, MAP_HEIGHT as int, t);
    lemma_index_cell(MAP_WIDTH as int, MAP_HEIGHT as int, i);
    if i == cell_index(MAP_WIDTH as int, t) {
        lemma_index_unique(MAP_WIDTH as int, MAP_HEIGHT as int, map_cell(i), t);
    }
}

/// Stamp one room into the grid, returning its record. Open rooms write floor
/// only; sealed rooms also force a protected wall ring with one doorway.
pub fn stamp_room(map: &mut LevelMap, protected: &mut Vec<bool>, spec: &RoomSpec, rng: &mut SmallRng) -> (room: Room)
    requires
        old(map).inv(),
        old(map).width == MAP_WIDTH,
        old(map).height == MAP_HEIGHT,
        old(protected)@.len() == MAP_WIDTH * MAP_HEIGHT,
        stampable(spec.kind, spec.rect),
    ensures
        final(map).inv(),
        final(map).width == MAP_WIDTH,
        final(map).height == MAP_HEIGHT,
        final(map).tags() == old(map).tags(),
        final(map).room_list() == old(map).room_list(),
        final(protected)@.len() == MAP_WIDTH * MAP_HEIGHT,
        room.kind == spec.kind,
        room.rect == spec.rect,
        lists_claim(room.tiles@, room.kind, room.rect),
        forall|a: int, b: int|
            0 <= a < b < room.tiles@.len() ==> crate::grid::row_major_lt(
                cell(#[trigger] room.tiles@[a]),
                cell(#[trigger] room.tiles@[b]),
            ),
        !spec.kind.is_sealed() ==> {
            &&& room.doorway is None
            &&& final(map).cells() == open_stamp(old(map).cells(), spec.rect)
            &&& final(protected)@ == old(protected)@
        },
        spec.kind.is_sealed() ==> room.doorway is Some && sealed_stamped(
            old(map).cells(),
            final(map).cells(),
            old(protected)@,
            final(protected)@,
            spec.rect,
            cell(room.doorway.unwrap()),
        ),
{
    let rect = spec.rect;
    let ghost cells0 = map.cells();
    let ghost prot0 = protected@;
    let ghost w = MAP_WIDTH as int;
    let ghost h = MAP_HEIGHT as int;
    if spec.kind.sealed() {
        // Interior becomes floor (and the room's tagged tiles).
        let inner = TileRect {
            min_x: rect.min_x + 1,
            min_y: rect.min_y + 1,
            max_x: rect.max_x - 1,
            max_y: rect.max_y - 1,
        };
        let tiles = inner.all_tiles();
        proof {
            assert forall|t: (int, int)| inner.covers(t) <==> rect.interior(t) by {}
            assert forall|k: int| 0 <= k < tiles@.len() implies in_grid(w, h, cell(#[trigger] tiles@[k])) by {
                assert(inner.covers(cell(tiles@[k])));
            }
        }
        paint_tiles(map, &tiles, Tile::Floor);
        let ghost cells1 = map.cells();
        // The perimeter becomes a protected wall ring.
        let ring = rect.perimeter();
        proof {
            assert forall|k: int| 0 <= k < ring@.len() implies in_grid(w, h, cell(#[trigger] ring@[k])) by {
                assert(rect.on_perimeter(cell(ring@[k])));
            }
        }
        paint_tiles(map, &ring, Tile::Wall);
        mark_tiles(protected, &ring, true);
        let ghost cells2 = map.cells();
        let ghost prot2 = protected@;
        // One doorway plus the approach tile just outside it.
        let (dx, dy, ax, ay) = pick_doorway(&rect, rng);
        let ghost d = (dx as int, dy as int);
        let ghost a = (ax as int, ay as int);
        proof {
            assert(in_grid(w, h, d));
            assert(in_grid(w, h, a));
            lemma_index_in_range(w, h, d);
            lemma_index_in_range(w, h, a);
        }
        map.set(dx, dy, Tile::Floor);
        protected.set(dy * MAP_WIDTH + dx, false);
        map.set(ax, ay, Tile::Floor);
        proof {
            let target = sealed_stamp(cells0, rect, d, a);
            assert forall|i: int| 0 <= i < w * h implies #[trigger] map.cells()[i] == target[i] by {
                lemma_map_cell(d, i);
                lemma_map_cell(a, i);
                let t = map_cell(i);
                if t != d && t != a {
                    assert(map.cells()[i] == cells2[i]);
                    assert(listed(ring@, t) <==> rect.on_perimeter(t));
                    assert(listed(tiles@, t) <==> rect.interior(t)) by {
                        if listed(tiles@, t) {
                            let k = choose|k: int| 0 <= k < tiles@.len() && cell(#[trigger] tiles@[k]) == t;
                            assert(inner.covers(cell(tiles@[k])));
                        }
                        if rect.interior(t) {
                            assert(inner.covers(t));
                        }
                    }
                    if listed(ring@, t) {
                        let k = choose|k: int| 0 <= k < ring@.len() && cell(#[trigger] ring@[k]) == t;
                        assert(rect.on_perimeter(cell(ring@[k])));
                    }
                    if rect.on_perimeter(t) {
                        assert(listed(ring@, t));
                    }
                }
            }
            assert(map.cells() =~= target);
            let gtarget = sealed_guard(prot0, rect, d);
            assert forall|i: int| 0 <= i < w * h implies #[trigger] protected@[i] == gtarget[i] by {
                lemma_map_cell(d, i);
                let t = map_cell(i);
                if t != d {
                    assert(protected@[i] == prot2[i]);
                    if listed(ring@, t) {
                        let k = choose|k: int| 0 <= k < ring@.len() && cell(#[trigger] ring@[k]) == t;
                        assert(rect.on_perimeter(cell(ring@[k])));
                    }
                    if rect.on_perimeter(t) {
                        assert(listed(ring@, t));
                    }
                }
            }
            assert(protected@ =~= gtarget);
            assert forall|t: (int, int)| #[trigger] claims(spec.kind, rect, t) implies listed(tiles@, t) by {
                assert(inner.covers(t));
            }
            assert forall|k: int| 0 <= k < tiles@.len() implies claims(spec.kind, rect, cell(#[trigger] tiles@[k])) by {
                assert(inner.covers(cell(tiles@[k])));
            }
            assert(cell((dx, dy)) == d);
            assert(door_ok(spec.rect, d, a));
            assert(sealed_stamped(cells0, map.cells(), prot0, protected@, rect, d));
        }
        Room { kind: spec.kind, rect, tiles, doorway: Some((dx, dy)) }
    } else {
        let tiles = rect.all_tiles();
        proof {
            assert forall|k: int| 0 <= k < tiles@.len() implies in_grid(w, h, cell(#[trigger] tiles@[k])) by {
                assert(rect.covers(cell(tiles@[k])));
            }
        }
        paint_tiles(map, &tiles, Tile::Floor);
        proof {
            let target = open_stamp(cells0, rect);
            assert forall|i: int| 0 <= i < w * h implies #[trigger] map.cells()[i] == target[i] by {
                let t = map_cell(i);
                if listed(tiles@, t) {
                    let k = choose|k: int| 0 <= k < tiles@.len() && cell(#[trigger] tiles@[k]) == t;
                    assert(rect.covers(cell(tiles@[k])));
                }
                if rect.covers(t) {
                    assert(listed(tiles@, t));
                }
            }
            assert(map.cells() =~= target);
        }
        Room { kind: spec.kind, rect, tiles, doorway: None }
    }
}

/// Row-major index of a map-grid cell.
pub open spec fn map_index(t: (int, int)) -> int {
    cell_index(MAP_WIDTH as int, t)
}

/// `t` is the room's doorway.
pub open spec fn door_at(room: Room, t: (int, int)) -> bool {
    room.doorway is Some && cell(room.doorway.unwrap()) == t
}

/// No earlier room, grown by [`ROOM_PAD`], overlaps a later one.
pub open spec fn rooms_apart(rooms: Seq<Room>) -> bool {
    forall|a: int, b: int|
        0 <= a < b < rooms.len() ==> !(#[trigger] rooms[a]).rect.spec_intersects_padded(
            &(#[trigger] rooms[b]).rect,
            ROOM_PAD as int,
        )
}

/// Room `room` stands in the grid as stamped: every tile it claims is floor,
/// and a sealed room's ring is protected wall except its doorway, which is
/// unprotected floor.
pub open spec fn stands_in(cells: Seq<Tile>, prot: Seq<bool>, room: Room) -> bool {
    &&& forall|t: (int, int)|
        #[trigger] claims(room.kind, room.rect, t) ==> cells[map_index(t)] == Tile::Floor
    &&& room.kind.is_sealed() ==> forall|t: (int, int)|
        #[trigger] room.rect.on_perimeter(t) ==> (cells[map_index(t)] == Tile::Floor <==> door_at(
            room,
            t,
        )) && (prot[map_index(t)] <==> !door_at(room, t))
}

/// `t` lies on the ring of some sealed room and is not its doorway.
pub open spec fn ring_guard_tile(rooms: Seq<Room>, t: (int, int)) -> bool {
    exists|k: int|
        0 <= k < rooms.len() && (#[trigger] rooms[k]).kind.is_sealed() && rooms[k].rect.on_perimeter(t)
            && !door_at(rooms[k], t)
}

/// The footprint-and-kind view of a stamped room.
pub open spec fn spec_of(room: Room) -> RoomSpec {
    RoomSpec { kind: room.kind, rect: room.rect }
}

/// The footprints of stamped rooms.
pub open spec fn specs_of(rooms: Seq<Room>) -> Seq<RoomSpec> {
    rooms.map_values(|r: Room| spec_of(r))
}

/// A tile inside `a` lies more than one tile outside `b` when `a`, grown by
/// [`ROOM_PAD`], misses `b`.
pub proof fn lemma_apart_outside(a: TileRect, b: TileRect, t: (int, int))
    requires
        !a.spec_intersects_padded(&b, ROOM_PAD as int),
        ROOM_MARGIN <= a.min_x,
        ROOM_MARGIN <= a.min_y,
        a.covers(t),
    ensures
        t.0 < b.min_x - 1 || t.0 > b.max_x + 1 || t.1 < b.min_y - 1 || t.1 > b.max_y + 1,
{
}

/// Stamping a room leaves untouched every tile more than one tile outside its
/// footprint.
proof fn lemma_stamp_far(
    c0: Seq<Tile>,
    c1: Seq<Tile>,
    p0: Seq<bool>,
    p1: Seq<bool>,
    room: Room,
    t: (int, int),
)
    requires
        c0.len() == MAP_WIDTH * MAP_HEIGHT,
        p0.len() == MAP_WIDTH * MAP_HEIGHT,
        in_grid(MAP_WIDTH as int, MAP_HEIGHT as int, t),
        room.rect.ordered(),
        t.0 < room.rect.min_x - 1 || t.0 > room.rect.max_x + 1 || t.1 < room.rect.min_y - 1 || t.1
            > room.rect.max_y + 1,
        !room.kind.is_sealed() ==> c1 == open_stamp(c0, room.rect) && p1 == p0,
        room.kind.is_sealed() ==> room.doorway is Some && sealed_stamped(
            c0,
            c1,
            p0,
            p1,
            room.rect,
            cell(room.doorway.unwrap()),
        ),
    ensures
        c1[map_index(t)] == c0[map_index(t)],
        p1[map_index(t)] == p0[map_index(t)],
{
    let idx = map_index(t);
    lemma_map_cell(t, idx);
    assert(0 <= idx < c0.len());
    assert(map_cell(idx) == t);
    assert(!room.rect.covers(t));
    if room.kind.is_sealed() {
        let d = cell(room.doorway.unwrap());
        let a = choose|a: (int, int)|
            #[trigger] door_ok(room.rect, d, a) && c1 == sealed_stamp(c0, room.rect, d, a) && p1
                == sealed_guard(p0, room.rect, d);
        assert(sealed_stamped(c0, c1, p0, p1, room.rect, d));
        assert(door_ok(room.rect, d, a));
        assert(t != d);
        assert(t != a);
        assert(!room.rect.interior(t));
        assert(!room.rect.on_perimeter(t));
        assert(c1[idx] == sealed_stamp(c0, room.rect, d, a)[idx]);
        assert(p1[idx] == sealed_guard(p0, room.rect, d)[idx]);
    } else {
        assert(c1[idx] == open_stamp(c0, room.rect)[idx]);
    }
}

/// `t` lies within one tile of some room's footprint.
pub open spec fn near_any(rooms: Seq<Room>, t: (int, int)) -> bool {
    exists|k: int|
        0 <= k < rooms.len() && (#[trigger] rooms[k]).rect.min_x - 1 <= t.0 <= rooms[k].rect.max_x + 1
            && rooms[k].rect.min_y - 1 <= t.1 <= rooms[k].rect.max_y + 1
}

/// `t` lies on some room's footprint.
pub open spec fn covered_by_any(rooms: Seq<Room>, t: (int, int)) -> bool {
    exists|k: int| 0 <= k < rooms.len() && (#[trigger] rooms[k]).rect.covers(t)
}

/// Place and stamp every room of the plan, returning their records in plan
/// order. Tiles more than one tile from every footprint are left as they
/// were; tiles off every footprint only ever become floor (a doorway's
/// approach).
pub fn stamp_rooms(map: &mut LevelMap, protected: &mut Vec<bool>, rng: &mut SmallRng) -> (rooms: Vec<Room>)
    requires
        old(map).inv(),
        old(map).width == MAP_WIDTH,
        old(map).height == MAP_HEIGHT,
        old(protected)@.len() == MAP_WIDTH * MAP_HEIGHT,
    ensures
        final(map).inv(),
        final(map).width == MAP_WIDTH,
        final(map).height == MAP_HEIGHT,
        final(map).tags() == old(map).tags(),
        final(map).room_list() == old(map).room_list(),
        final(protected)@.len() == MAP_WIDTH * MAP_HEIGHT,
        rooms@.len() == room_plan().len(),
        forall|k: int|
            0 <= k < rooms@.len() ==> #[trigger] placed_per_plan(specs_of(rooms@), k),
        rooms_apart(rooms@),
        forall|k: int|
            0 <= k < rooms@.len() ==> lists_claim(
                (#[trigger] rooms@[k]).tiles@,
                rooms@[k].kind,
                rooms@[k].rect,
            ) && (rooms@[k].kind.is_sealed() <==> rooms@[k].doorway is Some),
        forall|k: int|
            0 <= k < rooms@.len() && (#[trigger] rooms@[k]).kind.is_sealed() ==> exists|a: (int, int)|
                door_ok(rooms@[k].rect, cell(rooms@[k].doorway.unwrap()), a),
        rooms_apart(rooms@) ==> forall|k: int|
            0 <= k < rooms@.len() ==> stands_in(
                final(map).cells(),
                final(protected)@,
                #[trigger] rooms@[k],
            ),
        forall|t: (int, int)|
            #[trigger] rooms@[2].rect.covers(t) ==> final(map).cells()[map_index(t)] == Tile::Floor,
        forall|i: int|
            0 <= i < MAP_WIDTH * MAP_HEIGHT && #[trigger] final(protected)@[i] ==> old(protected)@[i]
                || ring_guard_tile(rooms@, map_cell(i)),
        forall|i: int|
            0 <= i < MAP_WIDTH * MAP_HEIGHT && !near_any(rooms@, map_cell(i)) ==> #[trigger] final(map).cells()[i]
                == old(map).cells()[i] && final(protected)@[i] == old(protected)@[i],
        forall|i: int|
            0 <= i < MAP_WIDTH * MAP_HEIGHT && !covered_by_any(rooms@, map_cell(i)) ==> #[trigger] final(map).cells()[i]
                == old(map).cells()[i] || final(map).cells()[i] == Tile::Floor,
{
    let specs = place_rooms(rng);
    let ghost cells_in = map.cells();
    let ghost prot0 = protected@;
    let mut rooms: Vec<Room> = Vec::new();
    let mut i: usize = 0;
    while i < specs.len()
        invariant
            specs@.len() == room_plan().len(),
            forall|k: int| 0 <= k < specs@.len() ==> placed_per_plan(specs@, k),
            0 <= i <= specs@.len(),
            rooms@.len() == i,
            map.inv(),
            map.width == MAP_WIDTH,
            map.height == MAP_HEIGHT,
            map.tags() == old(map).tags(),
            map.room_list() == old(map).room_list(),
            protected@.len() == MAP_WIDTH * MAP_HEIGHT,
            prot0 == old(protected)@,
            forall|k: int| 0 <= k < i ==> spec_of(#[trigger] rooms@[k]) == specs@[k],
            forall|k: int|
                0 <= k < i ==> lists_claim((#[trigger] rooms@[k]).tiles@, rooms@[k].kind, rooms@[k].rect)
                    && (rooms@[k].kind.is_sealed() <==> rooms@[k].doorway is Some),
            forall|k: int|
                0 <= k < i && (#[trigger] rooms@[k]).kind.is_sealed() ==> exists|a: (int, int)|
                    door_ok(rooms@[k].rect, cell(rooms@[k].doorway.unwrap()), a),
            rooms_apart(rooms@) ==> forall|k: int|
                0 <= k < i ==> stands_in(map.cells(), protected@, #[trigger] rooms@[k]),
            2 < i ==> forall|t: (int, int)|
                #[trigger] rooms@[2].rect.covers(t) ==> map.cells()[map_index(t)] == Tile::Floor,
            forall|j: int|
                0 <= j < MAP_WIDTH * MAP_HEIGHT && #[trigger] protected@[j] ==> prot0[j]
                    || ring_guard_tile(rooms@, map_cell(j)),
            cells_in == old(map).cells(),
            forall|j: int|
                0 <= j < MAP_WIDTH * MAP_HEIGHT && !near_any(rooms@, map_cell(j)) ==> #[trigger] map.cells()[j]
                    == cells_in[j] && protected@[j] == prot0[j],
            forall|j: int|
                0 <= j < MAP_WIDTH * MAP_HEIGHT && !covered_by_any(rooms@, map_cell(j)) ==> #[trigger] map.cells()[j]
                    == cells_in[j] || map.cells()[j] == Tile::Floor,
        decreases specs@.len() - i,
    {
        let ghost c0 = map.cells();
        let ghost p0 = protected@;
        let ghost old_rooms = rooms@;
        let spec = specs[i];
        proof {
            assert(placed_per_plan(specs@, i as int));
        }
        let room = stamp_room(map, protected, &spec, rng);
        rooms.push(room);
        assert(room.rect.ordered());
        proof {
            let c1 = map.cells();
            let p1 = protected@;
            assert(rooms@[i as int] == room);
            assert forall|k: int| 0 <= k < i implies rooms@[k] == old_rooms[k] by {}
            // Earlier rooms are untouched when the rooms stand apart.
            if rooms_apart(rooms@) {
                assert(rooms_apart(old_rooms)) by {
                    assert forall|a: int, b: int| 0 <= a < b < old_rooms.len() implies !(
                    #[trigger] old_rooms[a]).rect.spec_intersects_padded(
                        &(#[trigger] old_rooms[b]).rect,
                        ROOM_PAD as int,
                    ) by {
                        assert(rooms@[a] == old_rooms[a] && rooms@[b] == old_rooms[b]);
                    }
                }
                assert forall|k: int| 0 <= k < i + 1 implies stands_in(c1, p1, #[trigger] rooms@[k]) by {
                    if k < i {
                        let r = rooms@[k];
                        assert(r == old_rooms[k]);
                        assert(stands_in(c0, p0, r));
                        assert(placed_per_plan(specs@, k));
                        assert(!r.rect.spec_intersects_padded(&room.rect, ROOM_PAD as int));
                        assert forall|t: (int, int)| #[trigger] claims(r.kind, r.rect, t) implies c1[map_index(t)] == Tile::Floor by {
                            lemma_apart_outside(r.rect, room.rect, t);
                            lemma_stamp_far(c0, c1, p0, p1, room, t);
                        }
                        if r.kind.is_sealed() {
                            assert forall|t: (int, int)| #[trigger] r.rect.on_perimeter(t) implies (c1[map_index(t)] == Tile::Floor <==> door_at(r, t)) && (p1[map_index(t)] <==> !door_at(r, t)) by {
                                lemma_apart_outside(r.rect, room.rect, t);
                                lemma_stamp_far(c0, c1, p0, p1, room, t);
                            }
                        }
                    } else {
                        assert(k == i);
                        assert forall|t: (int, int)| #[trigger] claims(room.kind, room.rect, t) implies c1[map_index(t)] == Tile::Floor by {
                            lemma_map_cell(t, map_index(t));
                        }
                        if room.kind.is_sealed() {
                            let d = cell(room.doorway.unwrap());
                            let a = choose|a: (int, int)|
                                #[trigger] door_ok(room.rect, d, a) && c1 == sealed_stamp(c0, room.rect, d, a) && p1
                                    == sealed_guard(p0, room.rect, d);
                            assert forall|t: (int, int)| #[trigger] room.rect.on_perimeter(t) implies (c1[map_index(t)] == Tile::Floor <==> door_at(room, t)) && (p1[map_index(t)] <==> !door_at(room, t)) by {
                                lemma_map_cell(t, map_index(t));
                            }
                        }
                    }
                }
            }
            // The start room keeps its floor: only open rooms follow it.
            if 2 < i + 1 {
                assert(room_plan()[i as int].0 != RoomKind::Vault && room_plan()[i as int].0 != RoomKind::Security);
                assert(!room.kind.is_sealed());
                assert forall|t: (int, int)| #[trigger] rooms@[2].rect.covers(t) implies c1[map_index(t)] == Tile::Floor by {
                    assert(placed_per_plan(specs@, 2));
                    assert(spec_of(rooms@[2]) == specs@[2]);
                    lemma_map_cell(t, map_index(t));
                    if i > 2 {
                        assert(c0[map_index(t)] == Tile::Floor);
                        assert(c1[map_index(t)] == open_stamp(c0, room.rect)[map_index(t)]);
                    }
                }
            }
            // Far tiles stay; tiles off every footprint only turn to floor.
            assert forall|j: int|
                0 <= j < MAP_WIDTH * MAP_HEIGHT && !near_any(rooms@, map_cell(j)) implies #[trigger] c1[j]
                    == cells_in[j] && p1[j] == prot0[j] by {
                let t = map_cell(j);
                crate::grid::lemma_index_cell(MAP_WIDTH as int, MAP_HEIGHT as int, j);
                lemma_map_cell(t, j);
                assert(!near_any(old_rooms, t)) by {
                    if near_any(old_rooms, t) {
                        let k = choose|k: int|
                            0 <= k < old_rooms.len() && (#[trigger] old_rooms[k]).rect.min_x - 1 <= t.0
                                <= old_rooms[k].rect.max_x + 1 && old_rooms[k].rect.min_y - 1 <= t.1
                                <= old_rooms[k].rect.max_y + 1;
                        assert(rooms@[k] == old_rooms[k]);
                    }
                }
                assert(!(room.rect.min_x - 1 <= t.0 <= room.rect.max_x + 1 && room.rect.min_y - 1 <= t.1
                    <= room.rect.max_y + 1)) by {
                    assert(rooms@[i as int] == room);
                }
                lemma_stamp_far(c0, c1, p0, p1, room, t);
            }
            assert forall|j: int|
                0 <= j < MAP_WIDTH * MAP_HEIGHT && !covered_by_any(rooms@, map_cell(j)) implies #[trigger] c1[j]
                    == cells_in[j] || c1[j] == Tile::Floor by {
                let t = map_cell(j);
                assert(!covered_by_any(old_rooms, t)) by {
                    if covered_by_any(old_rooms, t) {
                        let k = choose|k: int| 0 <= k < old_rooms.len() && (#[trigger] old_rooms[k]).rect.covers(t);
                        assert(rooms@[k] == old_rooms[k]);
                    }
                }
                assert(!room.rect.covers(t)) by {
                    assert(rooms@[i as int] == room);
                }
                if room.kind.is_sealed() {
                    let d = cell(room.doorway.unwrap());
                    let a = choose|a: (int, int)|
                        #[trigger] door_ok(room.rect, d, a) && c1 == sealed_stamp(c0, room.rect, d, a) && p1
                            == sealed_guard(p0, room.rect, d);
                    assert(c1[j] == sealed_stamp(c0, room.rect, d, a)[j]);
                } else {
                    assert(c1[j] == open_stamp(c0, room.rect)[j]);
                }
            }
            // Protection only ever grows on sealed rings.
            assert forall|j: int| 0 <= j < MAP_WIDTH * MAP_HEIGHT && #[trigger] p1[j] implies prot0[j]
                || ring_guard_tile(rooms@, map_cell(j)) by {
                let t = map_cell(j);
                if room.kind.is_sealed() {
                    let d = cell(room.doorway.unwrap());
                    let a = choose|a: (int, int)|
                        #[trigger] door_ok(room.rect, d, a) && c1 == sealed_stamp(c0, room.rect, d, a) && p1
                            == sealed_guard(p0, room.rect, d);
                    if t != d && room.rect.on_perimeter(t) {
                        assert(rooms@[i as int].kind.is_sealed() && rooms@[i as int].rect.on_perimeter(t)
                            && !door_at(rooms@[i as int], t));
                    } else {
                        assert(p0[j]);
                    }
                } else {
                    assert(p0[j]);
                }
                if p0[j] && !prot0[j] {
                    let k = choose|k: int|
                        0 <= k < old_rooms.len() && (#[trigger] old_rooms[k]).kind.is_sealed()
                            && old_rooms[k].rect.on_perimeter(t) && !door_at(old_rooms[k], t);
                    assert(rooms@[k] == old_rooms[k]);
                }
            }
        }
        proof {
            assert forall|k: int|
                0 <= k < i + 1 && (#[trigger] rooms@[k]).kind.is_sealed() implies exists|a: (int, int)|
                    door_ok(rooms@[k].rect, cell(rooms@[k].doorway.unwrap()), a) by {
                if k == i {
                    let d = cell(room.doorway.unwrap());
                    let a = choose|a: (int, int)|
                        #[trigger] door_ok(room.rect, d, a) && map.cells() == sealed_stamp(c0, room.rect, d, a)
                            && protected@ == sealed_guard(p0, room.rect, d);
                    assert(door_ok(rooms@[k].rect, cell(rooms@[k].doorway.unwrap()), a));
                } else {
                    assert(rooms@[k] == old_rooms[k]);
                }
            }
        }
        i = i + 1;
    }
    proof {
        assert(specs_of(rooms@) =~= specs@);
        assert forall|a: int, b: int| 0 <= a < b < rooms@.len() implies !(#[trigger] rooms@[a]).rect.spec_intersects_padded(
            &(#[trigger] rooms@[b]).rect,
            ROOM_PAD as int,
        ) by {
            assert(clear_of(specs@.take(b), specs@[b].rect));
            assert(specs@.take(b)[a] == specs@[a]);
            assert(spec_of(rooms@[a]) == specs@[a]);
            assert(spec_of(rooms@[b]) == specs@[b]);
        }
    }
    rooms
}

} // verus!
