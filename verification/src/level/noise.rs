//! The cavern pass: turns a thresholded noise field into floor/wall with a
//! forced solid border, plus the small helpers ([`border_mask`],
//! [`find_central_floor`]) shared by the level sources.
//!
//! Sampling the Perlin field is floating-point work and happens before this
//! module is reached: callers hand in one flag per tile saying whether the noise
//! there clears the floor threshold.

use vstd::prelude::*;

use crate::grid::mask_at;
use super::map::{LevelMap, Tile, MAP_HEIGHT, MAP_WIDTH};

verus! {

/// `(x, y)` is on the outermost ring of a `w`×`h` grid.
pub open spec fn on_border(w: int, h: int, x: int, y: int) -> bool {
    x == 0 || y == 0 || x == w - 1 || y == h - 1
}

/// Threshold the noise field into floor/wall, with a forced solid border.
/// `floor_noise[y * MAP_WIDTH + x]` says whether the noise sampled at tile
/// `(x, y)` lies above the floor threshold.
pub fn build_noise_map(floor_noise: &Vec<bool>) -> (map: LevelMap)
    requires
        floor_noise@.len() == MAP_WIDTH * MAP_HEIGHT,
    ensures
        map.inv(),
        map.tags_resolve(),
        map.width == MAP_WIDTH,
        map.height == MAP_HEIGHT,
        forall|x: int, y: int|
            0 <= x < MAP_WIDTH && 0 <= y < MAP_HEIGHT ==> (#[trigger] map.tile(x, y) == Tile::Floor
                <==> (floor_noise@[y * MAP_WIDTH + x] && !on_border(
                MAP_WIDTH as int,
                MAP_HEIGHT as int,
                x,
                y,
            ))),
        forall|i: int| 0 <= i < MAP_WIDTH * MAP_HEIGHT ==> map.tags()[i] is None,
        map.room_list().len() == 0,
{
    let mut map = LevelMap::filled_with_walls(MAP_WIDTH, MAP_HEIGHT);
    let mut y: usize = 0;
    while y < MAP_HEIGHT
        invariant
            floor_noise@.len() == MAP_WIDTH * MAP_HEIGHT,
            0 <= y <= MAP_HEIGHT,
            map.inv(),
            map.width == MAP_WIDTH,
            map.height == MAP_HEIGHT,
            forall|i: int| 0 <= i < MAP_WIDTH * MAP_HEIGHT ==> map.tags()[i] is None,
            map.room_list().len() == 0,
            forall|xx: int, yy: int|
                0 <= xx < MAP_WIDTH && 0 <= yy < y ==> (#[trigger] map.tile(xx, yy) == Tile::Floor
                    <==> (floor_noise@[yy * MAP_WIDTH + xx] && !on_border(
                    MAP_WIDTH as int,
                    MAP_HEIGHT as int,
                    xx,
                    yy,
                ))),
            forall|xx: int, yy: int|
                0 <= xx < MAP_WIDTH && y <= yy < MAP_HEIGHT ==> #[trigger] map.tile(xx, yy)
                    == Tile::Wall,
        decreases MAP_HEIGHT - y,
    {
        let mut x: usize = 0;
        while x < MAP_WIDTH
            invariant
                floor_noise@.len() == MAP_WIDTH * MAP_HEIGHT,
                0 <= y < MAP_HEIGHT,
                0 <= x <= MAP_WIDTH,
                map.inv(),
                map.width == MAP_WIDTH,
                map.height == MAP_HEIGHT,
                forall|i: int| 0 <= i < MAP_WIDTH * MAP_HEIGHT ==> map.tags()[i] is None,
                map.room_list().len() == 0,
                forall|xx: int, yy: int|
                    (0 <= xx < MAP_WIDTH && 0 <= yy < y) || (0 <= xx < x && yy == y) ==> (
                    #[trigger] map.tile(xx, yy) == Tile::Floor <==> (floor_noise@[yy * MAP_WIDTH
                        + xx] && !on_border(MAP_WIDTH as int, MAP_HEIGHT as int, xx, yy))),
                forall|xx: int, yy: int|
                    (0 <= xx < MAP_WIDTH && y < yy < MAP_HEIGHT) || (x <= xx < MAP_WIDTH && yy
                        == y) ==> #[trigger] map.tile(xx, yy) == Tile::Wall,
            decreases MAP_WIDTH - x,
        {
            // Keep a 1-tile solid border so the cavern is always enclosed.
            let border = x == 0 || y == 0 || x == MAP_WIDTH - 1 || y == MAP_HEIGHT - 1;
            let ghost old_map = map;
            let ghost before = map.cells();
            if !border && floor_noise[y * MAP_WIDTH + x] {
                map.set(x, y, Tile::Floor);
            }
            assert forall|xx: int, yy: int|
                0 <= xx < MAP_WIDTH && 0 <= yy < MAP_HEIGHT && (xx != x || yy != y) implies #[trigger] map.tile(
                xx,
                yy,
            ) == before[yy * MAP_WIDTH + xx] by {
                crate::grid::lemma_index_in_range(MAP_WIDTH as int, MAP_HEIGHT as int, (xx, yy));
                if yy * MAP_WIDTH + xx == y * MAP_WIDTH + x {
                    crate::grid::lemma_index_unique(
                        MAP_WIDTH as int,
                        MAP_HEIGHT as int,
                        (xx, yy),
                        (x as int, y as int),
                    );
                }
                assert(old_map.tile(xx, yy) == before[yy * MAP_WIDTH + xx]);
            }
            assert forall|xx: int, yy: int|
                (0 <= xx < MAP_WIDTH && y < yy < MAP_HEIGHT) || (x + 1 <= xx < MAP_WIDTH && yy
                    == y) implies #[trigger] map.tile(xx, yy) == Tile::Wall by {
                assert(old_map.tile(xx, yy) == Tile::Wall);
            }
            assert forall|xx: int, yy: int|
                (0 <= xx < MAP_WIDTH && 0 <= yy < y) || (0 <= xx < x + 1 && yy == y) implies (
                #[trigger] map.tile(xx, yy) == Tile::Floor <==> (floor_noise@[yy * MAP_WIDTH
                    + xx] && !on_border(MAP_WIDTH as int, MAP_HEIGHT as int, xx, yy))) by {
                if xx != x || yy != y {
                    assert(old_map.tile(xx, yy) == Tile::Floor <==> (floor_noise@[yy * MAP_WIDTH
                    + xx] && !on_border(MAP_WIDTH as int, MAP_HEIGHT as int, xx, yy)));
                } else {
                    assert(old_map.tile(xx, yy) == Tile::Wall);
                }
            }
            x = x + 1;
        }
        y = y + 1;
    }
    map
}

/// The map's 1-tile solid border, marked immutable so the carver never tunnels
/// out of bounds.
pub fn border_mask() -> (protected: Vec<bool>)
    ensures
        protected@.len() == MAP_WIDTH * MAP_HEIGHT,
        forall|x: int, y: int|
            0 <= x < MAP_WIDTH && 0 <= y < MAP_HEIGHT ==> (mask_at(protected@, MAP_WIDTH as int, x, y)
                <==> on_border(MAP_WIDTH as int, MAP_HEIGHT as int, x, y)),
{
    let mut protected = super::map::vec_filled(false, MAP_WIDTH * MAP_HEIGHT);
    let mut y: usize = 0;
    while y < MAP_HEIGHT
        invariant
            0 <= y <= MAP_HEIGHT,
            protected@.len() == MAP_WIDTH * MAP_HEIGHT,
            forall|xx: int, yy: int|
                0 <= xx < MAP_WIDTH && 0 <= yy < y ==> (#[trigger] mask_at(protected@, MAP_WIDTH as int, xx, yy)
                    <==> on_border(MAP_WIDTH as int, MAP_HEIGHT as int, xx, yy)),
            forall|xx: int, yy: int|
                0 <= xx < MAP_WIDTH && y <= yy < MAP_HEIGHT ==> !#[trigger] mask_at(protected@, MAP_WIDTH as int, xx, yy),
        decreases MAP_HEIGHT - y,
    {
        let mut x: usize = 0;
        while x < MAP_WIDTH
            invariant
                0 <= y < MAP_HEIGHT,
                0 <= x <= MAP_WIDTH,
                protected@.len() == MAP_WIDTH * MAP_HEIGHT,
                forall|xx: int, yy: int|
                    (0 <= xx < MAP_WIDTH && 0 <= yy < y) || (0 <= xx < x && yy == y) ==> (
                    #[trigger] mask_at(protected@, MAP_WIDTH as int, xx, yy) <==> on_border(
                        MAP_WIDTH as int,
                        MAP_HEIGHT as int,
                        xx,
                        yy,
                    )),
                forall|xx: int, yy: int|
                    (0 <= xx < MAP_WIDTH && y < yy < MAP_HEIGHT) || (x <= xx < MAP_WIDTH && yy
                        == y) ==> !#[trigger] mask_at(protected@, MAP_WIDTH as int, xx, yy),
            decreases MAP_WIDTH - x,
        {
            let ghost before = protected@;
            if x == 0 || y == 0 || x == MAP_WIDTH - 1 || y == MAP_HEIGHT - 1 {
                protected.set(y * MAP_WIDTH + x, true);
            }
            assert forall|xx: int, yy: int|
                0 <= xx < MAP_WIDTH && 0 <= yy < MAP_HEIGHT && (xx != x || yy != y) implies #[trigger] mask_at(protected@, MAP_WIDTH as int, xx, yy) == mask_at(before, MAP_WIDTH as int, xx, yy) by {
                crate::grid::lemma_index_in_range(MAP_WIDTH as int, MAP_HEIGHT as int, (xx, yy));
                if yy * MAP_WIDTH + xx == y * MAP_WIDTH + x {
                    crate::grid::lemma_index_unique(
                        MAP_WIDTH as int,
                        MAP_HEIGHT as int,
                        (xx, yy),
                        (x as int, y as int),
                    );
                }
            }
            x = x + 1;
        }
        y = y + 1;
    }
    protected
}

/// Squared distance from `(x, y)` to the grid centre `(w / 2, h / 2)`.
pub open spec fn central_dist(w: int, h: int, x: int, y: int) -> int {
    (x - w / 2) * (x - w / 2) + (y - h / 2) * (y - h / 2)
}

/// `(x, y)` is a floor tile of the map.
pub open spec fn is_floor_at(map: &LevelMap, x: int, y: int) -> bool {
    0 <= x < map.width && 0 <= y < map.height && map.tile(x, y) == Tile::Floor
}

/// Find the walkable tile closest to the grid centre — the first in row-major
/// order among equally close ones — or the centre itself when the map has no
/// floor at all.
pub fn find_central_floor(map: &LevelMap) -> (t: (usize, usize))
    requires
        map.inv(),
        map.width <= 65535,
        map.height <= 65535,
    ensures
        (exists|x: int, y: int| #[trigger] is_floor_at(map, x, y)) ==> {
            &&& is_floor_at(map, t.0 as int, t.1 as int)
            &&& forall|x: int, y: int|
                #[trigger] is_floor_at(map, x, y) ==> central_dist(
                    map.width as int,
                    map.height as int,
                    t.0 as int,
                    t.1 as int,
                ) <= central_dist(map.width as int, map.height as int, x, y)
            &&& forall|x: int, y: int|
                #[trigger] is_floor_at(map, x, y) && (y < t.1 || (y == t.1 && x < t.0))
                    ==> central_dist(map.width as int, map.height as int, t.0 as int, t.1 as int)
                    < central_dist(map.width as int, map.height as int, x, y)
        },
        !(exists|x: int, y: int| #[trigger] is_floor_at(map, x, y)) ==> t == (
            map.width / 2,
            map.height / 2,
        ),
{
    let (cx, cy) = ((map.width / 2) as i32, (map.height / 2) as i32);
    let mut best: Option<(usize, usize)> = None;
    let mut best_dist = i32::MAX;
    let ghost w = map.width as int;
    let ghost h = map.height as int;

    let mut y: usize = 0;
    while y < map.height
        invariant
            map.inv(),
            map.width <= 65535,
            map.height <= 65535,
            w == map.width,
            h == map.height,
            cx == w / 2,
            cy == h / 2,
            0 <= y <= map.height,
            best is None ==> best_dist == i32::MAX,
            best is None ==> forall|xx: int, yy: int|
                #[trigger] is_floor_at(map, xx, yy) ==> yy >= y,
            best matches Some(b) ==> {
                &&& is_floor_at(map, b.0 as int, b.1 as int)
                &&& b.1 < y
                &&& best_dist == central_dist(w, h, b.0 as int, b.1 as int)
                &&& forall|xx: int, yy: int|
                    #[trigger] is_floor_at(map, xx, yy) && yy < y ==> best_dist <= central_dist(
                        w,
                        h,
                        xx,
                        yy,
                    )
                &&& forall|xx: int, yy: int|
                    #[trigger] is_floor_at(map, xx, yy) && (yy < b.1 || (yy == b.1 && xx < b.0))
                        ==> best_dist < central_dist(w, h, xx, yy)
            },
        decreases map.height - y,
    {
        let mut x: usize = 0;
        while x < map.width
            invariant
                map.inv(),
                map.width <= 65535,
                map.height <= 65535,
                w == map.width,
                h == map.height,
                cx == w / 2,
                cy == h / 2,
                0 <= y < map.height,
                0 <= x <= map.width,
                best is None ==> best_dist == i32::MAX,
                best is None ==> forall|xx: int, yy: int|
                    #[trigger] is_floor_at(map, xx, yy) ==> (yy > y || (yy == y && xx >= x)),
                best matches Some(b) ==> {
                    &&& is_floor_at(map, b.0 as int, b.1 as int)
                    &&& (b.1 < y || (b.1 == y && b.0 < x))
                    &&& best_dist == central_dist(w, h, b.0 as int, b.1 as int)
                    &&& forall|xx: int, yy: int|
                        #[trigger] is_floor_at(map, xx, yy) && (yy < y || (yy == y && xx < x))
                            ==> best_dist <= central_dist(w, h, xx, yy)
                    &&& forall|xx: int, yy: int|
                        #[trigger] is_floor_at(map, xx, yy) && (yy < b.1 || (yy == b.1 && xx
                            < b.0)) ==> best_dist < central_dist(w, h, xx, yy)
                },
            decreases map.width - x,
        {
            proof {
                crate::grid::lemma_index_in_range(w, h, (x as int, y as int));
            }
            if map.is_walkable(x, y) {
                let dx = x as i32 - cx;
                let dy = y as i32 - cy;
                assert(-32767 <= dx <= 32767 && -32767 <= dy <= 32767);
                assert(dx * dx <= 1073676289) by (nonlinear_arith)
                    requires
                        -32767 <= dx <= 32767,
                ;
                assert(dy * dy <= 1073676289) by (nonlinear_arith)
                    requires
                        -32767 <= dy <= 32767,
                ;
                assert(0 <= dx * dx && 0 <= dy * dy) by (nonlinear_arith);
                let d = dx * dx + dy * dy;
                if d < best_dist {
                    best_dist = d;
                    best = Some((x, y));
                }
            }
            x = x + 1;
        }
        y = y + 1;
    }
    match best {
        Some(b) => b,
        None => (map.width / 2, map.height / 2),
    }
}

} // verus!
