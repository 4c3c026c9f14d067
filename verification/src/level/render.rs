//! Which wall tiles are worth a mesh: only walls that border the cavern are
//! drawn, so the thousands of fully buried cells are skipped.

use vstd::prelude::*;

use super::map::{LevelMap, Tile};

verus! {

/// Some of the 8 cells around `(x, y)` is floor.
pub open spec fn touches_floor(map: &LevelMap, x: int, y: int) -> bool {
    exists|dx: int, dy: int|
        -1 <= dx <= 1 && -1 <= dy <= 1 && (dx != 0 || dy != 0) && 0 <= x + dx < map.width && 0 <= y
            + dy < map.height && #[trigger] map.tile(x + dx, y + dy) == Tile::Floor
}

/// True if any of the 8 surrounding cells is walkable floor.
pub fn borders_floor(map: &LevelMap, x: usize, y: usize) -> (b: bool)
    requires
        map.inv(),
        x < map.width,
        y < map.height,
        map.width < 0x4000_0000,
        map.height < 0x4000_0000,
    ensures
        b == touches_floor(map, x as int, y as int),
{
    let mut dy: i32 = -1;
    while dy <= 1
        invariant
            map.inv(),
            x < map.width,
            y < map.height,
            map.width < 0x4000_0000,
            map.height < 0x4000_0000,
            -1 <= dy <= 2,
            forall|ddx: int, ddy: int|
                -1 <= ddx <= 1 && -1 <= ddy < dy && (ddx != 0 || ddy != 0) && 0 <= x + ddx < map.width
                    && 0 <= y + ddy < map.height ==> #[trigger] map.tile(x + ddx, y + ddy) != Tile::Floor,
        decreases 2 - dy,
    {
        let mut dx: i32 = -1;
        while dx <= 1
            invariant
                map.inv(),
                x < map.width,
                y < map.height,
                map.width < 0x4000_0000,
                map.height < 0x4000_0000,
                -1 <= dy <= 1,
                -1 <= dx <= 2,
                forall|ddx: int, ddy: int|
                    -1 <= ddx <= 1 && -1 <= ddy <= dy && (ddy < dy || ddx < dx) && (ddx != 0 || ddy != 0) && 0 <= x
                        + ddx < map.width && 0 <= y + ddy < map.height ==> #[trigger] map.tile(x + ddx, y + ddy)
                        != Tile::Floor,
            decreases 2 - dx,
        {
            if dx != 0 || dy != 0 {
                let nx = x as i32 + dx;
                let ny = y as i32 + dy;
                if nx >= 0 && ny >= 0 && (nx as usize) < map.width && (ny as usize) < map.height {
                    proof {
                        crate::grid::lemma_index_in_range(map.width as int, map.height as int, (nx as int, ny as int));
                    }
                    if map.is_walkable(nx as usize, ny as usize) {
                        assert(map.tile(x + dx, y + dy) == Tile::Floor);
                        return true;
                    }
                }
            }
            dx = dx + 1;
        }
        dy = dy + 1;
    }
    false
}

} // verus!
