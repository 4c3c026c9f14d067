use stolen_moments::level::connect::{carve_connect, label_components};
use stolen_moments::level::map::{LevelMap, Tile, TileRect, MAP_HEIGHT, MAP_WIDTH};
use stolen_moments::level::source::{HybridSource, LevelSource, NoiseSource};

/// The floor tiles of a map, row by row.
fn floor_tiles(map: &LevelMap) -> Vec<(usize, usize)> {
    let mut out = Vec::new();
    for y in 0..map.height {
        for x in 0..map.width {
            if map.get(x, y) == Tile::Floor {
                out.push((x, y));
            }
        }
    }
    out
}

#[test]
fn carving_takes_the_cheapest_detour_round_a_protected_wall() {
    let mut map = LevelMap::filled_with_walls(5, 5);
    map.set(1, 1, Tile::Floor);
    map.set(3, 1, Tile::Floor);
    let protected: Vec<bool> = (0..25)
        .map(|i| {
            let (x, y) = (i % 5, i / 5);
            x == 0 || y == 0 || x == 4 || y == 4 || (x, y) == (2, 1)
        })
        .collect();
    carve_connect(&mut map, &protected, (1, 1));
    assert_eq!(floor_tiles(&map), vec![(1, 1), (3, 1), (1, 2), (2, 2), (3, 2)]);
    assert_eq!(map.get(2, 1), Tile::Wall);
}

#[test]
fn a_joined_level_is_left_as_it_is() {
    let mut map = LevelMap::filled_with_walls(5, 5);
    for x in 1..4 {
        map.set(x, 2, Tile::Floor);
    }
    let before = floor_tiles(&map);
    let protected = vec![false; 25];
    carve_connect(&mut map, &protected, (1, 2));
    assert_eq!(floor_tiles(&map), before);
}

#[test]
fn a_walled_off_pocket_is_left_unjoined() {
    let mut map = LevelMap::filled_with_walls(7, 5);
    map.set(1, 2, Tile::Floor);
    map.set(5, 2, Tile::Floor);
    // Column 3 is protected top to bottom: nothing can be carved through it.
    let protected: Vec<bool> = (0..35).map(|i| i % 7 == 3).collect();
    carve_connect(&mut map, &protected, (1, 2));
    assert_eq!(floor_tiles(&map), vec![(1, 2), (5, 2)]);
}

#[test]
fn components_are_numbered_in_row_major_order_of_their_first_tiles() {
    let mut map = LevelMap::filled_with_walls(6, 4);
    // Component first seen at (4, 0), another at (1, 1) reaching row 3, a third at (4, 2).
    map.set(4, 0, Tile::Floor);
    map.set(1, 1, Tile::Floor);
    map.set(1, 2, Tile::Floor);
    map.set(1, 3, Tile::Floor);
    map.set(4, 2, Tile::Floor);
    map.set(5, 2, Tile::Floor);
    let labels = label_components(&map);
    let at = |x: usize, y: usize| labels[y * 6 + x];
    assert_eq!(at(4, 0), Some(0));
    assert_eq!(at(1, 1), Some(1));
    assert_eq!(at(1, 3), Some(1));
    assert_eq!(at(4, 2), Some(2));
    assert_eq!(at(5, 2), Some(2));
    assert_eq!(at(0, 0), None);
}

#[test]
fn rect_tiles_and_perimeter_come_row_by_row() {
    let rect = TileRect { min_x: 2, min_y: 1, max_x: 4, max_y: 3 };
    assert_eq!(
        rect.all_tiles(),
        vec![(2, 1), (3, 1), (4, 1), (2, 2), (3, 2), (4, 2), (2, 3), (3, 3), (4, 3)]
    );
    assert_eq!(rect.perimeter(), vec![(2, 1), (3, 1), (4, 1), (2, 2), (4, 2), (2, 3), (3, 3), (4, 3)]);
}

/// A fixed noise field: floor in a band of rows plus a few scattered tiles.
fn banded_noise() -> Vec<bool> {
    let mut mask = vec![false; MAP_WIDTH * MAP_HEIGHT];
    for y in 0..MAP_HEIGHT {
        for x in 0..MAP_WIDTH {
            mask[y * MAP_WIDTH + x] = (y % 9 == 4) || (x * 7 + y * 3) % 11 == 0;
        }
    }
    mask
}

#[test]
fn noise_levels_keep_the_noise_floor_and_a_solid_border() {
    let noise = banded_noise();
    let level = NoiseSource.build(1, &noise);
    for y in 0..MAP_HEIGHT {
        for x in 0..MAP_WIDTH {
            let border = x == 0 || y == 0 || x == MAP_WIDTH - 1 || y == MAP_HEIGHT - 1;
            if border {
                assert_eq!(level.map.get(x, y), Tile::Wall, "border ({x}, {y})");
            } else if noise[y * MAP_WIDTH + x] {
                assert_eq!(level.map.get(x, y), Tile::Floor, "noise floor ({x}, {y})");
            }
        }
    }
}

#[test]
fn hybrid_levels_keep_the_noise_floor_off_the_rooms_and_a_solid_border() {
    let noise = banded_noise();
    for seed in 0..10 {
        let level = HybridSource.build(seed, &noise);
        let rooms = level.map.rooms();
        for y in 0..MAP_HEIGHT {
            for x in 0..MAP_WIDTH {
                let border = x == 0 || y == 0 || x == MAP_WIDTH - 1 || y == MAP_HEIGHT - 1;
                let on_room = rooms.iter().any(|r| {
                    r.rect.min_x <= x && x <= r.rect.max_x && r.rect.min_y <= y && y <= r.rect.max_y
                });
                if border {
                    assert_eq!(level.map.get(x, y), Tile::Wall, "seed {seed}: border ({x}, {y})");
                } else if noise[y * MAP_WIDTH + x] && !on_room {
                    assert_eq!(level.map.get(x, y), Tile::Floor, "seed {seed}: noise floor ({x}, {y})");
                }
            }
        }
    }
}
