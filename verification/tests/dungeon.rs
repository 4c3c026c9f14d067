use noise::{NoiseFn, Perlin};
use stolen_moments::dungeon::{
    carve_corridor, connect_regions, dungeon_noise_seed, find_regions, generate_dungeon, DungeonMap,
};
use stolen_moments::level::connect::label_components;
use stolen_moments::level::map::{LevelMap, Tile, MAP_HEIGHT, MAP_WIDTH};
use stolen_moments::seed::RunSeed;

/// A map of walls with the listed tiles opened to floor.
fn map_with(width: usize, height: usize, floor: &[(usize, usize)]) -> DungeonMap {
    let mut map = LevelMap::filled_with_walls(width, height);
    for &(x, y) in floor {
        map.set(x, y, Tile::Floor);
    }
    map
}

/// The floor tiles of the map, in row-major order.
fn floor_tiles(map: &DungeonMap) -> Vec<(usize, usize)> {
    let mut out = Vec::new();
    for y in 0..map.height {
        for x in 0..map.width {
            if map.is_walkable(x, y) {
                out.push((x, y));
            }
        }
    }
    out
}

/// How many separate floor components the map has.
fn component_count(map: &DungeonMap) -> usize {
    let labels = label_components(map);
    let mut seen: Vec<usize> = labels.iter().flatten().copied().collect();
    seen.sort();
    seen.dedup();
    seen.len()
}

/// The cavern noise thresholded per tile, as the game samples it.
fn floor_noise(seed: u32) -> Vec<bool> {
    let perlin = Perlin::new(seed);
    let mut mask = vec![false; MAP_WIDTH * MAP_HEIGHT];
    for y in 0..MAP_HEIGHT {
        for x in 0..MAP_WIDTH {
            let n = perlin.get([x as f64 * 0.11, y as f64 * 0.11]);
            mask[y * MAP_WIDTH + x] = n > -0.05;
        }
    }
    mask
}

#[test]
fn corridor_runs_along_the_row_then_the_column() {
    let mut map = map_with(8, 8, &[]);
    carve_corridor(&mut map, (1, 1), (4, 5));
    let expected: Vec<(usize, usize)> =
        vec![(1, 1), (2, 1), (3, 1), (4, 1), (4, 2), (4, 3), (4, 4), (4, 5)];
    let mut floor = floor_tiles(&map);
    floor.sort_by_key(|&(x, y)| (x, y));
    let mut want = expected.clone();
    want.sort_by_key(|&(x, y)| (x, y));
    assert_eq!(floor, want);
}

#[test]
fn corridor_runs_leftward_and_upward_too() {
    let mut map = map_with(8, 8, &[]);
    carve_corridor(&mut map, (5, 6), (2, 3));
    let mut floor = floor_tiles(&map);
    floor.sort();
    let mut want = vec![(5, 6), (4, 6), (3, 6), (2, 6), (2, 5), (2, 4), (2, 3)];
    want.sort();
    assert_eq!(floor, want);
}

#[test]
fn corridor_to_itself_opens_one_tile() {
    let mut map = map_with(5, 5, &[]);
    carve_corridor(&mut map, (2, 2), (2, 2));
    assert_eq!(floor_tiles(&map), vec![(2, 2)]);
}

#[test]
fn regions_split_separate_caverns_in_scan_order() {
    // Two caverns: an L in the top-left and a bar lower right.
    let map = map_with(10, 10, &[(1, 1), (2, 1), (1, 2), (6, 6), (7, 6), (8, 6)]);
    let regions = find_regions(&map);
    assert_eq!(regions.len(), 2);
    assert_eq!(regions[0], vec![(1, 1), (2, 1), (1, 2)]);
    assert_eq!(regions[1], vec![(6, 6), (7, 6), (8, 6)]);
}

#[test]
fn region_tiles_come_in_breadth_first_order() {
    // A plus shape: from the top arm the fill reaches the centre, then its
    // left, right and lower neighbours, then the bottom arm.
    let map = map_with(7, 7, &[(3, 1), (3, 2), (2, 2), (4, 2), (3, 3), (3, 4)]);
    let regions = find_regions(&map);
    assert_eq!(regions, vec![vec![(3, 1), (3, 2), (2, 2), (4, 2), (3, 3), (3, 4)]]);
}

#[test]
fn an_all_wall_map_has_no_regions() {
    let map = map_with(6, 6, &[]);
    assert!(find_regions(&map).is_empty());
}

#[test]
fn connecting_joins_every_cavern_and_keeps_the_old_floor() {
    let caverns = [(1, 1), (2, 1), (8, 1), (8, 2), (1, 8), (5, 5), (6, 5)];
    let mut map = map_with(10, 10, &caverns);
    assert_eq!(component_count(&map), 4);
    connect_regions(&mut map);
    assert_eq!(component_count(&map), 1);
    for &(x, y) in &caverns {
        assert!(map.is_walkable(x, y));
    }
}

#[test]
fn connecting_carves_the_shortest_gap_from_the_largest_region() {
    // The three-tile bar is largest; the lone tile two columns right of its
    // end is the closest, so the corridor opens just the tile between them.
    let mut map = map_with(12, 5, &[(1, 2), (2, 2), (3, 2), (5, 2)]);
    connect_regions(&mut map);
    assert_eq!(floor_tiles(&map), vec![(1, 2), (2, 2), (3, 2), (4, 2), (5, 2)]);
}

#[test]
fn a_single_cavern_is_left_untouched() {
    let floor = [(1, 1), (2, 1), (3, 1), (3, 2)];
    let mut map = map_with(6, 6, &floor);
    connect_regions(&mut map);
    assert_eq!(floor_tiles(&map), vec![(1, 1), (2, 1), (3, 1), (3, 2)]);
}

#[test]
fn generated_dungeons_are_one_enclosed_piece() {
    for seed in 0..30u32 {
        let noise = floor_noise(seed);
        let (map, spawn) = generate_dungeon(&noise);
        assert_eq!((map.width, map.height), (MAP_WIDTH, MAP_HEIGHT));
        assert!(component_count(&map) <= 1, "seed {seed}: dungeon split");
        for y in 0..MAP_HEIGHT {
            for x in 0..MAP_WIDTH {
                let border = x == 0 || y == 0 || x == MAP_WIDTH - 1 || y == MAP_HEIGHT - 1;
                if border {
                    assert!(!map.is_walkable(x, y), "seed {seed}: border opened at ({x},{y})");
                } else if noise[y * MAP_WIDTH + x] {
                    assert!(map.is_walkable(x, y), "seed {seed}: cavern tile lost at ({x},{y})");
                }
            }
        }
        if map.floor_count() > 0 {
            assert!(map.is_walkable(spawn.0, spawn.1));
            let d = |x: usize, y: usize| {
                let (dx, dy) = (x as i64 - 24, y as i64 - 24);
                dx * dx + dy * dy
            };
            for (x, y) in floor_tiles(&map) {
                assert!(d(spawn.0, spawn.1) <= d(x, y));
            }
        }
    }
}

#[test]
fn dungeon_without_floor_spawns_at_the_centre() {
    let noise = vec![false; MAP_WIDTH * MAP_HEIGHT];
    let (map, spawn) = generate_dungeon(&noise);
    assert_eq!(map.floor_count(), 0);
    assert_eq!(spawn, (MAP_WIDTH / 2, MAP_HEIGHT / 2));
}

#[test]
fn dungeon_seed_is_the_truncated_dungeon_sub_seed() {
    let seed = RunSeed(0xDEAD_BEEF_1234);
    assert_eq!(dungeon_noise_seed(&seed), seed.derive("dungeon") as u32);
    assert_ne!(dungeon_noise_seed(&seed), dungeon_noise_seed(&RunSeed(7)));
}
