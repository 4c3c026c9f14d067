use stolen_moments::level::map::{LevelMap, Tile};
use stolen_moments::props::{assign_props, plan_props, prop_kinds, prop_sites, PROP_KINDS};
use stolen_moments::seed::RunSeed;

/// An all-floor map of the given size.
fn open_map(width: usize, height: usize) -> LevelMap {
    let mut map = LevelMap::filled_with_walls(width, height);
    for y in 0..height {
        for x in 0..width {
            map.set(x, y, Tile::Floor);
        }
    }
    map
}

#[test]
fn the_table_lists_coins_first_then_the_rest() {
    let kinds = prop_kinds();
    assert_eq!(kinds.len(), PROP_KINDS);
    let assets: Vec<&str> = kinds.iter().map(|k| k.asset).collect();
    assert_eq!(
        assets,
        vec!["coin.glb", "barrel.glb", "rocks.glb", "stones.glb", "chest.glb", "column.glb"]
    );
    let counts: Vec<usize> = kinds.iter().map(|k| k.count).collect();
    assert_eq!(counts, vec![30, 16, 16, 12, 6, 4]);
    let coins: Vec<bool> = kinds.iter().map(|k| k.coin).collect();
    assert_eq!(coins, vec![true, false, false, false, false, false]);
}

#[test]
fn sites_skip_walls_and_the_spawn_square() {
    let mut map = open_map(7, 7);
    map.set(0, 0, Tile::Wall);
    let sites = prop_sites(&map, (3, 3));
    // 49 tiles, minus the wall, minus the 5x5 clearance square around (3, 3).
    assert_eq!(sites.len(), 49 - 1 - 25);
    assert!(!sites.contains(&(0, 0)));
    assert!(!sites.contains(&(1, 1)));
    assert!(!sites.contains(&(5, 5)));
    assert!(sites.contains(&(6, 6)));
    assert!(sites.contains(&(0, 3)));
    let mut sorted = sites.clone();
    sorted.sort_by_key(|&(x, y)| (y, x));
    assert_eq!(sites, sorted);
}

#[test]
fn clearance_square_is_clipped_at_the_edge() {
    let map = open_map(5, 5);
    let sites = prop_sites(&map, (0, 0));
    // Tiles with x <= 2 and y <= 2 are kept clear.
    assert_eq!(sites.len(), 25 - 9);
    assert_eq!(sites[0], (3, 0));
}

#[test]
fn tiles_are_handed_out_in_table_order() {
    let tiles: Vec<(usize, usize)> = (0..100).map(|i| (i, 0)).collect();
    let placements = assign_props(&tiles);
    assert_eq!(placements.len(), 84);
    for (i, p) in placements.iter().enumerate() {
        assert_eq!(p.tile, (i, 0));
        let expected = match i {
            0..=29 => 0,
            30..=45 => 1,
            46..=61 => 2,
            62..=73 => 3,
            74..=79 => 4,
            _ => 5,
        };
        assert_eq!(p.kind, expected, "placement {i}");
    }
}

#[test]
fn running_out_of_tiles_stops_early() {
    let tiles: Vec<(usize, usize)> = (0..35).map(|i| (i, 1)).collect();
    let placements = assign_props(&tiles);
    assert_eq!(placements.len(), 35);
    assert!(placements[..30].iter().all(|p| p.kind == 0));
    assert!(placements[30..].iter().all(|p| p.kind == 1));
    assert!(assign_props(&Vec::new()).is_empty());
}

#[test]
fn plan_places_every_prop_on_a_distinct_site() {
    let map = open_map(20, 20);
    let spawn = (10, 10);
    let (plan, _rng) = plan_props(&map, spawn, &RunSeed(42));
    assert_eq!(plan.len(), 84);
    let sites = prop_sites(&map, spawn);
    let mut tiles: Vec<(usize, usize)> = plan.iter().map(|p| p.tile).collect();
    assert!(tiles.iter().all(|t| sites.contains(t)));
    tiles.sort();
    tiles.dedup();
    assert_eq!(tiles.len(), 84);
}

#[test]
fn plan_uses_every_site_when_tiles_are_short() {
    let map = open_map(6, 6);
    let spawn = (2, 2);
    let sites = prop_sites(&map, spawn);
    let (plan, _rng) = plan_props(&map, spawn, &RunSeed(5));
    assert_eq!(plan.len(), sites.len());
    let mut used: Vec<(usize, usize)> = plan.iter().map(|p| p.tile).collect();
    used.sort();
    let mut all = sites.clone();
    all.sort();
    assert_eq!(used, all);
    assert!(plan.iter().all(|p| p.kind == 0));
}

#[test]
fn plan_is_reproducible_per_seed() {
    let map = open_map(16, 16);
    let (a, _) = plan_props(&map, (8, 8), &RunSeed(9));
    let (b, _) = plan_props(&map, (8, 8), &RunSeed(9));
    let ta: Vec<(usize, usize)> = a.iter().map(|p| p.tile).collect();
    let tb: Vec<(usize, usize)> = b.iter().map(|p| p.tile).collect();
    assert_eq!(ta, tb);
    let (c, _) = plan_props(&map, (8, 8), &RunSeed(10));
    let tc: Vec<(usize, usize)> = c.iter().map(|p| p.tile).collect();
    assert_ne!(ta, tc);
}
