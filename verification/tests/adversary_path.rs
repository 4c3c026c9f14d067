use stolen_moments::adversary::path::{bfs_path, neighbours, search_ring};
use stolen_moments::level::map::{LevelMap, Tile};

/// Carve an L-shaped corridor and check BFS follows it around the wall.
#[test]
fn bfs_follows_an_l_corridor() {
    let mut map = LevelMap::filled_with_walls(5, 5);
    for x in 1..=3 {
        map.set(x, 1, Tile::Floor);
    }
    for y in 1..=3 {
        map.set(3, y, Tile::Floor);
    }
    let path = bfs_path(&map, (1, 1), (3, 3)).expect("route exists");
    assert_eq!(path, vec![(2, 1), (3, 1), (3, 2), (3, 3)]);
}

#[test]
fn bfs_returns_none_when_walled_off() {
    let mut map = LevelMap::filled_with_walls(3, 3);
    map.set(0, 0, Tile::Floor);
    map.set(2, 2, Tile::Floor);
    assert!(bfs_path(&map, (0, 0), (2, 2)).is_none());
}

#[test]
fn bfs_to_self_is_empty() {
    let mut map = LevelMap::filled_with_walls(3, 3);
    map.set(1, 1, Tile::Floor);
    assert_eq!(bfs_path(&map, (1, 1), (1, 1)), Some(Vec::new()));
}

#[test]
fn search_ring_covers_radius_in_order() {
    let mut map = LevelMap::filled_with_walls(7, 7);
    for y in 0..7 {
        for x in 0..7 {
            map.set(x, y, Tile::Floor);
        }
    }
    let ring = search_ring(&map, (3, 3), 2);
    assert_eq!(ring.len(), 24);
    assert!(!ring.contains(&(3, 3)));
    let cheby = |&(x, y): &(usize, usize)| (x as i32 - 3).abs().max((y as i32 - 3).abs());
    let first_ring2 = ring.iter().position(|t| cheby(t) == 2).unwrap();
    assert!(ring[..first_ring2].iter().all(|t| cheby(t) == 1));
    assert_eq!(first_ring2, 8);
}

#[test]
fn search_ring_skips_unreachable_and_distant() {
    let mut map = LevelMap::filled_with_walls(7, 3);
    for x in 1..6 {
        map.set(x, 1, Tile::Floor);
    }
    let ring = search_ring(&map, (3, 1), 3);
    assert_eq!(ring, vec![(4, 1), (2, 1), (5, 1), (1, 1)]);
}

#[test]
fn search_ring_orders_by_bearing_within_a_ring() {
    let mut map = LevelMap::filled_with_walls(5, 5);
    for y in 0..5 {
        for x in 0..5 {
            map.set(x, y, Tile::Floor);
        }
    }
    let ring = search_ring(&map, (2, 2), 1);
    // Bearings atan2(dy, dx) ascending: -3π/4, -π/2, -π/4, 0, π/4, π/2, 3π/4, π.
    assert_eq!(ring, vec![(1, 1), (2, 1), (3, 1), (3, 2), (3, 3), (2, 3), (1, 3), (1, 2)]);
}

#[test]
fn search_ring_with_negative_radius_is_empty() {
    let mut map = LevelMap::filled_with_walls(3, 3);
    map.set(1, 1, Tile::Floor);
    map.set(1, 2, Tile::Floor);
    assert!(search_ring(&map, (1, 1), -1).is_empty());
}

#[test]
fn bfs_path_is_shortest_around_an_obstacle() {
    let mut map = LevelMap::filled_with_walls(5, 5);
    for y in 0..5 {
        for x in 0..5 {
            map.set(x, y, Tile::Floor);
        }
    }
    map.set(2, 1, Tile::Wall);
    map.set(2, 2, Tile::Wall);
    map.set(2, 3, Tile::Wall);
    let path = bfs_path(&map, (0, 2), (4, 2)).expect("route around the wall");
    assert_eq!(path.len(), 8);
    assert_eq!(*path.last().unwrap(), (4, 2));
}

#[test]
fn neighbours_clip_at_the_edges() {
    assert_eq!(neighbours(0, 0, 3, 3), vec![(1, 0), (0, 1)]);
    assert_eq!(neighbours(1, 1, 3, 3), vec![(0, 1), (2, 1), (1, 0), (1, 2)]);
    assert_eq!(neighbours(2, 2, 3, 3), vec![(1, 2), (2, 1)]);
}
