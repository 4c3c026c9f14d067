use rand::rngs::SmallRng;
use rand::SeedableRng;
use stolen_moments::adversary::spawn::{
    chebyshev, far_tile, first_far_tile, has_clear_tile, interesting_facing, patrol_route,
    vault_beat, watch_post, Facing, PATROL_RADIUS, PATROL_WAYPOINTS, SPAWN_CLEARANCE,
    WATCH_DISTANCE,
};
use stolen_moments::level::map::{LevelMap, Room, RoomKind, Tile, TileRect};

/// An all-floor square map for exercising placement helpers.
fn open_map(size: usize) -> LevelMap {
    let mut map = LevelMap::filled_with_walls(size, size);
    for y in 0..size {
        for x in 0..size {
            map.set(x, y, Tile::Floor);
        }
    }
    map
}

/// The facing as a unit vector `(x, z)` on the floor plane.
fn unit(f: Facing) -> (f32, f32) {
    let (x, z) = (f.dx as f32, f.dz as f32);
    let len = (x * x + z * z).sqrt();
    (x / len, z / len)
}

#[test]
fn patrol_route_starts_at_spawn_and_stays_local() {
    let map = open_map(40);
    let start = (20, 20);
    let mut rng = SmallRng::seed_from_u64(7);
    let route = patrol_route(&map, &mut rng, start);
    assert_eq!(route.len(), PATROL_WAYPOINTS);
    assert_eq!(route[0], start, "route begins at the spawn tile");
    for &wp in &route[1..] {
        assert!(chebyshev(start, wp) <= PATROL_RADIUS, "waypoint {wp:?} is within the local beat radius of {start:?}");
    }
}

#[test]
fn static_guard_faces_its_room_doorway() {
    let mut map = open_map(11);
    let guard = (5, 5);
    let door = (8, 5);
    map.set_rooms(vec![Room {
        kind: RoomKind::Security,
        rect: TileRect { min_x: 3, min_y: 3, max_x: 7, max_y: 7 },
        tiles: vec![guard],
        doorway: Some(door),
    }]);
    let h = unit(interesting_facing(&map, guard, (0, 0)));
    assert!(h.0 > 0.9, "faces toward the +x doorway: {h:?}");
    assert!(h.1.abs() < 0.1, "no sideways lean: {h:?}");
}

#[test]
fn static_guard_without_doorways_faces_spawn() {
    let map = open_map(11);
    let guard = (5, 5);
    let spawn = (5, 9);
    let h = unit(interesting_facing(&map, guard, spawn));
    assert!(h.1 > 0.9, "faces toward the spawn: {h:?}");
    assert!(h.0.abs() < 0.1, "no sideways lean: {h:?}");
}

#[test]
fn vault_beat_posts_outside_the_door_and_paces_its_face() {
    let mut map = open_map(11);
    let door = (5, 3);
    map.set_rooms(vec![Room {
        kind: RoomKind::Vault,
        rect: TileRect { min_x: 3, min_y: 3, max_x: 7, max_y: 7 },
        tiles: vec![(5, 5)],
        doorway: Some(door),
    }]);
    let (post, heading, route) = vault_beat(&map).expect("vault has a beat");
    assert_eq!(post, (5, 2), "stands just outside the door");
    let heading = unit(heading);
    assert!(heading.1 > 0.9, "watches the door: {heading:?}");
    assert_eq!(route.len(), 2);
    assert!(route.iter().all(|&(_, y)| y == post.1), "endpoints sit on the door's frontage line: {route:?}");
    assert!(
        route.iter().any(|&(x, _)| x < 5) && route.iter().any(|&(x, _)| x > 5),
        "endpoints flank the door on both sides: {route:?}",
    );
}

#[test]
fn vault_beat_is_none_without_a_vault() {
    let map = open_map(11);
    assert!(vault_beat(&map).is_none());
}

#[test]
fn watch_post_stands_off_the_code_and_faces_it() {
    let map = open_map(11);
    let note = (5, 5);
    let (post, heading) = watch_post(&map, note);
    assert_eq!(chebyshev(post, note), WATCH_DISTANCE, "stands the watch distance off the note: {post:?}");
    let heading = unit(heading);
    assert!(heading.0 < -0.9, "watches the note: {heading:?}");
}

#[test]
fn watch_post_falls_back_to_the_note_when_boxed_in() {
    let mut map = LevelMap::filled_with_walls(11, 11);
    map.set(5, 5, Tile::Floor);
    let (post, heading) = watch_post(&map, (5, 5));
    assert_eq!(post, (5, 5));
    assert_eq!(heading, Facing { dx: 0, dz: 1 });
}

#[test]
fn vault_beat_is_none_when_the_front_is_walled() {
    let mut map = open_map(11);
    map.set(5, 2, Tile::Wall);
    map.set_rooms(vec![Room {
        kind: RoomKind::Vault,
        rect: TileRect { min_x: 3, min_y: 3, max_x: 7, max_y: 7 },
        tiles: vec![(5, 5)],
        doorway: Some((5, 3)),
    }]);
    assert!(vault_beat(&map).is_none());
}

#[test]
fn vault_beat_holds_the_post_in_a_dead_end() {
    let mut map = LevelMap::filled_with_walls(11, 11);
    map.set(5, 2, Tile::Floor);
    map.set_rooms(vec![Room {
        kind: RoomKind::Vault,
        rect: TileRect { min_x: 3, min_y: 3, max_x: 7, max_y: 7 },
        tiles: vec![(5, 5)],
        doorway: Some((5, 3)),
    }]);
    let (post, _, route) = vault_beat(&map).expect("front is open");
    assert_eq!(post, (5, 2));
    assert_eq!(route, vec![(5, 2)]);
}

#[test]
fn static_guard_on_its_doorway_faces_the_spawn() {
    let mut map = open_map(11);
    let door = (5, 5);
    map.set_rooms(vec![Room {
        kind: RoomKind::Security,
        rect: TileRect { min_x: 3, min_y: 3, max_x: 7, max_y: 7 },
        tiles: vec![door],
        doorway: Some(door),
    }]);
    assert_eq!(interesting_facing(&map, door, (2, 5)), Facing { dx: -3, dz: 0 });
    assert_eq!(interesting_facing(&map, door, door), Facing { dx: 0, dz: 1 });
}

#[test]
fn the_first_clear_tile_is_the_first_in_row_major_order() {
    // Clearance counts on either axis: from a spawn at the centre of a 20-wide
    // map, the top-left corner is already clear.
    let map = open_map(20);
    let c = SPAWN_CLEARANCE as usize;
    assert_eq!(first_far_tile(&map, 0, 0), Some((c, 0)));
    assert_eq!(first_far_tile(&map, 10, 10), Some((0, 0)));
    assert!(has_clear_tile(&map, (10, 10)));
}

#[test]
fn a_small_map_has_no_tile_clear_of_the_spawn() {
    let small = SPAWN_CLEARANCE as usize;
    let map = open_map(small);
    assert_eq!(first_far_tile(&map, 0, 0), None);
    assert!(!has_clear_tile(&map, (0, 0)));
    let mut bigger = open_map(small + 1);
    assert!(has_clear_tile(&bigger, (0, 0)));
    bigger.set(small, 0, Tile::Wall);
    assert_eq!(first_far_tile(&bigger, 0, 0), Some((small, 1)));
}

#[test]
fn a_far_tile_lies_clear_of_the_spawn() {
    let map = open_map(30);
    let mut rng = SmallRng::seed_from_u64(3);
    for _ in 0..20 {
        let t = far_tile(&map, &mut rng, 15, 15);
        let (dx, dy) = ((t.0 as i32 - 15).abs(), (t.1 as i32 - 15).abs());
        assert!(dx >= SPAWN_CLEARANCE || dy >= SPAWN_CLEARANCE, "{t:?} is clear of the spawn");
    }
}
