use noise::{NoiseFn, Perlin};
use stolen_moments::level::connect::label_components;
use stolen_moments::level::map::{LevelMap, RoomKind, Tile, MAP_HEIGHT, MAP_WIDTH};
use stolen_moments::level::source::{HybridSource, Level, LevelSource, NoiseSource};

/// Seeds to sweep so the contracts hold across many generated layouts.
const SEEDS: std::ops::Range<u64> = 0..40;

/// The cavern noise thresholded per tile, as the game samples it.
fn floor_noise(seed: u64) -> Vec<bool> {
    let perlin = Perlin::new(seed as u32);
    let mut mask = vec![false; MAP_WIDTH * MAP_HEIGHT];
    for y in 0..MAP_HEIGHT {
        for x in 0..MAP_WIDTH {
            let n = perlin.get([x as f64 * 0.11, y as f64 * 0.11]);
            mask[y * MAP_WIDTH + x] = n > -0.05;
        }
    }
    mask
}

fn hybrid(seed: u64) -> Level {
    HybridSource.build(seed, &floor_noise(seed))
}

#[test]
fn exactly_one_vault_and_one_security() {
    for seed in SEEDS {
        let level = hybrid(seed);
        let vaults = level.map.rooms().iter().filter(|r| r.kind == RoomKind::Vault).count();
        let security = level.map.rooms().iter().filter(|r| r.kind == RoomKind::Security).count();
        assert_eq!(vaults, 1, "seed {seed}: expected exactly one Vault");
        assert_eq!(security, 1, "seed {seed}: expected exactly one Security");
    }
}

#[test]
fn every_room_reachable_from_spawn() {
    for seed in SEEDS {
        let level = hybrid(seed);
        let w = level.map.width;
        let labels = label_components(&level.map);
        let main = labels[level.spawn.tile.1 * w + level.spawn.tile.0].expect("spawn tile must be floor");
        for room in level.map.rooms() {
            for &(x, y) in &room.tiles {
                assert_eq!(
                    labels[y * w + x],
                    Some(main),
                    "seed {seed}: {:?} tile ({x},{y}) not reachable from spawn",
                    room.kind
                );
            }
        }
    }
}

#[test]
fn sealed_rooms_open_only_at_their_doorway() {
    for seed in SEEDS {
        let level = hybrid(seed);
        for room in level.map.rooms().iter().filter(|r| r.kind.sealed()) {
            let openings = room
                .rect
                .perimeter()
                .into_iter()
                .filter(|&(x, y)| level.map.get(x, y) == Tile::Floor)
                .count();
            assert_eq!(openings, 1, "seed {seed}: sealed {:?} should expose exactly one doorway", room.kind);
        }
    }
}

#[test]
fn sealed_room_doorway_is_its_only_opening() {
    for seed in 0..10u64 {
        let level = hybrid(seed);
        for room in level.map.rooms().iter().filter(|r| r.kind.sealed()) {
            let door = room.doorway.expect("sealed rooms have a doorway");
            let open: Vec<(usize, usize)> = room
                .rect
                .perimeter()
                .into_iter()
                .filter(|&(x, y)| level.map.get(x, y) == Tile::Floor)
                .collect();
            assert_eq!(open, vec![door]);
        }
    }
}

#[test]
fn hybrid_spawns_at_the_start_room_centre() {
    for seed in 0..10u64 {
        let level = hybrid(seed);
        let start = &level.map.rooms()[2];
        assert_eq!(start.kind, RoomKind::Start);
        assert_eq!(level.spawn.tile, start.rect.center());
        assert!(level.map.is_walkable(level.spawn.tile.0, level.spawn.tile.1));
    }
}

#[test]
fn hybrid_room_plan_order() {
    let level = hybrid(3);
    let kinds: Vec<RoomKind> = level.map.rooms().iter().map(|r| r.kind).collect();
    assert_eq!(
        kinds,
        vec![
            RoomKind::Vault,
            RoomKind::Security,
            RoomKind::Start,
            RoomKind::Lobby,
            RoomKind::GameTables,
            RoomKind::Service
        ]
    );
}

#[test]
fn room_tiles_are_tagged_with_their_room() {
    let level = hybrid(5);
    for (i, room) in level.map.rooms().iter().enumerate() {
        for &(x, y) in &room.tiles {
            assert_eq!(level.map.room_at(x, y).map(|id| id.0), Some(i));
            assert_eq!(level.map.room_kind_at(x, y), Some(room.kind));
        }
    }
}

#[test]
fn noise_source_connects_the_caverns() {
    for seed in 0..10u64 {
        let level = NoiseSource.build(seed, &floor_noise(seed));
        assert!(level.map.rooms().is_empty());
        let w = level.map.width;
        let labels = label_components(&level.map);
        let main = labels[level.spawn.tile.1 * w + level.spawn.tile.0].expect("spawn is floor");
        for y in 0..level.map.height {
            for x in 0..w {
                if level.map.is_walkable(x, y) {
                    assert_eq!(labels[y * w + x], Some(main), "seed {seed}: ({x},{y}) cut off");
                }
            }
        }
    }
}

#[test]
fn noise_map_keeps_a_solid_border() {
    let level = NoiseSource.build(11, &vec![true; MAP_WIDTH * MAP_HEIGHT]);
    for x in 0..MAP_WIDTH {
        assert_eq!(level.map.get(x, 0), Tile::Wall);
        assert_eq!(level.map.get(x, MAP_HEIGHT - 1), Tile::Wall);
    }
    for y in 0..MAP_HEIGHT {
        assert_eq!(level.map.get(0, y), Tile::Wall);
        assert_eq!(level.map.get(MAP_WIDTH - 1, y), Tile::Wall);
    }
    assert_eq!(level.map.floor_count(), (MAP_WIDTH - 2) * (MAP_HEIGHT - 2));
    // The closest floor tile to the centre is the centre itself.
    assert_eq!(level.spawn.tile, (MAP_WIDTH / 2, MAP_HEIGHT / 2));
}

#[test]
fn map_without_floor_spawns_at_centre() {
    let level = NoiseSource.build(1, &vec![false; MAP_WIDTH * MAP_HEIGHT]);
    assert_eq!(level.spawn.tile, (MAP_WIDTH / 2, MAP_HEIGHT / 2));
    assert_eq!(level.map.floor_count(), 0);
    let _ = LevelMap::filled_with_walls(2, 2);
}
