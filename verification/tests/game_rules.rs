use rand::rngs::SmallRng;
use rand::SeedableRng;
use stolen_moments::adversary::nav::{
    advance_patrol, begin_search, next_search_goal, prey_order, repath, return_to_post, wander_to,
    Navigation, PatrolRoute, SearchPlan,
};
use stolen_moments::adversary::AdversaryGizmos;
use stolen_moments::adversary::brain::Mode;
use stolen_moments::billboard::{
    all_emotes, emote_for, searching_dots, Emote, ATLAS_H_PX, ATLAS_W_PX, CELL_PX,
};
use stolen_moments::catch::{catch_outcome, CatchConfig, CatchMode, CatchOutcome};
use stolen_moments::coins::CoinScore;
use stolen_moments::debug::{toggle_debug, DebugKeys, DebugSettings};
use stolen_moments::employee::{employee_route, next_waypoint, ROUTE_WAYPOINTS};
use stolen_moments::level::map::{LevelMap, Room, RoomKind, Tile, TileRect};
use stolen_moments::loading::{loading_done, tally, LoadStatus};
use stolen_moments::seed::RunSeed;
use stolen_moments::state::{escape_target, menu_target, GameState, InGame, MenuAction};
use stolen_moments::time_loop::LoopLedger;
use stolen_moments::vault::{door_site, install_door, open_door, relock, vault_prompt, VaultPrompt};

/// An all-floor square map.
fn open_map(size: usize) -> LevelMap {
    let mut map = LevelMap::filled_with_walls(size, size);
    for y in 0..size {
        for x in 0..size {
            map.set(x, y, Tile::Floor);
        }
    }
    map
}

/// A room of `kind` over the given rect whose tiles are the rect's tiles.
fn room(kind: RoomKind, rect: TileRect, doorway: Option<(usize, usize)>) -> Room {
    let mut tiles = Vec::new();
    for y in rect.min_y..=rect.max_y {
        for x in rect.min_x..=rect.max_x {
            tiles.push((x, y));
        }
    }
    Room { kind, rect, tiles, doorway }
}

fn no_keys() -> DebugKeys {
    DebugKeys { f3: false, f4: false, f5: false, f6: false, f7: false, f8: false, f9: false }
}

// ---- the time loop ----

#[test]
fn closing_a_loop_banks_the_recording_once() {
    let mut ledger: LoopLedger<u32> = LoopLedger::new();
    ledger.record(1);
    ledger.record(2);
    assert_eq!(ledger.close(true), 1);
    assert!(ledger.current.is_empty());
    assert_eq!(ledger.banked, vec![vec![1, 2]]);
    // Closing again with nothing recorded banks nothing more.
    assert_eq!(ledger.close(true), 1);
    assert_eq!(ledger.banked.len(), 1);
}

#[test]
fn a_discarded_loop_leaves_no_ghost() {
    let mut ledger: LoopLedger<u32> = LoopLedger::new();
    ledger.record(7);
    assert_eq!(ledger.close(false), 0);
    assert!(ledger.current.is_empty());
    assert!(ledger.banked.is_empty());
}

#[test]
fn resetting_the_ledger_forgets_every_ghost() {
    let mut ledger: LoopLedger<u32> = LoopLedger::new();
    ledger.record(3);
    ledger.close(true);
    ledger.record(4);
    ledger.reset();
    assert!(ledger.current.is_empty());
    assert!(ledger.banked.is_empty());
}

// ---- the vault ----

#[test]
fn the_door_sits_on_the_first_vault_doorway() {
    let mut map = open_map(12);
    let rooms = vec![
        room(RoomKind::Lobby, TileRect { min_x: 1, min_y: 1, max_x: 3, max_y: 3 }, None),
        room(RoomKind::Vault, TileRect { min_x: 5, min_y: 5, max_x: 8, max_y: 8 }, Some((5, 6))),
        room(RoomKind::Vault, TileRect { min_x: 1, min_y: 8, max_x: 3, max_y: 10 }, Some((2, 8))),
    ];
    map.set_rooms(rooms);
    assert_eq!(door_site(&map), Some(((5, 6), true)));
}

#[test]
fn a_door_on_the_top_edge_does_not_turn() {
    let mut map = open_map(12);
    map.set_rooms(vec![room(
        RoomKind::Vault,
        TileRect { min_x: 4, min_y: 4, max_x: 8, max_y: 8 },
        Some((6, 4)),
    )]);
    assert_eq!(door_site(&map), Some(((6, 4), false)));
}

#[test]
fn no_vault_means_no_door() {
    let mut map = open_map(8);
    map.set_rooms(vec![room(RoomKind::Lobby, TileRect { min_x: 1, min_y: 1, max_x: 3, max_y: 3 }, None)]);
    assert_eq!(door_site(&map), None);
    map.set_rooms(vec![room(RoomKind::Vault, TileRect { min_x: 1, min_y: 1, max_x: 3, max_y: 3 }, None)]);
    assert_eq!(door_site(&map), None);
}

#[test]
fn the_door_opens_only_with_the_code_in_reach_unwatched() {
    let mut map = open_map(6);
    let mut door = install_door(&mut map, (2, 3));
    assert!(!door.open);
    assert_eq!(map.get(2, 3), Tile::Wall);
    assert!(!open_door(&mut door, &mut map, false, true, false));
    assert!(!open_door(&mut door, &mut map, true, false, false));
    assert!(!open_door(&mut door, &mut map, true, true, true));
    assert_eq!(map.get(2, 3), Tile::Wall);
    assert!(open_door(&mut door, &mut map, true, true, false));
    assert!(door.open);
    assert_eq!(map.get(2, 3), Tile::Floor);
    // An open door does not open again.
    assert!(!open_door(&mut door, &mut map, true, true, false));
}

#[test]
fn relocking_restores_the_closed_gate() {
    let mut map = open_map(6);
    let mut door = install_door(&mut map, (1, 1));
    let closed: Vec<Tile> = map.tiles.clone();
    open_door(&mut door, &mut map, true, true, false);
    relock(&mut door, &mut map);
    assert!(!door.open);
    assert_eq!(map.tiles, closed);
}

#[test]
fn the_prompt_explains_what_is_missing() {
    assert_eq!(vault_prompt(false, false), VaultPrompt::Locked);
    assert_eq!(vault_prompt(false, true), VaultPrompt::Locked);
    assert_eq!(vault_prompt(true, true), VaultPrompt::Watched);
    assert_eq!(vault_prompt(true, false), VaultPrompt::Ready);
    assert_eq!(VaultPrompt::Locked.text(), "Vault locked — find the code");
    assert_eq!(VaultPrompt::Watched.text(), "Vault watched — wait for the guard to look away");
    assert_eq!(VaultPrompt::Ready.text(), "Press E to open vault");
}

// ---- the employee ----

#[test]
fn the_employee_paces_distinct_lobby_tiles_and_drops_the_note_on_the_first() {
    let mut map = open_map(12);
    let lobby = room(RoomKind::Lobby, TileRect { min_x: 2, min_y: 2, max_x: 5, max_y: 5 }, None);
    let tiles = lobby.tiles.clone();
    map.set_rooms(vec![room(RoomKind::Vault, TileRect { min_x: 7, min_y: 7, max_x: 9, max_y: 9 }, None), lobby]);
    let (route, note) = employee_route(&map, &RunSeed(11)).expect("a lobby route");
    assert_eq!(route.len(), ROUTE_WAYPOINTS);
    assert_eq!(note, route[0]);
    assert!(route.iter().all(|t| tiles.contains(t)));
    let mut distinct = route.clone();
    distinct.sort();
    distinct.dedup();
    assert_eq!(distinct.len(), route.len());
    assert_eq!(employee_route(&map, &RunSeed(11)).unwrap().0, route);
}

#[test]
fn a_one_tile_lobby_has_no_route() {
    let mut map = open_map(8);
    map.set_rooms(vec![room(RoomKind::Lobby, TileRect { min_x: 3, min_y: 3, max_x: 3, max_y: 3 }, None)]);
    assert!(employee_route(&map, &RunSeed(1)).is_none());
    map.set_rooms(Vec::new());
    assert!(employee_route(&map, &RunSeed(1)).is_none());
}

#[test]
fn a_two_tile_lobby_paces_both() {
    let mut map = open_map(8);
    map.set_rooms(vec![room(RoomKind::Lobby, TileRect { min_x: 3, min_y: 3, max_x: 4, max_y: 3 }, None)]);
    let (route, _) = employee_route(&map, &RunSeed(2)).unwrap();
    let mut sorted = route.clone();
    sorted.sort();
    assert_eq!(sorted, vec![(3, 3), (4, 3)]);
}

#[test]
fn waypoints_wrap_round() {
    assert_eq!(next_waypoint(0, 3), 1);
    assert_eq!(next_waypoint(1, 3), 2);
    assert_eq!(next_waypoint(2, 3), 0);
    assert_eq!(next_waypoint(0, 1), 0);
}

// ---- overlays ----

#[test]
fn emote_cells_fit_the_sheet() {
    let emotes = all_emotes();
    assert_eq!(emotes.len(), 6);
    for e in emotes {
        let (x, y) = e.cell();
        assert!(x + CELL_PX <= ATLAS_W_PX && y + CELL_PX <= ATLAS_H_PX);
    }
    assert_eq!(Emote::Question.cell(), (0, 80));
    assert_eq!(Emote::Exclamation.cell(), (32, 64));
    assert_eq!(Emote::Idea.cell(), (16, 32));
}

#[test]
fn the_searching_dots_cycle_one_two_three() {
    assert_eq!(searching_dots(0), Emote::Dots1);
    assert_eq!(searching_dots(1), Emote::Dots2);
    assert_eq!(searching_dots(2), Emote::Dots3);
    assert_eq!(searching_dots(3), Emote::Dots1);
    assert_eq!(searching_dots(-1), Emote::Dots3);
}

#[test]
fn the_glyph_follows_the_guard_state() {
    assert_eq!(emote_for(true, Mode::Patrol, false, 0), Some(Emote::Exclamation));
    assert_eq!(emote_for(false, Mode::Chase, false, 0), Some(Emote::Exclamation));
    assert_eq!(emote_for(false, Mode::Search, false, 4), Some(Emote::Dots2));
    assert_eq!(emote_for(false, Mode::Patrol, true, 0), Some(Emote::Question));
    assert_eq!(emote_for(false, Mode::Patrol, false, 0), None);
}

// ---- loading ----

#[test]
fn loading_waits_for_every_asset_to_settle() {
    let (l, f, p) = (LoadStatus::Loaded, LoadStatus::Failed, LoadStatus::Pending);
    assert!(loading_done(&Vec::new()));
    assert_eq!(tally(&vec![l, f, p, l]), (2, 3));
    assert!(!loading_done(&vec![l, f, p, l]));
    assert!(loading_done(&vec![l, f, l]));
}

// ---- debug keys, catches, coins, states ----

#[test]
fn debug_keys_toggle_their_switches() {
    let mut settings = DebugSettings::default();
    let mut gizmos = AdversaryGizmos::default();
    let mut catch = CatchConfig::default();
    assert!(!settings.enabled && settings.map_overlay);
    assert!(gizmos.vision_cones && gizmos.attention_meters);
    assert_eq!(catch.mode, CatchMode::Discard);
    let keys = DebugKeys { f3: true, f4: true, f8: true, ..no_keys() };
    assert!(!toggle_debug(keys, true, &mut settings, &mut gizmos, &mut catch));
    assert!(settings.enabled);
    assert!(!gizmos.vision_cones);
    assert!(gizmos.attention_meters);
    assert_eq!(catch.mode, CatchMode::Bank);
    let close = DebugKeys { f6: true, ..no_keys() };
    assert!(toggle_debug(close, true, &mut settings, &mut gizmos, &mut catch));
    assert!(!toggle_debug(close, false, &mut settings, &mut gizmos, &mut catch));
    assert!(settings.enabled);
}

#[test]
fn catch_modes_cycle_and_decide_the_outcome() {
    assert_eq!(CatchMode::default(), CatchMode::Discard);
    assert_eq!(CatchMode::Discard.next(), CatchMode::Bank);
    assert_eq!(CatchMode::Bank.next(), CatchMode::GameOver);
    assert_eq!(CatchMode::GameOver.next(), CatchMode::Discard);
    assert_eq!(CatchMode::Bank.label(), "bank ghost");
    assert_eq!(catch_outcome(CatchMode::Discard), CatchOutcome::CloseLoop { bank: false });
    assert_eq!(catch_outcome(CatchMode::Bank), CatchOutcome::CloseLoop { bank: true });
    assert_eq!(catch_outcome(CatchMode::GameOver), CatchOutcome::EnterState(GameState::GameOver));
}

#[test]
fn coins_are_tallied_and_come_back_each_loop() {
    let mut score = CoinScore::default();
    score.place();
    score.place();
    score.collect();
    assert_eq!((score.collected, score.total), (1, 2));
    score.reset_loop();
    assert_eq!((score.collected, score.total), (0, 2));
}

#[test]
fn escape_pauses_and_resumes() {
    assert_eq!(GameState::default(), GameState::Boot);
    assert_eq!(escape_target(GameState::Playing), Some(GameState::Paused));
    assert_eq!(escape_target(GameState::Paused), Some(GameState::Playing));
    assert_eq!(escape_target(GameState::MainMenu), None);
    assert_eq!(menu_target(MenuAction::StartGame), Some(GameState::Loading));
    assert_eq!(menu_target(MenuAction::QuitApp), None);
    assert!(InGame::compute(GameState::Paused).is_some());
    assert!(InGame::compute(GameState::GameOver).is_none());
}

// ---- guard navigation ----

#[test]
fn repath_keeps_the_old_route_when_the_goal_is_walled_off() {
    let mut map = open_map(6);
    for y in 0..6 {
        map.set(3, y, Tile::Wall);
    }
    let mut nav = Navigation::new();
    assert!(repath(&map, &mut nav, (0, 0), (2, 0)));
    assert_eq!(nav.path, vec![(1, 0), (2, 0)]);
    nav.index = 1;
    assert!(!repath(&map, &mut nav, (0, 0), (5, 5)));
    assert_eq!(nav.path, vec![(1, 0), (2, 0)]);
    assert_eq!(nav.index, 1);
}

#[test]
fn patrols_cycle_through_their_waypoints() {
    let map = open_map(8);
    let mut nav = Navigation::new();
    let mut route = PatrolRoute { waypoints: vec![(1, 1), (4, 1), (4, 4)], index: 0 };
    advance_patrol(&map, (1, 1), &mut nav, &mut route);
    assert_eq!(route.index, 1);
    assert_eq!(nav.path.last(), Some(&(4, 1)));
    assert_eq!(nav.path.len(), 3);
    route.index = 2;
    advance_patrol(&map, (4, 4), &mut nav, &mut route);
    assert_eq!(route.index, 0);
    assert_eq!(nav.path.last(), Some(&(1, 1)));
}

#[test]
fn a_search_walks_the_ring_round() {
    let map = open_map(12);
    let mut search = SearchPlan { points: Vec::new(), step: 0 };
    let mut nav = Navigation::new();
    begin_search(&map, (6, 6), Some((6, 6)), &mut search, &mut nav);
    assert!(!search.points.is_empty());
    assert_eq!(search.step, 1);
    assert_eq!(nav.path.last(), Some(&search.points[0]));
    let n = search.points.len();
    search.step = n;
    next_search_goal(&map, (6, 6), &mut search, &mut nav);
    assert_eq!(search.step, n + 1);
    assert_eq!(nav.path.last(), Some(&search.points[0]));
    let mut empty = SearchPlan { points: Vec::new(), step: 0 };
    begin_search(&map, (6, 6), None, &mut empty, &mut nav);
    assert!(empty.points.is_empty());
    assert_eq!(empty.step, 0);
}

#[test]
fn a_displaced_guard_walks_back_to_its_post() {
    let map = open_map(6);
    let mut nav = Navigation::new();
    return_to_post(&map, (1, 1), &mut nav, Some((1, 1)));
    assert!(nav.path.is_empty());
    return_to_post(&map, (1, 1), &mut nav, Some((3, 1)));
    assert_eq!(nav.path, vec![(2, 1), (3, 1)]);
}

#[test]
fn a_wanderer_heads_for_some_floor_tile() {
    let mut map = LevelMap::filled_with_walls(6, 6);
    map.set(1, 1, Tile::Floor);
    map.set(2, 1, Tile::Floor);
    let mut nav = Navigation::new();
    let mut rng = SmallRng::seed_from_u64(3);
    let dest = wander_to(&map, (1, 1), &mut nav, &mut rng);
    assert!(dest == (1, 1) || dest == (2, 1));
}

#[test]
fn newer_ghosts_are_prey_first() {
    assert_eq!(prey_order(&vec![0, 2, 1, 2]), vec![1, 3, 2, 0]);
    assert!(prey_order(&Vec::new()).is_empty());
}
