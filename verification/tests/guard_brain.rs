use stolen_moments::adversary::brain::{
    gaze, motion, next_mode, react, Gaze, Mode, Motion, Reaction, Senses,
};

fn senses(roused: bool, beat_over: bool, spotted: bool, arrived: bool, search_over: bool) -> Senses {
    Senses { roused, beat_over, spotted, arrived, search_over }
}

#[test]
fn a_rousing_sighting_holds_the_beat_then_trips_a_chase() {
    let held = react(Mode::Patrol, senses(true, false, true, false, false));
    assert_eq!(held, Reaction::Alerting);
    assert_eq!(next_mode(Mode::Patrol, held), Mode::Patrol);
    let tripped = react(Mode::Patrol, senses(true, true, true, false, false));
    assert_eq!(tripped, Reaction::StartChase);
    assert_eq!(next_mode(Mode::Patrol, tripped), Mode::Chase);
}

#[test]
fn a_calm_patrol_stays_a_patrol() {
    for spotted in [false, true] {
        for arrived in [false, true] {
            for search_over in [false, true] {
                let r = react(Mode::Patrol, senses(false, true, spotted, arrived, search_over));
                assert_eq!(r, Reaction::Calm);
                assert_eq!(next_mode(Mode::Patrol, r), Mode::Patrol);
            }
        }
    }
}

#[test]
fn a_chase_turns_into_a_search_only_when_the_quarry_is_lost_at_its_spot() {
    let lost = react(Mode::Chase, senses(false, false, false, true, false));
    assert_eq!(lost, Reaction::StartSearch);
    assert_eq!(next_mode(Mode::Chase, lost), Mode::Search);
    assert_eq!(react(Mode::Chase, senses(false, false, true, true, false)), Reaction::Pursue);
    assert_eq!(react(Mode::Chase, senses(true, true, false, false, true)), Reaction::Pursue);
    assert_eq!(next_mode(Mode::Chase, Reaction::Pursue), Mode::Chase);
}

#[test]
fn a_glimpse_while_searching_snaps_back_into_the_chase() {
    let r = react(Mode::Search, senses(true, true, true, false, true));
    assert_eq!(r, Reaction::StartChase);
    assert_eq!(next_mode(Mode::Search, r), Mode::Chase);
    assert_eq!(react(Mode::Search, senses(true, false, true, false, true)), Reaction::Alerting);
}

#[test]
fn a_search_stands_down_when_calm_and_out_of_time() {
    let r = react(Mode::Search, senses(false, false, false, true, true));
    assert_eq!(r, Reaction::StandDown);
    assert_eq!(next_mode(Mode::Search, r), Mode::Patrol);
    let r = react(Mode::Search, senses(false, false, false, true, false));
    assert_eq!(r, Reaction::Calm);
    assert_eq!(next_mode(Mode::Search, r), Mode::Search);
}

#[test]
fn the_cone_follows_the_guards_state() {
    assert_eq!(gaze(Mode::Chase, false, false), Gaze::Pursuit);
    assert_eq!(gaze(Mode::Chase, true, true), Gaze::Pursuit);
    assert_eq!(gaze(Mode::Patrol, true, true), Gaze::Stare);
    assert_eq!(gaze(Mode::Search, false, true), Gaze::Ahead);
    assert_eq!(gaze(Mode::Patrol, false, false), Gaze::Scan);
}

#[test]
fn an_eyeing_guard_halts_and_others_walk_or_scan() {
    assert_eq!(motion(Mode::Patrol, true, true), Motion::Stand);
    assert_eq!(motion(Mode::Search, true, false), Motion::Stand);
    assert_eq!(motion(Mode::Chase, true, true), Motion::Walk);
    assert_eq!(motion(Mode::Patrol, false, true), Motion::WalkRearmed);
    assert_eq!(motion(Mode::Search, false, false), Motion::ScanThenSearch);
    assert_eq!(motion(Mode::Patrol, false, false), Motion::ScanThenPatrol);
    assert_eq!(motion(Mode::Chase, false, false), Motion::Stand);
}
