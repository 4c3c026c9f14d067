//! A guard's per-tick decisions: how its alertness moves on what its senses
//! report, where its vision cone points, and whether it walks, scans or
//! stands. The quantities behind the senses (interest, clocks, distances)
//! are measured by the caller; these functions decide on what was measured.

use vstd::prelude::*;

verus! {

/// A guard's top-level alertness state.
#[derive(Clone, Copy, PartialEq, Eq, Debug, Structural)]
pub enum Mode {
    /// Unaware: moving per the guard's kind, cone sweeping side to side.
    Patrol,
    /// Locked onto a target, pathing toward its last-seen position.
    Chase,
    /// Alarmed: lost the target but still hunting around where it was seen.
    Search,
}

/// What a guard's senses and clocks report on one tick.
#[derive(Clone, Copy, PartialEq, Eq, Debug, Structural)]
pub struct Senses {
    /// Interest stands at or above the chase threshold after this tick's
    /// sighting (or its absence) was folded in.
    pub roused: bool,
    /// The "spotted you!" beat ran out on this tick.
    pub beat_over: bool,
    /// A target is in view.
    pub spotted: bool,
    /// The guard has reached the end of the path it follows.
    pub arrived: bool,
    /// The search clock has run out.
    pub search_over: bool,
}

/// What a guard does about its alertness on one tick.
#[derive(Clone, Copy, PartialEq, Eq, Debug, Structural)]
pub enum Reaction {
    /// Roused, but the "spotted you!" beat is still running: hold it.
    Alerting,
    /// Below the threshold: clear any beat and carry on.
    Calm,
    /// Commit to a chase toward the last sighting.
    StartChase,
    /// Keep chasing, counting down to the next re-path.
    Pursue,
    /// Lost the quarry at its last-seen spot: search around it.
    StartSearch,
    /// Give up the search and return to patrol.
    StandDown,
}

/// Where the vision cone points on one tick.
#[derive(Clone, Copy, PartialEq, Eq, Debug, Structural)]
pub enum Gaze {
    /// Chasing: at the quarry's last-seen spot.
    Pursuit,
    /// Eyeing a target short of a chase: locked on its last-seen spot.
    Stare,
    /// On the move: straight along the heading.
    Ahead,
    /// Stopped: stepping through the look cadence around the heading.
    Scan,
}

/// How a guard moves on one tick.
#[derive(Clone, Copy, PartialEq, Eq, Debug, Structural)]
pub enum Motion {
    /// Walk toward the next waypoint.
    Walk,
    /// Walk toward the next waypoint, keeping the waypoint pause full.
    WalkRearmed,
    /// Pause at the waypoint; when the pause runs out, head for the next
    /// search tile.
    ScanThenSearch,
    /// Pause at the waypoint; when the pause runs out, head for the next
    /// patrol goal.
    ScanThenPatrol,
    /// Stay put.
    Stand,
}

/// The reaction of a guard in `mode` to what it senses: a rousing sighting
/// trips a chase once the beat runs out (from patrol or search alike); a
/// chase turns into a search only when the quarry is out of sight and its
/// last-seen spot reached; a search stands down only when calm and out of
/// time.
pub open spec fn reaction_of(mode: Mode, s: Senses) -> Reaction {
    match mode {
        Mode::Chase => if !s.spotted && s.arrived {
            Reaction::StartSearch
        } else {
            Reaction::Pursue
        },
        _ => if s.roused {
            if s.beat_over {
                Reaction::StartChase
            } else {
                Reaction::Alerting
            }
        } else if mode == Mode::Search && s.search_over {
            Reaction::StandDown
        } else {
            Reaction::Calm
        },
    }
}

/// The mode a guard is in after reacting.
pub open spec fn mode_after(mode: Mode, r: Reaction) -> Mode {
    match r {
        Reaction::StartChase => Mode::Chase,
        Reaction::StartSearch => Mode::Search,
        Reaction::StandDown => Mode::Patrol,
        _ => mode,
    }
}

/// Where the cone points: at the quarry while chasing, at the target while
/// eyeing it, along the heading while travelling, and through the scan
/// cadence while stopped.
pub open spec fn gaze_of(mode: Mode, eyeing: bool, traveling: bool) -> Gaze {
    if mode == Mode::Chase {
        Gaze::Pursuit
    } else if eyeing {
        Gaze::Stare
    } else if traveling {
        Gaze::Ahead
    } else {
        Gaze::Scan
    }
}

/// How the guard moves: a guard eyeing a target short of a chase stands and
/// stares; otherwise it walks while it has a path, and at the end of one it
/// pauses to scan before its next goal (a chasing guard just waits for its
/// next re-path).
pub open spec fn motion_of(mode: Mode, eyeing: bool, traveling: bool) -> Motion {
    if mode != Mode::Chase && eyeing {
        Motion::Stand
    } else if traveling {
        if mode == Mode::Chase {
            Motion::Walk
        } else {
            Motion::WalkRearmed
        }
    } else {
        match mode {
            Mode::Chase => Motion::Stand,
            Mode::Search => Motion::ScanThenSearch,
            Mode::Patrol => Motion::ScanThenPatrol,
        }
    }
}

/// Decide how a guard in `mode` reacts to this tick's senses.
pub fn react(mode: Mode, senses: Senses) -> (r: Reaction)
    ensures
        r == reaction_of(mode, senses),
{
    match mode {
        Mode::Chase => {
            if !senses.spotted && senses.arrived {
                Reaction::StartSearch
            } else {
                Reaction::Pursue
            }
        },
        _ => {
            if senses.roused {
                if senses.beat_over {
                    Reaction::StartChase
                } else {
                    Reaction::Alerting
                }
            } else if mode == Mode::Search && senses.search_over {
                Reaction::StandDown
            } else {
                Reaction::Calm
            }
        },
    }
}

/// The mode a guard in `mode` is in after reaction `r`.
pub fn next_mode(mode: Mode, r: Reaction) -> (m: Mode)
    ensures
        m == mode_after(mode, r),
{
    match r {
        Reaction::StartChase => Mode::Chase,
        Reaction::StartSearch => Mode::Search,
        Reaction::StandDown => Mode::Patrol,
        _ => mode,
    }
}

/// Decide where the cone points. `eyeing` says interest stands above the
/// mode's resting level; `traveling` that the guard has path left to walk.
pub fn gaze(mode: Mode, eyeing: bool, traveling: bool) -> (g: Gaze)
    ensures
        g == gaze_of(mode, eyeing, traveling),
        mode == Mode::Chase ==> g == Gaze::Pursuit,
        mode != Mode::Chase && eyeing ==> g == Gaze::Stare,
        g == Gaze::Ahead ==> traveling && !eyeing && mode != Mode::Chase,
        g == Gaze::Scan ==> !traveling && !eyeing && mode != Mode::Chase,
{
    if mode == Mode::Chase {
        Gaze::Pursuit
    } else if eyeing {
        Gaze::Stare
    } else if traveling {
        Gaze::Ahead
    } else {
        Gaze::Scan
    }
}

/// Decide how the guard moves, on the same readings as [`gaze`].
pub fn motion(mode: Mode, eyeing: bool, traveling: bool) -> (m: Motion)
    ensures
        m == motion_of(mode, eyeing, traveling),
{
    if mode != Mode::Chase && eyeing {
        Motion::Stand
    } else if traveling {
        if mode == Mode::Chase {
            Motion::Walk
        } else {
            Motion::WalkRearmed
        }
    } else {
        match mode {
            Mode::Chase => Motion::Stand,
            Mode::Search => Motion::ScanThenSearch,
            Mode::Patrol => Motion::ScanThenPatrol,
        }
    }
}

/// Crossing the interest threshold trips a guard into a chase once the
/// "spotted you!" beat runs out, whether it was patrolling or searching;
/// until the beat runs out it holds its mode.
pub proof fn lemma_rousing_trips_chase(mode: Mode, s: Senses)
    requires
        mode != Mode::Chase,
        s.roused,
    ensures
        mode_after(mode, reaction_of(mode, s)) == if s.beat_over {
            Mode::Chase
        } else {
            mode
        },
{
}

/// A chase never ends straight in a patrol: the guard keeps chasing, or,
/// with its quarry out of sight and the last-seen spot reached, searches.
pub proof fn lemma_chase_ends_in_search(s: Senses)
    ensures
        mode_after(Mode::Chase, reaction_of(Mode::Chase, s)) == if !s.spotted && s.arrived {
            Mode::Search
        } else {
            Mode::Chase
        },
{
}

/// An alerted guard only stands down from a search, and only when it is calm
/// and its search clock has run out; an unaware guard never starts searching
/// on its own.
pub proof fn lemma_stand_down_only_from_search(mode: Mode, s: Senses)
    ensures
        mode != Mode::Patrol && mode_after(mode, reaction_of(mode, s)) == Mode::Patrol ==> mode
            == Mode::Search && !s.roused && s.search_over,
        mode == Mode::Patrol ==> mode_after(mode, reaction_of(mode, s)) != Mode::Search,
{
}

/// A chasing guard's cone stays on its quarry's last-seen spot whether it is
/// walking or standing, eyeing or not; the cone only follows the heading or
/// sweeps when the guard is neither chasing nor eyeing a target.
pub proof fn lemma_chase_locks_on(mode: Mode, eyeing: bool, traveling: bool)
    ensures
        mode == Mode::Chase ==> gaze_of(mode, eyeing, traveling) == Gaze::Pursuit,
        gaze_of(mode, eyeing, traveling) == Gaze::Pursuit ==> mode == Mode::Chase,
        gaze_of(mode, eyeing, traveling) == Gaze::Ahead || gaze_of(mode, eyeing, traveling) == Gaze::Scan
            ==> mode != Mode::Chase && !eyeing,
        mode != Mode::Chase && !eyeing ==> (gaze_of(mode, eyeing, traveling) == Gaze::Ahead <==> traveling),
{
}

/// A chasing guard keeps walking its route while it has one and never stops
/// to scan; a guard that is neither chasing nor eyeing a target walks while
/// it has path left and otherwise scans before its next goal.
pub proof fn lemma_chase_keeps_moving(mode: Mode, eyeing: bool, traveling: bool)
    ensures
        mode == Mode::Chase ==> motion_of(mode, eyeing, traveling) == if traveling {
            Motion::Walk
        } else {
            Motion::Stand
        },
        mode != Mode::Chase && !eyeing && traveling ==> motion_of(mode, eyeing, traveling) == Motion::WalkRearmed,
        mode != Mode::Chase && !eyeing && !traveling ==> motion_of(mode, eyeing, traveling) == if mode
            == Mode::Search {
            Motion::ScanThenSearch
        } else {
            Motion::ScanThenPatrol
        },
{
}

/// A guard eyeing a target short of a chase locks its cone on the target and
/// halts to stare it down; the cone only sweeps while the guard stands at a
/// waypoint.
pub proof fn lemma_eyeing_halts(mode: Mode, eyeing: bool, traveling: bool)
    ensures
        mode != Mode::Chase && eyeing ==> gaze_of(mode, eyeing, traveling) == Gaze::Stare && motion_of(
            mode,
            eyeing,
            traveling,
        ) == Motion::Stand,
        gaze_of(mode, eyeing, traveling) == Gaze::Scan ==> !traveling && (motion_of(mode, eyeing, traveling)
            == Motion::ScanThenSearch || motion_of(mode, eyeing, traveling) == Motion::ScanThenPatrol),
{
}

} // verus!
