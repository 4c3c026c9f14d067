//! Adversaries: the guards' pathfinding over the level grid ([`path`]),
//! their placement against the level's objectives ([`spawn`]), the
//! decisions that route them between waypoints ([`nav`]), and their
//! per-tick alertness, gaze and movement decisions ([`brain`]).

pub mod path;
pub mod spawn;
pub mod nav;
pub mod brain;

use vstd::prelude::*;

verus! {

/// Which guard overlays are drawn: the swept vision cones, and the floating
/// emote and attention bar. Both gameplay-relevant, so both default on.
#[derive(Clone, Copy, Debug)]
pub struct AdversaryGizmos {
    pub vision_cones: bool,
    pub attention_meters: bool,
}

impl Default for AdversaryGizmos {
    fn default() -> (g: Self)
        ensures
            g.vision_cones,
            g.attention_meters,
    {
        AdversaryGizmos { vision_cones: true, attention_meters: true }
    }
}

} // verus!
