//! Developer controls: the function keys that toggle the debug overlay, the
//! guard overlays, the map overlay and the catch tuning, and force a loop.

use vstd::prelude::*;

use crate::adversary::AdversaryGizmos;
use crate::catch::{next_mode, CatchConfig};

verus! {

/// The debug overlay's switches.
#[derive(Clone, Copy, Debug)]
pub struct DebugSettings {
    pub enabled: bool,
    pub map_overlay: bool,
}

impl Default for DebugSettings {
    fn default() -> (s: Self)
        ensures
            !s.enabled,
            s.map_overlay,
    {
        DebugSettings { enabled: false, map_overlay: true }
    }
}

/// Which debug keys were pressed this frame.
#[derive(Clone, Copy, Debug)]
pub struct DebugKeys {
    /// Toggle the debug overlay.
    pub f3: bool,
    /// Toggle the vision cones.
    pub f4: bool,
    /// Toggle the map overlay.
    pub f5: bool,
    /// Force the loop closed (while playing).
    pub f6: bool,
    /// Toggle the guard attention overlays.
    pub f7: bool,
    /// Cycle what a catch does.
    pub f8: bool,
    /// Toggle the grab meter.
    pub f9: bool,
}

/// Apply this frame's debug keys. Returns whether to request a banked loop
/// close (F6, only while playing).
pub fn toggle_debug(
    keys: DebugKeys,
    playing: bool,
    settings: &mut DebugSettings,
    gizmos: &mut AdversaryGizmos,
    catch: &mut CatchConfig,
) -> (close: bool)
    ensures
        final(settings).enabled == (old(settings).enabled != keys.f3),
        final(settings).map_overlay == (old(settings).map_overlay != keys.f5),
        final(gizmos).vision_cones == (old(gizmos).vision_cones != keys.f4),
        final(gizmos).attention_meters == (old(gizmos).attention_meters != keys.f7),
        final(catch).mode == if keys.f8 { next_mode(old(catch).mode) } else { old(catch).mode },
        final(catch).show_grab_meter == (old(catch).show_grab_meter != keys.f9),
        close == (keys.f6 && playing),
{
    if keys.f3 {
        settings.enabled = !settings.enabled;
    }
    if keys.f4 {
        gizmos.vision_cones = !gizmos.vision_cones;
    }
    if keys.f5 {
        settings.map_overlay = !settings.map_overlay;
    }
    let close = keys.f6 && playing;
    if keys.f7 {
        gizmos.attention_meters = !gizmos.attention_meters;
    }
    if keys.f8 {
        catch.mode = catch.mode.next();
    }
    if keys.f9 {
        catch.show_grab_meter = !catch.show_grab_meter;
    }
    close
}

} // verus!
