//! The floating emote glyphs shown over guards (and the code beacon): which
//! glyph a guard shows for its state, and where each glyph sits on the emote
//! sprite sheet.

use vstd::prelude::*;

use crate::adversary::brain::Mode;

verus! {

/// A sprite from the emote sheet.
#[derive(Clone, Copy, PartialEq, Eq, Debug, Hash, Structural)]
pub enum Emote {
    Question,
    Exclamation,
    Dots1,
    Dots2,
    Dots3,
    Idea,
}

/// Every emote, in sheet-building order.
pub fn all_emotes() -> (v: Vec<Emote>)
    ensures
        v@ == seq![Emote::Question, Emote::Exclamation, Emote::Dots1, Emote::Dots2, Emote::Dots3, Emote::Idea],
{
    let v = vec![Emote::Question, Emote::Exclamation, Emote::Dots1, Emote::Dots2, Emote::Dots3, Emote::Idea];
    assert(v@ == seq![Emote::Question, Emote::Exclamation, Emote::Dots1, Emote::Dots2, Emote::Dots3, Emote::Idea]);
    v
}

/// Width and height of one sprite cell on the sheet, in pixels.
pub const CELL_PX: u32 = 16;

/// Width of the sprite sheet, in pixels.
pub const ATLAS_W_PX: u32 = 80;

/// Height of the sprite sheet, in pixels.
pub const ATLAS_H_PX: u32 = 96;

impl Emote {
    /// The top-left pixel of this emote's cell on the sheet.
    pub fn cell(self) -> (c: (u32, u32))
        ensures
            c == match self {
                Emote::Question => (0u32, 80u32),
                Emote::Exclamation => (32u32, 64u32),
                Emote::Dots1 => (48u32, 48u32),
                Emote::Dots2 => (48u32, 32u32),
                Emote::Dots3 => (48u32, 16u32),
                Emote::Idea => (16u32, 32u32),
            },
            c.0 + CELL_PX <= ATLAS_W_PX,
            c.1 + CELL_PX <= ATLAS_H_PX,
    {
        match self {
            Emote::Question => (0, 80),
            Emote::Exclamation => (32, 64),
            Emote::Dots1 => (48, 48),
            Emote::Dots2 => (48, 32),
            Emote::Dots3 => (48, 16),
            Emote::Idea => (16, 32),
        }
    }
}

/// The dots frame for animation step `step`: one, two, three dots in turn
/// (counting steps before zero backwards round the same cycle).
pub open spec fn dots_frame(step: int) -> Emote {
    if step % 3 == 0 {
        Emote::Dots1
    } else if step % 3 == 1 {
        Emote::Dots2
    } else {
        Emote::Dots3
    }
}

/// The searching "..." frame for animation step `step`.
pub fn searching_dots(step: i64) -> (e: Emote)
    ensures
        e == dots_frame(step as int),
{
    let r = step % 3;
    let r = if r < 0 { r + 3 } else { r };
    if r == 0 {
        Emote::Dots1
    } else if r == 1 {
        Emote::Dots2
    } else {
        Emote::Dots3
    }
}

/// The glyph over a guard: `!` while it is about to chase or chasing, the
/// dots while searching, `?` when a patrolling guard is suspicious, nothing
/// otherwise.
pub fn emote_for(alerting: bool, mode: Mode, suspicious: bool, dots_step: i64) -> (e: Option<Emote>)
    ensures
        alerting ==> e == Some(Emote::Exclamation),
        !alerting && mode == Mode::Chase ==> e == Some(Emote::Exclamation),
        !alerting && mode == Mode::Search ==> e == Some(dots_frame(dots_step as int)),
        !alerting && mode == Mode::Patrol ==> e == if suspicious { Some(Emote::Question) } else { None },
{
    if alerting {
        return Some(Emote::Exclamation);
    }
    match mode {
        Mode::Chase => Some(Emote::Exclamation),
        Mode::Search => Some(searching_dots(dots_step)),
        Mode::Patrol => if suspicious {
            Some(Emote::Question)
        } else {
            None
        },
    }
}

} // verus!
