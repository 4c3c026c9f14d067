//! Time looping: each loop's recording of the player, and the bank of earlier
//! loops that replay as ghosts. Closing a loop banks the run just played
//! (unless it is discarded, or nothing was recorded) and starts a fresh
//! recording; every banked run then replays, oldest first.

use vstd::prelude::*;

verus! {

/// The bank after closing a loop that recorded `current`.
pub open spec fn after_close<T>(current: Vec<T>, banked: Seq<Vec<T>>, bank: bool) -> Seq<Vec<T>> {
    if bank && current@.len() > 0 {
        banked.push(current)
    } else {
        banked
    }
}

/// The recording under way and the runs banked from earlier loops, one ghost
/// each; a banked run's position is the loop index its ghost replays.
pub struct LoopLedger<T> {
    pub current: Vec<T>,
    pub banked: Vec<Vec<T>>,
}

impl<T> LoopLedger<T> {
    /// A fresh level: nothing recorded, nothing banked.
    pub fn new() -> (l: Self)
        ensures
            l.current@.len() == 0,
            l.banked@.len() == 0,
    {
        LoopLedger { current: Vec::new(), banked: Vec::new() }
    }

    /// Record one more sample of the loop under way.
    pub fn record(&mut self, sample: T)
        ensures
            final(self).current@ == old(self).current@.push(sample),
            final(self).banked@ == old(self).banked@,
    {
        self.current.push(sample);
    }

    /// Close the loop: bank the run just played when `bank` is set and it
    /// recorded anything, then start an empty recording. Returns how many
    /// ghosts now replay.
    pub fn close(&mut self, bank: bool) -> (ghosts: usize)
        ensures
            final(self).current@.len() == 0,
            final(self).banked@ == after_close(old(self).current, old(self).banked@, bank),
            ghosts == final(self).banked@.len(),
            !bank ==> final(self).banked@ == old(self).banked@,
            bank && old(self).current@.len() > 0 ==> final(self).banked@ == old(self).banked@.push(old(self).current)
                && ghosts == old(self).banked@.len() + 1,
    {
        let mut recording: Vec<T> = Vec::new();
        std::mem::swap(&mut recording, &mut self.current);
        if bank && recording.len() > 0 {
            self.banked.push(recording);
        }
        self.banked.len()
    }

    /// Forget every recording: a fresh level starts with no ghosts.
    pub fn reset(&mut self)
        ensures
            final(self).current@.len() == 0,
            final(self).banked@.len() == 0,
    {
        self.current = Vec::new();
        self.banked = Vec::new();
    }
}

/// A discarded loop leaves no ghost: closing without banking keeps the bank
/// as it was, whatever the loop recorded. A banked loop that recorded
/// anything adds exactly its own run, last; one that recorded nothing adds
/// nothing.
pub proof fn lemma_discard_keeps_bank<T>(current: Vec<T>, banked: Seq<Vec<T>>)
    ensures
        after_close(current, banked, false) == banked,
        current@.len() > 0 ==> after_close(current, banked, true) == banked.push(current),
        current@.len() == 0 ==> after_close(current, banked, true) == banked,
{
}

/// Closing a loop twice in a row banks at most the first run: the second
/// close finds nothing recorded and leaves the bank as it was; a banked run
/// keeps every earlier one in place and adds exactly one ghost.
pub proof fn lemma_close_twice<T>(current: Vec<T>, empty: Vec<T>, banked: Seq<Vec<T>>, first: bool, second: bool)
    requires
        empty@.len() == 0,
    ensures
        after_close(empty, after_close(current, banked, first), second) == after_close(current, banked, first),
        after_close(current, banked, first).len() <= banked.len() + 1,
        after_close(current, banked, first).take(banked.len() as int) == banked,
{
    assert(after_close(current, banked, first).take(banked.len() as int) =~= banked);
}

} // verus!
