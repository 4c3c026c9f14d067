//! The coin tally: how many coins were placed, and how many have been picked
//! up this loop (by the player or a replaying ghost).

use vstd::prelude::*;

verus! {

/// Running tally of coins collected versus how many were placed.
#[derive(Clone, Copy, Debug)]
pub struct CoinScore {
    pub collected: u32,
    pub total: u32,
}

impl Default for CoinScore {
    fn default() -> (s: Self)
        ensures
            s.collected == 0,
            s.total == 0,
    {
        CoinScore { collected: 0, total: 0 }
    }
}

impl CoinScore {
    /// One more coin was placed in the level.
    pub fn place(&mut self)
        requires
            old(self).total < u32::MAX,
        ensures
            final(self).total == old(self).total + 1,
            final(self).collected == old(self).collected,
    {
        self.total = self.total + 1;
    }

    /// A collector picked up a coin.
    pub fn collect(&mut self)
        requires
            old(self).collected < u32::MAX,
        ensures
            final(self).collected == old(self).collected + 1,
            final(self).total == old(self).total,
    {
        self.collected = self.collected + 1;
    }

    /// A loop restart brings every coin back: nothing is collected.
    pub fn reset_loop(&mut self)
        ensures
            final(self).collected == 0,
            final(self).total == old(self).total,
    {
        self.collected = 0;
    }
}

} // verus!
