//! The loading gate: play starts once every scene the world build kicked off
//! has settled (loaded, or failed and given up on), so the first played frame
//! is fully textured.

use vstd::prelude::*;

verus! {

/// Where one tracked asset's load stands.
#[derive(Clone, Copy, PartialEq, Eq, Debug, Structural)]
pub enum LoadStatus {
    /// Loaded together with everything it depends on.
    Loaded,
    /// The load (or one of its dependencies) failed.
    Failed,
    /// Still streaming in.
    Pending,
}

/// Number of entries equal to `want` among the first statuses.
pub open spec fn count_status(s: Seq<LoadStatus>, want: LoadStatus) -> nat
    decreases s.len(),
{
    if s.len() == 0 {
        0
    } else {
        count_status(s.drop_last(), want) + if s.last() == want {
            1nat
        } else {
            0nat
        }
    }
}

/// How many tracked assets are ready and how many have settled (ready or
/// failed).
pub fn tally(statuses: &Vec<LoadStatus>) -> (r: (usize, usize))
    ensures
        r.0 == count_status(statuses@, LoadStatus::Loaded),
        r.1 == count_status(statuses@, LoadStatus::Loaded) + count_status(statuses@, LoadStatus::Failed),
{
    let mut ready: usize = 0;
    let mut settled: usize = 0;
    let mut i: usize = 0;
    while i < statuses.len()
        invariant
            0 <= i <= statuses@.len(),
            ready == count_status(statuses@.take(i as int), LoadStatus::Loaded),
            settled == count_status(statuses@.take(i as int), LoadStatus::Loaded) + count_status(
                statuses@.take(i as int),
                LoadStatus::Failed,
            ),
            settled <= i,
        decreases statuses@.len() - i,
    {
        proof {
            assert(statuses@.take(i + 1).drop_last() == statuses@.take(i as int));
        }
        match statuses[i] {
            LoadStatus::Loaded => {
                ready = ready + 1;
                settled = settled + 1;
            },
            LoadStatus::Failed => {
                settled = settled + 1;
            },
            LoadStatus::Pending => {},
        }
        i = i + 1;
    }
    proof {
        assert(statuses@.take(i as int) == statuses@);
    }
    (ready, settled)
}

/// Whether play can begin: every tracked asset has settled (true at once
/// when nothing is tracked).
pub fn loading_done(statuses: &Vec<LoadStatus>) -> (done: bool)
    ensures
        done == (count_status(statuses@, LoadStatus::Pending) == 0),
{
    let (_, settled) = tally(statuses);
    proof {
        lemma_counts_add_up(statuses@);
    }
    settled == statuses.len()
}

/// Every status is exactly one of the three kinds.
pub proof fn lemma_counts_add_up(s: Seq<LoadStatus>)
    ensures
        count_status(s, LoadStatus::Loaded) + count_status(s, LoadStatus::Failed) + count_status(
            s,
            LoadStatus::Pending,
        ) == s.len(),
    decreases s.len(),
{
    if s.len() > 0 {
        lemma_counts_add_up(s.drop_last());
    }
}

} // verus!
