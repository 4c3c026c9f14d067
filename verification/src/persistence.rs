//! Cross-loop persistence: the knowledge that survives a loop reset. A heist
//! is built on learning — a code discovered on one run is still known on the
//! next — so learned facts are kept until a brand-new level is built.

use vstd::prelude::*;

verus! {

/// A piece of knowledge that, once learned, persists across loops within a
/// session.
#[derive(Clone, Copy, PartialEq, Eq, Debug, Structural)]
pub enum Fact {
    /// The player has discovered the vault code and can open the vault directly.
    VaultCodeKnown,
}

/// How an entity's physical state behaves when a loop resets.
#[derive(Clone, Copy, PartialEq, Eq, Debug, Structural)]
pub enum PersistPolicy {
    /// Reverts to its spawn state on every loop (a vault door re-locks).
    ResetEachLoop,
    /// Keeps its current state across loops once changed.
    KeepForever,
}

/// Knowledge that survives a loop reset, cleared only when a fresh level is
/// built. Each fact is held once.
pub struct Persistent {
    facts: Vec<Fact>,
}

impl Persistent {
    /// No fact is held twice.
    pub closed spec fn wf(self) -> bool {
        forall|a: int, b: int| 0 <= a < b < self.facts@.len() ==> self.facts@[a] != self.facts@[b]
    }

    /// The set of learned facts.
    pub closed spec fn known(self) -> Set<Fact> {
        self.facts@.to_set()
    }

    /// Nothing is known yet.
    pub fn new() -> (p: Self)
        ensures
            p.wf(),
            p.known() == Set::<Fact>::empty(),
    {
        let p = Persistent { facts: Vec::new() };
        assert(p.facts@.to_set() =~= Set::<Fact>::empty());
        p
    }

    /// Whether `fact` has been learned this session.
    pub fn knows(&self, fact: Fact) -> (b: bool)
        ensures
            b == self.known().contains(fact),
    {
        let mut i: usize = 0;
        while i < self.facts.len()
            invariant
                0 <= i <= self.facts@.len(),
                forall|j: int| 0 <= j < i ==> self.facts@[j] != fact,
            decreases self.facts@.len() - i,
        {
            if self.facts[i] == fact {
                assert(self.facts@.contains(fact));
                return true;
            }
            i = i + 1;
        }
        assert(!self.facts@.contains(fact));
        false
    }

    /// Record `fact` as known. Returns `true` if it was newly learned (so
    /// callers can fire one-shot feedback), `false` if it was already known.
    pub fn learn(&mut self, fact: Fact) -> (novel: bool)
        requires
            old(self).wf(),
        ensures
            final(self).wf(),
            novel == !old(self).known().contains(fact),
            final(self).known() == old(self).known().insert(fact),
    {
        if self.knows(fact) {
            proof {
                assert(self.known().insert(fact) =~= self.known());
            }
            false
        } else {
            let ghost before = self.facts@;
            self.facts.push(fact);
            proof {
                assert(self.facts@.to_set() =~= before.to_set().insert(fact)) by {
                    assert forall|f: Fact| self.facts@.contains(f) <==> before.contains(f) || f == fact by {
                        if self.facts@.contains(f) && f != fact {
                            let k = choose|k: int| 0 <= k < self.facts@.len() && self.facts@[k] == f;
                            assert(k < before.len());
                            assert(before[k] == f);
                        }
                        if before.contains(f) {
                            let k = choose|k: int| 0 <= k < before.len() && before[k] == f;
                            assert(self.facts@[k] == f);
                        }
                        if f == fact {
                            assert(self.facts@[before.len() as int] == f);
                        }
                    }
                }
                assert forall|a: int, b: int| 0 <= a < b < self.facts@.len() implies self.facts@[a] != self.facts@[b] by {
                    if b == before.len() {
                        assert(before.contains(before[a]));
                    }
                }
            }
            true
        }
    }

    /// Forget everything: a fresh level starts with nothing known.
    pub fn clear(&mut self)
        ensures
            final(self).wf(),
            final(self).known() == Set::<Fact>::empty(),
    {
        self.facts = Vec::new();
        assert(self.facts@.to_set() =~= Set::<Fact>::empty());
    }
}

impl Default for Persistent {
    fn default() -> (p: Self)
        ensures
            p.wf(),
            p.known() == Set::<Fact>::empty(),
    {
        Persistent::new()
    }
}

/// Learning a fact twice changes nothing the second time, and a learned fact
/// is known.
pub proof fn lemma_learn_idempotent(known: Set<Fact>, fact: Fact)
    ensures
        known.insert(fact).contains(fact),
        known.insert(fact).insert(fact) == known.insert(fact),
{
    assert(known.insert(fact).insert(fact) =~= known.insert(fact));
}

} // verus!
