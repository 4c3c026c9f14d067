use stolen_moments::persistence::{Fact, Persistent};
use stolen_moments::seed::{fnv1a, splitmix64, RunSeed};

#[test]
fn derive_is_deterministic() {
    let s = RunSeed(12345);
    assert_eq!(s.derive("dungeon"), s.derive("dungeon"));
    assert_eq!(s.derive_indexed("adversary", 3), s.derive_indexed("adversary", 3));
}

#[test]
fn distinct_labels_and_indices_differ() {
    let s = RunSeed(12345);
    assert_ne!(s.derive("dungeon"), s.derive("props"));
    assert_ne!(s.derive("adversary"), s.derive_indexed("adversary", 0));
    assert_ne!(s.derive_indexed("adversary", 0), s.derive_indexed("adversary", 1));
}

#[test]
fn distinct_masters_differ() {
    assert_ne!(RunSeed(1).derive("dungeon"), RunSeed(2).derive("dungeon"));
}

#[test]
fn fnv1a_matches_known_values() {
    assert_eq!(fnv1a(b""), 0xcbf2_9ce4_8422_2325);
    assert_eq!(fnv1a(b"a"), 0xaf63_dc4c_8601_ec8c);
}

#[test]
fn splitmix64_matches_reference_outputs() {
    assert_eq!(splitmix64(0), 0xe220_a839_7b1d_cdaf);
    assert_eq!(RunSeed(0).derive(""), splitmix64(0xcbf2_9ce4_8422_2325));
}

#[test]
fn learn_is_idempotent_and_reports_novelty() {
    let mut p = Persistent::default();
    assert!(!p.knows(Fact::VaultCodeKnown));
    assert!(p.learn(Fact::VaultCodeKnown), "first learn is novel");
    assert!(p.knows(Fact::VaultCodeKnown));
    assert!(!p.learn(Fact::VaultCodeKnown), "re-learning a known fact is not novel");
}

#[test]
fn clearing_forgets_learned_facts() {
    let mut p = Persistent::default();
    p.learn(Fact::VaultCodeKnown);
    p.clear();
    assert!(!p.knows(Fact::VaultCodeKnown));
    assert!(p.learn(Fact::VaultCodeKnown));
}
