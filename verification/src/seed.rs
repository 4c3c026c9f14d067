//! Whole-simulation determinism: one master seed per session, with stable
//! sub-seeds derived per subsystem, so a given seed reproduces identical
//! levels and guard routes on every loop.

use vstd::prelude::*;
use vstd::string::StringSliceAdditionalSpecFns;

verus! {

/// FNV-1a offset basis.
pub const FNV_OFFSET: u64 = 0xcbf2_9ce4_8422_2325;

/// FNV-1a prime.
pub const FNV_PRIME: u64 = 0x0000_0100_0000_01b3;

/// The FNV-1a hash of a byte string.
pub open spec fn fnv_hash(bytes: Seq<u8>) -> u64
    decreases bytes.len(),
{
    if bytes.len() == 0 {
        FNV_OFFSET
    } else {
        (fnv_hash(bytes.drop_last()) ^ (bytes.last() as u64)).wrapping_mul(FNV_PRIME)
    }
}

/// The splitmix64 finalising mixer.
pub open spec fn mix64(x: u64) -> u64 {
    let a = x.wrapping_add(0x9e37_79b9_7f4a_7c15);
    let b = (a ^ (a >> 30u64)).wrapping_mul(0xbf58_476d_1ce4_e5b9);
    let c = (b ^ (b >> 27u64)).wrapping_mul(0x94d0_49bb_1331_11eb);
    c ^ (c >> 31u64)
}

/// The master seed for a session. Subsystems never use it directly; they
/// derive an independent, stable sub-seed from it.
#[derive(Clone, Copy, Debug)]
pub struct RunSeed(pub u64);

/// The sub-seed for subsystem `label` under master seed `master`.
pub open spec fn derived(master: u64, label: Seq<u8>) -> u64 {
    mix64(master ^ fnv_hash(label))
}

/// The sub-seed for instance `index` of subsystem `label`.
pub open spec fn derived_indexed(master: u64, label: Seq<u8>, index: u64) -> u64 {
    mix64(derived(master, label) ^ mix64(index))
}

/// FNV-1a hash of a byte string.
pub fn fnv1a(bytes: &[u8]) -> (h: u64)
    ensures
        h == fnv_hash(bytes@),
{
    let mut h: u64 = FNV_OFFSET;
    let mut i: usize = 0;
    while i < bytes.len()
        invariant
            0 <= i <= bytes@.len(),
            h == fnv_hash(bytes@.take(i as int)),
        decreases bytes@.len() - i,
    {
        proof {
            assert(bytes@.take(i + 1).drop_last() == bytes@.take(i as int));
        }
        h = h ^ (bytes[i] as u64);
        h = h.wrapping_mul(FNV_PRIME);
        i = i + 1;
    }
    proof {
        assert(bytes@.take(i as int) == bytes@);
    }
    h
}

/// The splitmix64 finalising mixer: scrambles a seed so derived streams
/// share no structure with the master or each other.
pub fn splitmix64(x: u64) -> (r: u64)
    ensures
        r == mix64(x),
{
    let mut x = x;
    x = x.wrapping_add(0x9e37_79b9_7f4a_7c15);
    x = (x ^ (x >> 30)).wrapping_mul(0xbf58_476d_1ce4_e5b9);
    x = (x ^ (x >> 27)).wrapping_mul(0x94d0_49bb_1331_11eb);
    x ^ (x >> 31)
}

impl RunSeed {
    /// A stable sub-seed for a named subsystem: the FNV-1a hash of the label
    /// mixed with the master seed through splitmix64.
    pub fn derive(&self, label: &str) -> (s: u64)
        ensures
            s == derived(self.0, label.spec_bytes()),
    {
        splitmix64(self.0 ^ fnv1a(label.as_bytes()))
    }

    /// A stable sub-seed for one of many instances of a subsystem, keeping
    /// each instance's stream distinct.
    pub fn derive_indexed(&self, label: &str, index: usize) -> (s: u64)
        ensures
            s == derived_indexed(self.0, label.spec_bytes(), index as u64),
    {
        splitmix64(self.derive(label) ^ splitmix64(index as u64))
    }
}

/// `x ^ (x >> k)` undoes itself back to `x`: xorshift steps lose nothing.
proof fn lemma_xorshift30_injective(x: u64, y: u64)
    requires
        x ^ (x >> 30u64) == y ^ (y >> 30u64),
    ensures
        x == y,
{
    assert(x ^ (x >> 30u64) == y ^ (y >> 30u64) ==> x == y) by (bit_vector);
}

proof fn lemma_xorshift27_injective(x: u64, y: u64)
    requires
        x ^ (x >> 27u64) == y ^ (y >> 27u64),
    ensures
        x == y,
{
    assert(x ^ (x >> 27u64) == y ^ (y >> 27u64) ==> x == y) by (bit_vector);
}

proof fn lemma_xorshift31_injective(x: u64, y: u64)
    requires
        x ^ (x >> 31u64) == y ^ (y >> 31u64),
    ensures
        x == y,
{
    assert(x ^ (x >> 31u64) == y ^ (y >> 31u64) ==> x == y) by (bit_vector);
}

proof fn lemma_mul_first_injective(x: u64, y: u64)
    requires
        x.wrapping_mul(0xbf58_476d_1ce4_e5b9) == y.wrapping_mul(0xbf58_476d_1ce4_e5b9),
    ensures
        x == y,
{
    assert(x.wrapping_mul(0xbf58_476d_1ce4_e5b9).wrapping_mul(0x96de_1b17_3f11_9089) == x) by (bit_vector);
    assert(y.wrapping_mul(0xbf58_476d_1ce4_e5b9).wrapping_mul(0x96de_1b17_3f11_9089) == y) by (bit_vector);
}

proof fn lemma_mul_second_injective(x: u64, y: u64)
    requires
        x.wrapping_mul(0x94d0_49bb_1331_11eb) == y.wrapping_mul(0x94d0_49bb_1331_11eb),
    ensures
        x == y,
{
    assert(x.wrapping_mul(0x94d0_49bb_1331_11eb).wrapping_mul(0x3196_42b2_d24d_8ec3) == x) by (bit_vector);
    assert(y.wrapping_mul(0x94d0_49bb_1331_11eb).wrapping_mul(0x3196_42b2_d24d_8ec3) == y) by (bit_vector);
}

/// splitmix64 never sends two seeds to the same value.
pub proof fn lemma_mix64_injective(x: u64, y: u64)
    requires
        mix64(x) == mix64(y),
    ensures
        x == y,
{
    let ax = x.wrapping_add(0x9e37_79b9_7f4a_7c15);
    let ay = y.wrapping_add(0x9e37_79b9_7f4a_7c15);
    let bx = (ax ^ (ax >> 30u64)).wrapping_mul(0xbf58_476d_1ce4_e5b9);
    let by = (ay ^ (ay >> 30u64)).wrapping_mul(0xbf58_476d_1ce4_e5b9);
    let cx = (bx ^ (bx >> 27u64)).wrapping_mul(0x94d0_49bb_1331_11eb);
    let cy = (by ^ (by >> 27u64)).wrapping_mul(0x94d0_49bb_1331_11eb);
    lemma_xorshift31_injective(cx, cy);
    lemma_mul_second_injective(bx ^ (bx >> 27u64), by ^ (by >> 27u64));
    lemma_xorshift27_injective(bx, by);
    lemma_mul_first_injective(ax ^ (ax >> 30u64), ay ^ (ay >> 30u64));
    lemma_xorshift30_injective(ax, ay);
}

proof fn lemma_xor_injective(x: u64, y: u64, k: u64)
    requires
        x ^ k == y ^ k,
    ensures
        x == y,
{
    assert(x ^ k == y ^ k ==> x == y) by (bit_vector);
}

/// Distinct master seeds give distinct sub-seeds for every subsystem.
pub proof fn lemma_derive_separates_masters(m1: u64, m2: u64, label: Seq<u8>)
    requires
        m1 != m2,
    ensures
        derived(m1, label) != derived(m2, label),
{
    if derived(m1, label) == derived(m2, label) {
        lemma_mix64_injective(m1 ^ fnv_hash(label), m2 ^ fnv_hash(label));
        lemma_xor_injective(m1, m2, fnv_hash(label));
    }
}

/// Distinct instances of one subsystem get distinct sub-seeds.
pub proof fn lemma_derive_indexed_separates_instances(master: u64, label: Seq<u8>, i: usize, j: usize)
    requires
        i != j,
    ensures
        derived_indexed(master, label, i as u64) != derived_indexed(master, label, j as u64),
{
    let (i, j) = (i as u64, j as u64);
    if derived_indexed(master, label, i) == derived_indexed(master, label, j) {
        let d = derived(master, label);
        lemma_mix64_injective(d ^ mix64(i), d ^ mix64(j));
        assert((d ^ mix64(i)) == (d ^ mix64(j)));
        assert(mix64(i) ^ d == d ^ mix64(i)) by (bit_vector);
        assert(mix64(j) ^ d == d ^ mix64(j)) by (bit_vector);
        lemma_xor_injective(mix64(i), mix64(j), d);
        lemma_mix64_injective(i, j);
    }
}

} // verus!
