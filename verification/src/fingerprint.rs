//! Change detection by text fingerprinting.
//!
//! Re-deriving the grid from edited text is the costly step of the
//! pipeline, so a cheap 64-bit fingerprint of the current text gates it: a
//! rebuild runs only when the fingerprint moves. The fingerprint is an
//! FNV-1a hash folded over the characters in order, so it is deterministic
//! and order-sensitive. Two different texts may in principle share a
//! fingerprint — the hash is 64 bits wide — which is the accepted price of
//! a constant-size check.

use vstd::prelude::*;

verus! {

/// The offset basis of the 64-bit FNV-1a hash.
pub const FP_OFFSET: u64 = 0xcbf29ce484222325;

/// The prime of the 64-bit FNV-1a hash.
pub const FP_PRIME: u64 = 0x100000001b3;

/// The fingerprint of a text: the FNV-1a hash of its characters in order.
pub open spec fn fingerprint_spec(t: Seq<char>) -> u64
    decreases t.len(),
{
    if t.len() == 0 {
        FP_OFFSET
    } else {
        let h = fingerprint_spec(t.drop_last());
        let x = h ^ ((t.last() as u32) as u64);
        (((x as int) * (FP_PRIME as int)) % 0x10000000000000000) as u64
    }
}

/// Law: the fingerprint is deterministic — recomputing it independently
/// over the same text gives the same value. (The converse does not hold in
/// general: a 64-bit hash admits collisions between different texts.)
pub proof fn lemma_fingerprint_deterministic(a: Seq<char>, b: Seq<char>)
    requires
        a == b,
    ensures
        fingerprint_spec(a) == fingerprint_spec(b),
{
}

/// The fingerprint of a text.
pub fn fingerprint(text: &Vec<char>) -> (fp: u64)
    ensures
        fp == fingerprint_spec(text@),
{
    let mut h: u64 = FP_OFFSET;
    let mut i: usize = 0;
    while i < text.len()
        invariant
            i <= text@.len(),
            h == fingerprint_spec(text@.take(i as int)),
        decreases text@.len() - i,
    {
        proof {
            assert(text@.take(i + 1).drop_last() =~= text@.take(i as int));
            assert(text@.take(i + 1).last() == text@[i as int]);
        }
        let c = text[i];
        let x = h ^ ((c as u32) as u64);
        let prod = (x as u128) * (FP_PRIME as u128);
        h = (prod % 0x10000000000000000u128) as u64;
        i += 1;
    }
    proof {
        assert(text@.take(text@.len() as int) =~= text@);
    }
    h
}

/// Remembers the last text's fingerprint and reports whether a fresh
/// text differs, so a costly grid rebuild runs only when the text moved.
pub struct ChangeDetector {
    pub last_fingerprint: u64,
}

impl ChangeDetector {
    /// A detector primed with the fingerprint of empty text.
    pub fn new() -> (d: ChangeDetector)
        ensures
            d.last_fingerprint == fingerprint_spec(Seq::<char>::empty()),
    {
        ChangeDetector { last_fingerprint: FP_OFFSET }
    }

    /// Fingerprint the text and report whether it moved; the detector
    /// remembers the new value either way.
    pub fn refresh(&mut self, text: &Vec<char>) -> (changed: bool)
        ensures
            changed == (fingerprint_spec(text@) != old(self).last_fingerprint),
            final(self).last_fingerprint == fingerprint_spec(text@),
    {
        let fp = fingerprint(text);
        let changed = fp != self.last_fingerprint;
        self.last_fingerprint = fp;
        changed
    }
}

} // verus!
