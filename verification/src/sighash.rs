//! Signature hashing.
//!
//! Node signatures are 64-bit fingerprints produced by mixing a sequence of
//! words into a hash state.  The mixing function comes from an outside
//! hasher; the library only relies on it being a fixed function of the old
//! state and the word, so a digest is a fixed function of the word sequence.

use vstd::prelude::*;
use std::hash::Hasher;

verus! {

#[verifier::external_type_specification]
#[verifier::external_body]
pub struct ExFxHasher64(fxhash::FxHasher64);

/// The 64-bit mixing state a hasher value has reached (the hasher's whole
/// content is this one word).
pub uninterp spec fn hasher_state(h: fxhash::FxHasher64) -> u64;

/// What mixing one word into a state yields.
pub uninterp spec fn fx_step(state: u64, word: u64) -> u64;

/// The digest of a word sequence: every word mixed in, in order, starting
/// from the fresh state.
pub open spec fn fx_digest(ws: Seq<u64>) -> u64 {
    ws.fold_left(0u64, |st: u64, w: u64| fx_step(st, w))
}

/// Relies on `fxhash::FxHasher64::default`: a fresh hasher starts at state 0.
#[verifier::external_body]
fn hasher_new() -> (h: fxhash::FxHasher64)
    ensures
        hasher_state(h) == 0u64,
{
    fxhash::FxHasher64::default()
}

/// Relies on `fxhash::FxHasher64::write_u64` (via `std::hash::Hasher`): the
/// new state is one fixed mix of the old state and the word; `FxHasher64`
/// keeps a plain `u64` state, so the mix does not depend on the platform.
#[verifier::external_body]
fn hasher_write_u64(h: &mut fxhash::FxHasher64, w: u64)
    ensures
        hasher_state(*final(h)) == fx_step(hasher_state(*old(h)), w),
{
    h.write_u64(w)
}

/// Relies on `fxhash::FxHasher64::finish`: it returns the current state and
/// changes nothing.
#[verifier::external_body]
fn hasher_finish(h: &fxhash::FxHasher64) -> (r: u64)
    ensures
        r == hasher_state(*h),
{
    h.finish()
}

/// Mix a whole word sequence and return its digest.
pub fn digest_words(ws: &[u64]) -> (r: u64)
    ensures
        r == fx_digest(ws@),
{
    let mut h = hasher_new();
    let mut i: usize = 0;
    while i < ws.len()
        invariant
            i <= ws@.len(),
            hasher_state(h) == fx_digest(ws@.take(i as int)),
        decreases ws@.len() - i,
    {
        proof {
            assert(ws@.take(i + 1).drop_last() =~= ws@.take(i as int));
            assert(ws@.take(i + 1).last() == ws@[i as int]);
        }
        let w = ws[i];
        hasher_write_u64(&mut h, w);
        i = i + 1;
    }
    proof {
        assert(ws@.take(ws@.len() as int) =~= ws@);
    }
    hasher_finish(&h)
}

} // verus!
