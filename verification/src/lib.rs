//! Coalgebraic partition refinement over a compact byte-encoded coalgebra.
//!
//! A coalgebra is a set of states, each carrying a tree of operator nodes
//! whose leaves reference other states.  The library computes the coarsest
//! partition of the states such that two states in one block have
//! indistinguishable successor trees, using hash signatures as
//! equivalence-class fingerprints.

use vstd::prelude::*;

pub mod bits;
pub mod canon;
pub mod coalg;
pub mod codec;
pub mod laws;
pub mod model;
pub mod naivealg;
pub mod node;
pub mod optalg;
pub mod refpart;
pub mod renumber;
pub mod sighash;
pub mod sort;

verus! {

/// The kinds of fatal faults refinement can surface.
#[derive(Clone, Copy, Debug, PartialEq, Eq)]
pub enum PartError {
    /// A header declares an unknown operator, a cursor runs past the buffer
    /// tail, or a state reference points outside the coalgebra.
    MalformedInput,
    /// The iteration safeguard of the naive driver was exceeded.
    ResourceExhaustion,
}

} // verus!
