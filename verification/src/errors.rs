//! The error taxonomy of the solver core.

use crate::word::Word256;
use vstd::prelude::*;

verus! {

/// What can end a run early.
#[derive(Debug)]
pub enum SolveError {
    /// A read from the word store (or the call transport) failed.
    StoreAccess,
    /// A field handed to the codec does not fit its packed width.
    EncodingRange,
    /// The chain ended early, looped on itself, or outran its declared length.
    /// The keys visited before the defect are kept for diagnostics.
    MalformedChain { visited: Vec<Word256> },
}

} // verus!
