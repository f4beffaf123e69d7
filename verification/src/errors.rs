//! Error values reported by the engine.

use vstd::prelude::*;

verus! {

/// Every failure the engine can report, with enough context to diagnose it.
#[derive(Clone, Copy, PartialEq, Eq, Structural, Debug)]
pub enum StegError {
    /// No supported instruction begins at `offset`, and the safe range that
    /// starts there yielded no instruction at all.
    Decode { offset: usize },
    /// A supplied safe range is empty, or lies entirely past the section end.
    InvalidSafeRange { start: usize, len: usize },
    /// The payload bitstream needs more bits than the encoding sites supply.
    CapacityExceeded { needed: usize, available: usize },
    /// During extraction, the declared payload length asks for more bits than
    /// the sites can supply.
    InsufficientData { needed: usize, available: usize },
    /// The live bytes at the site at `offset` match none of its variants.
    CorruptSite { offset: usize },
}

} // verus!
