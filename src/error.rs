//! Failures of variable-region detection and emission.

use vstd::prelude::*;

verus! {

/// Why region detection or emission stopped.
#[derive(Clone, Copy, Debug, PartialEq, Eq, Structural)]
pub enum RegionError {
    /// No record was available to sample.
    EmptySource,
    /// No position passed the selection; the threshold should be lowered.
    NoContiguousRegion,
    /// The resolved interval holds a single position; the threshold should
    /// be adjusted.
    DegenerateThreshold,
    /// A record's sequence is too short to supply the interval.
    RecordTooShort,
}

} // verus!
