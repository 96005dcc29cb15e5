//! Validity intervals over block numbers.
//!
//! A record's lifetime is a half-open interval of block numbers. A record
//! is created with an interval `[lower, +inf)`; the interval is later either
//! kept, closed to `[lower, upper)` during migration, or collapsed to the
//! empty interval by the deduplication removal.

use vstd::prelude::*;

verus! {

/// Half-open validity interval of block numbers.
///
/// `OpenEnded { lower }` is `[lower, +inf)`, the form every record is
/// created with. `Bounded { lower, upper }` is `[lower, upper)`. `Empty`
/// contains no block at all; it has no lower bound.
#[derive(Clone, Copy, Debug, PartialEq, Eq, Structural)]
pub enum BlockRange {
    Empty,
    OpenEnded { lower: i32 },
    Bounded { lower: i32, upper: i32 },
}

/// Whether `r` covers the block `b`.
pub open spec fn range_contains(r: BlockRange, b: i32) -> bool {
    match r {
        BlockRange::Empty => false,
        BlockRange::OpenEnded { lower } => lower <= b,
        BlockRange::Bounded { lower, upper } => lower <= b && b < upper,
    }
}

/// The creation block of a record with interval `r`: the included lower
/// bound, or `None` for the empty interval.
pub open spec fn range_lower(r: BlockRange) -> Option<i32> {
    match r {
        BlockRange::Empty => None,
        BlockRange::OpenEnded { lower } => Some(lower),
        BlockRange::Bounded { lower, .. } => Some(lower),
    }
}

/// A bounded interval must be non-degenerate; a degenerate one is written
/// as `Empty` instead, so that `range_lower` is faithful.
pub open spec fn range_wf(r: BlockRange) -> bool {
    match r {
        BlockRange::Bounded { lower, upper } => lower < upper,
        _ => true,
    }
}

impl BlockRange {
    /// Executable containment test, the one canonical interval query.
    pub fn contains_block(&self, b: i32) -> (res: bool)
        ensures
            res == range_contains(*self, b),
    {
        match self {
            BlockRange::Empty => false,
            BlockRange::OpenEnded { lower } => *lower <= b,
            BlockRange::Bounded { lower, upper } => *lower <= b && b < *upper,
        }
    }

    /// Executable lower bound.
    pub fn lower_bound(&self) -> (res: Option<i32>)
        ensures
            res == range_lower(*self),
    {
        match self {
            BlockRange::Empty => None,
            BlockRange::OpenEnded { lower } => Some(*lower),
            BlockRange::Bounded { lower, .. } => Some(*lower),
        }
    }
}

} // verus!
