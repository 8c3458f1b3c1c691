//! The value of a symbol that the stream ended in the middle of.

use vstd::prelude::*;

verus! {

/// A positive integer that is only partly determined by the bits seen so far.
#[derive(Debug, PartialEq, Eq)]
pub enum IncompleteInt<T> {
    /// The value is at least `start`; no upper bound is known yet.
    Unbounded { start: T },
    /// The value lies in `lo..=hi`, and `bits_needed` more bits would fix it.
    Bounded { lo: T, hi: T, bits_needed: usize },
}

impl<T: Clone> Clone for IncompleteInt<T> {
    fn clone(&self) -> (copy: Self) {
        match self {
            IncompleteInt::Unbounded { start } => IncompleteInt::Unbounded { start: start.clone() },
            IncompleteInt::Bounded { lo, hi, bits_needed } => IncompleteInt::Bounded {
                lo: lo.clone(),
                hi: hi.clone(),
                bits_needed: *bits_needed,
            },
        }
    }
}

impl<T> IncompleteInt<T> {
    /// A value known to be at least `start`.
    pub fn new_unbounded(start: T) -> (incomplete: Self)
        ensures
            incomplete == (IncompleteInt::Unbounded { start }),
    {
        IncompleteInt::Unbounded { start }
    }

    /// A value known to lie in `range.0..=range.1`, which `bits_needed` more bits
    /// would fix.
    pub fn new_bounded(range: (T, T), bits_needed: usize) -> (incomplete: Self)
        requires
            bits_needed >= 1,
        ensures
            incomplete == (IncompleteInt::Bounded { lo: range.0, hi: range.1, bits_needed }),
    {
        IncompleteInt::Bounded { lo: range.0, hi: range.1, bits_needed }
    }

    /// The least value that is still possible.
    pub open spec fn lower(&self) -> T {
        match self {
            IncompleteInt::Unbounded { start } => *start,
            IncompleteInt::Bounded { lo, .. } => *lo,
        }
    }

    /// The inclusive lower end of the range.
    pub fn start_bound(&self) -> (bound: &T)
        ensures
            *bound == self.lower(),
    {
        match self {
            IncompleteInt::Unbounded { start } => start,
            IncompleteInt::Bounded { lo, .. } => lo,
        }
    }

    /// The inclusive upper end of the range, where there is one.
    pub fn end_bound(&self) -> (bound: Option<&T>)
        ensures
            match *self {
                IncompleteInt::Unbounded { .. } => bound.is_none(),
                IncompleteInt::Bounded { hi, .. } => bound == Some(&hi),
            },
    {
        match self {
            IncompleteInt::Unbounded { .. } => None,
            IncompleteInt::Bounded { hi, .. } => Some(hi),
        }
    }
}

impl IncompleteInt<u64> {
    /// The range is non-empty, holds positive values only, and at least one
    /// bit is missing.
    pub open spec fn wf(&self) -> bool {
        match *self {
            IncompleteInt::Unbounded { start } => start >= 1,
            IncompleteInt::Bounded { lo, hi, bits_needed } => 1 <= lo <= hi && bits_needed >= 1,
        }
    }
}

} // verus!
