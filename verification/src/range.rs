//! Range normalization and validation.
//!
//! Every slicing and resizing operation accepts a range expression whose
//! start or end may be absent, inclusive or exclusive.  [`normalize_range`]
//! canonicalizes such an expression into a concrete `[start, end)` pair
//! anchored to a caller-supplied default end; [`assert_range`] then checks
//! the pair against a limit of the caller's choice.  Normalization never
//! clamps: a normalized end may exceed the default end, and only
//! validation rejects it.

use vstd::prelude::*;

verus! {

/// One endpoint of a range expression: present and inclusive, present
/// and exclusive, or absent.
#[derive(Clone, Copy, Debug)]
pub enum RangeBound {
    /// The endpoint `n`, included in the range.
    Included(usize),
    /// The endpoint `n`, excluded from the range.
    Excluded(usize),
    /// No endpoint given.
    Unbounded,
}

/// A concrete half-open span of bit indices `start .. end`.
#[derive(Clone, Copy, Debug, PartialEq, Eq, Structural)]
pub struct BitSpan {
    /// First index of the span.
    pub start: usize,
    /// One past the last index of the span.
    pub end: usize,
}

/// A rejected range, with the offending values.
#[derive(Clone, Copy, Debug, PartialEq, Eq, Structural)]
pub enum RangeError {
    /// The span runs from a higher index to a lower one.
    Malformed { start: usize, end: usize },
    /// The span's end exceeds the supplied limit.
    OutOfBounds { start: usize, end: usize, limit: usize },
}

/// The start index a normalized range gets from a start bound: an
/// absent start defaults to 0, an exclusive start `n` begins at `n + 1`.
pub open spec fn normalized_start(start: RangeBound) -> int {
    match start {
        RangeBound::Included(n) => n as int,
        RangeBound::Excluded(n) => n + 1,
        RangeBound::Unbounded => 0,
    }
}

/// The end index a normalized range gets from an end bound: an absent
/// end defaults to `default_end`, an inclusive end `n` stops at `n + 1`.
pub open spec fn normalized_end(end: RangeBound, default_end: int) -> int {
    match end {
        RangeBound::Included(n) => n + 1,
        RangeBound::Excluded(n) => n as int,
        RangeBound::Unbounded => default_end,
    }
}

/// Normalizes a range expression into a concrete `[start, end)` span.
///
/// The result is not clamped: its end may exceed `default_end`, and its
/// start may exceed its end.  Callers validate separately with
/// [`assert_range`].
pub fn normalize_range(start: RangeBound, end: RangeBound, default_end: usize) -> (r: BitSpan)
    requires
        (start matches RangeBound::Excluded(n) ==> n < usize::MAX),
        (end matches RangeBound::Included(n) ==> n < usize::MAX),
    ensures
        r.start == normalized_start(start),
        r.end == normalized_end(end, default_end as int),
{
    let s: usize = match start {
        RangeBound::Included(n) => n,
        RangeBound::Excluded(n) => n + 1,
        RangeBound::Unbounded => 0,
    };
    let e: usize = match end {
        RangeBound::Included(n) => n + 1,
        RangeBound::Excluded(n) => n,
        RangeBound::Unbounded => default_end,
    };
    BitSpan { start: s, end: e }
}

/// Checks a normalized span against an optional limit.
///
/// Fails with [`RangeError::Malformed`] exactly when the span's start
/// exceeds its end, and otherwise with [`RangeError::OutOfBounds`]
/// exactly when a limit is supplied and the span's end exceeds it.
pub fn assert_range(range: BitSpan, limit: Option<usize>) -> (r: Result<(), RangeError>)
    ensures
        range.start > range.end ==> r == Err::<(), RangeError>(
            RangeError::Malformed { start: range.start, end: range.end },
        ),
        range.start <= range.end && (limit matches Some(l) && range.end > l) ==> r == Err::<
            (),
            RangeError,
        >(RangeError::OutOfBounds { start: range.start, end: range.end, limit: limit.unwrap() }),
        range.start <= range.end && (limit matches Some(l) ==> range.end <= l) ==> r == Ok::<
            (),
            RangeError,
        >(()),
{
    if range.start > range.end {
        return Err(RangeError::Malformed { start: range.start, end: range.end });
    }
    if let Some(l) = limit {
        if range.end > l {
            return Err(RangeError::OutOfBounds { start: range.start, end: range.end, limit: l });
        }
    }
    Ok(())
}

} // verus!
