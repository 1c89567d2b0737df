//! Spans of time. The game measures time in `std::time::Duration`, whose
//! inside is opaque to the proofs. What they know of a span is its length
//! in nanoseconds, and what the functions of this module state about it.
//! None of those statements is proved: each function makes one call into
//! the standard library, and its contract says what the documentation of
//! that call promises.

use std::time::Duration;
use vstd::prelude::*;

verus! {

/// The length of a span in nanoseconds.
pub uninterp spec fn nanos(span: Duration) -> u128;

/// The longest span there is, in nanoseconds: `u64::MAX` seconds and
/// 999,999,999 nanoseconds.
pub open spec fn longest() -> int {
    18_446_744_073_709_551_615_999_999_999
}

/// `Duration::as_nanos`: the length of the span in nanoseconds.
#[verifier::external_body]
pub(crate) fn span_nanos(span: Duration) -> (length: u128)
    ensures
        length == nanos(span),
        length <= longest(),
{
    span.as_nanos()
}

/// `Duration::default`: the span of no time.
#[verifier::external_body]
pub(crate) fn no_time() -> (span: Duration)
    ensures
        nanos(span) == 0,
{
    Duration::default()
}

/// `Duration::from_millis`: the span of `millis` milliseconds.
#[verifier::external_body]
pub(crate) fn span_of_millis(millis: u64) -> (span: Duration)
    ensures
        nanos(span) == millis * 1_000_000,
{
    Duration::from_millis(millis)
}

/// `Duration + Duration`: the sum of two spans. The sum must not be longer
/// than the longest span.
#[verifier::external_body]
pub(crate) fn span_add(a: Duration, b: Duration) -> (sum: Duration)
    requires
        nanos(a) + nanos(b) <= longest(),
    ensures
        nanos(sum) == nanos(a) + nanos(b),
{
    a + b
}

/// `Duration - Duration`: what is left of the first span after the second.
/// The second must not be longer than the first.
#[verifier::external_body]
pub(crate) fn span_sub(a: Duration, b: Duration) -> (rest: Duration)
    requires
        nanos(b) <= nanos(a),
    ensures
        nanos(rest) == nanos(a) - nanos(b),
{
    a - b
}

/// `Duration >= Duration`: whether the first span is as long as the second
/// at least.
#[verifier::external_body]
pub(crate) fn span_reached(elapsed: Duration, limit: Duration) -> (reached: bool)
    ensures
        reached == (nanos(elapsed) >= nanos(limit)),
{
    elapsed >= limit
}

} // verus!
