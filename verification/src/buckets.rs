//! The arithmetic that assigns a timestamp to a bucket.
//!
//! A timeline that starts at `first` and lasts `span` milliseconds is cut
//! into `parts` buckets of equal width `span / parts`. The width is a
//! fraction in general, so the rules below compare products of integers
//! instead of dividing. Bucket `i` is the half-open window from
//! `first + i * span / parts` to `first + (i + 1) * span / parts`; the last
//! bucket is closed, so that the final timestamp belongs to it.

use vstd::prelude::*;
use vstd::arithmetic::div_mod::lemma_fundamental_div_mod;
use vstd::arithmetic::div_mod::lemma_mod_bound;

verus! {

/// The bucket that holds timestamp `t`: the offset of `t` in bucket widths,
/// rounded down, and never past the last bucket.
pub open spec fn bucket_of(first: int, span: int, parts: int, t: int) -> int {
    let raw = ((t - first) * parts) / span;
    if raw >= parts {
        parts - 1
    } else {
        raw
    }
}

/// The first whole millisecond of bucket `i`: the start of the bucket,
/// rounded up. Bucket `parts` stands for the end of the timeline.
pub open spec fn bucket_start(first: int, span: int, parts: int, i: int) -> int {
    first + (i * span + parts - 1) / parts
}

/// The timestamps that fall into bucket `i`.
pub open spec fn in_bucket(first: int, span: int, parts: int, i: int) -> spec_fn(i32) -> bool {
    |t: i32| bucket_of(first, span, parts, t as int) == i
}

/// An offset `x` is below the rounded-up quotient of `a` by `d` exactly when
/// `x * d` is below `a`.
pub proof fn lemma_ceil_div(a: int, d: int, x: int)
    requires
        0 <= a,
        0 < d,
    ensures
        x < (a + d - 1) / d <==> x * d < a,
{
    let c = (a + d - 1) / d;
    let r = (a + d - 1) % d;
    lemma_fundamental_div_mod(a + d - 1, d);
    lemma_mod_bound(a + d - 1, d);
    assert(d * c + r == a + d - 1);
    if x < c {
        assert(x * d <= (c - 1) * d) by (nonlinear_arith)
            requires
                x <= c - 1,
                0 < d,
        ;
        assert((c - 1) * d == d * c - d) by (nonlinear_arith);
    } else {
        assert(x * d >= c * d) by (nonlinear_arith)
            requires
                x >= c,
                0 < d,
        ;
        assert(c * d == d * c) by (nonlinear_arith);
    }
}

/// The rounded-down quotient of `a` by `d` is `q` exactly when `a` lies
/// between `q * d` and `(q + 1) * d`.
pub proof fn lemma_floor_div(a: int, d: int, q: int)
    requires
        0 < d,
    ensures
        q <= a / d <==> q * d <= a,
        a / d == q <==> q * d <= a < (q + 1) * d,
{
    let f = a / d;
    let r = a % d;
    lemma_fundamental_div_mod(a, d);
    lemma_mod_bound(a, d);
    assert(d * f + r == a);
    assert(f * d == d * f) by (nonlinear_arith);
    assert((f + 1) * d == d * f + d) by (nonlinear_arith);
    if q <= f {
        assert(q * d <= f * d) by (nonlinear_arith)
            requires
                q <= f,
                0 < d,
        ;
    } else {
        assert(q * d >= (f + 1) * d) by (nonlinear_arith)
            requires
                q >= f + 1,
                0 < d,
        ;
    }
    if q + 1 <= f {
        assert((q + 1) * d <= f * d) by (nonlinear_arith)
            requires
                q + 1 <= f,
                0 < d,
        ;
    }
}

/// The bucket starts climb from `first` to `first + span`.
pub proof fn lemma_bucket_start_bounds(first: int, span: int, parts: int, i: int)
    requires
        0 < span,
        0 < parts,
        0 <= i <= parts,
    ensures
        first <= bucket_start(first, span, parts, i) <= first + span,
        i == 0 ==> bucket_start(first, span, parts, i) == first,
        i == parts ==> bucket_start(first, span, parts, i) == first + span,
        i < parts ==> bucket_start(first, span, parts, i) <= bucket_start(
            first,
            span,
            parts,
            i + 1,
        ),
{
    let a = i * span;
    assert(0 <= a) by (nonlinear_arith)
        requires
            a == i * span,
            0 <= i,
            0 < span,
    ;
    // The start of bucket `i` is the least offset `x` with `a <= x * parts`.
    lemma_ceil_div(a, parts, -1);
    lemma_ceil_div(a, parts, 0);
    lemma_ceil_div(a, parts, span);
    lemma_ceil_div(a, parts, span - 1);
    assert(span * parts >= a) by (nonlinear_arith)
        requires
            a == i * span,
            i <= parts,
            0 < span,
    ;
    assert((-1) * parts < 0) by (nonlinear_arith)
        requires
            0 < parts,
    ;
    if i == 0 {
        assert(a == 0);
        assert(0 * parts == 0);
    }
    if i == parts {
        assert((span - 1) * parts < a) by (nonlinear_arith)
            requires
                a == parts * span,
                0 < parts,
        ;
    }
    if i < parts {
        let a2 = (i + 1) * span;
        assert(a2 == a + span) by (nonlinear_arith)
            requires
                a2 == (i + 1) * span,
                a == i * span,
        ;
        let c2 = (a2 + parts - 1) / parts;
        // Were the next start below this one, it would lie below `a / parts`,
        // yet it is at least `a2 / parts`.
        lemma_ceil_div(a, parts, c2);
        lemma_ceil_div(a2, parts, c2);
    }
}

/// Which bucket holds a timestamp of the timeline, told by the whole
/// milliseconds at which the buckets start: bucket `i` holds `t` exactly when
/// `t` is at or after the start of bucket `i` and before the start of the
/// next bucket. The last bucket has no next one: it holds every timestamp
/// from its start to the end of the timeline.
pub proof fn lemma_bucket_window(first: int, span: int, parts: int, i: int, t: int)
    requires
        0 < span,
        0 < parts,
        0 <= i < parts,
        first <= t <= first + span,
    ensures
        0 <= bucket_of(first, span, parts, t) < parts,
        bucket_of(first, span, parts, t) == i <==> (bucket_start(first, span, parts, i) <= t && (t
            < bucket_start(first, span, parts, i + 1) || i == parts - 1)),
        bucket_of(first, span, parts, t) == i <==> (i * span <= (t - first) * parts && ((t - first)
            * parts < (i + 1) * span || i == parts - 1)),
{
    let x = t - first;
    let a = x * parts;
    assert(0 <= a) by (nonlinear_arith)
        requires
            a == x * parts,
            0 <= x,
            0 < parts,
    ;
    lemma_floor_div(a, span, 0);
    lemma_floor_div(a, span, i);
    lemma_floor_div(a, span, parts - 1);
    assert(0 * span == 0);
    let lo = i * span;
    let hi = (i + 1) * span;
    assert(0 <= lo) by (nonlinear_arith)
        requires
            lo == i * span,
            0 <= i,
            0 < span,
    ;
    assert(0 <= hi) by (nonlinear_arith)
        requires
            hi == (i + 1) * span,
            0 <= i,
            0 < span,
    ;
    lemma_ceil_div(lo, parts, x);
    lemma_ceil_div(hi, parts, x);
}

/// The offset of a timestamp from the start of the timeline.
pub(crate) fn offset_of(first: i32, t: i32) -> (x: u64)
    requires
        first <= t,
    ensures
        x == t - first,
{
    (t as i64 - first as i64) as u64
}

/// Computes [`bucket_of`] for a timestamp of the timeline.
pub(crate) fn bucket_index(first: i32, span: u64, parts: usize, t: i32) -> (idx: usize)
    requires
        0 < span,
        0 < parts <= i32::MAX,
        first <= t <= first + span,
        first + span <= i32::MAX,
    ensures
        idx == bucket_of(first as int, span as int, parts as int, t as int),
        idx < parts,
{
    let x: u64 = offset_of(first, t);
    assert(x * parts <= 0x1_0000_0000 * 0x8000_0000) by (nonlinear_arith)
        requires
            x <= 0x1_0000_0000,
            parts <= 0x8000_0000,
    ;
    let raw: u64 = x * (parts as u64) / span;
    proof {
        lemma_bucket_window(first as int, span as int, parts as int, 0, t as int);
    }
    if raw >= parts as u64 {
        parts - 1
    } else {
        raw as usize
    }
}

/// Computes [`bucket_start`] for a bucket of the timeline, or for its end.
pub(crate) fn bucket_start_at(first: i32, span: u64, parts: usize, i: usize) -> (t: i32)
    requires
        0 < span,
        0 < parts <= i32::MAX,
        i <= parts,
        first + span <= i32::MAX,
    ensures
        t == bucket_start(first as int, span as int, parts as int, i as int),
{
    assert(i * span <= 0x8000_0000 * 0x1_0000_0000) by (nonlinear_arith)
        requires
            span <= 0x1_0000_0000,
            0 <= i <= 0x8000_0000,
    ;
    proof {
        lemma_bucket_start_bounds(first as int, span as int, parts as int, i as int);
    }
    let ceil: u64 = ((i as u64) * span + (parts as u64 - 1)) / (parts as u64);
    (first as i64 + ceil as i64) as i32
}

} // verus!
