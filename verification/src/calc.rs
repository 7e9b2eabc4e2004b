//! Average density, density inside a window, and the density distribution
//! over equally wide buckets.
//!
//! Conventions that every function here follows:
//!
//! * A window or a timeline that lasts no time has no density to speak of.
//!   A window then yields zero, each bucket of a distribution yields zero,
//!   and the average yields the bare number of hit objects.
//! * Buckets are half-open: a hit object exactly on the seam between two
//!   buckets belongs to the later one. The last bucket is closed, so the
//!   final hit object belongs to it.
//! * Both ways of computing a distribution follow the same seam rule and
//!   return the same values.

use vstd::prelude::*;
use crate::buckets::bucket_index;
use crate::buckets::bucket_start_at;
use crate::buckets::in_bucket;
use crate::buckets::lemma_bucket_start_bounds;
use crate::buckets::lemma_bucket_window;
use crate::buckets::offset_of;
use crate::density::Density;
use crate::density::MS_PER_SEC;
use crate::error::NpsError;
use crate::time_index::before;
use crate::time_index::count_where;
use crate::time_index::count_within;
use crate::time_index::is_sorted;
use crate::time_index::lemma_count_bounded;
use crate::time_index::lemma_count_push;
use crate::time_index::lemma_count_split;
use crate::time_index::up_to;
use crate::time_index::within;
use crate::time_index::TimeIndex;

verus! {

/// The time between the first and the last hit object, in milliseconds.
pub open spec fn span_of(events: Seq<i32>) -> int {
    events.last() - events.first()
}

/// The average density of a beatmap that holds at least one hit object.
pub open spec fn average(events: Seq<i32>) -> Density {
    if span_of(events) <= 0 {
        Density::bare(events.len() as int)
    } else {
        Density::over(events.len() as int, span_of(events))
    }
}

/// The density inside the closed window from `start` to `end`.
pub open spec fn range_density(events: Seq<i32>, start: int, end: int) -> Density {
    if end - start <= 0 {
        Density::bare(0)
    } else {
        Density::over(count_within(events, start, end) as int, end - start)
    }
}

/// The density between the hit objects at positions `a` and `b`, given in
/// either order: the density inside the closed window from the timestamp at
/// the earlier position to the timestamp at the later one. Hit objects that
/// share the timestamp of either end lie in that window, whichever of them
/// was named.
pub open spec fn position_density(events: Seq<i32>, a: int, b: int) -> Density {
    let lo = if a <= b {
        a
    } else {
        b
    };
    let hi = if a <= b {
        b
    } else {
        a
    };
    range_density(events, events[lo] as int, events[hi] as int)
}

/// How many hit objects fall into bucket `i` of `parts`.
pub open spec fn bucket_count(events: Seq<i32>, parts: int, i: int) -> nat {
    count_where(events, in_bucket(events.first() as int, span_of(events), parts, i))
}

/// The density of bucket `i` of `parts`: its hit objects over its width,
/// which is the `parts`-th part of the whole span.
pub open spec fn bucket_density(events: Seq<i32>, parts: int, i: int) -> Density {
    if span_of(events) <= 0 {
        Density::bare(0)
    } else {
        Density::over(bucket_count(events, parts, i) * parts, span_of(events))
    }
}

/// The densities of all `parts` buckets, earliest first.
pub open spec fn distribution(events: Seq<i32>, parts: int) -> Seq<Density> {
    Seq::new(parts as nat, |i: int| bucket_density(events, parts, i))
}

/// What a distribution with `parts` buckets is, or why there is none.
pub open spec fn histogram(events: Seq<i32>, parts: int) -> Result<Seq<Density>, NpsError> {
    if parts <= 0 {
        Err(NpsError::InvalidArgument)
    } else if events.len() == 0 {
        Err(NpsError::EmptyInput)
    } else {
        Ok(distribution(events, parts))
    }
}

/// A computed distribution, seen as a sequence.
pub open spec fn seen(r: Result<Vec<Density>, NpsError>) -> Result<Seq<Density>, NpsError> {
    match r {
        Ok(v) => Ok(v@),
        Err(e) => Err(e),
    }
}

/// Whether `r` is the largest integer whose square does not exceed `n`.
pub open spec fn is_floor_sqrt(n: int, r: int) -> bool {
    0 <= r && r * r <= n < (r + 1) * (r + 1)
}

/// The square root of `n`, rounded down.
pub open spec fn floor_sqrt(n: nat) -> nat {
    choose|r: nat| is_floor_sqrt(n as int, r as int)
}

/// Only one integer is the rounded-down square root of `n`.
pub proof fn lemma_floor_sqrt_unique(n: int, r: int, s: int)
    requires
        is_floor_sqrt(n, r),
        is_floor_sqrt(n, s),
    ensures
        r == s,
{
    if r < s {
        assert((r + 1) * (r + 1) <= s * s) by (nonlinear_arith)
            requires
                0 <= r,
                r + 1 <= s,
        ;
    }
    if s < r {
        assert((s + 1) * (s + 1) <= r * r) by (nonlinear_arith)
            requires
                0 <= s,
                s + 1 <= r,
        ;
    }
}

/// The square root of `n`, rounded down, by bisection.
pub fn integer_sqrt(n: u64) -> (r: u64)
    ensures
        r == floor_sqrt(n as nat),
        is_floor_sqrt(n as int, r as int),
{
    let mut lo: u64 = 0;
    let mut hi: u64 = 0x1_0000_0000;
    assert(0x1_0000_0000 * 0x1_0000_0000 > n) by (nonlinear_arith)
        requires
            n <= 0xffff_ffff_ffff_ffff,
    ;
    while hi - lo > 1
        invariant
            lo < hi <= 0x1_0000_0000,
            lo * lo <= n < hi * hi,
        decreases hi - lo,
    {
        let mid: u64 = lo + (hi - lo) / 2;
        assert(mid * mid <= 0xffff_ffff * 0xffff_ffff) by (nonlinear_arith)
            requires
                0 <= mid <= 0xffff_ffff,
        ;
        if mid * mid <= n {
            lo = mid;
        } else {
            hi = mid;
        }
    }
    proof {
        assert(is_floor_sqrt(n as int, lo as int));
        let w = floor_sqrt(n as nat);
        assert(is_floor_sqrt(n as int, w as int));
        lemma_floor_sqrt_unique(n as int, lo as int, w as int);
    }
    lo
}

/// Whether the single pass over the hit objects is expected to cost less
/// than one pair of searches per bucket: it is when there are more buckets
/// than the square root of the number of hit objects.
pub fn prefers_scan(event_count: usize, t_parts: i32) -> (scan: bool)
    ensures
        scan == (t_parts > floor_sqrt(event_count as nat)),
{
    let threshold: u64 = integer_sqrt(event_count as u64);
    t_parts > 0 && t_parts as u64 > threshold
}

/// The density of `notes` hit objects over `millis` milliseconds.
fn density_over(notes: usize, millis: u64) -> (d: Density)
    ensures
        d == Density::over(notes as int, millis as int),
{
    assert(notes * MS_PER_SEC <= 0xffff_ffff_ffff_ffff * 1000) by (nonlinear_arith)
        requires
            0 <= notes <= 0xffff_ffff_ffff_ffff,
            MS_PER_SEC == 1000,
    ;
    Density { numerator: notes as u128 * MS_PER_SEC as u128, denominator: millis }
}

/// The average number of notes per second over the whole beatmap: the
/// number of hit objects over the time from the first to the last. Where
/// that time is zero the result is the bare number of hit objects.
pub fn calc_nps(map: &TimeIndex) -> (r: Result<Density, NpsError>)
    ensures
        r == if map@.len() == 0 {
            Err::<Density, NpsError>(NpsError::EmptyInput)
        } else {
            Ok(average(map@))
        },
{
    let events = map.as_slice();
    let n: usize = events.len();
    if n == 0 {
        return Err(NpsError::EmptyInput);
    }
    let first: i32 = events[0];
    let last: i32 = events[n - 1];
    assert(first <= last);
    let span: u64 = offset_of(first, last);
    if span == 0 {
        return Ok(Density { numerator: n as u128, denominator: 1 });
    }
    Ok(density_over(n, span))
}

/// The number of notes per second inside the closed window from
/// `start_time` to `end_time`: a hit object exactly at either end counts.
/// A window that ends at or before its start yields zero.
pub fn calc_nps_range_by_time(map: &TimeIndex, start_time: i32, end_time: i32) -> (d: Density)
    ensures
        d == range_density(map@, start_time as int, end_time as int),
        end_time <= start_time ==> d == Density::bare(0),
        d.denominator > 0,
{
    if end_time <= start_time {
        return Density::zero();
    }
    let width: u64 = offset_of(start_time, end_time);
    let start_idx: usize = map.lower_bound(start_time);
    let end_idx: usize = map.upper_bound(end_time);
    proof {
        let s = map@;
        let whole = up_to(end_time as int);
        let earlier = before(start_time as int);
        let inside = within(start_time as int, end_time as int);
        assert forall|i: int| 0 <= i < s.len() implies (whole(#[trigger] s[i]) <==> (earlier(s[i])
            || inside(s[i]))) && !(earlier(s[i]) && inside(s[i])) by {
            assert(whole(s[i]) == (s[i] <= end_time));
            assert(earlier(s[i]) == (s[i] < start_time));
            assert(inside(s[i]) == (start_time <= s[i] <= end_time));
        }
        lemma_count_split(s, whole, earlier, inside);
        assert(end_idx == start_idx + count_within(s, start_time as int, end_time as int));
    }
    let count: usize = end_idx - start_idx;
    density_over(count, width)
}

/// The number of notes per second between two hit objects, each named by
/// its position in the beatmap. The positions may come in either order.
/// The result is that of [`calc_nps_range_by_time`] on the window from the
/// timestamp at the earlier position to the timestamp at the later one:
/// every hit object at or between the two timestamps counts, and two hit
/// objects at the same instant yield zero.
pub fn calc_nps_range_by_hitobjects(map: &TimeIndex, start_obj: usize, end_obj: usize) -> (r:
    Result<Density, NpsError>)
    ensures
        r == if start_obj >= map@.len() || end_obj >= map@.len() {
            Err::<Density, NpsError>(NpsError::OutOfRange)
        } else {
            Ok(position_density(map@, start_obj as int, end_obj as int))
        },
        start_obj <= end_obj < map@.len() ==> r == Ok::<Density, NpsError>(
            range_density(map@, map@[start_obj as int] as int, map@[end_obj as int] as int),
        ),
        end_obj <= start_obj < map@.len() ==> r == Ok::<Density, NpsError>(
            range_density(map@, map@[end_obj as int] as int, map@[start_obj as int] as int),
        ),
{
    let events = map.as_slice();
    let n: usize = events.len();
    if start_obj >= n || end_obj >= n {
        return Err(NpsError::OutOfRange);
    }
    let (start_idx, end_idx): (usize, usize) = if start_obj <= end_obj {
        (start_obj, end_obj)
    } else {
        (end_obj, start_obj)
    };
    Ok(calc_nps_range_by_time(map, events[start_idx], events[end_idx]))
}

/// A distribution whose buckets all hold zero.
fn zero_distribution(parts: usize) -> (out: Vec<Density>)
    ensures
        out@ == Seq::new(parts as nat, |i: int| Density::bare(0)),
{
    let mut out: Vec<Density> = Vec::with_capacity(parts);
    let mut i: usize = 0;
    while i < parts
        invariant
            i <= parts,
            out@ == Seq::new(i as nat, |j: int| Density::bare(0)),
        decreases parts - i,
    {
        out.push(Density::zero());
        i += 1;
    }
    out
}

/// The density of one bucket, from the number of hit objects in it.
fn density_of_bucket(count: usize, parts: usize, span: u64) -> (d: Density)
    requires
        0 < parts <= i32::MAX,
    ensures
        d == Density::over(count * parts, span as int),
{
    assert(count * parts <= 0xffff_ffff_ffff_ffff * 0x8000_0000) by (nonlinear_arith)
        requires
            0 <= count <= 0xffff_ffff_ffff_ffff,
            0 <= parts <= 0x8000_0000,
    ;
    let notes: u128 = count as u128 * parts as u128;
    assert(notes * MS_PER_SEC <= 0xffff_ffff_ffff_ffff * 0x8000_0000 * 1000) by (nonlinear_arith)
        requires
            0 <= notes <= 0xffff_ffff_ffff_ffff * 0x8000_0000,
            MS_PER_SEC == 1000,
    ;
    Density { numerator: notes * MS_PER_SEC as u128, denominator: span }
}

/// The density distribution over `t_parts` buckets, by two binary searches
/// per bucket: the number of hit objects before the bucket's end less the
/// number before its start. The search for the end of the last bucket also
/// takes the hit objects exactly at the end of the timeline.
pub fn calc_distribution(map: &TimeIndex, t_parts: i32) -> (r: Result<Vec<Density>, NpsError>)
    ensures
        seen(r) == histogram(map@, t_parts as int),
        r matches Ok(d) ==> d@.len() == t_parts,
{
    if t_parts <= 0 {
        return Err(NpsError::InvalidArgument);
    }
    let events = map.as_slice();
    let n: usize = events.len();
    if n == 0 {
        return Err(NpsError::EmptyInput);
    }
    let first: i32 = events[0];
    let last: i32 = events[n - 1];
    let span: u64 = offset_of(first, last);
    let parts: usize = t_parts as usize;
    if span == 0 {
        let zeros = zero_distribution(parts);
        assert(zeros@ =~= distribution(map@, parts as int));
        return Ok(zeros);
    }
    let mut out: Vec<Density> = Vec::with_capacity(parts);
    let mut part: usize = 0;
    while part < parts
        invariant
            part <= parts,
            0 < parts <= i32::MAX,
            0 < span,
            map@.len() > 0,
            is_sorted(map@),
            first == map@.first(),
            span == span_of(map@),
            out@.len() == part,
            forall|j: int| 0 <= j < part ==> out@[j] == bucket_density(map@, parts as int, j),
        decreases parts - part,
    {
        let part_start: i32 = bucket_start_at(first, span, parts, part);
        let part_end: i32 = bucket_start_at(first, span, parts, part + 1);
        let start_idx: usize = map.lower_bound(part_start);
        let end_idx: usize = if part == parts - 1 {
            map.upper_bound(part_end)
        } else {
            map.lower_bound(part_end)
        };
        proof {
            let s = map@;
            let whole = if part == parts - 1 {
                up_to(part_end as int)
            } else {
                before(part_end as int)
            };
            let earlier = before(part_start as int);
            let inside = in_bucket(first as int, span as int, parts as int, part as int);
            lemma_bucket_start_bounds(first as int, span as int, parts as int, part as int);
            lemma_bucket_start_bounds(first as int, span as int, parts as int, part + 1);
            assert forall|j: int| 0 <= j < s.len() implies (whole(#[trigger] s[j]) <==> (earlier(
                s[j],
            ) || inside(s[j]))) && !(earlier(s[j]) && inside(s[j])) by {
                assert(s[0] <= s[j] <= s[s.len() - 1]);
                lemma_bucket_window(
                    first as int,
                    span as int,
                    parts as int,
                    part as int,
                    s[j] as int,
                );
            }
            lemma_count_split(s, whole, earlier, inside);
            assert(end_idx - start_idx == bucket_count(s, parts as int, part as int));
        }
        let count: usize = end_idx - start_idx;
        out.push(density_of_bucket(count, parts, span));
        part += 1;
    }
    assert(out@ =~= distribution(map@, parts as int));
    Ok(out)
}

/// The density distribution over `t_parts` buckets, by one pass over the
/// hit objects: each is counted in the bucket that its offset from the
/// first hit object selects, the last bucket taking whatever lies at the
/// end of the timeline.
pub fn calc_distribution_2(map: &TimeIndex, t_parts: i32) -> (r: Result<Vec<Density>, NpsError>)
    ensures
        seen(r) == histogram(map@, t_parts as int),
        r matches Ok(d) ==> d@.len() == t_parts,
{
    if t_parts <= 0 {
        return Err(NpsError::InvalidArgument);
    }
    let events = map.as_slice();
    let n: usize = events.len();
    if n == 0 {
        return Err(NpsError::EmptyInput);
    }
    let first: i32 = events[0];
    let last: i32 = events[n - 1];
    let span: u64 = offset_of(first, last);
    let parts: usize = t_parts as usize;
    if span == 0 {
        let zeros = zero_distribution(parts);
        assert(zeros@ =~= distribution(map@, parts as int));
        return Ok(zeros);
    }
    let mut counts: Vec<usize> = vec![0usize; parts];
    let mut k: usize = 0;
    assert(events@.take(0) =~= Seq::<i32>::empty());
    while k < n
        invariant
            k <= n,
            n == events@.len(),
            events@ == map@,
            is_sorted(events@),
            0 < parts <= i32::MAX,
            0 < span,
            first == events@.first(),
            span == span_of(events@),
            counts@.len() == parts,
            forall|i: int|
                0 <= i < parts ==> counts@[i] == count_where(
                    events@.take(k as int),
                    in_bucket(first as int, span as int, parts as int, i),
                ),
        decreases n - k,
    {
        let t: i32 = events[k];
        assert(events@[0] <= events@[k as int] <= events@[n - 1]);
        let index: usize = bucket_index(first, span, parts, t);
        proof {
            let seen_before = events@.take(k as int);
            assert(events@.take(k + 1) =~= seen_before.push(t));
            assert forall|i: int| 0 <= i < parts implies count_where(
                events@.take(k + 1),
                in_bucket(first as int, span as int, parts as int, i),
            ) == counts@[i] + if i == index {
                1nat
            } else {
                0nat
            } by {
                lemma_count_push(
                    seen_before,
                    t,
                    in_bucket(first as int, span as int, parts as int, i),
                );
            }
            lemma_count_bounded(
                events@.take(k + 1),
                in_bucket(first as int, span as int, parts as int, index as int),
            );
        }
        let bumped: usize = counts[index] + 1;
        counts.set(index, bumped);
        k += 1;
    }
    assert(events@.take(n as int) =~= events@);
    let mut out: Vec<Density> = Vec::with_capacity(parts);
    let mut part: usize = 0;
    while part < parts
        invariant
            part <= parts,
            0 < parts <= i32::MAX,
            0 < span,
            span == span_of(map@),
            counts@.len() == parts,
            forall|i: int| 0 <= i < parts ==> counts@[i] == bucket_count(map@, parts as int, i),
            out@.len() == part,
            forall|j: int| 0 <= j < part ==> out@[j] == bucket_density(map@, parts as int, j),
        decreases parts - part,
    {
        out.push(density_of_bucket(counts[part], parts, span));
        part += 1;
    }
    assert(out@ =~= distribution(map@, parts as int));
    Ok(out)
}

/// The density distribution over `t_parts` buckets, by whichever of the two
/// computations [`prefers_scan`] expects to cost less. The choice changes
/// the cost only: both return the same distribution.
pub fn calc_distribution_smart(map: &TimeIndex, t_parts: i32) -> (r: Result<
    Vec<Density>,
    NpsError,
>)
    ensures
        seen(r) == histogram(map@, t_parts as int),
        r matches Ok(d) ==> d@.len() == t_parts,
{
    if prefers_scan(map.len(), t_parts) {
        calc_distribution_2(map, t_parts)
    } else {
        calc_distribution(map, t_parts)
    }
}

} // verus!
