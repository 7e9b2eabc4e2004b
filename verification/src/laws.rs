//! What holds of the density computations on every beatmap.

use vstd::prelude::*;
use crate::buckets::bucket_of;
use crate::buckets::in_bucket;
use crate::buckets::lemma_bucket_window;
use crate::calc::average;
use crate::calc::bucket_count;
use crate::calc::bucket_density;
use crate::calc::distribution;
use crate::calc::histogram;
use crate::calc::position_density;
use crate::calc::range_density;
use crate::calc::seen;
use crate::calc::span_of;
use crate::density::Density;
use crate::error::NpsError;
use crate::frequency::histogram_by_frequency;
use crate::frequency::values_of;
use crate::frequency::Frequency;
use crate::frequency::KeyValue;
use crate::time_index::before;
use crate::time_index::count_where;
use crate::time_index::count_within;
use crate::time_index::is_sorted;
use crate::time_index::lemma_count_bounded;
use crate::time_index::lemma_count_partition;
use crate::time_index::lemma_count_split;
use crate::time_index::up_to;
use crate::time_index::within;

verus! {

/// The timestamps that fall into one of the first `upto` buckets.
pub open spec fn in_early_bucket(first: int, span: int, parts: int, upto: int) -> spec_fn(
    i32,
) -> bool {
    |t: i32| bucket_of(first, span, parts, t as int) < upto
}

/// How many hit objects the first `upto` buckets hold together.
pub open spec fn counted(events: Seq<i32>, parts: int, upto: int) -> nat
    decreases upto,
{
    if upto <= 0 {
        0
    } else {
        counted(events, parts, upto - 1) + bucket_count(events, parts, upto - 1)
    }
}

/// The sum of the numerators of a sequence of densities.
pub open spec fn numerator_sum(densities: Seq<Density>) -> int
    decreases densities.len(),
{
    if densities.len() == 0 {
        0
    } else {
        numerator_sum(densities.drop_last()) + densities.last().numerator
    }
}

/// The first `upto` buckets hold together the hit objects whose bucket is
/// one of them.
proof fn lemma_counted_is_early(events: Seq<i32>, parts: int, upto: int)
    requires
        is_sorted(events),
        events.len() > 0,
        0 < parts,
        0 < span_of(events),
        0 <= upto <= parts,
    ensures
        counted(events, parts, upto) == count_where(
            events,
            in_early_bucket(events.first() as int, span_of(events), parts, upto),
        ),
    decreases upto,
{
    let first = events.first() as int;
    let span = span_of(events);
    assert forall|j: int| 0 <= j < events.len() implies 0 <= bucket_of(
        first,
        span,
        parts,
        (#[trigger] events[j]) as int,
    ) < parts by {
        assert(events[0] <= events[j] <= events[events.len() - 1]);
        lemma_bucket_window(first, span, parts, 0, events[j] as int);
    }
    if upto == 0 {
        lemma_count_partition(events, in_early_bucket(first, span, parts, 0), 0);
    } else {
        lemma_counted_is_early(events, parts, upto - 1);
        lemma_count_split(
            events,
            in_early_bucket(first, span, parts, upto),
            in_early_bucket(first, span, parts, upto - 1),
            in_bucket(first, span, parts, upto - 1),
        );
    }
}

/// Every hit object is counted in exactly one bucket: the counts of all
/// buckets add up to the number of hit objects. A hit object on the seam of
/// two buckets is therefore counted once, like any other.
pub proof fn lemma_every_event_counted_once(events: Seq<i32>, parts: int)
    requires
        is_sorted(events),
        events.len() > 0,
        0 < parts,
        0 < span_of(events),
    ensures
        counted(events, parts, parts) == events.len(),
{
    let first = events.first() as int;
    let span = span_of(events);
    lemma_counted_is_early(events, parts, parts);
    assert forall|j: int| 0 <= j < events.len() implies in_early_bucket(first, span, parts, parts)(
        #[trigger] events[j],
    ) by {
        assert(events[0] <= events[j] <= events[events.len() - 1]);
        lemma_bucket_window(first, span, parts, 0, events[j] as int);
    }
    lemma_count_partition(
        events,
        in_early_bucket(first, span, parts, parts),
        events.len() as int,
    );
}

/// The numerators of the first `upto` buckets add up to the hit objects in
/// them, scaled as every bucket is.
proof fn lemma_numerators_follow_counts(events: Seq<i32>, parts: int, upto: int)
    requires
        events.len() <= usize::MAX,
        0 < parts <= i32::MAX,
        0 < span_of(events),
        0 <= upto <= parts,
    ensures
        numerator_sum(distribution(events, parts).take(upto)) == counted(events, parts, upto)
            * parts * 1000,
    decreases upto,
{
    let d = distribution(events, parts);
    if upto == 0 {
        assert(d.take(0).len() == 0);
        assert(counted(events, parts, 0) * parts * 1000 == 0) by (nonlinear_arith)
            requires
                counted(events, parts, 0) == 0,
        ;
    } else {
        lemma_numerators_follow_counts(events, parts, upto - 1);
        assert(d.take(upto).drop_last() =~= d.take(upto - 1));
        assert(d.take(upto).last() == bucket_density(events, parts, upto - 1));
        let c = bucket_count(events, parts, upto - 1);
        lemma_count_bounded(
            events,
            in_bucket(events.first() as int, span_of(events), parts, upto - 1),
        );
        assert(0 <= c * parts * 1000 <= 0xffff_ffff_ffff_ffff * 0x8000_0000 * 1000)
            by (nonlinear_arith)
            requires
                0 <= c <= 0xffff_ffff_ffff_ffff,
                0 < parts <= 0x8000_0000,
        ;
        assert((counted(events, parts, upto - 1) + c) * parts * 1000 == counted(
            events,
            parts,
            upto - 1,
        ) * parts * 1000 + c * parts * 1000) by (nonlinear_arith);
    }
}

/// The mean of the bucket densities is the average density. All buckets
/// share the denominator of the average, and their numerators add up to
/// `parts` times its numerator. A beatmap whose hit objects all fall on one
/// instant is left out: its buckets hold zero and its average is the bare
/// number of hit objects.
pub proof fn lemma_mean_of_buckets_is_average(events: Seq<i32>, parts: int)
    requires
        is_sorted(events),
        0 < events.len() <= usize::MAX,
        0 < parts <= i32::MAX,
        0 < span_of(events),
    ensures
        numerator_sum(distribution(events, parts)) == parts * average(events).numerator,
        forall|i: int|
            0 <= i < parts ==> (#[trigger] distribution(events, parts)[i]).denominator == average(
                events,
            ).denominator,
{
    let d = distribution(events, parts);
    lemma_numerators_follow_counts(events, parts, parts);
    lemma_every_event_counted_once(events, parts);
    assert(d.take(parts) =~= d);
    let n = events.len() as int;
    assert(n * parts * 1000 == parts * (n * 1000)) by (nonlinear_arith);
    assert(0 <= n * 1000 <= 0xffff_ffff_ffff_ffff * 1000);
}

/// The density inside the window from the first to the last hit object is
/// the average density. A beatmap whose hit objects all fall on one instant
/// is left out: its window lasts no time and yields zero.
pub proof fn lemma_full_range_is_average(events: Seq<i32>)
    requires
        is_sorted(events),
        events.len() > 0,
        0 < span_of(events),
    ensures
        range_density(events, events.first() as int, events.last() as int) == average(events),
{
    assert forall|j: int| 0 <= j < events.len() implies within(
        events.first() as int,
        events.last() as int,
    )(#[trigger] events[j]) by {
        assert(events[0] <= events[j] <= events[events.len() - 1]);
    }
    lemma_count_partition(
        events,
        within(events.first() as int, events.last() as int),
        events.len() as int,
    );
}

/// The density between two positions is the density inside the window
/// between their timestamps, in whichever order the positions are given and
/// whichever hit object of a chord is named.
pub proof fn lemma_positions_match_window(events: Seq<i32>, a: int, b: int)
    requires
        0 <= a <= b < events.len(),
    ensures
        position_density(events, a, b) == range_density(events, events[a] as int, events[b] as int),
        position_density(events, b, a) == range_density(events, events[a] as int, events[b] as int),
{
}

/// Hit objects at one instant yield the same density between positions,
/// whichever of them is named: the result depends on the two timestamps
/// alone.
pub proof fn lemma_positions_in_a_chord_agree(events: Seq<i32>, a: int, b: int, c: int, d: int)
    requires
        0 <= a <= b < events.len(),
        0 <= c <= d < events.len(),
        events[a] == events[c],
        events[b] == events[d],
    ensures
        position_density(events, a, b) == position_density(events, c, d),
{
}

/// Where no hit object outside two positions shares the timestamp of
/// either, the window between their timestamps holds exactly the hit
/// objects from the one position to the other.
pub proof fn lemma_unshared_ends_count_by_position(events: Seq<i32>, a: int, b: int)
    requires
        is_sorted(events),
        0 <= a <= b < events.len(),
        a == 0 || events[a - 1] < events[a],
        b == events.len() - 1 || events[b] < events[b + 1],
    ensures
        count_within(events, events[a] as int, events[b] as int) == b - a + 1,
{
    let start = events[a] as int;
    let end = events[b] as int;
    assert forall|j: int| 0 <= j < a implies before(start)(#[trigger] events[j]) by {
        assert(events[j] <= events[a - 1]);
    }
    assert forall|j: int| a <= j < events.len() implies !before(start)(#[trigger] events[j]) by {
        assert(events[a] <= events[j]);
    }
    lemma_count_partition(events, before(start), a);
    assert forall|j: int| 0 <= j < b + 1 implies up_to(end)(#[trigger] events[j]) by {
        assert(events[j] <= events[b]);
    }
    assert forall|j: int| b + 1 <= j < events.len() implies !up_to(end)(#[trigger] events[j]) by {
        assert(events[b + 1] <= events[j]);
    }
    lemma_count_partition(events, up_to(end), b + 1);
    lemma_count_split(events, up_to(end), before(start), within(start, end));
}

/// A distribution has as many entries as buckets were asked for.
pub proof fn lemma_distribution_length(events: Seq<i32>, parts: int)
    requires
        events.len() > 0,
        0 < parts,
    ensures
        histogram(events, parts) matches Ok(d) && d.len() == parts,
{
}

/// The distribution at a frequency whose period rounds to `parts` is the
/// distribution with `parts` buckets, value for value.
pub proof fn lemma_frequency_selects_histogram(events: Seq<i32>, frequency: Frequency, parts: int)
    requires
        frequency.parts() == Some(parts),
    ensures
        match histogram_by_frequency(events, frequency) {
            Ok(buckets) => histogram(events, parts) == Ok::<Seq<Density>, NpsError>(
                values_of(buckets),
            ),
            Err(e) => histogram(events, parts) == Err::<Seq<Density>, NpsError>(e),
        },
{
    if events.len() > 0 {
        let buckets = histogram_by_frequency(events, frequency)->Ok_0;
        assert(values_of(buckets) =~= distribution(events, parts));
    }
}

/// A frequency that is not positive selects no distribution.
pub proof fn lemma_frequency_must_be_positive(events: Seq<i32>, frequency: Frequency)
    requires
        frequency.numerator <= 0,
    ensures
        histogram_by_frequency(events, frequency) == Err::<Seq<KeyValue>, NpsError>(
            NpsError::InvalidArgument,
        ),
{
}

/// A distribution is a function of the hit objects and of the number of
/// buckets alone. Whatever two runs return on the same beatmap, by either
/// way of computing, they return the same: the same failure, or the same
/// densities in the same order.
pub proof fn lemma_same_input_same_distribution(
    events: Seq<i32>,
    parts: int,
    one: Result<Vec<Density>, NpsError>,
    other: Result<Vec<Density>, NpsError>,
)
    requires
        seen(one) == histogram(events, parts),
        seen(other) == histogram(events, parts),
    ensures
        seen(one) == seen(other),
        one is Ok ==> other is Ok && one->Ok_0@ == other->Ok_0@,
        one is Err ==> one == other,
{
}

/// The average and the density inside a window are functions of their
/// arguments alone: two runs on the same beatmap return the same fraction.
pub proof fn lemma_same_input_same_density(
    events: Seq<i32>,
    start: int,
    end: int,
    one_average: Density,
    other_average: Density,
    one_window: Density,
    other_window: Density,
)
    requires
        one_average == average(events),
        other_average == average(events),
        one_window == range_density(events, start, end),
        other_window == range_density(events, start, end),
    ensures
        one_average == other_average,
        one_window == other_window,
{
}

/// A window that ends at or before its start has density zero.
pub proof fn lemma_empty_window_is_zero(events: Seq<i32>, start: int, end: int)
    requires
        end <= start,
    ensures
        range_density(events, start, end) == Density::bare(0),
        range_density(events, start, end).numerator == 0,
        range_density(events, start, end).denominator == 1,
{
}

} // verus!
