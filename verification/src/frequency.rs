//! Distributions selected by a sampling frequency.

use vstd::prelude::*;
use vstd::arithmetic::power2::lemma2_to64;
use vstd::arithmetic::power2::lemma2_to64_rest;
use vstd::arithmetic::power2::lemma_pow2_adds;
use vstd::arithmetic::power2::lemma_pow2_strictly_increases;
use vstd::arithmetic::power2::lemma_pow2_unfold;
use vstd::arithmetic::power2::pow2;
use crate::buckets::bucket_start;
use crate::buckets::bucket_start_at;
use crate::buckets::lemma_floor_div;
use crate::buckets::offset_of;
use crate::calc::bucket_density;
use crate::calc::calc_distribution_smart;
use crate::calc::histogram;
use crate::calc::span_of;
use crate::density::Density;
use crate::error::NpsError;
use crate::time_index::TimeIndex;

verus! {

/// A sampling frequency in hertz, held as the fraction
/// `numerator / denominator`.
#[derive(Clone, Copy, Debug, PartialEq, Eq, Structural)]
pub struct Frequency {
    pub numerator: i64,
    pub denominator: u128,
}

/// One bucket of a distribution: the first whole millisecond of the bucket
/// and the density inside it.
#[derive(Clone, Copy, Debug, PartialEq, Eq, Structural)]
pub struct KeyValue {
    pub key: i32,
    pub value: Density,
}

/// The exponent field of a binary64 bit pattern.
pub open spec fn binary64_exponent(bits: u64) -> int {
    (bits as int / 0x10_0000_0000_0000) % 0x800
}

/// The fraction field of a binary64 bit pattern.
pub open spec fn binary64_fraction(bits: u64) -> int {
    bits as int % 0x10_0000_0000_0000
}

/// The whole number that a binary64 bit pattern scales by a power of two:
/// the fraction field, with the hidden leading bit unless the number is
/// subnormal.
pub open spec fn binary64_mantissa(bits: u64) -> int {
    if binary64_exponent(bits) == 0 {
        binary64_fraction(bits)
    } else {
        0x10_0000_0000_0000 + binary64_fraction(bits)
    }
}

/// The power of two by which a binary64 bit pattern scales its mantissa.
pub open spec fn binary64_scale(bits: u64) -> int {
    if binary64_exponent(bits) == 0 {
        -1074
    } else {
        binary64_exponent(bits) - 1075
    }
}

/// Whether a binary64 bit pattern stands for a number above zero: its sign
/// bit is clear, it is neither an infinity nor a NaN, and it is not zero.
pub open spec fn binary64_is_positive(bits: u64) -> bool {
    bits < 0x8000_0000_0000_0000 && binary64_exponent(bits) != 0x7ff && binary64_mantissa(bits)
        != 0
}

/// The values of two to the powers of 127 and 128: the first is the largest
/// power of two that the denominator of a frequency can hold.
proof fn lemma_pow2_127()
    ensures
        pow2(127) == 0x8000_0000_0000_0000_0000_0000_0000_0000,
        pow2(128) == 0x1_0000_0000_0000_0000_0000_0000_0000_0000,
{
    lemma2_to64();
    lemma2_to64_rest();
    lemma_pow2_adds(64, 63);
    lemma_pow2_adds(64, 64);
}

/// Two to the power of `k`, by doubling.
fn power_of_two(k: u64) -> (p: u128)
    requires
        k <= 127,
    ensures
        p == pow2(k as nat),
{
    let mut p: u128 = 1;
    let mut i: u64 = 0;
    proof {
        lemma2_to64();
    }
    while i < k
        invariant
            i <= k <= 127,
            p == pow2(i as nat),
        decreases k - i,
    {
        proof {
            lemma_pow2_unfold((i + 1) as nat);
            lemma_pow2_127();
            if i + 1 < 127 {
                lemma_pow2_strictly_increases((i + 1) as nat, 127);
            }
        }
        p = p * 2;
        i += 1;
    }
    p
}

impl Frequency {
    /// The frequency that a binary64 bit pattern stands for, where the
    /// pattern stands for a number above zero that scales its mantissa by
    /// two to a power from -127 to -1. The frequency is then the mantissa
    /// over that power of two, unreduced. Within that reach is every number
    /// from two to the power of -75 up to, but not including, two to the
    /// power of 52.
    pub fn from_binary64(bits: u64) -> (f: Option<Frequency>)
        ensures
            match f {
                Some(f) => binary64_is_positive(bits) && -127 <= binary64_scale(bits) < 0
                    && f.numerator == binary64_mantissa(bits) && f.denominator == pow2(
                    (-binary64_scale(bits)) as nat,
                ),
                None => !(binary64_is_positive(bits) && -127 <= binary64_scale(bits) < 0),
            },
    {
        let exponent: u64 = (bits / 0x10_0000_0000_0000) % 0x800;
        let fraction: u64 = bits % 0x10_0000_0000_0000;
        if bits >= 0x8000_0000_0000_0000 || exponent < 948 || exponent >= 1075 {
            return None;
        }
        let denominator: u128 = power_of_two(1075 - exponent);
        Some(Frequency { numerator: (0x10_0000_0000_0000 + fraction) as i64, denominator })
    }

    /// A number above zero that [`Frequency::from_binary64`] does not reach
    /// selects no bucket count. Scaled up by a power of two, it is far
    /// above two, so that its period rounds to zero. Scaled down by more
    /// than two to the power of 127, its period is far above what an `i32`
    /// can hold.
    pub proof fn lemma_beyond_reach_selects_nothing(bits: u64)
        requires
            binary64_is_positive(bits),
            !(-127 <= binary64_scale(bits) < 0),
        ensures
            binary64_scale(bits) >= 0 ==> 2 < binary64_mantissa(bits) * pow2(
                binary64_scale(bits) as nat,
            ),
            binary64_scale(bits) < 0 ==> binary64_mantissa(bits) * 0x8000_0000 < pow2(
                (-binary64_scale(bits)) as nat,
            ),
    {
        let m = binary64_mantissa(bits);
        let e = binary64_scale(bits);
        if e >= 0 {
            vstd::arithmetic::power2::lemma_pow2_pos(e as nat);
            assert(2 < m * pow2(e as nat)) by (nonlinear_arith)
                requires
                    m >= 0x10_0000_0000_0000,
                    pow2(e as nat) >= 1,
            ;
        } else {
            lemma_pow2_127();
            if -e > 128 {
                lemma_pow2_strictly_increases(128, (-e) as nat);
            }
        }
    }

    /// The period `1 / frequency` of a positive frequency, rounded to the
    /// nearest integer, a half rounded up.
    pub open spec fn rounded_period(self) -> int {
        (2 * self.denominator + self.numerator) / (2 * self.numerator)
    }

    /// The number of buckets that the frequency selects: its rounded period,
    /// where the frequency is positive and the period is a positive number
    /// that an `i32` can hold.
    pub open spec fn parts(self) -> Option<int> {
        if self.numerator > 0 && 1 <= self.rounded_period() <= i32::MAX {
            Some(self.rounded_period())
        } else {
            None
        }
    }

    /// The rounded period is the integer nearest to `1 / frequency`: it
    /// differs from the period by half at most, and by less than half
    /// from above.
    pub proof fn lemma_rounded_period_is_nearest(self)
        requires
            self.numerator > 0,
        ensures
            (2 * self.rounded_period() - 1) * self.numerator <= 2 * self.denominator,
            2 * self.denominator < (2 * self.rounded_period() + 1) * self.numerator,
    {
        let k = self.rounded_period();
        let n = self.numerator as int;
        lemma_floor_div(2 * self.denominator + n, 2 * n, k);
        assert(k * (2 * n) == (2 * k - 1) * n + n) by (nonlinear_arith);
        assert((k + 1) * (2 * n) == (2 * k + 1) * n + n) by (nonlinear_arith);
    }

    /// Computes [`Frequency::parts`].
    pub fn bucket_count(&self) -> (k: Option<i32>)
        ensures
            match k {
                Some(k) => self.parts() == Some(k as int),
                None => self.parts().is_none(),
            },
    {
        if self.numerator <= 0 {
            return None;
        }
        let n: u128 = self.numerator as u128;
        let whole: u128 = self.denominator / n;
        let rest: u128 = self.denominator % n;
        proof {
            Self::lemma_round_split(self.denominator as int, n as int);
            vstd::arithmetic::div_mod::lemma_fundamental_div_mod(
                self.denominator as int,
                n as int,
            );
            assert(rest >= n - rest ==> 2 * whole <= n * whole) by (nonlinear_arith)
                requires
                    0 <= rest < n,
                    0 <= whole,
            ;
        }
        let rounded: u128 = if rest >= n - rest {
            whole + 1
        } else {
            whole
        };
        if rounded == 0 || rounded > i32::MAX as u128 {
            None
        } else {
            Some(rounded as i32)
        }
    }

    /// Rounding `d / n` to the nearest integer is rounding it down and
    /// adding one where the remainder is half of `n` or more.
    proof fn lemma_round_split(d: int, n: int)
        requires
            0 <= d,
            0 < n,
        ensures
            (2 * d + n) / (2 * n) == d / n + if d % n >= n - d % n {
                1int
            } else {
                0int
            },
    {
        let q = d / n;
        let r = d % n;
        vstd::arithmetic::div_mod::lemma_fundamental_div_mod(d, n);
        vstd::arithmetic::div_mod::lemma_mod_bound(d, n);
        assert(d == n * q + r);
        let k = if r >= n - r {
            q + 1
        } else {
            q
        };
        assert(k * (2 * n) <= 2 * d + n < (k + 1) * (2 * n)) by (nonlinear_arith)
            requires
                d == n * q + r,
                0 <= r < n,
                k == if r >= n - r {
                    q + 1
                } else {
                    q
                },
        ;
        lemma_floor_div(2 * d + n, 2 * n, k);
    }
}

/// The buckets of a distribution with `parts` buckets, each with the first
/// whole millisecond that belongs to it.
pub open spec fn key_values(events: Seq<i32>, parts: int) -> Seq<KeyValue> {
    Seq::new(
        parts as nat,
        |i: int|
            KeyValue {
                key: bucket_start(events.first() as int, span_of(events), parts, i) as i32,
                value: bucket_density(events, parts, i),
            },
    )
}

/// The densities of a sequence of buckets.
pub open spec fn values_of(buckets: Seq<KeyValue>) -> Seq<Density> {
    Seq::new(buckets.len(), |i: int| buckets[i].value)
}

/// What the distribution at a sampling frequency is, or why there is none.
pub open spec fn histogram_by_frequency(events: Seq<i32>, frequency: Frequency) -> Result<
    Seq<KeyValue>,
    NpsError,
> {
    match frequency.parts() {
        None => Err(NpsError::InvalidArgument),
        Some(parts) => if events.len() == 0 {
            Err(NpsError::EmptyInput)
        } else {
            Ok(key_values(events, parts))
        },
    }
}

/// Computed buckets, seen as a sequence.
pub open spec fn seen_buckets(r: Result<Vec<KeyValue>, NpsError>) -> Result<
    Seq<KeyValue>,
    NpsError,
> {
    match r {
        Ok(v) => Ok(v@),
        Err(e) => Err(e),
    }
}

/// The densities of computed buckets.
pub open spec fn seen_values(r: Result<Vec<KeyValue>, NpsError>) -> Result<
    Seq<Density>,
    NpsError,
> {
    match r {
        Ok(v) => Ok(values_of(v@)),
        Err(e) => Err(e),
    }
}

/// The density distribution at a sampling frequency: as many buckets as the
/// period of the frequency, rounded to the nearest integer. A frequency
/// that is not positive, or whose rounded period is not a positive `i32`,
/// is an invalid argument. The densities are those of the distribution
/// with that many buckets.
pub fn calculate_average_notes_per_second(map: &TimeIndex, frequency: Frequency) -> (r: Result<
    Vec<KeyValue>,
    NpsError,
>)
    ensures
        seen_buckets(r) == histogram_by_frequency(map@, frequency),
        frequency.numerator <= 0 ==> r == Err::<Vec<KeyValue>, NpsError>(
            NpsError::InvalidArgument,
        ),
        frequency.parts() matches Some(parts) ==> seen_values(r) == histogram(map@, parts),
{
    let t_parts: i32 = match frequency.bucket_count() {
        Some(k) => k,
        None => {
            return Err(NpsError::InvalidArgument);
        },
    };
    let densities: Vec<Density> = match calc_distribution_smart(map, t_parts) {
        Ok(d) => d,
        Err(e) => {
            return Err(e);
        },
    };
    let events = map.as_slice();
    let first: i32 = events[0];
    let last: i32 = events[events.len() - 1];
    let span: u64 = offset_of(first, last);
    let parts: usize = t_parts as usize;
    let mut out: Vec<KeyValue> = Vec::with_capacity(parts);
    let mut part: usize = 0;
    while part < parts
        invariant
            part <= parts,
            0 < parts <= i32::MAX,
            map@.len() > 0,
            first == map@.first(),
            span == span_of(map@),
            first + span <= i32::MAX,
            densities@.len() == parts,
            forall|j: int| 0 <= j < parts ==> densities@[j] == bucket_density(map@, parts as int, j),
            out@.len() == part,
            forall|j: int| 0 <= j < part ==> out@[j] == key_values(map@, parts as int)[j],
        decreases parts - part,
    {
        let key: i32 = if span == 0 {
            assert((part * 0 + parts - 1) / (parts as int) == 0) by (nonlinear_arith)
                requires
                    0 < parts,
            ;
            first
        } else {
            bucket_start_at(first, span, parts, part)
        };
        out.push(KeyValue { key, value: densities[part] });
        part += 1;
    }
    assert(out@ =~= key_values(map@, parts as int));
    assert(values_of(out@) =~= densities@);
    Ok(out)
}

} // verus!
