//! The sorted sequence of hit-object timestamps and its search primitives.

use vstd::prelude::*;

verus! {

/// Timestamps in chronological order; equal neighbours are allowed.
pub open spec fn is_sorted(s: Seq<i32>) -> bool {
    forall|i: int, j: int| 0 <= i <= j < s.len() ==> s[i] <= s[j]
}

/// How many elements of `s` satisfy `p`.
pub open spec fn count_where(s: Seq<i32>, p: spec_fn(i32) -> bool) -> nat
    decreases s.len(),
{
    if s.len() == 0 {
        0
    } else {
        count_where(s.drop_last(), p) + if p(s.last()) {
            1nat
        } else {
            0nat
        }
    }
}

/// The timestamps strictly before `t`.
pub open spec fn before(t: int) -> spec_fn(i32) -> bool {
    |e: i32| e < t
}

/// The timestamps at or before `t`.
pub open spec fn up_to(t: int) -> spec_fn(i32) -> bool {
    |e: i32| e <= t
}

/// The timestamps in the closed window from `start` to `end`.
pub open spec fn within(start: int, end: int) -> spec_fn(i32) -> bool {
    |e: i32| start <= e <= end
}

/// How many timestamps lie strictly before `t`.
pub open spec fn count_below(s: Seq<i32>, t: int) -> nat {
    count_where(s, before(t))
}

/// How many timestamps lie at or before `t`.
pub open spec fn count_at_most(s: Seq<i32>, t: int) -> nat {
    count_where(s, up_to(t))
}

/// How many timestamps lie in the closed window from `start` to `end`.
pub open spec fn count_within(s: Seq<i32>, start: int, end: int) -> nat {
    count_where(s, within(start, end))
}

/// A count never exceeds the length of the sequence.
pub proof fn lemma_count_bounded(s: Seq<i32>, p: spec_fn(i32) -> bool)
    ensures
        count_where(s, p) <= s.len(),
    decreases s.len(),
{
    if s.len() > 0 {
        lemma_count_bounded(s.drop_last(), p);
    }
}

/// Appending one element adds one to the count exactly when the element
/// satisfies the predicate.
pub proof fn lemma_count_push(s: Seq<i32>, x: i32, p: spec_fn(i32) -> bool)
    ensures
        count_where(s.push(x), p) == count_where(s, p) + if p(x) {
            1nat
        } else {
            0nat
        },
{
    assert(s.push(x).drop_last() =~= s);
}

/// Where `p` holds of an element exactly when one of `q` and `r` does, and
/// the two never hold together, the count of `p` is the sum of the others.
pub proof fn lemma_count_split(
    s: Seq<i32>,
    p: spec_fn(i32) -> bool,
    q: spec_fn(i32) -> bool,
    r: spec_fn(i32) -> bool,
)
    requires
        forall|i: int|
            0 <= i < s.len() ==> (p(#[trigger] s[i]) <==> (q(s[i]) || r(s[i]))) && !(q(s[i])
                && r(s[i])),
    ensures
        count_where(s, p) == count_where(s, q) + count_where(s, r),
    decreases s.len(),
{
    if s.len() > 0 {
        lemma_count_split(s.drop_last(), p, q, r);
    }
}

/// In a sequence whose first `k` elements satisfy `p` and whose other
/// elements do not, the count of `p` is `k`.
pub proof fn lemma_count_partition(s: Seq<i32>, p: spec_fn(i32) -> bool, k: int)
    requires
        0 <= k <= s.len(),
        forall|i: int| 0 <= i < k ==> p(#[trigger] s[i]),
        forall|i: int| k <= i < s.len() ==> !p(#[trigger] s[i]),
    ensures
        count_where(s, p) == k,
    decreases s.len(),
{
    if s.len() > 0 {
        if k == s.len() {
            lemma_count_partition(s.drop_last(), p, k - 1);
        } else {
            lemma_count_partition(s.drop_last(), p, k);
        }
    }
}

/// The hit-object timestamps of one beatmap, in whole milliseconds and in
/// chronological order. The order is established once, by [`TimeIndex::new`],
/// and holds of every value of the type.
pub struct TimeIndex {
    times: Vec<i32>,
}

impl View for TimeIndex {
    type V = Seq<i32>;

    closed spec fn view(&self) -> Seq<i32> {
        self.times@
    }
}

impl TimeIndex {
    #[verifier::type_invariant]
    spec fn sorted(self) -> bool {
        is_sorted(self.times@)
    }

    /// Takes ownership of `times` if they are in chronological order.
    pub fn new(times: Vec<i32>) -> (index: Option<TimeIndex>)
        ensures
            match index {
                Some(t) => t@ == times@ && is_sorted(times@),
                None => !is_sorted(times@),
            },
    {
        let n: usize = times.len();
        let mut k: usize = 1;
        while k < n
            invariant
                n == times.len(),
                1 <= k,
                forall|i: int, j: int| 0 <= i <= j < k && j < n ==> times@[i] <= times@[j],
            decreases n - k,
        {
            if times[k - 1] > times[k] {
                return None;
            }
            k += 1;
        }
        Some(TimeIndex { times })
    }

    /// The timestamps as a slice.
    pub fn as_slice(&self) -> (s: &[i32])
        ensures
            s@ == self@,
            is_sorted(s@),
    {
        proof {
            use_type_invariant(self);
        }
        self.times.as_slice()
    }

    /// The number of hit objects.
    pub fn len(&self) -> (n: usize)
        ensures
            n == self@.len(),
    {
        self.times.len()
    }

    /// Whether the beatmap holds no hit object.
    pub fn is_empty(&self) -> (b: bool)
        ensures
            b == (self@.len() == 0),
    {
        self.times.len() == 0
    }

    /// The number of timestamps strictly before `t`, found by binary search.
    pub fn lower_bound(&self, t: i32) -> (k: usize)
        ensures
            k == count_below(self@, t as int),
            k <= self@.len(),
    {
        proof {
            use_type_invariant(self);
        }
        let mut lo: usize = 0;
        let mut hi: usize = self.times.len();
        while lo < hi
            invariant
                lo <= hi <= self.times.len(),
                is_sorted(self.times@),
                forall|i: int| 0 <= i < lo ==> self.times@[i] < t,
                forall|i: int| hi <= i < self.times.len() ==> self.times@[i] >= t,
            decreases hi - lo,
        {
            let mid: usize = lo + (hi - lo) / 2;
            if self.times[mid] < t {
                lo = mid + 1;
            } else {
                hi = mid;
            }
        }
        proof {
            lemma_count_partition(self.times@, before(t as int), lo as int);
        }
        lo
    }

    /// The number of timestamps at or before `t`, found by binary search.
    pub fn upper_bound(&self, t: i32) -> (k: usize)
        ensures
            k == count_at_most(self@, t as int),
            k <= self@.len(),
    {
        proof {
            use_type_invariant(self);
        }
        let mut lo: usize = 0;
        let mut hi: usize = self.times.len();
        while lo < hi
            invariant
                lo <= hi <= self.times.len(),
                is_sorted(self.times@),
                forall|i: int| 0 <= i < lo ==> self.times@[i] <= t,
                forall|i: int| hi <= i < self.times.len() ==> self.times@[i] > t,
            decreases hi - lo,
        {
            let mid: usize = lo + (hi - lo) / 2;
            if self.times[mid] <= t {
                lo = mid + 1;
            } else {
                hi = mid;
            }
        }
        proof {
            lemma_count_partition(self.times@, up_to(t as int), lo as int);
        }
        lo
    }
}

} // verus!
