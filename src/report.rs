//! Paces of accepted intervals and their duration-weighted average.
use vstd::prelude::*;
use crate::interval::Interval;

verus! {

/// A mile in micrometres, times a thousand: divided by a speed in micrometres
/// per second, it gives milliseconds per mile.
pub const MILE_MS_NUMERATOR: u64 = 1_609_344_000_000;

/// The pace of a moving interval, in milliseconds per mile.
pub open spec fn pace_of(x: Interval) -> int {
    MILE_MS_NUMERATOR as int / x.rank as int
}

/// The length of an interval in milliseconds.
pub open spec fn elapsed_of(x: Interval) -> int {
    x.stop - x.start
}

/// The pace of an interval weighted by its length.
pub open spec fn weight_of(x: Interval) -> int {
    pace_of(x) * elapsed_of(x)
}

/// The sum of `f` over `s`.
pub open spec fn sum_by(s: Seq<Interval>, f: spec_fn(Interval) -> int) -> int
    decreases s.len(),
{
    if s.len() == 0 {
        0
    } else {
        sum_by(s.drop_last(), f) + f(s.last())
    }
}

/// Every interval has a positive speed and does not end before it starts.
pub open spec fn all_moving(s: Seq<Interval>) -> bool {
    forall|i: int| 0 <= i < s.len() ==> s[i].rank > 0 && s[i].stop >= s[i].start
}

/// The duration-weighted average pace of `s` in milliseconds per mile: the sum
/// of pace times length over the sum of lengths. There is none when some
/// interval does not move, when the lengths add up to nothing, or when a sum
/// exceeds 128 bits.
pub open spec fn average_pace_of(s: Seq<Interval>) -> Option<int> {
    let w = sum_by(s, |x: Interval| weight_of(x));
    let e = sum_by(s, |x: Interval| elapsed_of(x));
    if all_moving(s) && e > 0 && w <= u128::MAX && e <= u128::MAX {
        Some(w / e)
    } else {
        None
    }
}

proof fn lemma_sum_by_remove(s: Seq<Interval>, f: spec_fn(Interval) -> int, k: int)
    requires
        0 <= k < s.len(),
    ensures
        sum_by(s, f) == sum_by(s.remove(k), f) + f(s[k]),
    decreases s.len(),
{
    if k == s.len() - 1 {
        assert(s.remove(k) =~= s.drop_last());
    } else {
        assert(s.remove(k).drop_last() =~= s.drop_last().remove(k));
        assert(s.remove(k).last() == s.last());
        lemma_sum_by_remove(s.drop_last(), f, k);
    }
}

/// A sum over a sequence does not depend on the order of its entries.
pub proof fn lemma_sum_by_reorder(s1: Seq<Interval>, s2: Seq<Interval>, f: spec_fn(Interval) -> int)
    requires
        s1.to_multiset() == s2.to_multiset(),
    ensures
        sum_by(s1, f) == sum_by(s2, f),
    decreases s1.len(),
{
    broadcast use vstd::seq_lib::group_to_multiset_ensures;

    if s1.len() == 0 {
        assert(s1.to_multiset().len() == 0);
        assert(s2.to_multiset().len() == s2.len());
    } else {
        let x = s1.last();
        let t1 = s1.drop_last();
        assert(s1 =~= t1.push(x));
        assert(s1.contains(x));
        assert(s2.to_multiset().count(x) > 0);
        assert(s2.contains(x));
        let k = choose|k: int| 0 <= k < s2.len() && s2[k] == x;
        let t2 = s2.remove(k);
        assert(t2.to_multiset() =~= s2.to_multiset().remove(x));
        assert(t1.to_multiset() =~= s1.to_multiset().remove(x));
        lemma_sum_by_reorder(t1, t2, f);
        lemma_sum_by_remove(s2, f, k);
    }
}

/// The duration-weighted average pace does not depend on the order of the
/// intervals.
pub proof fn lemma_average_pace_reorder(s1: Seq<Interval>, s2: Seq<Interval>)
    requires
        s1.to_multiset() == s2.to_multiset(),
    ensures
        average_pace_of(s1) == average_pace_of(s2),
{
    broadcast use vstd::seq_lib::group_to_multiset_ensures;

    lemma_sum_by_reorder(s1, s2, |x: Interval| weight_of(x));
    lemma_sum_by_reorder(s1, s2, |x: Interval| elapsed_of(x));
    assert forall|i: int| 0 <= i < s2.len() && all_moving(s1) implies s2[i].rank > 0 && s2[i].stop >= s2[i].start by {
        assert(s2.contains(s2[i]));
        assert(s1.to_multiset().count(s2[i]) > 0);
        assert(s1.contains(s2[i]));
    }
    assert forall|i: int| 0 <= i < s1.len() && all_moving(s2) implies s1[i].rank > 0 && s1[i].stop >= s1[i].start by {
        assert(s1.contains(s1[i]));
        assert(s2.to_multiset().count(s1[i]) > 0);
        assert(s2.contains(s1[i]));
    }
}

proof fn lemma_sum_by_prefix_le(s: Seq<Interval>, f: spec_fn(Interval) -> int, k: int)
    requires
        0 <= k <= s.len(),
        forall|i: int| 0 <= i < s.len() ==> f(#[trigger] s[i]) >= 0,
    ensures
        sum_by(s.subrange(0, k), f) <= sum_by(s, f),
    decreases s.len(),
{
    if k < s.len() {
        assert(s.drop_last().subrange(0, k) =~= s.subrange(0, k));
        assert forall|i: int| 0 <= i < s.drop_last().len() implies f(#[trigger] s.drop_last()[i]) >= 0 by {
            assert(s.drop_last()[i] == s[i]);
        }
        lemma_sum_by_prefix_le(s.drop_last(), f, k);
    } else {
        assert(s.subrange(0, k) =~= s);
    }
}

proof fn lemma_weights_nonnegative(s: Seq<Interval>)
    requires
        all_moving(s),
    ensures
        forall|i: int| 0 <= i < s.len() ==> (|x: Interval| weight_of(x))(#[trigger] s[i]) >= 0,
        forall|i: int| 0 <= i < s.len() ==> (|x: Interval| elapsed_of(x))(#[trigger] s[i]) >= 0,
{
    assert forall|i: int| 0 <= i < s.len() implies (|x: Interval| weight_of(x))(#[trigger] s[i]) >= 0 by {
        let p = pace_of(s[i]);
        let e = elapsed_of(s[i]);
        assert(p >= 0) by (nonlinear_arith)
            requires
                p == MILE_MS_NUMERATOR as int / s[i].rank as int,
                s[i].rank > 0,
        ;
        assert(p * e >= 0) by (nonlinear_arith)
            requires
                p >= 0,
                e >= 0,
        ;
    }
}

impl Interval {
    /// The pace in milliseconds per mile, or none for an interval without
    /// movement, whose pace is infinite.
    pub fn pace_ms_per_mile(&self) -> (r: Option<u64>)
        ensures
            self.rank == 0 <==> r is None,
            r matches Some(p) ==> p == pace_of(*self),
    {
        if self.rank == 0 {
            None
        } else {
            Some(MILE_MS_NUMERATOR / self.rank)
        }
    }
}

/// The duration-weighted average pace of `intervals`, in milliseconds per
/// mile: the sum of each pace times its interval's length over the sum of the
/// lengths.
pub fn average_pace(intervals: &Vec<Interval>) -> (r: Option<u128>)
    ensures
        match r {
            Some(v) => average_pace_of(intervals@) == Some(v as int),
            None => average_pace_of(intervals@) is None,
        },
{
    let ghost s = intervals@;
    let ghost wf = |x: Interval| weight_of(x);
    let ghost ef = |x: Interval| elapsed_of(x);
    let mut weighted: u128 = 0;
    let mut total: u128 = 0;
    let mut k: usize = 0;
    while k < intervals.len()
        invariant
            s == intervals@,
            k <= s.len(),
            wf == (|x: Interval| weight_of(x)),
            ef == (|x: Interval| elapsed_of(x)),
            all_moving(s.subrange(0, k as int)),
            weighted == sum_by(s.subrange(0, k as int), wf),
            total == sum_by(s.subrange(0, k as int), ef),
        decreases s.len() - k,
    {
        let x = intervals[k];
        proof {
            assert(s.subrange(0, k + 1).drop_last() =~= s.subrange(0, k as int));
            assert(s.subrange(0, k + 1).last() == x);
        }
        if x.rank == 0 || x.stop < x.start {
            proof {
                assert(!all_moving(s)) by {
                    assert(s[k as int] == x);
                }
            }
            return None;
        }
        let pace: u64 = MILE_MS_NUMERATOR / x.rank;
        let elapsed: u128 = (x.stop as i128 - x.start as i128) as u128;
        proof {
            vstd::arithmetic::div_mod::lemma_div_is_ordered_by_denominator(MILE_MS_NUMERATOR as int, 1, x.rank as int);
            assert(pace as int * elapsed as int <= 0x200_0000_0000 * 0x1_0000_0000_0000_0000) by (nonlinear_arith)
                requires
                    pace <= 0x200_0000_0000,
                    elapsed <= 0x1_0000_0000_0000_0000,
            ;
        }
        let weight: u128 = pace as u128 * elapsed;
        let next_weighted = weighted.checked_add(weight);
        let next_total = total.checked_add(elapsed);
        if next_weighted.is_none() || next_total.is_none() {
            proof {
                if all_moving(s) {
                    lemma_weights_nonnegative(s);
                    lemma_sum_by_prefix_le(s, wf, k + 1);
                    lemma_sum_by_prefix_le(s, ef, k + 1);
                }
            }
            return None;
        }
        weighted = next_weighted.unwrap();
        total = next_total.unwrap();
        proof {
            let ghost next = s.subrange(0, k + 1);
            assert forall|i: int| 0 <= i < k + 1 implies (#[trigger] next[i]).rank > 0
                && next[i].stop >= next[i].start by {
                if i < k {
                    assert(next[i] == s.subrange(0, k as int)[i]);
                }
            }
        }
        k = k + 1;
    }
    proof {
        assert(s.subrange(0, s.len() as int) =~= s);
    }
    if total == 0 {
        return None;
    }
    Some(weighted / total)
}

} // verus!
