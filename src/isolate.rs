//! Isolation of one structured workout among the disjoint intervals, and
//! trimming of that run to the requested count.
use vstd::prelude::*;
use crate::interval::{Interval, starts_ordered};

verus! {

/// `a` is the anchor of `s`: no other entry has a higher rank, and among those
/// of equal rank it comes last.
pub open spec fn is_anchor(s: Seq<Interval>, a: int) -> bool {
    &&& 0 <= a < s.len()
    &&& forall|k: int|
        0 <= k < s.len() && k != a ==> s[a].rank > s[k].rank || (s[a].rank == s[k].rank && a > k)
}

/// The anchor of a non-empty sequence.
pub open spec fn anchor_of(s: Seq<Interval>) -> int {
    choose|a: int| is_anchor(s, a)
}

/// A rank of at least seven tenths of the anchor's.
pub open spec fn rank_ok(x: Interval, best: Interval) -> bool {
    x.rank * 10 >= best.rank * 7
}

/// Walking back from `lo`, the first entry of the run: each step admits the
/// previous entry while it starts no more than `slop` milliseconds before the
/// current first entry and ranks well enough.
pub open spec fn back_from(s: Seq<Interval>, lo: int, slop: int, best: Interval) -> int
    decreases lo,
{
    if 0 < lo < s.len() && s[lo - 1].start >= s[lo].start - slop && rank_ok(s[lo - 1], best) {
        back_from(s, lo - 1, slop, best)
    } else {
        lo
    }
}

/// Walking forward from `hi`, the end of the run (exclusive), admitting in the
/// same way the entry after the current last one.
pub open spec fn fwd_from(s: Seq<Interval>, hi: int, slop: int, best: Interval) -> int
    decreases s.len() - hi,
{
    if 0 < hi < s.len() && s[hi].start <= s[hi - 1].start + slop && rank_ok(s[hi], best) {
        fwd_from(s, hi + 1, slop, best)
    } else {
        hi
    }
}

/// The run of the workout around the anchor of `s`, which is ordered by start.
pub open spec fn isolated(s: Seq<Interval>, slop: int) -> Seq<Interval> {
    let a = anchor_of(s);
    s.subrange(back_from(s, a, slop, s[a]), fwd_from(s, a + 1, slop, s[a]))
}

/// Sheds the weaker end of `s`, the first entry on a tie, until `count` remain.
pub open spec fn trimmed(s: Seq<Interval>, count: int) -> Seq<Interval>
    decreases s.len(),
{
    if s.len() <= count || s.len() == 0 {
        s
    } else if s[0].rank <= s.last().rank {
        trimmed(s.drop_first(), count)
    } else {
        trimmed(s.drop_last(), count)
    }
}

/// `s`, ordered by start, with `x` placed after every entry that starts no
/// later than it.
pub open spec fn insert_by_start(s: Seq<Interval>, x: Interval) -> Seq<Interval>
    decreases s.len(),
{
    if s.len() == 0 {
        seq![x]
    } else if s.last().start <= x.start {
        s.push(x)
    } else {
        insert_by_start(s.drop_last(), x).push(s.last())
    }
}

/// `s` ordered by start; entries that start together keep their order.
pub open spec fn sorted_by_start(s: Seq<Interval>) -> Seq<Interval>
    decreases s.len(),
{
    if s.len() == 0 {
        s
    } else {
        insert_by_start(sorted_by_start(s.drop_last()), s.last())
    }
}

proof fn lemma_insert_by_start(s: Seq<Interval>, x: Interval)
    requires
        starts_ordered(s),
    ensures
        starts_ordered(insert_by_start(s, x)),
        insert_by_start(s, x).to_multiset() == s.to_multiset().insert(x),
        insert_by_start(s, x).len() == s.len() + 1,
        s.len() > 0 ==> insert_by_start(s, x).last().start == if s.last().start <= x.start {
            x.start
        } else {
            s.last().start
        },
    decreases s.len(),
{
    broadcast use vstd::seq_lib::group_to_multiset_ensures;

    if s.len() == 0 {
        assert(seq![x] =~= Seq::<Interval>::empty().push(x));
    } else if s.last().start <= x.start {
        let r = s.push(x);
        assert forall|i: int, j: int| 0 <= i <= j < r.len() implies r[i].start <= r[j].start by {
            if j == s.len() && i < j {
                assert(s[i].start <= s.last().start);
            }
        }
    } else {
        let t = s.drop_last();
        let l = s.last();
        lemma_insert_by_start(t, x);
        let u = insert_by_start(t, x);
        let r = u.push(l);
        assert forall|i: int, j: int| 0 <= i <= j < r.len() implies r[i].start <= r[j].start by {
            if j == u.len() && i < j {
                if t.len() > 0 {
                    assert(t.last().start <= l.start);
                }
                assert(u.last().start <= l.start);
                assert(u[i].start <= u.last().start);
            }
        }
        assert(s =~= t.push(l));
        assert(r.to_multiset() =~= s.to_multiset().insert(x));
    }
}

/// Sorting by start gives a start-ordered rearrangement of the same entries.
pub proof fn lemma_sorted_by_start(s: Seq<Interval>)
    ensures
        starts_ordered(sorted_by_start(s)),
        sorted_by_start(s).to_multiset() == s.to_multiset(),
        sorted_by_start(s).len() == s.len(),
    decreases s.len(),
{
    broadcast use vstd::seq_lib::group_to_multiset_ensures;

    if s.len() > 0 {
        lemma_sorted_by_start(s.drop_last());
        lemma_insert_by_start(sorted_by_start(s.drop_last()), s.last());
        assert(s =~= s.drop_last().push(s.last()));
    }
}

/// A sequence already ordered by start is its own sorting.
pub proof fn lemma_sorted_by_start_ordered(s: Seq<Interval>)
    requires
        starts_ordered(s),
    ensures
        sorted_by_start(s) == s,
    decreases s.len(),
{
    if s.len() > 0 {
        let t = s.drop_last();
        lemma_sorted_by_start_ordered(t);
        if t.len() > 0 {
            assert(t.last().start <= s.last().start);
        }
        assert(t.push(s.last()) =~= s);
    }
}

/// The run found around the anchor holds the anchor, and cannot grow: the
/// entry before it, if any, starts too early or ranks too low, and so does
/// the entry after it.
pub proof fn lemma_isolated_run(s: Seq<Interval>, slop: int)
    requires
        s.len() > 0,
    ensures
        ({
            let a = anchor_of(s);
            let lo = back_from(s, a, slop, s[a]);
            let hi = fwd_from(s, a + 1, slop, s[a]);
            &&& is_anchor(s, a)
            &&& 0 <= lo <= a < hi <= s.len()
            &&& isolated(s, slop) == s.subrange(lo, hi)
            &&& lo == 0 || s[lo - 1].start < s[lo].start - slop || !rank_ok(s[lo - 1], s[a])
            &&& hi == s.len() || s[hi].start > s[hi - 1].start + slop || !rank_ok(s[hi], s[a])
        }),
{
    lemma_anchor_exists(s);
    let a = anchor_of(s);
    lemma_back_from(s, a, slop, s[a]);
    lemma_fwd_from(s, a + 1, slop, s[a]);
}

proof fn lemma_back_from(s: Seq<Interval>, lo: int, slop: int, best: Interval)
    requires
        0 <= lo < s.len(),
    ensures
        0 <= back_from(s, lo, slop, best) <= lo,
        back_from(s, lo, slop, best) == 0 || s[back_from(s, lo, slop, best) - 1].start
            < s[back_from(s, lo, slop, best)].start - slop || !rank_ok(s[back_from(s, lo, slop, best) - 1], best),
    decreases lo,
{
    if 0 < lo && s[lo - 1].start >= s[lo].start - slop && rank_ok(s[lo - 1], best) {
        lemma_back_from(s, lo - 1, slop, best);
    }
}

proof fn lemma_fwd_from(s: Seq<Interval>, hi: int, slop: int, best: Interval)
    requires
        1 <= hi <= s.len(),
    ensures
        hi <= fwd_from(s, hi, slop, best) <= s.len(),
        fwd_from(s, hi, slop, best) == s.len() || s[fwd_from(s, hi, slop, best)].start
            > s[fwd_from(s, hi, slop, best) - 1].start + slop || !rank_ok(s[fwd_from(s, hi, slop, best)], best),
    decreases s.len() - hi,
{
    if hi < s.len() && s[hi].start <= s[hi - 1].start + slop && rank_ok(s[hi], best) {
        lemma_fwd_from(s, hi + 1, slop, best);
    }
}

/// The slack allowed between the starts of neighbouring intervals, one and a
/// half times the interval and rest together, in milliseconds.
pub open spec fn slop_of(duration: int, rest: int) -> int {
    (duration + rest) * 1500
}

/// Trimming leaves `min(count, len)` entries, a contiguous stretch of the
/// input.
pub proof fn lemma_trimmed_len(s: Seq<Interval>, count: int)
    requires
        count >= 0,
    ensures
        trimmed(s, count).len() == if count < s.len() { count } else { s.len() as int },
        exists|lo: int, hi: int|
            0 <= lo <= hi <= s.len() && trimmed(s, count) == #[trigger] s.subrange(lo, hi),
    decreases s.len(),
{
    if s.len() <= count || s.len() == 0 {
        assert(s == s.subrange(0, s.len() as int));
    } else if s[0].rank <= s.last().rank {
        lemma_trimmed_len(s.drop_first(), count);
        let t = trimmed(s, count);
        let (lo, hi) = choose|lo: int, hi: int|
            0 <= lo <= hi <= s.drop_first().len() && t == #[trigger] s.drop_first().subrange(lo, hi);
        assert(t =~= s.subrange(lo + 1, hi + 1));
    } else {
        lemma_trimmed_len(s.drop_last(), count);
        let t = trimmed(s, count);
        let (lo, hi) = choose|lo: int, hi: int|
            0 <= lo <= hi <= s.drop_last().len() && t == #[trigger] s.drop_last().subrange(lo, hi);
        assert(t =~= s.subrange(lo, hi));
    }
}

/// Each trimming step removes an end whose rank is no higher than the other
/// end's: the first entry when it ranks at most as high as the last, and the
/// last entry only when it ranks strictly below the first.
pub proof fn lemma_trimmed_sheds_weaker(s: Seq<Interval>, count: int)
    requires
        count >= 0,
        s.len() > count,
    ensures
        s[0].rank <= s.last().rank ==> trimmed(s, count) == trimmed(s.drop_first(), count),
        s.last().rank < s[0].rank ==> trimmed(s, count) == trimmed(s.drop_last(), count),
{
}

/// Every non-empty sequence has an anchor.
pub proof fn lemma_anchor_exists(s: Seq<Interval>)
    requires
        s.len() > 0,
    ensures
        is_anchor(s, anchor_of(s)),
    decreases s.len(),
{
    if s.len() == 1 {
        assert(is_anchor(s, 0));
    } else {
        let t = s.drop_last();
        lemma_anchor_exists(t);
        let b = anchor_of(t);
        let n = s.len() - 1;
        if s[n].rank >= s[b].rank {
            assert(is_anchor(s, n)) by {
                assert forall|k: int| 0 <= k < s.len() && k != n implies s[n].rank > s[k].rank || (s[n].rank
                    == s[k].rank && n > k) by {
                    if k != b {
                        assert(t[k] == s[k]);
                    }
                }
            }
        } else {
            assert(is_anchor(s, b)) by {
                assert forall|k: int| 0 <= k < s.len() && k != b implies s[b].rank > s[k].rank || (s[b].rank
                    == s[k].rank && b > k) by {
                    if k < n {
                        assert(t[k] == s[k]);
                    }
                }
            }
        }
    }
}

/// An anchor is unique.
proof fn lemma_anchor_unique(s: Seq<Interval>, a: int)
    requires
        is_anchor(s, a),
    ensures
        anchor_of(s) == a,
{
    let b = anchor_of(s);
    assert(is_anchor(s, b));
    if b != a {
        assert(s[a].rank > s[b].rank || (s[a].rank == s[b].rank && a > b));
        assert(s[b].rank > s[a].rank || (s[b].rank == s[a].rank && b > a));
    }
}

/// The position of the anchor of a non-empty sequence.
pub fn anchor_index(v: &Vec<Interval>) -> (a: usize)
    requires
        v@.len() > 0,
    ensures
        is_anchor(v@, a as int),
        a as int == anchor_of(v@),
{
    let mut a: usize = 0;
    let mut k: usize = 1;
    while k < v.len()
        invariant
            1 <= k <= v@.len(),
            a < k,
            forall|q: int|
                0 <= q < k && q != a ==> v@[a as int].rank > v@[q].rank || (v@[a as int].rank
                    == v@[q].rank && a > q),
        decreases v@.len() - k,
    {
        if v[k].rank >= v[a].rank {
            a = k;
        }
        k = k + 1;
    }
    proof {
        lemma_anchor_unique(v@, a as int);
    }
    a
}

fn ranks_well(x: &Interval, best: &Interval) -> (r: bool)
    ensures
        r == rank_ok(*x, *best),
{
    x.rank as u128 * 10 >= best.rank as u128 * 7
}

/// Sheds the weaker end of the run, the first entry on a tie, until no more
/// than `count` remain.
pub fn trim(intervals: &mut Vec<Interval>, count: u8)
    ensures
        final(intervals)@ == trimmed(old(intervals)@, count as int),
{
    while intervals.len() > count as usize
        invariant
            trimmed(intervals@, count as int) == trimmed(old(intervals)@, count as int),
        decreases intervals@.len(),
    {
        let last = intervals.len() - 1;
        if intervals[0].rank <= intervals[last].rank {
            let ghost before = intervals@;
            intervals.remove(0);
            assert(intervals@ =~= before.drop_first());
        } else {
            let ghost before = intervals@;
            intervals.pop();
            assert(intervals@ =~= before.drop_last());
        }
    }
}

proof fn lemma_insert_at(s: Seq<Interval>, x: Interval, p: int)
    requires
        0 <= p <= s.len(),
        p == 0 || s[p - 1].start <= x.start,
        forall|q: int| p <= q < s.len() ==> s[q].start > x.start,
    ensures
        insert_by_start(s, x) == s.insert(p, x),
    decreases s.len(),
{
    if p < s.len() {
        let t = s.drop_last();
        lemma_insert_at(t, x, p);
        assert(s.insert(p, x) =~= t.insert(p, x).push(s.last()));
    } else {
        assert(s.insert(p, x) =~= s.push(x));
    }
}

/// `v` ordered by start; entries that start together keep their order.
pub fn sort_by_start(v: &Vec<Interval>) -> (r: Vec<Interval>)
    ensures
        r@ == sorted_by_start(v@),
{
    let mut r: Vec<Interval> = Vec::new();
    let mut k: usize = 0;
    while k < v.len()
        invariant
            k <= v@.len(),
            r@ == sorted_by_start(v@.subrange(0, k as int)),
        decreases v@.len() - k,
    {
        let x = v[k];
        proof {
            assert(v@.subrange(0, k + 1).drop_last() =~= v@.subrange(0, k as int));
            lemma_sorted_by_start(v@.subrange(0, k as int));
        }
        let mut p: usize = r.len();
        while p > 0 && r[p - 1].start > x.start
            invariant
                p <= r@.len(),
                forall|q: int| p <= q < r@.len() ==> r@[q].start > x.start,
            decreases p,
        {
            p = p - 1;
        }
        proof {
            lemma_insert_at(r@, x, p as int);
        }
        r.insert(p, x);
        k = k + 1;
    }
    proof {
        assert(v@.subrange(0, v@.len() as int) =~= v@);
    }
    r
}

/// Orders the intervals by start, keeps the run of the workout around the
/// anchor (the interval of highest rank), then trims it to `count` (see
/// `trim`). The run grows backwards and forwards from the anchor one
/// neighbour at a time, while the neighbour starts within one and a half
/// times `duration` plus `rest` seconds of the run's end and has at least
/// seven tenths of the anchor's rank.
pub fn restrict_to_actual_intervals(intervals: &mut Vec<Interval>, duration: u8, rest: u8, count: u8)
    requires
        old(intervals)@.len() > 0,
    ensures
        final(intervals)@ == trimmed(
            isolated(sorted_by_start(old(intervals)@), slop_of(duration as int, rest as int)),
            count as int,
        ),
        starts_ordered(final(intervals)@),
        final(intervals)@.len() == if count < isolated(
            sorted_by_start(old(intervals)@),
            slop_of(duration as int, rest as int),
        ).len() {
            count as int
        } else {
            isolated(sorted_by_start(old(intervals)@), slop_of(duration as int, rest as int)).len() as int
        },
{
    let sorted = sort_by_start(intervals);
    proof {
        lemma_sorted_by_start(old(intervals)@);
    }
    *intervals = sorted;
    let ghost s = intervals@;
    let slop: i128 = (duration as i128 + rest as i128) * 1500;
    let a = anchor_index(intervals);
    let best = intervals[a];
    let n = intervals.len();
    let mut lo: usize = a;
    while lo > 0 && intervals[lo - 1].start as i128 >= intervals[lo].start as i128 - slop
        && ranks_well(&intervals[lo - 1], &best)
        invariant
            intervals@ == s,
            n == s.len(),
            lo <= a < n,
            best == s[a as int],
            slop == slop_of(duration as int, rest as int),
            back_from(s, lo as int, slop as int, best) == back_from(s, a as int, slop as int, best),
        decreases lo,
    {
        lo = lo - 1;
    }
    let mut hi: usize = a + 1;
    while hi < n && intervals[hi].start as i128 <= intervals[hi - 1].start as i128 + slop
        && ranks_well(&intervals[hi], &best)
        invariant
            intervals@ == s,
            n == s.len(),
            a < hi <= n,
            best == s[a as int],
            slop == slop_of(duration as int, rest as int),
            fwd_from(s, hi as int, slop as int, best) == fwd_from(s, a + 1, slop as int, best),
        decreases n - hi,
    {
        hi = hi + 1;
    }
    let mut run: Vec<Interval> = Vec::new();
    let mut k: usize = lo;
    while k < hi
        invariant
            intervals@ == s,
            lo <= k <= hi <= n == s.len(),
            run@ == s.subrange(lo as int, k as int),
        decreases hi - k,
    {
        run.push(intervals[k]);
        k = k + 1;
    }
    proof {
        lemma_isolated_run(s, slop as int);
        lemma_trimmed_len(s.subrange(lo as int, hi as int), count as int);
    }
    let ghost iso = run@;
    trim(&mut run, count);
    proof {
        let t = run@;
        let (l, h) = choose|l: int, h: int| 0 <= l <= h <= iso.len() && t == #[trigger] iso.subrange(l, h);
        assert forall|i: int, j: int| 0 <= i <= j < t.len() implies t[i].start <= t[j].start by {
            assert(t[i] == s[lo + l + i] && t[j] == s[lo + l + j]);
        }
    }
    *intervals = run;
}

} // verus!
