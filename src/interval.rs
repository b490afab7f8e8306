//! Samples of a recording and the candidate intervals scanned out of them.
use vstd::prelude::*;

verus! {

/// One reading of the recording.
///
/// `time` is in milliseconds since the Unix epoch; `speed` and
/// `vertical_speed` are in millimetres per second.
#[derive(Clone, Copy, Debug, PartialEq, Eq)]
pub struct Sample {
    pub time: i64,
    pub speed: Option<u32>,
    pub vertical_speed: Option<i32>,
}

/// A contiguous stretch of the recording that lasts at least the requested
/// duration.
///
/// `rank` is its average speed in micrometres per second, `start` and `stop`
/// are in milliseconds since the Unix epoch, and `gain` and `loss` are the
/// climbed and descended heights in micrometres. Two intervals are equal when
/// they have the same rank and the same start.
#[derive(Clone, Copy, Debug)]
pub struct Interval {
    pub rank: u64,
    pub start: i64,
    pub stop: i64,
    pub gain: u128,
    pub loss: u128,
}

impl PartialEq for Interval {
    fn eq(&self, other: &Interval) -> (r: bool)
        ensures
            r == (self.rank == other.rank && self.start == other.start),
    {
        self.rank == other.rank && self.start == other.start
    }
}

impl vstd::std_specs::cmp::PartialEqSpecImpl for Interval {
    open spec fn obeys_eq_spec() -> bool {
        true
    }

    open spec fn eq_spec(&self, other: &Interval) -> bool {
        self.rank == other.rank && self.start == other.start
    }
}

impl Eq for Interval {
}

/// Timestamps never decrease along the recording.
pub open spec fn samples_ordered(s: Seq<Sample>) -> bool {
    forall|i: int, j: int| 0 <= i <= j < s.len() ==> s[i].time <= s[j].time
}

/// A missing vertical speed counts as level ground.
pub open spec fn vertical_of(p: Sample) -> int {
    match p.vertical_speed {
        Some(v) => v as int,
        None => 0,
    }
}

/// Distance, gain, loss and the time of the last sample used, accumulated over
/// the samples strictly between `i` and `j` for a window that starts at `i`.
/// A sample without a speed is skipped: the span up to it is counted with the
/// next sample that has one.
pub open spec fn tally(s: Seq<Sample>, i: int, j: int) -> (int, int, int, int)
    decreases j - i,
{
    if j <= i + 1 {
        (0, 0, 0, s[i].time as int)
    } else {
        let (dist, gain, loss, last) = tally(s, i, j - 1);
        let p = s[j - 1];
        match p.speed {
            None => (dist, gain, loss, last),
            Some(v) => {
                let dt = p.time - last;
                let change = dt * vertical_of(p);
                (
                    dist + v * dt,
                    if change >= 0 { gain + change } else { gain },
                    if change < 0 { loss - change } else { loss },
                    p.time as int,
                )
            },
        }
    }
}

/// The first sample at or after `j` that has a speed and lies at least
/// `span` milliseconds after sample `i`: where the window starting at `i` ends.
pub open spec fn stop_index(s: Seq<Sample>, i: int, j: int, span: int) -> Option<int>
    decreases s.len() - j,
{
    if j < 0 || j >= s.len() {
        None
    } else if s[j].speed is Some && s[j].time - s[i].time >= span {
        Some(j)
    } else {
        stop_index(s, i, j + 1, span)
    }
}

/// The candidate interval that starts at sample `i` and lasts at least `span`
/// milliseconds, if the recording is long enough to hold it.
pub open spec fn candidate(s: Seq<Sample>, i: int, span: int) -> Option<Interval> {
    match stop_index(s, i, i + 1, span) {
        None => None,
        Some(k) => {
            let (dist, gain, loss, last) = tally(s, i, k + 1);
            let elapsed = s[k].time - s[i].time;
            Some(Interval {
                rank: (dist * 1000 / elapsed) as u64,
                start: s[i].time,
                stop: s[k].time,
                gain: gain as u128,
                loss: loss as u128,
            })
        },
    }
}

/// The candidates of the windows that start at the first `n` samples, in
/// order of their first sample.
pub open spec fn candidates(s: Seq<Sample>, span: int, n: int) -> Seq<Interval>
    decreases n,
{
    if n <= 0 {
        Seq::empty()
    } else {
        match candidate(s, n - 1, span) {
            Some(c) => candidates(s, span, n - 1).push(c),
            None => candidates(s, span, n - 1),
        }
    }
}

/// Every candidate lasts at least the requested span.
pub proof fn lemma_candidates_long_enough(s: Seq<Sample>, span: int, n: int)
    requires
        n <= s.len(),
    ensures
        forall|k: int|
            0 <= k < candidates(s, span, n).len() ==> candidates(s, span, n)[k].stop
                - candidates(s, span, n)[k].start >= span,
    decreases n,
{
    if n > 0 {
        lemma_candidates_long_enough(s, span, n - 1);
        lemma_stop_index_found(s, n - 1, n, span);
        let prev = candidates(s, span, n - 1);
        if let Some(c) = candidate(s, n - 1, span) {
            assert(c.stop - c.start >= span);
            assert forall|k: int| 0 <= k < prev.push(c).len() implies prev.push(c)[k].stop
                - prev.push(c)[k].start >= span by {
                if k < prev.len() {
                    assert(prev.push(c)[k] == prev[k]);
                }
            }
        }
    }
}

/// The intervals start in order of time.
pub open spec fn starts_ordered(s: Seq<Interval>) -> bool {
    forall|i: int, j: int| 0 <= i <= j < s.len() ==> s[i].start <= s[j].start
}

/// The candidates come in order of their start, none after the last sample
/// scanned.
pub proof fn lemma_candidates_ordered(s: Seq<Sample>, span: int, n: int)
    requires
        samples_ordered(s),
        0 <= n <= s.len(),
    ensures
        starts_ordered(candidates(s, span, n)),
        n > 0 ==> forall|k: int|
            0 <= k < candidates(s, span, n).len() ==> candidates(s, span, n)[k].start <= s[n - 1].time,
    decreases n,
{
    if n > 0 {
        lemma_candidates_ordered(s, span, n - 1);
        let prev = candidates(s, span, n - 1);
        if n > 1 {
            assert(s[n - 2].time <= s[n - 1].time);
        }
        if let Some(c) = candidate(s, n - 1, span) {
            let next = prev.push(c);
            assert forall|i: int, j: int| 0 <= i <= j < next.len() implies next[i].start <= next[j].start by {
                if j < prev.len() {
                    assert(next[i] == prev[i] && next[j] == prev[j]);
                } else if i < prev.len() {
                    assert(next[i] == prev[i]);
                }
            }
            assert forall|k: int| 0 <= k < next.len() implies next[k].start <= s[n - 1].time by {
                if k < prev.len() {
                    assert(next[k] == prev[k]);
                }
            }
        }
    }
}

proof fn lemma_stop_index_found(s: Seq<Sample>, i: int, j: int, span: int)
    ensures
        stop_index(s, i, j, span) matches Some(k) ==> j <= k < s.len() && s[k].speed is Some
            && s[k].time - s[i].time >= span,
    decreases s.len() - j,
{
    if 0 <= j < s.len() {
        lemma_stop_index_found(s, i, j + 1, span);
    }
}

proof fn lemma_scaled_step(v: int, dt: int, before: int, elapsed: int, bound: int)
    requires
        0 <= v <= bound,
        0 <= dt,
        0 <= elapsed,
        0 <= before <= bound * elapsed,
    ensures
        0 <= v * dt <= bound * dt,
        before + v * dt <= bound * (elapsed + dt),
{
    assert(0 <= v * dt <= bound * dt) by (nonlinear_arith)
        requires
            0 <= v <= bound,
            0 <= dt,
    ;
    assert(bound * (elapsed + dt) == bound * elapsed + bound * dt) by (nonlinear_arith);
}

proof fn lemma_signed_step(w: int, dt: int)
    requires
        -0x8000_0000 <= w <= 0x7FFF_FFFF,
        0 <= dt,
    ensures
        -(0x8000_0000 * dt) <= w * dt <= 0x8000_0000 * dt,
{
    assert(-(0x8000_0000 * dt) <= w * dt <= 0x8000_0000 * dt) by (nonlinear_arith)
        requires
            -0x8000_0000 <= w <= 0x7FFF_FFFF,
            0 <= dt,
    ;
}

proof fn lemma_bounded_product(bound: int, elapsed: int)
    requires
        0 <= bound <= 0x1_0000_0000,
        0 <= elapsed <= 0x1_0000_0000_0000_0000,
    ensures
        0 <= bound * elapsed <= 0x1_0000_0000_0000_0000_0000_0000,
{
    assert(0 <= bound * elapsed <= 0x1_0000_0000 * 0x1_0000_0000_0000_0000) by (nonlinear_arith)
        requires
            0 <= bound <= 0x1_0000_0000,
            0 <= elapsed <= 0x1_0000_0000_0000_0000,
    ;
}

proof fn lemma_rank_fits(dist: int, elapsed: int)
    requires
        0 <= dist <= 0x1_0000_0000 * elapsed,
        1 <= elapsed,
    ensures
        0 <= dist * 1000 / elapsed <= 0x1_0000_0000 * 1000,
{
    assert(dist * 1000 <= (0x1_0000_0000 * 1000) * elapsed) by (nonlinear_arith)
        requires
            0 <= dist <= 0x1_0000_0000 * elapsed,
            1 <= elapsed,
    ;
    vstd::arithmetic::div_mod::lemma_div_is_ordered(dist * 1000, (0x1_0000_0000 * 1000) * elapsed, elapsed);
    vstd::arithmetic::div_mod::lemma_div_by_multiple((0x1_0000_0000 * 1000) as int, elapsed);
    vstd::arithmetic::div_mod::lemma_div_pos_is_pos(dist * 1000, elapsed);
}

/// The candidate of the window that starts at sample `i`, if the samples after
/// it reach `span` milliseconds.
fn candidate_at(samples: &Vec<Sample>, i: usize, span: i64) -> (r: Option<Interval>)
    requires
        samples_ordered(samples@),
        i < samples@.len(),
        span >= 1,
    ensures
        r == candidate(samples@, i as int, span as int),
{
    let n = samples.len();
    let start: i64 = samples[i].time;
    let mut dist: i128 = 0;
    let mut gain: i128 = 0;
    let mut loss: i128 = 0;
    let mut last: i64 = start;
    let mut j: usize = i + 1;
    while j < n
        invariant
            n == samples@.len(),
            samples_ordered(samples@),
            i < j <= n,
            span >= 1,
            start == samples@[i as int].time,
            tally(samples@, i as int, j as int) == (dist as int, gain as int, loss as int, last as int),
            stop_index(samples@, i as int, i + 1, span as int) == stop_index(samples@, i as int, j as int, span as int),
            start <= last <= samples@[j - 1].time,
            0 <= dist <= 0x1_0000_0000 * (last - start),
            0 <= gain <= 0x8000_0000 * (last - start),
            0 <= loss <= 0x8000_0000 * (last - start),
        decreases n - j,
    {
        let p = samples[j];
        if let Some(v) = p.speed {
            let elapsed_before: Ghost<int> = Ghost(last - start);
            let dt: i128 = p.time as i128 - last as i128;
            let w: i128 = match p.vertical_speed {
                Some(x) => x as i128,
                None => 0,
            };
            proof {
                assert(samples@[j - 1].time <= samples@[j as int].time);
                lemma_scaled_step(v as int, dt as int, dist as int, elapsed_before@, 0x1_0000_0000);
                lemma_scaled_step(0x8000_0000, dt as int, gain as int, elapsed_before@, 0x8000_0000);
                lemma_scaled_step(0x8000_0000, dt as int, loss as int, elapsed_before@, 0x8000_0000);
                lemma_signed_step(w as int, dt as int);
                lemma_bounded_product(0x1_0000_0000, p.time - start);
                lemma_bounded_product(0x8000_0000, p.time - start);
                lemma_bounded_product(0x8000_0000, dt as int);
                assert(dt * w == w * dt) by (nonlinear_arith);
            }
            let change: i128 = dt * w;
            dist = dist + v as i128 * dt;
            if change >= 0 {
                gain = gain + change;
            } else {
                loss = loss - change;
            }
            last = p.time;
            if last as i128 - start as i128 >= span as i128 {
                let elapsed: i128 = last as i128 - start as i128;
                proof {
                    lemma_rank_fits(dist as int, elapsed as int);
                    assert(stop_index(samples@, i as int, j as int, span as int) == Some(j as int));
                    assert(tally(samples@, i as int, j + 1) == (dist as int, gain as int, loss as int, last as int));
                }
                let rank: i128 = dist * 1000 / elapsed;
                return Some(Interval {
                    rank: rank as u64,
                    start,
                    stop: last,
                    gain: gain as u128,
                    loss: loss as u128,
                });
            }
        }
        proof {
            assert(samples@[j - 1].time <= samples@[j as int].time);
        }
        j = j + 1;
    }
    None
}

/// Scans every window of the recording: for each starting sample, the
/// samples after it are walked until `duration` seconds have passed. A window
/// that runs out of samples first gives no candidate.
pub fn potential_intervals(samples: &Vec<Sample>, duration: u8) -> (r: Vec<Interval>)
    requires
        samples_ordered(samples@),
        duration >= 1,
    ensures
        r@ == candidates(samples@, duration * 1000, samples@.len() as int),
        forall|k: int| 0 <= k < r@.len() ==> r@[k].stop - r@[k].start >= duration * 1000,
{
    let span: i64 = duration as i64 * 1000;
    let mut r: Vec<Interval> = Vec::new();
    let mut i: usize = 0;
    while i < samples.len()
        invariant
            i <= samples@.len(),
            samples_ordered(samples@),
            span == duration * 1000,
            span >= 1,
            r@ == candidates(samples@, span as int, i as int),
        decreases samples@.len() - i,
    {
        match candidate_at(samples, i, span) {
            Some(c) => r.push(c),
            None => {},
        }
        i = i + 1;
    }
    proof {
        lemma_candidates_long_enough(samples@, span as int, samples@.len() as int);
    }
    r
}

} // verus!
