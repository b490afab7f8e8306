//! A recording and the analysis that finds the intervals of a workout in it.
use vstd::prelude::*;
use crate::interval::{
    Interval, Sample, samples_ordered, candidates, potential_intervals, starts_ordered,
    lemma_candidates_ordered,
};
use crate::select::{greedy_choice, lemma_greedy_unique, disjoint_mask, outranks, blocked, precludes};
use crate::isolate::{
    isolated, trimmed, slop_of, anchor_index, is_anchor, restrict_to_actual_intervals,
    lemma_sorted_by_start_ordered,
};

verus! {

/// Why an analysis found no answer.
#[derive(Debug, PartialEq, Eq)]
pub enum AnalysisError {
    /// The recording spans less than one interval.
    InsufficientSamples,
    /// No window could be filled, for instance because no sample has a speed.
    EmptyCandidateSet,
    /// The workout that was found holds fewer intervals than requested; these
    /// are the ones it holds.
    Shortfall(Vec<Interval>),
}

/// What an analysis yields, as values.
pub enum Analysis {
    Found(Seq<Interval>),
    InsufficientSamples,
    EmptyCandidateSet,
    Shortfall(Seq<Interval>),
}

/// The value of a result of `Gpx::intervals`.
pub open spec fn analysis_view(r: Result<Vec<Interval>, AnalysisError>) -> Analysis {
    match r {
        Ok(v) => Analysis::Found(v@),
        Err(AnalysisError::InsufficientSamples) => Analysis::InsufficientSamples,
        Err(AnalysisError::EmptyCandidateSet) => Analysis::EmptyCandidateSet,
        Err(AnalysisError::Shortfall(v)) => Analysis::Shortfall(v@),
    }
}

proof fn lemma_kept_ordered(c: Seq<Interval>, m: Seq<bool>, n: int)
    requires
        starts_ordered(c),
        0 <= n <= c.len(),
        m.len() == c.len(),
    ensures
        starts_ordered(kept(c, m, n)),
        n > 0 ==> forall|k: int| 0 <= k < kept(c, m, n).len() ==> kept(c, m, n)[k].start <= c[n - 1].start,
    decreases n,
{
    if n > 0 {
        lemma_kept_ordered(c, m, n - 1);
        let prev = kept(c, m, n - 1);
        if n > 1 {
            assert(c[n - 2].start <= c[n - 1].start);
        }
        if m[n - 1] {
            let next = prev.push(c[n - 1]);
            assert forall|i: int, j: int| 0 <= i <= j < next.len() implies next[i].start <= next[j].start by {
                if j < prev.len() {
                    assert(next[i] == prev[i] && next[j] == prev[j]);
                } else if i < prev.len() {
                    assert(next[i] == prev[i]);
                }
            }
            assert forall|k: int| 0 <= k < next.len() implies next[k].start <= c[n - 1].start by {
                if k < prev.len() {
                    assert(next[k] == prev[k]);
                }
            }
        }
    }
}

/// The candidates kept by the marking `m`, among the first `n`, in order.
pub open spec fn kept(c: Seq<Interval>, m: Seq<bool>, n: int) -> Seq<Interval>
    decreases n,
{
    if n <= 0 {
        Seq::empty()
    } else if m[n - 1] {
        kept(c, m, n - 1).push(c[n - 1])
    } else {
        kept(c, m, n - 1)
    }
}

/// The recording spans less than `duration` seconds.
pub open spec fn too_short(s: Seq<Sample>, duration: int) -> bool {
    s.len() == 0 || s.last().time - s[0].time < duration * 1000
}

/// The outcome of the analysis of `s`, given the greedy marking `m` of its
/// candidates.
pub open spec fn analysis_with(
    s: Seq<Sample>,
    duration: int,
    rest: int,
    count: int,
    m: Seq<bool>,
) -> Analysis {
    let c = candidates(s, duration * 1000, s.len() as int);
    if too_short(s, duration) {
        Analysis::InsufficientSamples
    } else if c.len() == 0 {
        Analysis::EmptyCandidateSet
    } else {
        let run = trimmed(isolated(kept(c, m, c.len() as int), slop_of(duration, rest)), count);
        if run.len() == count {
            Analysis::Found(run)
        } else {
            Analysis::Shortfall(run)
        }
    }
}

/// `a` is the outcome of the analysis of `s`: the candidates are scanned,
/// selected greedily, isolated around the best one and trimmed to `count`.
pub open spec fn is_analysis(s: Seq<Sample>, duration: int, rest: int, count: int, a: Analysis) -> bool {
    if too_short(s, duration) {
        a == Analysis::InsufficientSamples
    } else {
        exists|m: Seq<bool>|
            greedy_choice(candidates(s, duration * 1000, s.len() as int), rest, m) && a
                == #[trigger] analysis_with(s, duration, rest, count, m)
    }
}

/// The analysis is deterministic: two outcomes of it on the same recording
/// and parameters are the same.
pub proof fn lemma_analysis_deterministic(
    s: Seq<Sample>,
    duration: int,
    rest: int,
    count: int,
    a1: Analysis,
    a2: Analysis,
)
    requires
        is_analysis(s, duration, rest, count, a1),
        is_analysis(s, duration, rest, count, a2),
    ensures
        a1 == a2,
{
    let c = candidates(s, duration * 1000, s.len() as int);
    if !too_short(s, duration) {
        let m1 = choose|m: Seq<bool>|
            greedy_choice(c, rest, m) && a1 == #[trigger] analysis_with(s, duration, rest, count, m);
        let m2 = choose|m: Seq<bool>|
            greedy_choice(c, rest, m) && a2 == #[trigger] analysis_with(s, duration, rest, count, m);
        lemma_greedy_unique(c, rest, m1, m2);
    }
}

proof fn lemma_kept_nonempty(c: Seq<Interval>, m: Seq<bool>, n: int, a: int)
    requires
        0 <= a < n,
        m[a],
    ensures
        kept(c, m, n).len() > 0,
    decreases n,
{
    if a < n - 1 {
        lemma_kept_nonempty(c, m, n - 1, a);
    }
}

/// The candidates that the marking `m` keeps, in their order.
pub fn accepted(c: &Vec<Interval>, m: &Vec<bool>) -> (r: Vec<Interval>)
    requires
        m@.len() == c@.len(),
    ensures
        r@ == kept(c@, m@, c@.len() as int),
{
    let mut r: Vec<Interval> = Vec::new();
    let mut k: usize = 0;
    while k < c.len()
        invariant
            m@.len() == c@.len(),
            k <= c@.len(),
            r@ == kept(c@, m@, k as int),
        decreases c@.len() - k,
    {
        if m[k] {
            r.push(c[k]);
        }
        k = k + 1;
    }
    r
}

/// A recording: its samples in order of time.
pub struct Gpx {
    pub samples: Vec<Sample>,
}

impl Gpx {
    /// The samples are in order of time.
    pub open spec fn wf(&self) -> bool {
        samples_ordered(self.samples@)
    }

    /// A recording of `samples`, unless some timestamp is earlier than the
    /// one before it.
    pub fn new(samples: Vec<Sample>) -> (r: Option<Gpx>)
        ensures
            samples_ordered(samples@) <==> r is Some,
            r matches Some(g) ==> g.samples@ == samples@ && g.wf(),
    {
        let mut k: usize = 1;
        while k < samples.len()
            invariant
                1 <= k,
                forall|i: int, j: int| 0 <= i <= j < k && j < samples@.len() ==> samples@[i].time <= samples@[j].time,
            decreases samples@.len() - k,
        {
            if samples[k].time < samples[k - 1].time {
                return None;
            }
            k = k + 1;
        }
        Some(Gpx { samples })
    }

    /// Milliseconds from the first sample to `when`.
    pub fn elapsed(&self, when: i64) -> (r: i128)
        requires
            self.samples@.len() > 0,
        ensures
            r == when - self.samples@[0].time,
    {
        when as i128 - self.samples[0].time as i128
    }

    /// Finds the `count` intervals of `duration` seconds, separated by about
    /// `rest` seconds, that make up the workout in the recording.
    pub fn intervals(&self, duration: u8, rest: u8, count: u8) -> (r: Result<Vec<Interval>, AnalysisError>)
        requires
            self.wf(),
            duration >= 1,
        ensures
            is_analysis(self.samples@, duration as int, rest as int, count as int, analysis_view(r)),
            r matches Ok(v) ==> v@.len() == count && starts_ordered(v@),
    {
        let ghost s = self.samples@;
        let n = self.samples.len();
        if n == 0 || (self.samples[n - 1].time as i128) - (self.samples[0].time as i128) < duration as i128
            * 1000 {
            return Err(AnalysisError::InsufficientSamples);
        }
        let c = potential_intervals(&self.samples, duration);
        let m = disjoint_mask(&c, rest);
        if c.len() == 0 {
            proof {
                assert(analysis_with(s, duration as int, rest as int, count as int, m@)
                    == Analysis::EmptyCandidateSet);
            }
            return Err(AnalysisError::EmptyCandidateSet);
        }
        let a = anchor_index(&c);
        proof {
            if blocked(c@, rest as int, m@, a as int) {
                let j = choose|j: int|
                    0 <= j < c@.len() && m@[j] && outranks(c@, j, a as int) && precludes(
                        c@[j],
                        c@[a as int],
                        rest as int,
                    );
                assert(is_anchor(c@, a as int));
            }
            lemma_kept_nonempty(c@, m@, c@.len() as int, a as int);
        }
        let mut run = accepted(&c, &m);
        proof {
            lemma_candidates_ordered(s, duration * 1000, s.len() as int);
            lemma_kept_ordered(c@, m@, c@.len() as int);
            lemma_sorted_by_start_ordered(run@);
        }
        restrict_to_actual_intervals(&mut run, duration, rest, count);
        let r = if run.len() == count as usize {
            Ok(run)
        } else {
            Err(AnalysisError::Shortfall(run))
        };
        proof {
            assert(analysis_view(r) == analysis_with(s, duration as int, rest as int, count as int, m@));
        }
        r
    }
}

} // verus!
