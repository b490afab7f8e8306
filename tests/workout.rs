use nom_fun::gpx::{accepted, AnalysisError, Gpx};
use nom_fun::interval::{potential_intervals, Interval, Sample};
use nom_fun::isolate::{anchor_index, restrict_to_actual_intervals, sort_by_start, trim};
use nom_fun::report::average_pace;
use nom_fun::select::disjoint_mask;

fn sample(second: i64, speed_mm: u32) -> Sample {
    Sample { time: second * 1000, speed: Some(speed_mm), vertical_speed: None }
}

/// Repeats of `fast` seconds at 4 m/s then `slow` seconds at 1 m/s, cut at
/// `total` one-second samples.
fn pattern(repeats: usize, fast: i64, slow: i64, total: usize) -> Vec<Sample> {
    let mut samples = Vec::new();
    let mut t: i64 = 0;
    for _ in 0..repeats {
        for _ in 0..fast {
            samples.push(sample(t, 4000));
            t += 1;
        }
        for _ in 0..slow {
            samples.push(sample(t, 1000));
            t += 1;
        }
    }
    samples.truncate(total);
    samples
}

fn interval(rank: u64, start_s: i64, stop_s: i64) -> Interval {
    Interval { rank, start: start_s * 1000, stop: stop_s * 1000, gain: 0, loss: 0 }
}

#[test]
fn six_repeats_are_found_in_order() {
    let gpx = Gpx::new(pattern(6, 75, 30, 600)).unwrap();
    let found = gpx.intervals(75, 30, 6).unwrap();
    assert_eq!(found.len(), 6);
    let starts: Vec<i64> = found.iter().map(|i| i.start / 1000).collect();
    assert_eq!(starts, vec![0, 104, 209, 314, 419, 524]);
    for i in &found {
        assert_eq!(i.stop - i.start, 75_000);
        assert!(i.rank >= 3_900_000 && i.rank <= 4_000_000);
    }
    assert_eq!(found[0].rank, 3_960_000);
    assert_eq!(found[5].rank, 4_000_000);
}

#[test]
fn four_repeats_fall_short_of_six() {
    let gpx = Gpx::new(pattern(4, 75, 30, 420)).unwrap();
    match gpx.intervals(75, 30, 6) {
        Err(AnalysisError::Shortfall(found)) => assert_eq!(found.len(), 4),
        other => panic!("expected a shortfall, got {:?}", other),
    }
}

#[test]
fn lone_spike_is_the_only_interval() {
    let mut samples = Vec::new();
    for t in 0..600 {
        let speed = if (300..375).contains(&t) { 6000 } else { 1000 };
        samples.push(sample(t, speed));
    }
    let gpx = Gpx::new(samples).unwrap();
    let found = gpx.intervals(75, 30, 1).unwrap();
    assert_eq!(found.len(), 1);
    assert_eq!(found[0].start, 299_000);
    assert_eq!(found[0].stop, 374_000);
    assert_eq!(found[0].rank, 6_000_000);
}

#[test]
fn analysis_is_repeatable() {
    let gpx = Gpx::new(pattern(6, 75, 30, 600)).unwrap();
    assert_eq!(gpx.intervals(75, 30, 6), gpx.intervals(75, 30, 6));
    let short = Gpx::new(pattern(4, 75, 30, 420)).unwrap();
    assert_eq!(short.intervals(75, 30, 6), short.intervals(75, 30, 6));
}

#[test]
fn short_or_empty_recordings_are_insufficient() {
    let empty = Gpx::new(Vec::new()).unwrap();
    assert_eq!(empty.intervals(75, 30, 1), Err(AnalysisError::InsufficientSamples));
    let short = Gpx::new(pattern(1, 60, 0, 60)).unwrap();
    assert_eq!(short.intervals(75, 30, 1), Err(AnalysisError::InsufficientSamples));
}

#[test]
fn recording_without_speeds_has_no_candidates() {
    let samples: Vec<Sample> =
        (0..200).map(|t| Sample { time: t * 1000, speed: None, vertical_speed: None }).collect();
    let gpx = Gpx::new(samples).unwrap();
    assert_eq!(gpx.intervals(75, 30, 1), Err(AnalysisError::EmptyCandidateSet));
}

#[test]
fn unordered_samples_are_refused() {
    assert!(Gpx::new(vec![sample(2, 1000), sample(1, 1000)]).is_none());
    assert!(Gpx::new(vec![sample(1, 1000), sample(1, 1000), sample(2, 1000)]).is_some());
}

#[test]
fn candidates_last_at_least_the_duration() {
    let mut samples = Vec::new();
    for t in 0..50 {
        samples.push(sample(t * 3 / 2, 2000));
    }
    let candidates = potential_intervals(&samples, 10);
    assert!(!candidates.is_empty());
    for c in &candidates {
        assert!(c.stop - c.start >= 10_000);
    }
    // The last starting points cannot fill a window.
    assert!(candidates.len() < samples.len());
}

#[test]
fn scanner_sums_distance_and_climb() {
    let samples = vec![
        Sample { time: 0, speed: Some(1000), vertical_speed: None },
        Sample { time: 1000, speed: Some(2000), vertical_speed: Some(500) },
        Sample { time: 2000, speed: None, vertical_speed: Some(9000) },
        Sample { time: 3000, speed: Some(4000), vertical_speed: Some(-250) },
    ];
    let candidates = potential_intervals(&samples, 3);
    assert_eq!(candidates.len(), 1);
    let c = candidates[0];
    // 2 m/s for 1 s, then 4 m/s over the 2 s up to the next sample with a speed.
    assert_eq!(c.rank, 10_000_000 / 3);
    assert_eq!((c.start, c.stop), (0, 3000));
    assert_eq!(c.gain, 500_000);
    assert_eq!(c.loss, 500_000);
}

#[test]
fn greedy_selection_is_disjoint() {
    let gpx = Gpx::new(pattern(6, 75, 30, 600)).unwrap();
    let candidates = potential_intervals(&gpx.samples, 75);
    let mask = disjoint_mask(&candidates, 30);
    let kept = accepted(&candidates, &mask);
    assert!(kept.len() >= 6);
    for (i, a) in kept.iter().enumerate() {
        for b in kept.iter().skip(i + 1) {
            assert!(a.stop <= b.start || b.stop <= a.start);
        }
    }
}

#[test]
fn selection_keeps_higher_rank_on_overlap() {
    let candidates = vec![interval(1000, 0, 10), interval(2000, 5, 15), interval(500, 40, 50)];
    let mask = disjoint_mask(&candidates, 0);
    assert_eq!(mask, vec![false, true, true]);
    // A rest of 20 s keeps a buffer of 10 s after each kept interval.
    let buffered = vec![interval(2000, 0, 10), interval(1000, 18, 28)];
    assert_eq!(disjoint_mask(&buffered, 20), vec![true, false]);
    assert_eq!(disjoint_mask(&buffered, 14), vec![true, true]);
}

#[test]
fn trimming_sheds_the_weaker_end() {
    let mut run = vec![interval(5, 0, 1), interval(9, 2, 3), interval(8, 4, 5), interval(6, 6, 7)];
    trim(&mut run, 2);
    assert_eq!(run, vec![interval(9, 2, 3), interval(8, 4, 5)]);

    let mut tie = vec![interval(7, 0, 1), interval(9, 2, 3), interval(7, 4, 5)];
    trim(&mut tie, 2);
    assert_eq!(tie, vec![interval(9, 2, 3), interval(7, 4, 5)]);

    let mut few = vec![interval(7, 0, 1)];
    trim(&mut few, 3);
    assert_eq!(few.len(), 1);
}

#[test]
fn isolation_stops_at_weak_or_distant_neighbours() {
    let run = vec![
        interval(9_000, 0, 75),
        interval(3_000, 105, 180),
        interval(10_000, 210, 285),
        interval(9_500, 315, 390),
        interval(9_000, 800, 875),
    ];
    assert_eq!(anchor_index(&run), 2);
    let mut isolated = run.clone();
    restrict_to_actual_intervals(&mut isolated, 75, 30, 5);
    assert_eq!(isolated, vec![run[2], run[3]]);
}

#[test]
fn average_pace_is_weighted_by_length() {
    let a = interval(4_000_000, 0, 75);
    let b = interval(2_000_000, 100, 250);
    assert_eq!(a.pace_ms_per_mile(), Some(402_336));
    assert_eq!(b.pace_ms_per_mile(), Some(804_672));
    let expected = (402_336u128 * 75_000 + 804_672 * 150_000) / 225_000;
    assert_eq!(average_pace(&vec![a, b]), Some(expected));
    assert_eq!(average_pace(&vec![b, a]), Some(expected));
    assert_eq!(average_pace(&Vec::new()), None);
    assert_eq!(average_pace(&vec![interval(0, 0, 75)]), None);
    assert_eq!(interval(0, 0, 75).pace_ms_per_mile(), None);
}

#[test]
fn isolation_orders_by_start_first() {
    let a = interval(10, 0, 75);
    let b = interval(9, 300, 375);
    let c = interval(9, 100, 175);
    let mut run = vec![a, b, c];
    restrict_to_actual_intervals(&mut run, 75, 30, 3);
    assert_eq!(run.len(), 2);
    assert_eq!((run[0].start, run[1].start), (0, 100_000));
    assert_eq!((run[0].rank, run[1].rank), (10, 9));
}

#[test]
fn sorting_by_start_keeps_ties_in_order() {
    let first = Interval { rank: 1, start: 5, stop: 6, gain: 1, loss: 0 };
    let second = Interval { rank: 2, start: 5, stop: 7, gain: 2, loss: 0 };
    let early = Interval { rank: 3, start: 1, stop: 2, gain: 3, loss: 0 };
    let sorted = sort_by_start(&vec![first, second, early]);
    assert_eq!(sorted.iter().map(|i| i.gain).collect::<Vec<_>>(), vec![3, 1, 2]);
}

#[test]
fn intervals_are_equal_by_rank_and_start() {
    let a = Interval { rank: 7, start: 10, stop: 20, gain: 1, loss: 2 };
    let b = Interval { rank: 7, start: 10, stop: 30, gain: 5, loss: 0 };
    let c = Interval { rank: 7, start: 11, stop: 20, gain: 1, loss: 2 };
    assert_eq!(a, b);
    assert_ne!(a, c);
}
