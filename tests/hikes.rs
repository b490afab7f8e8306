use nom_fun::hike::{alternate_stop, clock_text, transitions, DurationOverride};

#[test]
fn override_replaces_the_stop_of_its_hike() {
    let overrides = vec![
        DurationOverride { hike_index: 3, duration_ms: 13_609_000 },
        DurationOverride { hike_index: 1, duration_ms: 1_000 },
        DurationOverride { hike_index: 3, duration_ms: 5 },
    ];
    assert_eq!(alternate_stop(100, &overrides, 3), Some(13_609_100));
    assert_eq!(alternate_stop(100, &overrides, 1), Some(1_100));
    assert_eq!(alternate_stop(100, &overrides, 0), None);
    assert_eq!(alternate_stop(100, &Vec::new(), 3), None);
}

#[test]
fn transitions_run_from_each_stop_to_the_next_start() {
    let hikes = vec![(0, 10_000), (25_000, 40_000), (41_000, 90_000)];
    assert_eq!(transitions(&hikes), vec![15_000, 1_000]);
    assert_eq!(transitions(&vec![(5, 6)]), Vec::<i128>::new());
    assert_eq!(transitions(&Vec::new()), Vec::<i128>::new());
}

#[test]
fn clock_text_shows_hours_minutes_seconds() {
    assert_eq!(clock_text(3 * 3600 + 46 * 60 + 49), "3:46:49");
    assert_eq!(clock_text(65), "0:01:05");
    assert_eq!(clock_text(0), "0:00:00");
    assert_eq!(clock_text(-61), "0:-1:-1");
    assert_eq!(clock_text(-3600 - 120), "-1:-2:00");
}
