use nom_fun::duration::{average, Duration};

#[test]
fn test_display() {
    assert_eq!(Duration::new(35, 0).to_string_with(7, 0), "     35");
    assert_eq!(Duration::new_min_sec(49, 32).to_string_with(7, 0), "  49:32");
    assert_eq!(Duration::new_min_sec_tenths(9, 12, 3).to_string_with(7, 1), " 9:12.3");
}

#[test]
fn display_hours_and_tenths() {
    assert_eq!(Duration::new(3 * 3600 + 46 * 60 + 49, 0).to_string_with(0, 0), "3:46:49");
    assert_eq!(Duration::new(5, 400_000_000).to_string_with(0, 0), "5.4");
    assert_eq!(Duration::new(5, 0).to_string_with(0, 1), "5.0");
    assert_eq!(Duration::new(3600, 0).to_string_with(3, 0), "1:00:00");
}

#[test]
fn new_carries_whole_seconds() {
    let d = Duration::new(1, 2_500_000_000);
    assert_eq!(d.secs, 3);
    assert_eq!(d.nanos, 500_000_000);
    let t = Duration::new_min_sec_tenths(1, 15, 12);
    assert_eq!(t.secs, 76);
    assert_eq!(t.nanos, 200_000_000);
}

#[test]
fn average_of_paces() {
    let paces = vec![Duration::new_min_sec(8, 9), Duration::new_min_sec(8, 11)];
    assert_eq!(average(&paces), Some(Duration::new_min_sec(8, 10)));
    assert_eq!(average(&Vec::new()), None);
    let odd = vec![Duration::new(1, 0), Duration::new(2, 0)];
    assert_eq!(average(&odd), Some(Duration::new(1, 500_000_000)));
}
