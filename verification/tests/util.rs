use ssh_done::util::format_duration;

#[test]
fn seconds_only() {
    assert_eq!(format_duration(0), "0s");
    assert_eq!(format_duration(42), "42s");
    assert_eq!(format_duration(59), "59s");
}

#[test]
fn minutes_and_seconds() {
    assert_eq!(format_duration(60), "1m 0s");
    assert_eq!(format_duration(185), "3m 5s");
}

#[test]
fn hours() {
    assert_eq!(format_duration(3600), "1h 0m 0s");
    assert_eq!(format_duration(3725), "1h 2m 5s");
}

#[test]
fn duration_edges() {
    assert_eq!(format_duration(3599), "59m 59s");
    assert_eq!(format_duration(86400), "24h 0m 0s");
    assert_eq!(format_duration(u64::MAX), "5124095576030431h 0m 15s");
}
