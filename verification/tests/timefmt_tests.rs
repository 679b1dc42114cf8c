use colorsquash::human_time;

#[test]
fn human_time_seconds_two_places() {
    assert_eq!(human_time(2_340_000), "2.34s");
    assert_eq!(human_time(1_000_000), "1.00s");
    assert_eq!(human_time(10_000_000), "10.00s");
    assert_eq!(human_time(1_239_999), "1.23s");
}

#[test]
fn human_time_milliseconds() {
    assert_eq!(human_time(15_000), "15ms");
    assert_eq!(human_time(10_000), "10ms");
    assert_eq!(human_time(999_999), "999ms");
}

#[test]
fn human_time_microseconds() {
    assert_eq!(human_time(999), "999μs");
    assert_eq!(human_time(9_999), "9999μs");
    assert_eq!(human_time(0), "0μs");
}
