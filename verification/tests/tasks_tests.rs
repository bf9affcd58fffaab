use boincview::tasks::{duration_as_string, task_state, Duration, LocalDuration};

fn dhms() -> Option<String> {
    Some("d h:m:s".to_string())
}

#[test]
fn formats_benchmark_duration() {
    let d = Duration::seconds(123456);
    assert_eq!(d.formatted(dhms()), Some("01d 10:17:36".to_string()));
}

#[test]
fn formats_days_hours_minutes_seconds() {
    assert_eq!(Duration::seconds(90061).formatted(dhms()), Some("01d 01:01:01".to_string()));
    assert_eq!(Duration::seconds(1000000).formatted(dhms()), Some("11d 13:46:40".to_string()));
    assert_eq!(Duration::seconds(86400).formatted(dhms()), Some("01d 00:00:00".to_string()));
}

#[test]
fn omits_days_under_one_day() {
    assert_eq!(Duration::seconds(3600).formatted(dhms()), Some("01:00:00".to_string()));
    assert_eq!(Duration::seconds(61).formatted(dhms()), Some("00:01:01".to_string()));
    assert_eq!(Duration::seconds(0).formatted(dhms()), Some("00:00:00".to_string()));
}

#[test]
fn formats_largest_duration() {
    let d = Duration::seconds(9223372036854775);
    assert_eq!(d.formatted(dhms()), Some("106751991167d 07:12:55".to_string()));
}

#[test]
fn negative_duration_reads_as_zero() {
    assert_eq!(Duration::seconds(-5).formatted(dhms()), Some("00:00:00".to_string()));
    assert_eq!(Duration::seconds(-9223372036854775).formatted(dhms()), Some("00:00:00".to_string()));
}

#[test]
fn no_format_gives_empty_text() {
    assert_eq!(Duration::seconds(4000).formatted(None), Some(String::new()));
    assert_eq!(Duration::seconds(4000).formatted(Some("xyz".to_string())), Some(String::new()));
}

#[test]
fn partial_formats() {
    // Only minutes and seconds: the hours stay in the minutes.
    assert_eq!(Duration::seconds(3725).formatted(Some("m:s".to_string())), Some("62:05".to_string()));
    // Only days.
    assert_eq!(Duration::seconds(200000).formatted(Some("d".to_string())), Some("02d ".to_string()));
    assert_eq!(Duration::seconds(100).formatted(Some("d".to_string())), Some(String::new()));
}

#[test]
fn seconds_round_trip_through_chrono() {
    assert_eq!(Duration::seconds(42).num_seconds(), 42);
    assert_eq!(Duration::seconds(-7).num_seconds(), -7);
}

#[test]
fn calculate_takes_whole_units() {
    let d = Duration::seconds(0);
    let mut total: i64 = 100;
    let mut seconds: i64 = 60;
    let text = d.calculate(&mut total, &mut seconds, &"m".to_string(), 'm', Some(":".to_string()));
    assert_eq!(text, "01:");
    assert_eq!(total, 40);
    assert_eq!(seconds, 60);
}

#[test]
fn calculate_pads_missing_units() {
    let d = Duration::seconds(0);
    let mut total: i64 = 30;
    let mut seconds: i64 = 60;
    let format = "d h:m:s".to_string();
    assert_eq!(d.calculate(&mut total, &mut seconds, &format, 'm', Some(":".to_string())), "00:");
    assert_eq!(total, 30);
    let mut day: i64 = 86400;
    assert_eq!(d.calculate(&mut total, &mut day, &format, 'd', Some("d ".to_string())), "");
    let mut none: i64 = 60;
    assert_eq!(d.calculate(&mut total, &mut none, &"h".to_string(), 'm', None), "");
}

#[test]
fn calculate_with_zero_unit_keeps_total() {
    let d = Duration::seconds(0);
    let mut total: i64 = 5;
    let mut zero: i64 = 0;
    assert_eq!(d.calculate(&mut total, &mut zero, &"s".to_string(), 's', None), "05");
    assert_eq!(total, 5);
    let mut negative: i64 = -7;
    assert_eq!(d.calculate(&mut negative, &mut zero, &"s".to_string(), 's', None), "00");
    assert_eq!(negative, -7);
}

#[test]
fn calculate_with_negative_unit() {
    let d = Duration::seconds(0);
    let mut total: i64 = 7;
    let mut seconds: i64 = -2;
    assert_eq!(d.calculate(&mut total, &mut seconds, &"h".to_string(), 'h', None), "-3");
    assert_eq!(total, 1);
}

#[test]
fn duration_text_for_zero_is_dashes() {
    assert_eq!(duration_as_string(0), Some("--".to_string()));
}

#[test]
fn duration_text_for_task_times() {
    assert_eq!(duration_as_string(4000), Some("01:06:40".to_string()));
    assert_eq!(duration_as_string(90061), Some("01d 01:01:01".to_string()));
    assert_eq!(duration_as_string(-30), Some("00:00:00".to_string()));
}

#[test]
fn task_states_are_named() {
    assert_eq!(task_state(Some(0)), Some("Uninitialized".to_string()));
    assert_eq!(task_state(Some(1)), Some("Executing".to_string()));
    assert_eq!(task_state(Some(2)), Some("Suspended".to_string()));
    assert_eq!(task_state(Some(3)), Some("Abort pending".to_string()));
    assert_eq!(task_state(Some(4)), Some("Quit pending".to_string()));
    assert_eq!(task_state(Some(5)), Some("Copy pending".to_string()));
    assert_eq!(task_state(Some(6)), Some("Unknown state".to_string()));
    assert_eq!(task_state(Some(-1)), Some("Unknown state".to_string()));
    assert_eq!(task_state(None), Some("Unknown state".to_string()));
}

#[test]
fn calculate_without_the_unit_leaves_everything() {
    let d = Duration::seconds(0);
    let mut total: i64 = i64::MAX;
    let mut seconds: i64 = 1;
    assert_eq!(d.calculate(&mut total, &mut seconds, &String::new(), 'h', Some(":".to_string())), "");
    assert_eq!(total, i64::MAX);
    assert_eq!(seconds, 1);
}

#[test]
fn texts_under_a_day_sort_as_durations() {
    let times = [0i64, 9, 59, 60, 61, 599, 3599, 3600, 35999, 36000, 86399];
    let texts: Vec<String> =
        times.iter().map(|&t| Duration::seconds(t).formatted(dhms()).unwrap()).collect();
    for pair in texts.windows(2) {
        assert_eq!(pair[0].len(), 8);
        assert!(pair[0] < pair[1], "{} !< {}", pair[0], pair[1]);
    }
    assert_eq!(texts[texts.len() - 1], "23:59:59");
}
