use chat_responses_codex::calendar::{is_day_shaped, CalendarError, DeploymentCalendar};

#[test]
fn unknown_zone_is_refused() {
    let err = DeploymentCalendar::parse("Mars/Base").unwrap_err();
    assert_eq!(err, CalendarError::InvalidTimezone("Mars/Base".to_string()));
    assert_eq!(err.message(), "invalid IANA timezone: Mars/Base");
    assert_eq!(DeploymentCalendar::parse("Asia/Shanghai").unwrap().timezone_name(), "Asia/Shanghai");
}

#[test]
fn utc_day_bounds() {
    let calendar = DeploymentCalendar::parse("UTC").unwrap();
    let day = calendar.day("2024-01-01").unwrap();
    assert_eq!(day.day, "2024-01-01");
    assert_eq!(day.timezone, "UTC");
    assert_eq!((day.start_time, day.end_time), (1_704_067_200, 1_704_153_600));
    assert_eq!(day.duration_seconds(), 86_400);
    assert_eq!(calendar.today(1_704_100_000).unwrap(), day);
}

#[test]
fn daylight_saving_day_is_shorter() {
    let calendar = DeploymentCalendar::parse("America/New_York").unwrap();
    let day = calendar.day("2024-03-10").unwrap();
    assert_eq!((day.start_time, day.end_time), (1_710_046_800, 1_710_129_600));
    assert_eq!(day.duration_seconds(), 82_800);
}

#[test]
fn malformed_days_are_refused() {
    let calendar = DeploymentCalendar::parse("UTC").unwrap();
    assert_eq!(calendar.day("2024-1-01"), Err(CalendarError::InvalidDay("2024-1-01".to_string())));
    assert_eq!(calendar.day("2024-13-01"), Err(CalendarError::InvalidDay("2024-13-01".to_string())));
    assert!(is_day_shaped("2024-02-30"));
    assert!(calendar.day("2024-02-30").is_err());
}

#[test]
fn ranges_end_on_the_given_day() {
    let calendar = DeploymentCalendar::parse("UTC").unwrap();
    let range = calendar.range_ending_on("2024-01-03", 3).unwrap();
    assert_eq!(range.days.iter().map(|d| d.day.as_str()).collect::<Vec<_>>(), vec!["2024-01-01", "2024-01-02", "2024-01-03"]);
    assert_eq!((range.start_time, range.end_time), (1_704_067_200, 1_704_326_400));
    assert_eq!(range.timezone, "UTC");
    assert_eq!(calendar.range_ending_on("2024-01-03", 0), Err(CalendarError::EmptyRange));
}
