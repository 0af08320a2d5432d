use blaise::time::{Duration, Time, TimeConstraint};

#[test]
fn parse_unparse_1() {
    let time = "00:00:00";
    let stime = Time::from_hms(time).unwrap();
    assert_eq!(time, stime.to_hms_string())
}

#[test]
fn parse_unparse_2() {
    let time = "00:00:30";
    let stime = Time::from_hms(time).unwrap();
    assert_eq!(time, stime.to_hms_string())
}

#[test]
fn parse_unparse_3() {
    let time = "00:30:00";
    let stime = Time::from_hms(time).unwrap();
    assert_eq!(time, stime.to_hms_string())
}

#[test]
fn parse_unparse_4() {
    let time = "12:00:00";
    let stime = Time::from_hms(time).unwrap();
    assert_eq!(time, stime.to_hms_string())
}

#[test]
fn parse_unparse_5() {
    let time = "12:30:30";
    let stime = Time::from_hms(time).unwrap();
    assert_eq!(time, stime.to_hms_string())
}

#[test]
fn time_valid_time_test_1() {
    let time = "00:00:00";
    assert_eq!(Time::from_hms(time).unwrap().as_seconds(), 0);
}

#[test]
fn time_valid_time_test_2() {
    let time = "00:00:30";
    assert_eq!(Time::from_hms(time).unwrap().as_seconds(), 30);
}

#[test]
fn time_valid_time_test_3() {
    let time = "00:01:30";
    assert_eq!(Time::from_hms(time).unwrap().as_seconds(), 90);
}

#[test]
fn time_valid_time_test_4() {
    let time = "01:01:30";
    assert_eq!(Time::from_hms(time).unwrap().as_seconds(), 3690);
}

#[test]
fn time_invalid_time_test_1() {
    let time = "00:00:0a";
    assert!(Time::from_hms(time).is_none())
}

#[test]
fn time_invalid_time_test_2() {
    let time = "00:00";
    assert!(Time::from_hms(time).is_none())
}

#[test]
fn time_tests_valid_time_test_1() {
    let time = "00:00:00";
    assert_eq!(Time::from_hms(time).unwrap().as_seconds(), 0);
}

#[test]
fn time_tests_valid_time_test_2() {
    let time = "00:00:30";
    assert_eq!(Time::from_hms(time).unwrap().as_seconds(), 30);
}

#[test]
fn time_tests_valid_time_test_3() {
    let time = "00:01:30";
    assert_eq!(Time::from_hms(time).unwrap().as_seconds(), 90);
}

#[test]
fn time_tests_valid_time_test_4() {
    let time = "01:01:30";
    assert_eq!(Time::from_hms(time).unwrap().as_seconds(), 3690);
}

#[test]
fn time_tests_invalid_time_test_1() {
    let time = "00:00:0a";
    assert!(Time::from_hms(time).is_none())
}

#[test]
fn time_tests_invalid_time_test_2() {
    let time = "00:00";
    assert!(Time::from_hms(time).is_none())
}

#[test]
fn time_render_then_parse_gives_the_time() {
    for secs in [0u32, 59, 3600, 45296, 86399, 90000, 360000] {
        let t = Time::from_seconds(secs);
        let text = t.to_hms_string();
        assert!(Time::hms_in_range(&text));
        assert_eq!(Time::from_hms(&text).unwrap(), t);
    }
}

#[test]
fn time_renders_hours_past_a_day() {
    assert_eq!(Time::from_seconds(90000).to_hms_string(), "25:00:00");
    assert_eq!(Time::from_seconds(360000).to_hms_string(), "100:00:00");
}

#[test]
fn time_parses_fields_with_sign_and_extra_parts() {
    assert_eq!(Time::from_hms("+1:+2:+3").unwrap().as_seconds(), 3723);
    assert_eq!(Time::from_hms("01:02:03:04").unwrap().as_seconds(), 3723);
    assert!(Time::from_hms("").is_none());
    assert!(Time::from_hms(":00:00").is_none());
    assert!(Time::from_hms("-1:00:00").is_none());
}

#[test]
fn time_range_check() {
    assert!(Time::hms_in_range("1193046:28:15"));
    assert!(!Time::hms_in_range("1193046:28:16"));
    assert!(!Time::hms_in_range("1193047:00:00"));
    assert!(Time::hms_in_range("ab:cd"));
}

#[test]
fn time_arithmetic() {
    let t = Time::from_seconds(100);
    assert_eq!(t.add(Duration::from_seconds(20)).as_seconds(), 120);
    assert_eq!(t.sub(Time::from_seconds(40)).as_seconds(), 60);
    assert_eq!(t.sub_duration(Duration::from_minutes(1)).as_seconds(), 40);
    let mut u = Time::from(10);
    u.add_assign(Duration::from_seconds(5));
    assert_eq!(u.as_seconds(), 15);
    assert_eq!(Time::earliest().as_seconds(), 0);
    assert_eq!(Time::latest().as_seconds(), u32::MAX);
    assert!(Time::now().as_seconds() < 86400);
}

#[test]
fn duration_units() {
    assert_eq!(Duration::from_minutes(2).as_seconds(), 120);
    assert_eq!(Duration::from_hours(2).as_seconds(), 7200);
    assert_eq!(Duration::from_days(1).as_seconds(), 86400);
    let mut d = Duration::from(10);
    d.add_assign(Duration::from_seconds(5));
    d.sub_assign(Duration::from_seconds(3));
    assert_eq!(d.as_seconds(), 12);
    assert_eq!(d.add(Duration::from_seconds(8)).sub(Duration::from_seconds(20)).as_seconds(), 0);
}

#[test]
fn time_constraint_time() {
    assert_eq!(TimeConstraint::Arrival(Time::from_seconds(5)).time().as_seconds(), 5);
    assert_eq!(TimeConstraint::Departure(Time::from_seconds(7)).time().as_seconds(), 7);
}
