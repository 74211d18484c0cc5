use contact_sheet::rational::Rational;
use contact_sheet::utils::{parse_duration, DurationParseError, VideoDuration};

fn seconds(t: f64) -> VideoDuration {
    let millis = (t * 1000.0).round() as i128;
    VideoDuration::new(Rational::from_ratio(millis, 1000).unwrap())
}

#[test]
fn video_duration() {
    let t = 120.123;
    assert_eq!(seconds(t).to_string(), "02:00.123");

    let t = 3600.123;
    assert_eq!(seconds(t).to_string(), "01:00:00.123");
}

#[test]
fn parse_video_durations() {
    let s = "00:00:00.123";
    assert_eq!(parse_duration(s).unwrap(), Rational::new(123, 1000));

    let s = "01:00:00.123";
    assert_eq!(parse_duration(s).unwrap(), Rational::new(3600123, 1000));
}

#[test]
fn zero_duration_has_the_short_form() {
    assert_eq!(VideoDuration::new(Rational::new(0, 1)).to_string(), "00:00.000");
    assert_eq!(VideoDuration::new(Rational::new(0, 7)).to_string(), "00:00.000");
}

#[test]
fn negative_duration_shows_its_magnitude_behind_a_minus() {
    assert_eq!(seconds(-120.123).to_string(), "-02:00.123");
    assert_eq!(seconds(-3600.123).to_string(), "-01:00:00.123");
    assert_eq!(VideoDuration::new(Rational::new(-1, 1000)).to_string(), "-00:00.001");
    assert_eq!(
        VideoDuration::new(Rational::new(i32::MIN, 1)).to_string(),
        "-596523:14:08.000"
    );
}

#[test]
fn duration_below_a_millisecond_shows_as_zero() {
    assert_eq!(VideoDuration::new(Rational::new(1, 1001)).to_string(), "00:00.000");
    assert_eq!(VideoDuration::new(Rational::new(-1, 1001)).to_string(), "-00:00.000");
}

#[test]
fn duration_milliseconds_are_cut_off() {
    assert_eq!(VideoDuration::new(Rational::new(1999, 2000)).to_string(), "00:00.999");
    assert_eq!(VideoDuration::new(Rational::new(2, 3)).to_string(), "00:00.666");
}

#[test]
fn duration_changes_form_at_one_hour() {
    assert_eq!(VideoDuration::new(Rational::new(3599999, 1000)).to_string(), "59:59.999");
    assert_eq!(VideoDuration::new(Rational::new(3600, 1)).to_string(), "01:00:00.000");
    assert_eq!(VideoDuration::new(Rational::new(59, 1)).to_string(), "00:59.000");
    assert_eq!(VideoDuration::new(Rational::new(60, 1)).to_string(), "01:00.000");
    assert_eq!(VideoDuration::new(Rational::new(360000, 1)).to_string(), "100:00:00.000");
    assert_eq!(
        VideoDuration::new(Rational::new(i32::MAX, 1)).to_string(),
        "596523:14:07.000"
    );
}

#[test]
fn video_duration_keeps_its_fraction() {
    let d = VideoDuration::new(Rational::new(7, 2));
    assert_eq!((d.0.num, d.0.den), (7, 2));
}

#[test]
fn parse_gives_lowest_terms() {
    let r = parse_duration("00:00:01.500").unwrap();
    assert_eq!((r.num, r.den), (3, 2));
    let r = parse_duration("00:01:30.0").unwrap();
    assert_eq!((r.num, r.den), (90, 1));
    let r = parse_duration("00:00:00.123").unwrap();
    assert_eq!((r.num, r.den), (123, 1000));
    let r = parse_duration("01:00:00.123").unwrap();
    assert_eq!((r.num, r.den), (3600123, 1000));
}

#[test]
fn parse_takes_long_fractions_with_zeros_at_the_end() {
    let r = parse_duration("00:01:39.959000000").unwrap();
    assert_eq!((r.num, r.den), (99959, 1000));
    let r = parse_duration("00:00:00.000000001").unwrap();
    assert_eq!((r.num, r.den), (1, 1000000000));
    let r = parse_duration("00:00:00.1230000000000000000000000000000").unwrap();
    assert_eq!((r.num, r.den), (123, 1000));
}

#[test]
fn parse_takes_hours_of_any_length() {
    let r = parse_duration("100:00:00.0").unwrap();
    assert_eq!((r.num, r.den), (360000, 1));
    let r = parse_duration("0000000000000000000001:00:00.5").unwrap();
    assert_eq!((r.num, r.den), (7201, 2));
    let r = parse_duration("0:00:00.0").unwrap();
    assert_eq!((r.num, r.den), (0, 1));
}

#[test]
fn parse_does_not_limit_minutes_and_seconds() {
    let r = parse_duration("00:99:99.0").unwrap();
    assert_eq!((r.num, r.den), (6039, 1));
}

#[test]
fn parse_refuses_what_is_not_a_duration() {
    for s in [
        "",
        "1",
        "00:00",
        "00:00:00",
        "00:00:00.",
        ":00:00.0",
        "00:0:00.0",
        "00:00:0.0",
        "00:000:00.0",
        "00:00:000.0",
        "00:00:00.0x",
        "00:00:00,0",
        "00-00-00.0",
        "-1:00:00.0",
        "+1:00:00.0",
        " 00:00:00.0",
        "00:00:00.0 ",
        "0a:00:00.0",
        "00:a0:00.0",
        "00:00:0a.0",
        "00:00:00.1e3",
        "００:00:00.0",
    ] {
        assert_eq!(parse_duration(s), Err(DurationParseError::Malformed), "{:?}", s);
    }
}

#[test]
fn parse_counts_nine_fraction_digits() {
    let r = parse_duration("00:00:00.123456789").unwrap();
    assert_eq!((r.num, r.den), (123456789, 1000000000));
    let r = parse_duration("00:00:00.1234567899999").unwrap();
    assert_eq!((r.num, r.den), (123456789, 1000000000));
    let r = parse_duration("00:00:00.0000000001").unwrap();
    assert_eq!((r.num, r.den), (0, 1));
}

#[test]
fn parse_approximates_what_cannot_be_held() {
    // 3600.123456789 has no exact form in 32 bits
    let r = parse_duration("01:00:00.123456789").unwrap();
    assert_eq!((r.num, r.den), (180006173, 50000));
    let r = parse_duration("00:23:45.678912345").unwrap();
    assert_eq!((r.num, r.den), (22276233, 15625));
}

#[test]
fn parse_stops_at_the_end_of_the_range() {
    let r = parse_duration("596523:14:07.0").unwrap();
    assert_eq!((r.num, r.den), (i32::MAX, 1));
    let r = parse_duration("596523:14:08.0").unwrap();
    assert_eq!((r.num, r.den), (i32::MAX, 1));
    let r = parse_duration("600000:00:00.5").unwrap();
    assert_eq!((r.num, r.den), (i32::MAX, 1));
    let r = parse_duration("99999999999999999999999999:00:00.0").unwrap();
    assert_eq!((r.num, r.den), (i32::MAX, 1));
    let r = parse_duration("596523:14:07.5").unwrap();
    assert_eq!((r.num, r.den), (i32::MAX, 1));
}

#[test]
fn a_shown_duration_reads_back() {
    for (h, m, s, ms) in [(1u32, 0u32, 0u32, 0u32), (1, 0, 0, 123), (2, 59, 59, 999), (12, 34, 56, 500), (100, 7, 8, 40), (596, 31, 23, 647)] {
        let text = format!("{:02}:{:02}:{:02}.{:03}", h, m, s, ms);
        let q = parse_duration(&text).unwrap();
        let total = ((3600 * h + 60 * m + s) * 1000 + ms) as i128;
        let want = Rational::from_ratio(total, 1000).unwrap();
        assert_eq!((q.num, q.den), (want.num, want.den));
        assert_eq!(VideoDuration::new(q).to_string(), text);
    }
}
