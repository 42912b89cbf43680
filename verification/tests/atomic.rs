use xsdkit::atomic::{
    Date, DateTime, DayTimeDuration, Decimal, Duration, GDay, GMonth, GMonthDay, GYear, GYearMonth, PrecisionDecimal, Time, YearMonthDuration,
};

#[test]
fn decimals_read_and_write_canonically() {
    let d = Decimal::parse_lexical("+001.50").unwrap();
    assert_eq!(d.to_string(), "1.5");
    assert_eq!(d.to_i128_scaled(), 1_500_000_000_000_000_000);
    assert_eq!(Decimal::parse_lexical("-.5").unwrap().to_string(), "-0.5");
    assert_eq!(Decimal::parse_lexical("-0.0").unwrap().to_string(), "0");
    assert_eq!(Decimal::parse_lexical("7.").unwrap().to_string(), "7");
    assert!(Decimal::parse_lexical(".").is_err());
    assert!(Decimal::parse_lexical("1e5").is_err());
    assert!(Decimal::parse_lexical("1.2.3").is_err());
    assert!(Decimal::parse_lexical("999999999999999999999").is_err());
    // Digits past the eighteenth place are precision, and dropped.
    assert_eq!(Decimal::parse_lexical("0.1234567890123456789").unwrap().to_string(), "0.123456789012345678");
    assert_eq!(Decimal::from_integer(3).unwrap().to_string(), "3");
    assert_eq!(Decimal::from_scaled(5).to_string(), "0.000000000000000005");
}

#[test]
fn a_gmonthday_may_be_the_twenty_ninth_of_february() {
    let g = GMonthDay::parse_lexical("--02-29").unwrap();
    assert_eq!((g.month(), g.day()), (2, 29));
    assert_eq!(g.to_string(), "--02-29");
    assert!(GMonthDay::parse_lexical("--02-30").is_err());
    assert!(GMonthDay::parse_lexical("--13-01").is_err());
    let z = GMonthDay::parse_lexical("--12-25+01:30").unwrap();
    assert_eq!(z.timezone_offset().unwrap().minutes(), 90);
    assert_eq!(z.to_string(), "--12-25+01:30");
    assert_eq!(GMonthDay::parse_lexical("--12-25Z").unwrap().to_string(), "--12-25Z");
}

#[test]
fn times_keep_their_fraction_and_timezone() {
    let t = Time::parse_lexical("13:20:00.50-05:00").unwrap();
    assert_eq!((t.hour(), t.minute()), (13, 20));
    assert_eq!(t.second().to_string(), "0.5");
    assert_eq!(t.to_string(), "13:20:00.5-05:00");
    assert!(Time::parse_lexical("24:00:01").is_err());
    assert!(Time::parse_lexical("12:60:00").is_err());
    assert_eq!(Time::parse_lexical("24:00:00").unwrap().to_string(), "00:00:00");
}

#[test]
fn dates_and_datetimes_read_the_calendar() {
    let d = Date::parse_lexical("-0044-03-15Z").unwrap();
    assert_eq!((d.year(), d.month(), d.day()), (-44, 3, 15));
    assert_eq!(d.to_string(), "-0044-03-15Z");
    assert!(Date::parse_lexical("2001-02-29").is_err());
    assert!(Date::parse_lexical("2000-02-29").is_ok());
    let end = DateTime::parse_lexical("2002-10-09T24:00:00Z").unwrap();
    assert_eq!(end.to_string(), "2002-10-10T00:00:00Z");
    let a = DateTime::parse_lexical("2010-09-20T13:00:00+01:00").unwrap();
    let b = DateTime::parse_lexical("2010-09-20T12:00:00Z").unwrap();
    assert!(a == b, "one instant written two ways");
    let c = DateTime::parse_lexical("2010-09-20T12:00:00").unwrap();
    assert_eq!(a.partial_cmp(&c), None, "inside the 28-hour window, no order");
    let early = DateTime::parse_lexical("2010-09-19T00:00:00").unwrap();
    assert!(early < a);
    assert_eq!(a.hour(), 13);
    assert_eq!(a.second().to_string(), "0");
}

#[test]
fn durations_split_into_their_fields() {
    let d = Duration::parse_lexical("P1Y2M3DT4H5M6.7S").unwrap();
    assert_eq!((d.years(), d.months(), d.days(), d.hours(), d.minutes()), (1, 2, 3, 4, 5));
    assert_eq!(d.seconds().to_string(), "6.7");
    assert_eq!(d.to_string(), "P1Y2M3DT4H5M6.7S");
    assert_eq!(d.total_months(), 14);
    let n = Duration::parse_lexical("-P1M").unwrap();
    assert_eq!((n.years(), n.months()), (0, -1));
    assert_eq!(n.to_string(), "-P1M");
    assert_eq!(Duration::parse_lexical("PT36H").unwrap().to_string(), "P1DT12H");
    assert_eq!(Duration::parse_lexical("P0Y").unwrap().to_string(), "PT0S");
    assert_eq!(Duration::parse_lexical("PT0.000S").unwrap().to_string(), "PT0S");
    assert_eq!(Duration::parse_lexical("PT90S").unwrap().to_string(), "PT1M30S");
    for bad in ["P", "PT", "P1M1Y", "P1S", "1Y", "P1.5Y", "PT1.S", "P-1Y", "P8TH"] {
        assert!(Duration::parse_lexical(bad).is_err(), "{bad}");
    }
}

#[test]
fn the_duration_halves_are_totally_ordered() {
    let a = YearMonthDuration::parse_lexical("P1Y").unwrap();
    let b = YearMonthDuration::parse_lexical("P13M").unwrap();
    assert!(a < b);
    assert!(YearMonthDuration::parse_lexical("P1D").is_err());
    let c = DayTimeDuration::parse_lexical("PT24H").unwrap();
    let d = DayTimeDuration::parse_lexical("P1D").unwrap();
    assert_eq!(c.partial_cmp(&d), Some(std::cmp::Ordering::Equal));
    assert!(DayTimeDuration::parse_lexical("P1Y").is_err());
    assert_eq!(c.total_seconds(), 86_400 * 1_000_000_000_000_000_000);
}

#[test]
fn precision_decimals_keep_their_scale_and_compare_by_number() {
    let a = PrecisionDecimal::parse_lexical("1.00").unwrap();
    assert_eq!(a.total_digits(), Some(3));
    assert_eq!(a.scale(), Some(2));
    assert_eq!(a.to_string(), "1.00");
    let b = PrecisionDecimal::parse_lexical("10e-1").unwrap();
    assert!(a == b);
    let c = PrecisionDecimal::parse_lexical("2e2").unwrap();
    assert_eq!(c.scale(), Some(-2));
    assert_eq!(c.to_string(), "200");
    assert!(b < c);
    assert_eq!(PrecisionDecimal::parse_lexical("0.000001").unwrap().to_string(), "0.000001");
    assert_eq!(PrecisionDecimal::parse_lexical("1e-7").unwrap().to_string(), "1E-7");
    assert_eq!(PrecisionDecimal::parse_lexical("12e7").unwrap().to_string(), "12E7");
    assert_eq!(PrecisionDecimal::parse_lexical("-1.5e1").unwrap().to_string(), "-15");
    let nan = PrecisionDecimal::parse_lexical("NaN").unwrap();
    assert!(nan != nan);
    assert_eq!(nan.total_digits(), None);
    let zero = PrecisionDecimal::parse_lexical("0").unwrap();
    let neg_zero = PrecisionDecimal::parse_lexical("-0.0").unwrap();
    assert!(zero == neg_zero);
    assert_eq!(neg_zero.to_string(), "-0.0");
    let inf = PrecisionDecimal::parse_lexical("+INF").unwrap();
    assert!(c < inf);
    assert!(PrecisionDecimal::parse_lexical("-INF").unwrap() < neg_zero);
    assert!(PrecisionDecimal::parse_lexical("inf").is_err());
    assert!(PrecisionDecimal::parse_lexical("1e").is_err());
    assert!(PrecisionDecimal::parse_lexical("1e99999999999").is_err());
    let big = PrecisionDecimal::parse_lexical("1e38").unwrap();
    let huge = PrecisionDecimal::parse_lexical("340282366920938463463374607431768211455").unwrap();
    assert!(big < huge);
    assert!(PrecisionDecimal::parse_lexical("-1").unwrap() < PrecisionDecimal::parse_lexical("-0.5").unwrap());
}

#[test]
fn the_gregorian_fragments_read_and_write() {
    let y = GYear::parse_lexical("2024Z").unwrap();
    assert_eq!(y.year(), 2024);
    assert_eq!(y.to_string(), "2024Z");
    assert_eq!(GYear::parse_lexical("-0044").unwrap().to_string(), "-0044");
    assert_eq!(GYear::parse_lexical("12345").unwrap().year(), 12345);
    assert!(GYear::parse_lexical("024").is_err());
    assert!(GYear::parse_lexical("02024").is_err());

    let ym = GYearMonth::parse_lexical("1999-05+02:00").unwrap();
    assert_eq!((ym.year(), ym.month()), (1999, 5));
    assert_eq!(ym.timezone_offset().unwrap().minutes(), 120);
    assert_eq!(ym.to_string(), "1999-05+02:00");
    assert!(GYearMonth::parse_lexical("1999-13").is_err());
    assert!(GYearMonth::parse_lexical("1999/05").is_err());

    let m = GMonth::parse_lexical("--07").unwrap();
    assert_eq!(m.month(), 7);
    assert_eq!(m.to_string(), "--07");
    assert!(m.timezone_offset().is_none());
    assert!(GMonth::parse_lexical("--00").is_err());
    assert!(GMonth::parse_lexical("-07").is_err());

    let d = GDay::parse_lexical("---31-14:00").unwrap();
    assert_eq!(d.day(), 31);
    assert_eq!(d.to_string(), "---31-14:00");
    assert!(GDay::parse_lexical("---32").is_err());
    assert!(GDay::parse_lexical("--31").is_err());
}

#[test]
fn the_gregorian_fragments_order_by_their_first_instant() {
    let a = GYear::parse_lexical("2000Z").unwrap();
    let b = GYear::parse_lexical("2001Z").unwrap();
    assert!(a < b);
    // One instant written two ways is one value.
    let c = GYear::parse_lexical("2000+01:00").unwrap();
    let d = GYear::parse_lexical("1999-12:00").unwrap();
    assert_eq!(GYearMonth::parse_lexical("2000-01Z").unwrap(), GYearMonth::parse_lexical("2000-01Z").unwrap());
    assert!(c < a);
    assert!(d < a);
    // Without a timezone, a value is ordered against one with a timezone only
    // when the whole 28-hour window falls to one side.
    let bare = GDay::parse_lexical("---15").unwrap();
    let near = GDay::parse_lexical("---15Z").unwrap();
    let far = GDay::parse_lexical("---20Z").unwrap();
    assert_eq!(bare.partial_cmp(&near), None);
    assert!(bare < far);
    assert!(GMonth::parse_lexical("--02").unwrap() < GMonth::parse_lexical("--03").unwrap());
}

#[test]
fn offsets_are_minutes_east_of_utc_within_fourteen_hours() {
    let t = Time::parse_lexical("13:20:00-05:30").unwrap();
    assert_eq!(t.timezone_offset().unwrap().minutes(), -330);
    let east = Time::parse_lexical("00:00:00+14:00").unwrap();
    assert_eq!(east.timezone_offset().unwrap().minutes(), 840);
    assert!(Time::parse_lexical("00:00:00+14:01").is_err());
}
