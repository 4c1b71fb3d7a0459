use thermo_logger::protocol::{parse_line, ParsedLine, ProtocolParseError, Record};
use thermo_logger::reading::Reading;

fn data(line: &str, n: usize) -> Record {
    match parse_line(line, n) {
        Ok(ParsedLine::Data(r)) => r,
        other => panic!("expected a data line, got {:?}", other),
    }
}

fn value(r: Reading) -> f64 {
    r.units as f64 / 10f64.powi(r.scale as i32)
}

#[test]
fn data_line_with_empty_middle_field() {
    let r = data("1000,21.5C,,22.0C", 3);
    assert_eq!(r.timestamp, 1000);
    assert_eq!(r.readings, vec![Some(Reading::new(215, 1)), None, Some(Reading::new(220, 1))]);
    assert_eq!(value(r.readings[0].unwrap()), 21.5);
    assert_eq!(value(r.readings[2].unwrap()), 22.0);
}

#[test]
fn control_line_payload() {
    match parse_line("#status ok", 3) {
        Ok(ParsedLine::Control(p)) => assert_eq!(p, "status ok"),
        other => panic!("expected a control line, got {:?}", other),
    }
}

#[test]
fn every_control_prefix() {
    for (line, payload) in [("?info", "info"), ("/x,1", "x,1"), ("-", ""), ("#", "")] {
        match parse_line(line, 8) {
            Ok(ParsedLine::Control(p)) => assert_eq!(p, payload),
            other => panic!("expected a control line for {:?}, got {:?}", line, other),
        }
    }
}

#[test]
fn short_line_pads_missing_channels() {
    let r = data("5,1C", 3);
    assert_eq!(r.timestamp, 5);
    assert_eq!(r.readings, vec![Some(Reading::new(1, 0)), None, None]);
}

#[test]
fn timestamp_only_line_has_no_readings() {
    let r = data("42", 2);
    assert_eq!(r.timestamp, 42);
    assert_eq!(r.readings, vec![None, None]);
}

#[test]
fn long_line_ignores_extra_fields() {
    let r = data("5,1,2,3,4", 2);
    assert_eq!(r.readings, vec![Some(Reading::new(1, 0)), Some(Reading::new(2, 0))]);
    let r = data("5,1,2,not a number", 2);
    assert_eq!(r.readings.len(), 2);
}

#[test]
fn malformed_timestamp_is_rejected() {
    assert_eq!(parse_line("abc,1C", 2).err(), Some(ProtocolParseError::BadTimestamp));
    assert_eq!(parse_line("", 2).err(), Some(ProtocolParseError::BadTimestamp));
    assert_eq!(parse_line(",1C", 2).err(), Some(ProtocolParseError::BadTimestamp));
    assert_eq!(parse_line("1.5,1C", 2).err(), Some(ProtocolParseError::BadTimestamp));
    assert_eq!(parse_line("\n100,1C", 2).err(), Some(ProtocolParseError::BadTimestamp));
}

#[test]
fn timestamp_limits() {
    assert_eq!(data("18446744073709551615", 1).timestamp, u64::MAX);
    assert_eq!(data("+7,1", 1).timestamp, 7);
    assert_eq!(
        parse_line("18446744073709551616", 1).err(),
        Some(ProtocolParseError::BadTimestamp)
    );
}

#[test]
fn malformed_reading_names_first_bad_channel() {
    assert_eq!(
        parse_line("5,1C,x,y", 3).err(),
        Some(ProtocolParseError::BadReading { channel: 1 })
    );
    assert_eq!(
        parse_line("5,1.2.3", 3).err(),
        Some(ProtocolParseError::BadReading { channel: 0 })
    );
    assert_eq!(
        parse_line("5,C", 3).err(),
        Some(ProtocolParseError::BadReading { channel: 0 })
    );
    assert_eq!(
        parse_line("5,,,.", 3).err(),
        Some(ProtocolParseError::BadReading { channel: 2 })
    );
}

#[test]
fn reading_forms() {
    let r = data("1,-3.25C,+4,.5,6.,21.5CC", 5);
    assert_eq!(
        r.readings,
        vec![
            Some(Reading::new(-325, 2)),
            Some(Reading::new(4, 0)),
            Some(Reading::new(5, 1)),
            Some(Reading::new(6, 0)),
            Some(Reading::new(215, 1)),
        ]
    );
}

#[test]
fn exponent_reading() {
    let r = data("1000,2.15e1C,,-1E-2C", 3);
    assert_eq!(r.readings, vec![Some(Reading::new(215, 1)), None, Some(Reading::new(-1, 2))]);
    assert_eq!(
        parse_line("1,5e", 1).err(),
        Some(ProtocolParseError::BadReading { channel: 0 })
    );
}

#[test]
fn reading_limits() {
    let r = data("1,9223372036854775807,-9223372036854775807,-9223372036854775808", 3);
    assert_eq!(r.readings[0], Some(Reading::new(i64::MAX, 0)));
    assert_eq!(r.readings[1], Some(Reading::new(-i64::MAX, 0)));
    assert_eq!(r.readings[2], Some(Reading::new(i64::MIN, 0)));
    assert_eq!(
        parse_line("1,9223372036854775808", 1).err(),
        Some(ProtocolParseError::BadReading { channel: 0 })
    );
}
