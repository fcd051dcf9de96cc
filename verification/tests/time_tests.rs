use judgers::error::Error;
use judgers::format::Format;
use judgers::time::Time;

#[test]
fn test_time_new_bounds() {
    assert_eq!(
        Time::new(9, 30).unwrap(),
        Time {
            hour: 9,
            minute: 30
        }
    );
    assert_eq!(Time::new(23, 59).unwrap(), Time { hour: 23, minute: 59 });
    assert_eq!(Time::new(24, 0).err().unwrap(), Error::InvalidTime);
    assert_eq!(Time::new(0, 60).err().unwrap(), Error::InvalidTime);
    assert_eq!(Time::new(255, 255).err().unwrap(), Error::InvalidTime);
}

#[test]
fn test_time_minutes_round_trip() {
    for hour in 0..24u8 {
        for minute in 0..60u8 {
            let t = Time { hour, minute };
            assert_eq!(Time::from_minutes(t.to_minutes()), t);
        }
    }
}

#[test]
fn test_time_from_minutes_wraps() {
    assert_eq!(Time::from_minutes(0), Time { hour: 0, minute: 0 });
    assert_eq!(Time::from_minutes(61), Time { hour: 1, minute: 1 });
    assert_eq!(Time::from_minutes(1440), Time { hour: 0, minute: 0 });
    assert_eq!(Time::from_minutes(1500), Time { hour: 1, minute: 0 });
    assert_eq!(Time::from_minutes(23 * 60 + 59), Time { hour: 23, minute: 59 });
}

#[test]
fn test_time_parse() {
    assert_eq!(Time::parse("09:05").unwrap(), Time { hour: 9, minute: 5 });
    assert_eq!(Time::parse("9:5").unwrap(), Time { hour: 9, minute: 5 });
    assert_eq!(Time::parse("23:59").unwrap(), Time { hour: 23, minute: 59 });
    assert_eq!(Time::parse("24:00").err().unwrap(), Error::InvalidTime);
    assert_eq!(Time::parse("12:60").err().unwrap(), Error::InvalidTime);
    assert_eq!(Time::parse("1200").err().unwrap(), Error::InvalidTime);
    assert_eq!(Time::parse("12:00:00").err().unwrap(), Error::InvalidTime);
    assert_eq!(Time::parse("ab:cd").err().unwrap(), Error::InvalidTime);
    assert_eq!(Time::parse(":30").err().unwrap(), Error::InvalidTime);
    assert_eq!(Time::parse("12:").err().unwrap(), Error::InvalidTime);
    assert_eq!(Time::parse("").err().unwrap(), Error::InvalidTime);
    assert_eq!(Time::parse("999:00").err().unwrap(), Error::InvalidTime);
}

#[test]
fn test_time_format_zero_padded() {
    assert_eq!(Time { hour: 9, minute: 5 }.format(), "09:05");
    assert_eq!(Time { hour: 0, minute: 0 }.format(), "00:00");
    assert_eq!(Time { hour: 23, minute: 59 }.format(), "23:59");
    assert_eq!(Time { hour: 12, minute: 30 }.format(), "12:30");
}

#[test]
fn test_time_parse_format_round_trip() {
    let t = Time::parse("07:45").unwrap();
    assert_eq!(t.format(), "07:45");
}

#[test]
fn test_time_default() {
    assert_eq!(Time::default(), Time { hour: 9, minute: 0 });
}

#[test]
fn test_format_from_str() {
    assert_eq!(
        Format::from_str(Some("json".to_string())),
        Some(Format::Json)
    );
    assert_eq!(
        Format::from_str(Some("xlsx".to_string())),
        Some(Format::Xlsx)
    );
    assert_eq!(
        Format::from_str(Some("other".to_string())),
        Some(Format::Json)
    );
    assert_eq!(Format::from_str(None), Some(Format::Json));
}
