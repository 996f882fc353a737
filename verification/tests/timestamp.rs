use lrc::{LyricsError, Timestamp};

#[test]
fn timestamp() {
    let t = Timestamp::new(0);
    assert_eq!("00:00.00", t.to_string());

    let t = Timestamp::new(14);
    assert_eq!("00:00.01", t.to_string());

    let t = Timestamp::new(17);
    assert_eq!("00:00.02", t.to_string());

    let t = Timestamp::new(1100);
    assert_eq!("00:01.10", t.to_string());

    let t = Timestamp::new(1234567);
    assert_eq!("20:34.57", t.to_string());

    let t = Timestamp::new(12345678);
    assert_eq!("205:45.68", t.to_string());
}

#[test]
fn negative_timestamp() {
    let t = Timestamp::new(-1234567);
    assert_eq!("-20:34.57", t.to_string());
}

#[test]
fn timestamp_parse() {
    let t = Timestamp::from_str("12:34").unwrap();

    assert_eq!("12:34.00", t.to_string());

    let t = Timestamp::from_str("12:34.56").unwrap();

    assert_eq!("12:34.56", t.to_string());

    let t = Timestamp::from_str("-12:34.56").unwrap();

    assert_eq!("-12:34.56", t.to_string());

    let t = Timestamp::from_str("00:-12.34").unwrap();

    assert_eq!("-00:12.34", t.to_string());

    let t = Timestamp::from_str("00:00.-12").unwrap();

    assert_eq!("-00:00.12", t.to_string());
}

#[test]
fn parse_errors() {
    assert!(Timestamp::from_str("abc").is_err());
    assert!(Timestamp::from_str("123").is_err());

    assert!(Timestamp::from_str("12:34:56").is_err());

    assert!(Timestamp::from_str("12:60.00").is_err());

    assert!(Timestamp::from_str("12:-34.56").is_err());
    assert!(Timestamp::from_str("12:34.-56").is_err());
    assert!(Timestamp::from_str("00:34.-56").is_err());
    assert!(Timestamp::from_str("12:00.-56").is_err());
}

#[test]
fn parsed_values_are_exact() {
    assert_eq!(Timestamp::from_str("12:34").unwrap().get_timestamp(), 754000);
    assert_eq!(Timestamp::from_str("12:34.56").unwrap().get_timestamp(), 754560);
    assert_eq!(Timestamp::from_str("-12:34.56").unwrap().get_timestamp(), -754560);
    assert_eq!(Timestamp::from_str("00:-12.34").unwrap().get_timestamp(), -12340);
    assert_eq!(Timestamp::from_str("00:00.-12").unwrap().get_timestamp(), -120);
    assert_eq!(Timestamp::from_str("1:2.3").unwrap().get_timestamp(), 62030);
    assert_eq!(Timestamp::from_str("9999999999:59.99").unwrap().get_timestamp(), 599999999999990);
    assert_eq!(Timestamp::from_str("-0:-0.-0").unwrap().get_timestamp(), 0);
    assert_eq!(Timestamp::from_str("-0:00.05").unwrap().get_timestamp(), 50);
}

#[test]
fn each_rule_has_its_message() {
    let message = |s: &str| match Timestamp::from_str(s) {
        Err(LyricsError::ParseError(message)) => message,
        other => panic!("{:?}", other),
    };
    assert_eq!(message(""), "The format of the string is not incorrect. Is it mm:ss.xx?");
    assert_eq!(message("12345678901:00"), "The format of the string is not incorrect. Is it mm:ss.xx?");
    assert_eq!(message("1:000"), "The format of the string is not incorrect. Is it mm:ss.xx?");
    assert_eq!(message("1:00."), "The format of the string is not incorrect. Is it mm:ss.xx?");
    assert_eq!(message("1:00.000"), "The format of the string is not incorrect. Is it mm:ss.xx?");
    assert_eq!(message(" 1:00"), "The format of the string is not incorrect. Is it mm:ss.xx?");
    assert_eq!(message("1:00\n"), "The format of the string is not incorrect. Is it mm:ss.xx?");
    assert_eq!(message("--1:00"), "The format of the string is not incorrect. Is it mm:ss.xx?");
    assert_eq!(message("\u{661}:00"), "The format of the string is not incorrect. Is it mm:ss.xx?");
    assert_eq!(
        message("-1:-02.03"),
        "The format of the string is not incorrect. Too many negative signs."
    );
    assert_eq!(
        message("0:-02.-03"),
        "The format of the string is not incorrect. Too many negative signs."
    );
    assert_eq!(
        message("12:-34.56"),
        "The format of the string is not incorrect. The number of seconds cannot be negative."
    );
    assert_eq!(
        message("12:34.-56"),
        "The format of the string is not incorrect. The number of hundredths of a second cannot be negative."
    );
    assert_eq!(
        message("00:34.-56"),
        "The format of the string is not incorrect. The number of hundredths of a second cannot be negative."
    );
    assert_eq!(
        message("12:60.00"),
        "The format of the string is not incorrect. The number of seconds must be smaller than 60."
    );
    assert_eq!(
        message("0:99"),
        "The format of the string is not incorrect. The number of seconds must be smaller than 60."
    );
}

#[test]
fn hundredths_round_half_up() {
    assert_eq!(Timestamp::new(15).to_string(), "00:00.02");
    assert_eq!(Timestamp::new(5).to_string(), "00:00.01");
    assert_eq!(Timestamp::new(25).to_string(), "00:00.03");
    assert_eq!(Timestamp::new(45).to_string(), "00:00.05");
    assert_eq!(Timestamp::new(-25).to_string(), "-00:00.03");
    assert_eq!(Timestamp::new(4).to_string(), "00:00.00");
    assert_eq!(Timestamp::new(994).to_string(), "00:00.99");
    assert_eq!(Timestamp::new(995).to_string(), "00:00.100");
    assert_eq!(Timestamp::new(-15).to_string(), "-00:00.02");
    assert_eq!(Timestamp::new(59999).to_string(), "00:59.100");
    assert_eq!(Timestamp::new(i64::MAX).to_string(), "153722867280912:55.81");
    assert_eq!(Timestamp::new(i64::MIN).to_string(), "-153722867280912:55.81");
}

#[test]
fn text_of_a_parsed_timestamp_parses_to_itself() {
    for s in ["12:34", "1:02.3", "-12:34.56", "0:0", "9999999999:59.99", "-1:00"] {
        let first = Timestamp::from_str(s).unwrap();
        let second = Timestamp::from_str(&first.to_string()).unwrap();
        assert_eq!(first, second);
        assert_eq!(first.to_string(), second.to_string());
    }
}
