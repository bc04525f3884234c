use game_of_life::game_conf::{parse_interval, ConfigError, GameConf, IntervalError};
use std::num::IntErrorKind;

fn parse(text: &str) -> Result<GameConf, ConfigError> {
    GameConf::new(&text.to_string())
}

fn interval(field: &str) -> Result<u64, IntervalError> {
    parse_interval(&field.chars().collect())
}

fn bad_interval(cause: IntervalError) -> ConfigError {
    ConfigError::Interval(cause)
}

#[test]
fn parses_symbols_interval_and_rows() {
    let conf = parse("X:.:100\nX.\n.X").unwrap();
    assert_eq!(conf.alive, 'X');
    assert_eq!(conf.dead, '.');
    assert_eq!(conf.millis, 100);
    assert_eq!(conf.starting_value, vec!["X.".to_string(), ".X".to_string()]);
}

#[test]
fn parses_space_as_dead_symbol() {
    let conf = parse("#: :200\n # \n###").unwrap();
    assert_eq!(conf.alive, '#');
    assert_eq!(conf.dead, ' ');
    assert_eq!(conf.millis, 200);
    assert_eq!(conf.starting_value, vec![" # ".to_string(), "###".to_string()]);
}

#[test]
fn takes_first_character_of_each_symbol_field() {
    let conf = parse("XY:.z:5\nX.").unwrap();
    assert_eq!(conf.alive, 'X');
    assert_eq!(conf.dead, '.');
    assert_eq!(conf.millis, 5);
}

#[test]
fn takes_symbols_beyond_ascii() {
    let conf = parse("█:·:40\n█·█").unwrap();
    assert_eq!(conf.alive, '█');
    assert_eq!(conf.dead, '·');
    assert_eq!(conf.starting_value, vec!["█·█".to_string()]);
}

#[test]
fn keeps_whitespace_in_rows() {
    let conf = parse("#: :1\n  # \n\t#\r").unwrap();
    assert_eq!(conf.starting_value, vec!["  # ".to_string(), "\t#\r".to_string()]);
}

#[test]
fn header_alone_gives_no_rows() {
    let conf = parse("X:.:1").unwrap();
    assert!(conf.starting_value.is_empty());
}

#[test]
fn final_line_feed_gives_an_empty_last_row() {
    let conf = parse("X:.:1\nX.\n").unwrap();
    assert_eq!(conf.starting_value, vec!["X.".to_string(), String::new()]);
}

#[test]
fn empty_lines_are_rows() {
    let conf = parse("X:.:1\n\n\nX").unwrap();
    assert_eq!(conf.starting_value, vec![String::new(), String::new(), "X".to_string()]);
}

#[test]
fn empty_text_has_no_header() {
    assert_eq!(parse("").unwrap_err(), ConfigError::MissingHeader);
}

#[test]
fn empty_first_line_has_no_header() {
    assert_eq!(parse("\nX.\n.X").unwrap_err(), ConfigError::MissingHeader);
}

#[test]
fn too_few_fields_are_refused() {
    assert_eq!(parse("X").unwrap_err(), ConfigError::HeaderFields);
    assert_eq!(parse("X:.").unwrap_err(), ConfigError::HeaderFields);
    assert_eq!(parse("X:.\nX.").unwrap_err(), ConfigError::HeaderFields);
}

#[test]
fn too_many_fields_are_refused() {
    assert_eq!(parse("X:.:100:7").unwrap_err(), ConfigError::HeaderFields);
    assert_eq!(parse("X:.:100:").unwrap_err(), ConfigError::HeaderFields);
}

#[test]
fn empty_alive_field_is_refused() {
    assert_eq!(parse(":.:100\nX.").unwrap_err(), ConfigError::EmptyAlive);
    assert_eq!(parse("::100").unwrap_err(), ConfigError::EmptyAlive);
}

#[test]
fn empty_dead_field_is_refused() {
    assert_eq!(parse("X::100\nX.").unwrap_err(), ConfigError::EmptyDead);
}

#[test]
fn empty_alive_field_is_told_with_too_few_fields() {
    assert_eq!(parse(":.").unwrap_err(), ConfigError::EmptyAlive);
    assert_eq!(parse(":").unwrap_err(), ConfigError::EmptyAlive);
    assert_eq!(parse(":.\n..").unwrap_err(), ConfigError::EmptyAlive);
}

#[test]
fn empty_alive_field_is_told_with_too_many_fields() {
    assert_eq!(parse(":.:100:7").unwrap_err(), ConfigError::EmptyAlive);
    assert_eq!(parse(":::").unwrap_err(), ConfigError::EmptyAlive);
}

#[test]
fn empty_dead_field_is_told_with_too_few_fields() {
    assert_eq!(parse("X:").unwrap_err(), ConfigError::EmptyDead);
    assert_eq!(parse("X:\nX").unwrap_err(), ConfigError::EmptyDead);
}

#[test]
fn empty_dead_field_is_told_with_too_many_fields() {
    assert_eq!(parse("X::1:2").unwrap_err(), ConfigError::EmptyDead);
    assert_eq!(parse("X:::").unwrap_err(), ConfigError::EmptyDead);
}

#[test]
fn wrong_number_of_fields_is_told_when_both_symbols_are_there() {
    assert_eq!(parse("X:.:").unwrap_err(), bad_interval(IntervalError::Empty));
    assert_eq!(parse("X:.::").unwrap_err(), ConfigError::HeaderFields);
    assert_eq!(parse("X:.:abc:1").unwrap_err(), ConfigError::HeaderFields);
}

#[test]
fn bad_interval_is_refused() {
    assert_eq!(parse("X:.:abc").unwrap_err(), bad_interval(IntervalError::InvalidDigit));
    assert_eq!(parse("X:.:").unwrap_err(), bad_interval(IntervalError::Empty));
    assert_eq!(parse("X:.:-1").unwrap_err(), bad_interval(IntervalError::InvalidDigit));
    assert_eq!(parse("X:.: 100").unwrap_err(), bad_interval(IntervalError::InvalidDigit));
    assert_eq!(parse("X:.:100\r\nX.").unwrap_err(), bad_interval(IntervalError::InvalidDigit));
    assert_eq!(parse("X:.:1.5").unwrap_err(), bad_interval(IntervalError::InvalidDigit));
    assert_eq!(
        parse("X:.:18446744073709551616\nX.").unwrap_err(),
        bad_interval(IntervalError::TooLarge)
    );
}

#[test]
fn errors_come_in_the_order_of_the_fields() {
    assert_eq!(parse("::").unwrap_err(), ConfigError::EmptyAlive);
    assert_eq!(parse("X::abc").unwrap_err(), ConfigError::EmptyDead);
    assert_eq!(parse("X:.:abc").unwrap_err(), bad_interval(IntervalError::InvalidDigit));
}

#[test]
fn format_errors_are_told_from_interval_errors() {
    assert!(ConfigError::MissingHeader.is_format_error());
    assert!(ConfigError::HeaderFields.is_format_error());
    assert!(ConfigError::EmptyAlive.is_format_error());
    assert!(ConfigError::EmptyDead.is_format_error());
    assert!(!bad_interval(IntervalError::Empty).is_format_error());
    assert!(!bad_interval(IntervalError::InvalidDigit).is_format_error());
    assert!(!bad_interval(IntervalError::TooLarge).is_format_error());
}

#[test]
fn interval_reads_decimal_digits() {
    assert_eq!(interval("0"), Ok(0));
    assert_eq!(interval("7"), Ok(7));
    assert_eq!(interval("100"), Ok(100));
    assert_eq!(interval("0042"), Ok(42));
    assert_eq!(interval("1234567890"), Ok(1234567890));
}

#[test]
fn interval_takes_a_plus_sign() {
    assert_eq!(interval("+100"), Ok(100));
    assert_eq!(interval("+"), Err(IntervalError::InvalidDigit));
    assert_eq!(interval("++1"), Err(IntervalError::InvalidDigit));
    assert_eq!(interval("1+"), Err(IntervalError::InvalidDigit));
}

#[test]
fn interval_stops_at_64_bits() {
    assert_eq!(interval("18446744073709551615"), Ok(u64::MAX));
    assert_eq!(interval("18446744073709551616"), Err(IntervalError::TooLarge));
    assert_eq!(interval("18446744073709551620"), Err(IntervalError::TooLarge));
    assert_eq!(interval("99999999999999999999"), Err(IntervalError::TooLarge));
    assert_eq!(interval("000018446744073709551615"), Ok(u64::MAX));
    assert_eq!(interval("+18446744073709551616"), Err(IntervalError::TooLarge));
}

#[test]
fn interval_refuses_what_is_no_number() {
    assert_eq!(interval(""), Err(IntervalError::Empty));
    assert_eq!(interval("-5"), Err(IntervalError::InvalidDigit));
    assert_eq!(interval("12a"), Err(IntervalError::InvalidDigit));
    assert_eq!(interval(" 12"), Err(IntervalError::InvalidDigit));
    assert_eq!(interval("12 "), Err(IntervalError::InvalidDigit));
    assert_eq!(interval("1_000"), Err(IntervalError::InvalidDigit));
    assert_eq!(interval("٣"), Err(IntervalError::InvalidDigit));
}

#[test]
fn interval_tells_the_first_fault_from_the_left() {
    assert_eq!(interval("12a99999999999999999999"), Err(IntervalError::InvalidDigit));
    assert_eq!(interval("99999999999999999999a"), Err(IntervalError::TooLarge));
    assert_eq!(interval("18446744073709551615a"), Err(IntervalError::InvalidDigit));
    assert_eq!(interval("18446744073709551616a"), Err(IntervalError::TooLarge));
    assert_eq!(interval("1844674407370955161a"), Err(IntervalError::InvalidDigit));
}

#[test]
fn interval_agrees_with_the_standard_parser() {
    let fields = [
        "", "+", "-", "0", "+0", "-0", "5", "+5", "05", "1e3", "0x10", "18446744073709551615",
        "18446744073709551616", "+18446744073709551615", "184467440737095516150", " 1", "1 ",
        "12a99999999999999999999", "99999999999999999999a", "18446744073709551615a",
        "18446744073709551616a", "1844674407370955161a", "0000000000000000000000001",
    ];
    for field in fields {
        let expected = match field.parse::<u64>() {
            Ok(value) => Ok(value),
            Err(err) => match err.kind() {
                IntErrorKind::Empty => Err(IntervalError::Empty),
                IntErrorKind::InvalidDigit => Err(IntervalError::InvalidDigit),
                IntErrorKind::PosOverflow => Err(IntervalError::TooLarge),
                other => panic!("field {:?}: {:?}", field, other),
            },
        };
        assert_eq!(interval(field), expected, "field {:?}", field);
    }
}
