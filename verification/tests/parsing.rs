use tsp::parsing::{get_num_points, parse_usize, ParseError};

#[test]
fn gets_correct_num_points() {
    let line = "DIMENSIONS : 123";
    assert_eq!(123, get_num_points(Some(line)).unwrap());
}

#[test]
fn missing_line_is_reported() {
    assert_eq!(Err(ParseError::MissingLine), get_num_points(None));
}

#[test]
fn line_without_separator_is_reported() {
    assert_eq!(Err(ParseError::MissingField), get_num_points(Some("DIMENSIONS 123")));
}

#[test]
fn unreadable_count_is_reported() {
    assert_eq!(Err(ParseError::BadNumber), get_num_points(Some("DIMENSIONS : abc")));
    assert_eq!(Err(ParseError::BadNumber), get_num_points(Some("DIMENSIONS : ")));
}

#[test]
fn second_field_ends_at_next_separator() {
    assert_eq!(7, get_num_points(Some("NAME : 7 : EUC_2D")).unwrap());
}

#[test]
fn count_is_trimmed() {
    assert_eq!(42, get_num_points(Some("DIMENSIONS :  42 ")).unwrap());
}

#[test]
fn parses_plain_number() {
    assert_eq!(Some(42), parse_usize("42"));
    assert_eq!(Some(0), parse_usize("0"));
}

#[test]
fn parses_number_with_plus_sign() {
    assert_eq!(Some(7), parse_usize("+7"));
}

#[test]
fn rejects_empty_and_garbage() {
    assert_eq!(None, parse_usize(""));
    assert_eq!(None, parse_usize("+"));
    assert_eq!(None, parse_usize("12a"));
    assert_eq!(None, parse_usize("-3"));
    assert_eq!(None, parse_usize(" 5"));
}

#[test]
fn rejects_overflowing_number() {
    assert_eq!(None, parse_usize("99999999999999999999999999"));
}
