//! Header-block parsing and the scanning helpers it rests on.

use esl_codec::{get_header_end, parse_body, parse_header, parse_usize_bytes, trim, DecodeError};

#[test]
fn header_end_is_second_newline_of_first_blank_line() {
    assert_eq!(get_header_end(&b"ab\n\ncd".to_vec()), Some(3));
    assert_eq!(get_header_end(&b"\n\n".to_vec()), Some(1));
    assert_eq!(get_header_end(&b"ab\ncd".to_vec()), None);
    assert_eq!(get_header_end(&b"".to_vec()), None);
}

#[test]
fn parse_header_builds_trimmed_mapping() {
    let hm = parse_header(&b"Key: value\n Other :  spaced  ".to_vec()).unwrap();
    assert_eq!(hm.get(&b"Key".to_vec()), Some(&b"value".to_vec()));
    assert_eq!(hm.get(&b"Other".to_vec()), Some(&b"spaced".to_vec()));
    assert_eq!(hm.get(&b"Missing".to_vec()), None);
}

#[test]
fn parse_header_later_field_wins() {
    let hm = parse_header(&b"A: 1\nB: x\nA: 2".to_vec()).unwrap();
    assert_eq!(hm.get(&b"A".to_vec()), Some(&b"2".to_vec()));
    assert_eq!(hm.get(&b"B".to_vec()), Some(&b"x".to_vec()));
}

#[test]
fn parse_header_truncates_value_at_second_colon() {
    let hm = parse_header(&b"Some-Field: a:b:c".to_vec()).unwrap();
    assert_eq!(hm.get(&b"Some-Field".to_vec()), Some(&b"a".to_vec()));
}

#[test]
fn parse_header_keeps_empty_value() {
    let hm = parse_header(&b"Key:".to_vec()).unwrap();
    assert_eq!(hm.get(&b"Key".to_vec()), Some(&b"".to_vec()));
}

#[test]
fn parse_header_rejects_line_without_colon() {
    assert!(matches!(
        parse_header(&b"Key: value\nbroken line".to_vec()),
        Err(DecodeError::MalformedHeader)
    ));
    assert!(matches!(
        parse_header(&b"".to_vec()),
        Err(DecodeError::MalformedHeader)
    ));
}

#[test]
fn trim_strips_surrounding_whitespace_only() {
    assert_eq!(trim(&b"  a b \t".to_vec()), b"a b".to_vec());
    assert_eq!(trim(&b"\t\r ".to_vec()), b"".to_vec());
    assert_eq!(trim(&b"solid".to_vec()), b"solid".to_vec());
}

#[test]
fn parse_usize_reads_decimal_with_optional_plus() {
    assert_eq!(parse_usize_bytes(&b"0".to_vec()), Some(0));
    assert_eq!(parse_usize_bytes(&b"42".to_vec()), Some(42));
    assert_eq!(parse_usize_bytes(&b"+7".to_vec()), Some(7));
    assert_eq!(parse_usize_bytes(&b"".to_vec()), None);
    assert_eq!(parse_usize_bytes(&b"+".to_vec()), None);
    assert_eq!(parse_usize_bytes(&b"4x2".to_vec()), None);
    assert_eq!(parse_usize_bytes(&b" 5".to_vec()), None);
    assert_eq!(
        parse_usize_bytes(&b"99999999999999999999999999".to_vec()),
        None
    );
}

#[test]
fn parse_body_skips_two_bytes_and_takes_length_minus_one() {
    // The slice handed over starts at the header boundary newline.
    assert_eq!(parse_body(&b"\nHELLO".to_vec(), 5), "ELLO".to_string());
    assert_eq!(parse_body(&b"\nX".to_vec(), 1), "".to_string());
}
