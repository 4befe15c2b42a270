use ez_bencoding::json::{escape_char, escape_string, gen_blanks};
use ez_bencoding::navigate::gen_item_indexes;
use ez_bencoding::scan::{check_integer, parse_uint};
use ez_bencoding::{BdecodeError, BdecodeToken};
use std::sync::Arc;

#[test]
fn utils_test_parse_int() {
    let buffer = b"i1234e";
    let mut val: i64 = 0;
    assert_eq!(5, parse_uint(buffer, 1, b'e', &mut val).unwrap());
    assert_eq!(1234, val);

    let buffer = b"1234:i2e";
    let mut val: i64 = 1;
    assert_eq!(4, parse_uint(buffer, 1, b':', &mut val).unwrap());
    assert_eq!(1234, val);

    let buffer = b"d1234:i2e";
    let mut val: i64 = 0;
    assert!(matches!(parse_uint(buffer, 0, b':', &mut val), Err(BdecodeError::ExpectedDigit(_))));
}

#[test]
fn utils_test_check_integer() {
    let buffer = b"i-11e";
    assert_eq!(4, check_integer(buffer, 1).unwrap());

    let buffer = b"i1234e";
    let err = check_integer(buffer, 0).unwrap_err();
    assert!(matches!(err, BdecodeError::ExpectedDigit(_)));

    let buffer = b"i1234e";
    assert_eq!(5, check_integer(buffer, 1).unwrap());

    let buffer = b"i012345678901234567890123456789e";
    let err = check_integer(buffer, 1).unwrap_err();
    assert!(matches!(err, BdecodeError::Overflow(_)));

    let buffer = b"";
    let err = check_integer(buffer, 1).unwrap_err();
    assert!(matches!(err, BdecodeError::UnexpectedEof(_)));

    let buffer = b"i1234e";
    let err = check_integer(buffer, 6).unwrap_err();
    assert!(matches!(err, BdecodeError::UnexpectedEof(_)));
}

#[test]
fn utils_test_gen_item_indexes() {
    let tokens = vec![BdecodeToken::new_str(0, 1), BdecodeToken::new_end(1)];
    assert_eq!(gen_item_indexes(&tokens, 0), (Arc::new(vec![]), 0));

    let tokens = vec![
        BdecodeToken::new_dict(0, 11),
        BdecodeToken::new_str(1, 1),
        BdecodeToken::new_str(5, 1),
        BdecodeToken::new_str(9, 1),
        BdecodeToken::new_list(13, 4),
        BdecodeToken::new_int(14),
        BdecodeToken::new_int(17),
        BdecodeToken::new_end(20),
        BdecodeToken::new_str(21, 1),
        BdecodeToken::new_int(25),
        BdecodeToken::new_end(28),
        BdecodeToken::new_end(29),
    ];
    assert_eq!(gen_item_indexes(&tokens, 0), (Arc::new(vec![1, 3, 8]), 3));

    let tokens = vec![
        BdecodeToken::new_list(0, 9),
        BdecodeToken::new_int(1),
        BdecodeToken::new_list(4, 3),
        BdecodeToken::new_int(5),
        BdecodeToken::new_end(8),
        BdecodeToken::new_dict(9, 4),
        BdecodeToken::new_str(10, 1),
        BdecodeToken::new_int(14),
        BdecodeToken::new_end(17),
        BdecodeToken::new_end(18),
    ];
    assert_eq!(gen_item_indexes(&tokens, 0), (Arc::new(vec![1, 2, 5]), 3));
}

#[test]
fn parse_uint_overflow_and_text() {
    let mut val: i64 = 0;
    let err = parse_uint(b"99999999999999999999:", 0, b':', &mut val).unwrap_err();
    match err {
        BdecodeError::Overflow(text) => assert_eq!("99999999999999999999", text),
        other => panic!("unexpected {:?}", other),
    }
    let mut val: i64 = 0;
    assert_eq!(19, parse_uint(b"9223372036854775807e", 0, b'e', &mut val).unwrap());
    assert_eq!(i64::MAX, val);
}

#[test]
fn check_integer_limits() {
    // 20 digits is the most an integer may have
    assert_eq!(21, check_integer(b"i12345678901234567890e", 1).unwrap());
    match check_integer(b"i-123456789012345678901e", 1).unwrap_err() {
        BdecodeError::Overflow(text) => assert_eq!("-123456789012345678901", text),
        other => panic!("unexpected {:?}", other),
    }
    assert!(matches!(check_integer(b"i12", 1), Err(BdecodeError::UnexpectedEof(3))));
    assert!(matches!(check_integer(b"i-", 1), Err(BdecodeError::UnexpectedEof(2))));
    assert!(matches!(check_integer(b"i1x2e", 1), Err(BdecodeError::ExpectedDigit(2))));
}

#[test]
fn escaping() {
    assert_eq!(" ", escape_char(b' '));
    assert_eq!("\\x22", escape_char(b'"'));
    assert_eq!("\\x04", escape_char(0x04));
    assert_eq!("\\xff", escape_char(0xff));
    assert_eq!("a", escape_char(b'a'));
    assert_eq!("~", escape_char(b'~'));
    assert_eq!("a b\\x0a\\x22", escape_string(b"a b\n\""));
    assert_eq!("", escape_string(b""));
    assert_eq!("    ", gen_blanks(4));
    assert_eq!("", gen_blanks(0));
}
