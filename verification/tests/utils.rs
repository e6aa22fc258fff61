use json5::ErrorCode as Code;
use nxpch::json::{pick_members, Element, Member, Nodes, Value};
use nxpch::utils::{
    all_but_last_assert, closest_key, ensure_ordered, json5_error_to_offset, order_tuple, AsNum,
    Combine, SourceSpan,
};

#[test]
fn test_combine() {
    assert_eq!((0, 5).combine((10, 5)), SourceSpan::new(0, 15));
    assert_eq!((20, 0).combine((0, 0)), SourceSpan::new(0, 20));
    assert_eq!((5, 20).combine((10, 5)), SourceSpan::new(5, 20));
    assert_eq!((10, 5).combine((5, 20)), SourceSpan::new(5, 20));
    assert_eq!((10..20).combine(15..30), SourceSpan::new(10, 20));
}

#[test]
fn spans_are_ordered_by_offset_first() {
    assert!(SourceSpan::new(1, 9) < SourceSpan::new(2, 0));
    assert!(SourceSpan::new(1, 1) < SourceSpan::new(1, 2));
    assert_eq!(SourceSpan::new(4, 2).offset(), 4);
    assert_eq!(SourceSpan::new(4, 2).len(), 2);
}

#[test]
fn values_are_put_in_order() {
    assert_eq!(order_tuple((5, 3)), (3, 5));
    assert_eq!(order_tuple((3, 5)), (3, 5));
    let (mut a, mut b) = (2, 1);
    ensure_ordered(&mut a, &mut b);
    assert_eq!((a, b), (1, 2));
}

#[test]
fn the_last_item_is_dropped() {
    assert_eq!(all_but_last_assert(&[1, 2, 3], 3), &[1, 2]);
}

#[test]
fn numbers_keep_their_lowest_bits() {
    let a: u8 = (-1i8).as_num();
    assert_eq!(a, 255);
    let b: u8 = 0x1234u32.as_num();
    assert_eq!(b, 0x34);
    let c: i16 = AsNum::<i16>::as_num(AsNum::<u16>::as_num(-300i16));
    assert_eq!(c, -300);
}

#[test]
fn the_closest_key_is_the_first_of_the_closest() {
    let keys = ["byte", "short", "int", "long"];
    assert_eq!(closest_key("bite", &keys), "byte");
    assert_eq!(closest_key("itn", &keys), "int");
    assert_eq!(closest_key("zzzzzzzzz", &["aa", "bb"]), "aa");
    assert_eq!(nxpch::closest::index_of_smallest(&[4, 2, 7, 2]), 1);
}

#[test]
fn places_of_errors() {
    let error = nxpch::json::Json5Error {
        message: "m".to_string(),
        position: Some((1, 2)),
        code: None,
    };
    assert_eq!(json5_error_to_offset(&error, "ab\ncdef", 100), 105);
    let at_end = nxpch::json::Json5Error {
        message: "m".to_string(),
        position: None,
        code: Some("EOF parsing array".to_string()),
    };
    assert_eq!(json5_error_to_offset(&at_end, "ab\ncdef", 100), 107);
    let other = nxpch::json::Json5Error {
        message: "m".to_string(),
        position: None,
        code: Some("custom".to_string()),
    };
    assert_eq!(json5_error_to_offset(&other, "ab\ncdef", 100), 100);
}

#[test]
fn errors_at_the_end_are_known_by_their_codes() {
    let offset = |code: Code| {
        let error = nxpch::json::Json5Error {
            message: String::new(),
            position: None,
            code: Some(code.to_string()),
        };
        json5_error_to_offset(&error, "abc", 10)
    };
    for code in [
        Code::EofParsingArray,
        Code::EofParsingBool,
        Code::EofParsingComment,
        Code::EofParsingEscapeSequence,
        Code::EofParsingIdentifier,
        Code::EofParsingNull,
        Code::EofParsingNumber,
        Code::EofParsingObject,
        Code::EofParsingString,
        Code::EofParsingValue,
    ] {
        assert_eq!(offset(code), 13);
    }
    for code in [
        Code::ExpectedBool,
        Code::ExpectedClosingBrace,
        Code::ExpectedClosingBracket,
        Code::ExpectedColon,
        Code::ExpectedComma,
        Code::ExpectedComment,
        Code::ExpectedIdentifier,
        Code::ExpectedNull,
        Code::ExpectedNumber,
        Code::ExpectedOpeningBrace,
        Code::ExpectedOpeningBracket,
        Code::ExpectedString,
        Code::ExpectedStringOrObject,
        Code::ExpectedValue,
        Code::InvalidBytes,
        Code::InvalidEscapeSequence,
        Code::InvalidKey,
        Code::LeadingZero,
        Code::LineTerminatorInString,
        Code::OverflowParsingNumber,
        Code::TrailingCharacters,
    ] {
        assert_eq!(offset(code), 10);
    }
}

#[test]
fn members_are_picked_by_name() {
    let object = |names: &[&str]| {
        Element::Object(
            names.iter().map(|n| (n.to_string(), Value::List(vec![Some(Some((1, 2))), None]))).collect(),
        )
    };
    let value = Nodes::Array(vec![
        object(&["a", "b"]),
        Element::Other,
        object(&["b"]),
        Element::Object(vec![("a".to_string(), Value::Other)]),
    ]);
    let found = pick_members(Some(value), "a").unwrap();
    assert_eq!(found.len(), 4);
    assert!(matches!(&found[0], Member::List(v) if *v == [Some(Some((1, 2))), None]));
    assert!(matches!(found[1], Member::NoObject));
    assert!(matches!(found[2], Member::Missing));
    assert!(matches!(found[3], Member::Other));
    assert!(pick_members(Some(Nodes::Other), "a").is_none());
    assert!(pick_members(None, "a").is_none());
}
