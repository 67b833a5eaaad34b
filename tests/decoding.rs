use bencoding::{bencode_decode, BencodingValue, DecodeError, ErrorKind};

fn decoded(input: &str) -> (BencodingValue, &[u8]) {
    bencode_decode(input.as_bytes()).unwrap()
}

fn failure(input: &str) -> DecodeError {
    bencode_decode(input.as_bytes()).unwrap_err()
}

#[test]
fn test_dictionary() {
    // Arrange
    let dict = "d3:cow3:moo4:spam4:eggse";
    let map = vec![
        (String::from("cow"), BencodingValue::String(String::from("moo"))),
        (String::from("spam"), BencodingValue::String(String::from("eggs"))),
    ];
    let expected = BencodingValue::Dictionary(map);

    // Act
    let (result, _) = decoded(dict);

    // Assert
    assert_eq!(result, expected);
}

#[test]
fn test_list() {
    let list = "li15e5:Helloe";
    let expected = BencodingValue::List(vec![
        BencodingValue::Integer(15),
        BencodingValue::String(String::from("Hello")),
    ]);
    let (result, _) = decoded(list);
    assert_eq!(result, expected);
}

#[test]
fn test_nested_list() {
    let input = "li-4ei35elee";
    let expected = BencodingValue::List(vec![
        BencodingValue::Integer(-4),
        BencodingValue::Integer(35),
        BencodingValue::List(Vec::new()),
    ]);
    let (result, _) = decoded(input);
    assert_eq!(result, expected);
}

#[test]
fn test_string_value() {
    let value = "4:spam";
    let expected = BencodingValue::String(String::from("spam"));
    let (answer, _) = decoded(value);
    assert_eq!(answer, expected);
}

#[test]
fn test_empty_string() {
    let value = "0:";
    let expected = BencodingValue::String(String::from(""));
    let (answer, _) = decoded(value);
    assert_eq!(answer, expected);
}

#[test]
fn test_postive_integer() {
    let (answer, _) = decoded("i15e");
    assert_eq!(answer, BencodingValue::Integer(15));
}

#[test]
fn remainders_are_empty_after_one_whole_value() {
    for input in ["0:", "4:spam", "i15e", "i-4e", "li15e5:Helloe", "li-4ei35elee", "d3:cow3:moo4:spam4:eggse"] {
        let (_, rest) = decoded(input);
        assert!(rest.is_empty(), "{}", input);
    }
}

#[test]
fn negative_integer() {
    assert_eq!(decoded("i-4e"), (BencodingValue::Integer(-4), &b""[..]));
}

#[test]
fn trailing_sibling_is_not_consumed() {
    let (value, rest) = decoded("i1e5:extra");
    assert_eq!(value, BencodingValue::Integer(1));
    assert_eq!(rest, b"5:extra");
    let (next, last) = bencode_decode(rest).unwrap();
    assert_eq!(next, BencodingValue::String(String::from("extra")));
    assert!(last.is_empty());
}

#[test]
fn string_payload_is_opaque() {
    let (value, rest) = decoded("7:li1e:de3:x");
    assert_eq!(value, BencodingValue::String(String::from("li1e:de")));
    assert_eq!(rest, b"3:x");
}

#[test]
fn integer_limits() {
    assert_eq!(decoded("i9223372036854775807e").0, BencodingValue::Integer(i64::MAX));
    assert_eq!(decoded("i-9223372036854775808e").0, BencodingValue::Integer(i64::MIN));
    assert_eq!(decoded("i007e").0, BencodingValue::Integer(7));
    assert_eq!(decoded("i-0e").0, BencodingValue::Integer(0));
}

#[test]
fn declared_length_past_the_end_is_truncated() {
    assert_eq!(failure("5:ab"), DecodeError { kind: ErrorKind::TruncatedInput, offset: 0 });
    assert_eq!(failure("99999999999999999999999:ab").kind, ErrorKind::TruncatedInput);
}

#[test]
fn empty_input_is_truncated() {
    assert_eq!(failure(""), DecodeError { kind: ErrorKind::TruncatedInput, offset: 0 });
}

#[test]
fn unterminated_list_is_truncated() {
    assert_eq!(failure("li1e"), DecodeError { kind: ErrorKind::TruncatedInput, offset: 4 });
    assert_eq!(failure("d3:cow3:moo"), DecodeError { kind: ErrorKind::TruncatedInput, offset: 11 });
}

#[test]
fn invalid_integers() {
    for input in ["ie", "i-e", "i+5e", "i1x2e", "i12", "i9223372036854775808e", "i-9223372036854775809e"] {
        assert_eq!(failure(input), DecodeError { kind: ErrorKind::InvalidInteger, offset: 0 }, "{}", input);
    }
}

#[test]
fn invalid_lengths() {
    assert_eq!(failure("3x:abc"), DecodeError { kind: ErrorKind::InvalidLength, offset: 0 });
    assert_eq!(failure("12"), DecodeError { kind: ErrorKind::InvalidLength, offset: 0 });
}

#[test]
fn unrecognized_leading_byte() {
    assert_eq!(failure("x"), DecodeError { kind: ErrorKind::UnrecognizedLeadingByte, offset: 0 });
    assert_eq!(failure("l:e"), DecodeError { kind: ErrorKind::UnrecognizedLeadingByte, offset: 1 });
}

#[test]
fn dangling_dictionary_key_is_truncated() {
    assert_eq!(failure("d3:keye"), DecodeError { kind: ErrorKind::TruncatedInput, offset: 6 });
}

#[test]
fn non_string_dictionary_key() {
    assert_eq!(failure("di5ei6ee"), DecodeError { kind: ErrorKind::InvalidDictionaryKey, offset: 1 });
}

#[test]
fn payload_that_is_not_text() {
    let bytes: &[u8] = b"2:\xff\xfe";
    assert_eq!(bencode_decode(bytes).unwrap_err(), DecodeError { kind: ErrorKind::InvalidText, offset: 0 });
    let split: &[u8] = "1:\u{e9}".as_bytes();
    assert_eq!(bencode_decode(split).unwrap_err().kind, ErrorKind::InvalidText);
}

#[test]
fn text_payload_keeps_its_bytes() {
    let (value, rest) = decoded("2:\u{e9}i1e");
    assert_eq!(value, BencodingValue::String(String::from("\u{e9}")));
    assert_eq!(rest, b"i1e");
}

#[test]
fn duplicate_keys_keep_the_last_value() {
    let (value, _) = decoded("d1:ai1e1:bi2e1:ai3ee");
    let expected = BencodingValue::Dictionary(vec![
        (String::from("a"), BencodingValue::Integer(3)),
        (String::from("b"), BencodingValue::Integer(2)),
    ]);
    assert_eq!(value, expected);
}

#[test]
fn empty_containers() {
    assert_eq!(decoded("le").0, BencodingValue::List(Vec::new()));
    assert_eq!(decoded("de").0, BencodingValue::Dictionary(Vec::new()));
}

#[test]
fn nesting_limit() {
    let deep = bencoding::MAX_DEPTH;
    let ok = format!("{}{}", "l".repeat(deep), "e".repeat(deep));
    assert!(bencode_decode(ok.as_bytes()).is_ok());
    let too_deep = format!("{}{}", "l".repeat(deep + 1), "e".repeat(deep + 1));
    assert_eq!(
        bencode_decode(too_deep.as_bytes()).unwrap_err(),
        DecodeError { kind: ErrorKind::NestingTooDeep, offset: deep }
    );
}
