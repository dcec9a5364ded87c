use torrent::bdecode::{bdecode_element, BdecodingError, ErrorKind};
use torrent::bencode::{bencode_element, BencodeValue};

fn kind_of(input: &[u8]) -> ErrorKind {
    bdecode_element(input).unwrap_err().error_kind()
}

// ------------------ INTEGER TESTS ------------------

#[test]
fn test_valid_integers() {
    assert_eq!(bdecode_element(b"i0e").unwrap(), BencodeValue::Integer(0));
    assert_eq!(bdecode_element(b"i42e").unwrap(), BencodeValue::Integer(42));
    assert_eq!(bdecode_element(b"i-5e").unwrap(), BencodeValue::Integer(-5));
}

#[test]
fn test_invalid_integers() {
    assert!(bdecode_element(b"i042e").is_err()); // leading zero
    assert!(bdecode_element(b"i-042e").is_err()); // negative with leading zero
    assert!(bdecode_element(b"i00e").is_err()); // double zero
    assert!(bdecode_element(b"i-0e").is_err()); // -0 invalid
    assert!(bdecode_element(b"i5").is_err()); // missing terminator
    assert!(bdecode_element(b"iabcde").is_err()); // non-numeric
}

#[test]
fn non_canonical_integers_are_integer_errors() {
    assert_eq!(kind_of(b"i042e"), ErrorKind::IntegerError);
    assert_eq!(kind_of(b"i-042e"), ErrorKind::IntegerError);
    assert_eq!(kind_of(b"i00e"), ErrorKind::IntegerError);
    assert_eq!(kind_of(b"i-0e"), ErrorKind::IntegerError);
    assert_eq!(kind_of(b"iabcde"), ErrorKind::IntegerError);
    assert_eq!(kind_of(b"ie"), ErrorKind::IntegerError);
    assert_eq!(kind_of(b"i-e"), ErrorKind::IntegerError);
    assert_eq!(kind_of(b"i+5e"), ErrorKind::IntegerError);
    assert_eq!(kind_of(b"i 5e"), ErrorKind::IntegerError);
    assert_eq!(kind_of(b"i5"), ErrorKind::MissingTerminator);
    assert_eq!(kind_of(b"i"), ErrorKind::MissingTerminator);
}

#[test]
fn integers_at_the_ends_of_the_range() {
    assert_eq!(
        bdecode_element(b"i9223372036854775807e").unwrap(),
        BencodeValue::Integer(i64::MAX)
    );
    assert_eq!(
        bdecode_element(b"i-9223372036854775808e").unwrap(),
        BencodeValue::Integer(i64::MIN)
    );
    assert_eq!(kind_of(b"i9223372036854775808e"), ErrorKind::IntegerError);
    assert_eq!(kind_of(b"i-9223372036854775809e"), ErrorKind::IntegerError);
    assert_eq!(kind_of(b"i99999999999999999999999999999999999999999e"), ErrorKind::IntegerError);
}

// ------------------ BYTE STRING TESTS ------------------

#[test]
fn test_valid_bytestrings() {
    assert_eq!(
        bdecode_element(b"4:spam").unwrap(),
        BencodeValue::ByteString(b"spam".to_vec())
    );
    assert_eq!(bdecode_element(b"0:").unwrap(), BencodeValue::ByteString(Vec::new()));
    assert_eq!(
        bdecode_element(b"11:hello world").unwrap(),
        BencodeValue::ByteString(b"hello world".to_vec())
    );
}

#[test]
fn test_invalid_bytestrings() {
    assert!(bdecode_element(b"4spa").is_err()); // missing colon
    assert!(bdecode_element(b"4:spa").is_err()); // short content
    assert!(bdecode_element(b"-1:abc").is_err()); // negative len
    assert!(bdecode_element(b"x:spam").is_err()); // invalid number prefix
}

#[test]
fn byte_string_error_kinds() {
    assert_eq!(kind_of(b"4spa"), ErrorKind::MissingTerminator);
    assert_eq!(kind_of(b"4:spa"), ErrorKind::ByteStringError);
    assert_eq!(kind_of(b"-1:abc"), ErrorKind::ByteStringError);
    assert_eq!(kind_of(b"x:spam"), ErrorKind::IntegerError);
    assert_eq!(kind_of(b"04:spam"), ErrorKind::IntegerError);
    assert_eq!(kind_of(b"-0:"), ErrorKind::IntegerError);
    assert_eq!(kind_of(b":spam"), ErrorKind::IntegerError);
    assert_eq!(kind_of(b"99999999999999999999:a"), ErrorKind::IntegerError);
    assert_eq!(kind_of(b"9223372036854775807:a"), ErrorKind::ByteStringError);
}

#[test]
fn bytes_after_a_byte_string_are_rejected() {
    assert_eq!(kind_of(b"4:spamX"), ErrorKind::ByteStringError);
    assert_eq!(kind_of(b"4:spami5e"), ErrorKind::ByteStringError);
    assert_eq!(kind_of(b"0:0:"), ErrorKind::ByteStringError);
}

#[test]
fn byte_string_body_may_hold_any_byte() {
    assert_eq!(
        bdecode_element(b"5:\x00\xff:ie").unwrap(),
        BencodeValue::ByteString(vec![0u8, 255, b':', b'i', b'e'])
    );
}

// ------------------ LIST TESTS ------------------

#[test]
fn test_valid_lists() {
    assert_eq!(bdecode_element(b"le").unwrap(), BencodeValue::List(vec![]));
    assert_eq!(
        bdecode_element(b"li42ee").unwrap(),
        BencodeValue::List(vec![BencodeValue::Integer(42)])
    );
    assert_eq!(
        bdecode_element(b"l4:spami42ee").unwrap(),
        BencodeValue::List(vec![
            BencodeValue::ByteString(b"spam".to_vec()),
            BencodeValue::Integer(42)
        ])
    );
    assert_eq!(
        bdecode_element(b"ll4:hiieee").unwrap(),
        BencodeValue::List(vec![BencodeValue::List(vec![BencodeValue::ByteString(
            b"hiie".to_vec()
        )])])
    );
}

#[test]
fn test_invalid_lists() {
    assert!(bdecode_element(b"l4:spam").is_err()); // missing terminator
    assert!(bdecode_element(b"li042ee").is_err()); // invalid element
}

#[test]
fn list_error_kinds() {
    assert_eq!(kind_of(b"l4:spam"), ErrorKind::MissingTerminator);
    assert_eq!(kind_of(b"l"), ErrorKind::MissingTerminator);
    assert_eq!(kind_of(b"li042ee"), ErrorKind::IntegerError);
    assert_eq!(kind_of(b"li5e"), ErrorKind::MissingTerminator);
    assert_eq!(kind_of(b"lee"), ErrorKind::MissingTerminator);
    assert_eq!(kind_of(b"l4:spae"), ErrorKind::ByteStringError);
    assert_eq!(kind_of(b"leie"), ErrorKind::MissingTerminator);
}

#[test]
fn scanner_error_of_a_nested_list_comes_before_its_items() {
    // The inner list is scanned as a whole before its first item is decoded.
    assert_eq!(kind_of(b"lli042e4:spaee"), ErrorKind::MissingTerminator);
}

// ------------------ DICTIONARY TESTS ------------------

#[test]
fn test_valid_dictionaries() {
    assert_eq!(bdecode_element(b"de").unwrap(), BencodeValue::Dictionary(Vec::new()));

    let mut dict = Vec::new();
    dict.push((b"cow".to_vec(), BencodeValue::ByteString(b"moo".to_vec())));
    dict.push((b"spam".to_vec(), BencodeValue::ByteString(b"eggs".to_vec())));
    assert_eq!(
        bdecode_element(b"d3:cow3:moo4:spam4:eggse").unwrap(),
        BencodeValue::Dictionary(dict)
    );
}

#[test]
fn test_non_utf8_length_prefix_fails() {
    let encoded = b"\xFF:abc";
    let res = bdecode_element(encoded);

    assert!(res.is_err());

    match res {
        Err(BdecodingError::IntegerError(msg)) => {
            assert!(
                msg.contains("UTF-8") || msg.contains("integer"),
                "unexpected error message: {}",
                msg
            );
        }
        other => panic!("expected IntegerError but got: {:?}", other),
    }
}

#[test]
fn test_invalid_dictionaries() {
    assert!(bdecode_element(b"di42e4:spame").is_err()); // non-string key
    assert!(bdecode_element(b"d4:spam4:eggs").is_err()); // missing e
    assert!(bdecode_element(b"d4:zoo4:eggs3:foo4:barre").is_err()); // unsorted keys
}

#[test]
fn dictionary_error_kinds() {
    assert_eq!(kind_of(b"di42e4:spame"), ErrorKind::DictionaryError);
    assert_eq!(kind_of(b"dle4:spame"), ErrorKind::DictionaryError);
    assert_eq!(kind_of(b"di4:2ei0ee"), ErrorKind::DictionaryError);
    assert_eq!(kind_of(b"d4:spam4:eggs"), ErrorKind::MissingTerminator);
    assert_eq!(kind_of(b"d3:zoo4:eggs3:foo3:bare"), ErrorKind::DictionaryError);
    assert_eq!(kind_of(b"d3:cow3:moo3:cow3:mooe"), ErrorKind::DictionaryError);
    assert_eq!(kind_of(b"d3:cowe"), ErrorKind::DictionaryError);
    assert_eq!(kind_of(b"d3:cowi042ee"), ErrorKind::IntegerError);
    assert_eq!(kind_of(b"dx:cow3:mooe"), ErrorKind::IntegerError);
}

#[test]
fn dictionary_keys_are_compared_bytewise() {
    // A proper prefix comes first; 'Z' (0x5a) comes before 'a' (0x61).
    let ok = bdecode_element(b"d1:Zi1e1:ai2e2:abi3ee").unwrap();
    assert_eq!(
        ok,
        BencodeValue::Dictionary(vec![
            (b"Z".to_vec(), BencodeValue::Integer(1)),
            (b"a".to_vec(), BencodeValue::Integer(2)),
            (b"ab".to_vec(), BencodeValue::Integer(3)),
        ])
    );
    assert_eq!(kind_of(b"d2:abi3e1:ai2ee"), ErrorKind::DictionaryError);
    assert_eq!(kind_of(b"d1:ai1e1:Zi2ee"), ErrorKind::DictionaryError);
    assert_eq!(kind_of(b"d0:i1e0:i2ee"), ErrorKind::DictionaryError);
    // The empty key is the least key.
    assert!(bdecode_element(b"d0:i1e1:\x00i2ee").is_ok());
}

// ------------------ MIXED / EDGE CASES ------------------

#[test]
fn test_empty_input() {
    assert_eq!(bdecode_element(b"").unwrap(), BencodeValue::ByteString(Vec::new()));
}

#[test]
fn test_invalid_concatenated_items() {
    assert!(bdecode_element(b"i5ei9e").is_err()); // invalid concatenation
}

#[test]
fn concatenated_items_by_kind() {
    assert_eq!(kind_of(b"i5ei9e"), ErrorKind::IntegerError);
    assert_eq!(kind_of(b"lele"), ErrorKind::MissingTerminator);
    assert_eq!(kind_of(b"dede"), ErrorKind::MissingTerminator);
    assert_eq!(kind_of(b"i5e4:spam"), ErrorKind::MissingTerminator);
}

#[test]
fn test_nested_structures() {
    let val = BencodeValue::Dictionary(Vec::from([(
        b"list".to_vec(),
        BencodeValue::List(vec![
            BencodeValue::ByteString(b"spam".to_vec()),
            BencodeValue::ByteString(b"eggs".to_vec()),
        ]),
    )]));

    assert_eq!(bdecode_element(b"d4:listl4:spam4:eggsee").unwrap(), val);
}

#[test]
fn inner_e_bytes_do_not_close_a_container() {
    assert_eq!(
        bdecode_element(b"l3:eeeli1eee").unwrap(),
        BencodeValue::List(vec![
            BencodeValue::ByteString(b"eee".to_vec()),
            BencodeValue::List(vec![BencodeValue::Integer(1)]),
        ])
    );
    assert_eq!(
        bdecode_element(b"d1:ed1:e1:eee").unwrap(),
        BencodeValue::Dictionary(vec![(
            b"e".to_vec(),
            BencodeValue::Dictionary(vec![(
                b"e".to_vec(),
                BencodeValue::ByteString(b"e".to_vec())
            )]),
        )])
    );
}

// ------------------ ROUND-TRIP ENCODE/DECODE ------------------

#[test]
fn test_round_trip() {
    let value = BencodeValue::List(vec![
        BencodeValue::Integer(42),
        BencodeValue::ByteString(b"spam".to_vec()),
    ]);
    let encoded = bencode_element(&value);
    let decoded = bdecode_element(&encoded).unwrap();
    assert_eq!(decoded, value);
}

#[test]
fn round_trip_from_a_value() {
    let value = BencodeValue::Dictionary(vec![
        (b"".to_vec(), BencodeValue::Integer(i64::MIN)),
        (b"a".to_vec(), BencodeValue::List(vec![])),
        (
            b"b".to_vec(),
            BencodeValue::Dictionary(vec![(b"x".to_vec(), BencodeValue::ByteString(vec![0, 101, 58]))]),
        ),
        (b"ba".to_vec(), BencodeValue::Integer(i64::MAX)),
    ]);
    let encoded = bencode_element(&value);
    assert_eq!(encoded, b"d0:i-9223372036854775808e1:ale1:bd1:x3:\x00e:e2:bai9223372036854775807ee".to_vec());
    assert_eq!(bdecode_element(&encoded).unwrap(), value);
}

#[test]
fn round_trip_from_bytes() {
    let inputs: Vec<&[u8]> = vec![
        b"i0e",
        b"i-5e",
        b"0:",
        b"4:spam",
        b"le",
        b"de",
        b"d4:listl4:spam4:eggsee",
        b"ll4:hiieee",
        b"d3:cow3:moo4:spam4:eggse",
    ];
    for input in inputs {
        let value = bdecode_element(input).unwrap();
        assert_eq!(bencode_element(&value), input.to_vec());
    }
}

#[test]
fn empty_input_does_not_round_trip() {
    let value = bdecode_element(b"").unwrap();
    assert_eq!(bencode_element(&value), b"0:".to_vec());
}

#[test]
fn error_carries_kind_and_message() {
    let err = bdecode_element(b"4:spa").unwrap_err();
    assert_eq!(err.error_kind(), ErrorKind::ByteStringError);
    assert!(err.message().ends_with("4:spa"));
    assert!(matches!(err, BdecodingError::ByteStringError(_)));
}
