use torrent::bencode::{
    bencode_bytestr, bencode_dict, bencode_element, bencode_i64, bencode_list, get_bytestring,
    get_dictionary, get_integer, get_list, get_utf8_lossy, BencodeValue, KindMismatch, ValueKind,
};

#[test]
fn encode_integer() {
    assert_eq!(bencode_element(&BencodeValue::Integer(42)), b"i42e".to_vec());
}

#[test]
fn encode_byte_string() {
    assert_eq!(
        bencode_element(&BencodeValue::ByteString(b"spam".to_vec())),
        b"4:spam".to_vec()
    );
}

#[test]
fn encode_list() {
    assert_eq!(
        bencode_element(&BencodeValue::List(vec![
            BencodeValue::ByteString(b"spam".to_vec()),
            BencodeValue::Integer(42),
        ])),
        b"l4:spami42ee".to_vec()
    );
}

#[test]
fn encode_integers_exactly() {
    assert_eq!(bencode_i64(0), b"i0e".to_vec());
    assert_eq!(bencode_i64(-5), b"i-5e".to_vec());
    assert_eq!(bencode_i64(10), b"i10e".to_vec());
    assert_eq!(bencode_i64(-100), b"i-100e".to_vec());
    assert_eq!(bencode_i64(i64::MAX), b"i9223372036854775807e".to_vec());
    assert_eq!(bencode_i64(i64::MIN), b"i-9223372036854775808e".to_vec());
}

#[test]
fn encode_byte_strings_exactly() {
    assert_eq!(bencode_bytestr(&Vec::new()), b"0:".to_vec());
    assert_eq!(bencode_bytestr(&b"hello world".to_vec()), b"11:hello world".to_vec());
    assert_eq!(bencode_bytestr(&vec![0u8, 255]), vec![b'2', b':', 0, 255]);
}

#[test]
fn encode_empty_containers() {
    assert_eq!(bencode_list(&Vec::new()), b"le".to_vec());
    assert_eq!(bencode_dict(&Vec::new()), b"de".to_vec());
}

#[test]
fn encode_dictionary_in_stored_order() {
    let dict = vec![
        (b"cow".to_vec(), BencodeValue::ByteString(b"moo".to_vec())),
        (b"spam".to_vec(), BencodeValue::ByteString(b"eggs".to_vec())),
    ];
    assert_eq!(bencode_dict(&dict), b"d3:cow3:moo4:spam4:eggse".to_vec());
    assert_eq!(
        bencode_element(&BencodeValue::Dictionary(dict)),
        b"d3:cow3:moo4:spam4:eggse".to_vec()
    );
}

#[test]
fn accessors_return_the_payload() {
    let list = BencodeValue::List(vec![BencodeValue::Integer(1)]);
    let dict = BencodeValue::Dictionary(vec![(b"k".to_vec(), BencodeValue::Integer(2))]);
    assert_eq!(get_integer(&BencodeValue::Integer(-7)), Ok(-7));
    assert_eq!(get_bytestring(&BencodeValue::ByteString(b"ab".to_vec())), Ok(b"ab".to_vec()));
    assert_eq!(get_list(&list), Ok(vec![BencodeValue::Integer(1)]));
    assert_eq!(get_dictionary(&dict), Ok(vec![(b"k".to_vec(), BencodeValue::Integer(2))]));
}

#[test]
fn accessors_report_a_mismatch() {
    let int = BencodeValue::Integer(1);
    let text = BencodeValue::ByteString(Vec::new());
    assert_eq!(
        get_dictionary(&int),
        Err(KindMismatch { expected: ValueKind::Dictionary, found: ValueKind::Integer })
    );
    assert_eq!(
        get_list(&text),
        Err(KindMismatch { expected: ValueKind::List, found: ValueKind::ByteString })
    );
    assert_eq!(
        get_integer(&BencodeValue::List(Vec::new())),
        Err(KindMismatch { expected: ValueKind::Integer, found: ValueKind::List })
    );
    assert_eq!(
        get_bytestring(&BencodeValue::Dictionary(Vec::new())),
        Err(KindMismatch { expected: ValueKind::ByteString, found: ValueKind::Dictionary })
    );
    assert_eq!(
        get_utf8_lossy(&int),
        Err(KindMismatch { expected: ValueKind::ByteString, found: ValueKind::Integer })
    );
}

#[test]
fn lossy_text_replaces_invalid_bytes() {
    assert_eq!(
        get_utf8_lossy(&BencodeValue::ByteString(b"caf\xc3\xa9".to_vec())),
        Ok("caf\u{e9}".to_string())
    );
    assert_eq!(
        get_utf8_lossy(&BencodeValue::ByteString(b"a\xffb".to_vec())),
        Ok("a\u{fffd}b".to_string())
    );
}

#[test]
fn clone_is_a_deep_copy() {
    let value = BencodeValue::Dictionary(vec![(
        b"k".to_vec(),
        BencodeValue::List(vec![BencodeValue::ByteString(b"v".to_vec()), BencodeValue::Integer(3)]),
    )]);
    let copy = value.clone();
    assert_eq!(copy, value);
    assert_eq!(copy.kind(), ValueKind::Dictionary);
}
