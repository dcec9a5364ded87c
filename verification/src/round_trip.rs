//! The encoder and the decoder are inverse to each other.
//!
//! Every well-formed value has one encoding, and decoding it gives the value
//! back; every buffer that decodes, the empty one apart, is the encoding of
//! what it decodes to.

use vstd::prelude::*;
use crate::bdecode::ErrorKind;
use crate::bencode::{encode, encode_byte_string, encode_entries, encode_integer, encode_items};
use crate::decimal::{
    decimal, is_digit, lemma_decimal_canonical, lemma_decimal_parse, lemma_parse_decimal,
    parse_int,
};
use crate::grammar::{
    byte_string_bounds, closing_offset, decode_byte_string, decode_element, decode_entries,
    decode_integer, decode_items, element_span, first_index, lemma_decode_entries_step,
    lemma_decode_items_step, lemma_first_index_some, lemma_first_index_unique, COLON, DICT_START,
    END, INT_START, LIST_START,
};
use crate::lexical::{lemma_lex_lt_transitive, lex_lt};
use crate::value::{keys_ascending, Value};

verus! {

/// The scanner finds the body of an encoded byte string, whatever follows it.
pub proof fn lemma_scan_byte_string(body: Seq<u8>, rest: Seq<u8>)
    requires
        body.len() <= i64::MAX,
    ensures
        byte_string_bounds(encode_byte_string(body) + rest) == Ok::<(int, int), ErrorKind>(
            (decimal(body.len() as int).len() as int + 1, encode_byte_string(body).len() as int),
        ),
        encode_byte_string(body).len() == decimal(body.len() as int).len() + 1 + body.len(),
        is_digit(encode_byte_string(body)[0]),
{
    reveal(byte_string_bounds);
    let text = decimal(body.len() as int);
    let s = encode_byte_string(body) + rest;
    let colon = text.len() as int;
    lemma_decimal_canonical(body.len() as int);
    assert(s[colon] == COLON);
    assert forall|j: int| 0 <= j < colon implies s[j] != COLON by {
        assert(s[j] == text[j]);
        if j > 0 {
            assert(is_digit(text[j]));
        }
    }
    lemma_first_index_unique(s, COLON, colon);
    assert(s.subrange(0, colon) =~= text);
    lemma_parse_decimal(body.len() as int);
    assert(encode_byte_string(body)[0] == text[0]);
}

/// The scanner finds the end of an encoded integer, whatever follows it.
pub proof fn lemma_scan_integer(n: int, rest: Seq<u8>)
    ensures
        first_index(encode_integer(n) + rest, END) == Some(decimal(n).len() as int + 1),
        encode_integer(n).len() == decimal(n).len() + 2,
{
    let text = decimal(n);
    let s = encode_integer(n) + rest;
    let end = text.len() as int + 1;
    lemma_decimal_canonical(n);
    assert(s[end] == END);
    assert forall|j: int| 0 <= j < end implies s[j] != END by {
        if j > 0 {
            assert(s[j] == text[j - 1]);
            if j > 1 {
                assert(is_digit(text[j - 1]));
            }
        }
    }
    lemma_first_index_unique(s, END, end);
}

/// The values of `items` are all well formed.
pub open spec fn items_well_formed(items: Seq<Value>) -> bool {
    forall|i: int| 0 <= i < items.len() ==> (#[trigger] items[i]).well_formed()
}

/// The keys and values of `entries` are all well formed.
pub open spec fn entries_well_formed(entries: Seq<(Seq<u8>, Value)>) -> bool {
    &&& forall|i: int| 0 <= i < entries.len() ==> (#[trigger] entries[i]).0.len() <= i64::MAX
    &&& forall|i: int| 0 <= i < entries.len() ==> (#[trigger] entries[i]).1.well_formed()
}

/// An encoding is not empty and starts with a digit, `i`, `l` or `d`.
pub proof fn lemma_encoding_starts(v: Value)
    requires
        v.well_formed(),
    ensures
        encode(v).len() > 0,
        encode(v)[0] != END,
        match v {
            Value::Integer(_) => encode(v)[0] == INT_START,
            Value::ByteString(_) => is_digit(encode(v)[0]),
            Value::List(_) => encode(v)[0] == LIST_START,
            Value::Dictionary(_) => encode(v)[0] == DICT_START,
        },
{
    match v {
        Value::ByteString(s) => {
            lemma_scan_byte_string(s, Seq::empty());
        },
        _ => {},
    }
}

/// The scanner takes the encoding of a well-formed value as one element,
/// whatever follows it.
pub proof fn lemma_scan_encoding(v: Value, rest: Seq<u8>)
    requires
        v.well_formed(),
    ensures
        element_span(encode(v) + rest) == Ok::<int, ErrorKind>(encode(v).len() as int),
    decreases v, 0int,
{
    let s = encode(v) + rest;
    lemma_encoding_starts(v);
    assert(s[0] == encode(v)[0]);
    match v {
        Value::Integer(n) => {
            lemma_scan_integer(n, rest);
        },
        Value::ByteString(body) => {
            lemma_scan_byte_string(body, rest);
        },
        Value::List(items) => {
            lemma_scan_items(items, rest);
            assert(s.skip(1) =~= encode_items(items) + seq![END] + rest);
        },
        Value::Dictionary(entries) => {
            lemma_scan_entries(entries, rest);
            assert(s.skip(1) =~= encode_entries(entries) + seq![END] + rest);
        },
    }
}

/// The scanner skips the encoded items of a list up to the `e` that closes
/// it.
pub proof fn lemma_scan_items(items: Seq<Value>, rest: Seq<u8>)
    requires
        items_well_formed(items),
    ensures
        closing_offset(encode_items(items) + seq![END] + rest) == Ok::<int, ErrorKind>(
            encode_items(items).len() as int,
        ),
    decreases items, 1int,
{
    let s = encode_items(items) + seq![END] + rest;
    if items.len() == 0 {
        assert(s[0] == END);
    } else {
        let first = items[0];
        let others = items.drop_first();
        let after = encode_items(others) + seq![END] + rest;
        assert(first.well_formed());
        assert forall|i: int| 0 <= i < others.len() implies (#[trigger] others[i]).well_formed() by {
            assert(others[i] == items[i + 1]);
        }
        lemma_encoding_starts(first);
        lemma_scan_encoding(first, after);
        lemma_scan_items(others, rest);
        assert(s =~= encode(first) + after);
        assert(s[0] == encode(first)[0]);
        assert(s.skip(encode(first).len() as int) =~= after);
    }
}

/// The scanner skips the encoded entries of a dictionary up to the `e` that
/// closes it.
pub proof fn lemma_scan_entries(entries: Seq<(Seq<u8>, Value)>, rest: Seq<u8>)
    requires
        entries_well_formed(entries),
    ensures
        closing_offset(encode_entries(entries) + seq![END] + rest) == Ok::<int, ErrorKind>(
            encode_entries(entries).len() as int,
        ),
    decreases entries, 1int,
{
    let s = encode_entries(entries) + seq![END] + rest;
    if entries.len() == 0 {
        assert(s[0] == END);
    } else {
        let key = entries[0].0;
        let val = entries[0].1;
        let others = entries.drop_first();
        let after_val = encode_entries(others) + seq![END] + rest;
        let after_key = encode(val) + after_val;
        assert(val.well_formed());
        assert(entries_well_formed(others)) by {
            assert forall|i: int| 0 <= i < others.len() implies (#[trigger] others[i]).0.len()
                <= i64::MAX && others[i].1.well_formed() by {
                assert(others[i] == entries[i + 1]);
            }
        }
        lemma_scan_byte_string(key, after_key);
        lemma_encoding_starts(val);
        lemma_scan_encoding(val, after_val);
        lemma_scan_entries(others, rest);
        let k = encode_byte_string(key);
        assert(s =~= k + after_key);
        assert(s[0] == k[0]);
        assert(s.skip(k.len() as int) =~= after_key);
        assert(after_key[0] == encode(val)[0]);
        assert(after_key.skip(encode(val).len() as int) =~= after_val);
        assert(closing_offset(after_key) == Ok::<int, ErrorKind>(
            (encode(val).len() + encode_entries(others).len()) as int,
        ));
        assert(element_span(s) == Ok::<int, ErrorKind>(k.len() as int));
    }
}

/// Decoding the encoding of a byte string gives the byte string back.
pub proof fn lemma_decode_encoded_byte_string(body: Seq<u8>)
    requires
        body.len() <= i64::MAX,
    ensures
        decode_byte_string(encode_byte_string(body)) == Ok::<Value, ErrorKind>(
            Value::ByteString(body),
        ),
{
    let s = encode_byte_string(body);
    lemma_scan_byte_string(body, Seq::empty());
    assert(s + Seq::<u8>::empty() =~= s);
    assert(s.subrange(decimal(body.len() as int).len() as int + 1, s.len() as int) =~= body);
}

/// Decoding the encoding of an integer gives the integer back.
pub proof fn lemma_decode_encoded_integer(n: int)
    requires
        i64::MIN <= n <= i64::MAX,
    ensures
        decode_integer(encode_integer(n)) == Ok::<Value, ErrorKind>(Value::Integer(n)),
{
    let s = encode_integer(n);
    assert(s.subrange(1, s.len() - 1) =~= decimal(n));
    lemma_parse_decimal(n);
}

/// Decoding the encoding of a well-formed value gives the value back: for
/// every such `v`, the decoder accepts `encode(v)` and returns `v`.
pub proof fn decode_of_encode(v: Value)
    requires
        v.well_formed(),
    ensures
        decode_element(encode(v)) == Ok::<Value, ErrorKind>(v),
    decreases v, 0int,
{
    let s = encode(v);
    lemma_encoding_starts(v);
    match v {
        Value::Integer(n) => {
            lemma_decode_encoded_integer(n);
        },
        Value::ByteString(body) => {
            lemma_decode_encoded_byte_string(body);
        },
        Value::List(items) => {
            lemma_decode_encoded_items(items);
            assert(s.subrange(1, s.len() - 1) =~= encode_items(items));
        },
        Value::Dictionary(entries) => {
            lemma_decode_encoded_entries(entries, None);
            assert(s.subrange(1, s.len() - 1) =~= encode_entries(entries));
        },
    }
}

/// Decoding the encoded items of a list gives the items back.
pub proof fn lemma_decode_encoded_items(items: Seq<Value>)
    requires
        items_well_formed(items),
    ensures
        decode_items(encode_items(items)) == Ok::<Seq<Value>, ErrorKind>(items),
    decreases items, 1int,
{
    let s = encode_items(items);
    if items.len() == 0 {
        assert(items =~= Seq::<Value>::empty());
    } else {
        let first = items[0];
        let others = items.drop_first();
        let after = encode_items(others);
        let head = encode(first);
        let n = head.len() as int;
        assert(s == head + after);
        assert(first.well_formed());
        assert(items_well_formed(others)) by {
            assert forall|i: int| 0 <= i < others.len() implies (#[trigger] others[i]).well_formed() by {
                assert(others[i] == items[i + 1]);
            }
        }
        lemma_encoding_starts(first);
        assert(element_span(s) == Ok::<int, ErrorKind>(n)) by {
            lemma_scan_encoding(first, after);
        }
        assert(decode_element(s.subrange(0, n)) == Ok::<Value, ErrorKind>(first)) by {
            decode_of_encode(first);
            assert(s.subrange(0, n) =~= head);
        }
        assert(decode_items(s.skip(n)) == Ok::<Seq<Value>, ErrorKind>(others)) by {
            lemma_decode_encoded_items(others);
            assert(s.skip(n) =~= after);
        }
        lemma_decode_items_step(s, n, first);
        assert(seq![first] + others =~= items);
    }
}

/// Decoding the encoded entries of a dictionary gives the entries back,
/// where their keys ascend and come after `last`.
pub proof fn lemma_decode_encoded_entries(entries: Seq<(Seq<u8>, Value)>, last: Option<Seq<u8>>)
    requires
        entries_well_formed(entries),
        keys_ascending(entries),
        last is Some && entries.len() > 0 ==> lex_lt(last->Some_0, entries[0].0),
    ensures
        decode_entries(encode_entries(entries), last) == Ok::<Seq<(Seq<u8>, Value)>, ErrorKind>(
            entries,
        ),
    decreases entries, 1int,
{
    let s = encode_entries(entries);
    if entries.len() == 0 {
        assert(entries =~= Seq::<(Seq<u8>, Value)>::empty());
    } else {
        let key = entries[0].0;
        let val = entries[0].1;
        let others = entries.drop_first();
        let after_val = encode_entries(others);
        let v = encode(val);
        let after_key = v + after_val;
        let k = encode_byte_string(key);
        let n = k.len() as int;
        let m = v.len() as int;
        assert(s == k + v + after_val);
        assert(s =~= k + after_key);
        assert(val.well_formed());
        assert(key.len() <= i64::MAX);
        assert(entries_well_formed(others)) by {
            assert forall|i: int| 0 <= i < others.len() implies (#[trigger] others[i]).0.len()
                <= i64::MAX && others[i].1.well_formed() by {
                assert(others[i] == entries[i + 1]);
            }
        }
        assert(keys_ascending(others)) by {
            assert forall|i: int, j: int| 0 <= i < j < others.len() implies lex_lt(
                (#[trigger] others[i]).0,
                (#[trigger] others[j]).0,
            ) by {
                assert(others[i] == entries[i + 1]);
                assert(others[j] == entries[j + 1]);
            }
        }
        assert(others.len() > 0 ==> lex_lt(key, others[0].0)) by {
            if others.len() > 0 {
                assert(others[0] == entries[1]);
            }
        }
        lemma_encoding_starts(val);
        assert(element_span(s) == Ok::<int, ErrorKind>(n)) by {
            lemma_scan_byte_string(key, after_key);
            assert(s[0] == k[0]);
        }
        assert(element_span(s.skip(n)) == Ok::<int, ErrorKind>(m)) by {
            lemma_scan_encoding(val, after_val);
            assert(s.skip(n) =~= after_key);
        }
        assert(decode_byte_string(s.subrange(0, n)) == Ok::<Value, ErrorKind>(
            Value::ByteString(key),
        )) by {
            lemma_decode_encoded_byte_string(key);
            assert(s.subrange(0, n) =~= k);
        }
        assert(decode_element(s.subrange(n, n + m)) == Ok::<Value, ErrorKind>(val)) by {
            decode_of_encode(val);
            assert(s.subrange(n, n + m) =~= v);
        }
        assert(decode_entries(s.skip(n + m), Some(key)) == Ok::<
            Seq<(Seq<u8>, Value)>,
            ErrorKind,
        >(others)) by {
            lemma_decode_encoded_entries(others, Some(key));
            assert(s.skip(n + m) =~= after_val);
        }
        lemma_decode_entries_step(s, last, n, m, key, val);
        assert(seq![(key, val)] + others =~= entries);
    }
}

/// A buffer that decodes as a byte string is the encoding of that byte
/// string.
pub proof fn lemma_encode_decoded_byte_string(s: Seq<u8>)
    requires
        decode_byte_string(s) is Ok,
    ensures
        decode_byte_string(s) matches Ok(Value::ByteString(body)) && encode_byte_string(body) == s
            && body.len() <= i64::MAX,
{
    reveal(byte_string_bounds);
    lemma_first_index_some(s, COLON);
    let colon = first_index(s, COLON)->Some_0;
    let text = s.subrange(0, colon);
    let body = s.subrange(colon + 1, s.len() as int);
    lemma_decimal_parse(text);
    assert(encode_byte_string(body) =~= s);
}

/// A buffer that decodes as an integer is the encoding of that integer.
pub proof fn lemma_encode_decoded_integer(s: Seq<u8>)
    requires
        decode_integer(s) is Ok,
    ensures
        decode_integer(s) matches Ok(Value::Integer(n)) && encode_integer(n) == s && i64::MIN <= n
            <= i64::MAX,
{
    let text = s.subrange(1, s.len() - 1);
    lemma_decimal_parse(text);
    assert(encode_integer(parse_int(text)->Some_0) =~= s);
}

/// Encoding what a buffer decodes to gives the buffer back: every buffer
/// that the decoder accepts, the empty one apart, is the encoding of the
/// value returned, and that value is well formed. The empty buffer decodes
/// to the empty byte string, whose encoding is `0:`.
pub proof fn encode_of_decode(s: Seq<u8>)
    requires
        s.len() > 0,
        decode_element(s) is Ok,
    ensures
        encode(decode_element(s)->Ok_0) == s,
        decode_element(s)->Ok_0.well_formed(),
    decreases s.len(), 2int,
{
    if s[0] == INT_START {
        lemma_encode_decoded_integer(s);
    } else if s[0] == LIST_START {
        let inner = s.subrange(1, s.len() - 1);
        lemma_encode_decoded_items(inner);
        let items = decode_items(inner)->Ok_0;
        assert(seq![LIST_START] + encode_items(items) + seq![END] =~= s);
    } else if s[0] == DICT_START {
        let inner = s.subrange(1, s.len() - 1);
        lemma_encode_decoded_entries(inner, None);
        let entries = decode_entries(inner, None)->Ok_0;
        assert(seq![DICT_START] + encode_entries(entries) + seq![END] =~= s);
    } else {
        lemma_encode_decoded_byte_string(s);
    }
}

/// A buffer that decodes as a run of items is the encoding of those items,
/// and they are well formed.
pub proof fn lemma_encode_decoded_items(s: Seq<u8>)
    requires
        decode_items(s) is Ok,
    ensures
        encode_items(decode_items(s)->Ok_0) == s,
        items_well_formed(decode_items(s)->Ok_0),
    decreases s.len(), 3int,
{
    if s.len() == 0 {
        assert(encode_items(Seq::<Value>::empty()) =~= s);
    } else {
        let n = element_span(s)->Ok_0;
        let first = decode_element(s.subrange(0, n))->Ok_0;
        let others = decode_items(s.skip(n))->Ok_0;
        let items = seq![first] + others;
        assert(decode_items(s) == Ok::<Seq<Value>, ErrorKind>(items));
        encode_of_decode(s.subrange(0, n));
        lemma_encode_decoded_items(s.skip(n));
        assert(items[0] == first);
        assert(items.drop_first() =~= others);
        assert(encode_items(items) == encode(first) + encode_items(others));
        assert(s.subrange(0, n) + s.skip(n) =~= s);
        assert forall|i: int| 0 <= i < items.len() implies (#[trigger] items[i]).well_formed() by {
            if i > 0 {
                assert(items[i] == others[i - 1]);
            }
        }
    }
}

/// A buffer that decodes as a run of entries is the encoding of those
/// entries; they are well formed, and their keys ascend and come after
/// `last`.
pub proof fn lemma_encode_decoded_entries(s: Seq<u8>, last: Option<Seq<u8>>)
    requires
        decode_entries(s, last) is Ok,
    ensures
        encode_entries(decode_entries(s, last)->Ok_0) == s,
        entries_well_formed(decode_entries(s, last)->Ok_0),
        keys_ascending(decode_entries(s, last)->Ok_0),
        last is Some ==> forall|i: int|
            0 <= i < decode_entries(s, last)->Ok_0.len() ==> lex_lt(
                last->Some_0,
                (#[trigger] decode_entries(s, last)->Ok_0[i]).0,
            ),
    decreases s.len(), 3int,
{
    if s.len() == 0 {
        assert(encode_entries(Seq::<(Seq<u8>, Value)>::empty()) =~= s);
    } else {
        let n = element_span(s)->Ok_0;
        let m = element_span(s.skip(n))->Ok_0;
        let key = decode_byte_string(s.subrange(0, n))->Ok_0->ByteString_0;
        let val = decode_element(s.subrange(n, n + m))->Ok_0;
        let others = decode_entries(s.skip(n + m), Some(key))->Ok_0;
        let entries = seq![(key, val)] + others;
        assert(decode_entries(s, last) == Ok::<Seq<(Seq<u8>, Value)>, ErrorKind>(entries));
        lemma_encode_decoded_byte_string(s.subrange(0, n));
        encode_of_decode(s.subrange(n, n + m));
        lemma_encode_decoded_entries(s.skip(n + m), Some(key));
        assert(entries[0] == (key, val));
        assert(entries.drop_first() =~= others);
        assert(encode_entries(entries) == encode_byte_string(key) + encode(val) + encode_entries(
            others,
        ));
        assert(s.subrange(0, n) + s.subrange(n, n + m) + s.skip(n + m) =~= s);
        assert forall|i: int| 0 <= i < entries.len() implies (#[trigger] entries[i]).0.len()
            <= i64::MAX && entries[i].1.well_formed() by {
            if i > 0 {
                assert(entries[i] == others[i - 1]);
            }
        }
        assert forall|i: int, j: int| 0 <= i < j < entries.len() implies lex_lt(
            (#[trigger] entries[i]).0,
            (#[trigger] entries[j]).0,
        ) by {
            assert(entries[j] == others[j - 1]);
            if i > 0 {
                assert(entries[i] == others[i - 1]);
            }
        }
        if last is Some {
            assert forall|i: int| 0 <= i < entries.len() implies lex_lt(
                last->Some_0,
                (#[trigger] entries[i]).0,
            ) by {
                if i > 0 {
                    assert(entries[i] == others[i - 1]);
                    lemma_lex_lt_transitive(last->Some_0, key, others[i - 1].0);
                }
            }
        }
    }
}

/// Whatever decodes is well formed, the value of the empty buffer included.
pub proof fn decoded_is_well_formed(s: Seq<u8>)
    requires
        decode_element(s) is Ok,
    ensures
        decode_element(s)->Ok_0.well_formed(),
{
    if s.len() > 0 {
        encode_of_decode(s);
    }
}

/// Two well-formed values with the same encoding are the same value.
pub proof fn encode_injective(v: Value, w: Value)
    requires
        v.well_formed(),
        w.well_formed(),
        encode(v) == encode(w),
    ensures
        v == w,
{
    decode_of_encode(v);
    decode_of_encode(w);
}

/// The decoder accepts exactly the empty buffer and the encodings of the
/// well-formed values; so it rejects every other way to write a value, and
/// every buffer in which something follows the first element.
pub proof fn decodes_iff_canonical(s: Seq<u8>)
    ensures
        decode_element(s) is Ok <==> s.len() == 0 || exists|v: Value|
            v.well_formed() && #[trigger] encode(v) == s,
{
    if decode_element(s) is Ok {
        if s.len() > 0 {
            encode_of_decode(s);
            let v = decode_element(s)->Ok_0;
            assert(v.well_formed() && encode(v) == s);
        }
    }
    if exists|v: Value| v.well_formed() && #[trigger] encode(v) == s {
        let v = choose|v: Value| v.well_formed() && #[trigger] encode(v) == s;
        decode_of_encode(v);
    }
}

} // verus!
