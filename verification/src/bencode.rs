//! Bencode values and their canonical encoding.

use vstd::prelude::*;
use vstd::slice::slice_to_vec;
use vstd::utf8::{decode_utf8, valid_utf8};
use crate::decimal::{append_decimal, append_digits, decimal};
use crate::grammar::{COLON, DICT_START, END, INT_START, LIST_START};
use crate::lexical::{bytes_less, lemma_lex_lt_transitive, lex_lt};
use crate::value::Value;

verus! {

/// A Bencode value.
///
/// A dictionary holds its entries in a vector, in the order in which they are
/// encoded. A value is in canonical form when `self@.well_formed()`: the keys
/// of each dictionary are then strictly ascending in bytewise order.
#[derive(PartialEq, Eq, Debug)]
pub enum BencodeValue {
    Integer(i64),
    ByteString(Vec<u8>),
    List(Vec<BencodeValue>),
    Dictionary(Vec<(Vec<u8>, BencodeValue)>),
}

/// The text that std's lossy UTF-8 conversion makes of `bytes`: valid
/// sequences decoded, each invalid one replaced by U+FFFD.
pub uninterp spec fn utf8_lossy(bytes: Seq<u8>) -> Seq<char>;

/// `String::from_utf8_lossy`: the result is a function of the bytes alone,
/// named `utf8_lossy` here, and valid UTF-8 comes out as the text that it
/// encodes. Nothing else is claimed of it.
#[verifier::external_body]
pub(crate) fn lossy_string(bytes: &[u8]) -> (r: String)
    ensures
        r@ == utf8_lossy(bytes@),
        valid_utf8(bytes@) ==> r@ == decode_utf8(bytes@),
{
    String::from_utf8_lossy(bytes).into_owned()
}

/// The models of the items of a list, in order.
pub open spec fn items_view(items: Seq<BencodeValue>) -> Seq<Value>
    decreases items,
{
    Seq::new(
        items.len(),
        |i: int|
            if 0 <= i < items.len() {
                items[i]@
            } else {
                Value::Integer(0)
            },
    )
}

/// The models of the entries of a dictionary, in order.
pub open spec fn entries_view(entries: Seq<(Vec<u8>, BencodeValue)>) -> Seq<(Seq<u8>, Value)>
    decreases entries,
{
    Seq::new(
        entries.len(),
        |i: int|
            if 0 <= i < entries.len() {
                (entries[i].0@, entries[i].1@)
            } else {
                (Seq::empty(), Value::Integer(0))
            },
    )
}

impl View for BencodeValue {
    type V = Value;

    open spec fn view(&self) -> Value
        decreases self,
    {
        match self {
            BencodeValue::Integer(n) => Value::Integer(*n as int),
            BencodeValue::ByteString(s) => Value::ByteString(s@),
            BencodeValue::List(items) => Value::List(items_view(items@)),
            BencodeValue::Dictionary(entries) => Value::Dictionary(entries_view(entries@)),
        }
    }
}

/// The four kinds of value.
#[derive(Clone, Copy, PartialEq, Eq, Debug, Structural)]
pub enum ValueKind {
    Integer,
    ByteString,
    List,
    Dictionary,
}

/// A value was of another kind than the caller expected.
#[derive(Clone, Copy, PartialEq, Eq, Debug, Structural)]
pub struct KindMismatch {
    pub expected: ValueKind,
    pub found: ValueKind,
}

impl Value {
    /// The kind of the value.
    pub open spec fn kind(self) -> ValueKind {
        match self {
            Value::Integer(_) => ValueKind::Integer,
            Value::ByteString(_) => ValueKind::ByteString,
            Value::List(_) => ValueKind::List,
            Value::Dictionary(_) => ValueKind::Dictionary,
        }
    }
}

/// A deep copy of the items of a list.
pub fn duplicate_items(items: &Vec<BencodeValue>) -> (r: Vec<BencodeValue>)
    ensures
        items_view(r@) == items_view(items@),
    decreases items,
{
    let mut copy: Vec<BencodeValue> = Vec::new();
    let mut i: usize = 0;
    while i < items.len()
        invariant
            i <= items@.len(),
            copy@.len() == i,
            forall|j: int| 0 <= j < i ==> (#[trigger] copy@[j])@ == items@[j]@,
        decreases items@.len() - i,
    {
        let item = &items[i];
        proof {
            assert(decreases_to!(*items => items[i as int]));
        }
        copy.push(item.duplicate());
        i += 1;
    }
    assert(items_view(copy@) =~= items_view(items@));
    copy
}

/// A deep copy of the entries of a dictionary.
pub fn duplicate_entries(entries: &Vec<(Vec<u8>, BencodeValue)>) -> (r: Vec<
    (Vec<u8>, BencodeValue),
>)
    ensures
        entries_view(r@) == entries_view(entries@),
    decreases entries,
{
    let mut copy: Vec<(Vec<u8>, BencodeValue)> = Vec::new();
    let mut i: usize = 0;
    while i < entries.len()
        invariant
            i <= entries@.len(),
            copy@.len() == i,
            forall|j: int|
                0 <= j < i ==> (#[trigger] copy@[j]).0@ == entries@[j].0@ && copy@[j].1@
                    == entries@[j].1@,
        decreases entries@.len() - i,
    {
        let entry = &entries[i];
        proof {
            assert(decreases_to!(*entries => entries[i as int]));
            assert(decreases_to!(*entry => entry.1));
        }
        let key = slice_to_vec(entry.0.as_slice());
        let val = entry.1.duplicate();
        copy.push((key, val));
        i += 1;
    }
    assert(entries_view(copy@) =~= entries_view(entries@));
    copy
}

impl BencodeValue {
    /// A deep copy of the value.
    pub fn duplicate(&self) -> (r: BencodeValue)
        ensures
            r@ == self@,
        decreases self,
    {
        match self {
            BencodeValue::Integer(n) => BencodeValue::Integer(*n),
            BencodeValue::ByteString(s) => BencodeValue::ByteString(slice_to_vec(s.as_slice())),
            BencodeValue::List(items) => BencodeValue::List(duplicate_items(items)),
            BencodeValue::Dictionary(entries) => BencodeValue::Dictionary(
                duplicate_entries(entries),
            ),
        }
    }

    /// Whether the value is in canonical form: every byte string short
    /// enough for a 64-bit length prefix, the keys of every dictionary
    /// strictly ascending.
    pub fn is_well_formed(&self) -> (r: bool)
        ensures
            r == self@.well_formed(),
        decreases self,
    {
        match self {
            BencodeValue::Integer(_) => true,
            BencodeValue::ByteString(s) => s.len() as u64 <= 9223372036854775807,
            BencodeValue::List(items) => items_well_formed(items),
            BencodeValue::Dictionary(entries) => entries_well_formed(entries),
        }
    }

    /// The kind of the value.
    pub fn kind(&self) -> (k: ValueKind)
        ensures
            k == self@.kind(),
    {
        match self {
            BencodeValue::Integer(_) => ValueKind::Integer,
            BencodeValue::ByteString(_) => ValueKind::ByteString,
            BencodeValue::List(_) => ValueKind::List,
            BencodeValue::Dictionary(_) => ValueKind::Dictionary,
        }
    }
}

/// Whether every item of a list is in canonical form.
pub fn items_well_formed(items: &Vec<BencodeValue>) -> (r: bool)
    ensures
        r == Value::List(items_view(items@)).well_formed(),
    decreases items,
{
    let mut i: usize = 0;
    while i < items.len()
        invariant
            i <= items@.len(),
            forall|j: int| 0 <= j < i ==> (#[trigger] items_view(items@)[j]).well_formed(),
        decreases items@.len() - i,
    {
        let item = &items[i];
        proof {
            assert(decreases_to!(*items => items[i as int]));
        }
        assert(items_view(items@)[i as int] == item@);
        if !item.is_well_formed() {
            proof {
                let list = Value::List(items_view(items@));
                assert(!list->List_0[i as int].well_formed());
                assert(!list.well_formed());
            }
            return false;
        }
        i += 1;
    }
    true
}

/// Whether the entries of a dictionary are in canonical form: each key
/// strictly after the one before it, each key short enough for a 64-bit
/// length prefix, each value in canonical form.
pub fn entries_well_formed(entries: &Vec<(Vec<u8>, BencodeValue)>) -> (r: bool)
    ensures
        r == Value::Dictionary(entries_view(entries@)).well_formed(),
    decreases entries,
{
    let ghost all = entries_view(entries@);
    let mut i: usize = 0;
    while i < entries.len()
        invariant
            all == entries_view(entries@),
            i <= entries@.len(),
            forall|j: int| 0 <= j < i ==> (#[trigger] all[j]).0.len() <= i64::MAX,
            forall|j: int| 0 <= j < i ==> (#[trigger] all[j]).1.well_formed(),
            forall|j: int, k: int|
                0 <= j < k < i ==> lex_lt((#[trigger] all[j]).0, (#[trigger] all[k]).0),
        decreases entries@.len() - i,
    {
        let entry = &entries[i];
        proof {
            assert(decreases_to!(*entries => entries[i as int]));
            assert(decreases_to!(*entry => entry.1));
            assert(all[i as int] == (entry.0@, entry.1@));
        }
        if entry.0.len() as u64 > 9223372036854775807 {
            assert(!(all[i as int].0.len() <= i64::MAX));
            return false;
        }
        if !entry.1.is_well_formed() {
            assert(!all[i as int].1.well_formed());
            return false;
        }
        if i > 0 {
            let before = &entries[i - 1];
            assert(all[i - 1] == (before.0@, before.1@));
            if !bytes_less(before.0.as_slice(), entry.0.as_slice()) {
                assert(!lex_lt(all[i - 1].0, all[i as int].0));
                return false;
            }
            proof {
                assert forall|j: int| 0 <= j < i implies lex_lt(
                    (#[trigger] all[j]).0,
                    all[i as int].0,
                ) by {
                    if j < i - 1 {
                        lemma_lex_lt_transitive(all[j].0, all[i - 1].0, all[i as int].0);
                    }
                }
            }
        }
        i += 1;
    }
    true
}

impl Clone for BencodeValue {
    fn clone(&self) -> (r: Self)
        ensures
            r@ == self@,
    {
        self.duplicate()
    }
}

/// The value of the first entry of `entries` whose key is `key`, if there is
/// one. Where the keys ascend there is at most one such entry.
pub open spec fn lookup(entries: Seq<(Seq<u8>, Value)>, key: Seq<u8>) -> Option<Value>
    decreases entries.len(),
{
    if entries.len() == 0 {
        None
    } else if entries[0].0 == key {
        Some(entries[0].1)
    } else {
        lookup(entries.drop_first(), key)
    }
}

/// Whether two byte slices hold the same bytes.
pub fn bytes_equal(a: &[u8], b: &[u8]) -> (r: bool)
    ensures
        r == (a@ == b@),
{
    if a.len() != b.len() {
        return false;
    }
    let mut i: usize = 0;
    while i < a.len()
        invariant
            a@.len() == b@.len(),
            i <= a@.len(),
            forall|j: int| 0 <= j < i ==> a@[j] == b@[j],
        decreases a@.len() - i,
    {
        if a[i] != b[i] {
            return false;
        }
        i += 1;
    }
    assert(a@ =~= b@);
    true
}

/// Looks `key` up in the entries of a dictionary.
pub fn dict_get<'a>(entries: &'a Vec<(Vec<u8>, BencodeValue)>, key: &[u8]) -> (r: Option<
    &'a BencodeValue,
>)
    ensures
        match lookup(entries_view(entries@), key@) {
            Some(v) => r matches Some(found) && found@ == v,
            None => r is None,
        },
{
    let mut i: usize = 0;
    assert(entries_view(entries@).skip(0) =~= entries_view(entries@));
    while i < entries.len()
        invariant
            i <= entries@.len(),
            lookup(entries_view(entries@), key@) == lookup(
                entries_view(entries@).skip(i as int),
                key@,
            ),
        decreases entries@.len() - i,
    {
        let ghost rest = entries_view(entries@).skip(i as int);
        assert(rest[0] == entries_view(entries@)[i as int]);
        assert(rest.drop_first() =~= entries_view(entries@).skip(i + 1));
        if bytes_equal(entries[i].0.as_slice(), key) {
            return Some(&entries[i].1);
        }
        i += 1;
    }
    None
}

/// The entries of a dictionary, copied; a mismatch for any other value.
pub fn get_dictionary(b: &BencodeValue) -> (r: Result<Vec<(Vec<u8>, BencodeValue)>, KindMismatch>)
    ensures
        match b@ {
            Value::Dictionary(entries) => r matches Ok(d) && entries_view(d@) == entries,
            _ => r == Err::<Vec<(Vec<u8>, BencodeValue)>, KindMismatch>(
                (KindMismatch { expected: ValueKind::Dictionary, found: b@.kind() }),
            ),
        },
{
    match b {
        BencodeValue::Dictionary(dict) => Ok(duplicate_entries(dict)),
        _ => Err(KindMismatch { expected: ValueKind::Dictionary, found: b.kind() }),
    }
}

/// The items of a list, copied; a mismatch for any other value.
pub fn get_list(b: &BencodeValue) -> (r: Result<Vec<BencodeValue>, KindMismatch>)
    ensures
        match b@ {
            Value::List(items) => r matches Ok(l) && items_view(l@) == items,
            _ => r == Err::<Vec<BencodeValue>, KindMismatch>(
                (KindMismatch { expected: ValueKind::List, found: b@.kind() }),
            ),
        },
{
    match b {
        BencodeValue::List(items) => Ok(duplicate_items(items)),
        _ => Err(KindMismatch { expected: ValueKind::List, found: b.kind() }),
    }
}

/// The number of an integer; a mismatch for any other value.
pub fn get_integer(b: &BencodeValue) -> (r: Result<i64, KindMismatch>)
    ensures
        match b@ {
            Value::Integer(n) => r matches Ok(i) && i == n,
            _ => r == Err::<i64, KindMismatch>(
                (KindMismatch { expected: ValueKind::Integer, found: b@.kind() }),
            ),
        },
{
    match b {
        BencodeValue::Integer(i) => Ok(*i),
        _ => Err(KindMismatch { expected: ValueKind::Integer, found: b.kind() }),
    }
}

/// The bytes of a byte string, copied; a mismatch for any other value.
pub fn get_bytestring(b: &BencodeValue) -> (r: Result<Vec<u8>, KindMismatch>)
    ensures
        match b@ {
            Value::ByteString(s) => r matches Ok(bytes) && bytes@ == s,
            _ => r == Err::<Vec<u8>, KindMismatch>(
                (KindMismatch { expected: ValueKind::ByteString, found: b@.kind() }),
            ),
        },
{
    match b {
        BencodeValue::ByteString(s) => Ok(slice_to_vec(s.as_slice())),
        _ => Err(KindMismatch { expected: ValueKind::ByteString, found: b.kind() }),
    }
}

/// The bytes of a byte string as text, invalid UTF-8 replaced; a mismatch
/// for any other value.
pub fn get_utf8_lossy(b: &BencodeValue) -> (r: Result<String, KindMismatch>)
    ensures
        match b@ {
            Value::ByteString(s) => r matches Ok(text) && text@ == utf8_lossy(s),
            _ => r == Err::<String, KindMismatch>(
                (KindMismatch { expected: ValueKind::ByteString, found: b@.kind() }),
            ),
        },
{
    match b {
        BencodeValue::ByteString(s) => Ok(lossy_string(s.as_slice())),
        _ => Err(KindMismatch { expected: ValueKind::ByteString, found: b.kind() }),
    }
}

/// The encoding of an integer: `i`, its canonical text, `e`.
pub open spec fn encode_integer(n: int) -> Seq<u8> {
    seq![INT_START] + decimal(n) + seq![END]
}

/// The encoding of a byte string: its length in canonical text, `:`, its
/// bytes.
pub open spec fn encode_byte_string(s: Seq<u8>) -> Seq<u8> {
    decimal(s.len() as int) + seq![COLON] + s
}

/// The encoding of a value.
pub open spec fn encode(v: Value) -> Seq<u8>
    decreases v,
{
    match v {
        Value::Integer(n) => encode_integer(n),
        Value::ByteString(s) => encode_byte_string(s),
        Value::List(items) => seq![LIST_START] + encode_items(items) + seq![END],
        Value::Dictionary(entries) => seq![DICT_START] + encode_entries(entries) + seq![END],
    }
}

/// The encodings of the items of a list, one after the other.
pub open spec fn encode_items(items: Seq<Value>) -> Seq<u8>
    decreases items,
{
    if items.len() == 0 {
        Seq::empty()
    } else {
        encode(items[0]) + encode_items(items.drop_first())
    }
}

/// The encodings of the entries of a dictionary, one after the other, each
/// a key as a byte string followed by its value.
pub open spec fn encode_entries(entries: Seq<(Seq<u8>, Value)>) -> Seq<u8>
    decreases entries,
{
    if entries.len() == 0 {
        Seq::empty()
    } else {
        encode_byte_string(entries[0].0) + encode(entries[0].1) + encode_entries(
            entries.drop_first(),
        )
    }
}

/// The encoding of a run of items with one more item at its end.
pub proof fn lemma_encode_items_push(items: Seq<Value>, last: Value)
    ensures
        encode_items(items.push(last)) == encode_items(items) + encode(last),
    decreases items.len(),
{
    let all = items.push(last);
    if items.len() == 0 {
        assert(all.drop_first() =~= Seq::<Value>::empty());
        assert(encode_items(all.drop_first()) =~= Seq::<u8>::empty());
        assert(all[0] == last);
        assert(encode_items(all) =~= encode(last));
        assert(encode_items(items) + encode(last) =~= encode(last));
    } else {
        lemma_encode_items_push(items.drop_first(), last);
        assert(all.drop_first() =~= items.drop_first().push(last));
        assert(encode_items(all) =~= encode_items(items) + encode(last));
    }
}

/// The encoding of a run of entries with one more entry at its end.
pub proof fn lemma_encode_entries_push(entries: Seq<(Seq<u8>, Value)>, key: Seq<u8>, val: Value)
    ensures
        encode_entries(entries.push((key, val))) == encode_entries(entries) + encode_byte_string(
            key,
        ) + encode(val),
    decreases entries.len(),
{
    let all = entries.push((key, val));
    if entries.len() == 0 {
        assert(all.drop_first() =~= Seq::<(Seq<u8>, Value)>::empty());
        assert(encode_entries(all.drop_first()) =~= Seq::<u8>::empty());
        assert(all[0] == (key, val));
        assert(encode_entries(all) =~= encode_byte_string(key) + encode(val));
        assert(encode_entries(entries) + encode_byte_string(key) + encode(val)
            =~= encode_byte_string(key) + encode(val));
    } else {
        lemma_encode_entries_push(entries.drop_first(), key, val);
        assert(all.drop_first() =~= entries.drop_first().push((key, val)));
        assert(encode_entries(all) =~= encode_entries(entries) + encode_byte_string(key) + encode(
            val,
        ));
    }
}

/// Encodes a value. The entries of a dictionary are written in the order in
/// which it holds them, which is ascending key order for a value in
/// canonical form.
pub fn bencode_element(b: &BencodeValue) -> (r: Vec<u8>)
    ensures
        r@ == encode(b@),
    decreases b,
{
    match b {
        BencodeValue::Integer(i) => bencode_i64(*i),
        BencodeValue::ByteString(s) => bencode_bytestr(s),
        BencodeValue::List(l) => bencode_list(l),
        BencodeValue::Dictionary(d) => bencode_dict(d),
    }
}

/// Encodes an integer.
pub fn bencode_i64(a: i64) -> (r: Vec<u8>)
    ensures
        r@ == encode_integer(a as int),
{
    let mut ans: Vec<u8> = Vec::new();
    ans.push(INT_START);
    append_decimal(&mut ans, a);
    ans.push(END);
    assert(ans@ =~= encode_integer(a as int));
    ans
}

/// Encodes a byte string.
pub fn bencode_bytestr(s: &Vec<u8>) -> (r: Vec<u8>)
    ensures
        r@ == encode_byte_string(s@),
{
    let mut ans: Vec<u8> = Vec::new();
    append_digits(&mut ans, s.len() as u64);
    ans.push(COLON);
    let mut body = slice_to_vec(s.as_slice());
    ans.append(&mut body);
    assert(ans@ =~= encode_byte_string(s@));
    ans
}

/// Encodes a list: `l`, its items in order, `e`.
pub fn bencode_list(v: &Vec<BencodeValue>) -> (r: Vec<u8>)
    ensures
        r@ == seq![LIST_START] + encode_items(items_view(v@)) + seq![END],
    decreases v,
{
    let mut ans: Vec<u8> = Vec::new();
    ans.push(LIST_START);
    let mut i: usize = 0;
    assert(items_view(v@).take(0) =~= Seq::<Value>::empty());
    assert(ans@ =~= seq![LIST_START] + encode_items(items_view(v@).take(0)));
    while i < v.len()
        invariant
            i <= v@.len(),
            ans@ == seq![LIST_START] + encode_items(items_view(v@).take(i as int)),
        decreases v@.len() - i,
    {
        let item = &v[i];
        proof {
            assert(decreases_to!(*v => v[i as int]));
        }
        let mut encoded = bencode_element(item);
        proof {
            let items = items_view(v@);
            lemma_encode_items_push(items.take(i as int), items[i as int]);
            assert(items.take(i + 1) =~= items.take(i as int).push(items[i as int]));
        }
        ans.append(&mut encoded);
        assert(ans@ =~= seq![LIST_START] + encode_items(items_view(v@).take(i + 1)));
        i += 1;
    }
    assert(items_view(v@).take(i as int) =~= items_view(v@));
    ans.push(END);
    ans
}

/// Encodes a dictionary: `d`, its entries in order, each a key and its
/// value, `e`.
pub fn bencode_dict(d: &Vec<(Vec<u8>, BencodeValue)>) -> (r: Vec<u8>)
    ensures
        r@ == seq![DICT_START] + encode_entries(entries_view(d@)) + seq![END],
    decreases d,
{
    let mut ans: Vec<u8> = Vec::new();
    ans.push(DICT_START);
    let mut i: usize = 0;
    assert(entries_view(d@).take(0) =~= Seq::<(Seq<u8>, Value)>::empty());
    assert(ans@ =~= seq![DICT_START] + encode_entries(entries_view(d@).take(0)));
    while i < d.len()
        invariant
            i <= d@.len(),
            ans@ == seq![DICT_START] + encode_entries(entries_view(d@).take(i as int)),
        decreases d@.len() - i,
    {
        let entry = &d[i];
        proof {
            assert(decreases_to!(*d => d[i as int]));
            assert(decreases_to!(*entry => entry.1));
        }
        let mut key = bencode_bytestr(&entry.0);
        let mut val = bencode_element(&entry.1);
        proof {
            let entries = entries_view(d@);
            lemma_encode_entries_push(entries.take(i as int), entries[i as int].0, entries[i as int].1);
            assert(entries.take(i + 1) =~= entries.take(i as int).push(entries[i as int]));
        }
        ans.append(&mut key);
        ans.append(&mut val);
        assert(ans@ =~= seq![DICT_START] + encode_entries(entries_view(d@).take(i + 1)));
        i += 1;
    }
    assert(entries_view(d@).take(i as int) =~= entries_view(d@));
    ans.push(END);
    ans
}

} // verus!
