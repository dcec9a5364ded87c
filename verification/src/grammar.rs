//! The Bencode grammar as the decoder reads it.
//!
//! `element_span` is the span-length scanner: it finds where the element at
//! the front of a buffer ends by skipping nested elements one at a time, and
//! looks at no integer text and no key order. `decode_element` is the
//! decoder proper. Both say which kind of error an input is rejected with.

use vstd::prelude::*;
use crate::bdecode::ErrorKind;
use crate::decimal::parse_int;
use crate::lexical::lex_lt;
use crate::value::Value;

verus! {

/// The byte `i`, which opens an integer.
pub const INT_START: u8 = 105;

/// The byte `l`, which opens a list.
pub const LIST_START: u8 = 108;

/// The byte `d`, which opens a dictionary.
pub const DICT_START: u8 = 100;

/// The byte `e`, which closes an integer, a list or a dictionary.
pub const END: u8 = 101;

/// The byte `:`, which parts the length of a byte string from its body.
pub const COLON: u8 = 58;

/// `i` is the position of the first occurrence of `ch` in `s`.
pub open spec fn is_first_index(s: Seq<u8>, ch: u8, i: int) -> bool {
    &&& 0 <= i < s.len()
    &&& s[i] == ch
    &&& forall|j: int| 0 <= j < i ==> s[j] != ch
}

/// The position of the first occurrence of `ch` in `s`, if there is one.
#[verifier::opaque]
pub open spec fn first_index(s: Seq<u8>, ch: u8) -> Option<int> {
    if exists|i: int| is_first_index(s, ch, i) {
        Some(choose|i: int| is_first_index(s, ch, i))
    } else {
        None
    }
}

/// Where the body of the byte string at the front of `s` starts and ends:
/// the length prefix runs up to the first `:`, is a canonical integer and
/// not negative, and that many bytes follow the `:`.
#[verifier::opaque]
pub open spec fn byte_string_bounds(s: Seq<u8>) -> Result<(int, int), ErrorKind> {
    match first_index(s, COLON) {
        None => Err(ErrorKind::MissingTerminator),
        Some(colon) => match parse_int(s.subrange(0, colon)) {
            None => Err(ErrorKind::IntegerError),
            Some(n) => if n < 0 || colon + 1 + n > s.len() {
                Err(ErrorKind::ByteStringError)
            } else {
                Ok((colon + 1, colon + 1 + n))
            },
        },
    }
}

/// The number of bytes that the element at the front of `s` occupies; zero
/// for an empty buffer.
pub open spec fn element_span(s: Seq<u8>) -> Result<int, ErrorKind>
    decreases s.len(), 0int,
{
    if s.len() == 0 {
        Ok(0)
    } else if s[0] == INT_START {
        match first_index(s, END) {
            Some(i) => Ok(i + 1),
            None => Err(ErrorKind::MissingTerminator),
        }
    } else if s[0] == LIST_START || s[0] == DICT_START {
        match closing_offset(s.skip(1)) {
            Ok(k) => Ok(k + 2),
            Err(kind) => Err(kind),
        }
    } else {
        match byte_string_bounds(s) {
            Ok((_, end)) => Ok(end),
            Err(kind) => Err(kind),
        }
    }
}

/// The offset in `s` of the bare `e` that closes a list or dictionary whose
/// items start at the front of `s`, found by skipping one item after the
/// other.
///
/// The span of an item of a buffer that is not empty is positive and within
/// the buffer (`lemma_span_bounds`); the test on it is there for the
/// recursion to be seen to end, and its other branch is never taken.
pub open spec fn closing_offset(s: Seq<u8>) -> Result<int, ErrorKind>
    decreases s.len(), 1int,
{
    if s.len() == 0 {
        Err(ErrorKind::MissingTerminator)
    } else if s[0] == END {
        Ok(0)
    } else {
        match element_span(s) {
            Err(kind) => Err(kind),
            Ok(n) => if 0 < n <= s.len() {
                match closing_offset(s.skip(n)) {
                    Ok(k) => Ok(n + k),
                    Err(kind) => Err(kind),
                }
            } else {
                Err(ErrorKind::MissingTerminator)
            },
        }
    }
}

/// A byte string that fills `s` exactly.
pub open spec fn decode_byte_string(s: Seq<u8>) -> Result<Value, ErrorKind> {
    match byte_string_bounds(s) {
        Err(kind) => Err(kind),
        Ok((start, end)) => if end == s.len() {
            Ok(Value::ByteString(s.subrange(start, end)))
        } else {
            Err(ErrorKind::ByteStringError)
        },
    }
}

/// An integer that fills `s` exactly: `i`, its canonical text, `e`.
pub open spec fn decode_integer(s: Seq<u8>) -> Result<Value, ErrorKind> {
    if s.len() < 2 || s[0] != INT_START || s.last() != END {
        Err(ErrorKind::IntegerError)
    } else {
        match parse_int(s.subrange(1, s.len() - 1)) {
            Some(n) => Ok(Value::Integer(n)),
            None => Err(ErrorKind::IntegerError),
        }
    }
}

/// The elements that fill `s` exactly, one after the other. As in
/// `closing_offset`, the test on the span is there for the recursion.
pub open spec fn decode_items(s: Seq<u8>) -> Result<Seq<Value>, ErrorKind>
    decreases s.len(), 3int,
{
    if s.len() == 0 {
        Ok(Seq::empty())
    } else {
        match element_span(s) {
            Err(kind) => Err(kind),
            Ok(n) => if 0 < n <= s.len() {
                match decode_element(s.subrange(0, n)) {
                    Err(kind) => Err(kind),
                    Ok(first) => match decode_items(s.skip(n)) {
                        Err(kind) => Err(kind),
                        Ok(rest) => Ok(seq![first] + rest),
                    },
                }
            } else {
                Err(ErrorKind::MissingTerminator)
            },
        }
    }
}

/// The entries that fill `s` exactly, each a byte string key followed by a
/// value, the first key after `last` where there is one and each later key
/// after the key before it. A key that nothing follows has a value span of
/// zero and is rejected.
pub open spec fn decode_entries(s: Seq<u8>, last: Option<Seq<u8>>) -> Result<
    Seq<(Seq<u8>, Value)>,
    ErrorKind,
>
    decreases s.len(), 3int,
{
    if s.len() == 0 {
        Ok(Seq::empty())
    } else {
        match element_span(s) {
            Err(kind) => Err(kind),
            Ok(n) => if 0 < n <= s.len() {
                match element_span(s.skip(n)) {
                    Err(kind) => Err(kind),
                    Ok(m) => match decode_byte_string(s.subrange(0, n)) {
                        Ok(Value::ByteString(key)) => if 0 < m <= s.len() - n {
                            match decode_element(s.subrange(n, n + m)) {
                                Err(kind) => Err(kind),
                                Ok(val) => if last is Some && !lex_lt(last->Some_0, key) {
                                    Err(ErrorKind::DictionaryError)
                                } else {
                                    match decode_entries(s.skip(n + m), Some(key)) {
                                        Err(kind) => Err(kind),
                                        Ok(rest) => Ok(seq![(key, val)] + rest),
                                    }
                                },
                            }
                        } else {
                            Err(ErrorKind::DictionaryError)
                        },
                        _ => Err(ErrorKind::DictionaryError),
                    },
                }
            } else {
                Err(ErrorKind::MissingTerminator)
            },
        }
    }
}

/// A list that fills `s` exactly: `l`, its items, `e`.
pub open spec fn decode_list(s: Seq<u8>) -> Result<Value, ErrorKind>
    decreases s.len(), 1int,
{
    if s.len() < 2 || s[0] != LIST_START || s.last() != END {
        Err(ErrorKind::ListError)
    } else {
        match decode_items(s.subrange(1, s.len() - 1)) {
            Ok(items) => Ok(Value::List(items)),
            Err(kind) => Err(kind),
        }
    }
}

/// A dictionary that fills `s` exactly: `d`, its entries, `e`.
pub open spec fn decode_dictionary(s: Seq<u8>) -> Result<Value, ErrorKind>
    decreases s.len(), 1int,
{
    if s.len() < 2 || s[0] != DICT_START || s.last() != END {
        Err(ErrorKind::DictionaryError)
    } else {
        match decode_entries(s.subrange(1, s.len() - 1), None) {
            Ok(entries) => Ok(Value::Dictionary(entries)),
            Err(kind) => Err(kind),
        }
    }
}

/// The one element that fills `s` exactly. An empty buffer stands for the
/// empty byte string.
pub open spec fn decode_element(s: Seq<u8>) -> Result<Value, ErrorKind>
    decreases s.len(), 2int,
{
    if s.len() == 0 {
        Ok(Value::ByteString(Seq::empty()))
    } else if s[0] == INT_START || s[0] == LIST_START || s[0] == DICT_START {
        if s.last() != END {
            Err(ErrorKind::MissingTerminator)
        } else if s[0] == INT_START {
            decode_integer(s)
        } else if s[0] == LIST_START {
            decode_list(s)
        } else {
            decode_dictionary(s)
        }
    } else {
        decode_byte_string(s)
    }
}

/// `front` put before what `r` decoded; a failure stays as it is.
pub open spec fn prepend<T>(front: Seq<T>, r: Result<Seq<T>, ErrorKind>) -> Result<
    Seq<T>,
    ErrorKind,
> {
    match r {
        Ok(rest) => Ok(front + rest),
        Err(kind) => Err(kind),
    }
}

/// Putting two runs before a result, one after the other, is putting their
/// concatenation before it.
pub proof fn lemma_prepend_twice<T>(a: Seq<T>, b: Seq<T>, r: Result<Seq<T>, ErrorKind>)
    ensures
        prepend(a, prepend(b, r)) == prepend(a + b, r),
{
    if let Ok(rest) = r {
        assert(a + (b + rest) =~= (a + b) + rest);
    }
}

/// Putting nothing before a result leaves it as it is.
pub proof fn lemma_prepend_nothing<T>(r: Result<Seq<T>, ErrorKind>)
    ensures
        prepend(Seq::<T>::empty(), r) == r,
{
    if let Ok(rest) = r {
        assert(Seq::<T>::empty() + rest =~= rest);
    }
}

/// Decoding a run of items is decoding its first item and then the rest.
pub proof fn lemma_decode_items_step(s: Seq<u8>, n: int, first: Value)
    requires
        s.len() > 0,
        element_span(s) == Ok::<int, ErrorKind>(n),
        decode_element(s.subrange(0, n)) == Ok::<Value, ErrorKind>(first),
    ensures
        decode_items(s) == prepend(seq![first], decode_items(s.skip(n))),
{
    lemma_span_bounds(s);
}

/// Decoding a run of entries is decoding its first entry and then the rest.
pub proof fn lemma_decode_entries_step(
    s: Seq<u8>,
    last: Option<Seq<u8>>,
    n: int,
    m: int,
    key: Seq<u8>,
    val: Value,
)
    requires
        s.len() > 0,
        element_span(s) == Ok::<int, ErrorKind>(n),
        element_span(s.skip(n)) == Ok::<int, ErrorKind>(m),
        m > 0,
        decode_byte_string(s.subrange(0, n)) == Ok::<Value, ErrorKind>(Value::ByteString(key)),
        decode_element(s.subrange(n, n + m)) == Ok::<Value, ErrorKind>(val),
        last is Some ==> lex_lt(last->Some_0, key),
    ensures
        decode_entries(s, last) == prepend(
            seq![(key, val)],
            decode_entries(s.skip(n + m), Some(key)),
        ),
{
    lemma_span_bounds(s);
    lemma_span_bounds(s.skip(n));
}

/// The first occurrence of a byte is determined by its defining property.
pub proof fn lemma_first_index_unique(s: Seq<u8>, ch: u8, i: int)
    requires
        is_first_index(s, ch, i),
    ensures
        first_index(s, ch) == Some(i),
{
    reveal(first_index);
    let j = choose|j: int| is_first_index(s, ch, j);
    if j < i {
        assert(s[j] != ch);
    } else if i < j {
        assert(s[i] != ch);
    }
}

/// A buffer without the byte has no first occurrence of it.
pub proof fn lemma_first_index_none(s: Seq<u8>, ch: u8)
    requires
        forall|j: int| 0 <= j < s.len() ==> s[j] != ch,
    ensures
        first_index(s, ch) is None,
{
    reveal(first_index);
}

/// What `first_index` finds is the first occurrence.
pub proof fn lemma_first_index_some(s: Seq<u8>, ch: u8)
    requires
        first_index(s, ch) is Some,
    ensures
        is_first_index(s, ch, first_index(s, ch)->Some_0),
{
    reveal(first_index);
}

/// A span lies within the buffer and, unless the buffer is empty, is
/// positive; a closing offset is the position of an `e` in the buffer.
pub proof fn lemma_span_bounds(s: Seq<u8>)
    ensures
        element_span(s) matches Ok(n) ==> 0 <= n <= s.len() && (s.len() > 0 ==> n > 0),
        closing_offset(s) matches Ok(k) ==> 0 <= k < s.len() && s[k] == END,
    decreases s.len(), 1int,
{
    lemma_element_span_bounds(s);
    if s.len() > 0 && s[0] != END {
        if let Ok(n) = element_span(s) {
            if 0 < n <= s.len() {
                lemma_span_bounds(s.skip(n));
            }
        }
    }
}

proof fn lemma_element_span_bounds(s: Seq<u8>)
    ensures
        element_span(s) matches Ok(n) ==> 0 <= n <= s.len() && (s.len() > 0 ==> n > 0),
    decreases s.len(), 0int,
{
    if s.len() == 0 {
    } else if s[0] == INT_START {
        if first_index(s, END) is Some {
            lemma_first_index_some(s, END);
        }
    } else if s[0] == LIST_START || s[0] == DICT_START {
        lemma_span_bounds(s.skip(1));
    } else {
        reveal(byte_string_bounds);
        if first_index(s, COLON) is Some {
            lemma_first_index_some(s, COLON);
        }
    }
}

} // verus!
