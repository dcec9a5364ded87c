//! The Bencode decoder.

use vstd::prelude::*;
use vstd::slice::{slice_subrange, slice_to_vec};
use vstd::string::StringExecFns;
use crate::bencode::{encode, entries_view, items_view, lossy_string, utf8_lossy, BencodeValue};
use crate::decimal::{
    all_digits, digits_value, has_sign, int_value, is_canonical_int, is_digit,
    lemma_digits_value_monotonic, parse_int, MINUS, ZERO,
};
use crate::grammar::{
    byte_string_bounds, closing_offset, decode_byte_string, decode_dictionary, decode_element,
    decode_entries, decode_integer, decode_items, decode_list, element_span, first_index,
    lemma_decode_entries_step, lemma_decode_items_step, lemma_first_index_none,
    lemma_first_index_some, lemma_first_index_unique, lemma_prepend_nothing, lemma_prepend_twice,
    lemma_span_bounds, prepend, COLON, DICT_START, END, INT_START, LIST_START,
};
use crate::lexical::bytes_less;
use crate::round_trip::{decoded_is_well_formed, decodes_iff_canonical, encode_of_decode};
use crate::value::Value;

verus! {

/// The kinds of decoding failure.
#[derive(Clone, Copy, PartialEq, Eq, Debug, Structural)]
pub enum ErrorKind {
    /// An element runs off the end of the buffer before its closing
    /// delimiter.
    MissingTerminator,
    /// An integer text is not canonical, not a number, or out of the signed
    /// 64-bit range.
    IntegerError,
    /// A byte string states a negative length or one that does not match the
    /// bytes that are there.
    ByteStringError,
    /// A list has malformed delimiters.
    ListError,
    /// A dictionary has malformed delimiters, a key that is not a byte
    /// string, a key without a value, or a key that is not after the key
    /// before it.
    DictionaryError,
}

/// A decoding failure: its kind, with a message for a human reader.
#[derive(Debug, Clone, PartialEq, Eq)]
pub enum BdecodingError {
    MissingTerminator(String),
    IntegerError(String),
    ByteStringError(String),
    ListError(String),
    DictionaryError(String),
}

impl BdecodingError {
    /// The kind of the failure.
    pub open spec fn kind(&self) -> ErrorKind {
        match self {
            BdecodingError::MissingTerminator(_) => ErrorKind::MissingTerminator,
            BdecodingError::IntegerError(_) => ErrorKind::IntegerError,
            BdecodingError::ByteStringError(_) => ErrorKind::ByteStringError,
            BdecodingError::ListError(_) => ErrorKind::ListError,
            BdecodingError::DictionaryError(_) => ErrorKind::DictionaryError,
        }
    }

    /// The message of the failure.
    pub open spec fn text(&self) -> Seq<char> {
        match self {
            BdecodingError::MissingTerminator(m) => m@,
            BdecodingError::IntegerError(m) => m@,
            BdecodingError::ByteStringError(m) => m@,
            BdecodingError::ListError(m) => m@,
            BdecodingError::DictionaryError(m) => m@,
        }
    }

    /// A failure of the given kind with the given message.
    pub fn new(kind: ErrorKind, message: String) -> (r: BdecodingError)
        ensures
            r.kind() == kind,
            r.text() == message@,
    {
        match kind {
            ErrorKind::MissingTerminator => BdecodingError::MissingTerminator(message),
            ErrorKind::IntegerError => BdecodingError::IntegerError(message),
            ErrorKind::ByteStringError => BdecodingError::ByteStringError(message),
            ErrorKind::ListError => BdecodingError::ListError(message),
            ErrorKind::DictionaryError => BdecodingError::DictionaryError(message),
        }
    }

    /// The kind of the failure.
    pub fn error_kind(&self) -> (k: ErrorKind)
        ensures
            k == self.kind(),
    {
        match self {
            BdecodingError::MissingTerminator(_) => ErrorKind::MissingTerminator,
            BdecodingError::IntegerError(_) => ErrorKind::IntegerError,
            BdecodingError::ByteStringError(_) => ErrorKind::ByteStringError,
            BdecodingError::ListError(_) => ErrorKind::ListError,
            BdecodingError::DictionaryError(_) => ErrorKind::DictionaryError,
        }
    }

    /// The name of a kind.
    pub open spec fn kind_name(kind: ErrorKind) -> Seq<char> {
        match kind {
            ErrorKind::MissingTerminator => "MissingTerminator"@,
            ErrorKind::IntegerError => "IntegerError"@,
            ErrorKind::ByteStringError => "ByteStringError"@,
            ErrorKind::ListError => "ListError"@,
            ErrorKind::DictionaryError => "DictionaryError"@,
        }
    }

    /// The failure as one line of text: the name of its kind, `: `, its
    /// message.
    pub fn to_text(&self) -> (r: String)
        ensures
            r@ == Self::kind_name(self.kind()) + ": "@ + self.text(),
    {
        let mut line = match self.error_kind() {
            ErrorKind::MissingTerminator => String::from_str("MissingTerminator"),
            ErrorKind::IntegerError => String::from_str("IntegerError"),
            ErrorKind::ByteStringError => String::from_str("ByteStringError"),
            ErrorKind::ListError => String::from_str("ListError"),
            ErrorKind::DictionaryError => String::from_str("DictionaryError"),
        };
        line.append(": ");
        line.append(self.message());
        line
    }

    /// The message of the failure.
    pub fn message(&self) -> (m: &str)
        ensures
            m@ == self.text(),
    {
        match self {
            BdecodingError::MissingTerminator(m) => m.as_str(),
            BdecodingError::IntegerError(m) => m.as_str(),
            BdecodingError::ByteStringError(m) => m.as_str(),
            BdecodingError::ListError(m) => m.as_str(),
            BdecodingError::DictionaryError(m) => m.as_str(),
        }
    }
}

/// What a scanner result says: a length, or the kind of the failure.
pub open spec fn span_outcome(r: Result<usize, BdecodingError>) -> Result<int, ErrorKind> {
    match r {
        Ok(n) => Ok(n as int),
        Err(err) => Err(err.kind()),
    }
}

/// What a decoder result says: the model of the value, or the kind of the
/// failure.
pub open spec fn value_outcome(r: Result<BencodeValue, BdecodingError>) -> Result<
    Value,
    ErrorKind,
> {
    match r {
        Ok(v) => Ok(v@),
        Err(err) => Err(err.kind()),
    }
}

/// A failure of the given kind whose message is `what` followed by the
/// offending bytes as text.
pub fn failure(kind: ErrorKind, what: &str, near: &[u8]) -> (r: BdecodingError)
    ensures
        r.kind() == kind,
        r.text() == what@ + utf8_lossy(near@),
{
    let mut message = String::from_str(what);
    let shown = lossy_string(near);
    message.append(shown.as_str());
    BdecodingError::new(kind, message)
}

/// Reads a signed 64-bit integer from its canonical text.
pub fn parse_i64(e: &[u8]) -> (r: Result<i64, BdecodingError>)
    ensures
        match parse_int(e@) {
            Some(n) => r matches Ok(v) && v == n,
            None => r matches Err(err) && err.kind() == ErrorKind::IntegerError,
        },
{
    proof {
        reveal(parse_int);
    }
    let what = "expected the canonical text of a 64-bit integer, found: ";
    let len = e.len();
    if len == 0 {
        return Err(failure(ErrorKind::IntegerError, what, e));
    }
    let negative = e[0] == MINUS;
    let start: usize = if negative { 1 } else { 0 };
    if start == len {
        return Err(failure(ErrorKind::IntegerError, what, e));
    }
    let ghost body = e@.skip(start as int);
    assert(body.len() == len - start);
    assert(body[0] == e@[start as int]);
    assert(!negative ==> body =~= e@);
    if e[start] == ZERO && (negative || len - start > 1) {
        return Err(failure(ErrorKind::IntegerError, what, e));
    }
    let limit: u128 = if negative { 9223372036854775808 } else { 9223372036854775807 };
    let mut acc: u128 = 0;
    let mut i: usize = start;
    assert(body.take(0) =~= Seq::<u8>::empty());
    while i < len
        invariant
            len == e@.len(),
            body == e@.skip(start as int),
            start <= i <= len,
            acc == digits_value(body.take(i - start)),
            acc <= limit,
            limit == if negative { 9223372036854775808u128 } else { 9223372036854775807u128 },
            negative == has_sign(e@),
            int_value(e@) == if negative { -digits_value(body) } else { digits_value(body) as int },
            is_canonical_int(e@) ==> all_digits(body),
            all_digits(body.take(i - start)),
        decreases len - i,
    {
        proof {
            reveal(parse_int);
        }
        let d: u8 = e[i];
        assert(body[i - start] == d);
        if d < 48 || d > 57 {
            assert(!is_digit(body[i - start]));
            return Err(failure(ErrorKind::IntegerError, what, e));
        }
        let next: u128 = acc * 10 + (d - 48) as u128;
        let ghost longer = body.take(i - start + 1);
        assert(longer.drop_last() =~= body.take(i - start));
        assert(longer.last() == d);
        assert(digits_value(longer) == next);
        if next > limit {
            proof {
                if all_digits(body) {
                    lemma_digits_value_monotonic(body, i - start + 1);
                }
            }
            return Err(failure(ErrorKind::IntegerError, what, e));
        }
        assert forall|j: int| 0 <= j < longer.len() implies is_digit(#[trigger] longer[j]) by {
            if j < i - start {
                assert(longer[j] == body.take(i - start)[j]);
            }
        }
        acc = next;
        i += 1;
    }
    proof {
        reveal(parse_int);
        assert(body.take(len - start) =~= body);
    }
    if negative {
        if acc == 9223372036854775808 {
            Ok(i64::MIN)
        } else {
            Ok(-(acc as i64))
        }
    } else {
        Ok(acc as i64)
    }
}

/// The position of the first `ch` in `e`; a buffer without one is missing
/// its terminator.
pub fn get_first_index(e: &[u8], ch: u8) -> (r: Result<usize, BdecodingError>)
    ensures
        match first_index(e@, ch) {
            Some(i) => span_outcome(r) == Ok::<int, ErrorKind>(i),
            None => span_outcome(r) == Err::<int, ErrorKind>(ErrorKind::MissingTerminator),
        },
{
    let mut i: usize = 0;
    while i < e.len()
        invariant
            i <= e@.len(),
            forall|j: int| 0 <= j < i ==> e@[j] != ch,
        decreases e@.len() - i,
    {
        if e[i] == ch {
            proof {
                lemma_first_index_unique(e@, ch, i as int);
            }
            return Ok(i);
        }
        i += 1;
    }
    proof {
        lemma_first_index_none(e@, ch);
    }
    Err(failure(ErrorKind::MissingTerminator, "expected a delimiter that is not there in: ", e))
}

/// Where the body of the byte string at the front of `e` starts and ends.
pub fn byte_string_range(e: &[u8]) -> (r: Result<(usize, usize), BdecodingError>)
    ensures
        match byte_string_bounds(e@) {
            Ok((start, end)) => r matches Ok(range) && range.0 == start && range.1 == end,
            Err(kind) => r matches Err(err) && err.kind() == kind,
        },
        r matches Ok(range) ==> 0 < range.0 <= range.1 <= e@.len(),
{
    proof {
        reveal(byte_string_bounds);
        if first_index(e@, COLON) is Some {
            lemma_first_index_some(e@, COLON);
        }
    }
    let colon = match get_first_index(e, COLON) {
        Ok(colon) => colon,
        Err(err) => {
            return Err(err);
        },
    };
    let number = match parse_i64(slice_subrange(e, 0, colon)) {
        Ok(number) => number,
        Err(err) => {
            return Err(err);
        },
    };
    if number < 0 {
        return Err(
            failure(ErrorKind::ByteStringError, "negative length of the byte string in: ", e),
        );
    }
    let remaining: usize = e.len() - colon - 1;
    if number as u64 > remaining as u64 {
        return Err(
            failure(
                ErrorKind::ByteStringError,
                "stated length exceeds the bytes that follow in: ",
                e,
            ),
        );
    }
    Ok((colon + 1, colon + 1 + number as usize))
}

/// The index in `e` of the bare `e` byte that closes the list or dictionary
/// that `e` starts with.
pub fn get_corresponding_terminator(e: &[u8]) -> (r: Result<usize, BdecodingError>)
    requires
        e@.len() > 0,
        e@[0] == LIST_START || e@[0] == DICT_START,
    ensures
        span_outcome(r) == match closing_offset(e@.skip(1)) {
            Ok(k) => Ok::<int, ErrorKind>(k + 1),
            Err(kind) => Err(kind),
        },
    decreases e@.len(), 0int,
{
    let mut index: usize = 1;
    while index < e.len()
        invariant
            1 <= index <= e@.len(),
            match closing_offset(e@.skip(index as int)) {
                Ok(k) => closing_offset(e@.skip(1)) == Ok::<int, ErrorKind>(k + index - 1),
                Err(kind) => closing_offset(e@.skip(1)) == Err::<int, ErrorKind>(kind),
            },
        decreases e@.len() - index,
    {
        let ghost rest = e@.skip(index as int);
        assert(rest[0] == e@[index as int]);
        if e[index] == END {
            return Ok(index);
        }
        proof {
            lemma_span_bounds(rest);
        }
        match get_first_element_len(slice_subrange(e, index, e.len())) {
            Ok(n) => {
                assert(rest.skip(n as int) =~= e@.skip(index + n));
                index += n;
            },
            Err(err) => {
                return Err(err);
            },
        }
    }
    assert(e@.skip(index as int).len() == 0);
    Err(
        failure(
            ErrorKind::MissingTerminator,
            "expected a closing 'e' that is not there in: ",
            e,
        ),
    )
}

/// The number of bytes that the element at the front of `e` occupies; zero
/// for an empty buffer.
pub fn get_first_element_len(e: &[u8]) -> (r: Result<usize, BdecodingError>)
    ensures
        span_outcome(r) == element_span(e@),
        r matches Ok(n) ==> n <= e@.len() && (e@.len() > 0 ==> n > 0),
    decreases e@.len(), 1int,
{
    proof {
        lemma_span_bounds(e@);
    }
    if e.len() == 0 {
        return Ok(0);
    }
    let first: u8 = e[0];
    if first == INT_START {
        match get_first_index(e, END) {
            Ok(i) => Ok(i + 1),
            Err(err) => Err(err),
        }
    } else if first == LIST_START || first == DICT_START {
        match get_corresponding_terminator(e) {
            Ok(i) => Ok(i + 1),
            Err(err) => Err(err),
        }
    } else {
        match byte_string_range(e) {
            Ok(range) => Ok(range.1),
            Err(err) => Err(err),
        }
    }
}

/// Decodes a byte string that fills `e` exactly: a length, `:`, and that
/// many bytes.
pub fn bdecode_bytestr(e: &[u8]) -> (r: Result<BencodeValue, BdecodingError>)
    ensures
        value_outcome(r) == decode_byte_string(e@),
{
    let range = match byte_string_range(e) {
        Ok(range) => range,
        Err(err) => {
            return Err(err);
        },
    };
    if range.1 != e.len() {
        return Err(
            failure(ErrorKind::ByteStringError, "bytes left over after the byte string in: ", e),
        );
    }
    Ok(BencodeValue::ByteString(slice_to_vec(slice_subrange(e, range.0, range.1))))
}

/// Decodes an integer that fills `e` exactly: `i`, its canonical text, `e`.
pub fn bdecode_i64(e: &[u8]) -> (r: Result<BencodeValue, BdecodingError>)
    ensures
        value_outcome(r) == decode_integer(e@),
{
    if e.len() < 2 || e[0] != INT_START {
        return Err(failure(ErrorKind::IntegerError, "expected an integer to start with 'i': ", e));
    }
    if e[e.len() - 1] != END {
        return Err(failure(ErrorKind::IntegerError, "expected an integer to end with 'e': ", e));
    }
    match parse_i64(slice_subrange(e, 1, e.len() - 1)) {
        Ok(number) => Ok(BencodeValue::Integer(number)),
        Err(err) => Err(err),
    }
}

/// Decodes a list that fills `e` exactly: `l`, its items, `e`.
pub fn bdecode_list(e: &[u8]) -> (r: Result<BencodeValue, BdecodingError>)
    ensures
        value_outcome(r) == decode_list(e@),
    decreases e@.len(), 0int,
{
    if e.len() < 2 || e[0] != LIST_START {
        return Err(failure(ErrorKind::ListError, "expected a list to start with 'l': ", e));
    }
    if e[e.len() - 1] != END {
        return Err(failure(ErrorKind::ListError, "expected a list to end with 'e': ", e));
    }
    let inner = slice_subrange(e, 1, e.len() - 1);
    let mut left: usize = 0;
    let mut ans: Vec<BencodeValue> = Vec::new();
    proof {
        assert(inner@.skip(0) =~= inner@);
        assert(items_view(ans@) =~= Seq::<Value>::empty());
        lemma_prepend_nothing(decode_items(inner@));
    }
    while left < inner.len()
        invariant
            left <= inner@.len(),
            inner@.len() < e@.len(),
            decode_list(e@) == match decode_items(inner@) {
                Ok(items) => Ok::<Value, ErrorKind>(Value::List(items)),
                Err(kind) => Err(kind),
            },
            decode_items(inner@) == prepend(
                items_view(ans@),
                decode_items(inner@.skip(left as int)),
            ),
        decreases inner@.len() - left,
    {
        let ghost tail = inner@.skip(left as int);
        let n = match get_first_element_len(slice_subrange(inner, left, inner.len())) {
            Ok(n) => n,
            Err(err) => {
                return Err(err);
            },
        };
        let right = left + n;
        assert(tail.subrange(0, n as int) =~= inner@.subrange(left as int, right as int));
        assert(tail.skip(n as int) =~= inner@.skip(right as int));
        let item = match bdecode_element(slice_subrange(inner, left, right)) {
            Ok(item) => item,
            Err(err) => {
                proof {
                    lemma_span_bounds(tail);
                }
                return Err(err);
            },
        };
        proof {
            lemma_decode_items_step(tail, n as int, item@);
            lemma_prepend_twice(
                items_view(ans@),
                seq![item@],
                decode_items(inner@.skip(right as int)),
            );
            assert(items_view(ans@.push(item)) =~= items_view(ans@) + seq![item@]);
        }
        ans.push(item);
        left = right;
    }
    proof {
        assert(inner@.skip(left as int).len() == 0);
        assert(items_view(ans@) + Seq::<Value>::empty() =~= items_view(ans@));
    }
    Ok(BencodeValue::List(ans))
}

/// The key of the last entry, if there is an entry.
pub open spec fn last_key(entries: Seq<(Vec<u8>, BencodeValue)>) -> Option<Seq<u8>> {
    if entries.len() == 0 {
        None
    } else {
        Some(entries.last().0@)
    }
}

/// Decodes a dictionary that fills `e` exactly: `d`, its entries, `e`. The
/// keys are byte strings, each strictly after the one before it in bytewise
/// order, and each is followed by its value.
pub fn bdecode_dicitionary(e: &[u8]) -> (r: Result<BencodeValue, BdecodingError>)
    ensures
        value_outcome(r) == decode_dictionary(e@),
    decreases e@.len(), 0int,
{
    if e.len() < 2 || e[0] != DICT_START {
        return Err(
            failure(ErrorKind::DictionaryError, "expected a dictionary to start with 'd': ", e),
        );
    }
    if e[e.len() - 1] != END {
        return Err(
            failure(ErrorKind::DictionaryError, "expected a dictionary to end with 'e': ", e),
        );
    }
    let inner = slice_subrange(e, 1, e.len() - 1);
    let mut ans: Vec<(Vec<u8>, BencodeValue)> = Vec::new();
    let mut left_index_key: usize = 0;
    proof {
        assert(inner@.skip(0) =~= inner@);
        assert(entries_view(ans@) =~= Seq::<(Seq<u8>, Value)>::empty());
        lemma_prepend_nothing(decode_entries(inner@, None));
    }
    while left_index_key < inner.len()
        invariant
            left_index_key <= inner@.len(),
            inner@.len() < e@.len(),
            decode_dictionary(e@) == match decode_entries(inner@, None) {
                Ok(entries) => Ok::<Value, ErrorKind>(Value::Dictionary(entries)),
                Err(kind) => Err(kind),
            },
            decode_entries(inner@, None) == prepend(
                entries_view(ans@),
                decode_entries(inner@.skip(left_index_key as int), last_key(ans@)),
            ),
        decreases inner@.len() - left_index_key,
    {
        let ghost tail = inner@.skip(left_index_key as int);
        proof {
            lemma_span_bounds(tail);
        }
        let key_len = match get_first_element_len(
            slice_subrange(inner, left_index_key, inner.len()),
        ) {
            Ok(n) => n,
            Err(err) => {
                return Err(err);
            },
        };
        let left_index_val = left_index_key + key_len;
        assert(tail.skip(key_len as int) =~= inner@.skip(left_index_val as int));
        let val_len = match get_first_element_len(
            slice_subrange(inner, left_index_val, inner.len()),
        ) {
            Ok(n) => n,
            Err(err) => {
                return Err(err);
            },
        };
        let right_index_val = left_index_val + val_len;
        assert(tail.subrange(0, key_len as int) =~= inner@.subrange(
            left_index_key as int,
            left_index_val as int,
        ));
        assert(tail.subrange(key_len as int, key_len + val_len) =~= inner@.subrange(
            left_index_val as int,
            right_index_val as int,
        ));
        assert(tail.skip(key_len + val_len) =~= inner@.skip(right_index_val as int));
        let key = match bdecode_bytestr(slice_subrange(inner, left_index_key, left_index_val)) {
            Ok(BencodeValue::ByteString(key)) => key,
            _ => {
                return Err(
                    failure(
                        ErrorKind::DictionaryError,
                        "expected a byte string as the key in: ",
                        inner,
                    ),
                );
            },
        };
        if val_len == 0 {
            return Err(
                failure(
                    ErrorKind::DictionaryError,
                    "expected a value after the last key in: ",
                    inner,
                ),
            );
        }
        let val = match bdecode_element(slice_subrange(inner, left_index_val, right_index_val)) {
            Ok(val) => val,
            Err(err) => {
                return Err(err);
            },
        };
        if ans.len() > 0 {
            if !bytes_less(ans[ans.len() - 1].0.as_slice(), key.as_slice()) {
                return Err(
                    failure(
                        ErrorKind::DictionaryError,
                        "expected keys in strictly increasing order in: ",
                        inner,
                    ),
                );
            }
        }
        proof {
            let entry = (key@, val@);
            lemma_decode_entries_step(
                tail,
                last_key(ans@),
                key_len as int,
                val_len as int,
                key@,
                val@,
            );
            lemma_prepend_twice(
                entries_view(ans@),
                seq![entry],
                decode_entries(inner@.skip(right_index_val as int), Some(key@)),
            );
            assert(entries_view(ans@.push((key, val))) =~= entries_view(ans@) + seq![entry]);
            assert(last_key(ans@.push((key, val))) == Some(key@));
        }
        ans.push((key, val));
        left_index_key = right_index_val;
    }
    proof {
        assert(inner@.skip(left_index_key as int).len() == 0);
        assert(entries_view(ans@) + Seq::<(Seq<u8>, Value)>::empty() =~= entries_view(ans@));
    }
    Ok(BencodeValue::Dictionary(ans))
}

/// Decodes the one element that fills `e` exactly; nothing may follow it.
/// An empty buffer gives the empty byte string.
///
/// The decoder calls itself once for each level of nesting in `e`.
pub fn bdecode_element(e: &[u8]) -> (r: Result<BencodeValue, BdecodingError>)
    ensures
        value_outcome(r) == decode_element(e@),
        r is Ok <==> e@.len() == 0 || exists|v: Value|
            v.well_formed() && #[trigger] encode(v) == e@,
        r matches Ok(v) ==> v@.well_formed() && (e@.len() > 0 ==> encode(v@) == e@),
    decreases e@.len(), 1int,
{
    proof {
        decodes_iff_canonical(e@);
        if decode_element(e@) is Ok {
            decoded_is_well_formed(e@);
            if e@.len() > 0 {
                encode_of_decode(e@);
            }
        }
    }
    if e.len() == 0 {
        return Ok(BencodeValue::ByteString(Vec::new()));
    }
    let first: u8 = e[0];
    if first == INT_START || first == LIST_START || first == DICT_START {
        if e[e.len() - 1] != END {
            return Err(
                failure(ErrorKind::MissingTerminator, "expected a closing 'e' at the end of: ", e),
            );
        }
        if first == INT_START {
            bdecode_i64(e)
        } else if first == LIST_START {
            bdecode_list(e)
        } else {
            bdecode_dicitionary(e)
        }
    } else {
        bdecode_bytestr(e)
    }
}

} // verus!
