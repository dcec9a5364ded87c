//! The mathematical model of a Bencode value.

use vstd::prelude::*;
use crate::lexical::{lemma_lex_lt_irreflexive, lex_lt};

verus! {

/// A Bencode value as a mathematical object.
///
/// A dictionary is the sequence of its entries in the order in which they are
/// written; `well_formed` asks that order to be the canonical one.
pub ghost enum Value {
    Integer(int),
    ByteString(Seq<u8>),
    List(Seq<Value>),
    Dictionary(Seq<(Seq<u8>, Value)>),
}

/// The keys of `entries` are in strictly ascending bytewise order: each is
/// before every later one, so none occurs twice.
pub open spec fn keys_ascending(entries: Seq<(Seq<u8>, Value)>) -> bool {
    forall|i: int, j: int|
        0 <= i < j < entries.len() ==> lex_lt((#[trigger] entries[i]).0, (#[trigger] entries[j]).0)
}

/// Ascending keys are unique: no two entries have the same key.
pub proof fn lemma_ascending_keys_distinct(entries: Seq<(Seq<u8>, Value)>, i: int, j: int)
    requires
        keys_ascending(entries),
        0 <= i < entries.len(),
        0 <= j < entries.len(),
        i != j,
    ensures
        entries[i].0 != entries[j].0,
{
    lemma_lex_lt_irreflexive(entries[i].0);
    if i < j {
        assert(lex_lt(entries[i].0, entries[j].0));
    } else {
        assert(lex_lt(entries[j].0, entries[i].0));
    }
}

impl Value {
    /// The value can be written in canonical form: every integer is a signed
    /// 64-bit number, every byte string has a length that a signed 64-bit
    /// length prefix can state, and the keys of every dictionary are strictly
    /// ascending, hence unique.
    pub open spec fn well_formed(self) -> bool
        decreases self,
    {
        match self {
            Value::Integer(n) => i64::MIN <= n <= i64::MAX,
            Value::ByteString(s) => s.len() <= i64::MAX,
            Value::List(items) => forall|i: int|
                0 <= i < items.len() ==> (#[trigger] items[i]).well_formed(),
            Value::Dictionary(entries) => {
                &&& forall|i: int|
                    0 <= i < entries.len() ==> (#[trigger] entries[i]).0.len() <= i64::MAX
                &&& forall|i: int|
                    0 <= i < entries.len() ==> (#[trigger] entries[i]).1.well_formed()
                &&& keys_ascending(entries)
            },
        }
    }
}

} // verus!
