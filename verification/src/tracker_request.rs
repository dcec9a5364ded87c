//! The request that asks a tracker for peers, and the reading of its reply.

use vstd::prelude::*;
use vstd::string::StringExecFns;
use vstd::utf8::{decode_utf8, valid_utf8};
use sha1::{Digest, Sha1};
use crate::bdecode::{bdecode_element, BdecodingError};
use crate::bencode::{bencode_element, dict_get, encode, entries_view, lookup, BencodeValue};
use crate::grammar::decode_element;
use crate::value::Value;

verus! {

/// Why a request could not be built or a reply not be used.
#[derive(Debug, Clone, PartialEq, Eq)]
pub enum TrackerError {
    /// The torrent has no `info` entry.
    MissingInfo,
    /// The torrent has no `announce` entry.
    MissingAnnounce,
    /// The `announce` entry is not a byte string.
    AnnounceNotByteString,
    /// The `announce` entry is not valid UTF-8.
    AnnounceNotUtf8,
    /// The reply is not Bencode.
    Undecodable(BdecodingError),
    /// The reply is not a dictionary.
    NotADictionary,
    /// The reply holds a `failure reason`.
    FailureReason,
    /// The reply has no `peers` entry.
    MissingPeers,
    /// The `peers` entry is not a list.
    PeersNotAList,
}

/// The key `info`.
pub open spec fn info_key() -> Seq<u8> {
    seq![105u8, 110, 102, 111]
}

/// The key `announce`.
pub open spec fn announce_key() -> Seq<u8> {
    seq![97u8, 110, 110, 111, 117, 110, 99, 101]
}

/// The key `failure reason`.
pub open spec fn failure_reason_key() -> Seq<u8> {
    seq![102u8, 97, 105, 108, 117, 114, 101, 32, 114, 101, 97, 115, 111, 110]
}

/// The bytes whose digest is this client's peer id: the text
/// `Dragonado is the goat`.
pub open spec fn peer_id_seed() -> Seq<u8> {
    seq![
        68u8, 114, 97, 103, 111, 110, 97, 100, 111, 32, 105, 115, 32, 116, 104, 101, 32, 103, 111,
        97, 116,
    ]
}

/// The SHA-1 digest of `bytes`.
pub uninterp spec fn sha1_digest(bytes: Seq<u8>) -> Seq<u8>;

/// `Sha1::digest` of the sha1 crate: the digest is a function of the bytes
/// alone, named `sha1_digest` here, and is 20 bytes long. Nothing else is
/// claimed of it.
#[verifier::external_body]
pub(crate) fn get_hash(bytes: &Vec<u8>) -> (r: Vec<u8>)
    ensures
        r@ == sha1_digest(bytes@),
        r@.len() == 20,
{
    Sha1::digest(bytes).to_vec()
}

/// std's `String::from_utf8`: it succeeds on valid UTF-8 and on nothing
/// else, and the text is then the one that the bytes encode.
#[verifier::external_body]
pub(crate) fn string_from_utf8(bytes: Vec<u8>) -> (r: Option<String>)
    ensures
        r is Some <==> valid_utf8(bytes@),
        r matches Some(text) ==> text@ == decode_utf8(bytes@),
{
    String::from_utf8(bytes).ok()
}

/// The upper-case hexadecimal digit of a number below 16.
pub open spec fn hex_char(n: int) -> char {
    if n == 0 {
        '0'
    } else if n == 1 {
        '1'
    } else if n == 2 {
        '2'
    } else if n == 3 {
        '3'
    } else if n == 4 {
        '4'
    } else if n == 5 {
        '5'
    } else if n == 6 {
        '6'
    } else if n == 7 {
        '7'
    } else if n == 8 {
        '8'
    } else if n == 9 {
        '9'
    } else if n == 10 {
        'A'
    } else if n == 11 {
        'B'
    } else if n == 12 {
        'C'
    } else if n == 13 {
        'D'
    } else if n == 14 {
        'E'
    } else {
        'F'
    }
}

/// A byte as `%` and its two upper-case hexadecimal digits.
pub open spec fn escape_byte(b: u8) -> Seq<char> {
    seq!['%', hex_char(b as int / 16), hex_char(b as int % 16)]
}

/// Every byte of `hash` escaped, in order.
pub open spec fn escape_hash(hash: Seq<u8>) -> Seq<char>
    decreases hash.len(),
{
    if hash.len() == 0 {
        Seq::empty()
    } else {
        escape_hash(hash.drop_last()) + escape_byte(hash.last())
    }
}

/// The upper-case hexadecimal digit of `n` as text.
pub fn hex_digit(n: u8) -> (r: &'static str)
    requires
        n < 16,
    ensures
        r@ == seq![hex_char(n as int)],
{
    proof {
        reveal_strlit("0");
        reveal_strlit("1");
        reveal_strlit("2");
        reveal_strlit("3");
        reveal_strlit("4");
        reveal_strlit("5");
        reveal_strlit("6");
        reveal_strlit("7");
        reveal_strlit("8");
        reveal_strlit("9");
        reveal_strlit("A");
        reveal_strlit("B");
        reveal_strlit("C");
        reveal_strlit("D");
        reveal_strlit("E");
        reveal_strlit("F");
    }
    let r = if n == 0 {
        "0"
    } else if n == 1 {
        "1"
    } else if n == 2 {
        "2"
    } else if n == 3 {
        "3"
    } else if n == 4 {
        "4"
    } else if n == 5 {
        "5"
    } else if n == 6 {
        "6"
    } else if n == 7 {
        "7"
    } else if n == 8 {
        "8"
    } else if n == 9 {
        "9"
    } else if n == 10 {
        "A"
    } else if n == 11 {
        "B"
    } else if n == 12 {
        "C"
    } else if n == 13 {
        "D"
    } else if n == 14 {
        "E"
    } else {
        "F"
    };
    assert(r@ =~= seq![hex_char(n as int)]);
    r
}

/// Writes a hash for a URL: each byte as `%` and two upper-case hexadecimal
/// digits.
pub fn escape_hash_to_string(hash: &Vec<u8>) -> (r: String)
    ensures
        r@ == escape_hash(hash@),
        r@.len() == 3 * hash@.len(),
{
    let mut out = String::from_str("");
    let mut i: usize = 0;
    proof {
        reveal_strlit("");
        assert(hash@.take(0) =~= Seq::<u8>::empty());
        assert(out@ =~= escape_hash(hash@.take(0)));
    }
    while i < hash.len()
        invariant
            i <= hash@.len(),
            out@ == escape_hash(hash@.take(i as int)),
            out@.len() == 3 * i,
        decreases hash@.len() - i,
    {
        let b: u8 = hash[i];
        proof {
            reveal_strlit("%");
            let longer = hash@.take(i + 1);
            assert(longer.drop_last() =~= hash@.take(i as int));
            assert(longer.last() == b);
        }
        let ghost before = out@;
        out.append("%");
        out.append(hex_digit(b / 16));
        out.append(hex_digit(b % 16));
        assert(out@ =~= before + escape_byte(b));
        i += 1;
    }
    assert(hash@.take(i as int) =~= hash@);
    out
}

/// The `info` entry of a torrent, if it has one.
pub fn get_info(torrent: &Vec<(Vec<u8>, BencodeValue)>) -> (r: Option<&BencodeValue>)
    ensures
        match lookup(entries_view(torrent@), info_key()) {
            Some(info) => r matches Some(found) && found@ == info,
            None => r is None,
        },
{
    // "info"
    let key: [u8; 4] = [105, 110, 102, 111];
    assert(key@ =~= info_key());
    dict_get(torrent, key.as_slice())
}

/// The announce URL that a torrent states.
pub open spec fn announce_url(torrent: Seq<(Seq<u8>, Value)>) -> Result<Seq<char>, TrackerError> {
    match lookup(torrent, announce_key()) {
        None => Err(TrackerError::MissingAnnounce),
        Some(Value::ByteString(bytes)) => if valid_utf8(bytes) {
            Ok(decode_utf8(bytes))
        } else {
            Err(TrackerError::AnnounceNotUtf8)
        },
        Some(_) => Err(TrackerError::AnnounceNotByteString),
    }
}

/// The announce URL of a torrent: its `announce` entry, which has to be a
/// byte string of valid UTF-8.
pub fn get_announce_url(torrent: &Vec<(Vec<u8>, BencodeValue)>) -> (r: Result<
    String,
    TrackerError,
>)
    ensures
        match announce_url(entries_view(torrent@)) {
            Ok(url) => r matches Ok(text) && text@ == url,
            Err(err) => r == Err::<String, TrackerError>(err),
        },
{
    // "announce"
    let key: [u8; 8] = [97, 110, 110, 111, 117, 110, 99, 101];
    assert(key@ =~= announce_key());
    match dict_get(torrent, key.as_slice()) {
        None => Err(TrackerError::MissingAnnounce),
        Some(announce) => match announce {
            BencodeValue::ByteString(bytes) => {
                match string_from_utf8(vstd::slice::slice_to_vec(bytes.as_slice())) {
                    Some(text) => Ok(text),
                    None => Err(TrackerError::AnnounceNotUtf8),
                }
            },
            _ => Err(TrackerError::AnnounceNotByteString),
        },
    }
}

/// The info hash of a torrent: the SHA-1 digest of the encoding of its
/// `info` entry. `None` where it has no such entry.
pub fn get_info_hash(torrent: &Vec<(Vec<u8>, BencodeValue)>) -> (r: Option<Vec<u8>>)
    ensures
        match lookup(entries_view(torrent@), info_key()) {
            Some(info) => r matches Some(hash) && hash@ == sha1_digest(encode(info))
                && hash@.len() == 20,
            None => r is None,
        },
{
    match get_info(torrent) {
        Some(info) => Some(get_hash(&bencode_element(info))),
        None => None,
    }
}

/// This client's peer id: the SHA-1 digest of a fixed text.
pub fn get_random_20byte_hash() -> (r: Vec<u8>)
    ensures
        r@ == sha1_digest(peer_id_seed()),
        r@.len() == 20,
{
    // "Dragonado is the goat"
    let seed: [u8; 21] = [
        68, 114, 97, 103, 111, 110, 97, 100, 111, 32, 105, 115, 32, 116, 104, 101, 32, 103, 111,
        97, 116,
    ];
    assert(seed@ =~= peer_id_seed());
    get_hash(&vstd::slice::slice_to_vec(seed.as_slice()))
}

/// The request URL: the announce URL, then the escaped info hash and peer
/// id and the port as query parameters.
pub open spec fn request_url(announce: Seq<char>, info_hash: Seq<u8>, peer_id: Seq<u8>) -> Seq<
    char,
> {
    announce + "?info_hash="@ + escape_hash(info_hash) + "&peer_id="@ + escape_hash(peer_id)
        + "&port=6881"@
}

/// Puts the request URL together from its parts.
pub fn tracker_url(announce: String, info_hash: &Vec<u8>, peer_id: &Vec<u8>) -> (r: String)
    ensures
        r@ == request_url(announce@, info_hash@, peer_id@),
{
    let mut url = announce;
    url.append("?info_hash=");
    url.append(escape_hash_to_string(info_hash).as_str());
    url.append("&peer_id=");
    url.append(escape_hash_to_string(peer_id).as_str());
    url.append("&port=6881");
    url
}

/// The URL that asks the tracker of a torrent for peers.
pub fn get_tracker_request_url(torrent: &Vec<(Vec<u8>, BencodeValue)>) -> (r: Result<
    String,
    TrackerError,
>)
    ensures
        match announce_url(entries_view(torrent@)) {
            Err(err) => r == Err::<String, TrackerError>(err),
            Ok(announce) => match lookup(entries_view(torrent@), info_key()) {
                None => r == Err::<String, TrackerError>(TrackerError::MissingInfo),
                Some(info) => r matches Ok(url) && url@ == request_url(
                    announce,
                    sha1_digest(encode(info)),
                    sha1_digest(peer_id_seed()),
                ),
            },
        },
{
    let announce = match get_announce_url(torrent) {
        Ok(announce) => announce,
        Err(err) => {
            return Err(err);
        },
    };
    let info_hash = match get_info_hash(torrent) {
        Some(hash) => hash,
        None => {
            return Err(TrackerError::MissingInfo);
        },
    };
    Ok(tracker_url(announce, &info_hash, &get_random_20byte_hash()))
}

/// Reads the reply of a tracker: it has to decode to a dictionary without
/// a `failure reason`.
pub fn read_tracker_response(response: &[u8]) -> (r: Result<BencodeValue, TrackerError>)
    ensures
        match decode_element(response@) {
            Err(kind) => r matches Err(TrackerError::Undecodable(err)) && err.kind() == kind,
            Ok(Value::Dictionary(entries)) => if lookup(entries, failure_reason_key()) is Some {
                r == Err::<BencodeValue, TrackerError>(TrackerError::FailureReason)
            } else {
                r matches Ok(reply) && reply@ == Value::Dictionary(entries)
            },
            Ok(_) => r == Err::<BencodeValue, TrackerError>(TrackerError::NotADictionary),
        },
{
    let decoded = match bdecode_element(response) {
        Ok(decoded) => decoded,
        Err(err) => {
            return Err(TrackerError::Undecodable(err));
        },
    };
    // "failure reason"
    let key: [u8; 14] = [102, 97, 105, 108, 117, 114, 101, 32, 114, 101, 97, 115, 111, 110];
    assert(key@ =~= failure_reason_key());
    let failed = match &decoded {
        BencodeValue::Dictionary(dict) => dict_get(dict, key.as_slice()).is_some(),
        _ => {
            return Err(TrackerError::NotADictionary);
        },
    };
    if failed {
        Err(TrackerError::FailureReason)
    } else {
        Ok(decoded)
    }
}

} // verus!
