use torrent::bdecode::{bdecode_element, ErrorKind};
use torrent::bencode::{dict_get, BencodeValue};
use torrent::peer::{get_all_peers_info, get_info_from_peer_dict, handshake_message, PeerInfo};
use torrent::tracker_request::{
    escape_hash_to_string, get_announce_url, get_info, get_info_hash, get_random_20byte_hash,
    get_tracker_request_url, hex_digit, read_tracker_response, tracker_url, TrackerError,
};

const INFO: &[u8] =
    b"d6:lengthi12e4:name5:a.txt12:piece lengthi16384e6:pieces20:aaaaaaaaaaaaaaaaaaaae";

const INFO_HASH: [u8; 20] = [
    121, 26, 142, 118, 51, 75, 241, 214, 128, 150, 171, 193, 165, 110, 108, 12, 202, 114, 237, 137,
];

const PEER_ID: [u8; 20] = [
    197, 0, 143, 7, 187, 186, 198, 63, 91, 182, 24, 137, 255, 173, 30, 184, 102, 134, 214, 206,
];

fn entries(input: &[u8]) -> Vec<(Vec<u8>, BencodeValue)> {
    match bdecode_element(input).unwrap() {
        BencodeValue::Dictionary(entries) => entries,
        other => panic!("expected a dictionary but got: {:?}", other),
    }
}

fn torrent() -> Vec<(Vec<u8>, BencodeValue)> {
    let mut bytes = b"d8:announce22:http://tracker.test/an4:info".to_vec();
    bytes.extend_from_slice(INFO);
    bytes.push(b'e');
    entries(&bytes)
}

#[test]
fn lookup_finds_the_entry_of_a_key() {
    let dict = entries(b"d1:ai1e2:abi2e1:bi3ee");
    assert_eq!(dict_get(&dict, b"a"), Some(&BencodeValue::Integer(1)));
    assert_eq!(dict_get(&dict, b"ab"), Some(&BencodeValue::Integer(2)));
    assert_eq!(dict_get(&dict, b"b"), Some(&BencodeValue::Integer(3)));
    assert_eq!(dict_get(&dict, b""), None);
    assert_eq!(dict_get(&dict, b"abc"), None);
    assert_eq!(dict_get(&Vec::new(), b"a"), None);
}

#[test]
fn hex_digits_are_upper_case() {
    let all: Vec<&str> = (0u8..16).map(hex_digit).collect();
    assert_eq!(all.concat(), "0123456789ABCDEF");
}

#[test]
fn hash_is_escaped_byte_by_byte() {
    assert_eq!(escape_hash_to_string(&Vec::new()), "");
    assert_eq!(escape_hash_to_string(&vec![0u8, 9, 10, 15, 16, 171, 255]), "%00%09%0A%0F%10%AB%FF");
    assert_eq!(
        escape_hash_to_string(&PEER_ID.to_vec()),
        "%C5%00%8F%07%BB%BA%C6%3F%5B%B6%18%89%FF%AD%1E%B8%66%86%D6%CE"
    );
}

#[test]
fn peer_id_is_the_digest_of_the_seed() {
    assert_eq!(get_random_20byte_hash(), PEER_ID.to_vec());
}

#[test]
fn info_hash_is_the_digest_of_the_encoded_info() {
    assert_eq!(get_info_hash(&torrent()), Some(INFO_HASH.to_vec()));
    assert_eq!(get_info(&torrent()), Some(&bdecode_element(INFO).unwrap()));
    let empty_info = entries(b"d4:infodee");
    assert_eq!(
        get_info_hash(&empty_info),
        Some(vec![
            96, 12, 205, 27, 113, 86, 146, 50, 208, 29, 17, 11, 198, 62, 144, 107, 234, 176, 77,
            140
        ])
    );
}

#[test]
fn info_hash_needs_an_info_entry() {
    let no_info = entries(b"d8:announce3:urle");
    assert_eq!(get_info(&no_info), None);
    assert_eq!(get_info_hash(&no_info), None);
}

#[test]
fn announce_url_is_read_from_the_torrent() {
    assert_eq!(get_announce_url(&torrent()), Ok("http://tracker.test/an".to_string()));
    assert_eq!(get_announce_url(&entries(b"d4:infodee")), Err(TrackerError::MissingAnnounce));
    assert_eq!(
        get_announce_url(&entries(b"d8:announcei1ee")),
        Err(TrackerError::AnnounceNotByteString)
    );
    assert_eq!(
        get_announce_url(&entries(b"d8:announce2:\xff\xfee")),
        Err(TrackerError::AnnounceNotUtf8)
    );
    assert_eq!(
        get_announce_url(&entries(b"d8:announce2:\xc3\xa9e")),
        Ok("\u{e9}".to_string())
    );
}

#[test]
fn request_url_is_put_together_from_its_parts() {
    assert_eq!(
        tracker_url("http://t/a".to_string(), &vec![1u8, 255], &vec![171u8]),
        "http://t/a?info_hash=%01%FF&peer_id=%AB&port=6881"
    );
}

#[test]
fn request_url_of_a_torrent() {
    assert_eq!(
        get_tracker_request_url(&torrent()),
        Ok(concat_url(
            "http://tracker.test/an",
            "%79%1A%8E%76%33%4B%F1%D6%80%96%AB%C1%A5%6E%6C%0C%CA%72%ED%89",
            "%C5%00%8F%07%BB%BA%C6%3F%5B%B6%18%89%FF%AD%1E%B8%66%86%D6%CE"
        ))
    );
    assert_eq!(
        get_tracker_request_url(&entries(b"d4:infodee")),
        Err(TrackerError::MissingAnnounce)
    );
    assert_eq!(
        get_tracker_request_url(&entries(b"d8:announce1:ue")),
        Err(TrackerError::MissingInfo)
    );
}

fn concat_url(announce: &str, info_hash: &str, peer_id: &str) -> String {
    format!("{}?info_hash={}&peer_id={}&port=6881", announce, info_hash, peer_id)
}

#[test]
fn tracker_reply_is_checked() {
    let ok = read_tracker_response(b"d8:intervali1800e5:peerslee").unwrap();
    assert_eq!(ok, bdecode_element(b"d8:intervali1800e5:peerslee").unwrap());
    assert_eq!(
        read_tracker_response(b"d14:failure reason4:nopee"),
        Err(TrackerError::FailureReason)
    );
    assert_eq!(read_tracker_response(b"li1ee"), Err(TrackerError::NotADictionary));
    assert_eq!(read_tracker_response(b""), Err(TrackerError::NotADictionary));
    match read_tracker_response(b"d5:peersle") {
        Err(TrackerError::Undecodable(err)) => {
            assert_eq!(err.error_kind(), ErrorKind::MissingTerminator)
        }
        other => panic!("expected a decoding failure but got: {:?}", other),
    }
}

#[test]
fn peer_is_read_from_its_dictionary() {
    let peer = bdecode_element(b"d2:ip9:127.0.0.17:peer id20:aaaaaaaaaaaaaaaaaaaa4:porti6881ee")
        .unwrap();
    assert_eq!(
        get_info_from_peer_dict(&peer),
        Some(PeerInfo { ip: "127.0.0.1".to_string(), peer_id: vec![b'a'; 20], port: 6881 })
    );
    let lossy = bdecode_element(b"d2:ip2:\xff17:peer id1:x4:porti0ee").unwrap();
    assert_eq!(
        get_info_from_peer_dict(&lossy),
        Some(PeerInfo { ip: "\u{fffd}1".to_string(), peer_id: vec![b'x'], port: 0 })
    );
}

#[test]
fn unusable_peer_entries_give_none() {
    let cases: Vec<&[u8]> = vec![
        b"i1e",
        b"le",
        b"de",
        b"d7:peer id1:x4:porti1ee",
        b"d2:ip1:a4:porti1ee",
        b"d2:ip1:a7:peer id1:xe",
        b"d2:ipi1e7:peer id1:x4:porti1ee",
        b"d2:ip1:a7:peer idi1e4:porti1ee",
        b"d2:ip1:a7:peer id1:x4:port1:1e",
        b"d2:ip1:a7:peer id1:x4:porti65536ee",
        b"d2:ip1:a7:peer id1:x4:porti-1ee",
    ];
    for case in cases {
        assert_eq!(get_info_from_peer_dict(&bdecode_element(case).unwrap()), None);
    }
    let top = bdecode_element(b"d2:ip1:a7:peer id1:x4:porti65535ee").unwrap();
    assert_eq!(get_info_from_peer_dict(&top).map(|p| p.port), Some(65535));
}

#[test]
fn peers_of_a_reply_keep_their_order() {
    let reply = entries(
        b"d5:peersld2:ip1:a7:peer id1:x4:porti1eei7ed2:ip1:b7:peer id1:y4:porti2eed2:ip1:ceee",
    );
    assert_eq!(
        get_all_peers_info(&reply),
        Ok(vec![
            PeerInfo { ip: "a".to_string(), peer_id: vec![b'x'], port: 1 },
            PeerInfo { ip: "b".to_string(), peer_id: vec![b'y'], port: 2 },
        ])
    );
    assert_eq!(get_all_peers_info(&entries(b"d5:peerslee")), Ok(Vec::new()));
    assert_eq!(get_all_peers_info(&entries(b"de")), Err(TrackerError::MissingPeers));
    assert_eq!(get_all_peers_info(&entries(b"d5:peers0:e")), Err(TrackerError::PeersNotAList));
}

#[test]
fn handshake_is_68_bytes() {
    let message = handshake_message(&INFO_HASH, &PEER_ID);
    assert_eq!(message.len(), 68);
    assert_eq!(message[0], 19);
    assert_eq!(&message[1..20], b"BitTorrent protocol");
    assert_eq!(&message[20..28], &[0u8; 8]);
    assert_eq!(&message[28..48], &INFO_HASH);
    assert_eq!(&message[48..68], &PEER_ID);
}
