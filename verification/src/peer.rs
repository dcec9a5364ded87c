//! Peers as a tracker reports them, and the handshake that opens a
//! connection to one.

use vstd::prelude::*;
use crate::bencode::{
    dict_get, entries_view, items_view, lookup, lossy_string, utf8_lossy, BencodeValue,
};
use crate::tracker_request::TrackerError;
use crate::value::Value;

verus! {

/// A peer: its address as text, its 20-byte id and its port.
#[derive(Debug, Default, Clone, PartialEq, Eq)]
pub struct PeerInfo {
    pub ip: String,
    pub peer_id: Vec<u8>,
    pub port: u16,
}

/// A peer as a mathematical object.
pub ghost struct Peer {
    pub ip: Seq<char>,
    pub peer_id: Seq<u8>,
    pub port: int,
}

impl View for PeerInfo {
    type V = Peer;

    open spec fn view(&self) -> Peer {
        Peer { ip: self.ip@, peer_id: self.peer_id@, port: self.port as int }
    }
}

/// The key `ip`.
pub open spec fn ip_key() -> Seq<u8> {
    seq![105u8, 112]
}

/// The key `peer id`.
pub open spec fn peer_id_key() -> Seq<u8> {
    seq![112u8, 101, 101, 114, 32, 105, 100]
}

/// The key `port`.
pub open spec fn port_key() -> Seq<u8> {
    seq![112u8, 111, 114, 116]
}

/// The key `peers`.
pub open spec fn peers_key() -> Seq<u8> {
    seq![112u8, 101, 101, 114, 115]
}

/// The peer that a value describes: a dictionary whose `ip` and `peer id`
/// are byte strings and whose `port` is an integer that is a port number.
/// Any other value describes none.
pub open spec fn peer_of(v: Value) -> Option<Peer> {
    match v {
        Value::Dictionary(entries) => match (
            lookup(entries, ip_key()),
            lookup(entries, peer_id_key()),
            lookup(entries, port_key()),
        ) {
            (
                Some(Value::ByteString(ip)),
                Some(Value::ByteString(peer_id)),
                Some(Value::Integer(port)),
            ) => if 0 <= port <= u16::MAX {
                Some(Peer { ip: utf8_lossy(ip), peer_id, port })
            } else {
                None
            },
            _ => None,
        },
        _ => None,
    }
}

/// The peers that the values of a list describe, in order; a value that
/// describes none is left out.
pub open spec fn peers_of(items: Seq<Value>) -> Seq<Peer>
    decreases items.len(),
{
    if items.len() == 0 {
        Seq::empty()
    } else {
        match peer_of(items.last()) {
            Some(peer) => peers_of(items.drop_last()).push(peer),
            None => peers_of(items.drop_last()),
        }
    }
}

/// The views of peers, in order.
pub open spec fn peers_view(peers: Seq<PeerInfo>) -> Seq<Peer> {
    Seq::new(peers.len(), |i: int| peers[i]@)
}

/// Reads a peer from the dictionary that a tracker sends for it. A port
/// outside `0..=65535` makes the entry unusable, as a missing field does.
pub fn get_info_from_peer_dict(peer: &BencodeValue) -> (r: Option<PeerInfo>)
    ensures
        match peer_of(peer@) {
            Some(described) => r matches Some(info) && info@ == described,
            None => r is None,
        },
{
    let dict = match peer {
        BencodeValue::Dictionary(dict) => dict,
        _ => {
            return None;
        },
    };
    // "ip", "peer id", "port"
    let ip_name: [u8; 2] = [105, 112];
    let peer_id_name: [u8; 7] = [112, 101, 101, 114, 32, 105, 100];
    let port_name: [u8; 4] = [112, 111, 114, 116];
    assert(ip_name@ =~= ip_key());
    assert(peer_id_name@ =~= peer_id_key());
    assert(port_name@ =~= port_key());
    let ip = match dict_get(dict, ip_name.as_slice()) {
        Some(BencodeValue::ByteString(ip)) => ip,
        _ => {
            return None;
        },
    };
    let peer_id = match dict_get(dict, peer_id_name.as_slice()) {
        Some(BencodeValue::ByteString(peer_id)) => peer_id,
        _ => {
            return None;
        },
    };
    let port = match dict_get(dict, port_name.as_slice()) {
        Some(BencodeValue::Integer(port)) => *port,
        _ => {
            return None;
        },
    };
    if port < 0 || port > 65535 {
        return None;
    }
    Some(
        PeerInfo {
            ip: lossy_string(ip.as_slice()),
            peer_id: vstd::slice::slice_to_vec(peer_id.as_slice()),
            port: port as u16,
        },
    )
}

/// The peers of a tracker reply: its `peers` entry has to be a list, and
/// each item of it that describes a peer gives one.
pub fn get_all_peers_info(tracker_response: &Vec<(Vec<u8>, BencodeValue)>) -> (r: Result<
    Vec<PeerInfo>,
    TrackerError,
>)
    ensures
        match lookup(entries_view(tracker_response@), peers_key()) {
            None => r == Err::<Vec<PeerInfo>, TrackerError>(TrackerError::MissingPeers),
            Some(Value::List(items)) => r matches Ok(peers) && peers_view(peers@) == peers_of(
                items,
            ),
            Some(_) => r == Err::<Vec<PeerInfo>, TrackerError>(TrackerError::PeersNotAList),
        },
{
    // "peers"
    let key: [u8; 5] = [112, 101, 101, 114, 115];
    assert(key@ =~= peers_key());
    let peers = match dict_get(tracker_response, key.as_slice()) {
        None => {
            return Err(TrackerError::MissingPeers);
        },
        Some(BencodeValue::List(peers)) => peers,
        Some(_) => {
            return Err(TrackerError::PeersNotAList);
        },
    };
    let ghost items = items_view(peers@);
    let mut found: Vec<PeerInfo> = Vec::new();
    let mut i: usize = 0;
    proof {
        assert(items.take(0) =~= Seq::<Value>::empty());
        assert(peers_view(found@) =~= peers_of(items.take(0)));
    }
    while i < peers.len()
        invariant
            items == items_view(peers@),
            i <= peers@.len(),
            peers_view(found@) == peers_of(items.take(i as int)),
        decreases peers@.len() - i,
    {
        proof {
            let longer = items.take(i + 1);
            assert(longer.drop_last() =~= items.take(i as int));
            assert(longer.last() == peers@[i as int]@);
        }
        match get_info_from_peer_dict(&peers[i]) {
            None => {},
            Some(peer_info) => {
                assert(peers_view(found@.push(peer_info)) =~= peers_view(found@).push(
                    peer_info@,
                ));
                found.push(peer_info);
            },
        }
        i += 1;
    }
    assert(items.take(i as int) =~= items);
    Ok(found)
}

/// The name of the protocol, `BitTorrent protocol`.
pub open spec fn protocol_name() -> Seq<u8> {
    seq![
        66u8, 105, 116, 84, 111, 114, 114, 101, 110, 116, 32, 112, 114, 111, 116, 111, 99, 111,
        108,
    ]
}

/// The handshake: the length of the protocol name, the name, eight
/// reserved zero bytes, the info hash and the peer id.
pub open spec fn handshake(info_hash: Seq<u8>, peer_id: Seq<u8>) -> Seq<u8> {
    seq![19u8] + protocol_name() + Seq::new(8, |i: int| 0u8) + info_hash + peer_id
}

/// Builds the 68 bytes that open a connection to a peer.
pub fn handshake_message(info_hash: &[u8], peer_id: &[u8]) -> (r: Vec<u8>)
    requires
        info_hash@.len() + peer_id@.len() == 40,
    ensures
        r@ == handshake(info_hash@, peer_id@),
        r@.len() == 68,
{
    // "BitTorrent protocol"
    let pstr: [u8; 19] = [
        66, 105, 116, 84, 111, 114, 114, 101, 110, 116, 32, 112, 114, 111, 116, 111, 99, 111, 108,
    ];
    let reserved: [u8; 8] = [0, 0, 0, 0, 0, 0, 0, 0];
    assert(pstr@ =~= protocol_name());
    assert(reserved@ =~= Seq::new(8, |i: int| 0u8));
    let mut message: Vec<u8> = Vec::new();
    message.push(19);
    let mut name = vstd::slice::slice_to_vec(pstr.as_slice());
    message.append(&mut name);
    let mut zeros = vstd::slice::slice_to_vec(reserved.as_slice());
    message.append(&mut zeros);
    let mut hash = vstd::slice::slice_to_vec(info_hash);
    message.append(&mut hash);
    let mut id = vstd::slice::slice_to_vec(peer_id);
    message.append(&mut id);
    assert(message@ =~= handshake(info_hash@, peer_id@));
    message
}

} // verus!
