//! A canonical Bencode codec and the pure parts of a small BitTorrent client
//! built on it.

pub mod lexical;
pub mod decimal;
pub mod value;
pub mod bencode;
pub mod grammar;
pub mod bdecode;
pub mod round_trip;
pub mod tracker_request;
pub mod peer;
