//! Protocol core of a peer-to-peer file-sharing client: the bencode codec,
//! typed decoders for torrent metadata and tracker responses, and the
//! per-connection peer wire state machine.

pub mod bencode;
pub mod grammar;
pub mod codec;
pub mod roundtrip;
pub mod sha1bytes;
pub mod metainfo;
pub mod tracker;
pub mod peers;
