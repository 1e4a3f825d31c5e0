use torrent_core::peers::{
    decode_message, handshake_bytes, handshake_valid, Connection, Decision, Expect, Message, Reply,
    Seed, State,
};

const INFO_HASH: [u8; 20] = [0x11; 20];
const MY_ID: [u8; 20] = [0x22; 20];
const PEER_ID: [u8; 20] = [0x33; 20];

fn go(expect: Expect) -> Decision {
    Decision::Continue { expect, deadline_secs: 10 }
}

fn inbound_ready() -> Connection {
    let (mut c, step) = Connection::new(Seed::Listen, INFO_HASH.to_vec(), MY_ID.to_vec(), 10);
    assert_eq!(step.decision, go(Expect::Bytes(1)));
    let h = handshake_bytes(&INFO_HASH, &PEER_ID);
    let step = c.bytes_ready(&h);
    assert_eq!(step.decision, go(Expect::Bytes(68)));
    assert_eq!(step.consumed, 0);
    let step = c.bytes_ready(&h);
    assert_eq!(step.consumed, 68);
    assert_eq!(c.state, State::SendReply);
    assert_eq!(c.peer_id, Some(PEER_ID.to_vec()));
    let step = c.flush_done();
    assert_eq!(step.output, handshake_bytes(&INFO_HASH, &MY_ID));
    assert_eq!(step.decision, go(Expect::Bytes(4)));
    assert_eq!(c.state, State::AwaitMessageHeader);
    c
}

#[test]
fn handshake_layout() {
    let h = handshake_bytes(&INFO_HASH, &MY_ID);
    assert_eq!(h.len(), 68);
    assert_eq!(h[0], 19);
    assert_eq!(&h[1..20], b"BitTorrent protocol");
    assert_eq!(&h[20..28], &[0u8; 8]);
    assert_eq!(&h[28..48], &INFO_HASH);
    assert_eq!(&h[48..68], &MY_ID);
    assert!(handshake_valid(&h, &INFO_HASH));
}

#[test]
fn inbound_handshake_and_reply() {
    let c = inbound_ready();
    assert!(c.remote.choked && !c.remote.interested);
}

#[test]
fn outbound_handshake() {
    let (mut c, step) = Connection::new(Seed::Connect, INFO_HASH.to_vec(), MY_ID.to_vec(), 10);
    assert_eq!(step.decision, go(Expect::Flush));
    let step = c.flush_done();
    assert_eq!(step.output, handshake_bytes(&INFO_HASH, &MY_ID));
    assert_eq!(c.state, State::AwaitPeerStrLen(Reply::No));
    let h = handshake_bytes(&INFO_HASH, &PEER_ID);
    c.bytes_ready(&h);
    let step = c.bytes_ready(&h);
    assert_eq!(step.decision, go(Expect::Bytes(4)));
    assert_eq!(c.state, State::AwaitMessageHeader);
}

#[test]
fn wrong_protocol_closes() {
    let (mut c, _) = Connection::new(Seed::Listen, INFO_HASH.to_vec(), MY_ID.to_vec(), 10);
    let mut h = handshake_bytes(&INFO_HASH, &PEER_ID);
    h[5] = b'X';
    c.bytes_ready(&h);
    let step = c.bytes_ready(&h);
    assert_eq!(step.decision, Decision::Close);
    assert_eq!(c.state, State::Closed);
    assert_eq!(c.peer_id, None);
    let step = c.bytes_ready(&[0, 0, 0, 1, 2]);
    assert_eq!(step.decision, Decision::Close);
    assert_eq!(step.event, None);
}

#[test]
fn wrong_info_hash_closes() {
    let (mut c, _) = Connection::new(Seed::Listen, INFO_HASH.to_vec(), MY_ID.to_vec(), 10);
    let h = handshake_bytes(&[0x12; 20], &PEER_ID);
    c.bytes_ready(&h);
    assert_eq!(c.bytes_ready(&h).decision, Decision::Close);
    assert_eq!(c.state, State::Closed);
}

#[test]
fn wrong_protocol_length_closes() {
    let (mut c, _) = Connection::new(Seed::Listen, INFO_HASH.to_vec(), MY_ID.to_vec(), 10);
    let mut h = vec![18u8];
    h.extend_from_slice(b"BitTorrent protoco");
    h.extend_from_slice(&[0u8; 48]);
    let step = c.bytes_ready(&h);
    assert_eq!(step.decision, go(Expect::Bytes(67)));
    assert_eq!(c.bytes_ready(&h).decision, Decision::Close);
}

#[test]
fn keep_alive_changes_nothing() {
    let mut c = inbound_ready();
    let remote = c.remote;
    let step = c.bytes_ready(&[0, 0, 0, 0]);
    assert_eq!(step.decision, go(Expect::Bytes(4)));
    assert_eq!(step.consumed, 4);
    assert_eq!(step.event, None);
    assert!(step.output.is_empty());
    assert_eq!(c.state, State::AwaitMessageHeader);
    assert_eq!(c.remote, remote);
}

#[test]
fn choke_and_interest_messages() {
    let mut c = inbound_ready();
    let step = c.bytes_ready(&[0, 0, 0, 1]);
    assert_eq!(step.decision, go(Expect::Bytes(1)));
    assert_eq!(c.state, State::AwaitMessageBody(1));
    let step = c.bytes_ready(&[1]);
    assert_eq!(step.event, Some(Message::Unchoke));
    assert!(!c.remote.choked);
    c.bytes_ready(&[0, 0, 0, 1]);
    c.bytes_ready(&[2]);
    assert!(c.remote.interested);
    c.bytes_ready(&[0, 0, 0, 1]);
    c.bytes_ready(&[3]);
    assert!(!c.remote.interested);
    c.bytes_ready(&[0, 0, 0, 1]);
    let step = c.bytes_ready(&[0]);
    assert_eq!(step.event, Some(Message::Choke));
    assert!(c.remote.choked);
    assert!(c.local.choked && !c.local.interested);
}

#[test]
fn message_bodies() {
    assert_eq!(decode_message(&[4, 0, 0, 1, 2]), Some(Message::Have(258)));
    assert_eq!(decode_message(&[5, 0xff, 0x80]), Some(Message::Bitfield(vec![0xff, 0x80])));
    assert_eq!(
        decode_message(&[6, 0, 0, 0, 1, 0, 0, 0, 2, 0, 0, 0x40, 0]),
        Some(Message::Request { index: 1, begin: 2, length: 16384 })
    );
    assert_eq!(
        decode_message(&[7, 0, 0, 0, 1, 0, 0, 0, 2, 9, 8]),
        Some(Message::Piece { index: 1, begin: 2, block: vec![9, 8] })
    );
    assert_eq!(
        decode_message(&[8, 0, 0, 0, 1, 0, 0, 0, 2, 0, 0, 0, 3]),
        Some(Message::Cancel { index: 1, begin: 2, length: 3 })
    );
    assert_eq!(decode_message(&[9, 0x1a, 0xe1]), Some(Message::Port(6881)));
    assert_eq!(decode_message(&[4, 0, 0]), None);
    assert_eq!(decode_message(&[10]), None);
    assert_eq!(decode_message(&[0, 1]), None);
    assert_eq!(decode_message(&[]), None);
}

#[test]
fn unknown_message_closes() {
    let mut c = inbound_ready();
    c.bytes_ready(&[0, 0, 0, 1]);
    assert_eq!(c.bytes_ready(&[42]).decision, Decision::Close);
    assert_eq!(c.state, State::Closed);
}

#[test]
fn short_input_waits() {
    let mut c = inbound_ready();
    let step = c.bytes_ready(&[0, 0]);
    assert_eq!(step.decision, go(Expect::Bytes(4)));
    assert_eq!(step.consumed, 0);
    assert_eq!(c.state, State::AwaitMessageHeader);
}

#[test]
fn timeout_and_wakeup() {
    let mut c = inbound_ready();
    let step = c.wakeup();
    assert_eq!(step.decision, go(Expect::Bytes(4)));
    assert_eq!(c.state, State::AwaitMessageHeader);
    assert_eq!(c.timeout().decision, Decision::Close);
    assert_eq!(c.state, State::Closed);
    assert_eq!(c.wakeup().decision, Decision::Close);
    assert_eq!(c.flush_done().decision, Decision::Close);
}

#[test]
fn unexpected_flush_closes() {
    let mut c = inbound_ready();
    assert_eq!(c.flush_done().decision, Decision::Close);
}
