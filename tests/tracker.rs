use torrent_core::bencode::{ReadError, BINT_TYPE_NAME, BSTRING_TYPE_NAME};
use torrent_core::sha1bytes::SHA1Hash;
use torrent_core::tracker::{announce_query, compact_peer_list, parse, Error, Peer};

fn s(b: &[u8]) -> Vec<u8> {
    let mut out = format!("{}:", b.len()).into_bytes();
    out.extend_from_slice(b);
    out
}

fn i(n: i64) -> Vec<u8> {
    format!("i{}e", n).into_bytes()
}

fn d(entries: &[(&str, Vec<u8>)]) -> Vec<u8> {
    let mut out = b"d".to_vec();
    for (k, v) in entries {
        out.extend(s(k.as_bytes()));
        out.extend_from_slice(v);
    }
    out.push(b'e');
    out
}

const TWO_PEERS: [u8; 12] = [0x7f, 0, 0, 1, 0x1a, 0xe1, 10, 1, 2, 3, 0, 80];

#[test]
fn announcement_with_two_peers() {
    let bs = d(&[
        ("complete", i(5)),
        ("downloaded", i(7)),
        ("incomplete", i(2)),
        ("interval", i(1800)),
        ("peers", s(&TWO_PEERS)),
    ]);
    let a = parse(&bs).unwrap();
    assert_eq!(a.interval, 1800);
    assert_eq!(a.complete, Some(5));
    assert_eq!(a.downloaded, Some(7));
    assert_eq!(a.incomplete, Some(2));
    assert_eq!(
        a.peers,
        vec![Peer { ip: [127, 0, 0, 1], port: 6881 }, Peer { ip: [10, 1, 2, 3], port: 80 }]
    );
}

#[test]
fn compact_peers_length() {
    assert_eq!(compact_peer_list(&TWO_PEERS[..7]), Err(Error::BadPeerFormat));
    assert_eq!(compact_peer_list(&TWO_PEERS[..6]), Ok(vec![Peer { ip: [127, 0, 0, 1], port: 6881 }]));
    assert_eq!(compact_peer_list(&[]), Ok(vec![]));
    let bs = d(&[("interval", i(1)), ("peers", s(&TWO_PEERS[..11]))]);
    assert_eq!(parse(&bs), Err(Error::BadPeerFormat));
}

#[test]
fn optional_counts() {
    let bs = d(&[("complete", s(b"x")), ("interval", i(1)), ("peers", s(&[]))]);
    let a = parse(&bs).unwrap();
    assert_eq!(a.complete, None);
    assert_eq!(a.downloaded, None);
    assert_eq!(a.incomplete, None);
    assert_eq!(a.peers, vec![]);
}

#[test]
fn interval_keeps_low_bits() {
    let bs = d(&[("interval", i(4294967297)), ("peers", s(&[]))]);
    assert_eq!(parse(&bs).unwrap().interval, 1);
}

#[test]
fn required_keys() {
    let bs = d(&[("peers", s(&[]))]);
    assert_eq!(parse(&bs), Err(Error::MissingKey("interval")));
    let bs = d(&[("interval", i(1))]);
    assert_eq!(parse(&bs), Err(Error::MissingKey("peers")));
    let bs = d(&[("interval", s(b"1")), ("peers", s(&[]))]);
    assert_eq!(
        parse(&bs),
        Err(Error::BencodeValError {
            for_key: "interval",
            err: ReadError::WrongType { found: BSTRING_TYPE_NAME, expected: BINT_TYPE_NAME },
        })
    );
}

#[test]
fn failure_reason_decides() {
    let bs = d(&[("failure reason", s(b"unregistered torrent"))]);
    assert_eq!(parse(&bs), Err(Error::TrackerReason("unregistered torrent".to_string())));
    let bs = d(&[("failure reason", i(3)), ("interval", i(1)), ("peers", s(&[]))]);
    assert_eq!(
        parse(&bs),
        Err(Error::BencodeValError {
            for_key: "failure reason",
            err: ReadError::WrongType { found: BINT_TYPE_NAME, expected: BSTRING_TYPE_NAME },
        })
    );
}

#[test]
fn tracker_whole_buffer_errors() {
    let mut bs = d(&[("interval", i(1)), ("peers", s(&[]))]);
    assert_eq!(parse(&bs[..bs.len() - 1]), Err(Error::MissingBytes));
    bs.push(b'e');
    assert_eq!(parse(&bs), Err(Error::ExtraBytes));
    assert_eq!(parse(b"le"), Err(Error::BencodeParseError));
}

#[test]
fn query_string() {
    let info_hash = SHA1Hash::from_prehashed(&[0xab; 20]);
    let peer_id = SHA1Hash::from_prehashed(b"-TC0001-012345678901");
    let q = announce_query("/announce", &info_hash, &peer_id, 6881, 1000, 7);
    let mut expected = String::from("/announce?info_hash=");
    for _ in 0..20 {
        expected.push_str("%AB");
    }
    expected.push_str("&peer_id=");
    for b in b"-TC0001-012345678901" {
        expected.push_str(&format!("%{:02X}", b));
    }
    expected.push_str("&port=6881&uploaded=0&downloaded=0&left=1000&numwant=7&event=started");
    assert_eq!(q, expected);
    let q = announce_query("", &info_hash, &peer_id, 0, 0, 0);
    assert!(q.ends_with("&port=0&uploaded=0&downloaded=0&left=0&numwant=0&event=started"));
}
