//! Tracker responses: the strict mapping from a decoded dictionary to an
//! announcement, and the query string that asks a tracker for one.

use vstd::prelude::*;
use vstd::string::{StringExecFns, StringSliceAdditionalSpecFns};
use vstd::utf8::{decode_utf8, valid_utf8};
use crate::bencode::{
    BDICT_TYPE_NAME, BSTRING_TYPE_NAME, BVal, DecodeError, FieldError, ReadError, dict_get,
    field_bytes, field_int, get_bytes, get_int, lookup,
};
use crate::codec::{bdict, utf8_error_of};
use crate::grammar::spec_dict;
use crate::sha1bytes::{SHA1Hash, percent_escaped};

verus! {

broadcast use vstd::utf8::encode_utf8_decode_utf8;

pub const ROOT_KEY: &'static str = "_root_";

pub const COMPLETE_KEY: &'static str = "complete";

pub const DOWNLOADED_KEY: &'static str = "downloaded";

pub const INCOMPLETE_KEY: &'static str = "incomplete";

pub const INTERVAL_KEY: &'static str = "interval";

pub const PEERS_KEY: &'static str = "peers";

pub const FAILURE_REASON_KEY: &'static str = "failure reason";

/// A peer's IPv4 address, octets in network order, and its port.
#[derive(Debug, PartialEq, Clone, Copy)]
pub struct Peer {
    pub ip: [u8; 4],
    pub port: u16,
}

/// A tracker's answer to an announce.
#[derive(Debug, PartialEq)]
pub struct Announcement {
    pub complete: Option<i32>,
    pub downloaded: Option<i32>,
    pub incomplete: Option<i32>,
    pub interval: i32,
    pub peers: Vec<Peer>,
}

#[derive(Debug, PartialEq)]
pub enum Error {
    MissingKey(&'static str),
    BadPeerFormat,
    BencodeValError { for_key: &'static str, err: ReadError },
    ExtraBytes,
    MissingBytes,
    BencodeParseError,
    /// The tracker refused the announce, for the reason given.
    TrackerReason(String),
}

pub open spec fn field_err(e: FieldError) -> Error {
    match e {
        FieldError::MissingKey(k) => Error::MissingKey(k),
        FieldError::Invalid { for_key, err } => Error::BencodeValError { for_key, err },
    }
}

/// The integer under `key` as an `i32`, keeping its low 32 bits.
pub open spec fn field_i32<'a>(d: Seq<(&'a str, BVal<'a>)>, key: &'static str) -> Result<i32, Error> {
    match field_int(d, key) {
        Ok(i) => Ok(i as i32),
        Err(e) => Err(field_err(e)),
    }
}

pub open spec fn optional<T, E>(r: Result<T, E>) -> Option<T> {
    match r {
        Ok(x) => Some(x),
        Err(_) => None,
    }
}

/// `peers` holds the peers of the compact form `b`: six bytes each, four of
/// address and a big-endian port.
pub open spec fn compact_peers(peers: Seq<Peer>, b: Seq<u8>) -> bool {
    &&& peers.len() == b.len() / 6
    &&& forall|i: int|
        0 <= i < peers.len() ==> (#[trigger] peers[i]).ip@ == b.subrange(6 * i, 6 * i + 4)
            && peers[i].port == b[6 * i + 4] * 256 + b[6 * i + 5]
}

/// `r` is what decoding the tracker response held by `v` gives. A
/// `failure reason` entry decides alone; otherwise `interval` and `peers`
/// are required, and the counts are kept where they are integers.
pub open spec fn announce_result<'a>(v: BVal<'a>, r: Result<Announcement, Error>) -> bool {
    match v {
        BVal::BDict(d) => match lookup(d@, FAILURE_REASON_KEY.spec_bytes()) {
            Some(BVal::BString(b)) => if valid_utf8(b@) {
                r matches Err(Error::TrackerReason(s)) && s@ == decode_utf8(b@)
            } else {
                r == Err::<Announcement, Error>(
                    Error::BencodeValError {
                        for_key: FAILURE_REASON_KEY,
                        err: ReadError::BadString(utf8_error_of(b@)),
                    },
                )
            },
            Some(fr) => r == Err::<Announcement, Error>(
                Error::BencodeValError {
                    for_key: FAILURE_REASON_KEY,
                    err: fr.wrong_type(BSTRING_TYPE_NAME),
                },
            ),
            None => match field_i32(d@, INTERVAL_KEY) {
                Err(e) => r == Err::<Announcement, Error>(e),
                Ok(interval) => match field_bytes(d@, PEERS_KEY) {
                    Err(e) => r == Err::<Announcement, Error>(field_err(e)),
                    Ok(bs) => if bs@.len() % 6 != 0 {
                        r == Err::<Announcement, Error>(Error::BadPeerFormat)
                    } else {
                        r matches Ok(a) && a.interval == interval && a.complete == optional(
                            field_i32(d@, COMPLETE_KEY),
                        ) && a.downloaded == optional(field_i32(d@, DOWNLOADED_KEY)) && a.incomplete
                            == optional(field_i32(d@, INCOMPLETE_KEY)) && compact_peers(
                            a.peers@,
                            bs@,
                        )
                    },
                },
            },
        },
        _ => r == Err::<Announcement, Error>(
            Error::BencodeValError { for_key: ROOT_KEY, err: v.wrong_type(BDICT_TYPE_NAME) },
        ),
    }
}

/// Decodes a tracker response: one dictionary filling the whole buffer.
pub fn parse<'a>(contents: &'a [u8]) -> (r: Result<Announcement, Error>)
    ensures
        match spec_dict(contents@) {
            Ok((v, n)) => if n == contents@.len() {
                exists|b: BVal<'a>| b.view() == v && announce_result(b, r)
            } else {
                r == Err::<Announcement, Error>(Error::ExtraBytes)
            },
            Err(DecodeError::Incomplete) => r == Err::<Announcement, Error>(Error::MissingBytes),
            Err(_) => r == Err::<Announcement, Error>(Error::BencodeParseError),
        },
{
    proof {
        crate::grammar::lemma_value_len(contents@, crate::grammar::MAX_DEPTH as nat);
    }
    match bdict(contents) {
        Ok((rest, bv)) => if rest.len() == 0 {
            announce_from_bval(bv)
        } else {
            Err(Error::ExtraBytes)
        },
        Err(DecodeError::Incomplete) => Err(Error::MissingBytes),
        Err(_) => Err(Error::BencodeParseError),
    }
}

fn field_error(e: FieldError) -> (r: Error)
    ensures
        r == field_err(e),
{
    match e {
        FieldError::MissingKey(k) => Error::MissingKey(k),
        FieldError::Invalid { for_key, err } => Error::BencodeValError { for_key, err },
    }
}

/// The integer under `key`, keeping its low 32 bits.
pub fn get_opt_i32<'a>(m: &Vec<(&'a str, BVal<'a>)>, key: &'static str) -> (r: Result<i32, Error>)
    ensures
        r == field_i32(m@, key),
{
    match get_int(m, key) {
        Ok(i) => Ok(#[verifier::truncate] (i as i32)),
        Err(e) => Err(field_error(e)),
    }
}

/// Decodes the compact peer list `bs`.
pub fn compact_peer_list(bs: &[u8]) -> (r: Result<Vec<Peer>, Error>)
    ensures
        bs@.len() % 6 != 0 ==> r == Err::<Vec<Peer>, Error>(Error::BadPeerFormat),
        bs@.len() % 6 == 0 ==> (r matches Ok(peers) && compact_peers(peers@, bs@)),
{
    if bs.len() % 6 != 0 {
        return Err(Error::BadPeerFormat);
    }
    let mut peers: Vec<Peer> = Vec::new();
    let mut k: usize = 0;
    while k < bs.len()
        invariant
            bs@.len() % 6 == 0,
            k == 6 * peers@.len(),
            k <= bs@.len(),
            forall|i: int|
                0 <= i < peers@.len() ==> (#[trigger] peers@[i]).ip@ == bs@.subrange(6 * i, 6 * i + 4)
                    && peers@[i].port == bs@[6 * i + 4] * 256 + bs@[6 * i + 5],
        decreases bs@.len() - k,
    {
        assert(k + 6 <= bs@.len());
        let ip: [u8; 4] = [bs[k], bs[k + 1], bs[k + 2], bs[k + 3]];
        assert(ip@ =~= bs@.subrange(k as int, k + 4));
        let port: u16 = (bs[k + 4] as u16) * 256 + (bs[k + 5] as u16);
        peers.push(Peer { ip, port });
        k = k + 6;
    }
    Ok(peers)
}

/// Maps a decoded dictionary to an announcement.
pub fn announce_from_bval<'a>(bv: BVal<'a>) -> (r: Result<Announcement, Error>)
    ensures
        announce_result(bv, r),
{
    let m = match bv.as_bdict() {
        Ok(m) => m,
        Err(e) => {
            return Err(Error::BencodeValError { for_key: ROOT_KEY, err: e });
        },
    };
    match dict_get(&m, FAILURE_REASON_KEY) {
        Some(fr) => {
            return match fr.as_bstring_str() {
                Ok(reason) => Err(Error::TrackerReason(String::from_str(reason))),
                Err(e) => Err(Error::BencodeValError { for_key: FAILURE_REASON_KEY, err: e }),
            };
        },
        None => {},
    }
    let interval = match get_opt_i32(&m, INTERVAL_KEY) {
        Ok(i) => i,
        Err(e) => {
            return Err(e);
        },
    };
    let bs = match get_bytes(&m, PEERS_KEY) {
        Ok(b) => b,
        Err(e) => {
            return Err(field_error(e));
        },
    };
    let peers = match compact_peer_list(bs) {
        Ok(p) => p,
        Err(e) => {
            return Err(e);
        },
    };
    let complete = get_opt_i32(&m, COMPLETE_KEY).ok();
    let downloaded = get_opt_i32(&m, DOWNLOADED_KEY).ok();
    let incomplete = get_opt_i32(&m, INCOMPLETE_KEY).ok();
    Ok(Announcement { complete, downloaded, incomplete, interval, peers })
}

/// Decimal digits of `n` as text.
pub open spec fn decimal_text(n: nat) -> Seq<char>
    decreases n,
{
    if n < 10 {
        seq![(48 + n) as char]
    } else {
        decimal_text(n / 10).push((48 + n % 10) as char)
    }
}

fn push_decimal(out: &mut String, n: u64)
    ensures
        final(out)@ == old(out)@ + decimal_text(n as nat),
    decreases n,
{
    if n >= 10 {
        push_decimal(out, n / 10);
    }
    out.append(crate::sha1bytes::hex_digit((n % 10) as u8));
}

/// The query that announces this client to a tracker, for the request path
/// `path`.
pub open spec fn announce_query_text(
    path: Seq<char>,
    info_hash: Seq<u8>,
    peer_id: Seq<u8>,
    port: nat,
    left: nat,
    numwant: nat,
) -> Seq<char> {
    path + "?info_hash="@ + percent_escaped(info_hash) + "&peer_id="@ + percent_escaped(peer_id)
        + "&port="@ + decimal_text(port) + "&uploaded=0&downloaded=0&left="@ + decimal_text(left)
        + "&numwant="@ + decimal_text(numwant) + "&event=started"@
}

/// Builds the announce query for the torrent `info_hash`, from the peer
/// `peer_id` listening on `port` with `left` bytes still to fetch, asking
/// for up to `numwant` peers.
pub fn announce_query(
    path: &str,
    info_hash: &SHA1Hash,
    peer_id: &SHA1Hash,
    port: u16,
    left: u64,
    numwant: u32,
) -> (r: String)
    ensures
        r@ == announce_query_text(
            path@,
            info_hash@,
            peer_id@,
            port as nat,
            left as nat,
            numwant as nat,
        ),
{
    let mut out = String::from_str(path);
    out.append("?info_hash=");
    out.append(info_hash.to_url_escaped_string().as_str());
    out.append("&peer_id=");
    out.append(peer_id.to_url_escaped_string().as_str());
    out.append("&port=");
    push_decimal(&mut out, port as u64);
    out.append("&uploaded=0&downloaded=0&left=");
    push_decimal(&mut out, left);
    out.append("&numwant=");
    push_decimal(&mut out, numwant as u64);
    out.append("&event=started");
    out
}

/// A tracker response without a failure reason fails naming the first
/// required key it lacks: `interval`, then `peers`.
pub proof fn lemma_missing_key<'a>(d: Vec<(&'a str, BVal<'a>)>, r: Result<Announcement, Error>)
    requires
        announce_result(BVal::BDict(d), r),
    ensures
        (lookup(d@, FAILURE_REASON_KEY.spec_bytes()) is None && lookup(d@, INTERVAL_KEY.spec_bytes())
            is None) ==> r == Err::<Announcement, Error>(Error::MissingKey(INTERVAL_KEY)),
        (lookup(d@, FAILURE_REASON_KEY.spec_bytes()) is None && field_int(d@, INTERVAL_KEY) is Ok
            && lookup(d@, PEERS_KEY.spec_bytes()) is None) ==> r == Err::<Announcement, Error>(
            Error::MissingKey(PEERS_KEY),
        ),
{
}

} // verus!
