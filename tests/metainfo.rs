use torrent_core::bencode::{ReadError, BINT_TYPE_NAME, BLIST_TYPE_NAME, BSTRING_TYPE_NAME};
use torrent_core::metainfo::{parse, InfoError, Mode};
use torrent_core::sha1bytes::SHA1Hash;

fn s(b: &[u8]) -> Vec<u8> {
    let mut out = format!("{}:", b.len()).into_bytes();
    out.extend_from_slice(b);
    out
}

fn i(n: i64) -> Vec<u8> {
    format!("i{}e", n).into_bytes()
}

fn d(entries: &[(&str, Vec<u8>)]) -> Vec<u8> {
    let mut out = b"d".to_vec();
    for (k, v) in entries {
        out.extend(s(k.as_bytes()));
        out.extend_from_slice(v);
    }
    out.push(b'e');
    out
}

fn l(items: &[Vec<u8>]) -> Vec<u8> {
    let mut out = b"l".to_vec();
    for it in items {
        out.extend_from_slice(it);
    }
    out.push(b'e');
    out
}

fn single_info(pieces: &[u8]) -> Vec<u8> {
    d(&[
        ("length", i(1000)),
        ("name", s(b"sample.mp4")),
        ("piece length", i(16384)),
        ("pieces", s(pieces)),
    ])
}

fn torrent(info: Vec<u8>) -> Vec<u8> {
    d(&[("announce", s(b"http://tracker.example.org:6969/announce")), ("info", info)])
}

#[test]
fn parse_sample_torrent() {
    let pieces: Vec<u8> = (0u8..40).collect();
    let info = single_info(&pieces);
    let bs = torrent(info.clone());
    let m = parse(&bs).unwrap();
    assert_eq!(m.info.piece_length, 16384);
    assert_eq!(m.info.pieces.0, &pieces[..]);
    assert_eq!(m.info.mode, Mode::Single { name: "sample.mp4", length: 1000 });
    assert_eq!(m.announce.as_str(), "http://tracker.example.org:6969/announce");
    assert_eq!(m.info_hash, SHA1Hash::from_bytes(&info));
    assert_eq!(m.info.mode.total_length(), Some(1000));
}

#[test]
fn multi_file_torrent() {
    let info = d(&[
        (
            "files",
            l(&[
                d(&[("length", i(10)), ("path", l(&[s(b"dir"), s(b"a.txt")]))]),
                d(&[("length", i(20)), ("path", l(&[s(b"b.txt")]))]),
            ]),
        ),
        ("name", s(b"top")),
        ("piece length", i(32)),
        ("pieces", s(&[7u8; 20])),
    ]);
    let bs = torrent(info);
    let m = parse(&bs).unwrap();
    match &m.info.mode {
        Mode::Multi { name, files } => {
            assert_eq!(*name, "top");
            assert_eq!(files.len(), 2);
            assert_eq!(files[0].length, 10);
            assert_eq!(files[0].path, vec!["dir", "a.txt"]);
            assert_eq!(files[1].path, vec!["b.txt"]);
        }
        other => panic!("unexpected {:?}", other),
    }
    assert_eq!(m.info.mode.total_length(), Some(30));
}

#[test]
fn missing_announce() {
    let bs = d(&[("info", single_info(&[0u8; 20]))]);
    assert_eq!(parse(&bs), Err(InfoError::MissingKey("announce")));
}

#[test]
fn missing_info() {
    let bs = d(&[("announce", s(b"http://t.example/announce"))]);
    assert_eq!(parse(&bs), Err(InfoError::MissingKey("info")));
}

#[test]
fn missing_piece_length() {
    let info = d(&[("length", i(1)), ("name", s(b"n")), ("pieces", s(&[0u8; 20]))]);
    assert_eq!(parse(&torrent(info)), Err(InfoError::MissingKey("piece length")));
}

#[test]
fn missing_pieces() {
    let info = d(&[("length", i(1)), ("name", s(b"n")), ("piece length", i(1))]);
    assert_eq!(parse(&torrent(info)), Err(InfoError::MissingKey("pieces")));
}

#[test]
fn missing_name_and_files() {
    let info = d(&[("length", i(1)), ("piece length", i(1)), ("pieces", s(&[0u8; 20]))]);
    assert_eq!(parse(&torrent(info)), Err(InfoError::MissingKey("name")));
    let info = d(&[("name", s(b"n")), ("piece length", i(1)), ("pieces", s(&[0u8; 20]))]);
    assert_eq!(parse(&torrent(info)), Err(InfoError::MissingKey("files")));
    let info = d(&[
        ("files", l(&[d(&[("path", l(&[s(b"a")]))])])),
        ("name", s(b"n")),
        ("piece length", i(1)),
        ("pieces", s(&[0u8; 20])),
    ]);
    assert_eq!(parse(&torrent(info)), Err(InfoError::MissingKey("length")));
}

#[test]
fn pieces_not_multiple_of_20() {
    for n in [19usize, 21, 1, 39] {
        let info = single_info(&vec![1u8; n]);
        assert_eq!(parse(&torrent(info)), Err(InfoError::HashesNotMultiple20Bytes(n)));
    }
    assert!(parse(&torrent(single_info(&[]))).is_ok());
}

#[test]
fn wrong_types() {
    let info = d(&[("length", i(1)), ("name", s(b"n")), ("piece length", s(b"x")), ("pieces", s(&[0u8; 20]))]);
    assert_eq!(
        parse(&torrent(info)),
        Err(InfoError::BencodeValError {
            for_key: "piece length",
            err: ReadError::WrongType { found: BSTRING_TYPE_NAME, expected: BINT_TYPE_NAME },
        })
    );
    let bs = d(&[("announce", i(3)), ("info", single_info(&[0u8; 20]))]);
    assert_eq!(
        parse(&bs),
        Err(InfoError::BencodeValError {
            for_key: "announce",
            err: ReadError::WrongType { found: BINT_TYPE_NAME, expected: BSTRING_TYPE_NAME },
        })
    );
    let info = d(&[
        ("files", l(&[d(&[("length", i(1)), ("path", l(&[i(4)]))])])),
        ("name", s(b"n")),
        ("piece length", i(1)),
        ("pieces", s(&[0u8; 20])),
    ]);
    assert_eq!(
        parse(&torrent(info)),
        Err(InfoError::BencodeValError {
            for_key: "path",
            err: ReadError::WrongType { found: BINT_TYPE_NAME, expected: BSTRING_TYPE_NAME },
        })
    );
    let info = d(&[("files", i(1)), ("name", s(b"n")), ("piece length", i(1)), ("pieces", s(&[0u8; 20]))]);
    assert_eq!(
        parse(&torrent(info)),
        Err(InfoError::BencodeValError {
            for_key: "files",
            err: ReadError::WrongType { found: BINT_TYPE_NAME, expected: BLIST_TYPE_NAME },
        })
    );
}

#[test]
fn empty_path() {
    let info = d(&[
        ("files", l(&[d(&[("length", i(1)), ("path", l(&[]))])])),
        ("name", s(b"n")),
        ("piece length", i(1)),
        ("pieces", s(&[0u8; 20])),
    ]);
    assert_eq!(parse(&torrent(info)), Err(InfoError::EmptyPath));
}

#[test]
fn bad_url() {
    let bs = d(&[("announce", s(b"not a url")), ("info", single_info(&[0u8; 20]))]);
    assert!(matches!(parse(&bs), Err(InfoError::BadUrl(_))));
}

#[test]
fn torrent_whole_buffer_errors() {
    let mut bs = torrent(single_info(&[0u8; 20]));
    bs.push(b'x');
    assert_eq!(parse(&bs), Err(InfoError::ExtraBytes));
    let bs = torrent(single_info(&[0u8; 20]));
    assert_eq!(parse(&bs[..bs.len() - 1]), Err(InfoError::MissingBytes));
    assert_eq!(parse(b"i1e"), Err(InfoError::BencodeParseError));
    assert_eq!(parse(b"dxe"), Err(InfoError::BencodeParseError));
}

#[test]
fn total_length_out_of_range() {
    let info = d(&[("length", i(-1)), ("name", s(b"n")), ("piece length", i(1)), ("pieces", s(&[0u8; 20]))]);
    let bs = torrent(info);
    let m = parse(&bs).unwrap();
    assert_eq!(m.info.mode.total_length(), None);
}
