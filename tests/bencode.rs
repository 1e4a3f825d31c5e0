use torrent_core::bencode::{
    bdict, bint, blist, bstring, bval, decode, encode, BVal, DecodeError, ReadError,
    BDICT_TYPE_NAME, BINT_TYPE_NAME, BLIST_TYPE_NAME, BSTRING_TYPE_NAME,
};

fn done<'a, T>(t: T) -> Result<(&'a [u8], T), DecodeError> {
    Ok((&b""[..], t))
}

#[test]
fn bval_string() {
    assert_eq!(bval(&b"5:abcde"[..]), done(BVal::BString(&b"abcde"[..])));
}

#[test]
fn bval_int() {
    // positive
    assert_eq!(bval(&b"i53e"[..]), done(BVal::BInt(53)));
    // negative
    assert_eq!(bval(&b"i-13e"[..]), done(BVal::BInt(-13)));
}

#[test]
fn bval_list() {
    assert_eq!(
        bval(&b"li53ei-10ee"[..]),
        done(BVal::BList(vec![BVal::BInt(53), BVal::BInt(-10)]))
    );
}

#[test]
fn bval_dict() {
    assert_eq!(
        bval(&b"d3:key5:value4:key2i10ee"[..]),
        done(BVal::BDict(vec![
            ("key", BVal::BString(&b"value"[..])),
            ("key2", BVal::BInt(10)),
        ]))
    );
}

#[test]
fn option_variant() {
    assert_eq!(BVal::BString(&b"hello"[..]).as_bstring_str(), Ok("hello"));

    assert_eq!(
        BVal::BInt(10).as_bstring_str(),
        Err(ReadError::WrongType { found: BINT_TYPE_NAME, expected: BSTRING_TYPE_NAME })
    );
}

#[test]
fn rest_is_returned() {
    let (rest, v) = bval(&b"i7eabc"[..]).unwrap();
    assert_eq!(v, BVal::BInt(7));
    assert_eq!(rest, &b"abc"[..]);
}

#[test]
fn decode_reports_whole_length() {
    assert_eq!(decode(&b"5:abcde"[..]), Ok((BVal::BString(&b"abcde"[..]), 7)));
    assert_eq!(decode(&b"i53e"[..]), Ok((BVal::BInt(53), 4)));
    assert_eq!(decode(&b"i53ex"[..]), Err(DecodeError::TrailingBytes));
}

#[test]
fn incomplete_inputs() {
    for input in [&b""[..], b"5:abc", b"12", b"i53", b"i", b"i-", b"l", b"li1e", b"d", b"d3:key", b"d3:ke"] {
        assert_eq!(bval(input), Err(DecodeError::Incomplete), "{:?}", input);
    }
}

#[test]
fn malformed_inputs() {
    for input in [&b"x"[..], b"i5xe", b"ie", b"i-e", b"5xabcde", b"di1ei2ee", b"d1:\xffi1ee", b"lxe"] {
        assert_eq!(bval(input), Err(DecodeError::Malformed), "{:?}", input);
    }
}

#[test]
fn integer_range() {
    assert_eq!(bval(&b"i-9223372036854775808e"[..]), done(BVal::BInt(i64::MIN)));
    assert_eq!(bval(&b"i9223372036854775807e"[..]), done(BVal::BInt(i64::MAX)));
    assert_eq!(bval(&b"i9223372036854775808e"[..]), Err(DecodeError::Malformed));
    assert_eq!(bval(&b"i-9223372036854775809e"[..]), Err(DecodeError::Malformed));
    assert_eq!(bval(&b"i007e"[..]), done(BVal::BInt(7)));
    assert_eq!(bval(&b"i-0e"[..]), done(BVal::BInt(0)));
}

#[test]
fn declared_length_beyond_buffer() {
    assert_eq!(bval(&b"99999999999999999999999:ab"[..]), Err(DecodeError::Incomplete));
    assert_eq!(bval(&b"0:"[..]), done(BVal::BString(&b""[..])));
}

#[test]
fn nesting_limit() {
    let mut ok = Vec::new();
    ok.extend(std::iter::repeat(b'l').take(64));
    ok.extend(std::iter::repeat(b'e').take(64));
    assert!(bval(&ok).is_ok());
    let mut deep = Vec::new();
    deep.extend(std::iter::repeat(b'l').take(65));
    deep.extend(std::iter::repeat(b'e').take(65));
    assert_eq!(bval(&deep), Err(DecodeError::TooDeep));
}

#[test]
fn duplicate_keys_keep_the_last() {
    assert_eq!(
        bval(&b"d1:ai1e1:bi2e1:ai3ee"[..]),
        done(BVal::BDict(vec![("a", BVal::BInt(3)), ("b", BVal::BInt(2))]))
    );
}

#[test]
fn keys_are_sorted() {
    assert_eq!(
        bval(&b"d1:bi1e2:aai2e1:ai3ee"[..]),
        done(BVal::BDict(vec![
            ("a", BVal::BInt(3)),
            ("aa", BVal::BInt(2)),
            ("b", BVal::BInt(1)),
        ]))
    );
}

#[test]
fn productions_by_kind() {
    assert_eq!(bstring(&b"3:abcx"[..]), Ok((&b"x"[..], BVal::BString(&b"abc"[..]))));
    assert_eq!(bstring(&b"i1e"[..]), Err(DecodeError::Malformed));
    assert_eq!(bint(&b"i-4e"[..]), done(BVal::BInt(-4)));
    assert_eq!(bint(&b"3:abc"[..]), Err(DecodeError::Malformed));
    assert_eq!(blist(&b"le"[..]), done(BVal::BList(vec![])));
    assert_eq!(blist(&b"de"[..]), Err(DecodeError::Malformed));
    assert_eq!(blist(&b""[..]), Err(DecodeError::Incomplete));
    assert_eq!(bdict(&b"de"[..]), done(BVal::BDict(vec![])));
    assert_eq!(bdict(&b"le"[..]), Err(DecodeError::Malformed));
}

#[test]
fn consumed_length_is_encoding_length() {
    let values = vec![
        BVal::BString(&b"abcde"[..]),
        BVal::BInt(-13),
        BVal::BList(vec![BVal::BInt(53), BVal::BString(&b""[..])]),
        BVal::BDict(vec![("key", BVal::BString(&b"value"[..])), ("key2", BVal::BInt(10))]),
    ];
    for v in values {
        let mut bytes = encode(&v);
        let n = bytes.len();
        bytes.extend_from_slice(b"i1e");
        let (rest, back) = bval(&bytes).unwrap();
        assert_eq!(back, v);
        assert_eq!(bytes.len() - rest.len(), n);
    }
}

#[test]
fn encode_exact_bytes() {
    assert_eq!(encode(&BVal::BInt(0)), b"i0e".to_vec());
    assert_eq!(encode(&BVal::BInt(i64::MIN)), b"i-9223372036854775808e".to_vec());
    assert_eq!(encode(&BVal::BString(&b"spam"[..])), b"4:spam".to_vec());
    assert_eq!(
        encode(&BVal::BList(vec![BVal::BString(&b"a"[..]), BVal::BInt(12)])),
        b"l1:ai12ee".to_vec()
    );
}

#[test]
fn reencoding_sorts_keys() {
    let input = &b"d4:spaml1:ai1ee3:cow3:mooe"[..];
    let (v, _) = decode(input).unwrap();
    let bytes = encode(&v);
    assert_eq!(bytes, b"d3:cow3:moo4:spaml1:ai1eee".to_vec());
    let (again, n) = decode(&bytes).unwrap();
    assert_eq!(again, v);
    assert_eq!(n, bytes.len());
}

#[test]
fn accessors() {
    let s = BVal::BString(&b"xy"[..]);
    let i = BVal::BInt(5);
    let l = BVal::BList(vec![BVal::BInt(1)]);
    let d = BVal::BDict(vec![("k", BVal::BInt(2))]);
    assert_eq!(s.as_bstring_bytes(), Ok(&b"xy"[..]));
    assert_eq!(i.as_bint(), Ok(5));
    assert_eq!(l.as_blist(), Ok(&vec![BVal::BInt(1)]));
    assert_eq!(d.as_bdict_ref(), Ok(&vec![("k", BVal::BInt(2))]));
    assert_eq!(
        s.as_bint(),
        Err(ReadError::WrongType { found: BSTRING_TYPE_NAME, expected: BINT_TYPE_NAME })
    );
    assert_eq!(
        i.as_blist(),
        Err(ReadError::WrongType { found: BINT_TYPE_NAME, expected: BLIST_TYPE_NAME })
    );
    assert_eq!(
        l.as_bdict_ref(),
        Err(ReadError::WrongType { found: BLIST_TYPE_NAME, expected: BDICT_TYPE_NAME })
    );
    assert_eq!(
        d.as_bstring_bytes(),
        Err(ReadError::WrongType { found: BDICT_TYPE_NAME, expected: BSTRING_TYPE_NAME })
    );
    assert_eq!(d.as_bdict(), Ok(vec![("k", BVal::BInt(2))]));
    assert_eq!(
        BVal::BInt(1).as_bdict(),
        Err(ReadError::WrongType { found: BINT_TYPE_NAME, expected: BDICT_TYPE_NAME })
    );
}

#[test]
fn bad_utf8_string() {
    let r = BVal::BString(&b"\xff\xfe"[..]).as_bstring_str();
    match r {
        Err(ReadError::BadString(e)) => assert_eq!(e.valid_up_to(), 0),
        other => panic!("unexpected {:?}", other),
    }
}
