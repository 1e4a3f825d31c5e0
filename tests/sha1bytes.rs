use torrent_core::sha1bytes::{SHA1Hash, SHA1Hashes};

#[test]
fn digest_of_abc() {
    let h = SHA1Hash::from_bytes(b"abc");
    assert_eq!(h.to_hex_string(), "A9 99 3E 36 47 06 81 6A BA 3E 25 71 78 50 C2 6C 9C D0 D8 9D");
    assert_eq!(
        h.to_url_escaped_string(),
        "%A9%99%3E%36%47%06%81%6A%BA%3E%25%71%78%50%C2%6C%9C%D0%D8%9D"
    );
}

#[test]
fn digest_of_nothing() {
    let h = SHA1Hash::from_bytes(b"");
    assert_eq!(h.to_hex_string(), "DA 39 A3 EE 5E 6B 4B 0D 32 55 BF EF 95 60 18 90 AF D8 07 09");
}

#[test]
fn prehashed_is_kept() {
    let raw = [0u8, 1, 0x0f, 0xf0, 0xff];
    let h = SHA1Hash::from_prehashed(&raw);
    assert_eq!(h.as_bytes(), &raw[..]);
    assert_eq!(h.to_hex_string(), "00 01 0F F0 FF");
    assert_eq!(h.to_url_escaped_string(), "%00%01%0F%F0%FF");
    assert_eq!(SHA1Hash::from_prehashed(&[]).to_hex_string(), "");
}

#[test]
fn hashes_compare_by_bytes() {
    let owned = SHA1Hash::from_bytes(b"abc");
    let bytes = owned.as_bytes().to_vec();
    let borrowed = SHA1Hash::from_prehashed(&bytes);
    assert_eq!(owned, borrowed);
    assert!(SHA1Hash::from_bytes(b"abd") != borrowed);
}

#[test]
fn runs_of_digests() {
    let bytes: Vec<u8> = (0u8..40).collect();
    let hs = SHA1Hashes(&bytes);
    let v = hs.iter();
    assert_eq!(v.len(), 2);
    assert_eq!(v[0].as_bytes(), &bytes[0..20]);
    assert_eq!(v[1].as_bytes(), &bytes[20..40]);
    let short: Vec<u8> = (0u8..25).collect();
    let v = SHA1Hashes(&short).iter();
    assert_eq!(v.len(), 2);
    assert_eq!(v[1].as_bytes(), &short[20..25]);
    assert_eq!(SHA1Hashes(&[]).iter().len(), 0);
}
