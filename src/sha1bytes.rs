//! SHA-1 hashes: a single 20-byte digest, and a run of digests laid end to
//! end in one byte string.

use vstd::prelude::*;
use vstd::string::StringExecFns;
use crypto::digest::Digest;
use crate::codec::compare_bytes;

verus! {

/// Inputs to the digest must be shorter than this many bytes.
pub const HASH_INPUT_LIMIT: u64 = 0x2000_0000_0000_0000;

/// The SHA-1 digest of a byte string.
pub uninterp spec fn sha1_of(b: Seq<u8>) -> Seq<u8>;

/// Relies on crypto::sha1::Sha1 of rust-crypto: once the bytes are fed with
/// `input`, `result` writes their 20-byte SHA-1 digest. Feeding 2^61 bytes
/// or more overflows its bit count and panics.
#[verifier::external_body]
fn sha1_digest(b: &[u8]) -> (r: Vec<u8>)
    requires
        b@.len() < HASH_INPUT_LIMIT,
    ensures
        r@ == sha1_of(b@),
        r@.len() == 20,
{
    let mut hasher = crypto::sha1::Sha1::new();
    hasher.input(b);
    let mut out = [0u8; 20];
    hasher.result(&mut out);
    out.to_vec()
}

/// Upper-case hexadecimal digit for `n` below 16.
pub open spec fn hex_char(n: int) -> char {
    if n < 10 {
        (48 + n) as char
    } else {
        (55 + n) as char
    }
}

/// The two hexadecimal digits of a byte.
pub open spec fn hex_pair(x: u8) -> Seq<char> {
    seq![hex_char(x as int / 16), hex_char(x as int % 16)]
}

/// Each byte as two hexadecimal digits, the pairs separated by spaces.
pub open spec fn hex_spaced(b: Seq<u8>) -> Seq<char>
    decreases b.len(),
{
    if b.len() == 0 {
        Seq::empty()
    } else if b.len() == 1 {
        hex_pair(b[0])
    } else {
        hex_spaced(b.drop_last()) + seq![' '] + hex_pair(b.last())
    }
}

/// Each byte as `%` and two hexadecimal digits, safe inside a URL query.
pub open spec fn percent_escaped(b: Seq<u8>) -> Seq<char>
    decreases b.len(),
{
    if b.len() == 0 {
        Seq::empty()
    } else {
        percent_escaped(b.drop_last()) + seq!['%'] + hex_pair(b.last())
    }
}

pub(crate) fn hex_digit(n: u8) -> (r: &'static str)
    requires
        n < 16,
    ensures
        r@ == seq![hex_char(n as int)],
{
    if n == 0 {
        proof {
            reveal_strlit("0");
        }
        "0"
    } else if n == 1 {
        proof {
            reveal_strlit("1");
        }
        "1"
    } else if n == 2 {
        proof {
            reveal_strlit("2");
        }
        "2"
    } else if n == 3 {
        proof {
            reveal_strlit("3");
        }
        "3"
    } else if n == 4 {
        proof {
            reveal_strlit("4");
        }
        "4"
    } else if n == 5 {
        proof {
            reveal_strlit("5");
        }
        "5"
    } else if n == 6 {
        proof {
            reveal_strlit("6");
        }
        "6"
    } else if n == 7 {
        proof {
            reveal_strlit("7");
        }
        "7"
    } else if n == 8 {
        proof {
            reveal_strlit("8");
        }
        "8"
    } else if n == 9 {
        proof {
            reveal_strlit("9");
        }
        "9"
    } else if n == 10 {
        proof {
            reveal_strlit("A");
        }
        "A"
    } else if n == 11 {
        proof {
            reveal_strlit("B");
        }
        "B"
    } else if n == 12 {
        proof {
            reveal_strlit("C");
        }
        "C"
    } else if n == 13 {
        proof {
            reveal_strlit("D");
        }
        "D"
    } else if n == 14 {
        proof {
            reveal_strlit("E");
        }
        "E"
    } else {
        proof {
            reveal_strlit("F");
        }
        "F"
    }
}

fn push_hex_pair(out: &mut String, x: u8)
    ensures
        final(out)@ == old(out)@ + hex_pair(x),
{
    out.append(hex_digit(x / 16));
    out.append(hex_digit(x % 16));
}

#[derive(Debug)]
enum HashBytes<'a> {
    Borrowed(&'a [u8]),
    Owned(Vec<u8>),
}

/// A SHA-1 digest, either borrowed from a buffer that holds it or computed
/// and owned.
#[derive(Debug)]
pub struct SHA1Hash<'a>(HashBytes<'a>);

impl<'a> View for SHA1Hash<'a> {
    type V = Seq<u8>;

    closed spec fn view(&self) -> Seq<u8> {
        match self.0 {
            HashBytes::Borrowed(b) => b@,
            HashBytes::Owned(v) => v@,
        }
    }
}

impl<'a> SHA1Hash<'a> {
    /// A digest that was computed elsewhere, borrowed as it is.
    pub fn from_prehashed(raw: &'a [u8]) -> (r: SHA1Hash<'a>)
        ensures
            r@ == raw@,
    {
        SHA1Hash(HashBytes::Borrowed(raw))
    }

    /// The digest of `bytes`.
    pub fn from_bytes(bytes: &[u8]) -> (r: SHA1Hash<'static>)
        requires
            bytes@.len() < HASH_INPUT_LIMIT,
        ensures
            r@ == sha1_of(bytes@),
            r@.len() == 20,
    {
        SHA1Hash(HashBytes::Owned(sha1_digest(bytes)))
    }

    /// The bytes of the digest.
    pub fn as_bytes(&self) -> (r: &[u8])
        ensures
            r@ == self@,
    {
        match &self.0 {
            HashBytes::Borrowed(b) => b,
            HashBytes::Owned(v) => v.as_slice(),
        }
    }

    /// The digest in hexadecimal, two digits per byte separated by spaces.
    pub fn to_hex_string(&self) -> (r: String)
        ensures
            r@ == hex_spaced(self@),
    {
        let b = self.as_bytes();
        let mut out = String::new();
        let mut i: usize = 0;
        while i < b.len()
            invariant
                i <= b@.len(),
                out@ == hex_spaced(b@.take(i as int)),
            decreases b@.len() - i,
        {
            let ghost next = b@.take(i + 1);
            assert(next.drop_last() =~= b@.take(i as int));
            assert(next.last() == b@[i as int]);
            if i > 0 {
                out.append(" ");
                proof {
                    reveal_strlit(" ");
                }
            } else {
                assert(out@ =~= Seq::<char>::empty());
            }
            push_hex_pair(&mut out, b[i]);
            i = i + 1;
        }
        assert(b@.take(b@.len() as int) =~= b@);
        out
    }

    /// The digest percent-escaped for a URL query: `%` and two hexadecimal
    /// digits for each byte.
    pub fn to_url_escaped_string(&self) -> (r: String)
        ensures
            r@ == percent_escaped(self@),
    {
        let b = self.as_bytes();
        let mut out = String::new();
        let mut i: usize = 0;
        while i < b.len()
            invariant
                i <= b@.len(),
                out@ == percent_escaped(b@.take(i as int)),
            decreases b@.len() - i,
        {
            let ghost next = b@.take(i + 1);
            assert(next.drop_last() =~= b@.take(i as int));
            assert(next.last() == b@[i as int]);
            out.append("%");
            proof {
                reveal_strlit("%");
            }
            push_hex_pair(&mut out, b[i]);
            i = i + 1;
        }
        assert(b@.take(b@.len() as int) =~= b@);
        out
    }
}

impl<'a> PartialEq for SHA1Hash<'a> {
    fn eq(&self, other: &SHA1Hash<'a>) -> (r: bool) {
        compare_bytes(self.as_bytes(), other.as_bytes()) == 0
    }
}

impl<'a> vstd::std_specs::cmp::PartialEqSpecImpl for SHA1Hash<'a> {
    open spec fn obeys_eq_spec() -> bool {
        true
    }

    open spec fn eq_spec(&self, other: &SHA1Hash<'a>) -> bool {
        self@ == other@
    }
}

/// The `i`-th run of 20 bytes in `b`; the last one may be shorter.
pub open spec fn chunk(b: Seq<u8>, i: int) -> Seq<u8> {
    b.subrange(20 * i, if 20 * i + 20 <= b.len() { 20 * i + 20 } else { b.len() as int })
}

/// Piece digests laid end to end. A well-formed run has a length that is a
/// multiple of 20.
#[derive(Debug, PartialEq)]
pub struct SHA1Hashes<'a>(pub &'a [u8]);

impl<'a> SHA1Hashes<'a> {
    pub open spec fn wf(&self) -> bool {
        self.0@.len() % 20 == 0
    }

    /// The digests, each borrowed from the run, in order.
    pub fn iter(&self) -> (r: Vec<SHA1Hash<'a>>)
        ensures
            r@.len() == (self.0@.len() + 19) / 20,
            forall|i: int| 0 <= i < r@.len() ==> (#[trigger] r@[i])@ == chunk(self.0@, i),
    {
        let b = self.0;
        let mut out: Vec<SHA1Hash<'a>> = Vec::new();
        let mut start: usize = 0;
        while start < b.len()
            invariant
                start == (if 20 * out@.len() <= b@.len() { 20 * out@.len() as int } else { b@.len() as int }),
                out@.len() * 20 < b@.len() + 20,
                forall|i: int| 0 <= i < out@.len() ==> (#[trigger] out@[i])@ == chunk(b@, i),
            decreases b@.len() - start,
        {
            let end = if b.len() - start >= 20 {
                start + 20
            } else {
                b.len()
            };
            let h = SHA1Hash::from_prehashed(vstd::slice::slice_subrange(b, start, end));
            out.push(h);
            start = end;
        }
        assert(out@.len() == (b@.len() + 19) / 20) by (nonlinear_arith)
            requires
                out@.len() * 20 >= b@.len(),
                out@.len() * 20 < b@.len() + 20,
        ;
        out
    }
}

} // verus!
