//! Decoding bencode from bytes and encoding it back.

use vstd::prelude::*;
use vstd::slice::slice_subrange;
use vstd::string::StringSliceAdditionalSpecFns;
use vstd::utf8::valid_utf8;
use crate::bencode::{BVal, DecodeError, Value, entries_view, items_view, lemma_dict_view, lemma_list_view};
use crate::grammar::{
    MAX_DEPTH, decimal, dict_insert, digit_run, is_digit, lemma_digit_run,
    lemma_insert_after, lemma_lex_asymmetric, lemma_lex_skip, lemma_value_len, lex_lt, shift,
    spec_bytestring, spec_entries, spec_integer, spec_items, spec_value, spec_list, spec_dict,
    spec_decode, nat_digits, bytes_encoding, encoding, items_encoding, entries_encoding,
};

verus! {

broadcast use vstd::std_specs::vec::axiom_vec_index_decreases;

/// The error std::str::from_utf8 reports for bytes that are not UTF-8; it
/// depends on the bytes alone.
pub uninterp spec fn utf8_error_of(b: Seq<u8>) -> std::str::Utf8Error;

/// Relies on std::str::from_utf8: the bytes are accepted exactly when they
/// are valid UTF-8, and the string returned holds those same bytes.
#[verifier::external_body]
pub(crate) fn utf8_str<'a>(b: &'a [u8]) -> (r: Result<&'a str, std::str::Utf8Error>)
    ensures
        r is Ok <==> valid_utf8(b@),
        r matches Ok(s) ==> s.spec_bytes() == b@,
        r matches Err(e) ==> e == utf8_error_of(b@),
{
    std::str::from_utf8(b)
}

/// Compares two byte strings in lexicographic order: negative when `a`
/// comes first, zero when they are equal, positive when `b` comes first.
pub fn compare_bytes(a: &[u8], b: &[u8]) -> (r: i8)
    ensures
        (r < 0) == lex_lt(a@, b@),
        (r == 0) == (a@ == b@),
        (r > 0) == lex_lt(b@, a@),
{
    let mut i: usize = 0;
    while i < a.len() && i < b.len()
        invariant
            i <= a@.len(),
            i <= b@.len(),
            a@.take(i as int) == b@.take(i as int),
        decreases a@.len() - i,
    {
        if a[i] != b[i] {
            proof {
                lemma_lex_skip(a@, b@, i as int);
                lemma_lex_skip(b@, a@, i as int);
                assert(a@.skip(i as int)[0] == a@[i as int]);
                assert(b@.skip(i as int)[0] == b@[i as int]);
                assert(a@[i as int] != b@[i as int]);
            }
            if a[i] < b[i] {
                return -1;
            } else {
                return 1;
            }
        }
        assert(a@.take(i + 1) =~= a@.take(i as int).push(a@[i as int]));
        assert(b@.take(i + 1) =~= b@.take(i as int).push(b@[i as int]));
        i = i + 1;
    }
    proof {
        lemma_lex_skip(a@, b@, i as int);
        lemma_lex_skip(b@, a@, i as int);
        if a@.len() == i && b@.len() == i {
            assert(a@ =~= a@.take(i as int));
            assert(b@ =~= b@.take(i as int));
        }
    }
    if a.len() == b.len() {
        0
    } else if a.len() < b.len() {
        -1
    } else {
        1
    }
}

/// Index of the first byte at or after `pos` that is not an ASCII digit.
fn scan_digits(input: &[u8], pos: usize) -> (end: usize)
    requires
        pos <= input@.len(),
    ensures
        pos <= end <= input@.len(),
        end - pos == digit_run(input@.skip(pos as int)),
        forall|j: int| pos <= j < end ==> is_digit(#[trigger] input@[j]),
{
    let mut end = pos;
    while end < input.len() && 48 <= input[end] && input[end] <= 57
        invariant
            pos <= end <= input@.len(),
            forall|j: int| pos <= j < end ==> is_digit(#[trigger] input@[j]),
        decreases input@.len() - end,
    {
        end = end + 1;
    }
    proof {
        let s = input@.skip(pos as int);
        assert forall|j: int| 0 <= j < end - pos implies is_digit(#[trigger] s[j]) by {
            assert(s[j] == input@[pos + j]);
        }
        if end < input@.len() {
            assert(s[end - pos] == input@[end as int]);
        }
        lemma_digit_run(s, end - pos);
    }
    end
}

/// The number written by the digits `input[from..to]`, or `cap` if that
/// number is `cap` or more.
fn decimal_capped(input: &[u8], from: usize, to: usize, cap: u64) -> (r: u64)
    requires
        from <= to <= input@.len(),
        forall|j: int| from <= j < to ==> is_digit(#[trigger] input@[j]),
    ensures
        r == (if decimal(input@.subrange(from as int, to as int)) < cap {
            decimal(input@.subrange(from as int, to as int))
        } else {
            cap as nat
        }),
{
    let mut acc: u64 = 0;
    let mut i = from;
    assert(input@.subrange(from as int, from as int) =~= Seq::<u8>::empty());
    while i < to
        invariant
            from <= i <= to <= input@.len(),
            forall|j: int| from <= j < to ==> is_digit(#[trigger] input@[j]),
            acc == (if decimal(input@.subrange(from as int, i as int)) < cap {
                decimal(input@.subrange(from as int, i as int))
            } else {
                cap as nat
            }),
        decreases to - i,
    {
        let ghost prev = input@.subrange(from as int, i as int);
        let ghost next = input@.subrange(from as int, i + 1);
        assert(next.drop_last() =~= prev);
        assert(next.last() == input@[i as int]);
        assert(is_digit(input@[i as int]));
        let d = (input[i] - 48) as u64;
        assert(decimal(next) == decimal(prev) * 10 + d);
        if acc < cap {
            let wide = (acc as u128) * 10 + (d as u128);
            if wide < cap as u128 {
                acc = wide as u64;
            } else {
                acc = cap;
            }
        }
        i = i + 1;
    }
    acc
}

pub open spec fn bytestring_read<'a>(
    r: Result<(&'a [u8], usize), DecodeError>,
    s: Seq<u8>,
    pos: int,
) -> bool {
    match spec_bytestring(s.skip(pos)) {
        Ok((b, n)) => r matches Ok((sl, e)) && sl@ == b && e == pos + n,
        Err(err) => r matches Err(e2) && e2 == err,
    }
}

/// Reads a byte string that starts at `pos`: the bytes, borrowed from
/// `input`, and the index just after them.
fn bytestring_at<'a>(input: &'a [u8], pos: usize) -> (r: Result<(&'a [u8], usize), DecodeError>)
    requires
        pos <= input@.len(),
    ensures
        bytestring_read(r, input@, pos as int),
        r matches Ok((_, e)) ==> e <= input@.len(),
{
    let ghost s = input@.skip(pos as int);
    let d_end = scan_digits(input, pos);
    if d_end == input.len() {
        return Err(DecodeError::Incomplete);
    }
    assert(s[d_end - pos] == input@[d_end as int]);
    if d_end == pos || input[d_end] != 58 {
        return Err(DecodeError::Malformed);
    }
    let start = d_end + 1;
    let avail = input.len() - start;
    let n = decimal_capped(input, pos, d_end, (avail as u64) + 1);
    assert(s.take(d_end - pos) =~= input@.subrange(pos as int, d_end as int));
    if n > avail as u64 {
        return Err(DecodeError::Incomplete);
    }
    let n = n as usize;
    let end = start + n;
    let b = slice_subrange(input, start, end);
    assert(b@ =~= s.subrange(start - pos, end - pos));
    Ok((b, end))
}

pub open spec fn integer_read(r: Result<(i64, usize), DecodeError>, s: Seq<u8>, pos: int) -> bool {
    match spec_integer(s.skip(pos)) {
        Ok((i, n)) => r matches Ok((x, e)) && x == i && e == pos + n,
        Err(err) => r matches Err(e2) && e2 == err,
    }
}

/// Reads an integer that starts at `pos`, and the index just after it.
fn integer_at(input: &[u8], pos: usize) -> (r: Result<(i64, usize), DecodeError>)
    requires
        pos <= input@.len(),
    ensures
        integer_read(r, input@, pos as int),
        r matches Ok((_, e)) ==> e <= input@.len(),
{
    let ghost s = input@.skip(pos as int);
    if pos == input.len() {
        return Err(DecodeError::Incomplete);
    }
    assert(s[0] == input@[pos as int]);
    if input[pos] != 105 {
        return Err(DecodeError::Malformed);
    }
    let neg = pos + 1 < input.len() && input[pos + 1] == 45;
    if pos + 1 < input.len() {
        assert(s[1] == input@[pos + 1]);
    }
    let ds: usize = if neg { pos + 2 } else { pos + 1 };
    let ghost t = s.skip(ds - pos);
    assert(t =~= input@.skip(ds as int));
    let d_end = scan_digits(input, ds);
    if d_end == input.len() {
        return Err(DecodeError::Incomplete);
    }
    assert(t[d_end - ds] == input@[d_end as int]);
    if d_end == ds || input[d_end] != 101 {
        return Err(DecodeError::Malformed);
    }
    let m = decimal_capped(input, ds, d_end, 9223372036854775809u64);
    assert(t.take(d_end - ds) =~= input@.subrange(ds as int, d_end as int));
    if neg {
        if m > 9223372036854775808u64 {
            return Err(DecodeError::Malformed);
        }
        let v: i64 = if m == 9223372036854775808u64 {
            i64::MIN
        } else {
            -(m as i64)
        };
        Ok((v, d_end + 1))
    } else {
        if m > 9223372036854775807u64 {
            return Err(DecodeError::Malformed);
        }
        Ok((m as i64, d_end + 1))
    }
}

/// Puts `(k, v)` among the sorted entries `d`, replacing an entry with the
/// same key.
fn insert_entry<'a>(d: &mut Vec<(&'a str, BVal<'a>)>, k: &'a str, v: BVal<'a>)
    ensures
        entries_view(final(d)@) == dict_insert(entries_view(old(d)@), k.spec_bytes(), v.view()),
{
    let ghost e = entries_view(d@);
    let ghost kb = k.spec_bytes();
    let kbytes = k.as_bytes();
    let mut i: usize = 0;
    let mut c: i8 = 1;
    while i < d.len()
        invariant
            i <= d@.len(),
            d@ == old(d)@,
            e == entries_view(d@),
            kbytes@ == kb,
            forall|j: int| 0 <= j < i ==> lex_lt(#[trigger] e[j].0, kb),
        ensures
            i <= d@.len(),
            d@ == old(d)@,
            forall|j: int| 0 <= j < i ==> lex_lt(#[trigger] e[j].0, kb),
            i < d@.len() ==> c >= 0 && (c == 0) == (e[i as int].0 == kb) && (c > 0) == lex_lt(kb, e[i as int].0),
        decreases d@.len() - i,
    {
        c = compare_bytes(d[i].0.as_bytes(), kbytes);
        if c >= 0 {
            proof {
                lemma_lex_asymmetric(kb, e[i as int].0);
            }
            break;
        }
        i = i + 1;
    }
    proof {
        lemma_insert_after(e, kb, v.view(), i as int);
    }
    let ghost tail = e.skip(i as int);
    if i < d.len() && c == 0 {
        assert(tail[0] == e[i as int]);
        d[i] = (k, v);
        assert(entries_view(d@) =~= e.take(i as int) + dict_insert(tail, kb, v.view()));
    } else {
        let ghost vv = v.view();
        if i < d.len() {
            assert(tail[0] == e[i as int]);
            assert(dict_insert(tail, kb, vv) == seq![(kb, vv)] + tail);
        } else {
            assert(tail =~= Seq::<(Seq<u8>, Value)>::empty());
        }
        let ghost before = d@;
        d.insert(i, (k, v));
        assert(d@ == before.insert(i as int, (k, v)));
        assert(entries_view(d@) =~= e.take(i as int) + (seq![(kb, vv)] + tail));
    }
}

pub open spec fn value_read<'a>(
    r: Result<(BVal<'a>, usize), DecodeError>,
    s: Seq<u8>,
    pos: int,
    depth: nat,
) -> bool {
    match spec_value(s.skip(pos), depth) {
        Ok((v, n)) => r matches Ok((b, e)) && b.view() == v && e == pos + n,
        Err(err) => r matches Err(e2) && e2 == err,
    }
}

/// Reads the value that starts at `pos`, allowing `depth` levels of lists
/// and dictionaries, and the index just after it.
fn value_at<'a>(input: &'a [u8], pos: usize, depth: usize) -> (r: Result<(BVal<'a>, usize), DecodeError>)
    requires
        pos <= input@.len(),
    ensures
        value_read(r, input@, pos as int, depth as nat),
    decreases depth, 0int,
{
    let ghost s = input@.skip(pos as int);
    if pos == input.len() {
        return Err(DecodeError::Incomplete);
    }
    assert(s[0] == input@[pos as int]);
    let b = input[pos];
    if 48 <= b && b <= 57 {
        match bytestring_at(input, pos) {
            Ok((bs, e)) => Ok((BVal::BString(bs), e)),
            Err(e) => Err(e),
        }
    } else if b == 105 {
        match integer_at(input, pos) {
            Ok((i, e)) => Ok((BVal::BInt(i), e)),
            Err(e) => Err(e),
        }
    } else if b == 108 || b == 100 {
        if depth == 0 {
            return Err(DecodeError::TooDeep);
        }
        assert(s.drop_first() =~= input@.skip(pos + 1));
        if b == 108 {
            match items_at(input, pos + 1, depth - 1) {
                Ok((items, e)) => {
                    let r = BVal::BList(items);
                    proof {
                        crate::bencode::lemma_list_view(r);
                    }
                    Ok((r, e))
                },
                Err(e) => Err(e),
            }
        } else {
            match entries_at(input, pos + 1, depth - 1) {
                Ok((entries, e)) => {
                    let r = BVal::BDict(entries);
                    proof {
                        crate::bencode::lemma_dict_view(r);
                    }
                    Ok((r, e))
                },
                Err(e) => Err(e),
            }
        }
    } else {
        Err(DecodeError::Malformed)
    }
}

/// Reads list items from `pos` up to and including the closing `e`.
fn items_at<'a>(input: &'a [u8], pos: usize, depth: usize) -> (r: Result<(Vec<BVal<'a>>, usize), DecodeError>)
    requires
        pos <= input@.len(),
    ensures
        match spec_items(input@.skip(pos as int), depth as nat, Seq::empty()) {
            Ok((vs, n)) => r matches Ok((l, e)) && items_view(l@) == vs && e == pos + n,
            Err(err) => r matches Err(e2) && e2 == err,
        },
    decreases depth, 1int,
{
    let ghost s = input@;
    let mut items: Vec<BVal<'a>> = Vec::new();
    let mut p = pos;
    assert(items_view(items@) =~= Seq::<Value>::empty());
    loop
        invariant
            pos <= p <= s.len(),
            s == input@,
            spec_items(s.skip(pos as int), depth as nat, Seq::empty()) == shift(
                spec_items(s.skip(p as int), depth as nat, items_view(items@)),
                p - pos,
            ),
        decreases s.len() - p,
    {
        let ghost here = s.skip(p as int);
        if p == input.len() {
            return Err(DecodeError::Incomplete);
        }
        assert(here[0] == s[p as int]);
        if input[p] == 101 {
            return Ok((items, p + 1));
        }
        match value_at(input, p, depth) {
            Err(e) => {
                return Err(e);
            },
            Ok((v, e)) => {
                proof {
                    lemma_value_len(here, depth as nat);
                    assert(here.skip(e - p) =~= s.skip(e as int));
                }
                let ghost before = items_view(items@);
                items.push(v);
                assert(items_view(items@) =~= before.push(v.view()));
                p = e;
            },
        }
    }
}

/// Reads dictionary entries from `pos` up to and including the closing `e`.
fn entries_at<'a>(input: &'a [u8], pos: usize, depth: usize) -> (r: Result<
    (Vec<(&'a str, BVal<'a>)>, usize),
    DecodeError,
>)
    requires
        pos <= input@.len(),
    ensures
        match spec_entries(input@.skip(pos as int), depth as nat, Seq::empty()) {
            Ok((es, n)) => r matches Ok((d, e)) && entries_view(d@) == es && e == pos + n,
            Err(err) => r matches Err(e2) && e2 == err,
        },
    decreases depth, 1int,
{
    let ghost s = input@;
    let mut entries: Vec<(&'a str, BVal<'a>)> = Vec::new();
    let mut p = pos;
    assert(entries_view(entries@) =~= Seq::<(Seq<u8>, Value)>::empty());
    loop
        invariant
            pos <= p <= s.len(),
            s == input@,
            spec_entries(s.skip(pos as int), depth as nat, Seq::empty()) == shift(
                spec_entries(s.skip(p as int), depth as nat, entries_view(entries@)),
                p - pos,
            ),
        decreases s.len() - p,
    {
        let ghost here = s.skip(p as int);
        if p == input.len() {
            return Err(DecodeError::Incomplete);
        }
        assert(here[0] == s[p as int]);
        if input[p] == 101 {
            return Ok((entries, p + 1));
        }
        let (kb, ke) = match bytestring_at(input, p) {
            Ok(x) => x,
            Err(e) => {
                return Err(e);
            },
        };
        let ghost n = ke - p;
        assert(0 < n <= here.len()) by {
            crate::grammar::lemma_digit_run_bound(here);
        }
        let k = match utf8_str(kb) {
            Ok(k) => k,
            Err(_) => {
                return Err(DecodeError::Malformed);
            },
        };
        assert(here.skip(n) =~= s.skip(ke as int));
        match value_at(input, ke, depth) {
            Err(e) => {
                return Err(e);
            },
            Ok((v, e)) => {
                proof {
                    lemma_value_len(here.skip(n), depth as nat);
                    assert(here.skip(e - p) =~= s.skip(e as int));
                }
                insert_entry(&mut entries, k, v);
                p = e;
            },
        }
    }
}

/// `r` is what a parse with the outcome `expected` returns on `s`: the
/// bytes that follow the value, and the value.
pub open spec fn decoded<'a>(
    r: Result<(&'a [u8], BVal<'a>), DecodeError>,
    s: Seq<u8>,
    expected: Result<(Value, int), DecodeError>,
) -> bool {
    match expected {
        Ok((v, n)) => r matches Ok((rest, b)) && b.view() == v && rest@ == s.skip(n),
        Err(e) => r matches Err(e2) && e2 == e,
    }
}

pub open spec fn bytes_value(r: Result<(Seq<u8>, int), DecodeError>) -> Result<(Value, int), DecodeError> {
    match r {
        Ok((b, n)) => Ok((Value::Bytes(b), n)),
        Err(e) => Err(e),
    }
}

pub open spec fn int_value(r: Result<(int, int), DecodeError>) -> Result<(Value, int), DecodeError> {
    match r {
        Ok((i, n)) => Ok((Value::Int(i), n)),
        Err(e) => Err(e),
    }
}

/// Decodes the value at the start of `input`. Returns the bytes that
/// follow it and the value.
pub fn bval<'a>(input: &'a [u8]) -> (r: Result<(&'a [u8], BVal<'a>), DecodeError>)
    ensures
        decoded(r, input@, spec_value(input@, MAX_DEPTH as nat)),
{
    assert(input@.skip(0) =~= input@);
    proof {
        lemma_value_len(input@, MAX_DEPTH as nat);
    }
    match value_at(input, 0, MAX_DEPTH) {
        Ok((v, e)) => Ok((slice_subrange(input, e, input.len()), v)),
        Err(e) => Err(e),
    }
}

/// Decodes a byte string at the start of `input`.
pub fn bstring<'a>(input: &'a [u8]) -> (r: Result<(&'a [u8], BVal<'a>), DecodeError>)
    ensures
        decoded(r, input@, bytes_value(spec_bytestring(input@))),
{
    assert(input@.skip(0) =~= input@);
    match bytestring_at(input, 0) {
        Ok((b, e)) => Ok((slice_subrange(input, e, input.len()), BVal::BString(b))),
        Err(e) => Err(e),
    }
}

/// Decodes an integer at the start of `input`.
pub fn bint<'a>(input: &'a [u8]) -> (r: Result<(&'a [u8], BVal<'a>), DecodeError>)
    ensures
        decoded(r, input@, int_value(spec_integer(input@))),
{
    assert(input@.skip(0) =~= input@);
    match integer_at(input, 0) {
        Ok((i, e)) => Ok((slice_subrange(input, e, input.len()), BVal::BInt(i))),
        Err(e) => Err(e),
    }
}

/// Decodes a list at the start of `input`.
pub fn blist<'a>(input: &'a [u8]) -> (r: Result<(&'a [u8], BVal<'a>), DecodeError>)
    ensures
        decoded(r, input@, spec_list(input@)),
{
    if input.len() == 0 {
        return Err(DecodeError::Incomplete);
    }
    if input[0] != 108 {
        return Err(DecodeError::Malformed);
    }
    bval(input)
}

/// Decodes a dictionary at the start of `input`.
pub fn bdict<'a>(input: &'a [u8]) -> (r: Result<(&'a [u8], BVal<'a>), DecodeError>)
    ensures
        decoded(r, input@, spec_dict(input@)),
{
    if input.len() == 0 {
        return Err(DecodeError::Incomplete);
    }
    if input[0] != 100 {
        return Err(DecodeError::Malformed);
    }
    bval(input)
}

/// Decodes a buffer that holds exactly one value. Returns the value and the
/// number of bytes it took, which is the whole buffer.
pub fn decode<'a>(input: &'a [u8]) -> (r: Result<(BVal<'a>, usize), DecodeError>)
    ensures
        match spec_decode(input@) {
            Ok((v, n)) => r matches Ok((b, m)) && b.view() == v && m == n,
            Err(e) => r matches Err(e2) && e2 == e,
        },
{
    proof {
        lemma_value_len(input@, MAX_DEPTH as nat);
    }
    match bval(input) {
        Ok((rest, v)) => {
            if rest.len() == 0 {
                Ok((v, input.len()))
            } else {
                Err(DecodeError::TrailingBytes)
            }
        },
        Err(e) => Err(e),
    }
}

fn write_decimal(n: u64, out: &mut Vec<u8>)
    ensures
        final(out)@ == old(out)@ + nat_digits(n as nat),
    decreases n,
{
    if n < 10 {
        out.push(48 + n as u8);
    } else {
        write_decimal(n / 10, out);
        out.push((48 + n % 10) as u8);
    }
}

fn write_bytes(b: &[u8], out: &mut Vec<u8>)
    ensures
        final(out)@ == old(out)@ + bytes_encoding(b@),
{
    write_decimal(b.len() as u64, out);
    out.push(58);
    let ghost start = out@;
    let mut i: usize = 0;
    while i < b.len()
        invariant
            i <= b@.len(),
            out@ == start + b@.take(i as int),
        decreases b@.len() - i,
    {
        out.push(b[i]);
        assert(b@.take(i + 1) =~= b@.take(i as int).push(b@[i as int]));
        i = i + 1;
    }
    assert(b@.take(b@.len() as int) =~= b@);
}

fn write_value<'a>(v: &BVal<'a>, out: &mut Vec<u8>)
    ensures
        final(out)@ == old(out)@ + encoding(v.view()),
    decreases v,
{
    let ghost begin = out@;
    match v {
        BVal::BString(b) => {
            write_bytes(b, out);
        },
        BVal::BInt(i) => {
            out.push(105);
            if *i < 0 {
                out.push(45);
                let m: u64 = if *i == i64::MIN {
                    9223372036854775808u64
                } else {
                    (-*i) as u64
                };
                write_decimal(m, out);
            } else {
                write_decimal(*i as u64, out);
            }
            out.push(101);
        },
        BVal::BList(l) => {
            proof {
                lemma_list_view(*v);
            }
            let ghost items = items_view(l@);
            out.push(108);
            let ghost start = out@;
            let mut i: usize = 0;
            assert(items.skip(0) =~= items);
            while i < l.len()
                invariant
                    i <= l@.len(),
                    items == items_view(l@),
                    *v == BVal::BList(*l),
                    out@ + items_encoding(items.skip(i as int)) == start + items_encoding(items),
                decreases l@.len() - i,
            {
                let ghost rest = items.skip(i as int);
                assert(rest[0] == l@[i as int].view());
                assert(rest.drop_first() =~= items.skip(i + 1));
                proof {
                    vstd::std_specs::vec::axiom_vec_index_decreases(*l, i as int);
                    assert(decreases_to!(*v => (*v)->BList_0));
                    assert(decreases_to!(*l => l[i as int]));
                    assert(decreases_to!(*v => l[i as int]));
                }
                write_value(&l[i], out);
                i = i + 1;
            }
            out.push(101);
        },
        BVal::BDict(d) => {
            proof {
                lemma_dict_view(*v);
            }
            let ghost entries = entries_view(d@);
            out.push(100);
            let ghost start = out@;
            let mut i: usize = 0;
            assert(entries.skip(0) =~= entries);
            while i < d.len()
                invariant
                    i <= d@.len(),
                    entries == entries_view(d@),
                    *v == BVal::BDict(*d),
                    out@ + entries_encoding(entries.skip(i as int)) == start + entries_encoding(entries),
                decreases d@.len() - i,
            {
                let ghost rest = entries.skip(i as int);
                assert(rest[0] == (d@[i as int].0.spec_bytes(), d@[i as int].1.view()));
                assert(rest.drop_first() =~= entries.skip(i + 1));
                write_bytes(d[i].0.as_bytes(), out);
                proof {
                    vstd::std_specs::vec::axiom_vec_index_decreases(*d, i as int);
                    assert(decreases_to!(*v => (*v)->BDict_0));
                    assert(decreases_to!(*d => d[i as int]));
                    assert(decreases_to!(d[i as int] => d[i as int].1));
                    assert(decreases_to!(*v => d[i as int].1));
                }
                write_value(&d[i].1, out);
                i = i + 1;
            }
            out.push(101);
        },
    }
}

/// Encodes a value. Dictionary entries are written in the order held,
/// which for decoded values is ascending by key.
pub fn encode<'a>(v: &BVal<'a>) -> (r: Vec<u8>)
    ensures
        r@ == encoding(v.view()),
{
    let mut out: Vec<u8> = Vec::new();
    write_value(v, &mut out);
    assert(out@ =~= encoding(v.view()));
    out
}

} // verus!
