//! The bencode grammar and canonical encoding, stated over byte sequences.
//!
//! Each parsing function takes the bytes that remain and returns the value
//! read together with the number of bytes it took.

use vstd::prelude::*;
use vstd::utf8::valid_utf8;
use crate::bencode::{DecodeError, Value};

verus! {

broadcast use {vstd::seq::axiom_seq_index_decreases, vstd::seq::axiom_seq_subrange_decreases};

/// Deepest nesting of lists and dictionaries that the decoder accepts.
pub const MAX_DEPTH: usize = 64;

pub open spec fn is_digit(b: u8) -> bool {
    48 <= b <= 57
}

/// Number of ASCII digits at the start of `s`.
pub open spec fn digit_run(s: Seq<u8>) -> nat
    decreases s.len(),
{
    if s.len() > 0 && is_digit(s[0]) {
        1 + digit_run(s.drop_first())
    } else {
        0
    }
}

/// The number written in decimal by the digits `s`.
pub open spec fn decimal(s: Seq<u8>) -> nat
    decreases s.len(),
{
    if s.len() == 0 {
        0
    } else {
        decimal(s.drop_last()) * 10 + (s.last() - 48) as nat
    }
}

/// Adds `k` to the count of bytes taken by a successful parse.
pub open spec fn shift<T>(r: Result<(T, int), DecodeError>, k: int) -> Result<(T, int), DecodeError> {
    match r {
        Ok((x, n)) => Ok((x, n + k)),
        Err(e) => Err(e),
    }
}

/// `bytestring ::= length ":" <length bytes>`
pub open spec fn spec_bytestring(s: Seq<u8>) -> Result<(Seq<u8>, int), DecodeError> {
    let d = digit_run(s) as int;
    if d == s.len() {
        Err(DecodeError::Incomplete)
    } else if d == 0 || s[d] != 58u8 {
        Err(DecodeError::Malformed)
    } else {
        let n = decimal(s.take(d)) as int;
        if d + 1 + n > s.len() {
            Err(DecodeError::Incomplete)
        } else {
            Ok((s.subrange(d + 1, d + 1 + n), d + 1 + n))
        }
    }
}

/// `integer ::= "i" ["-"] digits "e"`, within the range of `i64`.
pub open spec fn spec_integer(s: Seq<u8>) -> Result<(int, int), DecodeError> {
    if s.len() == 0 {
        Err(DecodeError::Incomplete)
    } else if s[0] != 105u8 {
        Err(DecodeError::Malformed)
    } else {
        let neg = s.len() > 1 && s[1] == 45u8;
        let ds: int = if neg { 2 } else { 1 };
        let t = s.skip(ds);
        let d = digit_run(t) as int;
        if d == t.len() {
            Err(DecodeError::Incomplete)
        } else if d == 0 || t[d] != 101u8 {
            Err(DecodeError::Malformed)
        } else {
            let m = decimal(t.take(d)) as int;
            let v = if neg { -m } else { m };
            if v < i64::MIN || v > i64::MAX {
                Err(DecodeError::Malformed)
            } else {
                Ok((v, ds + d + 1))
            }
        }
    }
}

/// Lexicographic order on byte strings.
pub open spec fn lex_lt(a: Seq<u8>, b: Seq<u8>) -> bool
    decreases a.len(),
{
    if b.len() == 0 {
        false
    } else if a.len() == 0 {
        true
    } else if a[0] != b[0] {
        a[0] < b[0]
    } else {
        lex_lt(a.drop_first(), b.drop_first())
    }
}

/// Puts `(k, v)` into the entries `d`: in place of an entry with key `k`,
/// else before the first entry whose key is greater.
pub open spec fn dict_insert(d: Seq<(Seq<u8>, Value)>, k: Seq<u8>, v: Value) -> Seq<(Seq<u8>, Value)>
    decreases d.len(),
{
    if d.len() == 0 {
        seq![(k, v)]
    } else if d[0].0 == k {
        d.update(0, (k, v))
    } else if lex_lt(k, d[0].0) {
        seq![(k, v)] + d
    } else {
        seq![d[0]] + dict_insert(d.drop_first(), k, v)
    }
}

pub open spec fn keys_sorted(d: Seq<(Seq<u8>, Value)>) -> bool {
    forall|i: int, j: int| 0 <= i < j < d.len() ==> lex_lt(#[trigger] d[i].0, #[trigger] d[j].0)
}

/// `value ::= bytestring | integer | list | dictionary`, with at most
/// `depth` levels of lists and dictionaries.
pub open spec fn spec_value(s: Seq<u8>, depth: nat) -> Result<(Value, int), DecodeError>
    decreases depth, s.len(), 0int,
{
    if s.len() == 0 {
        Err(DecodeError::Incomplete)
    } else if is_digit(s[0]) {
        match spec_bytestring(s) {
            Ok((b, n)) => Ok((Value::Bytes(b), n)),
            Err(e) => Err(e),
        }
    } else if s[0] == 105u8 {
        match spec_integer(s) {
            Ok((i, n)) => Ok((Value::Int(i), n)),
            Err(e) => Err(e),
        }
    } else if s[0] == 108u8 || s[0] == 100u8 {
        if depth == 0 {
            Err(DecodeError::TooDeep)
        } else if s[0] == 108u8 {
            match spec_items(s.drop_first(), (depth - 1) as nat, Seq::empty()) {
                Ok((items, n)) => Ok((Value::List(items), n + 1)),
                Err(e) => Err(e),
            }
        } else {
            match spec_entries(s.drop_first(), (depth - 1) as nat, Seq::empty()) {
                Ok((entries, n)) => Ok((Value::Dict(entries), n + 1)),
                Err(e) => Err(e),
            }
        }
    } else {
        Err(DecodeError::Malformed)
    }
}

/// `value* "e"`: the items of a list after its `l`, appended to `acc`.
pub open spec fn spec_items(s: Seq<u8>, depth: nat, acc: Seq<Value>) -> Result<(Seq<Value>, int), DecodeError>
    decreases depth, s.len(), 1int,
{
    if s.len() == 0 {
        Err(DecodeError::Incomplete)
    } else if s[0] == 101u8 {
        Ok((acc, 1))
    } else {
        match spec_value(s, depth) {
            Err(e) => Err(e),
            Ok((v, n)) => if 0 < n <= s.len() {
                shift(spec_items(s.skip(n), depth, acc.push(v)), n)
            } else {
                Err(DecodeError::Malformed)
            },
        }
    }
}

/// `(bytestring value)* "e"`: the entries of a dictionary after its `d`,
/// put into `acc` one by one with [`dict_insert`], so that a key that
/// repeats keeps its last value. Keys must be UTF-8.
pub open spec fn spec_entries(s: Seq<u8>, depth: nat, acc: Seq<(Seq<u8>, Value)>) -> Result<
    (Seq<(Seq<u8>, Value)>, int),
    DecodeError,
>
    decreases depth, s.len(), 1int,
{
    if s.len() == 0 {
        Err(DecodeError::Incomplete)
    } else if s[0] == 101u8 {
        Ok((acc, 1))
    } else {
        match spec_bytestring(s) {
            Err(e) => Err(e),
            Ok((k, n)) => if !valid_utf8(k) || !(0 < n <= s.len()) {
                Err(DecodeError::Malformed)
            } else {
                match spec_value(s.skip(n), depth) {
                    Err(e) => Err(e),
                    Ok((v, m)) => if 0 < m <= s.len() - n {
                        shift(spec_entries(s.skip(n + m), depth, dict_insert(acc, k, v)), n + m)
                    } else {
                        Err(DecodeError::Malformed)
                    },
                }
            },
        }
    }
}

/// Decimal digits of `n`, without leading zeros.
pub open spec fn nat_digits(n: nat) -> Seq<u8>
    decreases n,
{
    if n < 10 {
        seq![(48 + n) as u8]
    } else {
        nat_digits(n / 10).push((48 + n % 10) as u8)
    }
}

pub open spec fn bytes_encoding(b: Seq<u8>) -> Seq<u8> {
    nat_digits(b.len()) + seq![58u8] + b
}

pub open spec fn int_encoding(i: int) -> Seq<u8> {
    seq![105u8] + (if i < 0 {
        seq![45u8] + nat_digits((-i) as nat)
    } else {
        nat_digits(i as nat)
    }) + seq![101u8]
}

/// The canonical encoding of a value; dictionary entries are written in
/// the order they are held.
pub open spec fn encoding(v: Value) -> Seq<u8>
    decreases v,
{
    match v {
        Value::Bytes(b) => bytes_encoding(b),
        Value::Int(i) => int_encoding(i),
        Value::List(items) => seq![108u8] + items_encoding(items) + seq![101u8],
        Value::Dict(entries) => seq![100u8] + entries_encoding(entries) + seq![101u8],
    }
}

pub open spec fn items_encoding(items: Seq<Value>) -> Seq<u8>
    decreases items,
{
    if items.len() == 0 {
        Seq::empty()
    } else {
        encoding(items[0]) + items_encoding(items.drop_first())
    }
}

pub open spec fn entries_encoding(entries: Seq<(Seq<u8>, Value)>) -> Seq<u8>
    decreases entries,
{
    if entries.len() == 0 {
        Seq::empty()
    } else {
        bytes_encoding(entries[0].0) + encoding(entries[0].1) + entries_encoding(entries.drop_first())
    }
}

/// A value as the decoder produces it: integers within `i64`, dictionary
/// keys UTF-8 and strictly increasing.
pub open spec fn value_wf(v: Value) -> bool
    decreases v,
{
    match v {
        Value::Bytes(_) => true,
        Value::Int(i) => i64::MIN <= i <= i64::MAX,
        Value::List(items) => forall|i: int| 0 <= i < items.len() ==> value_wf(#[trigger] items[i]),
        Value::Dict(entries) => {
            &&& keys_sorted(entries)
            &&& forall|i: int|
                0 <= i < entries.len() ==> valid_utf8(#[trigger] entries[i].0) && value_wf(
                    entries[i].1,
                )
        },
    }
}

/// Levels of lists and dictionaries in a value.
pub open spec fn nesting(v: Value) -> nat
    decreases v,
{
    match v {
        Value::Bytes(_) => 0,
        Value::Int(_) => 0,
        Value::List(items) => 1 + items_nesting(items),
        Value::Dict(entries) => 1 + entries_nesting(entries),
    }
}

pub open spec fn items_nesting(items: Seq<Value>) -> nat
    decreases items,
{
    if items.len() == 0 {
        0
    } else {
        let a = nesting(items[0]);
        let b = items_nesting(items.drop_first());
        if a >= b { a } else { b }
    }
}

pub open spec fn entries_nesting(entries: Seq<(Seq<u8>, Value)>) -> nat
    decreases entries,
{
    if entries.len() == 0 {
        0
    } else {
        let a = nesting(entries[0].1);
        let b = entries_nesting(entries.drop_first());
        if a >= b { a } else { b }
    }
}

pub proof fn lemma_lex_irreflexive(a: Seq<u8>)
    ensures
        !lex_lt(a, a),
    decreases a.len(),
{
    if a.len() > 0 {
        lemma_lex_irreflexive(a.drop_first());
    }
}

pub proof fn lemma_lex_asymmetric(a: Seq<u8>, b: Seq<u8>)
    ensures
        !(lex_lt(a, b) && lex_lt(b, a)),
    decreases a.len(),
{
    if a.len() > 0 && b.len() > 0 && a[0] == b[0] {
        lemma_lex_asymmetric(a.drop_first(), b.drop_first());
    }
}

pub proof fn lemma_lex_transitive(a: Seq<u8>, b: Seq<u8>, c: Seq<u8>)
    requires
        lex_lt(a, b),
        lex_lt(b, c),
    ensures
        lex_lt(a, c),
    decreases a.len(),
{
    if a.len() > 0 && a[0] == b[0] && b[0] == c[0] {
        lemma_lex_transitive(a.drop_first(), b.drop_first(), c.drop_first());
    }
}

pub proof fn lemma_lex_total(a: Seq<u8>, b: Seq<u8>)
    requires
        a != b,
    ensures
        lex_lt(a, b) || lex_lt(b, a),
    decreases a.len(),
{
    if a.len() > 0 && b.len() > 0 && a[0] == b[0] {
        if a.drop_first() == b.drop_first() {
            assert(a =~= seq![a[0]] + a.drop_first());
            assert(b =~= seq![b[0]] + b.drop_first());
        }
        lemma_lex_total(a.drop_first(), b.drop_first());
    } else if a.len() == 0 && b.len() == 0 {
        assert(a =~= b);
    }
}

/// Equal leading bytes leave the order to what follows them.
pub proof fn lemma_lex_skip(a: Seq<u8>, b: Seq<u8>, i: int)
    requires
        0 <= i <= a.len(),
        i <= b.len(),
        a.take(i) == b.take(i),
    ensures
        lex_lt(a, b) == lex_lt(a.skip(i), b.skip(i)),
    decreases i,
{
    if i > 0 {
        assert(a[0] == a.take(i)[0]);
        assert(b[0] == b.take(i)[0]);
        assert(a.drop_first().take(i - 1) =~= a.take(i).drop_first());
        assert(b.drop_first().take(i - 1) =~= b.take(i).drop_first());
        lemma_lex_skip(a.drop_first(), b.drop_first(), i - 1);
        assert(a.drop_first().skip(i - 1) =~= a.skip(i));
        assert(b.drop_first().skip(i - 1) =~= b.skip(i));
    } else {
        assert(a.skip(0) =~= a);
        assert(b.skip(0) =~= b);
    }
}

/// Entries whose keys are all below `k` stay in front of it.
pub proof fn lemma_insert_after(d: Seq<(Seq<u8>, Value)>, k: Seq<u8>, v: Value, i: int)
    requires
        0 <= i <= d.len(),
        forall|j: int| 0 <= j < i ==> lex_lt(#[trigger] d[j].0, k),
    ensures
        dict_insert(d, k, v) == d.take(i) + dict_insert(d.skip(i), k, v),
    decreases i,
{
    if i == 0 {
        assert(d.skip(0) =~= d);
        assert(d.take(0) + dict_insert(d, k, v) =~= dict_insert(d, k, v));
    } else {
        lemma_lex_irreflexive(k);
        lemma_lex_asymmetric(d[0].0, k);
        assert(lex_lt(d[0].0, k));
        let r = d.drop_first();
        assert forall|j: int| 0 <= j < i - 1 implies lex_lt(#[trigger] r[j].0, k) by {
            assert(r[j] == d[j + 1]);
        }
        lemma_insert_after(r, k, v, i - 1);
        assert(r.skip(i - 1) =~= d.skip(i));
        assert(seq![d[0]] + r.take(i - 1) =~= d.take(i));
        assert(dict_insert(d, k, v) == seq![d[0]] + dict_insert(r, k, v));
        assert(seq![d[0]] + (r.take(i - 1) + dict_insert(r.skip(i - 1), k, v)) =~= d.take(i)
            + dict_insert(d.skip(i), k, v));
    }
}

pub proof fn lemma_digit_run(s: Seq<u8>, n: int)
    requires
        0 <= n <= s.len(),
        forall|j: int| 0 <= j < n ==> is_digit(#[trigger] s[j]),
        n == s.len() || !is_digit(s[n]),
    ensures
        digit_run(s) == n,
    decreases n,
{
    if n > 0 {
        let r = s.drop_first();
        assert forall|j: int| 0 <= j < n - 1 implies is_digit(#[trigger] r[j]) by {
            assert(r[j] == s[j + 1]);
        }
        if n < s.len() {
            assert(r[n - 1] == s[n]);
        }
        lemma_digit_run(r, n - 1);
    }
}

pub proof fn lemma_digit_run_bound(s: Seq<u8>)
    ensures
        digit_run(s) <= s.len(),
        forall|j: int| 0 <= j < digit_run(s) ==> is_digit(#[trigger] s[j]),
        digit_run(s) < s.len() ==> !is_digit(s[digit_run(s) as int]),
    decreases s.len(),
{
    if s.len() > 0 && is_digit(s[0]) {
        let r = s.drop_first();
        lemma_digit_run_bound(r);
        assert forall|j: int| 0 <= j < digit_run(s) implies is_digit(#[trigger] s[j]) by {
            if j > 0 {
                assert(s[j] == r[j - 1]);
            }
        }
        if digit_run(s) < s.len() {
            assert(s[digit_run(s) as int] == r[digit_run(r) as int]);
        }
    }
}

pub proof fn lemma_value_len(s: Seq<u8>, depth: nat)
    ensures
        spec_value(s, depth) matches Ok((v, n)) ==> 0 < n <= s.len(),
    decreases depth, s.len(), 0int,
{
    lemma_digit_run_bound(s);
    if s.len() > 1 {
        lemma_digit_run_bound(s.skip(if s[1] == 45u8 { 2 } else { 1 }));
    }
    if s.len() == 1 {
        lemma_digit_run_bound(s.skip(1));
    }
    if s.len() > 0 && (s[0] == 108u8 || s[0] == 100u8) && depth > 0 {
        if s[0] == 108u8 {
            lemma_items_len(s.drop_first(), (depth - 1) as nat, Seq::empty());
        } else {
            lemma_entries_len(s.drop_first(), (depth - 1) as nat, Seq::empty());
        }
    }
}

pub proof fn lemma_items_len(s: Seq<u8>, depth: nat, acc: Seq<Value>)
    ensures
        spec_items(s, depth, acc) matches Ok((v, n)) ==> 0 < n <= s.len(),
    decreases depth, s.len(), 1int,
{
    if s.len() > 0 && s[0] != 101u8 {
        lemma_value_len(s, depth);
        if let Ok((v, n)) = spec_value(s, depth) {
            if 0 < n <= s.len() {
                lemma_items_len(s.skip(n), depth, acc.push(v));
            }
        }
    }
}

pub proof fn lemma_entries_len(s: Seq<u8>, depth: nat, acc: Seq<(Seq<u8>, Value)>)
    ensures
        spec_entries(s, depth, acc) matches Ok((v, n)) ==> 0 < n <= s.len(),
    decreases depth, s.len(), 1int,
{
    if s.len() > 0 && s[0] != 101u8 {
        if let Ok((k, n)) = spec_bytestring(s) {
            if valid_utf8(k) && 0 < n <= s.len() {
                lemma_value_len(s.skip(n), depth);
                if let Ok((v, m)) = spec_value(s.skip(n), depth) {
                    if 0 < m <= s.len() - n {
                        lemma_entries_len(s.skip(n + m), depth, dict_insert(acc, k, v));
                    }
                }
            }
        }
    }
}

/// A value that must be a list: `"l" value* "e"`.
pub open spec fn spec_list(s: Seq<u8>) -> Result<(Value, int), DecodeError> {
    if s.len() == 0 {
        Err(DecodeError::Incomplete)
    } else if s[0] != 108u8 {
        Err(DecodeError::Malformed)
    } else {
        spec_value(s, MAX_DEPTH as nat)
    }
}

/// A value that must be a dictionary: `"d" (bytestring value)* "e"`.
pub open spec fn spec_dict(s: Seq<u8>) -> Result<(Value, int), DecodeError> {
    if s.len() == 0 {
        Err(DecodeError::Incomplete)
    } else if s[0] != 100u8 {
        Err(DecodeError::Malformed)
    } else {
        spec_value(s, MAX_DEPTH as nat)
    }
}

/// A whole buffer holding exactly one value.
pub open spec fn spec_decode(s: Seq<u8>) -> Result<(Value, int), DecodeError> {
    match spec_value(s, MAX_DEPTH as nat) {
        Ok((v, n)) => if n == s.len() {
            Ok((v, n))
        } else {
            Err(DecodeError::TrailingBytes)
        },
        Err(e) => Err(e),
    }
}

} // verus!
