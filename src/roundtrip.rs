//! How decoding and the canonical encoding fit together.

use vstd::prelude::*;
use vstd::utf8::valid_utf8;
use crate::bencode::{DecodeError, Value};
use crate::grammar::{
    MAX_DEPTH, bytes_encoding, decimal, dict_insert, digit_run, encoding, entries_encoding,
    entries_nesting, int_encoding, is_digit, items_encoding, items_nesting, keys_sorted,
    lemma_digit_run, lemma_lex_asymmetric, lemma_lex_total, lemma_value_len, lemma_lex_irreflexive, lemma_lex_transitive, lex_lt,
    nat_digits, nesting, shift, spec_bytestring, spec_decode, spec_entries, spec_integer,
    spec_items, spec_value, value_wf,
};

verus! {

proof fn lemma_nat_digits(n: nat)
    ensures
        nat_digits(n).len() >= 1,
        forall|i: int| 0 <= i < nat_digits(n).len() ==> is_digit(#[trigger] nat_digits(n)[i]),
        decimal(nat_digits(n)) == n,
    decreases n,
{
    if n >= 10 {
        lemma_nat_digits(n / 10);
        let ds = nat_digits(n);
        assert(ds.drop_last() =~= nat_digits(n / 10));
        assert(ds.last() == (48 + n % 10) as u8);
        assert(((48 + n % 10) as u8) as int == 48 + n % 10);
        assert(decimal(ds) == decimal(nat_digits(n / 10)) * 10 + n % 10);
        assert((n / 10) * 10 + n % 10 == n);
    } else {
        let ds = nat_digits(n);
        assert(ds.drop_last() =~= Seq::<u8>::empty());
        assert(ds.last() == (48 + n) as u8);
        assert(((48 + n) as u8) as int == 48 + n);
        assert(decimal(Seq::<u8>::empty()) == 0);
        assert(decimal(ds) == n);
    }
}

/// A run of digits followed by a byte that is not a digit.
proof fn lemma_digits_then(ds: Seq<u8>, rest: Seq<u8>)
    requires
        forall|i: int| 0 <= i < ds.len() ==> is_digit(#[trigger] ds[i]),
        rest.len() > 0,
        !is_digit(rest[0]),
    ensures
        digit_run(ds + rest) == ds.len(),
        (ds + rest).take(ds.len() as int) == ds,
        (ds + rest)[ds.len() as int] == rest[0],
{
    let s = ds + rest;
    assert forall|j: int| 0 <= j < ds.len() implies is_digit(#[trigger] s[j]) by {
        assert(s[j] == ds[j]);
    }
    lemma_digit_run(s, ds.len() as int);
    assert(s.take(ds.len() as int) =~= ds);
}

proof fn lemma_bytes_parse(b: Seq<u8>, rest: Seq<u8>)
    ensures
        spec_bytestring(bytes_encoding(b) + rest) == Ok::<(Seq<u8>, int), DecodeError>(
            (b, bytes_encoding(b).len() as int),
        ),
{
    let ds = nat_digits(b.len());
    lemma_nat_digits(b.len());
    let tail = seq![58u8] + b + rest;
    let s = bytes_encoding(b) + rest;
    assert(s =~= ds + tail);
    lemma_digits_then(ds, tail);
    let d = ds.len() as int;
    assert(s.subrange(d + 1, d + 1 + b.len()) =~= b);
}

proof fn lemma_int_parse(i: int, rest: Seq<u8>)
    requires
        i64::MIN <= i <= i64::MAX,
    ensures
        spec_integer(int_encoding(i) + rest) == Ok::<(int, int), DecodeError>(
            (i, int_encoding(i).len() as int),
        ),
{
    let s = int_encoding(i) + rest;
    let m: nat = if i < 0 { (-i) as nat } else { i as nat };
    let ds = nat_digits(m);
    lemma_nat_digits(m);
    let tail = seq![101u8] + rest;
    let ds_at: int = if i < 0 { 2 } else { 1 };
    let head: Seq<u8> = if i < 0 { seq![105u8, 45u8] } else { seq![105u8] };
    assert(int_encoding(i) =~= head + ds + seq![101u8]);
    assert(s =~= head + (ds + tail));
    assert(s.skip(ds_at) =~= ds + tail);
    assert(s[0] == 105u8);
    if i >= 0 {
        assert(s[1] == ds[0]);
    } else {
        assert(s[1] == 45u8);
    }
    lemma_digits_then(ds, tail);
    assert(int_encoding(i).len() == ds_at + ds.len() + 1);
}

proof fn lemma_items_bound(items: Seq<Value>, d: nat)
    ensures
        (items_nesting(items) <= d) == (forall|i: int|
            0 <= i < items.len() ==> nesting(#[trigger] items[i]) <= d),
    decreases items.len(),
{
    if items.len() > 0 {
        let r = items.drop_first();
        lemma_items_bound(r, d);
        if forall|i: int| 0 <= i < items.len() ==> nesting(#[trigger] items[i]) <= d {
            assert forall|i: int| 0 <= i < r.len() implies nesting(#[trigger] r[i]) <= d by {
                assert(r[i] == items[i + 1]);
            }
        }
        if items_nesting(items) <= d {
            assert forall|i: int| 0 <= i < items.len() implies nesting(#[trigger] items[i]) <= d by {
                if i > 0 {
                    assert(items[i] == r[i - 1]);
                }
            }
        }
    }
}

proof fn lemma_entries_bound(es: Seq<(Seq<u8>, Value)>, d: nat)
    ensures
        (entries_nesting(es) <= d) == (forall|i: int|
            0 <= i < es.len() ==> nesting(#[trigger] es[i].1) <= d),
    decreases es.len(),
{
    if es.len() > 0 {
        let r = es.drop_first();
        lemma_entries_bound(r, d);
        if forall|i: int| 0 <= i < es.len() ==> nesting(#[trigger] es[i].1) <= d {
            assert forall|i: int| 0 <= i < r.len() implies nesting(#[trigger] r[i].1) <= d by {
                assert(r[i] == es[i + 1]);
            }
        }
        if entries_nesting(es) <= d {
            assert forall|i: int| 0 <= i < es.len() implies nesting(#[trigger] es[i].1) <= d by {
                if i > 0 {
                    assert(es[i] == r[i - 1]);
                }
            }
        }
    }
}

proof fn lemma_value_parse(v: Value, rest: Seq<u8>, depth: nat)
    requires
        value_wf(v),
        nesting(v) <= depth,
    ensures
        spec_value(encoding(v) + rest, depth) == Ok::<(Value, int), DecodeError>(
            (v, encoding(v).len() as int),
        ),
    decreases v,
{
    let s = encoding(v) + rest;
    match v {
        Value::Bytes(b) => {
            lemma_bytes_parse(b, rest);
            lemma_nat_digits(b.len());
            assert(s[0] == nat_digits(b.len())[0]);
        },
        Value::Int(i) => {
            lemma_int_parse(i, rest);
        },
        Value::List(items) => {
            let tail = items_encoding(items) + seq![101u8] + rest;
            assert(s =~= seq![108u8] + tail);
            assert(s.drop_first() =~= tail);
            lemma_items_bound(items, (depth - 1) as nat);
            lemma_items_parse(items, rest, (depth - 1) as nat, Seq::empty());
            assert(Seq::<Value>::empty() + items =~= items);
        },
        Value::Dict(es) => {
            let tail = entries_encoding(es) + seq![101u8] + rest;
            assert(s =~= seq![100u8] + tail);
            assert(s.drop_first() =~= tail);
            lemma_entries_bound(es, (depth - 1) as nat);
            assert(Seq::<(Seq<u8>, Value)>::empty() + es =~= es);
            lemma_entries_parse(es, rest, (depth - 1) as nat, Seq::empty());
        },
    }
}

proof fn lemma_items_parse(items: Seq<Value>, rest: Seq<u8>, depth: nat, acc: Seq<Value>)
    requires
        forall|i: int| 0 <= i < items.len() ==> value_wf(#[trigger] items[i]),
        forall|i: int| 0 <= i < items.len() ==> nesting(#[trigger] items[i]) <= depth,
    ensures
        spec_items(items_encoding(items) + seq![101u8] + rest, depth, acc) == Ok::<
            (Seq<Value>, int),
            DecodeError,
        >((acc + items, items_encoding(items).len() as int + 1)),
    decreases items,
{
    let s = items_encoding(items) + seq![101u8] + rest;
    if items.len() == 0 {
        assert(s =~= seq![101u8] + rest);
        assert(acc + items =~= acc);
    } else {
        let first = items[0];
        let r = items.drop_first();
        let n = encoding(first).len() as int;
        let after = items_encoding(r) + seq![101u8] + rest;
        assert(s =~= encoding(first) + after);
        lemma_value_parse(first, after, depth);
        assert(encoding(first).len() > 0) by {
            lemma_encoding_nonempty(first);
        }
        assert(s[0] == encoding(first)[0]);
        assert(encoding(first)[0] != 101u8) by {
            lemma_encoding_nonempty(first);
        }
        assert(s.skip(n) =~= after);
        assert forall|i: int| 0 <= i < r.len() implies value_wf(#[trigger] r[i]) && nesting(r[i]) <= depth by {
            assert(r[i] == items[i + 1]);
        }
        lemma_items_parse(r, rest, depth, acc.push(first));
        assert(acc.push(first) + r =~= acc + items);
    }
}

#[verifier::rlimit(40)]
proof fn lemma_entries_parse(
    es: Seq<(Seq<u8>, Value)>,
    rest: Seq<u8>,
    depth: nat,
    acc: Seq<(Seq<u8>, Value)>,
)
    requires
        keys_sorted(acc + es),
        forall|i: int| 0 <= i < es.len() ==> valid_utf8(#[trigger] es[i].0) && value_wf(es[i].1),
        forall|i: int| 0 <= i < es.len() ==> nesting(#[trigger] es[i].1) <= depth,
    ensures
        spec_entries(entries_encoding(es) + seq![101u8] + rest, depth, acc) == Ok::<
            (Seq<(Seq<u8>, Value)>, int),
            DecodeError,
        >((acc + es, entries_encoding(es).len() as int + 1)),
    decreases es,
{
    let s = entries_encoding(es) + seq![101u8] + rest;
    if es.len() == 0 {
        assert(s =~= seq![101u8] + rest);
        assert(acc + es =~= acc);
    } else {
        let (k, v) = es[0];
        let r = es.drop_first();
        let kb = bytes_encoding(k);
        let n = kb.len() as int;
        let m = encoding(v).len() as int;
        let after = entries_encoding(r) + seq![101u8] + rest;
        assert(s =~= kb + (encoding(v) + after));
        lemma_bytes_parse(k, encoding(v) + after);
        lemma_nat_digits(k.len());
        assert(s[0] == nat_digits(k.len())[0]);
        assert(s.skip(n) =~= encoding(v) + after);
        lemma_value_parse(v, after, depth);
        lemma_encoding_nonempty(v);
        assert(s.skip(n + m) =~= after);
        let all = acc + es;
        assert(dict_insert(acc, k, v) == acc.push((k, v))) by {
            assert forall|j: int| 0 <= j < acc.len() implies lex_lt(#[trigger] acc[j].0, k) by {
                assert(all[j] == acc[j]);
                assert(all[acc.len() as int] == es[0]);
            }
            lemma_insert_last(acc, k, v);
        }
        assert(keys_sorted(acc.push((k, v)) + r)) by {
            assert(acc.push((k, v)) + r =~= all);
        }
        assert forall|i: int| 0 <= i < r.len() implies valid_utf8(#[trigger] r[i].0) && value_wf(r[i].1)
            && nesting(r[i].1) <= depth by {
            assert(r[i] == es[i + 1]);
        }
        lemma_entries_parse(r, rest, depth, acc.push((k, v)));
        assert(acc.push((k, v)) + r =~= acc + es);
        assert(entries_encoding(es).len() == n + m + entries_encoding(r).len());
        assert(spec_entries(s, depth, acc) == shift(
            spec_entries(after, depth, acc.push((k, v))),
            n + m,
        ));
    }
}

proof fn lemma_encoding_nonempty(v: Value)
    ensures
        encoding(v).len() > 0,
        encoding(v)[0] != 101u8,
{
    match v {
        Value::Bytes(b) => {
            lemma_nat_digits(b.len());
            assert(encoding(v)[0] == nat_digits(b.len())[0]);
        },
        _ => {},
    }
}

/// A key above every key held goes last.
proof fn lemma_insert_last(d: Seq<(Seq<u8>, Value)>, k: Seq<u8>, v: Value)
    requires
        forall|j: int| 0 <= j < d.len() ==> lex_lt(#[trigger] d[j].0, k),
    ensures
        dict_insert(d, k, v) == d.push((k, v)),
    decreases d.len(),
{
    if d.len() > 0 {
        lemma_lex_irreflexive(k);
        lemma_lex_asymmetric(d[0].0, k);
        let r = d.drop_first();
        assert forall|j: int| 0 <= j < r.len() implies lex_lt(#[trigger] r[j].0, k) by {
            assert(r[j] == d[j + 1]);
        }
        lemma_insert_last(r, k, v);
        assert(seq![d[0]] + r.push((k, v)) =~= d.push((k, v)));
    }
}

/// Entries as the decoder builds them, with values nested at most `d` deep.
pub open spec fn entries_ok(es: Seq<(Seq<u8>, Value)>, d: nat) -> bool {
    &&& keys_sorted(es)
    &&& forall|i: int|
        0 <= i < es.len() ==> valid_utf8(#[trigger] es[i].0) && value_wf(es[i].1) && nesting(
            es[i].1,
        ) <= d
}

proof fn lemma_insert_above(d: Seq<(Seq<u8>, Value)>, k: Seq<u8>, v: Value, lo: Seq<u8>)
    requires
        lex_lt(lo, k),
        forall|j: int| 0 <= j < d.len() ==> lex_lt(lo, #[trigger] d[j].0),
    ensures
        forall|j: int|
            0 <= j < dict_insert(d, k, v).len() ==> lex_lt(lo, #[trigger] dict_insert(d, k, v)[j].0),
    decreases d.len(),
{
    if d.len() > 0 && d[0].0 != k && !lex_lt(k, d[0].0) {
        let r = d.drop_first();
        assert forall|j: int| 0 <= j < r.len() implies lex_lt(lo, #[trigger] r[j].0) by {
            assert(r[j] == d[j + 1]);
        }
        lemma_insert_above(r, k, v, lo);
        let x = dict_insert(d, k, v);
        let y = dict_insert(r, k, v);
        assert forall|j: int| 0 <= j < x.len() implies lex_lt(lo, #[trigger] x[j].0) by {
            if j > 0 {
                assert(x[j] == y[j - 1]);
            }
        }
    }
}

proof fn lemma_insert_ok(e: Seq<(Seq<u8>, Value)>, k: Seq<u8>, v: Value, d: nat)
    requires
        entries_ok(e, d),
        valid_utf8(k),
        value_wf(v),
        nesting(v) <= d,
    ensures
        entries_ok(dict_insert(e, k, v), d),
    decreases e.len(),
{
    let x = dict_insert(e, k, v);
    if e.len() == 0 {
    } else if e[0].0 == k {
        assert forall|i: int, j: int| 0 <= i < j < x.len() implies lex_lt(#[trigger] x[i].0, #[trigger] x[j].0) by {
            assert(x[i].0 == e[i].0);
            assert(x[j].0 == e[j].0);
        }
    } else if lex_lt(k, e[0].0) {
        assert forall|i: int, j: int| 0 <= i < j < x.len() implies lex_lt(#[trigger] x[i].0, #[trigger] x[j].0) by {
            if i == 0 {
                if j > 1 {
                    lemma_lex_transitive(k, e[0].0, e[j - 1].0);
                }
            } else {
                assert(x[i] == e[i - 1]);
                assert(x[j] == e[j - 1]);
            }
        }
    } else {
        lemma_lex_total(k, e[0].0);
        let r = e.drop_first();
        assert forall|i: int, j: int| 0 <= i < j < r.len() implies lex_lt(#[trigger] r[i].0, #[trigger] r[j].0) by {
            assert(r[i] == e[i + 1]);
            assert(r[j] == e[j + 1]);
        }
        assert forall|i: int| 0 <= i < r.len() implies valid_utf8(#[trigger] r[i].0) && value_wf(r[i].1)
            && nesting(r[i].1) <= d by {
            assert(r[i] == e[i + 1]);
        }
        lemma_insert_ok(r, k, v, d);
        assert forall|j: int| 0 <= j < r.len() implies lex_lt(e[0].0, #[trigger] r[j].0) by {
            assert(r[j] == e[j + 1]);
        }
        lemma_insert_above(r, k, v, e[0].0);
        let y = dict_insert(r, k, v);
        assert(x == seq![e[0]] + y);
        assert forall|i: int, j: int| 0 <= i < j < x.len() implies lex_lt(#[trigger] x[i].0, #[trigger] x[j].0) by {
            assert(x[j] == y[j - 1]);
            if i > 0 {
                assert(x[i] == y[i - 1]);
            }
        }
        assert forall|i: int| 0 <= i < x.len() implies valid_utf8(#[trigger] x[i].0) && value_wf(x[i].1)
            && nesting(x[i].1) <= d by {
            if i > 0 {
                assert(x[i] == y[i - 1]);
            }
        }
    }
}

proof fn lemma_value_wf(s: Seq<u8>, depth: nat)
    ensures
        spec_value(s, depth) matches Ok((v, n)) ==> value_wf(v) && nesting(v) <= depth,
    decreases depth, s.len(), 0int,
{
    if s.len() > 0 && (s[0] == 108u8 || s[0] == 100u8) && depth > 0 {
        let d = (depth - 1) as nat;
        if s[0] == 108u8 {
            lemma_items_wf(s.drop_first(), d, Seq::empty());
            if let Ok((items, n)) = spec_items(s.drop_first(), d, Seq::empty()) {
                lemma_items_bound(items, d);
                assert(value_wf(Value::List(items)));
                assert(nesting(Value::List(items)) <= depth);
            }
        } else {
            lemma_entries_wf(s.drop_first(), d, Seq::empty());
            if let Ok((es, n)) = spec_entries(s.drop_first(), d, Seq::empty()) {
                lemma_entries_bound(es, d);
                assert forall|i: int| 0 <= i < es.len() implies nesting(#[trigger] es[i].1) <= d by {
                    assert(valid_utf8(es[i].0));
                }
                assert(value_wf(Value::Dict(es)));
                assert(nesting(Value::Dict(es)) <= depth);
            }
        }
    } else if s.len() > 0 && s[0] == 105u8 {
        if let Ok((i, n)) = spec_integer(s) {
            assert(value_wf(Value::Int(i)));
        }
    }
}

proof fn lemma_items_wf(s: Seq<u8>, depth: nat, acc: Seq<Value>)
    requires
        forall|i: int| 0 <= i < acc.len() ==> value_wf(#[trigger] acc[i]) && nesting(acc[i]) <= depth,
    ensures
        spec_items(s, depth, acc) matches Ok((vs, n)) ==> forall|i: int|
            0 <= i < vs.len() ==> value_wf(#[trigger] vs[i]) && nesting(vs[i]) <= depth,
    decreases depth, s.len(), 1int,
{
    if s.len() > 0 && s[0] != 101u8 {
        lemma_value_wf(s, depth);
        if let Ok((v, n)) = spec_value(s, depth) {
            if 0 < n <= s.len() {
                let next = acc.push(v);
                assert forall|i: int| 0 <= i < next.len() implies value_wf(#[trigger] next[i])
                    && nesting(next[i]) <= depth by {
                    if i < acc.len() {
                        assert(next[i] == acc[i]);
                    }
                }
                lemma_items_wf(s.skip(n), depth, next);
            }
        }
    }
}

proof fn lemma_entries_wf(s: Seq<u8>, depth: nat, acc: Seq<(Seq<u8>, Value)>)
    requires
        entries_ok(acc, depth),
    ensures
        spec_entries(s, depth, acc) matches Ok((es, n)) ==> entries_ok(es, depth),
    decreases depth, s.len(), 1int,
{
    if s.len() > 0 && s[0] != 101u8 {
        if let Ok((k, n)) = spec_bytestring(s) {
            if valid_utf8(k) && 0 < n <= s.len() {
                lemma_value_wf(s.skip(n), depth);
                if let Ok((v, m)) = spec_value(s.skip(n), depth) {
                    if 0 < m <= s.len() - n {
                        lemma_insert_ok(acc, k, v, depth);
                        lemma_entries_wf(s.skip(n + m), depth, dict_insert(acc, k, v));
                    }
                }
            }
        }
    }
}

/// Decoding the canonical encoding of a well-formed value, nested no deeper
/// than the decoder accepts, gives that value back and takes exactly the
/// bytes of the encoding, whatever follows them.
pub proof fn lemma_decode_encoding(v: Value, rest: Seq<u8>)
    requires
        value_wf(v),
        nesting(v) <= MAX_DEPTH,
    ensures
        spec_value(encoding(v) + rest, MAX_DEPTH as nat) == Ok::<(Value, int), DecodeError>(
            (v, encoding(v).len() as int),
        ),
        spec_decode(encoding(v)) == Ok::<(Value, int), DecodeError>((v, encoding(v).len() as int)),
{
    lemma_value_parse(v, rest, MAX_DEPTH as nat);
    lemma_value_parse(v, Seq::empty(), MAX_DEPTH as nat);
    assert(encoding(v) + Seq::<u8>::empty() =~= encoding(v));
}

/// A value the decoder reads is well formed and takes at least one byte and
/// no more than the buffer holds; encoding it and decoding the encoding
/// gives the same value back, taking the whole encoding.
pub proof fn lemma_reencode(s: Seq<u8>)
    requires
        spec_value(s, MAX_DEPTH as nat) is Ok,
    ensures
        ({
            let (v, n) = spec_value(s, MAX_DEPTH as nat)->Ok_0;
            &&& value_wf(v)
            &&& 0 < n <= s.len()
            &&& spec_decode(encoding(v)) == Ok::<(Value, int), DecodeError>(
                (v, encoding(v).len() as int),
            )
        }),
{
    lemma_value_wf(s, MAX_DEPTH as nat);
    lemma_value_len(s, MAX_DEPTH as nat);
    let (v, n) = spec_value(s, MAX_DEPTH as nat)->Ok_0;
    lemma_decode_encoding(v, Seq::empty());
}

} // verus!
