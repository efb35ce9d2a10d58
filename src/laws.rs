//! Laws that tie the encoder to the decoder.
use vstd::arithmetic::div_mod::lemma_fundamental_div_mod;
use vstd::prelude::*;
use vstd::utf8::{encode_utf8, encode_utf8_decode_utf8, encode_utf8_valid_utf8};

use crate::decode::{consumed_as, length_as};
use crate::error::{Kind, RespError};
use crate::grammar::{
    Entries, Outcome, Value, all_digits, is_double_text, distinct, keys_distinct, crlf, crlf_from, decimal, digits_value, encode_all,
    encode_pairs, encode_value, in_i64, is_crlf_at, no_crlf, parse, parse_elements,
    parse_entries, parse_simple_string, signed_text, signed_value, text_of,
};
use crate::lemmas::{lemma_scan_none, lemma_scan_to};

verus! {

/// A value that the wire can carry: no terminator inside a line of text,
/// numbers and counts within signed 64 bits, map keys and set members each
/// present once.
pub open spec fn representable(v: Value) -> bool
    decreases v,
{
    match v {
        Value::Simple(t) => no_crlf(encode_utf8(t)),
        Value::Error(t) => no_crlf(encode_utf8(t)),
        Value::Integer(i) => in_i64(i),
        Value::Double(t) => no_crlf(encode_utf8(t)) && is_double_text(encode_utf8(t)),
        Value::Bulk(b) => b.len() <= i64::MAX,
        Value::Array(vs) => vs.len() <= i64::MAX && forall|i: int|
            0 <= i < vs.len() ==> representable(#[trigger] vs[i]),
        Value::RespSet(vs) => vs.len() <= i64::MAX && distinct(vs) && forall|i: int|
            0 <= i < vs.len() ==> representable(#[trigger] vs[i]),
        Value::RespMap(es) => es.len() <= i64::MAX && keys_distinct(es) && forall|i: int|
            0 <= i < es.len() ==> no_crlf(encode_utf8(#[trigger] es[i].0)) && representable(es[i].1),
        _ => true,
    }
}

proof fn lemma_decimal(n: nat)
    ensures
        all_digits(decimal(n)),
        digits_value(decimal(n)) == n,
    decreases n,
{
    if n < 10 {
        assert(decimal(n).drop_last() =~= Seq::<u8>::empty());
        assert(digits_value(Seq::<u8>::empty()) == 0);
    } else {
        lemma_decimal(n / 10);
        lemma_fundamental_div_mod(n as int, 10);
        let d = decimal(n);
        assert(d.drop_last() =~= decimal(n / 10));
        assert(d.last() == (48 + n % 10) as u8);
        assert forall|i: int| 0 <= i < d.len() implies 48u8 <= #[trigger] d[i] <= 57u8 by {
            if i < d.len() - 1 {
                assert(d[i] == decimal(n / 10)[i]);
            }
        }
    }
}

proof fn lemma_digits_no_crlf(b: Seq<u8>)
    requires
        forall|i: int| 0 <= i < b.len() ==> #[trigger] b[i] != 13u8,
    ensures
        no_crlf(b),
{
    assert forall|i: int| !#[trigger] is_crlf_at(b, i) by {
        if 0 <= i < b.len() {
            assert(b[i] != 13u8);
        }
    }
}

proof fn lemma_signed_text(v: int)
    ensures
        signed_value(signed_text(v)) == Some(v),
        no_crlf(signed_text(v)),
{
    let m: nat = if v < 0 {
        (-v) as nat
    } else {
        v as nat
    };
    lemma_decimal(m);
    let t = signed_text(v);
    assert(t.drop_first() =~= decimal(m));
    assert forall|i: int| 0 <= i < t.len() implies #[trigger] t[i] != 13u8 by {
        if i > 0 {
            assert(t[i] == decimal(m)[i - 1]);
        }
    }
    lemma_digits_no_crlf(t);
}

proof fn lemma_count_text(n: nat)
    ensures
        signed_value(decimal(n)) == Some(n as int),
        no_crlf(decimal(n)),
{
    lemma_decimal(n);
    let d = decimal(n);
    assert(d[0] != 43u8 && d[0] != 45u8);
    assert forall|i: int| 0 <= i < d.len() implies #[trigger] d[i] != 13u8 by {}
    lemma_digits_no_crlf(d);
}

/// A line of text after a prefix byte: where its terminator is, and that no
/// terminator starts before it.
proof fn lemma_line(p: u8, body: Seq<u8>, rest: Seq<u8>)
    requires
        p != 13u8,
        no_crlf(body),
    ensures
        ({
            let s = seq![p] + body + crlf() + rest;
            &&& forall|j: int| 0 <= j < 1 + body.len() ==> !#[trigger] is_crlf_at(s, j)
            &&& is_crlf_at(s, 1 + body.len() as int)
            &&& crlf_from(s, 0) == Some(1 + body.len() as int)
            &&& s.subrange(1, 1 + body.len() as int) == body
            &&& s.subrange(0, 1) == seq![p]
        }),
{
    let s = seq![p] + body + crlf() + rest;
    let e: int = 1 + body.len() as int;
    assert forall|j: int| 0 <= j < e implies !#[trigger] is_crlf_at(s, j) by {
        if 1 <= j < e - 1 {
            assert(!is_crlf_at(body, j - 1));
            assert(s[j] == body[j - 1] && s[j + 1] == body[j]);
        } else if j == e - 1 {
            assert(s[j + 1] == 13u8);
        }
    }
    assert(s[e] == 13u8 && s[e + 1] == 10u8);
    lemma_scan_to(s, 0, e);
    assert(s.subrange(1, e) =~= body);
    assert(s.subrange(0, 1) =~= seq![p]);
}

/// A strict prefix of a line that stops before its terminator ends holds no
/// terminator at all.
proof fn lemma_line_cut(p: u8, body: Seq<u8>, rest: Seq<u8>, m: int)
    requires
        p != 13u8,
        no_crlf(body),
        0 <= m < body.len() + 3,
    ensures
        crlf_from((seq![p] + body + crlf() + rest).subrange(0, m), 0) == None::<int>,
{
    let s = seq![p] + body + crlf() + rest;
    let q = s.subrange(0, m);
    lemma_line(p, body, rest);
    assert forall|j: int| 0 <= j implies !#[trigger] is_crlf_at(q, j) by {
        if is_crlf_at(q, j) {
            assert(is_crlf_at(s, j));
        }
    }
    lemma_scan_none(q, 0);
}

/// The round trip for one variant.
#[verifier::spinoff_prover]
proof fn lemma_round_trip_double(v: Value, rest: Seq<u8>)
    requires
        v is Double,
        representable(v),
    ensures
        parse(encode_value(v) + rest) == Outcome::Done(v, encode_value(v).len()),
    decreases v, 0nat,
{
    let s = encode_value(v) + rest;
    match v {
        Value::Double(t) => {
            let b = encode_utf8(t);
            assert(s =~= seq![44u8] + b + crlf() + rest);
            lemma_line(44u8, b, rest);
            encode_utf8_valid_utf8(t);
            encode_utf8_decode_utf8(t);
            assert(text_of(b) == t);
        },
        _ => {},
    }
}

/// The round trip for one variant.
#[verifier::spinoff_prover]
proof fn lemma_round_trip_simple(v: Value, rest: Seq<u8>)
    requires
        v is Simple,
        representable(v),
    ensures
        parse(encode_value(v) + rest) == Outcome::Done(v, encode_value(v).len()),
    decreases v, 0nat,
{
    let s = encode_value(v) + rest;
    match v {
        Value::Simple(t) => {
            let b = encode_utf8(t);
            assert(s =~= seq![43u8] + b + crlf() + rest);
            lemma_line(43u8, b, rest);
            encode_utf8_valid_utf8(t);
            encode_utf8_decode_utf8(t);
            assert(text_of(b) == t);
        },
        _ => {},
    }
}

/// The round trip for one variant.
#[verifier::spinoff_prover]
proof fn lemma_round_trip_error(v: Value, rest: Seq<u8>)
    requires
        v is Error,
        representable(v),
    ensures
        parse(encode_value(v) + rest) == Outcome::Done(v, encode_value(v).len()),
    decreases v, 0nat,
{
    let s = encode_value(v) + rest;
    match v {
        Value::Error(t) => {
            let b = encode_utf8(t);
            assert(s =~= seq![45u8] + b + crlf() + rest);
            lemma_line(45u8, b, rest);
            encode_utf8_valid_utf8(t);
            encode_utf8_decode_utf8(t);
            assert(text_of(b) == t);
        },
        _ => {},
    }
}

/// The round trip for one variant.
#[verifier::spinoff_prover]
proof fn lemma_round_trip_integer(v: Value, rest: Seq<u8>)
    requires
        v is Integer,
        representable(v),
    ensures
        parse(encode_value(v) + rest) == Outcome::Done(v, encode_value(v).len()),
    decreases v, 0nat,
{
    let s = encode_value(v) + rest;
    match v {
        Value::Integer(i) => {
            let b = signed_text(i);
            lemma_signed_text(i);
            assert(s =~= seq![58u8] + b + crlf() + rest);
            lemma_line(58u8, b, rest);
        },
        _ => {},
    }
}

/// The round trip for one variant.
#[verifier::spinoff_prover]
proof fn lemma_round_trip_bulk(v: Value, rest: Seq<u8>)
    requires
        v is Bulk,
        representable(v),
    ensures
        parse(encode_value(v) + rest) == Outcome::Done(v, encode_value(v).len()),
    decreases v, 0nat,
{
    let s = encode_value(v) + rest;
    match v {
        Value::Bulk(data) => {
            let d = decimal(data.len());
            lemma_count_text(data.len());
            let after = data + crlf() + rest;
            assert(s =~= seq![36u8] + d + crlf() + after);
            lemma_line(36u8, d, after);
            let h: int = d.len() + 3int;
            assert(s.subrange(h, h + data.len()) =~= data);
            assert(s[h + data.len()] == 13u8 && s[h + data.len() + 1] == 10u8);
        },
        _ => {},
    }
}

/// The round trip for one variant.
#[verifier::spinoff_prover]
proof fn lemma_round_trip_null_bulk(v: Value, rest: Seq<u8>)
    requires
        v is NullBulk,
        representable(v),
    ensures
        parse(encode_value(v) + rest) == Outcome::Done(v, encode_value(v).len()),
    decreases v, 0nat,
{
    let s = encode_value(v) + rest;
    match v {
        Value::NullBulk => {
            let d = seq![45u8, 49u8];
            assert(s =~= seq![36u8] + d + crlf() + rest);
            lemma_digits_no_crlf(d);
            lemma_line(36u8, d, rest);
            assert(d.drop_first() =~= seq![49u8]);
            assert(seq![49u8].drop_last() =~= Seq::<u8>::empty());
            assert(seq![49u8].last() == 49u8);
            assert(digits_value(Seq::<u8>::empty()) == 0);
            assert(digits_value(seq![49u8]) == 1);
        },
        _ => {},
    }
}

/// The round trip for one variant.
#[verifier::spinoff_prover]
proof fn lemma_round_trip_null_array(v: Value, rest: Seq<u8>)
    requires
        v is NullArray,
        representable(v),
    ensures
        parse(encode_value(v) + rest) == Outcome::Done(v, encode_value(v).len()),
    decreases v, 0nat,
{
    let s = encode_value(v) + rest;
    match v {
        Value::NullArray => {
            let d = seq![45u8, 49u8];
            assert(s =~= seq![42u8] + d + crlf() + rest);
            lemma_digits_no_crlf(d);
            lemma_line(42u8, d, rest);
            assert(d.drop_first() =~= seq![49u8]);
            assert(seq![49u8].drop_last() =~= Seq::<u8>::empty());
            assert(seq![49u8].last() == 49u8);
            assert(digits_value(Seq::<u8>::empty()) == 0);
            assert(digits_value(seq![49u8]) == 1);
        },
        _ => {},
    }
}

/// The round trip for one variant.
#[verifier::spinoff_prover]
proof fn lemma_round_trip_null(v: Value, rest: Seq<u8>)
    requires
        v is Null,
        representable(v),
    ensures
        parse(encode_value(v) + rest) == Outcome::Done(v, encode_value(v).len()),
    decreases v, 0nat,
{
    let s = encode_value(v) + rest;
    match v {
        Value::Null => {
            let d = Seq::<u8>::empty();
            assert(s =~= seq![95u8] + d + crlf() + rest);
            lemma_digits_no_crlf(d);
            lemma_line(95u8, d, rest);
        },
        _ => {},
    }
}

/// The round trip for one variant.
#[verifier::spinoff_prover]
proof fn lemma_round_trip_boolean(v: Value, rest: Seq<u8>)
    requires
        v is Boolean,
        representable(v),
    ensures
        parse(encode_value(v) + rest) == Outcome::Done(v, encode_value(v).len()),
    decreases v, 0nat,
{
    let s = encode_value(v) + rest;
    match v {
        Value::Boolean(b) => {
            assert(s.subrange(0, 4) =~= encode_value(v));
        },
        _ => {},
    }
}

/// The round trip for one variant.
#[verifier::spinoff_prover]
proof fn lemma_round_trip_array(v: Value, rest: Seq<u8>)
    requires
        v is Array,
        representable(v),
    ensures
        parse(encode_value(v) + rest) == Outcome::Done(v, encode_value(v).len()),
    decreases v, 0nat,
{
    let s = encode_value(v) + rest;
    match v {
        Value::Array(vs) => {
            let d = decimal(vs.len());
            lemma_count_text(vs.len());
            let after = encode_all(vs) + rest;
            assert(s =~= seq![42u8] + d + crlf() + after);
            lemma_line(42u8, d, after);
            let h: int = d.len() + 3int;
            assert(s.subrange(h, s.len() as int) =~= after);
            lemma_elements_round_trip(vs, rest);
        },
        _ => {},
    }
}

/// The round trip for one variant.
#[verifier::spinoff_prover]
proof fn lemma_round_trip_resp_set(v: Value, rest: Seq<u8>)
    requires
        v is RespSet,
        representable(v),
    ensures
        parse(encode_value(v) + rest) == Outcome::Done(v, encode_value(v).len()),
    decreases v, 0nat,
{
    let s = encode_value(v) + rest;
    match v {
        Value::RespSet(vs) => {
            let d = decimal(vs.len());
            lemma_count_text(vs.len());
            let after = encode_all(vs) + rest;
            assert(s =~= seq![126u8] + d + crlf() + after);
            lemma_line(126u8, d, after);
            let h: int = d.len() + 3int;
            assert(s.subrange(h, s.len() as int) =~= after);
            lemma_elements_round_trip(vs, rest);
        },
        _ => {},
    }
}

/// The round trip for one variant.
#[verifier::spinoff_prover]
proof fn lemma_round_trip_resp_map(v: Value, rest: Seq<u8>)
    requires
        v is RespMap,
        representable(v),
    ensures
        parse(encode_value(v) + rest) == Outcome::Done(v, encode_value(v).len()),
    decreases v, 0nat,
{
    let s = encode_value(v) + rest;
    match v {
        Value::RespMap(es) => {
            let d = decimal(es.len());
            lemma_count_text(es.len());
            let after = encode_pairs(es) + rest;
            assert(s =~= seq![37u8] + d + crlf() + after);
            lemma_line(37u8, d, after);
            let h: int = d.len() + 3int;
            assert(s.subrange(h, s.len() as int) =~= after);
            lemma_entries_round_trip(es, rest);
        },
        _ => {},
    }
}

/// Decoding the encoding of a representable value, followed by anything,
/// gives that value back and spans exactly its encoding.
pub proof fn lemma_round_trip(v: Value, rest: Seq<u8>)
    requires
        representable(v),
    ensures
        parse(encode_value(v) + rest) == Outcome::Done(v, encode_value(v).len()),
    decreases v, 1nat,
{
    match v {
        Value::Simple(_) => lemma_round_trip_simple(v, rest),
        Value::Error(_) => lemma_round_trip_error(v, rest),
        Value::Integer(_) => lemma_round_trip_integer(v, rest),
        Value::Bulk(_) => lemma_round_trip_bulk(v, rest),
        Value::NullBulk => lemma_round_trip_null_bulk(v, rest),
        Value::NullArray => lemma_round_trip_null_array(v, rest),
        Value::Null => lemma_round_trip_null(v, rest),
        Value::Boolean(_) => lemma_round_trip_boolean(v, rest),
        Value::Double(_) => lemma_round_trip_double(v, rest),
        Value::Array(_) => lemma_round_trip_array(v, rest),
        Value::RespSet(_) => lemma_round_trip_resp_set(v, rest),
        Value::RespMap(_) => lemma_round_trip_resp_map(v, rest),
    }
}

/// The same for a run of values.
pub proof fn lemma_elements_round_trip(vs: Seq<Value>, rest: Seq<u8>)
    requires
        forall|i: int| 0 <= i < vs.len() ==> representable(#[trigger] vs[i]),
    ensures
        parse_elements(encode_all(vs) + rest, vs.len()) == Entries::Done(vs, encode_all(vs).len()),
    decreases vs, 0nat,
{
    let s = encode_all(vs) + rest;
    if vs.len() == 0 {
        assert(vs =~= seq![]);
    } else {
        let tail = vs.subrange(1, vs.len() as int);
        let e0 = encode_value(vs[0]);
        let more = encode_all(tail) + rest;
        assert(s =~= e0 + more);
        assert(representable(vs[0]));
        lemma_round_trip(vs[0], more);
        assert(s.subrange(e0.len() as int, s.len() as int) =~= more);
        assert forall|i: int| 0 <= i < tail.len() implies representable(#[trigger] tail[i]) by {
            assert(tail[i] == vs[i + 1]);
        }
        lemma_elements_round_trip(tail, rest);
        assert(seq![vs[0]] + tail =~= vs);
    }
}

/// The same for a run of key and value pairs.
pub proof fn lemma_entries_round_trip(es: Seq<(Seq<char>, Value)>, rest: Seq<u8>)
    requires
        forall|i: int|
            0 <= i < es.len() ==> no_crlf(encode_utf8(#[trigger] es[i].0)) && representable(es[i].1),
    ensures
        parse_entries(encode_pairs(es) + rest, es.len()) == Entries::Done(es, encode_pairs(es).len()),
    decreases es, 0nat,
{
    let s = encode_pairs(es) + rest;
    if es.len() == 0 {
        assert(es =~= seq![]);
    } else {
        let tail = es.subrange(1, es.len() as int);
        let key = es[0].0;
        let kb = encode_utf8(key);
        let e1 = encode_value(es[0].1);
        let more = encode_pairs(tail) + rest;
        assert(no_crlf(kb) && representable(es[0].1));
        assert(s =~= seq![43u8] + kb + crlf() + (e1 + more));
        lemma_line(43u8, kb, e1 + more);
        encode_utf8_valid_utf8(key);
        encode_utf8_decode_utf8(key);
        assert(text_of(kb) == key);
        let k1: int = kb.len() + 3int;
        assert(parse_simple_string(s) == Outcome::Done(Value::Simple(key), k1 as nat));
        let t = s.subrange(k1 as int, s.len() as int);
        assert(t =~= e1 + more);
        lemma_round_trip(es[0].1, more);
        assert(t.subrange(e1.len() as int, t.len() as int) =~= more);
        assert forall|i: int|
            0 <= i < tail.len() implies no_crlf(encode_utf8(#[trigger] tail[i].0)) && representable(
                tail[i].1,
            ) by {
            assert(tail[i] == es[i + 1]);
            assert(tail[i].0 == es[i + 1].0);
        }
        lemma_entries_round_trip(tail, rest);
        assert(seq![(key, es[0].1)] + tail =~= es);
    }
}

/// Every strict, non-empty prefix of a one-line encoding is incomplete.
#[verifier::spinoff_prover]
proof fn lemma_cut_line(v: Value, m: int)
    requires
        representable(v),
        v is Simple || v is Error || v is Double || v is Integer || v is Null || v is NullBulk
            || v is NullArray,
        0 < m < encode_value(v).len(),
    ensures
        parse(encode_value(v).subrange(0, m)) == Outcome::Fail(Kind::NotComplete),
{
    let e = encode_value(v);
    let q = e.subrange(0, m);
    match v {
        Value::Simple(t) => {
            encode_utf8_valid_utf8(t);
            let body = encode_utf8(t);
            assert(e =~= seq![43u8] + body + crlf() + Seq::<u8>::empty());
            lemma_line_cut(43u8, body, Seq::<u8>::empty(), m);
            assert(q[0] == 43u8);
            assert(q.subrange(0, 1) =~= seq![43u8]);
        },
        Value::Double(t) => {
            let body = encode_utf8(t);
            assert(e =~= seq![44u8] + body + crlf() + Seq::<u8>::empty());
            lemma_line_cut(44u8, body, Seq::<u8>::empty(), m);
            assert(q[0] == 44u8);
            assert(q.subrange(0, 1) =~= seq![44u8]);
        },
        Value::Error(t) => {
            
            let body = encode_utf8(t);
            assert(e =~= seq![45u8] + body + crlf() + Seq::<u8>::empty());
            lemma_line_cut(45u8, body, Seq::<u8>::empty(), m);
            assert(q[0] == 45u8);
            assert(q.subrange(0, 1) =~= seq![45u8]);
        },
        Value::Integer(i) => {
            lemma_signed_text(i);
            let body = signed_text(i);
            assert(e =~= seq![58u8] + body + crlf() + Seq::<u8>::empty());
            lemma_line_cut(58u8, body, Seq::<u8>::empty(), m);
            assert(q[0] == 58u8);
            assert(q.subrange(0, 1) =~= seq![58u8]);
        },
        Value::Null => {
            lemma_digits_no_crlf(Seq::<u8>::empty());
            let body = Seq::<u8>::empty();
            assert(e =~= seq![95u8] + body + crlf() + Seq::<u8>::empty());
            lemma_line_cut(95u8, body, Seq::<u8>::empty(), m);
            assert(q[0] == 95u8);
            assert(q.subrange(0, 1) =~= seq![95u8]);
        },
        Value::NullBulk => {
            lemma_digits_no_crlf(seq![45u8, 49u8]);
            let body = seq![45u8, 49u8];
            assert(e =~= seq![36u8] + body + crlf() + Seq::<u8>::empty());
            lemma_line_cut(36u8, body, Seq::<u8>::empty(), m);
            assert(q[0] == 36u8);
            assert(q.subrange(0, 1) =~= seq![36u8]);
        },
        Value::NullArray => {
            lemma_digits_no_crlf(seq![45u8, 49u8]);
            let body = seq![45u8, 49u8];
            assert(e =~= seq![42u8] + body + crlf() + Seq::<u8>::empty());
            lemma_line_cut(42u8, body, Seq::<u8>::empty(), m);
            assert(q[0] == 42u8);
            assert(q.subrange(0, 1) =~= seq![42u8]);
        },
        _ => {},
    }
}

/// Every strict, non-empty prefix of a bulk string's encoding is incomplete.
#[verifier::spinoff_prover]
proof fn lemma_cut_bulk(data: Seq<u8>, m: int)
    requires
        representable(Value::Bulk(data)),
        0 < m < encode_value(Value::Bulk(data)).len(),
    ensures
        parse(encode_value(Value::Bulk(data)).subrange(0, m)) == Outcome::Fail(Kind::NotComplete),
{
    let e = encode_value(Value::Bulk(data));
    let q = e.subrange(0, m);
    let d = decimal(data.len());
    lemma_count_text(data.len());
    let after = data + crlf();
    assert(e =~= seq![36u8] + d + crlf() + after);
    let h: int = d.len() + 3int;
    assert(q[0] == 36u8);
    assert(q.subrange(0, 1) =~= seq![36u8]);
    if m < h {
        lemma_line_cut(36u8, d, after, m);
    } else {
        let part = after.subrange(0, m - h);
        assert(q =~= seq![36u8] + d + crlf() + part);
        lemma_line(36u8, d, part);
    }
}

/// Every strict, non-empty prefix of a container's encoding is incomplete.
#[verifier::spinoff_prover]
proof fn lemma_cut_container(v: Value, m: int)
    requires
        representable(v),
        v is Array || v is RespSet || v is RespMap,
        0 < m < encode_value(v).len(),
    ensures
        parse(encode_value(v).subrange(0, m)) == Outcome::Fail(Kind::NotComplete),
    decreases v, 0nat,
{
    let e = encode_value(v);
    let q = e.subrange(0, m);
    let (p, n, after): (u8, nat, Seq<u8>) = match v {
        Value::Array(vs) => (42u8, vs.len(), encode_all(vs)),
        Value::RespSet(vs) => (126u8, vs.len(), encode_all(vs)),
        Value::RespMap(es) => (37u8, es.len(), encode_pairs(es)),
        _ => (0u8, 0nat, Seq::<u8>::empty()),
    };
    let d = decimal(n);
    lemma_count_text(n);
    assert(e =~= seq![p] + d + crlf() + after);
    let h: int = d.len() + 3int;
    assert(q[0] == p);
    assert(q.subrange(0, 1) =~= seq![p]);
    if m < h {
        lemma_line_cut(p, d, after, m);
    } else {
        let part = after.subrange(0, m - h);
        assert(q =~= seq![p] + d + crlf() + part);
        lemma_line(p, d, part);
        assert(q.subrange(h, q.len() as int) =~= part);
        match v {
            Value::Array(vs) => lemma_elements_cut(vs, m - h),
            Value::RespSet(vs) => lemma_elements_cut(vs, m - h),
            Value::RespMap(es) => lemma_entries_cut(es, m - h),
            _ => {},
        }
    }
}

/// Every strict, non-empty prefix of the encoding of a representable value
/// decodes as `NotComplete`.
pub proof fn lemma_prefix_incomplete(v: Value, m: int)
    requires
        representable(v),
        0 < m < encode_value(v).len(),
    ensures
        parse(encode_value(v).subrange(0, m)) == Outcome::Fail(Kind::NotComplete),
    decreases v, 1nat,
{
    match v {
        Value::Bulk(data) => lemma_cut_bulk(data, m),
        Value::Boolean(_) => {},
        Value::Array(_) => lemma_cut_container(v, m),
        Value::RespSet(_) => lemma_cut_container(v, m),
        Value::RespMap(_) => lemma_cut_container(v, m),
        _ => lemma_cut_line(v, m),
    }
}

/// A strict prefix of the encoding of a run of values is incomplete.
#[verifier::spinoff_prover]
proof fn lemma_elements_cut(vs: Seq<Value>, m: int)
    requires
        forall|i: int| 0 <= i < vs.len() ==> representable(#[trigger] vs[i]),
        0 <= m < encode_all(vs).len(),
    ensures
        parse_elements(encode_all(vs).subrange(0, m), vs.len()) == Entries::<Value>::Fail(Kind::NotComplete),
    decreases vs, 0nat,
{
    let q = encode_all(vs).subrange(0, m);
    if vs.len() == 0 {
    } else {
        let tail = vs.subrange(1, vs.len() as int);
        let e0 = encode_value(vs[0]);
        assert(encode_all(vs) == e0 + encode_all(tail));
        assert(representable(vs[0]));
        if m == 0 {
            assert(q.len() == 0);
            assert(parse(q) == Outcome::Fail(Kind::NotComplete));
        } else if m < e0.len() {
            assert(q =~= e0.subrange(0, m));
            lemma_prefix_incomplete(vs[0], m);
            assert(parse(q) == Outcome::Fail(Kind::NotComplete));
        } else {
            let part = encode_all(tail).subrange(0, m - e0.len());
            assert(q =~= e0 + part);
            lemma_round_trip(vs[0], part);
            assert(q.subrange(e0.len() as int, q.len() as int) =~= part);
            assert forall|i: int| 0 <= i < tail.len() implies representable(#[trigger] tail[i]) by {
                assert(tail[i] == vs[i + 1]);
            }
            lemma_elements_cut(tail, m - e0.len());
        }
    }
}

/// A strict prefix of the encoding of key and value pairs is incomplete.
#[verifier::spinoff_prover]
proof fn lemma_entries_cut(es: Seq<(Seq<char>, Value)>, m: int)
    requires
        forall|i: int|
            0 <= i < es.len() ==> no_crlf(encode_utf8(#[trigger] es[i].0)) && representable(es[i].1),
        0 <= m < encode_pairs(es).len(),
    ensures
        parse_entries(encode_pairs(es).subrange(0, m), es.len()) == Entries::<(Seq<char>, Value)>::Fail(
            Kind::NotComplete,
        ),
    decreases es, 0nat,
{
    let q = encode_pairs(es).subrange(0, m);
    if es.len() == 0 {
    } else {
        let tail = es.subrange(1, es.len() as int);
        let key = es[0].0;
        let kb = encode_utf8(key);
        let e1 = encode_value(es[0].1);
        let more = encode_pairs(tail);
        assert(no_crlf(kb) && representable(es[0].1));
        assert(encode_pairs(es) =~= seq![43u8] + kb + crlf() + (e1 + more));
        let k1: int = kb.len() + 3int;
        if m < k1 {
            if m >= 3 {
                lemma_line_cut(43u8, kb, e1 + more, m);
                assert(q[0] == 43u8);
                assert(q.subrange(0, 1) =~= seq![43u8]);
            }
            assert(parse_simple_string(q) == Outcome::Fail(Kind::NotComplete));
        } else {
            let r = (e1 + more).subrange(0, m - k1);
            assert(q =~= seq![43u8] + kb + crlf() + r);
            lemma_line(43u8, kb, r);
            encode_utf8_valid_utf8(key);
            encode_utf8_decode_utf8(key);
            assert(text_of(kb) == key);
            assert(parse_simple_string(q) == Outcome::Done(Value::Simple(key), k1 as nat));
            let t = q.subrange(k1, q.len() as int);
            assert(t =~= r);
            let m2 = m - k1;
            if m2 == 0 {
                assert(t.len() == 0);
                assert(parse(t) == Outcome::Fail(Kind::NotComplete));
            } else if m2 < e1.len() {
                assert(t =~= e1.subrange(0, m2));
                lemma_prefix_incomplete(es[0].1, m2);
                assert(parse(t) == Outcome::Fail(Kind::NotComplete));
            } else {
                let part = more.subrange(0, m2 - e1.len());
                assert(t =~= e1 + part);
                lemma_round_trip(es[0].1, part);
                assert(t.subrange(e1.len() as int, t.len() as int) =~= part);
                assert forall|i: int|
                    0 <= i < tail.len() implies no_crlf(encode_utf8(#[trigger] tail[i].0))
                        && representable(tail[i].1) by {
                    assert(tail[i] == es[i + 1]);
                    assert(tail[i].0 == es[i + 1].0);
                }
                lemma_entries_cut(tail, m2 - e1.len());
            }
        }
    }
}

/// Decoding the encoding of a representable value gives that value back
/// and spans exactly its encoding.
pub proof fn lemma_decode_encoded(v: Value)
    requires
        representable(v),
    ensures
        parse(encode_value(v)) == Outcome::Done(v, encode_value(v).len()),
{
    lemma_round_trip(v, Seq::<u8>::empty());
    assert(encode_value(v) + Seq::<u8>::empty() =~= encode_value(v));
}

/// When a decode succeeds, the bytes it removed from the buffer are as many
/// as a length probe on the same buffer reported.
pub proof fn lemma_expect_length_agrees(
    o: Outcome,
    before: Seq<u8>,
    after: Seq<u8>,
    decoded: Result<Value, Kind>,
    probed: Result<usize, RespError>,
)
    requires
        consumed_as(before, after, o, decoded),
        length_as(o, probed),
        decoded is Ok,
    ensures
        probed == Ok::<usize, RespError>((before.len() - after.len()) as usize),
{
}

/// A decode of a buffer that holds exactly the encoding of a representable
/// value yields that value and leaves the buffer empty.
pub proof fn lemma_decode_of_encoding_consumes_all(v: Value, after: Seq<u8>, decoded: Result<Value, Kind>)
    requires
        representable(v),
        consumed_as(encode_value(v), after, parse(encode_value(v)), decoded),
    ensures
        decoded == Ok::<Value, Kind>(v),
        after.len() == 0,
{
    lemma_decode_encoded(v);
}

/// A decode of a buffer that holds a strict, non-empty prefix of the
/// encoding of a representable value reports `NotComplete` and leaves the
/// buffer as it was.
pub proof fn lemma_decode_of_prefix_waits(v: Value, m: int, after: Seq<u8>, decoded: Result<Value, Kind>)
    requires
        representable(v),
        0 < m < encode_value(v).len(),
        consumed_as(
            encode_value(v).subrange(0, m),
            after,
            parse(encode_value(v).subrange(0, m)),
            decoded,
        ),
    ensures
        decoded == Err::<Value, Kind>(Kind::NotComplete),
        after == encode_value(v).subrange(0, m),
{
    lemma_prefix_incomplete(v, m);
}

} // verus!
