//! Facts about the grammar's scanning functions.
use vstd::prelude::*;

use crate::frame::{RespFrame, pair_values, values};
use crate::grammar::{Value, crlf_from, crlfs_before, encode_all, encode_pairs, encode_value, is_crlf_at};

verus! {

/// Where no terminator starts in `[k, i)` and one starts at `i`, the scan
/// from `k` stops at `i`.
pub proof fn lemma_scan_to(s: Seq<u8>, k: int, i: int)
    requires
        0 <= k <= i,
        is_crlf_at(s, i),
        forall|j: int| k <= j < i ==> !#[trigger] is_crlf_at(s, j),
    ensures
        crlf_from(s, k) == Some(i),
    decreases i - k,
{
    if k < i {
        lemma_scan_to(s, k + 1, i);
    }
}

/// Where no terminator starts at or after `k`, the scan from `k` finds none.
pub proof fn lemma_scan_none(s: Seq<u8>, k: int)
    requires
        0 <= k,
        forall|j: int| k <= j ==> !#[trigger] is_crlf_at(s, j),
    ensures
        crlf_from(s, k) == None::<int>,
    decreases s.len() - k,
{
    if k + 1 < s.len() {
        lemma_scan_none(s, k + 1);
    }
}

/// No terminator starts before `i` when none is counted there.
pub proof fn lemma_count_zero(s: Seq<u8>, i: int)
    requires
        crlfs_before(s, i) == 0,
    ensures
        forall|j: int| 0 <= j < i ==> !#[trigger] is_crlf_at(s, j),
    decreases i,
{
    if i > 0 {
        lemma_count_zero(s, i - 1);
    }
}

pub proof fn lemma_first_crlf(s: Seq<u8>, i: int)
    requires
        0 <= i,
        is_crlf_at(s, i),
        crlfs_before(s, i) == 0,
    ensures
        crlf_from(s, 0) == Some(i),
{
    lemma_count_zero(s, i);
    lemma_scan_to(s, 0, i);
}

pub proof fn lemma_no_crlf(s: Seq<u8>)
    requires
        crlfs_before(s, s.len() as int) < 1,
    ensures
        crlf_from(s, 0) == None::<int>,
{
    lemma_count_zero(s, s.len() as int);
    assert forall|j: int| 0 <= j implies !#[trigger] is_crlf_at(s, j) by {}
    lemma_scan_none(s, 0);
}

pub proof fn lemma_values_len(s: Seq<RespFrame>)
    ensures
        values(s).len() == s.len(),
    decreases s.len(),
{
    if s.len() > 0 {
        lemma_values_len(s.subrange(0, s.len() - 1));
    }
}

pub proof fn lemma_pair_values_len(s: Seq<(String, RespFrame)>)
    ensures
        pair_values(s).len() == s.len(),
    decreases s.len(),
{
    if s.len() > 0 {
        lemma_pair_values_len(s.subrange(0, s.len() - 1));
    }
}

/// Encoding a run of values one more at the end appends that value's bytes.
pub proof fn lemma_encode_all_push(vs: Seq<Value>, v: Value)
    ensures
        encode_all(vs.push(v)) == encode_all(vs) + encode_value(v),
    decreases vs.len(),
{
    if vs.len() == 0 {
        let w = vs.push(v);
        assert(w[0] == v);
        assert(w.subrange(1, 1) =~= Seq::<Value>::empty());
        assert(encode_all(w.subrange(1, 1)) == Seq::<u8>::empty());
        assert(encode_all(w) == encode_value(v) + encode_all(w.subrange(1, 1)));
        assert(encode_all(vs) == Seq::<u8>::empty());
        assert(encode_all(vs.push(v)) =~= encode_all(vs) + encode_value(v));
    } else {
        let tail = vs.subrange(1, vs.len() as int);
        lemma_encode_all_push(tail, v);
        assert(vs.push(v).subrange(1, vs.len() + 1 as int) =~= tail.push(v));
        assert(encode_all(vs.push(v)) =~= encode_all(vs) + encode_value(v));
    }
}

/// The same, for key and value pairs.
pub proof fn lemma_encode_pairs_push(es: Seq<(Seq<char>, Value)>, e: (Seq<char>, Value))
    ensures
        encode_pairs(es.push(e)) == encode_pairs(es) + encode_pairs(seq![e]),
    decreases es.len(),
{
    assert(seq![e].subrange(1, 1) =~= Seq::<(Seq<char>, Value)>::empty());
    if es.len() == 0 {
        assert(es.push(e) =~= seq![e]);
        assert(encode_pairs(es.push(e)) =~= encode_pairs(es) + encode_pairs(seq![e]));
    } else {
        let tail = es.subrange(1, es.len() as int);
        lemma_encode_pairs_push(tail, e);
        assert(es.push(e).subrange(1, es.len() + 1 as int) =~= tail.push(e));
        assert(encode_pairs(es.push(e)) =~= encode_pairs(es) + encode_pairs(seq![e]));
    }
}

pub proof fn lemma_values_index(s: Seq<RespFrame>, i: int)
    requires
        0 <= i < s.len(),
    ensures
        values(s).len() == s.len(),
        values(s)[i] == s[i].value(),
    decreases s.len(),
{
    lemma_values_len(s);
    if i < s.len() - 1 {
        lemma_values_index(s.subrange(0, s.len() - 1), i);
    }
}

pub proof fn lemma_pair_values_index(s: Seq<(String, RespFrame)>, i: int)
    requires
        0 <= i < s.len(),
    ensures
        pair_values(s).len() == s.len(),
        pair_values(s)[i] == (s[i].0@, s[i].1.value()),
    decreases s.len(),
{
    lemma_pair_values_len(s);
    if i < s.len() - 1 {
        lemma_pair_values_index(s.subrange(0, s.len() - 1), i);
    }
}

} // verus!
