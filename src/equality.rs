//! Equality of frames by the values they carry, which map keys and set
//! members must respect.
use vstd::prelude::*;
use vstd::string::*;
use vstd::utf8::encode_utf8_decode_utf8;

use crate::frame::{RespFrame, pair_values, values};
use crate::grammar::{distinct, keys_distinct};
use crate::lemmas::{lemma_pair_values_index, lemma_pair_values_len, lemma_values_index, lemma_values_len};

verus! {

/// Whether two byte slices hold the same bytes.
pub fn bytes_eq(x: &[u8], y: &[u8]) -> (r: bool)
    ensures
        r == (x@ == y@),
{
    if x.len() != y.len() {
        return false;
    }
    let mut i: usize = 0;
    while i < x.len()
        invariant
            x@.len() == y@.len(),
            i <= x@.len(),
            forall|k: int| 0 <= k < i ==> x@[k] == y@[k],
        decreases x@.len() - i,
    {
        if x[i] != y[i] {
            return false;
        }
        i = i + 1;
    }
    assert(x@ =~= y@);
    true
}

/// Whether two strings hold the same characters.
pub fn text_eq(a: &String, b: &String) -> (r: bool)
    ensures
        r == (a@ == b@),
{
    let r = bytes_eq(a.as_str().as_bytes(), b.as_str().as_bytes());
    proof {
        encode_utf8_decode_utf8(a@);
        encode_utf8_decode_utf8(b@);
    }
    r
}

/// Whether two frames carry the same value.
pub fn frame_eq(a: &RespFrame, b: &RespFrame) -> (r: bool)
    ensures
        r == (a.value() == b.value()),
    decreases a, 1nat,
{
    match (a, b) {
        (RespFrame::SimpleString(x), RespFrame::SimpleString(y)) => text_eq(&x.0, &y.0),
        (RespFrame::Error(x), RespFrame::Error(y)) => text_eq(&x.0, &y.0),
        (RespFrame::Integer(x), RespFrame::Integer(y)) => *x == *y,
        (RespFrame::BulkString(x), RespFrame::BulkString(y)) => bytes_eq(x.0.as_slice(), y.0.as_slice()),
        (RespFrame::NullBulkString(_), RespFrame::NullBulkString(_)) => true,
        (RespFrame::Array(x), RespFrame::Array(y)) => frames_eq(&x.0, &y.0),
        (RespFrame::Null(_), RespFrame::Null(_)) => true,
        (RespFrame::NullArray(_), RespFrame::NullArray(_)) => true,
        (RespFrame::Boolean(x), RespFrame::Boolean(y)) => *x == *y,
        (RespFrame::Double(x), RespFrame::Double(y)) => text_eq(&x.0, &y.0),
        (RespFrame::RespMap(x), RespFrame::RespMap(y)) => pairs_eq(&x.0, &y.0),
        (RespFrame::RespSet(x), RespFrame::RespSet(y)) => frames_eq(&x.0, &y.0),
        _ => false,
    }
}

/// Whether two runs of frames carry the same values, in the same order.
fn frames_eq(a: &Vec<RespFrame>, b: &Vec<RespFrame>) -> (r: bool)
    ensures
        r == (values(a@) == values(b@)),
    decreases a, 0nat,
{
    proof {
        lemma_values_len(a@);
        lemma_values_len(b@);
    }
    if a.len() != b.len() {
        return false;
    }
    let mut i: usize = 0;
    while i < a.len()
        invariant
            a@.len() == b@.len(),
            i <= a@.len(),
            forall|k: int| 0 <= k < i ==> #[trigger] a@[k].value() == b@[k].value(),
        decreases a@.len() - i,
    {
        if !frame_eq(&a[i], &b[i]) {
            proof {
                lemma_values_index(a@, i as int);
                lemma_values_index(b@, i as int);
            }
            return false;
        }
        i = i + 1;
    }
    assert(values(a@) =~= values(b@)) by {
        assert forall|k: int| 0 <= k < a@.len() implies values(a@)[k] == values(b@)[k] by {
            lemma_values_index(a@, k);
            lemma_values_index(b@, k);
        }
    }
    true
}

/// Whether two runs of key and frame pairs carry the same entries, in the
/// same order.
fn pairs_eq(a: &Vec<(String, RespFrame)>, b: &Vec<(String, RespFrame)>) -> (r: bool)
    ensures
        r == (pair_values(a@) == pair_values(b@)),
    decreases a, 0nat,
{
    proof {
        lemma_pair_values_len(a@);
        lemma_pair_values_len(b@);
    }
    if a.len() != b.len() {
        return false;
    }
    let mut i: usize = 0;
    while i < a.len()
        invariant
            a@.len() == b@.len(),
            i <= a@.len(),
            forall|k: int| 0 <= k < i ==> (#[trigger] a@[k]).0@ == b@[k].0@,
            forall|k: int| 0 <= k < i ==> (#[trigger] a@[k]).1.value() == b@[k].1.value(),
        decreases a@.len() - i,
    {
        if !text_eq(&a[i].0, &b[i].0) || !frame_eq(&a[i].1, &b[i].1) {
            proof {
                lemma_pair_values_index(a@, i as int);
                lemma_pair_values_index(b@, i as int);
            }
            return false;
        }
        assert(a@[i as int].0@ == b@[i as int].0@);
        i = i + 1;
    }
    assert(pair_values(a@) =~= pair_values(b@)) by {
        assert forall|k: int| 0 <= k < a@.len() implies pair_values(a@)[k] == pair_values(b@)[k] by {
            lemma_pair_values_index(a@, k);
            lemma_pair_values_index(b@, k);
        }
    }
    true
}

/// Whether no two members carry the same value.
pub fn members_distinct(items: &Vec<RespFrame>) -> (r: bool)
    ensures
        r == distinct(values(items@)),
{
    proof {
        lemma_values_len(items@);
    }
    let n = items.len();
    let mut i: usize = 0;
    while i < n
        invariant
            n == items@.len(),
            i <= n,
            forall|p: int, q: int| 0 <= p < i && p < q < n ==> items@[p].value() != items@[q].value(),
        decreases n - i,
    {
        let mut j: usize = i + 1;
        while j < n
            invariant
                n == items@.len(),
                i < n,
                i + 1 <= j <= n,
                forall|p: int, q: int| 0 <= p < i && p < q < n ==> items@[p].value() != items@[q].value(),
                forall|q: int| i < q < j ==> items@[i as int].value() != items@[q].value(),
            decreases n - j,
        {
            if frame_eq(&items[i], &items[j]) {
                proof {
                    lemma_values_index(items@, i as int);
                    lemma_values_index(items@, j as int);
                }
                return false;
            }
            j = j + 1;
        }
        i = i + 1;
    }
    assert forall|p: int, q: int| 0 <= p < q < values(items@).len() implies values(items@)[p] != values(
        items@,
    )[q] by {
        lemma_values_index(items@, p);
        lemma_values_index(items@, q);
    }
    true
}

/// Whether no two entries share a key.
pub fn keys_unique(items: &Vec<(String, RespFrame)>) -> (r: bool)
    ensures
        r == keys_distinct(pair_values(items@)),
{
    proof {
        lemma_pair_values_len(items@);
    }
    let n = items.len();
    let mut i: usize = 0;
    while i < n
        invariant
            n == items@.len(),
            i <= n,
            forall|p: int, q: int| 0 <= p < i && p < q < n ==> items@[p].0@ != items@[q].0@,
        decreases n - i,
    {
        let mut j: usize = i + 1;
        while j < n
            invariant
                n == items@.len(),
                i < n,
                i + 1 <= j <= n,
                forall|p: int, q: int| 0 <= p < i && p < q < n ==> items@[p].0@ != items@[q].0@,
                forall|q: int| i < q < j ==> items@[i as int].0@ != items@[q].0@,
            decreases n - j,
        {
            if text_eq(&items[i].0, &items[j].0) {
                proof {
                    lemma_pair_values_index(items@, i as int);
                    lemma_pair_values_index(items@, j as int);
                }
                return false;
            }
            j = j + 1;
        }
        i = i + 1;
    }
    assert forall|p: int, q: int| 0 <= p < q < pair_values(items@).len() implies pair_values(
        items@,
    )[p].0 != pair_values(items@)[q].0 by {
        lemma_pair_values_index(items@, p);
        lemma_pair_values_index(items@, q);
    }
    true
}

} // verus!
