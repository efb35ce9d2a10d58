//! Encoding: each frame type to the exact bytes of its wire form.
use vstd::prelude::*;
use vstd::string::*;
use vstd::utf8::encode_utf8;

use crate::frame::{
    Array, BulkString, DoubleText, Null, NullArray, NullBulkString, RespFrame, RespMap, RespSet, SimpleError,
    SimpleString, pair_values, values,
};
use crate::grammar::{Value, crlf, decimal, encode_all, encode_pairs, encode_value};
use crate::lemmas::{
    lemma_encode_all_push, lemma_encode_pairs_push, lemma_pair_values_len, lemma_values_len,
};

verus! {

/// A type that can be written as wire bytes; encoding never fails.
pub trait RespEncode: Sized {
    /// The bytes that encoding produces.
    spec fn encoding(&self) -> Seq<u8>;

    fn encode(self) -> (r: Vec<u8>)
        ensures
            r@ == self.encoding(),
    ;
}

/// Appends the decimal digits of `n`.
pub fn push_decimal(out: &mut Vec<u8>, n: u64)
    ensures
        final(out)@ == old(out)@ + decimal(n as nat),
    decreases n,
{
    if n < 10 {
        out.push(48u8 + n as u8);
        assert(final(out)@ =~= old(out)@ + decimal(n as nat)) by {}
    } else {
        push_decimal(out, n / 10);
        out.push(48u8 + (n % 10) as u8);
        assert(out@ =~= old(out)@ + decimal(n as nat));
    }
}

/// Appends a header line: the prefix byte, a count and the terminator.
fn push_header(out: &mut Vec<u8>, prefix: u8, n: usize)
    ensures
        final(out)@ == old(out)@ + seq![prefix] + decimal(n as nat) + crlf(),
{
    out.push(prefix);
    push_decimal(out, n as u64);
    out.push(13u8);
    out.push(10u8);
    assert(out@ =~= old(out)@ + seq![prefix] + decimal(n as nat) + crlf());
}

/// Appends a terminator-delimited line of text after a prefix byte.
fn push_text_line(out: &mut Vec<u8>, prefix: u8, text: &String)
    ensures
        final(out)@ == old(out)@ + seq![prefix] + encode_utf8(text@) + crlf(),
{
    out.push(prefix);
    out.extend_from_slice(text.as_str().as_bytes());
    out.push(13u8);
    out.push(10u8);
    assert(out@ =~= old(out)@ + seq![prefix] + encode_utf8(text@) + crlf());
}

/// Appends the encoding of a frame.
pub fn encode_into(f: &RespFrame, out: &mut Vec<u8>)
    ensures
        final(out)@ == old(out)@ + encode_value(f.value()),
    decreases f,
{
    match f {
        RespFrame::SimpleString(s) => push_text_line(out, 43u8, &s.0),
        RespFrame::Error(e) => push_text_line(out, 45u8, &e.0),
        RespFrame::Double(d) => push_text_line(out, 44u8, &d.0),
        RespFrame::Integer(i) => {
            out.push(58u8);
            let v = *i;
            if v < 0 {
                out.push(45u8);
                let m: u64 = if v == i64::MIN {
                    9223372036854775808u64
                } else {
                    (-v) as u64
                };
                push_decimal(out, m);
            } else {
                out.push(43u8);
                push_decimal(out, v as u64);
            }
            out.push(13u8);
            out.push(10u8);
            assert(out@ =~= old(out)@ + encode_value(f.value()));
        },
        RespFrame::BulkString(b) => {
            push_header(out, 36u8, b.0.len());
            out.extend_from_slice(b.0.as_slice());
            out.push(13u8);
            out.push(10u8);
            assert(out@ =~= old(out)@ + encode_value(f.value()));
        },
        RespFrame::NullBulkString(_) => {
            out.push(36u8);
            out.push(45u8);
            out.push(49u8);
            out.push(13u8);
            out.push(10u8);
            assert(out@ =~= old(out)@ + encode_value(f.value()));
        },
        RespFrame::Null(_) => {
            out.push(95u8);
            out.push(13u8);
            out.push(10u8);
            assert(out@ =~= old(out)@ + encode_value(f.value()));
        },
        RespFrame::NullArray(_) => {
            out.push(42u8);
            out.push(45u8);
            out.push(49u8);
            out.push(13u8);
            out.push(10u8);
            assert(out@ =~= old(out)@ + encode_value(f.value()));
        },
        RespFrame::Boolean(b) => {
            out.push(35u8);
            out.push(if *b { 116u8 } else { 102u8 });
            out.push(13u8);
            out.push(10u8);
            assert(out@ =~= old(out)@ + encode_value(f.value()));
        },
        RespFrame::Array(a) => {
            push_header(out, 42u8, a.0.len());
            push_all(&a.0, out);
            proof {
                lemma_values_len(a.0@);
            }
            assert(out@ =~= old(out)@ + encode_value(f.value()));
        },
        RespFrame::RespSet(a) => {
            push_header(out, 126u8, a.0.len());
            push_all(&a.0, out);
            proof {
                lemma_values_len(a.0@);
            }
            assert(out@ =~= old(out)@ + encode_value(f.value()));
        },
        RespFrame::RespMap(m) => {
            push_header(out, 37u8, m.0.len());
            push_pairs(&m.0, out);
            proof {
                lemma_pair_values_len(m.0@);
            }
            assert(out@ =~= old(out)@ + encode_value(f.value()));
        },
    }
}

/// Appends the encodings of a run of frames, first to last.
fn push_all(items: &Vec<RespFrame>, out: &mut Vec<u8>)
    ensures
        final(out)@ == old(out)@ + encode_all(values(items@)),
    decreases items, 0nat,
{
    let mut i: usize = 0;
    assert(items@.subrange(0, 0) =~= Seq::<RespFrame>::empty());
    assert(out@ =~= old(out)@ + encode_all(values(items@.subrange(0, 0))));
    while i < items.len()
        invariant
            i <= items@.len(),
            out@ == old(out)@ + encode_all(values(items@.subrange(0, i as int))),
        decreases items@.len() - i,
    {
        let ghost before = out@;
        encode_into(&items[i], out);
        proof {
            let prev = items@.subrange(0, i as int);
            let next = items@.subrange(0, i + 1);
            assert(next.subrange(0, next.len() - 1) =~= prev);
            assert(values(next) == values(prev).push(items@[i as int].value()));
            lemma_encode_all_push(values(prev), items@[i as int].value());
        }
        i = i + 1;
        assert(out@ =~= old(out)@ + encode_all(values(items@.subrange(0, i as int))));
    }
    assert(items@.subrange(0, items@.len() as int) =~= items@);
}

/// Appends the encodings of key and value pairs, first to last.
fn push_pairs(items: &Vec<(String, RespFrame)>, out: &mut Vec<u8>)
    ensures
        final(out)@ == old(out)@ + encode_pairs(pair_values(items@)),
    decreases items, 0nat,
{
    let mut i: usize = 0;
    assert(items@.subrange(0, 0) =~= Seq::<(String, RespFrame)>::empty());
    assert(out@ =~= old(out)@ + encode_pairs(pair_values(items@.subrange(0, 0))));
    while i < items.len()
        invariant
            i <= items@.len(),
            out@ == old(out)@ + encode_pairs(pair_values(items@.subrange(0, i as int))),
        decreases items@.len() - i,
    {
        let (key, value) = &items[i];
        push_text_line(out, 43u8, key);
        encode_into(value, out);
        proof {
            let prev = items@.subrange(0, i as int);
            let next = items@.subrange(0, i + 1);
            let e = (items@[i as int].0@, items@[i as int].1.value());
            assert(next.subrange(0, next.len() - 1) =~= prev);
            assert(pair_values(next) == pair_values(prev).push(e));
            lemma_encode_pairs_push(pair_values(prev), e);
            assert(seq![e].subrange(1, 1) =~= Seq::<(Seq<char>, Value)>::empty());
            assert(encode_pairs(Seq::<(Seq<char>, Value)>::empty()) == Seq::<u8>::empty());
            assert(encode_pairs(seq![e]) =~= seq![43u8] + encode_utf8(e.0) + crlf() + encode_value(e.1));
        }
        i = i + 1;
        assert(out@ =~= old(out)@ + encode_pairs(pair_values(items@.subrange(0, i as int))));
    }
    assert(items@.subrange(0, items@.len() as int) =~= items@);
}

/// The encoding of a frame, as a fresh vector.
fn frame_bytes(f: RespFrame) -> (r: Vec<u8>)
    ensures
        r@ == encode_value(f.value()),
{
    let mut out: Vec<u8> = Vec::new();
    encode_into(&f, &mut out);
    assert(out@ =~= encode_value(f.value()));
    out
}

impl RespEncode for RespFrame {
    open spec fn encoding(&self) -> Seq<u8> {
        encode_value(self.value())
    }

    fn encode(self) -> (r: Vec<u8>) {
        frame_bytes(self)
    }
}

impl RespEncode for i64 {
    open spec fn encoding(&self) -> Seq<u8> {
        encode_value(Value::Integer(*self as int))
    }

    fn encode(self) -> (r: Vec<u8>) {
        frame_bytes(RespFrame::Integer(self))
    }
}

impl RespEncode for bool {
    open spec fn encoding(&self) -> Seq<u8> {
        encode_value(Value::Boolean(*self))
    }

    fn encode(self) -> (r: Vec<u8>) {
        frame_bytes(RespFrame::Boolean(self))
    }
}

impl RespEncode for SimpleString {
    open spec fn encoding(&self) -> Seq<u8> {
        encode_value(Value::Simple(self.0@))
    }

    fn encode(self) -> (r: Vec<u8>) {
        frame_bytes(RespFrame::SimpleString(self))
    }
}

impl RespEncode for SimpleError {
    open spec fn encoding(&self) -> Seq<u8> {
        encode_value(Value::Error(self.0@))
    }

    fn encode(self) -> (r: Vec<u8>) {
        frame_bytes(RespFrame::Error(self))
    }
}

impl RespEncode for BulkString {
    open spec fn encoding(&self) -> Seq<u8> {
        encode_value(Value::Bulk(self.0@))
    }

    fn encode(self) -> (r: Vec<u8>) {
        frame_bytes(RespFrame::BulkString(self))
    }
}

impl RespEncode for NullBulkString {
    open spec fn encoding(&self) -> Seq<u8> {
        encode_value(Value::NullBulk)
    }

    fn encode(self) -> (r: Vec<u8>) {
        frame_bytes(RespFrame::NullBulkString(self))
    }
}

impl RespEncode for Null {
    open spec fn encoding(&self) -> Seq<u8> {
        encode_value(Value::Null)
    }

    fn encode(self) -> (r: Vec<u8>) {
        frame_bytes(RespFrame::Null(self))
    }
}

impl RespEncode for NullArray {
    open spec fn encoding(&self) -> Seq<u8> {
        encode_value(Value::NullArray)
    }

    fn encode(self) -> (r: Vec<u8>) {
        frame_bytes(RespFrame::NullArray(self))
    }
}

impl RespEncode for Array {
    open spec fn encoding(&self) -> Seq<u8> {
        encode_value(Value::Array(values(self.0@)))
    }

    fn encode(self) -> (r: Vec<u8>) {
        frame_bytes(RespFrame::Array(self))
    }
}

impl RespEncode for RespMap {
    open spec fn encoding(&self) -> Seq<u8> {
        encode_value(Value::RespMap(pair_values(self.0@)))
    }

    fn encode(self) -> (r: Vec<u8>) {
        frame_bytes(RespFrame::RespMap(self))
    }
}

impl RespEncode for RespSet {
    open spec fn encoding(&self) -> Seq<u8> {
        encode_value(Value::RespSet(values(self.0@)))
    }

    fn encode(self) -> (r: Vec<u8>) {
        frame_bytes(RespFrame::RespSet(self))
    }
}

impl RespEncode for DoubleText {
    open spec fn encoding(&self) -> Seq<u8> {
        encode_value(Value::Double(self.0@))
    }

    fn encode(self) -> (r: Vec<u8>) {
        frame_bytes(RespFrame::Double(self))
    }
}

} // verus!
