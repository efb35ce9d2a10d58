//! The wire grammar as spec functions over byte sequences: what a buffer
//! decodes to, and what bytes a value encodes to.
use vstd::prelude::*;
use vstd::utf8::*;

use crate::error::Kind;

verus! {

/// The mathematical value carried by a frame.
pub enum Value {
    Simple(Seq<char>),
    Error(Seq<char>),
    Integer(int),
    Bulk(Seq<u8>),
    NullBulk,
    Array(Seq<Value>),
    Null,
    NullArray,
    Boolean(bool),
    Double(Seq<char>),
    RespMap(Seq<(Seq<char>, Value)>),
    RespSet(Seq<Value>),
}

/// What decoding a buffer yields: a value and the number of bytes it spans,
/// or the kind of failure.
pub enum Outcome {
    Done(Value, nat),
    Fail(Kind),
}

/// What decoding a run of container entries yields.
pub enum Entries<T> {
    Done(Seq<T>, nat),
    Fail(Kind),
}

pub open spec fn crlf() -> Seq<u8> {
    seq![13u8, 10u8]
}

pub open spec fn is_crlf_at(s: Seq<u8>, i: int) -> bool {
    0 <= i && i + 1 < s.len() && s[i] == 13u8 && s[i + 1] == 10u8
}

/// Position of the first terminator at or after `from`.
pub open spec fn crlf_from(s: Seq<u8>, from: int) -> Option<int>
    decreases s.len() - from,
{
    if from < 0 || from + 1 >= s.len() {
        None
    } else if is_crlf_at(s, from) {
        Some(from)
    } else {
        crlf_from(s, from + 1)
    }
}

/// Number of terminators that start before position `k`.
pub open spec fn crlfs_before(s: Seq<u8>, k: int) -> nat
    decreases k,
{
    if k <= 0 {
        0
    } else {
        crlfs_before(s, k - 1) + if is_crlf_at(s, k - 1) {
            1nat
        } else {
            0nat
        }
    }
}

pub open spec fn no_crlf(s: Seq<u8>) -> bool {
    forall|i: int| !#[trigger] is_crlf_at(s, i)
}

pub open spec fn is_digit(b: u8) -> bool {
    48u8 <= b <= 57u8
}

pub open spec fn all_digits(s: Seq<u8>) -> bool {
    s.len() > 0 && forall|i: int| 0 <= i < s.len() ==> is_digit(#[trigger] s[i])
}

/// The number that a run of decimal digits denotes.
pub open spec fn digits_value(s: Seq<u8>) -> nat
    decreases s.len(),
{
    if s.len() == 0 {
        0
    } else {
        10 * digits_value(s.drop_last()) + (s.last() - 48) as nat
    }
}

/// Decimal text of a number, most significant digit first, no sign.
pub open spec fn decimal(n: nat) -> Seq<u8>
    decreases n,
{
    if n < 10 {
        seq![(48 + n) as u8]
    } else {
        decimal(n / 10) + seq![(48 + n % 10) as u8]
    }
}

/// Optional sign followed by decimal digits.
pub open spec fn signed_value(s: Seq<u8>) -> Option<int> {
    if s.len() > 0 && (s[0] == 43u8 || s[0] == 45u8) {
        let rest = s.drop_first();
        if all_digits(rest) {
            if s[0] == 45u8 {
                Some(-digits_value(rest))
            } else {
                Some(digits_value(rest) as int)
            }
        } else {
            None
        }
    } else if all_digits(s) {
        Some(digits_value(s) as int)
    } else {
        None
    }
}

pub open spec fn in_i64(v: int) -> bool {
    i64::MIN <= v <= i64::MAX
}

/// Text of a terminator-delimited payload: the characters when the bytes
/// are UTF-8, else what lossy conversion makes of them.
pub open spec fn text_of(b: Seq<u8>) -> Seq<char> {
    if valid_utf8(b) {
        decode_utf8(b)
    } else {
        lossy_text(b)
    }
}

/// What lossy UTF-8 conversion makes of a byte sequence.
pub uninterp spec fn lossy_text(b: Seq<u8>) -> Seq<char>;

/// The line that follows a one-byte prefix: the offset where the terminator
/// starts. Fails with `NotComplete` while it is not all there.
pub open spec fn line_end(s: Seq<u8>) -> Result<int, Kind> {
    match crlf_from(s, 0) {
        Some(e) => Ok(e),
        None => Err(Kind::NotComplete),
    }
}

/// A terminator-delimited frame that must begin with `prefix`: the offset
/// where its terminator starts.
pub open spec fn line_after(s: Seq<u8>, prefix: Seq<u8>) -> Result<int, Kind> {
    if s.len() < 3 {
        Err(Kind::NotComplete)
    } else if !(prefix.len() <= s.len() && s.subrange(0, prefix.len() as int) == prefix) {
        Err(Kind::InvalidFrameType)
    } else {
        line_end(s)
    }
}

/// A terminator-delimited frame whose first byte must be `prefix`.
pub open spec fn simple_line(s: Seq<u8>, prefix: u8) -> Result<int, Kind> {
    line_after(s, seq![prefix])
}

pub open spec fn parse_simple_string(s: Seq<u8>) -> Outcome {
    match simple_line(s, 43u8) {
        Ok(e) => Outcome::Done(Value::Simple(text_of(s.subrange(1, e))), (e + 2) as nat),
        Err(k) => Outcome::Fail(k),
    }
}

pub open spec fn parse_simple_error(s: Seq<u8>) -> Outcome {
    match simple_line(s, 45u8) {
        Ok(e) => Outcome::Done(Value::Error(text_of(s.subrange(1, e))), (e + 2) as nat),
        Err(k) => Outcome::Fail(k),
    }
}

pub open spec fn parse_integer(s: Seq<u8>) -> Outcome {
    match simple_line(s, 58u8) {
        Ok(e) => match signed_value(s.subrange(1, e)) {
            Some(v) => if in_i64(v) {
                Outcome::Done(Value::Integer(v), (e + 2) as nat)
            } else {
                Outcome::Fail(Kind::InvalidFrame)
            },
            None => Outcome::Fail(Kind::InvalidFrame),
        },
        Err(k) => Outcome::Fail(k),
    }
}

pub open spec fn true_token() -> Seq<u8> {
    seq![35u8, 116u8, 13u8, 10u8]
}

pub open spec fn false_token() -> Seq<u8> {
    seq![35u8, 102u8, 13u8, 10u8]
}

pub open spec fn parse_boolean(s: Seq<u8>) -> Outcome {
    if s.len() < 4 {
        Outcome::Fail(Kind::NotComplete)
    } else if s.subrange(0, 4) == true_token() {
        Outcome::Done(Value::Boolean(true), 4)
    } else if s.subrange(0, 4) == false_token() {
        Outcome::Done(Value::Boolean(false), 4)
    } else {
        Outcome::Fail(Kind::InvalidFrameType)
    }
}

/// How many decimal digits start at `i`.
pub open spec fn digit_run(b: Seq<u8>, i: int) -> nat
    decreases b.len() - i,
{
    if 0 <= i < b.len() && is_digit(b[i]) {
        1 + digit_run(b, i + 1)
    } else {
        0
    }
}

/// Where an optional sign that may stand at `i` ends.
pub open spec fn after_sign(b: Seq<u8>, i: int) -> int {
    if 0 <= i < b.len() && (b[i] == 43u8 || b[i] == 45u8) {
        i + 1
    } else {
        i
    }
}

/// From `i` to the end: `e` or `E`, an optional sign, and digits.
pub open spec fn exponent_from(b: Seq<u8>, i: int) -> bool {
    0 <= i < b.len() && (b[i] == 101u8 || b[i] == 69u8) && {
        let j = after_sign(b, i + 1);
        digit_run(b, j) > 0 && j + digit_run(b, j) == b.len()
    }
}

/// From `i` to the end: digits, optionally a point and digits, optionally
/// an exponent.
pub open spec fn decimal_from(b: Seq<u8>, i: int) -> bool {
    let j = i + digit_run(b, i);
    digit_run(b, i) > 0 && if j < b.len() && b[j] == 46u8 {
        let k = j + 1 + digit_run(b, j + 1);
        digit_run(b, j + 1) > 0 && (k == b.len() || exponent_from(b, k))
    } else {
        j == b.len() || exponent_from(b, j)
    }
}

/// The text of a double: an optional sign, then decimal or scientific
/// notation, or `inf`, `nan` or `NaN`.
pub open spec fn is_double_text(b: Seq<u8>) -> bool {
    let i = after_sign(b, 0);
    let rest = b.subrange(i, b.len() as int);
    rest == seq![105u8, 110u8, 102u8] || rest == seq![110u8, 97u8, 110u8] || rest == seq![
        78u8,
        97u8,
        78u8,
    ] || decimal_from(b, i)
}

pub open spec fn parse_double(s: Seq<u8>) -> Outcome {
    match simple_line(s, 44u8) {
        Ok(e) => if is_double_text(s.subrange(1, e)) {
            Outcome::Done(Value::Double(text_of(s.subrange(1, e))), (e + 2) as nat)
        } else {
            Outcome::Fail(Kind::InvalidFrame)
        },
        Err(k) => Outcome::Fail(k),
    }
}

pub open spec fn parse_null(s: Seq<u8>) -> Outcome {
    match simple_line(s, 95u8) {
        Ok(e) => if e == 1 {
            Outcome::Done(Value::Null, 3)
        } else {
            Outcome::Fail(Kind::InvalidFrame)
        },
        Err(k) => Outcome::Fail(k),
    }
}

/// The count or length that a header line declares, and the offset where
/// what follows the header begins.
pub open spec fn header(s: Seq<u8>, prefix: u8) -> Result<(int, int), Kind> {
    match simple_line(s, prefix) {
        Ok(e) => match signed_value(s.subrange(1, e)) {
            Some(v) => if in_i64(v) {
                Ok((v, e + 2))
            } else {
                Err(Kind::InvalidFrameLength)
            },
            None => Err(Kind::InvalidFrameLength),
        },
        Err(k) => Err(k),
    }
}

pub open spec fn parse_bulk_string(s: Seq<u8>) -> Outcome {
    match header(s, 36u8) {
        Ok((n, h)) => if n == -1 {
            Outcome::Done(Value::NullBulk, h as nat)
        } else if n < 0 {
            Outcome::Fail(Kind::InvalidFrameLength)
        } else if s.len() < h + n + 2 {
            Outcome::Fail(Kind::NotComplete)
        } else if !is_crlf_at(s, h + n) {
            Outcome::Fail(Kind::InvalidFrame)
        } else {
            Outcome::Done(Value::Bulk(s.subrange(h, h + n)), (h + n + 2) as nat)
        },
        Err(k) => Outcome::Fail(k),
    }
}

pub open spec fn parse_array(s: Seq<u8>) -> Outcome
    decreases s.len(), 0nat, 0nat,
{
    match header(s, 42u8) {
        Ok((n, h)) => if n == -1 {
            Outcome::Done(Value::NullArray, h as nat)
        } else if n < 0 {
            Outcome::Fail(Kind::InvalidFrameLength)
        } else if 0 < h <= s.len() {
            match parse_elements(s.subrange(h, s.len() as int), n as nat) {
                Entries::Done(vs, m) => Outcome::Done(Value::Array(vs), (h + m) as nat),
                Entries::Fail(k) => Outcome::Fail(k),
            }
        } else {
            Outcome::Fail(Kind::InvalidFrame)
        },
        Err(k) => Outcome::Fail(k),
    }
}

pub open spec fn parse_set(s: Seq<u8>) -> Outcome
    decreases s.len(), 0nat, 0nat,
{
    match header(s, 126u8) {
        Ok((n, h)) => if n < 0 {
            Outcome::Fail(Kind::InvalidFrameLength)
        } else if 0 < h <= s.len() {
            match parse_elements(s.subrange(h, s.len() as int), n as nat) {
                Entries::Done(vs, m) => if distinct(vs) {
                    Outcome::Done(Value::RespSet(vs), (h + m) as nat)
                } else {
                    Outcome::Fail(Kind::InvalidFrame)
                },
                Entries::Fail(k) => Outcome::Fail(k),
            }
        } else {
            Outcome::Fail(Kind::InvalidFrame)
        },
        Err(k) => Outcome::Fail(k),
    }
}

pub open spec fn parse_map(s: Seq<u8>) -> Outcome
    decreases s.len(), 0nat, 0nat,
{
    match header(s, 37u8) {
        Ok((n, h)) => if n < 0 {
            Outcome::Fail(Kind::InvalidFrameLength)
        } else if 0 < h <= s.len() {
            match parse_entries(s.subrange(h, s.len() as int), n as nat) {
                Entries::Done(es, m) => if keys_distinct(es) {
                    Outcome::Done(Value::RespMap(es), (h + m) as nat)
                } else {
                    Outcome::Fail(Kind::InvalidFrame)
                },
                Entries::Fail(k) => Outcome::Fail(k),
            }
        } else {
            Outcome::Fail(Kind::InvalidFrame)
        },
        Err(k) => Outcome::Fail(k),
    }
}

/// No value occurs twice.
pub open spec fn distinct(vs: Seq<Value>) -> bool {
    forall|i: int, j: int| 0 <= i < j < vs.len() ==> vs[i] != vs[j]
}

/// No key occurs twice.
pub open spec fn keys_distinct(es: Seq<(Seq<char>, Value)>) -> bool {
    forall|i: int, j: int| 0 <= i < j < es.len() ==> es[i].0 != es[j].0
}

/// `n` frames one after another.
pub open spec fn parse_elements(s: Seq<u8>, n: nat) -> Entries<Value>
    decreases s.len(), 1nat, n,
{
    if n == 0 {
        Entries::Done(seq![], 0)
    } else {
        match parse(s) {
            Outcome::Done(v, k) => if k <= s.len() {
                match parse_elements(s.subrange(k as int, s.len() as int), (n - 1) as nat) {
                    Entries::Done(vs, m) => Entries::Done(seq![v] + vs, k + m),
                    Entries::Fail(e) => Entries::Fail(e),
                }
            } else {
                Entries::Fail(Kind::InvalidFrame)
            },
            Outcome::Fail(e) => Entries::Fail(e),
        }
    }
}

/// `n` pairs of a simple-string key and a frame.
pub open spec fn parse_entries(s: Seq<u8>, n: nat) -> Entries<(Seq<char>, Value)>
    decreases s.len(), 1nat, n,
{
    if n == 0 {
        Entries::Done(seq![], 0)
    } else {
        match parse_simple_string(s) {
            Outcome::Done(Value::Simple(key), k1) => if k1 <= s.len() {
                let t = s.subrange(k1 as int, s.len() as int);
                match parse(t) {
                    Outcome::Done(v, k2) => if k2 <= t.len() {
                        match parse_entries(t.subrange(k2 as int, t.len() as int), (n - 1) as nat) {
                            Entries::Done(es, m) => Entries::Done(seq![(key, v)] + es, k1 + k2 + m),
                            Entries::Fail(e) => Entries::Fail(e),
                        }
                    } else {
                        Entries::Fail(Kind::InvalidFrame)
                    },
                    Outcome::Fail(e) => Entries::Fail(e),
                }
            } else {
                Entries::Fail(Kind::InvalidFrame)
            },
            Outcome::Done(_, _) => Entries::Fail(Kind::InvalidFrameType),
            Outcome::Fail(e) => Entries::Fail(e),
        }
    }
}

/// Any frame: the first byte selects the variant.
pub open spec fn parse(s: Seq<u8>) -> Outcome
    decreases s.len(), 0nat, 1nat,
{
    if s.len() == 0 {
        Outcome::Fail(Kind::NotComplete)
    } else if s[0] == 43u8 {
        parse_simple_string(s)
    } else if s[0] == 45u8 {
        parse_simple_error(s)
    } else if s[0] == 58u8 {
        parse_integer(s)
    } else if s[0] == 35u8 {
        parse_boolean(s)
    } else if s[0] == 95u8 {
        parse_null(s)
    } else if s[0] == 44u8 {
        parse_double(s)
    } else if s[0] == 36u8 {
        parse_bulk_string(s)
    } else if s[0] == 42u8 {
        parse_array(s)
    } else if s[0] == 37u8 {
        parse_map(s)
    } else if s[0] == 126u8 {
        parse_set(s)
    } else {
        Outcome::Fail(Kind::InvalidFrameType)
    }
}

/// Text of an integer as the encoder writes it: always signed.
pub open spec fn signed_text(v: int) -> Seq<u8> {
    if v < 0 {
        seq![45u8] + decimal((-v) as nat)
    } else {
        seq![43u8] + decimal(v as nat)
    }
}

pub open spec fn encode_value(v: Value) -> Seq<u8>
    decreases v,
{
    match v {
        Value::Simple(t) => seq![43u8] + encode_utf8(t) + crlf(),
        Value::Error(t) => seq![45u8] + encode_utf8(t) + crlf(),
        Value::Integer(i) => seq![58u8] + signed_text(i) + crlf(),
        Value::Bulk(b) => seq![36u8] + decimal(b.len()) + crlf() + b + crlf(),
        Value::NullBulk => seq![36u8, 45u8, 49u8, 13u8, 10u8],
        Value::Array(vs) => seq![42u8] + decimal(vs.len()) + crlf() + encode_all(vs),
        Value::Null => seq![95u8, 13u8, 10u8],
        Value::NullArray => seq![42u8, 45u8, 49u8, 13u8, 10u8],
        Value::Boolean(b) => if b {
            true_token()
        } else {
            false_token()
        },
        Value::Double(t) => seq![44u8] + encode_utf8(t) + crlf(),
        Value::RespMap(es) => seq![37u8] + decimal(es.len()) + crlf() + encode_pairs(es),
        Value::RespSet(vs) => seq![126u8] + decimal(vs.len()) + crlf() + encode_all(vs),
    }
}

pub open spec fn encode_all(vs: Seq<Value>) -> Seq<u8>
    decreases vs,
{
    if vs.len() == 0 {
        seq![]
    } else {
        encode_value(vs[0]) + encode_all(vs.subrange(1, vs.len() as int))
    }
}

pub open spec fn encode_pairs(es: Seq<(Seq<char>, Value)>) -> Seq<u8>
    decreases es,
{
    if es.len() == 0 {
        seq![]
    } else {
        seq![43u8] + encode_utf8(es[0].0) + crlf() + encode_value(es[0].1) + encode_pairs(
            es.subrange(1, es.len() as int),
        )
    }
}

} // verus!
