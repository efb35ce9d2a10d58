//! Decoding: one parser per variant over a byte slice, the dispatcher that
//! selects among them by the first byte, and the `RespDecode` entry points
//! that consume a decoded frame from a receive buffer.
use vstd::prelude::*;
use vstd::slice::{slice_subrange, slice_to_vec};

use crate::buffer::{buffer_bytes, buffer_consume, buffered};
use crate::error::{Kind, RespError, kind_of};
use crate::equality::{keys_unique, members_distinct};
use crate::frame::{
    Array, BulkString, DoubleText, Null, NullArray, NullBulkString, RespFrame, RespMap, RespSet, SimpleError,
    SimpleString, pair_values, values,
};
use crate::grammar::{
    Entries, Outcome, Value, after_sign, all_digits, decimal_from, digit_run, exponent_from,
    is_double_text, parse_double, digits_value, false_token, header, in_i64, parse, parse_array, parse_boolean, parse_bulk_string, parse_elements,
    parse_entries, parse_integer, parse_map, parse_null, parse_set, parse_simple_error,
    parse_simple_string, signed_value, simple_line, text_of, true_token,
};
use crate::utils::{line_end_at, mismatch_detail, text_from_bytes};

verus! {

/// A decoded item and the number of bytes it spans, or the failure, agree
/// with an outcome of the grammar.
pub open spec fn frame_result(o: Outcome, r: Result<(RespFrame, usize), RespError>) -> bool {
    match o {
        Outcome::Done(v, n) => r is Ok && r->Ok_0.0.value() == v && r->Ok_0.1 == n,
        Outcome::Fail(k) => r is Err && kind_of(r->Err_0) == k,
    }
}

/// What a decode over a receive buffer did: on success the frame's bytes
/// are gone from the front; on any failure the buffer is unchanged.
pub open spec fn consumed_as(before: Seq<u8>, after: Seq<u8>, o: Outcome, r: Result<Value, Kind>) -> bool {
    match o {
        Outcome::Done(v, n) => r == Ok::<Value, Kind>(v) && n <= before.len() && after == before.subrange(
            n as int,
            before.len() as int,
        ),
        Outcome::Fail(k) => r == Err::<Value, Kind>(k) && after == before,
    }
}

/// What a length probe reports: the span of the frame, or the failure.
pub open spec fn length_as(o: Outcome, r: Result<usize, RespError>) -> bool {
    match o {
        Outcome::Done(_, n) => r == Ok::<usize, RespError>(n as usize),
        Outcome::Fail(k) => r is Err && kind_of(r->Err_0) == k,
    }
}

/// Appends the entries that were decoded so far to what the rest decodes to.
pub open spec fn join<T>(done: Seq<T>, off: nat, rest: Entries<T>) -> Entries<T> {
    match rest {
        Entries::Done(vs, m) => Entries::Done(done + vs, off + m),
        Entries::Fail(k) => Entries::Fail(k),
    }
}

/// Reads an optional sign and decimal digits as a signed 64-bit number.
pub fn parse_signed(s: &[u8]) -> (r: Option<i64>)
    ensures
        match signed_value(s@) {
            Some(v) => if in_i64(v) {
                r == Some(v as i64)
            } else {
                r is None
            },
            None => r is None,
        },
{
    let ghost whole = s@;
    let negative = s.len() > 0 && s[0] == 45u8;
    let start: usize = if s.len() > 0 && (s[0] == 43u8 || s[0] == 45u8) {
        1
    } else {
        0
    };
    if start >= s.len() {
        return None;
    }
    let ghost digits = s@.subrange(start as int, s@.len() as int);
    assert(start == 1 ==> digits =~= s@.drop_first());
    assert(start == 0 ==> digits =~= s@);
    let cap: u128 = 18446744073709551616u128;
    let mut acc: u128 = 0;
    let mut i: usize = start;
    while i < s.len()
        invariant
            start <= i <= s@.len(),
            s@ == whole,
            digits == s@.subrange(start as int, s@.len() as int),
            negative == (s@[0] == 45u8),
            start == 1 <==> (s@[0] == 43u8 || s@[0] == 45u8),
            cap == 18446744073709551616u128,
            forall|j: int| start <= j < i ==> 48u8 <= #[trigger] s@[j] <= 57u8,
            acc == if digits_value(s@.subrange(start as int, i as int)) < cap {
                digits_value(s@.subrange(start as int, i as int)) as u128
            } else {
                cap
            },
        decreases s@.len() - i,
    {
        let c = s[i];
        if c < 48u8 || c > 57u8 {
            assert(digits[i - start] == s@[i as int]);
            assert(!all_digits(digits));
            return None;
        }
        let ghost before = s@.subrange(start as int, i as int);
        let ghost after = s@.subrange(start as int, i + 1);
        assert(after.drop_last() =~= before);
        assert(digits_value(after) == 10 * digits_value(before) + (c - 48) as nat);
        if acc < cap {
            acc = acc * 10 + (c - 48u8) as u128;
            if acc > cap {
                acc = cap;
            }
        }
        i = i + 1;
    }
    assert(s@.subrange(start as int, s@.len() as int) =~= digits);
    assert(all_digits(digits));
    if negative {
        if acc <= 9223372036854775808u128 {
            if acc == 9223372036854775808u128 {
                Some(i64::MIN)
            } else {
                Some(-(acc as i64))
            }
        } else {
            None
        }
    } else if acc <= 9223372036854775807u128 {
        Some(acc as i64)
    } else {
        None
    }
}

/// The terminator-delimited frame at the front of `s`, which must begin
/// with `prefix`: where its terminator starts.
fn simple_line_at(s: &[u8], prefix: u8) -> (r: Result<usize, RespError>)
    requires
        prefix != 13u8,
    ensures
        match simple_line(s@, prefix) {
            Ok(e) => r matches Ok(x) && x as int == e,
            Err(k) => r is Err && kind_of(r->Err_0) == k,
        },
        r matches Ok(e) ==> 1 <= e && e + 2 <= s.len(),
{
    if s.len() < 3 {
        return Err(RespError::NotComplete);
    }
    if s[0] != prefix {
        assert(s@.subrange(0, 1)[0] == s@[0]);
        return Err(RespError::InvalidFrameType(mismatch_detail("a frame of this type", s)));
    }
    assert(s@.subrange(0, 1) =~= seq![prefix]);
    line_end_at(s)
}

/// A simple string at the front of `s`.
fn simple_string_at(s: &[u8]) -> (r: Result<(SimpleString, usize), RespError>)
    ensures
        match parse_simple_string(s@) {
            Outcome::Done(v, n) => r is Ok && v == Value::Simple(r->Ok_0.0.0@) && r->Ok_0.1 == n,
            Outcome::Fail(k) => r is Err && kind_of(r->Err_0) == k,
        },
        r matches Ok((_, k)) ==> k <= s.len(),
{
    match simple_line_at(s, 43u8) {
        Ok(end) => {
            assert(simple_line(s@, 43u8) == Ok::<int, Kind>(end as int));
            let text = text_from_bytes(slice_subrange(s, 1, end));
            assert(text@ == text_of(s@.subrange(1, end as int)));
            Ok((SimpleString::new(text), end + 2))
        },
        Err(e) => Err(e),
    }
}

/// A simple error at the front of `s`.
fn simple_error_at(s: &[u8]) -> (r: Result<(SimpleError, usize), RespError>)
    ensures
        match parse_simple_error(s@) {
            Outcome::Done(v, n) => r is Ok && v == Value::Error(r->Ok_0.0.0@) && r->Ok_0.1 == n,
            Outcome::Fail(k) => r is Err && kind_of(r->Err_0) == k,
        },
        r matches Ok((_, k)) ==> k <= s.len(),
{
    match simple_line_at(s, 45u8) {
        Ok(end) => {
            let text = text_from_bytes(slice_subrange(s, 1, end));
            Ok((SimpleError::new(text), end + 2))
        },
        Err(e) => Err(e),
    }
}

/// An integer at the front of `s`.
fn integer_at(s: &[u8]) -> (r: Result<(i64, usize), RespError>)
    ensures
        match parse_integer(s@) {
            Outcome::Done(v, n) => r is Ok && v == Value::Integer(r->Ok_0.0 as int) && r->Ok_0.1 == n,
            Outcome::Fail(k) => r is Err && kind_of(r->Err_0) == k,
        },
        r matches Ok((_, k)) ==> k <= s.len(),
{
    match simple_line_at(s, 58u8) {
        Ok(end) => match parse_signed(slice_subrange(s, 1, end)) {
            Some(v) => Ok((v, end + 2)),
            None => Err(RespError::InvalidFrame("integer body is not a signed 64-bit number".to_string())),
        },
        Err(e) => Err(e),
    }
}

/// A boolean token at the front of `s`.
fn boolean_at(s: &[u8]) -> (r: Result<(bool, usize), RespError>)
    ensures
        match parse_boolean(s@) {
            Outcome::Done(v, n) => r is Ok && v == Value::Boolean(r->Ok_0.0) && r->Ok_0.1 == n,
            Outcome::Fail(k) => r is Err && kind_of(r->Err_0) == k,
        },
        r matches Ok((_, k)) ==> k <= s.len(),
{
    if s.len() < 4 {
        return Err(RespError::NotComplete);
    }
    let ghost head = s@.subrange(0, 4);
    assert(head =~= seq![s@[0], s@[1], s@[2], s@[3]]);
    if s[0] == 35u8 && s[2] == 13u8 && s[3] == 10u8 && (s[1] == 116u8 || s[1] == 102u8) {
        assert(s[1] == 116u8 ==> head =~= true_token());
        assert(s[1] == 102u8 ==> head =~= false_token());
        Ok((s[1] == 116u8, 4))
    } else {
        assert(head != true_token() && head != false_token()) by {
            assert(true_token()[1] == 116u8 && false_token()[1] == 102u8);
        }
        Err(RespError::InvalidFrameType("expect: Bool".to_string()))
    }
}

/// How many decimal digits start at `i`.
fn digit_run_at(b: &[u8], i: usize) -> (r: usize)
    requires
        i <= b.len(),
    ensures
        r == digit_run(b@, i as int),
        i + r <= b.len(),
{
    let mut j: usize = i;
    while j < b.len() && 48u8 <= b[j] && b[j] <= 57u8
        invariant
            i <= j <= b.len(),
            digit_run(b@, i as int) == (j - i) + digit_run(b@, j as int),
        decreases b.len() - j,
    {
        j = j + 1;
    }
    j - i
}

fn after_sign_at(b: &[u8], i: usize) -> (r: usize)
    requires
        i <= b.len(),
    ensures
        r == after_sign(b@, i as int),
        r <= b.len(),
{
    if i < b.len() && (b[i] == 43u8 || b[i] == 45u8) {
        i + 1
    } else {
        i
    }
}

fn exponent_at(b: &[u8], i: usize) -> (r: bool)
    requires
        i <= b.len(),
    ensures
        r == exponent_from(b@, i as int),
{
    if i < b.len() && (b[i] == 101u8 || b[i] == 69u8) {
        let j = after_sign_at(b, i + 1);
        let d = digit_run_at(b, j);
        d > 0 && j + d == b.len()
    } else {
        false
    }
}

fn decimal_at(b: &[u8], i: usize) -> (r: bool)
    requires
        i <= b.len(),
    ensures
        r == decimal_from(b@, i as int),
{
    let d = digit_run_at(b, i);
    if d == 0 {
        return false;
    }
    let j = i + d;
    if j < b.len() && b[j] == 46u8 {
        let d2 = digit_run_at(b, j + 1);
        let k = j + 1 + d2;
        d2 > 0 && (k == b.len() || exponent_at(b, k))
    } else {
        j == b.len() || exponent_at(b, j)
    }
}

/// Whether `b` is the text of a double: an optional sign, then decimal or
/// scientific notation, or `inf`, `nan` or `NaN`.
pub fn is_double_syntax(b: &[u8]) -> (r: bool)
    ensures
        r == is_double_text(b@),
{
    let i = after_sign_at(b, 0);
    let ghost rest = b@.subrange(i as int, b@.len() as int);
    if b.len() - i == 3 {
        let (x, y, z) = (b[i], b[i + 1], b[i + 2]);
        assert(rest =~= seq![x, y, z]);
        if (x == 105u8 && y == 110u8 && z == 102u8) || (x == 110u8 && y == 97u8 && z == 110u8) || (x
            == 78u8 && y == 97u8 && z == 78u8) {
            return true;
        }
        assert(rest != seq![105u8, 110u8, 102u8] && rest != seq![110u8, 97u8, 110u8] && rest
            != seq![78u8, 97u8, 78u8]) by {
            assert(seq![105u8, 110u8, 102u8][0] == 105u8);
        }
    } else {
        assert(rest.len() != 3);
        assert(seq![105u8, 110u8, 102u8].len() == 3 && seq![110u8, 97u8, 110u8].len() == 3 && seq![78u8, 97u8, 78u8].len() == 3);
    }
    decimal_at(b, i)
}

/// A double at the front of `s`, kept as its text.
fn double_at(s: &[u8]) -> (r: Result<(DoubleText, usize), RespError>)
    ensures
        match parse_double(s@) {
            Outcome::Done(v, n) => r is Ok && v == Value::Double(r->Ok_0.0.0@) && r->Ok_0.1 == n,
            Outcome::Fail(k) => r is Err && kind_of(r->Err_0) == k,
        },
        r matches Ok((_, k)) ==> k <= s.len(),
{
    match simple_line_at(s, 44u8) {
        Ok(end) => {
            let body = slice_subrange(s, 1, end);
            if is_double_syntax(body) {
                let text = text_from_bytes(body);
                Ok((DoubleText(text), end + 2))
            } else {
                Err(RespError::InvalidFrame("double body is not a number".to_string()))
            }
        },
        Err(e) => Err(e),
    }
}

/// A null at the front of `s`.
fn null_at(s: &[u8]) -> (r: Result<(Null, usize), RespError>)
    ensures
        match parse_null(s@) {
            Outcome::Done(v, n) => r is Ok && v == Value::Null && r->Ok_0.1 == n,
            Outcome::Fail(k) => r is Err && kind_of(r->Err_0) == k,
        },
        r matches Ok((_, k)) ==> k <= s.len(),
{
    match simple_line_at(s, 95u8) {
        Ok(end) => if end == 1 {
            Ok((Null, 3))
        } else {
            Err(RespError::InvalidFrame("null frame has a body".to_string()))
        },
        Err(e) => Err(e),
    }
}

/// The count or length that a header line declares, and where what
/// follows it begins.
fn header_at(s: &[u8], prefix: u8) -> (r: Result<(i64, usize), RespError>)
    requires
        prefix != 13u8,
    ensures
        match header(s@, prefix) {
            Ok((n, h)) => r matches Ok((a, b)) && a as int == n && b as int == h && 3 <= b <= s.len(),
            Err(k) => r is Err && kind_of(r->Err_0) == k,
        },
{
    match simple_line_at(s, prefix) {
        Ok(end) => match parse_signed(slice_subrange(s, 1, end)) {
            Some(v) => Ok((v, end + 2)),
            None => Err(RespError::InvalidFrameLength(0)),
        },
        Err(e) => Err(e),
    }
}

/// A bulk string, or the null bulk string, at the front of `s`.
fn bulk_string_at(s: &[u8]) -> (r: Result<(RespFrame, usize), RespError>)
    ensures
        frame_result(parse_bulk_string(s@), r),
        r matches Ok((_, k)) ==> k <= s.len(),
{
    let (n, h) = match header_at(s, 36u8) {
        Ok(p) => p,
        Err(e) => return Err(e),
    };
    if n == -1 {
        return Ok((RespFrame::NullBulkString(NullBulkString), h));
    }
    if n < 0 {
        return Err(RespError::InvalidFrameLength(#[verifier::truncate] (n as isize)));
    }
    let avail = s.len() - h;
    if avail as u64 <= n as u64 || avail - (n as usize) < 2 {
        return Err(RespError::NotComplete);
    }
    let end = h + n as usize;
    if !(s[end] == 13u8 && s[end + 1] == 10u8) {
        return Err(RespError::InvalidFrame("bulk string is not terminated".to_string()));
    }
    let data = slice_to_vec(slice_subrange(s, h, end));
    Ok((RespFrame::BulkString(BulkString(data)), end + 2))
}

/// `n` frames one after another at the front of `t`.
fn elements_at(t: &[u8], n: u64) -> (r: Result<(Vec<RespFrame>, usize), RespError>)
    ensures
        match parse_elements(t@, n as nat) {
            Entries::Done(vs, m) => r matches Ok((items, k)) && values(items@) == vs && k == m && k <= t.len(),
            Entries::Fail(e) => r is Err && kind_of(r->Err_0) == e,
        },
    decreases t@.len(), 3nat,
{
    let mut items: Vec<RespFrame> = Vec::new();
    let mut off: usize = 0;
    let mut i: u64 = 0;
    assert(join(values(items@), 0, parse_elements(t@, n as nat)) == parse_elements(t@, n as nat)) by {
        assert(values(items@) =~= seq![]);
        match parse_elements(t@, n as nat) {
            Entries::Done(vs, m) => assert(seq![] + vs =~= vs),
            Entries::Fail(_) => {},
        }
    }
    assert(t@.subrange(0, t@.len() as int) =~= t@);
    while i < n
        invariant
            off <= t.len(),
            i <= n,
            parse_elements(t@, n as nat) == join(
                values(items@),
                off as nat,
                parse_elements(t@.subrange(off as int, t@.len() as int), (n - i) as nat),
            ),
        decreases n - i,
    {
        let rest = slice_subrange(t, off, t.len());
        let ghost tail = parse_elements(rest@, (n - i - 1) as nat);
        match decode_frame(rest) {
            Ok((f, k)) => {
                let ghost later = rest@.subrange(k as int, rest@.len() as int);
                assert(later =~= t@.subrange(off + k, t@.len() as int));
                proof {
                    let ghost old_vals = values(items@);
                    match parse_elements(later, (n - i - 1) as nat) {
                        Entries::Done(vs, m) => {
                            assert(old_vals + (seq![f.value()] + vs) =~= old_vals.push(f.value()) + vs);
                        },
                        Entries::Fail(_) => {},
                    }
                }
                let ghost prev = items@;
                items.push(f);
                assert(items@.subrange(0, items@.len() - 1) =~= prev);
                off = off + k;
                i = i + 1;
            },
            Err(e) => {
                return Err(e);
            },
        }
    }
    assert(values(items@) + seq![] =~= values(items@));
    Ok((items, off))
}

/// `n` pairs of a simple-string key and a frame at the front of `t`.
fn entries_at(t: &[u8], n: u64) -> (r: Result<(Vec<(String, RespFrame)>, usize), RespError>)
    ensures
        match parse_entries(t@, n as nat) {
            Entries::Done(es, m) => r matches Ok((items, k)) && pair_values(items@) == es && k == m && k <= t.len(),
            Entries::Fail(e) => r is Err && kind_of(r->Err_0) == e,
        },
    decreases t@.len(), 3nat,
{
    let mut items: Vec<(String, RespFrame)> = Vec::new();
    let mut off: usize = 0;
    let mut i: u64 = 0;
    assert(join(pair_values(items@), 0, parse_entries(t@, n as nat)) == parse_entries(t@, n as nat)) by {
        assert(pair_values(items@) =~= seq![]);
        match parse_entries(t@, n as nat) {
            Entries::Done(es, m) => assert(seq![] + es =~= es),
            Entries::Fail(_) => {},
        }
    }
    assert(t@.subrange(0, t@.len() as int) =~= t@);
    while i < n
        invariant
            off <= t.len(),
            i <= n,
            parse_entries(t@, n as nat) == join(
                pair_values(items@),
                off as nat,
                parse_entries(t@.subrange(off as int, t@.len() as int), (n - i) as nat),
            ),
        decreases n - i,
    {
        let rest = slice_subrange(t, off, t.len());
        let (key, k1) = match simple_string_at(rest) {
            Ok(p) => p,
            Err(e) => {
                return Err(e);
            },
        };
        let after_key = slice_subrange(rest, k1, rest.len());
        match decode_frame(after_key) {
            Ok((f, k2)) => {
                let ghost later = after_key@.subrange(k2 as int, after_key@.len() as int);
                assert(later =~= t@.subrange(off + k1 + k2, t@.len() as int));
                proof {
                    let ghost old_vals = pair_values(items@);
                    let ghost entry = (key.0@, f.value());
                    match parse_entries(later, (n - i - 1) as nat) {
                        Entries::Done(es, m) => {
                            assert(old_vals + (seq![entry] + es) =~= old_vals.push(entry) + es);
                        },
                        Entries::Fail(_) => {},
                    }
                }
                let ghost prev = items@;
                items.push((key.0, f));
                assert(items@.subrange(0, items@.len() - 1) =~= prev);
                off = off + k1 + k2;
                i = i + 1;
            },
            Err(e) => {
                return Err(e);
            },
        }
    }
    assert(pair_values(items@) + seq![] =~= pair_values(items@));
    Ok((items, off))
}

/// An array, or the null array, at the front of `s`.
fn array_at(s: &[u8]) -> (r: Result<(RespFrame, usize), RespError>)
    ensures
        frame_result(parse_array(s@), r),
        r matches Ok((_, k)) ==> k <= s.len(),
    decreases s@.len(), 1nat,
{
    let (n, h) = match header_at(s, 42u8) {
        Ok(p) => p,
        Err(e) => return Err(e),
    };
    if n == -1 {
        return Ok((RespFrame::NullArray(NullArray), h));
    }
    if n < 0 {
        return Err(RespError::InvalidFrameLength(#[verifier::truncate] (n as isize)));
    }
    let body = slice_subrange(s, h, s.len());
    match elements_at(body, n as u64) {
        Ok((items, m)) => Ok((RespFrame::Array(Array(items)), h + m)),
        Err(e) => Err(e),
    }
}

/// A set at the front of `s`.
fn set_at(s: &[u8]) -> (r: Result<(RespFrame, usize), RespError>)
    ensures
        frame_result(parse_set(s@), r),
        r matches Ok((_, k)) ==> k <= s.len(),
    decreases s@.len(), 1nat,
{
    let (n, h) = match header_at(s, 126u8) {
        Ok(p) => p,
        Err(e) => return Err(e),
    };
    if n < 0 {
        return Err(RespError::InvalidFrameLength(#[verifier::truncate] (n as isize)));
    }
    let body = slice_subrange(s, h, s.len());
    match elements_at(body, n as u64) {
        Ok((items, m)) => if members_distinct(&items) {
            Ok((RespFrame::RespSet(RespSet(items)), h + m))
        } else {
            Err(RespError::InvalidFrame("set holds a member twice".to_string()))
        },
        Err(e) => Err(e),
    }
}

/// A map at the front of `s`.
fn map_at(s: &[u8]) -> (r: Result<(RespFrame, usize), RespError>)
    ensures
        frame_result(parse_map(s@), r),
        r matches Ok((_, k)) ==> k <= s.len(),
    decreases s@.len(), 1nat,
{
    let (n, h) = match header_at(s, 37u8) {
        Ok(p) => p,
        Err(e) => return Err(e),
    };
    if n < 0 {
        return Err(RespError::InvalidFrameLength(#[verifier::truncate] (n as isize)));
    }
    let body = slice_subrange(s, h, s.len());
    match entries_at(body, n as u64) {
        Ok((items, m)) => if keys_unique(&items) {
            Ok((RespFrame::RespMap(RespMap(items)), h + m))
        } else {
            Err(RespError::InvalidFrame("map holds a key twice".to_string()))
        },
        Err(e) => Err(e),
    }
}

/// The frame at the front of `s`, of whichever variant its first byte
/// selects, and the number of bytes it spans.
pub fn decode_frame(s: &[u8]) -> (r: Result<(RespFrame, usize), RespError>)
    ensures
        frame_result(parse(s@), r),
        r matches Ok((_, k)) ==> k <= s.len(),
    decreases s@.len(), 2nat,
{
    if s.len() == 0 {
        return Err(RespError::NotComplete);
    }
    let b = s[0];
    if b == 43u8 {
        match simple_string_at(s) {
            Ok((v, k)) => Ok((RespFrame::SimpleString(v), k)),
            Err(e) => Err(e),
        }
    } else if b == 45u8 {
        match simple_error_at(s) {
            Ok((v, k)) => Ok((RespFrame::Error(v), k)),
            Err(e) => Err(e),
        }
    } else if b == 58u8 {
        match integer_at(s) {
            Ok((v, k)) => Ok((RespFrame::Integer(v), k)),
            Err(e) => Err(e),
        }
    } else if b == 35u8 {
        match boolean_at(s) {
            Ok((v, k)) => Ok((RespFrame::Boolean(v), k)),
            Err(e) => Err(e),
        }
    } else if b == 95u8 {
        match null_at(s) {
            Ok((v, k)) => Ok((RespFrame::Null(v), k)),
            Err(e) => Err(e),
        }
    } else if b == 44u8 {
        match double_at(s) {
            Ok((v, k)) => Ok((RespFrame::Double(v), k)),
            Err(e) => Err(e),
        }
    } else if b == 36u8 {
        bulk_string_at(s)
    } else if b == 42u8 {
        array_at(s)
    } else if b == 37u8 {
        map_at(s)
    } else if b == 126u8 {
        set_at(s)
    } else {
        Err(RespError::InvalidFrameType(mismatch_detail("a frame prefix", s)))
    }
}

/// A type that can be decoded from the front of a receive buffer.
pub trait RespDecode: Sized {
    /// What the grammar makes of a buffer for this type.
    spec fn outcome(s: Seq<u8>) -> Outcome;

    /// The value that a decoded item carries.
    spec fn carried(&self) -> Value;

    /// Decodes one item and removes its bytes from the buffer; on any
    /// failure the buffer is left as it was.
    fn decode(buf: &mut bytes::BytesMut) -> (r: Result<Self, RespError>)
        ensures
            consumed_as(
                buffered(*old(buf)),
                buffered(*final(buf)),
                Self::outcome(buffered(*old(buf))),
                match r {
                    Ok(x) => Ok::<Value, Kind>(x.carried()),
                    Err(e) => Err::<Value, Kind>(kind_of(e)),
                },
            ),
    ;

    /// How many bytes the item at the front of `buf` spans, without
    /// consuming anything.
    fn expect_length(buf: &[u8]) -> (r: Result<usize, RespError>)
        ensures
            length_as(Self::outcome(buf@), r),
    ;
}

impl RespDecode for SimpleString {
    open spec fn outcome(s: Seq<u8>) -> Outcome {
        parse_simple_string(s)
    }

    open spec fn carried(&self) -> Value {
        Value::Simple(self.0@)
    }

    fn decode(buf: &mut bytes::BytesMut) -> (r: Result<Self, RespError>) {
        let s = buffer_bytes(buf);
        match simple_string_at(s) {
            Ok((v, k)) => {
                buffer_consume(buf, k);
                Ok(v)
            },
            Err(e) => Err(e),
        }
    }

    fn expect_length(buf: &[u8]) -> (r: Result<usize, RespError>) {
        match simple_string_at(buf) {
            Ok((_, k)) => Ok(k),
            Err(e) => Err(e),
        }
    }
}

impl RespDecode for SimpleError {
    open spec fn outcome(s: Seq<u8>) -> Outcome {
        parse_simple_error(s)
    }

    open spec fn carried(&self) -> Value {
        Value::Error(self.0@)
    }

    fn decode(buf: &mut bytes::BytesMut) -> (r: Result<Self, RespError>) {
        let s = buffer_bytes(buf);
        match simple_error_at(s) {
            Ok((v, k)) => {
                buffer_consume(buf, k);
                Ok(v)
            },
            Err(e) => Err(e),
        }
    }

    fn expect_length(buf: &[u8]) -> (r: Result<usize, RespError>) {
        match simple_error_at(buf) {
            Ok((_, k)) => Ok(k),
            Err(e) => Err(e),
        }
    }
}

impl RespDecode for i64 {
    open spec fn outcome(s: Seq<u8>) -> Outcome {
        parse_integer(s)
    }

    open spec fn carried(&self) -> Value {
        Value::Integer(*self as int)
    }

    fn decode(buf: &mut bytes::BytesMut) -> (r: Result<Self, RespError>) {
        let s = buffer_bytes(buf);
        match integer_at(s) {
            Ok((v, k)) => {
                buffer_consume(buf, k);
                Ok(v)
            },
            Err(e) => Err(e),
        }
    }

    fn expect_length(buf: &[u8]) -> (r: Result<usize, RespError>) {
        match integer_at(buf) {
            Ok((_, k)) => Ok(k),
            Err(e) => Err(e),
        }
    }
}

impl RespDecode for bool {
    open spec fn outcome(s: Seq<u8>) -> Outcome {
        parse_boolean(s)
    }

    open spec fn carried(&self) -> Value {
        Value::Boolean(*self)
    }

    fn decode(buf: &mut bytes::BytesMut) -> (r: Result<Self, RespError>) {
        let s = buffer_bytes(buf);
        match boolean_at(s) {
            Ok((v, k)) => {
                buffer_consume(buf, k);
                Ok(v)
            },
            Err(e) => Err(e),
        }
    }

    fn expect_length(buf: &[u8]) -> (r: Result<usize, RespError>) {
        match boolean_at(buf) {
            Ok((_, k)) => Ok(k),
            Err(e) => Err(e),
        }
    }
}

impl RespDecode for RespFrame {
    open spec fn outcome(s: Seq<u8>) -> Outcome {
        parse(s)
    }

    open spec fn carried(&self) -> Value {
        self.value()
    }

    fn decode(buf: &mut bytes::BytesMut) -> (r: Result<Self, RespError>) {
        let s = buffer_bytes(buf);
        match decode_frame(s) {
            Ok((v, k)) => {
                buffer_consume(buf, k);
                Ok(v)
            },
            Err(e) => Err(e),
        }
    }

    fn expect_length(buf: &[u8]) -> (r: Result<usize, RespError>) {
        match decode_frame(buf) {
            Ok((_, k)) => Ok(k),
            Err(e) => Err(e),
        }
    }
}

} // verus!
