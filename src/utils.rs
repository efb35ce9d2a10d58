//! Read-only scanning of a byte buffer for terminators and tokens.
use vstd::prelude::*;
use vstd::string::*;
use vstd::utf8::{decode_utf8, valid_utf8};

use crate::buffer::{buffer_bytes, buffer_consume, buffered};
use crate::error::{Kind, RespError, kind_of};
use crate::grammar::{crlfs_before, is_crlf_at, line_after, line_end, lossy_text};
use crate::lemmas::{lemma_first_crlf, lemma_no_crlf};

verus! {

pub const CRLF_LEN: usize = 2;

/// Relies on the `format!` macro: a readable description of a mismatch.
#[verifier::external_body]
pub(crate) fn mismatch_detail(expect: &str, got: &[u8]) -> String {
    format!("expect: {}, got: {:?}", expect, got)
}

/// Relies on `String::from_utf8_lossy`: UTF-8 input gives exactly its
/// characters, other input what the lossy conversion makes of it.
#[verifier::external_body]
pub(crate) fn text_from_bytes(b: &[u8]) -> (r: String)
    ensures
        valid_utf8(b@) ==> r@ == decode_utf8(b@),
        !valid_utf8(b@) ==> r@ == lossy_text(b@),
{
    String::from_utf8_lossy(b).into_owned()
}

/// Offset of the `nth` terminator (counting from one), if the buffer holds
/// that many.
pub fn find_crlf(buf: &[u8], nth: usize) -> (r: Option<usize>)
    ensures
        match r {
            Some(i) => is_crlf_at(buf@, i as int) && crlfs_before(buf@, i as int) + 1 == nth,
            None => nth == 0 || crlfs_before(buf@, buf@.len() as int) < nth,
        },
{
    if nth == 0 {
        return None;
    }
    let mut count: usize = 0;
    let mut i: usize = 0;
    while i < buf.len() && buf.len() - i > 1
        invariant
            i <= buf@.len(),
            count == crlfs_before(buf@, i as int),
            count < nth,
        decreases buf@.len() - i,
    {
        if buf[i] == 13u8 && buf[i + 1] == 10u8 {
            if count + 1 == nth {
                return Some(i);
            }
            count = count + 1;
        }
        i = i + 1;
    }
    proof {
        if buf@.len() > 0 {
            assert(!is_crlf_at(buf@, i as int));
            if i + 1 < buf@.len() {
                assert(false);
            }
            if (i as int) < buf@.len() {
                assert(crlfs_before(buf@, i + 1) == crlfs_before(buf@, i as int));
            }
        }
    }
    None
}

/// Checks that the buffer holds a terminator-delimited frame that begins
/// with `prefix`, and returns where its terminator starts. Reads only.
pub fn extract_simple_frame_data(buf: &[u8], prefix: &str) -> (r: Result<usize, RespError>)
    ensures
        match line_after(buf@, prefix.spec_bytes()) {
            Ok(e) => r matches Ok(x) && x as int == e,
            Err(k) => r is Err && kind_of(r->Err_0) == k,
        },
        r matches Ok(e) ==> is_crlf_at(buf@, e as int),
{
    if buf.len() < 3 {
        return Err(RespError::NotComplete);
    }
    let p = prefix.as_bytes();
    if !starts_with(buf, p) {
        return Err(RespError::InvalidFrameType(mismatch_detail(prefix, buf)));
    }
    line_end_at(buf)
}

/// Where the first terminator starts, or `NotComplete` where there is none.
pub fn line_end_at(buf: &[u8]) -> (r: Result<usize, RespError>)
    ensures
        match line_end(buf@) {
            Ok(e) => r matches Ok(x) && x as int == e,
            Err(k) => r == Err::<usize, RespError>(RespError::NotComplete) && k == Kind::NotComplete,
        },
        r matches Ok(e) ==> is_crlf_at(buf@, e as int),
{
    match find_crlf(buf, 1) {
        Some(end) => {
            proof {
                lemma_first_crlf(buf@, end as int);
            }
            Ok(end)
        },
        None => {
            proof {
                lemma_no_crlf(buf@);
            }
            Err(RespError::NotComplete)
        },
    }
}

/// Whether `buf` begins with the bytes `p`.
pub fn starts_with(buf: &[u8], p: &[u8]) -> (r: bool)
    ensures
        r == (p@.len() <= buf@.len() && buf@.subrange(0, p@.len() as int) == p@),
{
    if p.len() > buf.len() {
        return false;
    }
    let mut i: usize = 0;
    while i < p.len()
        invariant
            p@.len() <= buf@.len(),
            i <= p@.len(),
            forall|j: int| 0 <= j < i ==> buf@[j] == p@[j],
        decreases p@.len() - i,
    {
        if buf[i] != p[i] {
            assert(buf@.subrange(0, p@.len() as int)[i as int] != p@[i as int]);
            return false;
        }
        i = i + 1;
    }
    assert(buf@.subrange(0, p@.len() as int) =~= p@);
    true
}

/// Consumes the literal token `expect` from the front of the buffer, or
/// reports why it cannot, leaving the buffer as it was.
pub fn extract_fixed_data(buf: &mut bytes::BytesMut, expect: &str, expect_type: &str) -> (r: Result<
    (),
    RespError,
>)
    ensures
        ({
            let s = buffered(*old(buf));
            let e = expect.spec_bytes();
            if s.len() < e.len() {
                r == Err::<(), RespError>(RespError::NotComplete) && buffered(*final(buf)) == s
            } else if s.subrange(0, e.len() as int) != e {
                r is Err && kind_of(r->Err_0) == Kind::InvalidFrameType && buffered(*final(buf))
                    == s
            } else {
                r is Ok && buffered(*final(buf)) == s.subrange(e.len() as int, s.len() as int)
            }
        }),
{
    let e = expect.as_bytes();
    let s = buffer_bytes(buf);
    if s.len() < e.len() {
        return Err(RespError::NotComplete);
    }
    if !starts_with(s, e) {
        let detail = mismatch_detail(expect_type, s);
        return Err(RespError::InvalidFrameType(detail));
    }
    let n = e.len();
    buffer_consume(buf, n);
    Ok(())
}

} // verus!
