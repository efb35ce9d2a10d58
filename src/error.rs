//! Failures and the continuation signal shared by every decoder.
use vstd::prelude::*;

verus! {

/// The four outcomes other than success, without their details.
#[derive(Debug, Clone, Copy, PartialEq, Eq, Structural)]
pub enum Kind {
    NotComplete,
    InvalidFrameType,
    InvalidFrameLength,
    InvalidFrame,
}

/// Why a decode did not produce a frame. Only `NotComplete` may be retried
/// once more bytes have arrived; the others are protocol violations.
#[derive(Debug, Clone, PartialEq, Eq)]
pub enum RespError {
    InvalidFrame(String),
    InvalidFrameType(String),
    InvalidFrameLength(isize),
    NotComplete,
}

pub open spec fn kind_of(e: RespError) -> Kind {
    match e {
        RespError::InvalidFrame(_) => Kind::InvalidFrame,
        RespError::InvalidFrameType(_) => Kind::InvalidFrameType,
        RespError::InvalidFrameLength(_) => Kind::InvalidFrameLength,
        RespError::NotComplete => Kind::NotComplete,
    }
}

impl RespError {
    pub fn kind(&self) -> (k: Kind)
        ensures
            k == kind_of(*self),
    {
        match self {
            RespError::InvalidFrame(_) => Kind::InvalidFrame,
            RespError::InvalidFrameType(_) => Kind::InvalidFrameType,
            RespError::InvalidFrameLength(_) => Kind::InvalidFrameLength,
            RespError::NotComplete => Kind::NotComplete,
        }
    }

    /// Whether decoding may be tried again once more bytes have arrived.
    pub fn is_retryable(&self) -> (r: bool)
        ensures
            r == (kind_of(*self) == Kind::NotComplete),
    {
        match self {
            RespError::NotComplete => true,
            _ => false,
        }
    }
}

} // verus!
