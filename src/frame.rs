//! The frame types, and the value that each one carries.
use vstd::prelude::*;

use crate::grammar::Value;

verus! {

#[derive(Debug, PartialEq, Eq)]
pub struct SimpleString(pub String);

#[derive(Debug, PartialEq, Eq)]
pub struct SimpleError(pub String);

#[derive(Debug, PartialEq, Eq)]
pub struct Null;

#[derive(Debug, PartialEq, Eq)]
pub struct NullArray;

#[derive(Debug, PartialEq, Eq)]
pub struct NullBulkString;

#[derive(Debug, PartialEq, Eq)]
pub struct BulkString(pub Vec<u8>);

/// A double, held as the text that carries it on the wire.
#[derive(Debug, PartialEq, Eq)]
pub struct DoubleText(pub String);

#[derive(Debug, PartialEq, Eq)]
pub struct Array(pub Vec<RespFrame>);

/// Key and value pairs, in the order in which they were decoded or added.
#[derive(Debug, PartialEq, Eq)]
pub struct RespMap(pub Vec<(String, RespFrame)>);

/// Members, in the order in which they were decoded or added.
#[derive(Debug, PartialEq, Eq)]
pub struct RespSet(pub Vec<RespFrame>);

#[derive(Debug, PartialEq, Eq)]
pub enum RespFrame {
    SimpleString(SimpleString),
    Error(SimpleError),
    Integer(i64),
    BulkString(BulkString),
    NullBulkString(NullBulkString),
    Array(Array),
    Null(Null),
    NullArray(NullArray),
    Boolean(bool),
    Double(DoubleText),
    RespMap(RespMap),
    RespSet(RespSet),
}

impl RespFrame {
    /// The value that this frame carries.
    pub open spec fn value(&self) -> Value
        decreases self, 0nat,
    {
        match self {
            RespFrame::SimpleString(s) => Value::Simple(s.0@),
            RespFrame::Error(e) => Value::Error(e.0@),
            RespFrame::Integer(i) => Value::Integer(*i as int),
            RespFrame::BulkString(b) => Value::Bulk(b.0@),
            RespFrame::NullBulkString(_) => Value::NullBulk,
            RespFrame::Array(a) => Value::Array(values(a.0@)),
            RespFrame::Null(_) => Value::Null,
            RespFrame::NullArray(_) => Value::NullArray,
            RespFrame::Boolean(b) => Value::Boolean(*b),
            RespFrame::Double(d) => Value::Double(d.0@),
            RespFrame::RespMap(m) => Value::RespMap(pair_values(m.0@)),
            RespFrame::RespSet(s) => Value::RespSet(values(s.0@)),
        }
    }
}

/// The values of a run of frames.
pub open spec fn values(s: Seq<RespFrame>) -> Seq<Value>
    decreases s, 1nat,
{
    if s.len() == 0 {
        seq![]
    } else {
        values(s.subrange(0, s.len() - 1)).push(s[s.len() - 1].value())
    }
}

/// The values of a run of key and frame pairs.
pub open spec fn pair_values(s: Seq<(String, RespFrame)>) -> Seq<(Seq<char>, Value)>
    decreases s, 1nat,
{
    if s.len() == 0 {
        seq![]
    } else {
        pair_values(s.subrange(0, s.len() - 1)).push((s[s.len() - 1].0@, s[s.len() - 1].1.value()))
    }
}

impl SimpleString {
    pub fn new(s: String) -> (r: SimpleString)
        ensures
            r.0@ == s@,
    {
        SimpleString(s)
    }
}

impl SimpleError {
    pub fn new(s: String) -> (r: SimpleError)
        ensures
            r.0@ == s@,
    {
        SimpleError(s)
    }
}

} // verus!
