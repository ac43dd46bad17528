//! RESP values and the error taxonomy of the protocol layer.
//!
//! Payloads are kept as raw byte vectors: the wire format is byte-oriented
//! and performs no UTF-8 validation, so a string-typed carrier would force
//! a validation step the protocol does not have.

use vstd::prelude::*;

verus! {

/// Mathematical model of a RESP value: payloads as byte sequences,
/// integers unbounded, arrays as sequences of models.
#[verifier::ext_equal]
pub ghost enum ValueModel {
    SimpleString(Seq<u8>),
    Error(Seq<u8>),
    Integer(int),
    BulkString(Seq<u8>),
    Array(Seq<ValueModel>),
    NullArray,
    NullString,
}

/// A RESP value as it travels between codec, parser and keyspace.
#[derive(Debug, PartialEq, Eq)]
pub enum Value {
    SimpleString(Vec<u8>),
    Error(RedisError),
    Integer(i64),
    BulkString(Vec<u8>),
    Array(Vec<Value>),
    NullArray,
    NullString,
}

/// An inline error message carried by a `Value::Error` frame.
#[derive(Debug, PartialEq, Eq)]
pub struct RedisError {
    pub message: Vec<u8>,
}

/// Errors raised by the codec; fatal for a connection.
#[derive(Clone, Copy, Debug, PartialEq, Eq)]
pub enum ProtocolError {
    UnknownType,
    NotAnInteger,
    ExpectedCrlf,
}

/// Errors raised by the command parser; recoverable at the connection level.
#[derive(Clone, Copy, Debug, PartialEq, Eq)]
pub enum ParseError {
    ExpectedString,
    ExpectedInteger,
    ExpectedAny,
    UnknownCommand,
}

/// Codec-level error: either a protocol violation or a transport failure.
#[derive(Debug)]
pub enum Error {
    ProtocolError(ProtocolError),
    Io(std::io::Error),
}

/// Relies on std::io::Error only as an opaque carrier: the transport
/// error variant holds one, and nothing is read out of it here.
#[verifier::external_type_specification]
#[verifier::external_body]
pub struct ExIoError(std::io::Error);

pub open spec fn value_model(v: Value) -> ValueModel
    decreases v,
{
    match v {
        Value::SimpleString(s) => ValueModel::SimpleString(s@),
        Value::Error(e) => ValueModel::Error(e.message@),
        Value::Integer(i) => ValueModel::Integer(i as int),
        Value::BulkString(s) => ValueModel::BulkString(s@),
        Value::Array(items) => ValueModel::Array(value_models(items@)),
        Value::NullArray => ValueModel::NullArray,
        Value::NullString => ValueModel::NullString,
    }
}

pub open spec fn value_models(s: Seq<Value>) -> Seq<ValueModel>
    decreases s,
{
    if s.len() == 0 {
        Seq::empty()
    } else {
        value_models(s.drop_last()).push(value_model(s.last()))
    }
}

impl View for Value {
    type V = ValueModel;

    open spec fn view(&self) -> ValueModel {
        value_model(*self)
    }
}

/// The length and each element of `value_models` follow the input pointwise.
pub proof fn lemma_value_models_index(s: Seq<Value>)
    ensures
        value_models(s).len() == s.len(),
        forall|i: int| 0 <= i < s.len() ==> value_models(s)[i] == value_model(s[i]),
    decreases s.len(),
{
    if s.len() > 0 {
        lemma_value_models_index(s.drop_last());
    }
}

impl View for Error {
    type V = Option<ProtocolError>;

    open spec fn view(&self) -> Option<ProtocolError> {
        match self {
            Error::ProtocolError(p) => Some(*p),
            Error::Io(_) => None,
        }
    }
}

impl From<std::io::Error> for Error {
    fn from(err: std::io::Error) -> (r: Self) {
        Error::Io(err)
    }
}

impl vstd::std_specs::convert::FromSpecImpl<std::io::Error> for Error {
    open spec fn obeys_from_spec() -> bool {
        true
    }

    open spec fn from_spec(err: std::io::Error) -> Self {
        Error::Io(err)
    }
}

/// Maps a lower-case ASCII letter to its upper-case form; other bytes pass through.
pub open spec fn spec_upper_byte(b: u8) -> u8 {
    if 97 <= b <= 122 {
        (b - 32) as u8
    } else {
        b
    }
}

pub open spec fn spec_upper(s: Seq<u8>) -> Seq<u8> {
    s.map(|_i: int, b: u8| spec_upper_byte(b))
}

/// Upper-cases the ASCII letters of a byte string.
pub fn ascii_upper(s: &[u8]) -> (r: Vec<u8>)
    ensures
        r@ == spec_upper(s@),
{
    let mut out: Vec<u8> = Vec::new();
    let mut i: usize = 0;
    while i < s.len()
        invariant
            i <= s@.len(),
            out@ =~= spec_upper(s@.subrange(0, i as int)),
        decreases s@.len() - i,
    {
        let b = s[i];
        if 97 <= b && b <= 122 {
            out.push(b - 32);
        } else {
            out.push(b);
        }
        i = i + 1;
        proof {
            assert(s@.subrange(0, i as int).drop_last() =~= s@.subrange(0, i - 1));
            assert(out@ =~= spec_upper(s@.subrange(0, i as int)));
        }
    }
    proof {
        assert(s@.subrange(0, s@.len() as int) =~= s@);
    }
    out
}

/// Byte-wise equality of two slices.
pub fn bytes_eq(a: &[u8], b: &[u8]) -> (r: bool)
    ensures
        r == (a@ == b@),
{
    if a.len() != b.len() {
        proof {
            assert(a@ != b@);
        }
        return false;
    }
    let mut i: usize = 0;
    while i < a.len()
        invariant
            i <= a@.len(),
            a@.len() == b@.len(),
            forall|j: int| 0 <= j < i ==> a@[j] == b@[j],
        decreases a@.len() - i,
    {
        if a[i] != b[i] {
            proof {
                assert(a@ != b@);
            }
            return false;
        }
        i = i + 1;
    }
    proof {
        assert(a@ =~= b@);
    }
    true
}

impl Value {
    /// The upper-cased text of a string-typed value, if it is one.
    ///
    /// `SimpleString` and `BulkString` answer with their payload upper-cased;
    /// every other variant answers `None`.
    pub fn try_as_string(&self) -> (r: Option<Vec<u8>>)
        ensures
            r matches Some(u) ==> Some(u@) == spec_try_as_string(self@),
            r is None ==> spec_try_as_string(self@) is None,
    {
        match self {
            Value::SimpleString(s) => Some(ascii_upper(s.as_slice())),
            Value::BulkString(s) => Some(ascii_upper(s.as_slice())),
            _ => None,
        }
    }

    /// A structural copy whose model equals this value's model.
    #[verifier::loop_isolation(false)]
    pub fn deep_clone(&self) -> (r: Value)
        ensures
            r@ == self@,
        decreases self,
    {
        match self {
            Value::SimpleString(s) => Value::SimpleString(clone_bytes(s)),
            Value::Error(e) => Value::Error(RedisError { message: clone_bytes(&e.message) }),
            Value::Integer(i) => Value::Integer(*i),
            Value::BulkString(s) => Value::BulkString(clone_bytes(s)),
            Value::Array(items) => {
                let mut out: Vec<Value> = Vec::new();
                let mut i: usize = 0;
                while i < items.len()
                    invariant
                        i <= items@.len(),
                        out@.len() == i,
                        forall|j: int| 0 <= j < i ==> out@[j]@ == items@[j]@,
                    decreases items@.len() - i,
                {
                    proof {
                        assert((*self)->Array_0 == *items);
                        assert(decreases_to!(*self => (*self)->Array_0));
                        assert(decreases_to!(*items => items@));
                        assert(decreases_to!(items@ => items@[i as int]));
                        assert(decreases_to!(*self => items@[i as int]));
                    }
                    let c = items[i].deep_clone();
                    out.push(c);
                    i = i + 1;
                }
                proof {
                    lemma_value_models_index(out@);
                    lemma_value_models_index(items@);
                    assert(value_models(out@) =~= value_models(items@));
                }
                Value::Array(out)
            },
            Value::NullArray => Value::NullArray,
            Value::NullString => Value::NullString,
        }
    }
}

pub open spec fn spec_try_as_string(v: ValueModel) -> Option<Seq<u8>> {
    match v {
        ValueModel::SimpleString(s) => Some(spec_upper(s)),
        ValueModel::BulkString(s) => Some(spec_upper(s)),
        _ => None,
    }
}

/// A copy of a byte vector with the same contents.
pub fn clone_bytes(s: &Vec<u8>) -> (r: Vec<u8>)
    ensures
        r@ == s@,
{
    let mut out: Vec<u8> = Vec::new();
    let mut i: usize = 0;
    while i < s.len()
        invariant
            i <= s@.len(),
            out@ =~= s@.subrange(0, i as int),
        decreases s@.len() - i,
    {
        out.push(s[i]);
        i = i + 1;
    }
    proof {
        assert(s@.subrange(0, s@.len() as int) =~= s@);
    }
    out
}

} // verus!
