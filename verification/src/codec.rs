//! The RESP codec: an incremental frame parser and the matching encoder.
//!
//! `parse` consumes nothing on a partial frame; on success it reports how
//! many leading bytes form the frame. `NeedMore` carries the least number
//! of further bytes the caller must supply; `Incomplete` means a line
//! terminator has not arrived yet and the shortfall is unknown.

use vstd::prelude::*;
use vstd::slice::{slice_index_get, slice_subrange, slice_to_vec};

use crate::proto::{
    lemma_value_models_index, value_models, Error, ProtocolError, RedisError, Value, ValueModel,
};

verus! {

/// Outcome of decoding one frame from the front of a buffer.
#[derive(Debug)]
pub enum Decoded {
    /// A whole frame: the value and the number of leading bytes it occupies.
    Frame(Value, usize),
    /// At least this many further bytes are needed.
    NeedMore(u64),
    /// More bytes are needed but the amount is unknown.
    Incomplete,
}

/// Spec-level outcome of decoding one frame.
pub ghost enum SpecDecoded {
    Frame(ValueModel, int),
    NeedMore(int),
    Incomplete,
    Fail(ProtocolError),
}

/// Spec-level outcome of decoding a run of frames.
pub ghost enum SpecListDecoded {
    Done(Seq<ValueModel>, int),
    NeedMore(int),
    Incomplete,
    Fail(ProtocolError),
}

pub open spec fn decoded_model(r: Result<Decoded, ProtocolError>) -> SpecDecoded {
    match r {
        Ok(Decoded::Frame(v, off)) => SpecDecoded::Frame(v@, off as int),
        Ok(Decoded::NeedMore(k)) => SpecDecoded::NeedMore(k as int),
        Ok(Decoded::Incomplete) => SpecDecoded::Incomplete,
        Err(e) => SpecDecoded::Fail(e),
    }
}

/// Decimal digits of a nonnegative number, most significant first.
pub open spec fn dec_digits(n: nat) -> Seq<u8>
    decreases n,
{
    if n < 10 {
        seq![(48 + n) as u8]
    } else {
        dec_digits(n / 10).push((48 + n % 10) as u8)
    }
}

/// Decimal notation of an integer: an optional minus sign, then digits.
pub open spec fn dec_int(n: int) -> Seq<u8> {
    if n < 0 {
        seq![45u8] + dec_digits((-n) as nat)
    } else {
        dec_digits(n as nat)
    }
}

pub open spec fn is_digit(b: u8) -> bool {
    48 <= b <= 57
}

pub open spec fn all_digits(s: Seq<u8>) -> bool {
    forall|i: int| 0 <= i < s.len() ==> is_digit(#[trigger] s[i])
}

/// Value of a run of decimal digit bytes.
pub open spec fn digits_val(s: Seq<u8>) -> int
    decreases s.len(),
{
    if s.len() == 0 {
        0
    } else {
        digits_val(s.drop_last()) * 10 + (s.last() - 48)
    }
}

/// A strict base-10 integer: an optional leading minus sign, then at
/// least one digit and nothing else.
pub open spec fn is_strict_int(s: Seq<u8>) -> bool {
    if s.len() >= 1 && s[0] == 45 {
        s.len() >= 2 && all_digits(s.skip(1))
    } else {
        s.len() >= 1 && all_digits(s)
    }
}

pub open spec fn strict_int_val(s: Seq<u8>) -> int {
    if s.len() >= 1 && s[0] == 45 {
        -digits_val(s.skip(1))
    } else {
        digits_val(s)
    }
}

/// Integer conversion of a whole byte string, `None` unless it is a
/// strict base-10 integer that fits an `i64`.
pub open spec fn spec_parse_i64(s: Seq<u8>) -> Option<int> {
    if is_strict_int(s) && i64::MIN <= strict_int_val(s) <= i64::MAX {
        Some(strict_int_val(s))
    } else {
        None
    }
}

/// Position of the first CR immediately followed by LF; a lone CR is not
/// a terminator.
pub open spec fn spec_find_crlf(s: Seq<u8>) -> Option<int>
    decreases s.len(),
{
    if s.len() < 2 {
        None
    } else if s[0] == 13 && s[1] == 10 {
        Some(0)
    } else {
        match spec_find_crlf(s.drop_first()) {
            Some(i) => Some(i + 1),
            None => None,
        }
    }
}

/// What `spec_find_crlf` answers is the first CRLF start, and `None`
/// means there is none.
pub proof fn lemma_find_crlf(s: Seq<u8>)
    ensures
        match spec_find_crlf(s) {
            Some(i) => 0 <= i && i + 1 < s.len() && s[i] == 13 && s[i + 1] == 10 && forall|j: int|
                0 <= j < i ==> !(#[trigger] s[j] == 13 && s[j + 1] == 10),
            None => forall|j: int| 0 <= j && j + 1 < s.len() ==> !(#[trigger] s[j] == 13 && s[j + 1] == 10),
        },
    decreases s.len(),
{
    if s.len() < 2 {
    } else if s[0] == 13 && s[1] == 10 {
    } else {
        lemma_find_crlf(s.drop_first());
        let t = s.drop_first();
        assert(forall|j: int| 0 <= j && j + 1 < s.len() ==> s[j + 1] == t[j]);
        match spec_find_crlf(t) {
            Some(i) => {
                assert forall|j: int| 0 <= j < i + 1 implies !(#[trigger] s[j] == 13 && s[j + 1] == 10) by {
                    if j > 0 {
                        assert(s[j] == t[j - 1] && s[j + 1] == t[j]);
                    }
                }
            },
            None => {
                assert forall|j: int| 0 <= j && j + 1 < s.len() implies !(#[trigger] s[j] == 13
                    && s[j + 1] == 10) by {
                    if j > 0 {
                        assert(s[j] == t[j - 1] && s[j + 1] == t[j]);
                    }
                }
            },
        }
    }
}

/// Relies on memchr::memchr: it answers the index of the first occurrence
/// of the needle byte in the haystack, or `None` when the byte is absent.
#[verifier::external_body]
fn memchr_byte(needle: u8, haystack: &[u8]) -> (r: Option<usize>)
    ensures
        match r {
            Some(i) => i < haystack@.len() && haystack@[i as int] == needle && forall|j: int|
                0 <= j < i ==> haystack@[j] != needle,
            None => forall|j: int| 0 <= j < haystack@.len() ==> haystack@[j] != needle,
        },
{
    memchr::memchr(needle, haystack)
}

/// Relies on atoi::atoi: on an optional minus sign followed by decimal
/// digits it answers the value, or `None` when the value overflows the
/// target integer type.
#[verifier::external_body]
fn atoi_i64(s: &[u8]) -> (r: Option<i64>)
    requires
        is_strict_int(s@),
    ensures
        ({
            let v = strict_int_val(s@);
            if i64::MIN <= v <= i64::MAX {
                r == Some(v as i64)
            } else {
                r is None
            }
        }),
{
    atoi::atoi::<i64>(s)
}

/// Find the start of the next CRLF.
fn find_next_crlf(input: &[u8]) -> (r: Option<usize>)
    ensures
        match r {
            Some(i) => spec_find_crlf(input@) == Some(i as int),
            None => spec_find_crlf(input@) is None,
        },
{
    let ghost s = input@;
    let mut pos: usize = 0;
    loop
        invariant
            pos <= s.len(),
            input@ == s,
            forall|j: int| 0 <= j < pos && j + 1 < s.len() ==> !(#[trigger] s[j] == 13 && s[j + 1] == 10),
        decreases s.len() - pos,
    {
        let tail = slice_subrange(input, pos, input.len());
        match memchr_byte(13, tail) {
            None => {
                proof {
                    lemma_find_crlf(s);
                    assert forall|j: int| 0 <= j && j + 1 < s.len() implies !(#[trigger] s[j]
                        == 13 && s[j + 1] == 10) by {
                        if j >= pos {
                            assert(tail@[j - pos] == s[j]);
                        }
                    }
                }
                return None;
            },
            Some(i) => {
                let cr = pos + i;
                proof {
                    assert(s[cr as int] == 13);
                    assert forall|j: int| pos <= j < cr implies s[j] != 13 by {
                        assert(tail@[j - pos] == s[j]);
                    }
                }
                if cr + 1 < input.len() {
                    if *slice_index_get(input, cr + 1) == 10 {
                        proof {
                            lemma_find_crlf(s);
                            match spec_find_crlf(s) {
                                Some(k) => {
                                    if k < cr {
                                        assert(!(s[k] == 13 && s[k + 1] == 10));
                                    }
                                    if k > cr {
                                        assert(!(s[cr as int] == 13 && s[cr + 1] == 10));
                                    }
                                },
                                None => {
                                    assert(!(s[cr as int] == 13 && s[cr + 1] == 10));
                                },
                            }
                        }
                        return Some(cr);
                    } else {
                        pos = cr + 1;
                    }
                } else {
                    proof {
                        lemma_find_crlf(s);
                    }
                    return None;
                }
            },
        }
    }
}


/// Strict integer conversion of a whole byte string.
pub fn parse_i64(s: &[u8]) -> (r: Option<i64>)
    ensures
        match r {
            Some(n) => spec_parse_i64(s@) == Some(n as int),
            None => spec_parse_i64(s@) is None,
        },
{
    if s.len() == 0 {
        return None;
    }
    let neg = *slice_index_get(s, 0) == 45;
    let start: usize = if neg { 1 } else { 0 };
    if s.len() <= start {
        return None;
    }
    let mut i: usize = start;
    while i < s.len()
        invariant
            start <= i <= s@.len(),
            start == if neg { 1int } else { 0int },
            neg == (s@[0] == 45),
            s@.len() > start,
            forall|j: int| start <= j < i ==> is_digit(#[trigger] s@[j]),
        decreases s@.len() - i,
    {
        let b = *slice_index_get(s, i);
        if !(48 <= b && b <= 57) {
            proof {
                if neg {
                    assert(s@.skip(1)[i - 1] == s@[i as int]);
                    assert(!all_digits(s@.skip(1)));
                } else {
                    assert(!all_digits(s@));
                }
                assert(!is_strict_int(s@));
            }
            return None;
        }
        i = i + 1;
    }
    proof {
        if neg {
            assert forall|j: int| 0 <= j < s@.skip(1).len() implies is_digit(
                #[trigger] s@.skip(1)[j],
            ) by {
                assert(s@.skip(1)[j] == s@[j + 1]);
            }
        }
        assert(is_strict_int(s@));
    }
    atoi_i64(s)
}

/// Spec-level decoding of one frame from the front of `s`, mirroring the
/// grammar: a tag byte, a CRLF-terminated header, then, for bulk strings
/// and arrays, a payload of the announced length.
pub open spec fn spec_parse(s: Seq<u8>) -> SpecDecoded
    decreases s.len(), 0int,
{
    if s.len() == 0 {
        SpecDecoded::NeedMore(1)
    } else if s[0] == 43 || s[0] == 45 {
        match spec_find_crlf(s.skip(1)) {
            Some(cr) => {
                let text = s.subrange(1, 1 + cr);
                if s[0] == 43 {
                    SpecDecoded::Frame(ValueModel::SimpleString(text), cr + 3)
                } else {
                    SpecDecoded::Frame(ValueModel::Error(text), cr + 3)
                }
            },
            None => SpecDecoded::Incomplete,
        }
    } else if s[0] == 58 {
        match spec_find_crlf(s.skip(1)) {
            Some(cr) => match spec_parse_i64(s.subrange(1, 1 + cr)) {
                Some(n) => SpecDecoded::Frame(ValueModel::Integer(n), cr + 3),
                None => SpecDecoded::Fail(ProtocolError::NotAnInteger),
            },
            None => SpecDecoded::Incomplete,
        }
    } else if s[0] == 36 {
        match spec_find_crlf(s.skip(1)) {
            Some(cr) => match spec_parse_i64(s.subrange(1, 1 + cr)) {
                Some(n) => {
                    let header = cr + 3;
                    // Only -1 is the null sentinel; any other negative
                    // length is a protocol error. A terminator found by
                    // the scan always ends inside the buffer, so the
                    // bound on `header` never fires; it keeps the
                    // recursion well-founded.
                    if n == -1 {
                        SpecDecoded::Frame(ValueModel::NullString, header)
                    } else if n < 0 || header > s.len() {
                        SpecDecoded::Fail(ProtocolError::NotAnInteger)
                    } else {
                        let rest = s.skip(header);
                        if rest.len() < n + 2 {
                            SpecDecoded::NeedMore(n + 2 - rest.len())
                        } else if rest[n] == 13 && rest[n + 1] == 10 {
                            SpecDecoded::Frame(
                                ValueModel::BulkString(rest.subrange(0, n)),
                                header + n + 2,
                            )
                        } else {
                            SpecDecoded::Fail(ProtocolError::ExpectedCrlf)
                        }
                    }
                },
                None => SpecDecoded::Fail(ProtocolError::NotAnInteger),
            },
            None => SpecDecoded::Incomplete,
        }
    } else if s[0] == 42 {
        match spec_find_crlf(s.skip(1)) {
            Some(cr) => match spec_parse_i64(s.subrange(1, 1 + cr)) {
                Some(n) => {
                    let header = cr + 3;
                    // As for bulk strings: -1 alone is the null
                    // sentinel, and the bounds on `header` never fire.
                    if n == -1 {
                        SpecDecoded::Frame(ValueModel::NullArray, header)
                    } else if n < 0 || header < 3 || header > s.len() {
                        SpecDecoded::Fail(ProtocolError::NotAnInteger)
                    } else {
                        match spec_parse_list(s.skip(header), n as nat) {
                            SpecListDecoded::Done(items, used) => SpecDecoded::Frame(
                                ValueModel::Array(items),
                                header + used,
                            ),
                            SpecListDecoded::NeedMore(k) => SpecDecoded::NeedMore(k),
                            SpecListDecoded::Incomplete => SpecDecoded::Incomplete,
                            SpecListDecoded::Fail(e) => SpecDecoded::Fail(e),
                        }
                    }
                },
                None => SpecDecoded::Fail(ProtocolError::NotAnInteger),
            },
            None => SpecDecoded::Incomplete,
        }
    } else {
        SpecDecoded::Fail(ProtocolError::UnknownType)
    }
}

/// Spec-level decoding of `n` consecutive frames from the front of `s`.
pub open spec fn spec_parse_list(s: Seq<u8>, n: nat) -> SpecListDecoded
    decreases s.len(), 1int,
{
    if n == 0 {
        SpecListDecoded::Done(Seq::empty(), 0)
    } else {
        match spec_parse(s) {
            SpecDecoded::Frame(v, off) => {
                // A frame occupies at least three bytes and ends inside
                // the buffer, so this guard never fires; it keeps the
                // recursion well-founded.
                if off < 1 || off > s.len() {
                    SpecListDecoded::Fail(ProtocolError::UnknownType)
                } else {
                    match spec_parse_list(s.skip(off), (n - 1) as nat) {
                        SpecListDecoded::Done(items, used) => SpecListDecoded::Done(
                            seq![v] + items,
                            off + used,
                        ),
                        SpecListDecoded::NeedMore(k) => SpecListDecoded::NeedMore(k),
                        SpecListDecoded::Incomplete => SpecListDecoded::Incomplete,
                        SpecListDecoded::Fail(e) => SpecListDecoded::Fail(e),
                    }
                }
            },
            SpecDecoded::NeedMore(k) => SpecListDecoded::NeedMore(k),
            SpecDecoded::Incomplete => SpecListDecoded::Incomplete,
            SpecDecoded::Fail(e) => SpecListDecoded::Fail(e),
        }
    }
}

/// Outcome of decoding a run of frames.
pub enum ListDecoded {
    Done(Vec<Value>, usize),
    NeedMore(u64),
    Incomplete,
}

pub open spec fn list_model(r: Result<ListDecoded, ProtocolError>) -> SpecListDecoded {
    match r {
        Ok(ListDecoded::Done(items, used)) => SpecListDecoded::Done(
            value_models(items@),
            used as int,
        ),
        Ok(ListDecoded::NeedMore(k)) => SpecListDecoded::NeedMore(k as int),
        Ok(ListDecoded::Incomplete) => SpecListDecoded::Incomplete,
        Err(e) => SpecListDecoded::Fail(e),
    }
}

/// Decode one frame from the front of `src`.
///
/// On `Frame`, the reported offset is the exact number of leading bytes
/// the frame occupies; nothing is consumed in the other outcomes.
pub fn parse(src: &[u8]) -> (r: Result<Decoded, ProtocolError>)
    ensures
        decoded_model(r) == spec_parse(src@),
        r matches Ok(Decoded::Frame(v, off)) ==> 3 <= off <= src@.len(),
    decreases src@.len(), 0int,
{
    if src.len() == 0 {
        return Ok(Decoded::NeedMore(1));
    }
    let tag = *slice_index_get(src, 0);
    let tail = slice_subrange(src, 1, src.len());
    if tag == 43 || tag == 45 {
        match find_next_crlf(tail) {
            None => Ok(Decoded::Incomplete),
            Some(cr) => {
                proof {
                    lemma_find_crlf(tail@);
                }
                let bytes = slice_to_vec(slice_subrange(src, 1, 1 + cr));
                let v = if tag == 43 {
                    Value::SimpleString(bytes)
                } else {
                    Value::Error(RedisError { message: bytes })
                };
                Ok(Decoded::Frame(v, cr + 3))
            },
        }
    } else if tag == 58 {
        match find_next_crlf(tail) {
            None => Ok(Decoded::Incomplete),
            Some(cr) => {
                proof {
                    lemma_find_crlf(tail@);
                }
                match parse_i64(slice_subrange(src, 1, 1 + cr)) {
                    None => Err(ProtocolError::NotAnInteger),
                    Some(n) => Ok(Decoded::Frame(Value::Integer(n), cr + 3)),
                }
            },
        }
    } else if tag == 36 {
        match find_next_crlf(tail) {
            None => Ok(Decoded::Incomplete),
            Some(cr) => {
                proof {
                    lemma_find_crlf(tail@);
                }
                match parse_i64(slice_subrange(src, 1, 1 + cr)) {
                    None => Err(ProtocolError::NotAnInteger),
                    Some(n) => {
                        let header = cr + 3;
                        if n == -1 {
                            Ok(Decoded::Frame(Value::NullString, header))
                        } else if n < 0 {
                            Err(ProtocolError::NotAnInteger)
                        } else {
                            let rest_len = src.len() - header;
                            if (rest_len as u64) < (n as u64) + 2 {
                                Ok(Decoded::NeedMore((n as u64) + 2 - (rest_len as u64)))
                            } else {
                                let nn = n as usize;
                                let rest = slice_subrange(src, header, src.len());
                                if *slice_index_get(rest, nn) == 13 && *slice_index_get(
                                    rest,
                                    nn + 1,
                                ) == 10 {
                                    let payload = slice_to_vec(slice_subrange(rest, 0, nn));
                                    Ok(Decoded::Frame(Value::BulkString(payload), header + nn + 2))
                                } else {
                                    Err(ProtocolError::ExpectedCrlf)
                                }
                            }
                        }
                    },
                }
            },
        }
    } else if tag == 42 {
        match find_next_crlf(tail) {
            None => Ok(Decoded::Incomplete),
            Some(cr) => {
                proof {
                    lemma_find_crlf(tail@);
                }
                match parse_i64(slice_subrange(src, 1, 1 + cr)) {
                    None => Err(ProtocolError::NotAnInteger),
                    Some(n) => {
                        let header = cr + 3;
                        if n == -1 {
                            Ok(Decoded::Frame(Value::NullArray, header))
                        } else if n < 0 {
                            Err(ProtocolError::NotAnInteger)
                        } else {
                            let body = slice_subrange(src, header, src.len());
                            match parse_list(body, n as u64) {
                                Ok(ListDecoded::Done(items, used)) => Ok(
                                    Decoded::Frame(Value::Array(items), header + used),
                                ),
                                Ok(ListDecoded::NeedMore(k)) => Ok(Decoded::NeedMore(k)),
                                Ok(ListDecoded::Incomplete) => Ok(Decoded::Incomplete),
                                Err(e) => Err(e),
                            }
                        }
                    },
                }
            },
        }
    } else {
        Err(ProtocolError::UnknownType)
    }
}

/// Decode `n` consecutive frames from the front of `src`.
fn parse_list(src: &[u8], n: u64) -> (r: Result<ListDecoded, ProtocolError>)
    ensures
        list_model(r) == spec_parse_list(src@, n as nat),
        r matches Ok(ListDecoded::Done(items, used)) ==> used <= src@.len(),
    decreases src@.len(), 1int,
{
    if n == 0 {
        let items: Vec<Value> = Vec::new();
        proof {
            assert(value_models(items@) =~= Seq::<ValueModel>::empty());
        }
        return Ok(ListDecoded::Done(items, 0));
    }
    match parse(src) {
        Ok(Decoded::Frame(v, off)) => {
            let rest = slice_subrange(src, off, src.len());
            match parse_list(rest, n - 1) {
                Ok(ListDecoded::Done(mut items, used)) => {
                    let ghost old_items = items@;
                    items.insert(0, v);
                    proof {
                        lemma_value_models_index(items@);
                        lemma_value_models_index(old_items);
                        assert(value_models(items@) =~= seq![v@] + value_models(old_items));
                    }
                    Ok(ListDecoded::Done(items, off + used))
                },
                Ok(ListDecoded::NeedMore(k)) => Ok(ListDecoded::NeedMore(k)),
                Ok(ListDecoded::Incomplete) => Ok(ListDecoded::Incomplete),
                Err(e) => Err(e),
            }
        },
        Ok(Decoded::NeedMore(k)) => Ok(ListDecoded::NeedMore(k)),
        Ok(Decoded::Incomplete) => Ok(ListDecoded::Incomplete),
        Err(e) => Err(e),
    }
}



/// Wire bytes of a value: the dual of the grammar. Bulk strings always
/// carry their byte length; the null string and null array are the two
/// five-byte literal sequences.
pub open spec fn spec_encode(v: ValueModel) -> Seq<u8>
    decreases v,
{
    match v {
        ValueModel::SimpleString(s) => seq![43u8] + s + seq![13u8, 10u8],
        ValueModel::Error(s) => seq![45u8] + s + seq![13u8, 10u8],
        ValueModel::Integer(i) => seq![58u8] + dec_int(i) + seq![13u8, 10u8],
        ValueModel::BulkString(s) => seq![36u8] + dec_int(s.len() as int) + seq![13u8, 10u8] + s
            + seq![13u8, 10u8],
        ValueModel::Array(items) => seq![42u8] + dec_int(items.len() as int) + seq![13u8, 10u8]
            + spec_encode_list(items),
        ValueModel::NullString => seq![36u8, 45u8, 49u8, 13u8, 10u8],
        ValueModel::NullArray => seq![42u8, 45u8, 49u8, 13u8, 10u8],
    }
}

/// Wire bytes of a run of values, one after the other.
pub open spec fn spec_encode_list(items: Seq<ValueModel>) -> Seq<u8>
    decreases items,
{
    if items.len() == 0 {
        Seq::empty()
    } else {
        spec_encode(items[0]) + spec_encode_list(items.drop_first())
    }
}

/// Encoding a concatenation encodes the parts in order.
pub proof fn lemma_encode_list_concat(a: Seq<ValueModel>, b: Seq<ValueModel>)
    ensures
        spec_encode_list(a + b) == spec_encode_list(a) + spec_encode_list(b),
    decreases a.len(),
{
    if a.len() == 0 {
        assert(a + b =~= b);
        assert(spec_encode_list(a) + spec_encode_list(b) =~= spec_encode_list(b));
    } else {
        assert((a + b).drop_first() =~= a.drop_first() + b);
        lemma_encode_list_concat(a.drop_first(), b);
        assert(spec_encode_list(a + b) =~= spec_encode_list(a) + spec_encode_list(b));
    }
}

/// Relies on itoa::Buffer::format: it writes the decimal notation of a
/// signed integer, a minus sign first when it is negative.
#[verifier::external_body]
fn itoa_i64(n: i64) -> (r: Vec<u8>)
    ensures
        r@ == dec_int(n as int),
{
    let mut buffer = itoa::Buffer::new();
    Vec::from(buffer.format(n).as_bytes())
}

/// Relies on itoa::Buffer::format, as `itoa_i64` does, here for the
/// nonnegative lengths of payloads.
#[verifier::external_body]
fn itoa_usize(n: usize) -> (r: Vec<u8>)
    ensures
        r@ == dec_int(n as int),
{
    let mut buffer = itoa::Buffer::new();
    Vec::from(buffer.format(n).as_bytes())
}

/// Append every byte of `s` to `dst`.
fn push_all(dst: &mut Vec<u8>, s: &[u8])
    ensures
        final(dst)@ == old(dst)@ + s@,
{
    let mut i: usize = 0;
    while i < s.len()
        invariant
            i <= s@.len(),
            dst@ =~= old(dst)@ + s@.subrange(0, i as int),
        decreases s@.len() - i,
    {
        dst.push(*slice_index_get(s, i));
        i = i + 1;
        proof {
            assert(dst@ =~= old(dst)@ + s@.subrange(0, i as int));
        }
    }
    proof {
        assert(s@.subrange(0, s@.len() as int) =~= s@);
    }
}

/// Append the wire bytes of `item` to `dst`.
#[verifier::loop_isolation(false)]
pub fn encode_value(item: &Value, dst: &mut Vec<u8>)
    ensures
        final(dst)@ == old(dst)@ + spec_encode(item@),
    decreases item,
{
    match item {
        Value::SimpleString(s) => {
            dst.push(43);
            push_all(dst, s.as_slice());
            dst.push(13);
            dst.push(10);
            proof {
                assert(dst@ =~= old(dst)@ + spec_encode(item@));
            }
        },
        Value::Error(e) => {
            dst.push(45);
            push_all(dst, e.message.as_slice());
            dst.push(13);
            dst.push(10);
            proof {
                assert(dst@ =~= old(dst)@ + spec_encode(item@));
            }
        },
        Value::Integer(i) => {
            dst.push(58);
            let digits = itoa_i64(*i);
            push_all(dst, digits.as_slice());
            dst.push(13);
            dst.push(10);
            proof {
                assert(dst@ =~= old(dst)@ + spec_encode(item@));
            }
        },
        Value::BulkString(s) => {
            dst.push(36);
            let digits = itoa_usize(s.len());
            push_all(dst, digits.as_slice());
            dst.push(13);
            dst.push(10);
            push_all(dst, s.as_slice());
            dst.push(13);
            dst.push(10);
            proof {
                assert(dst@ =~= old(dst)@ + spec_encode(item@));
            }
        },
        Value::Array(items) => {
            dst.push(42);
            let digits = itoa_usize(items.len());
            push_all(dst, digits.as_slice());
            dst.push(13);
            dst.push(10);
            let ghost models = value_models(items@);
            let ghost head = dst@;
            proof {
                lemma_value_models_index(items@);
            }
            let mut i: usize = 0;
            while i < items.len()
                invariant
                    i <= items@.len(),
                    dst@ =~= head + spec_encode_list(models.subrange(0, i as int)),
                decreases items@.len() - i,
            {
                proof {
                    assert((*item)->Array_0 == *items);
                    assert(decreases_to!(*item => (*item)->Array_0));
                    assert(decreases_to!(*items => items@));
                    assert(decreases_to!(items@ => items@[i as int]));
                    assert(decreases_to!(*item => items@[i as int]));
                }
                encode_value(&items[i], dst);
                proof {
                    let pre = models.subrange(0, i as int);
                    let post = models.subrange(0, i + 1);
                    assert(post =~= pre + seq![models[i as int]]);
                    lemma_encode_list_concat(pre, seq![models[i as int]]);
                    let single = seq![models[i as int]];
                    assert(single.drop_first() =~= Seq::<ValueModel>::empty());
                    assert(spec_encode_list(single) == spec_encode(models[i as int])
                        + spec_encode_list(Seq::<ValueModel>::empty()));
                    assert(spec_encode_list(single) =~= spec_encode(models[i as int]));
                    assert(models[i as int] == items@[i as int]@);
                }
                i = i + 1;
            }
            proof {
                assert(models.subrange(0, models.len() as int) =~= models);
                assert(dst@ =~= old(dst)@ + spec_encode(item@));
            }
        },
        Value::NullString => {
            dst.push(36);
            dst.push(45);
            dst.push(49);
            dst.push(13);
            dst.push(10);
            proof {
                assert(dst@ =~= old(dst)@ + spec_encode(item@));
            }
        },
        Value::NullArray => {
            dst.push(42);
            dst.push(45);
            dst.push(49);
            dst.push(13);
            dst.push(10);
            proof {
                assert(dst@ =~= old(dst)@ + spec_encode(item@));
            }
        },
    }
}



/// No byte of `s` is CR or LF.
pub open spec fn no_crlf(s: Seq<u8>) -> bool {
    forall|i: int| 0 <= i < s.len() ==> #[trigger] s[i] != 13 && s[i] != 10
}

/// A value the encoder and the decoder agree on: inline payloads carry
/// no line terminator, integers fit the wire integer type, and lengths
/// fit the wire length header.
pub open spec fn value_ok(v: ValueModel) -> bool
    decreases v,
{
    match v {
        ValueModel::SimpleString(s) => no_crlf(s),
        ValueModel::Error(s) => no_crlf(s),
        ValueModel::Integer(i) => i64::MIN <= i <= i64::MAX,
        ValueModel::BulkString(s) => s.len() <= i64::MAX,
        ValueModel::Array(items) => items.len() <= i64::MAX && forall|i: int|
            0 <= i < items.len() ==> value_ok(#[trigger] items[i]),
        ValueModel::NullString => true,
        ValueModel::NullArray => true,
    }
}

/// Digits of a number are decimal digit bytes, at least one of them,
/// and they read back to the number.
pub proof fn lemma_dec_digits(n: nat)
    ensures
        all_digits(dec_digits(n)),
        dec_digits(n).len() >= 1,
        digits_val(dec_digits(n)) == n,
    decreases n,
{
    if n < 10 {
        let d = seq![(48 + n) as u8];
        assert(dec_digits(n) == d);
        assert(d.drop_last() =~= Seq::<u8>::empty());
        assert(digits_val(d.drop_last()) == 0);
        assert(d.last() == 48 + n);
        assert(digits_val(d) == n);
    } else {
        lemma_dec_digits(n / 10);
        let last = (48 + n % 10) as u8;
        let d = dec_digits(n / 10).push(last);
        assert(dec_digits(n) == d);
        assert(d.drop_last() =~= dec_digits(n / 10));
        assert(d.last() == last);
        assert(n % 10 < 10);
        assert(last == 48 + n % 10);
        assert(all_digits(d));
        assert(digits_val(d) == digits_val(d.drop_last()) * 10 + (last - 48));
        assert(n == (n / 10) * 10 + n % 10) by (nonlinear_arith);
        assert(digits_val(d) == n);
    }
}

/// The decimal notation of an integer is a strict integer that reads
/// back to it, and contains no line terminator.
pub proof fn lemma_dec_int(i: int)
    ensures
        is_strict_int(dec_int(i)),
        strict_int_val(dec_int(i)) == i,
        dec_int(i).len() >= 1,
        no_crlf(dec_int(i)),
{
    if i < 0 {
        lemma_dec_digits((-i) as nat);
        let d = dec_int(i);
        assert(d[0] == 45);
        assert(d.skip(1) =~= dec_digits((-i) as nat));
        assert(no_crlf(d));
    } else {
        lemma_dec_digits(i as nat);
        let d = dec_int(i);
        assert(all_digits(d));
        assert(d[0] != 45);
        assert(no_crlf(d));
    }
}

/// A CRLF at position `k` with none before it is the first one.
pub proof fn lemma_find_crlf_at(t: Seq<u8>, k: int)
    requires
        0 <= k,
        k + 1 < t.len(),
        t[k] == 13,
        t[k + 1] == 10,
        forall|j: int| 0 <= j < k ==> !(#[trigger] t[j] == 13 && t[j + 1] == 10),
    ensures
        spec_find_crlf(t) == Some(k),
{
    lemma_find_crlf(t);
    match spec_find_crlf(t) {
        Some(m) => {
            if m < k {
                assert(!(t[m] == 13 && t[m + 1] == 10));
            }
            if m > k {
                assert(!(t[k] == 13 && t[k + 1] == 10));
            }
        },
        None => {
            assert(!(t[k] == 13 && t[k + 1] == 10));
        },
    }
}

/// Law: decoding an encoded frame answers the same value and consumes
/// exactly the encoded bytes, whatever follows them in the buffer.
#[verifier::rlimit(100)]
pub proof fn lemma_decode_encode(v: ValueModel, rest: Seq<u8>)
    requires
        value_ok(v),
    ensures
        spec_parse(spec_encode(v) + rest) == SpecDecoded::Frame(v, spec_encode(v).len() as int),
    decreases v,
{
    let e = spec_encode(v);
    let s = e + rest;
    match v {
        ValueModel::SimpleString(p) => {
            let t = s.skip(1);
            assert(t =~= p + seq![13u8, 10u8] + rest);
            assert forall|j: int| 0 <= j < p.len() implies !(#[trigger] t[j] == 13 && t[j + 1]
                == 10) by {
                if j < p.len() {
                    assert(t[j] == p[j]);
                }
            }
            lemma_find_crlf_at(t, p.len() as int);
            assert(s.subrange(1, 1 + p.len() as int) =~= p);
        },
        ValueModel::Error(p) => {
            let t = s.skip(1);
            assert(t =~= p + seq![13u8, 10u8] + rest);
            assert forall|j: int| 0 <= j < p.len() implies !(#[trigger] t[j] == 13 && t[j + 1]
                == 10) by {
                if j < p.len() {
                    assert(t[j] == p[j]);
                }
            }
            lemma_find_crlf_at(t, p.len() as int);
            assert(s.subrange(1, 1 + p.len() as int) =~= p);
            assert(s[0] == 45);
            assert(spec_parse(s) == SpecDecoded::Frame(v, e.len() as int));
        },
        ValueModel::Integer(i) => {
            lemma_dec_int(i);
            let d = dec_int(i);
            let t = s.skip(1);
            assert(t =~= d + seq![13u8, 10u8] + rest);
            assert forall|j: int| 0 <= j < d.len() implies !(#[trigger] t[j] == 13 && t[j + 1]
                == 10) by {
                if j < d.len() {
                    assert(t[j] == d[j]);
                }
            }
            lemma_find_crlf_at(t, d.len() as int);
            assert(s.subrange(1, 1 + d.len() as int) =~= d);
            assert(spec_parse_i64(d) == Some(i));
            assert(s[0] == 58);
        },
        ValueModel::BulkString(p) => {
            let d = dec_int(p.len() as int);
            lemma_dec_int(p.len() as int);
            let t = s.skip(1);
            assert(t =~= d + seq![13u8, 10u8] + p + seq![13u8, 10u8] + rest);
            assert forall|j: int| 0 <= j < d.len() implies !(#[trigger] t[j] == 13 && t[j + 1]
                == 10) by {
                if j < d.len() {
                    assert(t[j] == d[j]);
                }
            }
            lemma_find_crlf_at(t, d.len() as int);
            assert(s.subrange(1, 1 + d.len() as int) =~= d);
            assert(spec_parse_i64(d) == Some(p.len() as int));
            let header = d.len() + 3;
            let tail = s.skip(header as int);
            assert(tail =~= p + seq![13u8, 10u8] + rest);
            assert(tail[p.len() as int] == 13);
            assert(tail[p.len() as int + 1] == 10);
            assert(tail.subrange(0, p.len() as int) =~= p);
        },
        ValueModel::Array(items) => {
            let d = dec_int(items.len() as int);
            lemma_dec_int(items.len() as int);
            let t = s.skip(1);
            assert(t =~= d + seq![13u8, 10u8] + spec_encode_list(items) + rest);
            assert forall|j: int| 0 <= j < d.len() implies !(#[trigger] t[j] == 13 && t[j + 1]
                == 10) by {
                if j < d.len() {
                    assert(t[j] == d[j]);
                }
            }
            lemma_find_crlf_at(t, d.len() as int);
            assert(s.subrange(1, 1 + d.len() as int) =~= d);
            assert(spec_parse_i64(d) == Some(items.len() as int));
            let header = d.len() + 3;
            let tail = s.skip(header as int);
            assert(tail =~= spec_encode_list(items) + rest);
            lemma_decode_encode_list(items, rest);
            assert(spec_parse_list(tail, items.len()) == SpecListDecoded::Done(
                items,
                spec_encode_list(items).len() as int,
            ));
            assert(spec_parse(s) == SpecDecoded::Frame(v, e.len() as int));
        },
        ValueModel::NullString => {
            let t = s.skip(1);
            assert(t =~= seq![45u8, 49u8, 13u8, 10u8] + rest);
            lemma_find_crlf_at(t, 2);
            let d = s.subrange(1, 3);
            assert(d =~= seq![45u8, 49u8]);
            assert(d.skip(1) =~= seq![49u8]);
            let one = seq![49u8];
            assert(one.drop_last() =~= Seq::<u8>::empty());
            assert(digits_val(one.drop_last()) == 0);
            assert(digits_val(one) == 1);
            assert(spec_parse_i64(d) == Some(-1int));
        },
        ValueModel::NullArray => {
            let t = s.skip(1);
            assert(t =~= seq![45u8, 49u8, 13u8, 10u8] + rest);
            lemma_find_crlf_at(t, 2);
            let d = s.subrange(1, 3);
            assert(d =~= seq![45u8, 49u8]);
            assert(d.skip(1) =~= seq![49u8]);
            let one = seq![49u8];
            assert(one.drop_last() =~= Seq::<u8>::empty());
            assert(digits_val(one.drop_last()) == 0);
            assert(digits_val(one) == 1);
            assert(spec_parse_i64(d) == Some(-1int));
        },
    }
}

/// Law: decoding the concatenation of `items.len()` encoded frames
/// answers the same items and consumes exactly their bytes.
pub proof fn lemma_decode_encode_list(items: Seq<ValueModel>, rest: Seq<u8>)
    requires
        forall|i: int| 0 <= i < items.len() ==> value_ok(#[trigger] items[i]),
    ensures
        spec_parse_list(spec_encode_list(items) + rest, items.len()) == SpecListDecoded::Done(
            items,
            spec_encode_list(items).len() as int,
        ),
    decreases items,
{
    let el = spec_encode_list(items);
    let s = el + rest;
    if items.len() == 0 {
        assert(items =~= Seq::<ValueModel>::empty());
    } else {
        let head = items[0];
        let e0 = spec_encode(head);
        let dtail = spec_encode_list(items.drop_first());
        assert(s =~= e0 + (dtail + rest));
        lemma_decode_encode(head, dtail + rest);
        assert(spec_parse(s) == SpecDecoded::Frame(head, e0.len() as int));
        lemma_encode_len(head);
        assert(s.skip(e0.len() as int) =~= dtail + rest);
        lemma_decode_encode_list(items.drop_first(), rest);
        assert(seq![head] + items.drop_first() =~= items);
    }
}

/// Every encoded frame occupies at least three bytes.
pub proof fn lemma_encode_len(v: ValueModel)
    ensures
        spec_encode(v).len() >= 3,
{
    match v {
        ValueModel::SimpleString(_) => {
        },
        ValueModel::Error(_) => {
        },
        ValueModel::Integer(i) => {
            lemma_dec_int(i);
        },
        ValueModel::BulkString(s) => {
            lemma_dec_int(s.len() as int);
        },
        ValueModel::Array(items) => {
            lemma_dec_int(items.len() as int);
        },
        ValueModel::NullString => {
        },
        ValueModel::NullArray => {
        },
    }
}



/// The RESP protocol engine over plain byte buffers.
pub struct RedisProtocol;

impl RedisProtocol {
    /// Decode one frame from the front of `src`: on success the frame's
    /// bytes are consumed and the value answered; on a partial frame
    /// nothing is consumed and `None` answered; on a protocol violation
    /// the error is answered and nothing consumed.
    pub fn decode(src: &mut Vec<u8>) -> (r: Result<Option<Value>, Error>)
        ensures
            match spec_parse(old(src)@) {
                SpecDecoded::Frame(v, off) => r matches Ok(Some(val)) && val@ == v && final(src)@
                    == old(src)@.skip(off),
                SpecDecoded::NeedMore(_) => r matches Ok(None) && final(src)@ == old(src)@,
                SpecDecoded::Incomplete => r matches Ok(None) && final(src)@ == old(src)@,
                SpecDecoded::Fail(e) => r matches Err(er) && er@ == Some(e) && final(src)@ == old(
                    src,
                )@,
            },
    {
        match parse(src.as_slice()) {
            Ok(Decoded::Frame(value, offset)) => {
                let rest = slice_to_vec(slice_subrange(src.as_slice(), offset, src.len()));
                *src = rest;
                Ok(Some(value))
            },
            Ok(Decoded::NeedMore(_)) => Ok(None),
            Ok(Decoded::Incomplete) => Ok(None),
            Err(e) => Err(Error::ProtocolError(e)),
        }
    }

    /// Append the wire bytes of `item` to `dst`.
    pub fn encode(item: &Value, dst: &mut Vec<u8>)
        ensures
            final(dst)@ == old(dst)@ + spec_encode(item@),
    {
        encode_value(item, dst)
    }
}



/// A buffer that ends inside the terminator of a CRLF-free text holds
/// no CRLF at all.
proof fn lemma_find_crlf_prefix_none(x: Seq<u8>, t: Seq<u8>)
    requires
        no_crlf(x),
        t.len() <= x.len() + 1,
        forall|j: int| 0 <= j < t.len() ==> #[trigger] t[j] == (if j < x.len() {
            x[j]
        } else {
            13u8
        }),
    ensures
        spec_find_crlf(t) is None,
{
    lemma_find_crlf(t);
    match spec_find_crlf(t) {
        Some(i) => {
            assert(i + 1 < t.len());
            assert(i < x.len());
            assert(t[i] == x[i]);
            assert(false);
        },
        None => {},
    }
}

/// Law: a strict prefix of an encoded frame decodes to a
/// more-bytes-needed outcome and consumes nothing.
pub proof fn lemma_decode_prefix(v: ValueModel, k: int)
    requires
        value_ok(v),
        0 <= k < spec_encode(v).len(),
    ensures
        spec_parse(spec_encode(v).take(k)) is NeedMore || spec_parse(spec_encode(v).take(k))
            is Incomplete,
    decreases v, 0int,
{
    let e = spec_encode(v);
    let p = e.take(k);
    if k == 0 {
        assert(spec_parse(p) == SpecDecoded::NeedMore(1));
    } else {
        match v {
            ValueModel::SimpleString(s) => {
                assert(p[0] == 43);
                assert(p.skip(1).len() <= s.len() + 1);
                assert forall|j: int| 0 <= j < p.skip(1).len() implies #[trigger] p.skip(1)[j]
                    == (if j < s.len() {
                    s[j]
                } else {
                    13u8
                }) by {
                    assert(p.skip(1)[j] == e[j + 1]);
                }
                lemma_find_crlf_prefix_none(s, p.skip(1));
            },
            ValueModel::Error(s) => {
                assert(p[0] == 45);
                assert(p.skip(1).len() <= s.len() + 1);
                assert forall|j: int| 0 <= j < p.skip(1).len() implies #[trigger] p.skip(1)[j]
                    == (if j < s.len() {
                    s[j]
                } else {
                    13u8
                }) by {
                    assert(p.skip(1)[j] == e[j + 1]);
                }
                lemma_find_crlf_prefix_none(s, p.skip(1));
            },
            ValueModel::Integer(i) => {
                lemma_dec_int(i);
                let d = dec_int(i);
                assert(p[0] == 58);
                assert(p.skip(1).len() <= d.len() + 1);
                assert forall|j: int| 0 <= j < p.skip(1).len() implies #[trigger] p.skip(1)[j]
                    == (if j < d.len() {
                    d[j]
                } else {
                    13u8
                }) by {
                    assert(p.skip(1)[j] == e[j + 1]);
                }
                lemma_find_crlf_prefix_none(d, p.skip(1));
            },
            ValueModel::NullString => {
                let d = seq![45u8, 49u8];
                assert(p[0] == 36);
                assert(p.skip(1).len() <= d.len() + 1);
                assert forall|j: int| 0 <= j < p.skip(1).len() implies #[trigger] p.skip(1)[j]
                    == (if j < d.len() {
                    d[j]
                } else {
                    13u8
                }) by {
                    assert(p.skip(1)[j] == e[j + 1]);
                }
                lemma_find_crlf_prefix_none(d, p.skip(1));
            },
            ValueModel::NullArray => {
                let d = seq![45u8, 49u8];
                assert(p[0] == 42);
                assert(p.skip(1).len() <= d.len() + 1);
                assert forall|j: int| 0 <= j < p.skip(1).len() implies #[trigger] p.skip(1)[j]
                    == (if j < d.len() {
                    d[j]
                } else {
                    13u8
                }) by {
                    assert(p.skip(1)[j] == e[j + 1]);
                }
                lemma_find_crlf_prefix_none(d, p.skip(1));
            },
            ValueModel::BulkString(s) => {
                lemma_dec_int(s.len() as int);
                let d = dec_int(s.len() as int);
                assert(p[0] == 36);
                if k < 1 + d.len() + 2 {
                    assert(p.skip(1).len() <= d.len() + 1);
                    assert forall|j: int| 0 <= j < p.skip(1).len() implies #[trigger] p.skip(1)[j]
                        == (if j < d.len() {
                        d[j]
                    } else {
                        13u8
                    }) by {
                        assert(p.skip(1)[j] == e[j + 1]);
                    }
                    lemma_find_crlf_prefix_none(d, p.skip(1));
                } else {
                    let t = p.skip(1);
                    assert forall|j: int| 0 <= j < d.len() implies !(#[trigger] t[j] == 13 && t[j
                        + 1] == 10) by {
                        assert(t[j] == e[j + 1] && e[j + 1] == d[j]);
                    }
                    assert(t[d.len() as int] == 13 && t[d.len() as int + 1] == 10);
                    lemma_find_crlf_at(t, d.len() as int);
                    assert(p.subrange(1, 1 + d.len() as int) =~= d);
                    assert(spec_parse_i64(d) == Some(s.len() as int));
                    let header = d.len() + 3;
                    let rest = p.skip(header as int);
                    assert(rest.len() == k - header);
                    assert(rest.len() < s.len() + 2);
                }
            },
            ValueModel::Array(items) => {
                lemma_dec_int(items.len() as int);
                let d = dec_int(items.len() as int);
                assert(p[0] == 42);
                if k < 1 + d.len() + 2 {
                    assert(p.skip(1).len() <= d.len() + 1);
                    assert forall|j: int| 0 <= j < p.skip(1).len() implies #[trigger] p.skip(1)[j]
                        == (if j < d.len() {
                        d[j]
                    } else {
                        13u8
                    }) by {
                        assert(p.skip(1)[j] == e[j + 1]);
                    }
                    lemma_find_crlf_prefix_none(d, p.skip(1));
                } else {
                    let t = p.skip(1);
                    assert forall|j: int| 0 <= j < d.len() implies !(#[trigger] t[j] == 13 && t[j
                        + 1] == 10) by {
                        assert(t[j] == e[j + 1] && e[j + 1] == d[j]);
                    }
                    assert(t[d.len() as int] == 13 && t[d.len() as int + 1] == 10);
                    lemma_find_crlf_at(t, d.len() as int);
                    assert(p.subrange(1, 1 + d.len() as int) =~= d);
                    assert(spec_parse_i64(d) == Some(items.len() as int));
                    let header = 1 + d.len() + 2;
                    let q = p.skip(header as int);
                    assert(q =~= spec_encode_list(items).take(k - header));
                    lemma_parse_list_prefix(items, k - header);
                }
            },
        }
    }
}

/// Law: a strict prefix of a run of encoded frames decodes to a
/// more-bytes-needed outcome.
pub proof fn lemma_parse_list_prefix(items: Seq<ValueModel>, k: int)
    requires
        forall|i: int| 0 <= i < items.len() ==> value_ok(#[trigger] items[i]),
        0 <= k < spec_encode_list(items).len(),
    ensures
        spec_parse_list(spec_encode_list(items).take(k), items.len()) is NeedMore
            || spec_parse_list(spec_encode_list(items).take(k), items.len()) is Incomplete,
    decreases items, 1int,
{
    let el = spec_encode_list(items);
    let q = el.take(k);
    assert(items.len() > 0);
    let head = items[0];
    let e0 = spec_encode(head);
    lemma_encode_len(head);
    if k < e0.len() {
        assert(q =~= e0.take(k));
        lemma_decode_prefix(head, k);
        assert(spec_parse_list(q, items.len()) is NeedMore || spec_parse_list(q, items.len())
            is Incomplete);
    } else {
        let rest_el = spec_encode_list(items.drop_first());
        assert(el =~= e0 + rest_el);
        let q2 = rest_el.take(k - e0.len());
        assert(q =~= e0 + q2);
        lemma_decode_encode(head, q2);
        assert(spec_parse(q) == SpecDecoded::Frame(head, e0.len() as int));
        assert(q.skip(e0.len() as int) =~= q2);
        if items.drop_first().len() == 0 {
            assert(rest_el =~= Seq::<u8>::empty());
            assert(false);
        } else {
            lemma_parse_list_prefix(items.drop_first(), k - e0.len());
        }
    }
}


} // verus!
