use resp_kv::codec::RedisProtocol;
use resp_kv::proto::{Error, ProtocolError, RedisError, Value};

fn decode_all(bytes: &[u8]) -> Value {
    let mut input: Vec<u8> = bytes.to_vec();
    let v = match RedisProtocol::decode(&mut input) {
        Ok(Some(v)) => v,
        other => panic!("expected a full frame, got {:?}", other),
    };
    assert!(input.is_empty(), "frame not fully consumed");
    v
}

fn encode_all(v: &Value) -> Vec<u8> {
    let mut out: Vec<u8> = Vec::new();
    RedisProtocol::encode(v, &mut out);
    out
}

#[test]
fn decode_works() {
    let test_data: &[&[u8]] = &[
        b"+OK\r\n",
        b"-Error message\r\n",
        b"-ERR unknown command 'helloworld'\r\n",
        b"-WRONGTYPE Operation against a key holding the wrong kind of value\r\n",
        b":0\r\n",
        b":1000\r\n",
        b"$5\r\nhello\r\n",
        b"$0\r\n\r\n",
        b"$-1\r\n",
        b"*0\r\n",
        b"*2\r\n$5\r\nhello\r\n$5\r\nworld\r\n",
        b"*3\r\n:1\r\n:2\r\n:3\r\n",
        b"*5\r\n:1\r\n:2\r\n:3\r\n:4\r\n$5\r\nhello\r\n",
        b"*-1\r\n",
        b"*2\r\n*3\r\n:1\r\n:2\r\n:3\r\n*2\r\n+Hello\r\n-World\r\n",
        b"*3\r\n$5\r\nhello\r\n$-1\r\n$5\r\nworld\r\n",
        b"*2\r\n$4\r\nLLEN\r\n$6\r\nmylist\r\n",
    ];

    for data in test_data {
        let mut input: Vec<u8> = data.to_vec();
        assert!(matches!(RedisProtocol::decode(&mut input), Ok(Some(_))));
    }
}

#[test]
fn fixture_simple_string() {
    assert_eq!(decode_all(b"+OK\r\n"), Value::SimpleString(b"OK".to_vec()));
}

#[test]
fn fixture_error() {
    assert_eq!(
        decode_all(b"-ERR unknown command 'helloworld'\r\n"),
        Value::Error(RedisError {
            message: b"ERR unknown command 'helloworld'".to_vec()
        })
    );
}

#[test]
fn fixture_integer() {
    assert_eq!(decode_all(b":1000\r\n"), Value::Integer(1000));
}

#[test]
fn fixture_bulk_string() {
    assert_eq!(decode_all(b"$5\r\nhello\r\n"), Value::BulkString(b"hello".to_vec()));
}

#[test]
fn fixture_empty_bulk_string() {
    assert_eq!(decode_all(b"$0\r\n\r\n"), Value::BulkString(Vec::new()));
}

#[test]
fn fixture_null_string() {
    assert_eq!(decode_all(b"$-1\r\n"), Value::NullString);
}

#[test]
fn fixture_empty_array() {
    assert_eq!(decode_all(b"*0\r\n"), Value::Array(Vec::new()));
}

#[test]
fn fixture_null_array() {
    assert_eq!(decode_all(b"*-1\r\n"), Value::NullArray);
}

#[test]
fn fixture_flat_array() {
    assert_eq!(
        decode_all(b"*2\r\n$5\r\nhello\r\n$5\r\nworld\r\n"),
        Value::Array(vec![
            Value::BulkString(b"hello".to_vec()),
            Value::BulkString(b"world".to_vec()),
        ])
    );
}

#[test]
fn fixture_nested_arrays() {
    assert_eq!(
        decode_all(b"*2\r\n*3\r\n:1\r\n:2\r\n:3\r\n*2\r\n+Hello\r\n-World\r\n"),
        Value::Array(vec![
            Value::Array(vec![Value::Integer(1), Value::Integer(2), Value::Integer(3)]),
            Value::Array(vec![
                Value::SimpleString(b"Hello".to_vec()),
                Value::Error(RedisError { message: b"World".to_vec() }),
            ]),
        ])
    );
}

#[test]
fn fixture_command_frame() {
    assert_eq!(
        decode_all(b"*2\r\n$4\r\nLLEN\r\n$6\r\nmylist\r\n"),
        Value::Array(vec![
            Value::BulkString(b"LLEN".to_vec()),
            Value::BulkString(b"mylist".to_vec()),
        ])
    );
}

#[test]
fn encode_integer_writes_digits() {
    assert_eq!(encode_all(&Value::Integer(1000)), b":1000\r\n".to_vec());
    assert_eq!(encode_all(&Value::Integer(-42)), b":-42\r\n".to_vec());
    assert_eq!(encode_all(&Value::Integer(0)), b":0\r\n".to_vec());
    assert_eq!(
        encode_all(&Value::Integer(i64::MIN)),
        b":-9223372036854775808\r\n".to_vec()
    );
}

#[test]
fn encode_bulk_string_lengths() {
    assert_eq!(
        encode_all(&Value::BulkString(b"hello".to_vec())),
        b"$5\r\nhello\r\n".to_vec()
    );
    assert_eq!(encode_all(&Value::BulkString(Vec::new())), b"$0\r\n\r\n".to_vec());
}

#[test]
fn encode_null_literals() {
    assert_eq!(encode_all(&Value::NullString), b"$-1\r\n".to_vec());
    assert_eq!(encode_all(&Value::NullArray), b"*-1\r\n".to_vec());
}

#[test]
fn encode_error_uses_minus_tag() {
    assert_eq!(
        encode_all(&Value::Error(RedisError { message: b"ERR x".to_vec() })),
        b"-ERR x\r\n".to_vec()
    );
}

#[test]
fn round_trip_nested() {
    let v = Value::Array(vec![
        Value::SimpleString(b"ping".to_vec()),
        Value::Array(vec![Value::Integer(7), Value::NullString]),
        Value::BulkString(b"with\r\nbinary\x00bytes".to_vec()),
    ]);
    let bytes = encode_all(&v);
    assert_eq!(decode_all(&bytes), v);
}

#[test]
fn partial_inputs_consume_nothing() {
    let frames: &[&[u8]] = &[b"+OK\r\n", b"$5\r\nhello\r\n", b"*2\r\n:1\r\n:2\r\n"];
    for f in frames {
        for cut in 0..f.len() - 1 {
            let mut input: Vec<u8> = f[..cut].to_vec();
            let before = input.clone();
            match RedisProtocol::decode(&mut input) {
                Ok(None) => {}
                other => panic!("prefix of len {} gave {:?}", cut, other),
            }
            assert_eq!(input, before, "partial frame must consume nothing");
        }
    }
}

#[test]
fn trailing_bytes_stay_in_buffer() {
    let mut input: Vec<u8> = b"+OK\r\n:12\r\n".to_vec();
    assert_eq!(
        RedisProtocol::decode(&mut input).unwrap().unwrap(),
        Value::SimpleString(b"OK".to_vec())
    );
    assert_eq!(input, b":12\r\n".to_vec());
    assert_eq!(
        RedisProtocol::decode(&mut input).unwrap().unwrap(),
        Value::Integer(12)
    );
    assert!(input.is_empty());
}

#[test]
fn unknown_tag_is_protocol_error() {
    let mut input: Vec<u8> = b"%bad\r\n".to_vec();
    assert!(matches!(
        RedisProtocol::decode(&mut input),
        Err(Error::ProtocolError(ProtocolError::UnknownType))
    ));
}

#[test]
fn bad_integer_is_protocol_error() {
    let mut input: Vec<u8> = b":12ab\r\n".to_vec();
    assert!(matches!(
        RedisProtocol::decode(&mut input),
        Err(Error::ProtocolError(ProtocolError::NotAnInteger))
    ));
    let mut input2: Vec<u8> = b":+5\r\n".to_vec();
    assert!(matches!(
        RedisProtocol::decode(&mut input2),
        Err(Error::ProtocolError(ProtocolError::NotAnInteger))
    ));
}

#[test]
fn bulk_without_terminator_is_protocol_error() {
    let mut input: Vec<u8> = b"$5\r\nhelloworld\r\n".to_vec();
    assert!(matches!(
        RedisProtocol::decode(&mut input),
        Err(Error::ProtocolError(ProtocolError::ExpectedCrlf))
    ));
}

#[test]
fn negative_length_is_protocol_error() {
    let mut input: Vec<u8> = b"$-2\r\n".to_vec();
    assert!(matches!(
        RedisProtocol::decode(&mut input),
        Err(Error::ProtocolError(ProtocolError::NotAnInteger))
    ));
}

#[test]
fn lone_cr_is_not_a_terminator() {
    let mut input: Vec<u8> = b"+OK\rmore".to_vec();
    assert!(matches!(RedisProtocol::decode(&mut input), Ok(None)));
    assert_eq!(input, b"+OK\rmore".to_vec());
}

#[test]
fn try_as_string_uppercases() {
    assert_eq!(
        Value::BulkString(b"get".to_vec()).try_as_string(),
        Some(b"GET".to_vec())
    );
    assert_eq!(
        Value::SimpleString(b"KeepTTL".to_vec()).try_as_string(),
        Some(b"KEEPTTL".to_vec())
    );
    assert_eq!(Value::Integer(3).try_as_string(), None);
}
