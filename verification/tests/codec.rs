//! The wire codec from the outside: parsing, serialization, and the
//! round-trip, prefix and length-bound behaviors.

use respkv::{parse, OutOfRangeType, ParseError, Value};

fn bytes(s: &[u8]) -> Vec<u8> {
    s.to_vec()
}

#[test]
fn parse_test_parse_nulls() {
    let input = b"$-1\r\n";
    let result = parse(input);
    assert_eq!(result, Ok(Value::Null));

    let input = b"*-1\r\n";
    let result = parse(input);
    assert_eq!(result, Ok(Value::NullArray));
}

#[test]
fn parse_test_parse_empty_array() {
    let input = b"*0\r\n";
    let result = parse(input);
    assert_eq!(result, Ok(Value::Array(vec![])));
}

#[test]
fn parse_test_parse_empty_string() {
    let input = b"$0\r\n\r\n";
    let result = parse(input);
    assert_eq!(result, Ok(Value::BulkString(bytes(b""))));
}

#[test]
fn parse_test_parse() {
    let input = b"+OK\r\n";
    let result = parse(input);
    assert_eq!(result, Ok(Value::SimpleString(bytes(b"OK"))));

    let input = b"$3\r\nfoo\r\n";
    let result = parse(input);
    assert_eq!(result, Ok(Value::BulkString(bytes(b"foo"))));

    let input = b"-ERROR\r\n";
    let result = parse(input);
    assert_eq!(result, Ok(Value::Error(bytes(b"ERROR"))));

    let input = b":123\r\n";
    let result = parse(input);
    assert_eq!(result, Ok(Value::Integer(123)));

    let input = b":-123\r\n";
    let result = parse(input);
    assert_eq!(result, Ok(Value::Integer(-123)));

    let input = b"*1\r\n:523\r\n";
    let result = parse(input);
    assert_eq!(result, Ok(Value::Array(vec![Value::Integer(523)])));

    let input = b"*4\r\n$4\r\nECHO\r\n$5\r\nHello\r\n$5\r\nWorld\r\n+Hello\r\n";
    let result = parse(input);
    assert_eq!(
        result,
        Ok(Value::Array(vec![
            Value::BulkString(bytes(b"ECHO")),
            Value::BulkString(bytes(b"Hello")),
            Value::BulkString(bytes(b"World")),
            Value::SimpleString(bytes(b"Hello")),
        ]))
    );
}

#[test]
fn parse_test_not_enough_data() {
    let input = b":123";
    let result = parse(input);
    assert_eq!(result, Err(ParseError::Incomplete));
}

#[test]
fn mod_test_parse_nulls() {
    assert_eq!(parse(b"$-1\r\n"), Ok(Value::Null));
    assert_eq!(parse(b"*-1\r\n"), Ok(Value::NullArray));
}

#[test]
fn mod_test_parse_empty_array() {
    assert_eq!(parse(b"*0\r\n"), Ok(Value::Array(vec![])));
}

#[test]
fn mod_test_parse_empty_string() {
    assert_eq!(parse(b"$0\r\n\r\n"), Ok(Value::BulkString(bytes(b""))));
}

#[test]
fn mod_test_parse() {
    assert_eq!(parse(b"+OK\r\n"), Ok(Value::SimpleString(bytes(b"OK"))));
    assert_eq!(parse(b"$3\r\nfoo\r\n"), Ok(Value::BulkString(bytes(b"foo"))));
    assert_eq!(parse(b"-ERROR\r\n"), Ok(Value::Error(bytes(b"ERROR"))));
    assert_eq!(parse(b":123\r\n"), Ok(Value::Integer(123)));
    assert_eq!(parse(b":-123\r\n"), Ok(Value::Integer(-123)));
    assert_eq!(
        parse(b"*1\r\n:523\r\n"),
        Ok(Value::Array(vec![Value::Integer(523)]))
    );
    assert_eq!(
        parse(b"*4\r\n$4\r\nECHO\r\n$5\r\nHello\r\n$5\r\nWorld\r\n+Hello\r\n"),
        Ok(Value::Array(vec![
            Value::BulkString(bytes(b"ECHO")),
            Value::BulkString(bytes(b"Hello")),
            Value::BulkString(bytes(b"World")),
            Value::SimpleString(bytes(b"Hello")),
        ]))
    );
}

#[test]
fn mod_test_not_enough_data() {
    assert_eq!(parse(b":123"), Err(ParseError::Incomplete));
}

#[test]
fn parser_test_parse_nulls() {
    assert_eq!(parse(b"$-1\r\n"), Ok(Value::Null));
    assert_eq!(parse(b"*-1\r\n"), Ok(Value::NullArray));
}

#[test]
fn parser_test_parse_empty_array() {
    assert_eq!(parse(b"*0\r\n"), Ok(Value::Array(vec![])));
}

#[test]
fn parser_test_parse_empty_string() {
    assert_eq!(parse(b"$0\r\n\r\n"), Ok(Value::BulkString(bytes(b""))));
}

#[test]
fn parser_test_parse() {
    assert_eq!(parse(b"+OK\r\n"), Ok(Value::SimpleString(bytes(b"OK"))));
    assert_eq!(parse(b"$3\r\nfoo\r\n"), Ok(Value::BulkString(bytes(b"foo"))));
    assert_eq!(parse(b"-ERROR\r\n"), Ok(Value::Error(bytes(b"ERROR"))));
    assert_eq!(parse(b":123\r\n"), Ok(Value::Integer(123)));
    assert_eq!(parse(b":-123\r\n"), Ok(Value::Integer(-123)));
    assert_eq!(
        parse(b"*1\r\n:523\r\n"),
        Ok(Value::Array(vec![Value::Integer(523)]))
    );
    assert_eq!(
        parse(b"*4\r\n$4\r\nECHO\r\n$5\r\nHello\r\n$5\r\nWorld\r\n+Hello\r\n"),
        Ok(Value::Array(vec![
            Value::BulkString(bytes(b"ECHO")),
            Value::BulkString(bytes(b"Hello")),
            Value::BulkString(bytes(b"World")),
            Value::SimpleString(bytes(b"Hello")),
        ]))
    );
}

#[test]
fn parser_test_not_enough_data() {
    assert_eq!(parse(b":123"), Err(ParseError::Incomplete));
}

#[test]
fn value_test_serialize() {
    let value = Value::Array(vec![
        Value::Null,
        Value::NullArray,
        Value::Integer(100),
        Value::BulkString(bytes(b"Hello World")),
        Value::SimpleString(bytes(b"Hello World")),
        Value::Error(bytes(b"SOME ERROR")),
    ]);

    let mut output = Vec::new();
    value.serialize(&mut output);
    let output = String::from_utf8(output).unwrap();

    assert_eq!(
        output.as_str(),
        "*6\r\n$-1\r\n*-1\r\n:100\r\n$11\r\nHello World\r\n+Hello World\r\n-SOME ERROR\r\n"
    );
}

#[test]
fn value_test_value_type() {
    assert_eq!(Value::Null.value_type(), "null");
    assert_eq!(Value::NullArray.value_type(), "null_array");
    assert_eq!(Value::SimpleString(bytes(b"a")).value_type(), "simple_string");
    assert_eq!(Value::Error(bytes(b"a")).value_type(), "error");
    assert_eq!(Value::Integer(1).value_type(), "integer");
    assert_eq!(Value::BulkString(bytes(b"a")).value_type(), "bulk_string");
    assert_eq!(Value::Array(vec![]).value_type(), "array");
}

#[test]
fn round_trip_parse_then_serialize() {
    let frames: Vec<&[u8]> = vec![
        b"$-1\r\n",
        b"*-1\r\n",
        b"+\r\n",
        b"+hi\r\n",
        b"+h\xc3\xa9\r\n",
        b"-oops\r\n",
        b"-caf\xc3\xa9\r\n",
        b":0\r\n",
        b":9223372036854775807\r\n",
        b":-9223372036854775808\r\n",
        b"$0\r\n\r\n",
        b"$3\r\na\rb\r\n",
        b"*0\r\n",
        b"*2\r\n*1\r\n:7\r\n$2\r\nok\r\n",
    ];
    for frame in frames {
        let value = parse(frame).unwrap();
        let mut out = Vec::new();
        value.serialize(&mut out);
        assert_eq!(out.as_slice(), frame);
    }
}

#[test]
fn round_trip_serialize_then_parse() {
    let values = vec![
        Value::Null,
        Value::NullArray,
        Value::SimpleString(bytes(b"PONG")),
        Value::Error(bytes(b"ERR x")),
        Value::Integer(-42),
        Value::BulkString(bytes(b"\x00\xffbinary\r\n ok")),
        Value::Array(vec![
            Value::Integer(1),
            Value::Array(vec![Value::BulkString(bytes(b"deep"))]),
        ]),
    ];
    for value in values {
        let mut out = Vec::new();
        let mut expected = Vec::new();
        value.serialize(&mut expected);
        // re-build the value by parsing, then serialize again
        let reparsed = parse(&expected).unwrap();
        reparsed.serialize(&mut out);
        assert_eq!(out, expected);
    }
    // and equality of the reparsed value itself
    let v = Value::Array(vec![Value::Integer(5), Value::BulkString(bytes(b"x"))]);
    let mut enc = Vec::new();
    Value::Array(vec![Value::Integer(5), Value::BulkString(bytes(b"x"))]).serialize(&mut enc);
    assert_eq!(parse(&enc), Ok(v));
}

#[test]
fn incomplete_on_every_strict_prefix() {
    let frames: Vec<&[u8]> = vec![
        b"*2\r\n$4\r\nECHO\r\n$5\r\nhello\r\n",
        b":-123\r\n",
        b"$-1\r\n",
        b"+hi\r\n",
    ];
    for frame in frames {
        for cut in 0..frame.len() {
            assert_eq!(parse(&frame[..cut]), Err(ParseError::Incomplete));
        }
        assert!(parse(frame).is_ok());
    }
}

#[test]
fn length_bounds_rejected() {
    assert_eq!(
        parse(b"$-2\r\n"),
        Err(ParseError::OutOfRange(OutOfRangeType::BulkString, -2))
    );
    assert_eq!(
        parse(b"*-5\r\n"),
        Err(ParseError::OutOfRange(OutOfRangeType::Array, -5))
    );
    assert_eq!(
        parse(b"$536870912\r\nx"),
        Err(ParseError::OutOfRange(OutOfRangeType::BulkString, 536870912))
    );
    assert_eq!(
        parse(b"*536870912\r\n"),
        Err(ParseError::OutOfRange(OutOfRangeType::Array, 536870912))
    );
    // -1 is the null sentinel, 0 the empty value: both accepted.
    assert_eq!(parse(b"$-1\r\n"), Ok(Value::Null));
    assert_eq!(parse(b"*-1\r\n"), Ok(Value::NullArray));
    assert_eq!(parse(b"$0\r\n\r\n"), Ok(Value::BulkString(vec![])));
    assert_eq!(parse(b"*0\r\n"), Ok(Value::Array(vec![])));
}

#[test]
fn text_frames_must_be_utf8() {
    // simple strings and error payloads are text: invalid UTF-8 is malformed
    assert_eq!(parse(b"+\xff\r\n"), Err(ParseError::Malformed));
    assert_eq!(parse(b"-\xc3\x28\r\n"), Err(ParseError::Malformed));
    // overlong encodings and surrogates are not UTF-8
    assert_eq!(parse(b"+\xc0\xaf\r\n"), Err(ParseError::Malformed));
    assert_eq!(parse(b"+\xed\xa0\x80\r\n"), Err(ParseError::Malformed));
    // a truncated sequence at the end of the content is malformed too
    assert_eq!(parse(b"+a\xc3\r\n"), Err(ParseError::Malformed));
    // well-formed multi-byte text is accepted
    assert_eq!(
        parse(b"+h\xc3\xa9\r\n"),
        Ok(Value::SimpleString(b"h\xc3\xa9".to_vec()))
    );
    assert_eq!(
        parse(b"+\xf0\x9f\x98\x80\r\n"),
        Ok(Value::SimpleString(b"\xf0\x9f\x98\x80".to_vec()))
    );
    // bulk strings are raw binary and carry no UTF-8 requirement
    assert_eq!(parse(b"$1\r\n\xff\r\n"), Ok(Value::BulkString(b"\xff".to_vec())));
}

#[test]
fn malformed_inputs_rejected() {
    // unknown tag byte
    assert_eq!(parse(b"x\r\n"), Err(ParseError::Malformed));
    // bare CR inside an integer
    assert_eq!(parse(b":12a3\r\n"), Err(ParseError::Malformed));
    // CR not followed by LF
    assert_eq!(parse(b"+hi\rX\r\n"), Err(ParseError::Malformed));
    // non-canonical integers are not accepted
    assert_eq!(parse(b":+5\r\n"), Err(ParseError::Malformed));
    assert_eq!(parse(b":007\r\n"), Err(ParseError::Malformed));
    assert_eq!(parse(b":-0\r\n"), Err(ParseError::Malformed));
    // out of i64 range
    assert_eq!(parse(b":9223372036854775808\r\n"), Err(ParseError::Malformed));
    assert_eq!(parse(b":-9223372036854775809\r\n"), Err(ParseError::Malformed));
    // trailing bytes after a complete frame
    assert_eq!(parse(b":1\r\nextra"), Err(ParseError::Malformed));
    // declared bulk length not matching the terminator
    assert_eq!(parse(b"$3\r\nfoox\r\n"), Err(ParseError::Malformed));
}
