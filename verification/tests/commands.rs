//! The command model from the outside: keyword lookup, the argument
//! cursor, and the typed commands it produces.

use respkv::{Command, CommandError, DatabaseValue, Expiration, Parser, Value, ValueError, Values};

fn bytes(s: &[u8]) -> Vec<u8> {
    s.to_vec()
}

#[test]
fn mod_test_parse_ping_command() {
    let mut parser = Parser::from_values(Values::new(vec![Value::SimpleString(bytes(b"PING"))]));

    let result = parser.command();

    assert!(result.is_ok());
    assert_eq!(result.unwrap(), Command::Ping);
}

#[test]
fn parser_test_parse_ping_command() {
    let mut parser = Parser::from_values(Values::new(vec![Value::SimpleString(bytes(b"PING"))]));
    let result = parser.command();
    assert!(result.is_ok());
    assert_eq!(result.unwrap(), Command::Ping);

    let mut parser = Parser::parse(b"*1\r\n+PING\r\n").unwrap();
    let result = parser.command();
    assert!(result.is_ok());
    assert_eq!(result.unwrap(), Command::Ping);

    let mut parser = Parser::parse(b"*1\r\n$4\r\nPING\r\n").unwrap();
    let result = parser.command();
    assert!(result.is_ok());
    assert_eq!(result.unwrap(), Command::Ping);
}

#[test]
fn keywords_are_case_insensitive() {
    let mut p = Parser::parse(b"*1\r\n$4\r\npInG\r\n").unwrap();
    assert_eq!(p.command(), Ok(Command::Ping));

    let mut p = Parser::parse(b"*1\r\n$7\r\nCoMmAnD\r\n").unwrap();
    assert_eq!(p.command(), Ok(Command::Command));

    let mut p = Parser::parse(b"*2\r\n$4\r\necho\r\n$2\r\nhi\r\n").unwrap();
    assert_eq!(p.command(), Ok(Command::Echo(bytes(b"hi"))));

    let mut p = Parser::parse(b"*2\r\n$3\r\nGeT\r\n$1\r\nk\r\n").unwrap();
    assert_eq!(p.command(), Ok(Command::Get(bytes(b"k"))));
}

#[test]
fn simple_string_ping_is_the_only_bare_command() {
    let mut p = Parser::parse(b"+PING\r\n").unwrap();
    assert_eq!(p.command(), Ok(Command::Ping));

    assert!(Parser::parse(b"+GET\r\n").is_err());
    assert!(Parser::parse(b":1\r\n").is_err());
    assert!(Parser::parse(b"*0\r\n").is_err());
}

#[test]
fn set_without_expiration() {
    let mut p = Parser::parse(b"*3\r\n$3\r\nSET\r\n$1\r\nk\r\n$1\r\nv\r\n").unwrap();
    assert_eq!(
        p.command(),
        Ok(Command::SetValue {
            key: bytes(b"k"),
            value: DatabaseValue::Bytes(bytes(b"v")),
            expiration: None,
        })
    );
}

#[test]
fn set_with_ex_and_px() {
    let mut p =
        Parser::parse(b"*5\r\n$3\r\nSET\r\n$1\r\nk\r\n$1\r\nv\r\n$2\r\nEX\r\n:7\r\n").unwrap();
    assert_eq!(
        p.command(),
        Ok(Command::SetValue {
            key: bytes(b"k"),
            value: DatabaseValue::Bytes(bytes(b"v")),
            expiration: Some(Expiration::Seconds(7)),
        })
    );

    let mut p =
        Parser::parse(b"*5\r\n$3\r\nSET\r\n$1\r\nk\r\n$1\r\nv\r\n$2\r\npx\r\n$3\r\n100\r\n")
            .unwrap();
    assert_eq!(
        p.command(),
        Ok(Command::SetValue {
            key: bytes(b"k"),
            value: DatabaseValue::Bytes(bytes(b"v")),
            expiration: Some(Expiration::Millis(100)),
        })
    );
}

#[test]
fn expiration_millis_conversion() {
    assert_eq!(Expiration::Seconds(2).as_millis(), 2000);
    assert_eq!(Expiration::Millis(7).as_millis(), 7);
    assert_eq!(Expiration::Seconds(u64::MAX).as_millis(), u64::MAX);
}

#[test]
fn cursor_take_operations() {
    let mut vs = Values::new(vec![
        Value::SimpleString(bytes(b"one")),
        Value::BulkString(bytes(b"two")),
        Value::Integer(31),
        Value::BulkString(bytes(b"42")),
    ]);
    assert!(vs.check_bounds());
    assert_eq!(vs.remaining(), 4);
    assert_eq!(vs.get_string(), Ok(bytes(b"one")));
    assert_eq!(vs.get_bytes(), Ok(bytes(b"two")));
    assert_eq!(vs.get_number(), Ok(31));
    assert_eq!(vs.get_number(), Ok(42));
    assert!(!vs.check_bounds());
    assert_eq!(vs.get_string(), Err(ValueError::OutOfBounds));
}

#[test]
fn cursor_type_mismatches() {
    let mut vs = Values::new(vec![Value::Integer(5)]);
    assert!(matches!(
        vs.get_string(),
        Err(ValueError::InvalidType(_))
    ));

    let mut vs = Values::new(vec![Value::SimpleString(bytes(b"s"))]);
    assert!(matches!(
        vs.get_bytes(),
        Err(ValueError::InvalidType(_))
    ));

    let mut vs = Values::new(vec![Value::BulkString(bytes(b"12x"))]);
    assert_eq!(vs.get_number(), Err(ValueError::InvalidNumber));

    let mut vs = Values::new(vec![Value::Array(vec![])]);
    assert!(matches!(
        vs.get_number(),
        Err(ValueError::InvalidType(_))
    ));
}

#[test]
fn cursor_number_accepts_std_integer_forms() {
    let mut vs = Values::new(vec![
        Value::BulkString(bytes(b"+12")),
        Value::BulkString(bytes(b"007")),
        Value::BulkString(bytes(b"-9223372036854775808")),
        Value::BulkString(bytes(b"9223372036854775807")),
        Value::BulkString(bytes(b"9223372036854775808")),
    ]);
    assert_eq!(vs.get_number(), Ok(12));
    assert_eq!(vs.get_number(), Ok(7));
    assert_eq!(vs.get_number(), Ok(i64::MIN));
    assert_eq!(vs.get_number(), Ok(i64::MAX));
    assert_eq!(vs.get_number(), Err(ValueError::InvalidNumber));
}

#[test]
fn command_errors() {
    // unknown keyword
    let mut p = Parser::parse(b"*1\r\n$3\r\nFOO\r\n").unwrap();
    assert_eq!(p.command(), Err(CommandError::NotExists));

    // echo arity
    let mut p = Parser::parse(b"*1\r\n$4\r\nECHO\r\n").unwrap();
    assert_eq!(p.command(), Err(CommandError::InvalidArguments));
    let mut p = Parser::parse(b"*3\r\n$4\r\nECHO\r\n$1\r\na\r\n$1\r\nb\r\n").unwrap();
    assert_eq!(p.command(), Err(CommandError::InvalidArguments));

    // get arity
    let mut p = Parser::parse(b"*1\r\n$3\r\nGET\r\n").unwrap();
    assert_eq!(p.command(), Err(CommandError::InvalidArguments));

    // set: missing value
    let mut p = Parser::parse(b"*2\r\n$3\r\nSET\r\n$1\r\nk\r\n").unwrap();
    assert_eq!(
        p.command(),
        Err(CommandError::Value(ValueError::OutOfBounds))
    );

    // set: key must be a bulk string
    let mut p = Parser::parse(b"*3\r\n$3\r\nSET\r\n:1\r\n$1\r\nv\r\n").unwrap();
    assert!(matches!(
        p.command(),
        Err(CommandError::Value(ValueError::InvalidType(_)))
    ));

    // set: unknown modifier keyword
    let mut p =
        Parser::parse(b"*5\r\n$3\r\nSET\r\n$1\r\nk\r\n$1\r\nv\r\n$2\r\nZZ\r\n:1\r\n").unwrap();
    assert_eq!(p.command(), Err(CommandError::InvalidCommandArgument));

    // set: non-numeric expiration
    let mut p =
        Parser::parse(b"*5\r\n$3\r\nSET\r\n$1\r\nk\r\n$1\r\nv\r\n$2\r\nEX\r\n$3\r\nabc\r\n")
            .unwrap();
    assert_eq!(
        p.command(),
        Err(CommandError::Value(ValueError::InvalidNumber))
    );

    // non-command frames at the top level
    assert_eq!(
        Parser::parse(b":1\r\n").unwrap_err(),
        CommandError::InvalidCommand
    );
}
