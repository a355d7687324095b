//! The per-frame handler, the buffer pool and the admission gate: what the
//! connection loop observes.

use respkv::{handle_frame, BufferPool, Database, Gate, HandlerStep};

fn reply_of(step: HandlerStep) -> (Vec<u8>, bool) {
    match step {
        HandlerStep::Reply { output, close } => (output, close),
        HandlerStep::NeedMore => panic!("expected a reply, got a read request"),
    }
}

#[test]
fn end_to_end_ping() {
    let mut db = Database::new();
    let (out, close) = reply_of(handle_frame(&mut db, b"*1\r\n$4\r\nPING\r\n", 0));
    assert_eq!(out, b"+PONG\r\n".to_vec());
    assert!(!close);
}

#[test]
fn end_to_end_echo() {
    let mut db = Database::new();
    let (out, close) = reply_of(handle_frame(&mut db, b"*2\r\n$4\r\nECHO\r\n$5\r\nhello\r\n", 0));
    assert_eq!(out, b"$5\r\nhello\r\n".to_vec());
    assert!(!close);
}

#[test]
fn echo_reply_frames_any_bytes() {
    let mut db = Database::new();
    // a CR inside the argument still yields a parseable bulk-string reply
    let (out, close) = reply_of(handle_frame(&mut db, b"*2\r\n$4\r\nECHO\r\n$3\r\na\rb\r\n", 0));
    assert_eq!(out, b"$3\r\na\rb\r\n".to_vec());
    assert!(!close);
    assert_eq!(
        respkv::parse(&out),
        Ok(respkv::Value::BulkString(b"a\rb".to_vec()))
    );
}

#[test]
fn end_to_end_set_then_get() {
    let mut db = Database::new();
    let (out, close) = reply_of(handle_frame(&mut db, b"*3\r\n$3\r\nSET\r\n$1\r\nk\r\n$1\r\nv\r\n", 0));
    assert_eq!(out, b"+OK\r\n".to_vec());
    assert!(!close);

    let (out, close) = reply_of(handle_frame(&mut db, b"*2\r\n$3\r\nGET\r\n$1\r\nk\r\n", 0));
    assert_eq!(out, b"$1\r\nv\r\n".to_vec());
    assert!(!close);
}

#[test]
fn end_to_end_unknown_command_keeps_connection() {
    let mut db = Database::new();
    let (out, close) = reply_of(handle_frame(&mut db, b"*1\r\n$3\r\nFOO\r\n", 0));
    assert_eq!(out.first(), Some(&b'-'));
    assert!(!close);
}

#[test]
fn end_to_end_command_introspection() {
    let mut db = Database::new();
    let (out, close) = reply_of(handle_frame(&mut db, b"*1\r\n$7\r\nCOMMAND\r\n", 0));
    assert_eq!(out, b"+OK\r\n".to_vec());
    assert!(!close);
}

#[test]
fn incomplete_frame_requests_more_input() {
    let mut db = Database::new();
    assert_eq!(
        handle_frame(&mut db, b"*2\r\n$4\r\nECHO\r\n$5\r\nhel", 0),
        HandlerStep::NeedMore
    );
}

#[test]
fn malformed_frame_closes_connection() {
    let mut db = Database::new();
    let (out, close) = reply_of(handle_frame(&mut db, b"bogus\r\n", 0));
    assert_eq!(out.first(), Some(&b'-'));
    assert!(close);

    // a declared length out of range also closes
    let (out, close) = reply_of(handle_frame(&mut db, b"$-2\r\n", 0));
    assert_eq!(out.first(), Some(&b'-'));
    assert!(close);
}

#[test]
fn get_absent_key_is_an_open_error() {
    let mut db = Database::new();
    let (out, close) = reply_of(handle_frame(&mut db, b"*2\r\n$3\r\nGET\r\n$1\r\nk\r\n", 0));
    assert_eq!(out, b"-key does not exist\r\n".to_vec());
    assert!(!close);
}

#[test]
fn set_with_px_expires() {
    let mut db = Database::new();
    let (out, _) = reply_of(handle_frame(
        &mut db,
        b"*5\r\n$3\r\nSET\r\n$1\r\nk\r\n$1\r\nv\r\n$2\r\nPX\r\n$3\r\n100\r\n",
        0,
    ));
    assert_eq!(out, b"+OK\r\n".to_vec());

    // still there at 50 ms
    let (out, _) = reply_of(handle_frame(&mut db, b"*2\r\n$3\r\nGET\r\n$1\r\nk\r\n", 50));
    assert_eq!(out, b"$1\r\nv\r\n".to_vec());

    // gone at 200 ms
    let (out, _) = reply_of(handle_frame(&mut db, b"*2\r\n$3\r\nGET\r\n$1\r\nk\r\n", 200));
    assert_eq!(out, b"-key does not exist\r\n".to_vec());
}

#[test]
fn set_with_ex_converts_seconds() {
    let mut db = Database::new();
    reply_of(handle_frame(
        &mut db,
        b"*5\r\n$3\r\nSET\r\n$1\r\nk\r\n$1\r\nv\r\n$2\r\nEX\r\n:2\r\n",
        0,
    ));
    let (out, _) = reply_of(handle_frame(&mut db, b"*2\r\n$3\r\nGET\r\n$1\r\nk\r\n", 1999));
    assert_eq!(out, b"$1\r\nv\r\n".to_vec());
    let (out, _) = reply_of(handle_frame(&mut db, b"*2\r\n$3\r\nGET\r\n$1\r\nk\r\n", 2000));
    assert_eq!(out, b"-key does not exist\r\n".to_vec());
}

#[test]
fn stored_values_return_in_native_form() {
    let mut db = Database::new();
    // a simple-string value comes back as a simple string
    reply_of(handle_frame(
        &mut db,
        b"*3\r\n$3\r\nSET\r\n$1\r\ns\r\n+text\r\n",
        0,
    ));
    let (out, _) = reply_of(handle_frame(&mut db, b"*2\r\n$3\r\nGET\r\n$1\r\ns\r\n", 0));
    assert_eq!(out, b"+text\r\n".to_vec());

    // an integer value comes back as an integer
    reply_of(handle_frame(&mut db, b"*3\r\n$3\r\nSET\r\n$1\r\ni\r\n:42\r\n", 0));
    let (out, _) = reply_of(handle_frame(&mut db, b"*2\r\n$3\r\nGET\r\n$1\r\ni\r\n", 0));
    assert_eq!(out, b":42\r\n".to_vec());

    // a null value comes back as null
    reply_of(handle_frame(&mut db, b"*3\r\n$3\r\nSET\r\n$1\r\nn\r\n$-1\r\n", 0));
    let (out, _) = reply_of(handle_frame(&mut db, b"*2\r\n$3\r\nGET\r\n$1\r\nn\r\n", 0));
    assert_eq!(out, b"$-1\r\n".to_vec());
}

#[test]
fn command_errors_keep_connection_open() {
    let mut db = Database::new();
    for frame in [
        &b"*1\r\n$4\r\nECHO\r\n"[..],                                   // arity
        &b"*3\r\n$3\r\nSET\r\n:1\r\n$1\r\nv\r\n"[..],                   // type
        &b"*5\r\n$3\r\nSET\r\n$1\r\nk\r\n$1\r\nv\r\n$2\r\nZZ\r\n:1\r\n"[..], // syntax
        &b"*5\r\n$3\r\nSET\r\n$1\r\nk\r\n$1\r\nv\r\n$2\r\nEX\r\n$1\r\nx\r\n"[..], // number
        &b"*2\r\n$3\r\nSET\r\n$1\r\nk\r\n"[..],                         // missing
        &b":1\r\n"[..],                                                 // shape
    ] {
        let (out, close) = reply_of(handle_frame(&mut db, frame, 0));
        assert_eq!(out.first(), Some(&b'-'));
        assert!(!close);
    }
}

#[test]
fn pool_buffers_come_back_empty() {
    let mut pool = BufferPool::new();
    let mut buf = pool.acquire();
    assert!(buf.is_empty());
    buf.extend_from_slice(b"private data");
    pool.release(buf);

    let again = pool.acquire();
    assert!(again.is_empty());
}

#[test]
fn admission_gate_enforces_the_limit() {
    let mut gate = Gate::new(2);
    assert!(gate.try_acquire());
    assert!(gate.try_acquire());
    // the third concurrent connection is refused while both are held
    assert!(!gate.try_acquire());
    let (active, cap) = gate.load();
    assert_eq!((active, cap), (2, 2));

    // once one disconnects, the next is admitted
    gate.release();
    assert!(gate.try_acquire());
    assert!(!gate.try_acquire());
}

#[test]
fn admission_gate_zero_capacity() {
    let mut gate = Gate::new(0);
    assert!(!gate.try_acquire());
    assert_eq!(gate.load(), (0, 0));
}
