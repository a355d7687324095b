//! The per-frame connection logic: read bytes in, decode, dispatch
//! against the store, and produce the reply bytes and the next action. The
//! embedding application owns the socket loop; it appends read bytes to a
//! buffer, hands the buffer here, and performs the returned step.

use vstd::prelude::*;

use crate::database::{Database, EntryModel, StoredModel};
use crate::parser::{CmdSpec, Command, Error, Expiration, Parser, spec_command, spec_shape};
use crate::resp::{spec_parse_at, SpecParse};
use crate::value::{encoding, wf, Value, ValueModel, RESP_MAX_SIZE};

verus! {

/// What the connection loop should do after offering the codec a buffer.
#[derive(Debug, PartialEq)]
pub enum HandlerStep {
    /// The buffer holds a valid prefix of a frame: keep it and read more.
    NeedMore,
    /// Write `output` and flush; then close the connection or keep it open
    /// for the next frame (clearing the buffer either way).
    Reply { output: Vec<u8>, close: bool },
}

/// The error replies the handler can produce.
#[derive(Debug, Clone, Copy, PartialEq)]
pub enum ReplyErr {
    /// The bytes violate the frame grammar (or trail a complete frame).
    Protocol,
    /// A declared length outside `{-1} ∪ [0, 512 MiB)`.
    Range,
    /// A well-formed frame that is not a command shape.
    Shape,
    /// An unknown command keyword.
    Unknown,
    /// Wrong number of arguments.
    Arity,
    /// An unknown `SET` modifier keyword.
    Syntax,
    /// An argument of the wrong type.
    TypeMismatch,
    /// Numeric text that does not parse.
    Number,
    /// A required argument is missing.
    Missing,
    /// An `ECHO` argument too large to frame as a bulk string.
    TooLarge,
    /// `GET` on an absent (or expired) key.
    NoKey,
}

/// The error payload sent for each kind of failure.
pub closed spec fn err_text(k: ReplyErr) -> Seq<u8> {
    match k {
        ReplyErr::Protocol => seq![69u8, 82u8, 82u8, 32u8, 112u8, 114u8, 111u8, 116u8, 111u8, 99u8, 111u8, 108u8, 32u8, 101u8, 114u8, 114u8, 111u8, 114u8],  // 'ERR protocol error'
        ReplyErr::Range => seq![69u8, 82u8, 82u8, 32u8, 108u8, 101u8, 110u8, 103u8, 116u8, 104u8, 32u8, 111u8, 117u8, 116u8, 32u8, 111u8, 102u8, 32u8, 114u8, 97u8, 110u8, 103u8, 101u8],  // 'ERR length out of range'
        ReplyErr::Shape => seq![69u8, 82u8, 82u8, 32u8, 105u8, 110u8, 118u8, 97u8, 108u8, 105u8, 100u8, 32u8, 99u8, 111u8, 109u8, 109u8, 97u8, 110u8, 100u8],  // 'ERR invalid command'
        ReplyErr::Unknown => seq![69u8, 82u8, 82u8, 32u8, 117u8, 110u8, 107u8, 110u8, 111u8, 119u8, 110u8, 32u8, 99u8, 111u8, 109u8, 109u8, 97u8, 110u8, 100u8],  // 'ERR unknown command'
        ReplyErr::Arity => seq![69u8, 82u8, 82u8, 32u8, 119u8, 114u8, 111u8, 110u8, 103u8, 32u8, 110u8, 117u8, 109u8, 98u8, 101u8, 114u8, 32u8, 111u8, 102u8, 32u8, 97u8, 114u8, 103u8, 117u8, 109u8, 101u8, 110u8, 116u8, 115u8],  // 'ERR wrong number of arguments'
        ReplyErr::Syntax => seq![69u8, 82u8, 82u8, 32u8, 115u8, 121u8, 110u8, 116u8, 97u8, 120u8, 32u8, 101u8, 114u8, 114u8, 111u8, 114u8],  // 'ERR syntax error'
        ReplyErr::TypeMismatch => seq![69u8, 82u8, 82u8, 32u8, 119u8, 114u8, 111u8, 110u8, 103u8, 32u8, 97u8, 114u8, 103u8, 117u8, 109u8, 101u8, 110u8, 116u8, 32u8, 116u8, 121u8, 112u8, 101u8],  // 'ERR wrong argument type'
        ReplyErr::Number => seq![69u8, 82u8, 82u8, 32u8, 118u8, 97u8, 108u8, 117u8, 101u8, 32u8, 105u8, 115u8, 32u8, 110u8, 111u8, 116u8, 32u8, 97u8, 110u8, 32u8, 105u8, 110u8, 116u8, 101u8, 103u8, 101u8, 114u8],  // 'ERR value is not an integer'
        ReplyErr::Missing => seq![69u8, 82u8, 82u8, 32u8, 109u8, 105u8, 115u8, 115u8, 105u8, 110u8, 103u8, 32u8, 97u8, 114u8, 103u8, 117u8, 109u8, 101u8, 110u8, 116u8],  // 'ERR missing argument'
        ReplyErr::NoKey => seq![107u8, 101u8, 121u8, 32u8, 100u8, 111u8, 101u8, 115u8, 32u8, 110u8, 111u8, 116u8, 32u8, 101u8, 120u8, 105u8, 115u8, 116u8],  // 'key does not exist'
        ReplyErr::TooLarge => seq![69u8, 82u8, 82u8, 32u8, 97u8, 114u8, 103u8, 117u8, 109u8, 101u8, 110u8, 116u8, 32u8, 116u8, 111u8, 111u8, 32u8, 108u8, 97u8, 114u8, 103u8, 101u8],  // 'ERR argument too large'
    }
}

/// The wire form in which a stored value is returned by `GET`.
pub open spec fn wire_of(v: StoredModel) -> ValueModel {
    match v {
        StoredModel::Str(s) => ValueModel::SimpleString(s),
        StoredModel::Bytes(b) => ValueModel::BulkString(b),
        StoredModel::Integer(i) => ValueModel::Integer(i),
        StoredModel::Null => ValueModel::Null,
    }
}

/// The `+PONG` payload.
pub open spec fn pong_text() -> Seq<u8> {
    seq![80u8, 79u8, 78u8, 71u8]
}

/// The `+OK` payload.
pub open spec fn ok_text() -> Seq<u8> {
    seq![79u8, 75u8]
}

/// The two stores hold the same entry under every key.
pub open spec fn unchanged_db(a: Database, b: Database) -> bool {
    forall|k: Seq<u8>| a.spec_get(k) == b.spec_get(k)
}

/// Serialize the error reply for `k`.
fn err_reply(k: ReplyErr) -> (r: Vec<u8>)
    ensures
        r@ == encoding(ValueModel::Error(err_text(k))),
{
    let mut msg: Vec<u8> = Vec::new();
    match k {
        ReplyErr::Protocol => {
            msg.push(69);
            msg.push(82);
            msg.push(82);
            msg.push(32);
            msg.push(112);
            msg.push(114);
            msg.push(111);
            msg.push(116);
            msg.push(111);
            msg.push(99);
            msg.push(111);
            msg.push(108);
            msg.push(32);
            msg.push(101);
            msg.push(114);
            msg.push(114);
            msg.push(111);
            msg.push(114);
        },
        ReplyErr::Range => {
            msg.push(69);
            msg.push(82);
            msg.push(82);
            msg.push(32);
            msg.push(108);
            msg.push(101);
            msg.push(110);
            msg.push(103);
            msg.push(116);
            msg.push(104);
            msg.push(32);
            msg.push(111);
            msg.push(117);
            msg.push(116);
            msg.push(32);
            msg.push(111);
            msg.push(102);
            msg.push(32);
            msg.push(114);
            msg.push(97);
            msg.push(110);
            msg.push(103);
            msg.push(101);
        },
        ReplyErr::Shape => {
            msg.push(69);
            msg.push(82);
            msg.push(82);
            msg.push(32);
            msg.push(105);
            msg.push(110);
            msg.push(118);
            msg.push(97);
            msg.push(108);
            msg.push(105);
            msg.push(100);
            msg.push(32);
            msg.push(99);
            msg.push(111);
            msg.push(109);
            msg.push(109);
            msg.push(97);
            msg.push(110);
            msg.push(100);
        },
        ReplyErr::Unknown => {
            msg.push(69);
            msg.push(82);
            msg.push(82);
            msg.push(32);
            msg.push(117);
            msg.push(110);
            msg.push(107);
            msg.push(110);
            msg.push(111);
            msg.push(119);
            msg.push(110);
            msg.push(32);
            msg.push(99);
            msg.push(111);
            msg.push(109);
            msg.push(109);
            msg.push(97);
            msg.push(110);
            msg.push(100);
        },
        ReplyErr::Arity => {
            msg.push(69);
            msg.push(82);
            msg.push(82);
            msg.push(32);
            msg.push(119);
            msg.push(114);
            msg.push(111);
            msg.push(110);
            msg.push(103);
            msg.push(32);
            msg.push(110);
            msg.push(117);
            msg.push(109);
            msg.push(98);
            msg.push(101);
            msg.push(114);
            msg.push(32);
            msg.push(111);
            msg.push(102);
            msg.push(32);
            msg.push(97);
            msg.push(114);
            msg.push(103);
            msg.push(117);
            msg.push(109);
            msg.push(101);
            msg.push(110);
            msg.push(116);
            msg.push(115);
        },
        ReplyErr::Syntax => {
            msg.push(69);
            msg.push(82);
            msg.push(82);
            msg.push(32);
            msg.push(115);
            msg.push(121);
            msg.push(110);
            msg.push(116);
            msg.push(97);
            msg.push(120);
            msg.push(32);
            msg.push(101);
            msg.push(114);
            msg.push(114);
            msg.push(111);
            msg.push(114);
        },
        ReplyErr::TypeMismatch => {
            msg.push(69);
            msg.push(82);
            msg.push(82);
            msg.push(32);
            msg.push(119);
            msg.push(114);
            msg.push(111);
            msg.push(110);
            msg.push(103);
            msg.push(32);
            msg.push(97);
            msg.push(114);
            msg.push(103);
            msg.push(117);
            msg.push(109);
            msg.push(101);
            msg.push(110);
            msg.push(116);
            msg.push(32);
            msg.push(116);
            msg.push(121);
            msg.push(112);
            msg.push(101);
        },
        ReplyErr::Number => {
            msg.push(69);
            msg.push(82);
            msg.push(82);
            msg.push(32);
            msg.push(118);
            msg.push(97);
            msg.push(108);
            msg.push(117);
            msg.push(101);
            msg.push(32);
            msg.push(105);
            msg.push(115);
            msg.push(32);
            msg.push(110);
            msg.push(111);
            msg.push(116);
            msg.push(32);
            msg.push(97);
            msg.push(110);
            msg.push(32);
            msg.push(105);
            msg.push(110);
            msg.push(116);
            msg.push(101);
            msg.push(103);
            msg.push(101);
            msg.push(114);
        },
        ReplyErr::Missing => {
            msg.push(69);
            msg.push(82);
            msg.push(82);
            msg.push(32);
            msg.push(109);
            msg.push(105);
            msg.push(115);
            msg.push(115);
            msg.push(105);
            msg.push(110);
            msg.push(103);
            msg.push(32);
            msg.push(97);
            msg.push(114);
            msg.push(103);
            msg.push(117);
            msg.push(109);
            msg.push(101);
            msg.push(110);
            msg.push(116);
        },
        ReplyErr::NoKey => {
            msg.push(107);
            msg.push(101);
            msg.push(121);
            msg.push(32);
            msg.push(100);
            msg.push(111);
            msg.push(101);
            msg.push(115);
            msg.push(32);
            msg.push(110);
            msg.push(111);
            msg.push(116);
            msg.push(32);
            msg.push(101);
            msg.push(120);
            msg.push(105);
            msg.push(115);
            msg.push(116);
        },
        ReplyErr::TooLarge => {
            msg.push(69);
            msg.push(82);
            msg.push(82);
            msg.push(32);
            msg.push(97);
            msg.push(114);
            msg.push(103);
            msg.push(117);
            msg.push(109);
            msg.push(101);
            msg.push(110);
            msg.push(116);
            msg.push(32);
            msg.push(116);
            msg.push(111);
            msg.push(111);
            msg.push(32);
            msg.push(108);
            msg.push(97);
            msg.push(114);
            msg.push(103);
            msg.push(101);
        },
    }
    let mut out: Vec<u8> = Vec::new();
    out.push(45);
    crate::value::push_slice(&mut out, &msg);
    out.push(13);
    out.push(10);
    assert(msg@ =~= err_text(k));
    assert(out@ =~= encoding(ValueModel::Error(err_text(k))));
    out
}

/// Turn a stored value back into its native wire form.
fn to_wire(v: crate::database::Value) -> (r: Value)
    ensures
        r.model() == wire_of(v.model()),
{
    match v {
        crate::database::Value::String(s) => Value::SimpleString(s),
        crate::database::Value::Bytes(b) => Value::BulkString(b),
        crate::database::Value::Integer(i) => Value::Integer(i),
        crate::database::Value::Null => Value::Null,
    }
}

/// Process one frame attempt against `buf`.
///
/// `Incomplete` input asks the caller to keep the buffer and read more.
/// A malformed frame or an out-of-range length is answered and closes the
/// connection; every command-level error is answered and leaves it open.
/// `PING` and `COMMAND` reply with fixed simple strings, `ECHO` echoes its
/// argument as a bulk string (so any echoed bytes still frame correctly),
/// `GET` replies with the stored value in its native wire form
/// or an error when absent, and `SET` updates the store and acknowledges.
pub fn handle_frame(db: &mut Database, buf: &[u8], now_ms: u64) -> (r: HandlerStep)
    requires
        old(db).wf(),
    ensures
        final(db).wf(),
        ({
            let out = spec_parse_at(buf@, 0);
            match r {
                HandlerStep::NeedMore => (out is More) && unchanged_db(*final(db), *old(db)),
                HandlerStep::Reply { output, close } => {
                    if out is More {
                        false
                    } else if (out is Bad) || (out is Done && out->Done_1 != buf@.len()) {
                        &&& output@ == encoding(ValueModel::Error(err_text(ReplyErr::Protocol)))
                        &&& close
                        &&& unchanged_db(*final(db), *old(db))
                    } else if out is OutOfRange {
                        &&& output@ == encoding(ValueModel::Error(err_text(ReplyErr::Range)))
                        &&& close
                        &&& unchanged_db(*final(db), *old(db))
                    } else {
                        match spec_shape(out->Done_0) {
                            None => {
                                &&& output@ == encoding(
                                    ValueModel::Error(err_text(ReplyErr::Shape)),
                                )
                                &&& !close
                                &&& unchanged_db(*final(db), *old(db))
                            },
                            Some(ms) => match spec_command(ms) {
                                CmdSpec::Ping => {
                                    &&& output@ == encoding(
                                        ValueModel::SimpleString(pong_text()),
                                    )
                                    &&& !close
                                    &&& unchanged_db(*final(db), *old(db))
                                },
                                CmdSpec::Command => {
                                    &&& output@ == encoding(ValueModel::SimpleString(ok_text()))
                                    &&& !close
                                    &&& unchanged_db(*final(db), *old(db))
                                },
                                CmdSpec::Echo(a) => {
                                    &&& output@ == if a.len() < RESP_MAX_SIZE {
                                        encoding(ValueModel::BulkString(a))
                                    } else {
                                        encoding(ValueModel::Error(err_text(ReplyErr::TooLarge)))
                                    }
                                    &&& (a.len() < RESP_MAX_SIZE ==> wf(ValueModel::BulkString(a)))
                                    &&& !close
                                    &&& unchanged_db(*final(db), *old(db))
                                },
                                CmdSpec::Get(k) => {
                                    &&& match old(db).spec_read(k, now_ms) {
                                        Some(v) => output@ == encoding(wire_of(v)),
                                        None => output@ == encoding(
                                            ValueModel::Error(err_text(ReplyErr::NoKey)),
                                        ),
                                    }
                                    &&& !close
                                    &&& unchanged_db(*final(db), *old(db))
                                },
                                CmdSpec::SetValue(key, v, exp) => {
                                    &&& output@ == encoding(ValueModel::SimpleString(ok_text()))
                                    &&& !close
                                    &&& (forall|k2: Seq<u8>|
                                        #[trigger] final(db).spec_get(k2) == if k2 == key {
                                            Some(
                                                match exp {
                                                    Some(e) => EntryModel::Expire {
                                                        value: v,
                                                        created: now_ms,
                                                        duration: e.spec_millis() as u64,
                                                    },
                                                    None => EntryModel::NonExpire(v),
                                                },
                                            )
                                        } else {
                                            old(db).spec_get(k2)
                                        })
                                },
                                CmdSpec::NotExists => {
                                    &&& output@ == encoding(
                                        ValueModel::Error(err_text(ReplyErr::Unknown)),
                                    )
                                    &&& !close
                                    &&& unchanged_db(*final(db), *old(db))
                                },
                                CmdSpec::InvalidArguments => {
                                    &&& output@ == encoding(
                                        ValueModel::Error(err_text(ReplyErr::Arity)),
                                    )
                                    &&& !close
                                    &&& unchanged_db(*final(db), *old(db))
                                },
                                CmdSpec::BadArgument => {
                                    &&& output@ == encoding(
                                        ValueModel::Error(err_text(ReplyErr::Syntax)),
                                    )
                                    &&& !close
                                    &&& unchanged_db(*final(db), *old(db))
                                },
                                CmdSpec::TypeErr => {
                                    &&& output@ == encoding(
                                        ValueModel::Error(err_text(ReplyErr::TypeMismatch)),
                                    )
                                    &&& !close
                                    &&& unchanged_db(*final(db), *old(db))
                                },
                                CmdSpec::NumberErr => {
                                    &&& output@ == encoding(
                                        ValueModel::Error(err_text(ReplyErr::Number)),
                                    )
                                    &&& !close
                                    &&& unchanged_db(*final(db), *old(db))
                                },
                                CmdSpec::Missing => {
                                    &&& output@ == encoding(
                                        ValueModel::Error(err_text(ReplyErr::Missing)),
                                    )
                                    &&& !close
                                    &&& unchanged_db(*final(db), *old(db))
                                },
                            },
                        }
                    }
                },
            }
        }),
{
    match Parser::parse(buf) {
        Err(Error::Parse(crate::resp::Error::Incomplete)) => HandlerStep::NeedMore,
        Err(Error::Parse(crate::resp::Error::Malformed)) => HandlerStep::Reply {
            output: err_reply(ReplyErr::Protocol),
            close: true,
        },
        Err(Error::Parse(crate::resp::Error::OutOfRange(t, n))) => HandlerStep::Reply {
            output: err_reply(ReplyErr::Range),
            close: true,
        },
        Err(Error::InvalidCommand) => HandlerStep::Reply {
            output: err_reply(ReplyErr::Shape),
            close: false,
        },
        Err(_) => HandlerStep::Reply { output: err_reply(ReplyErr::Protocol), close: true },
        Ok(mut p) => match p.command() {
            Ok(Command::Ping) => {
                let mut out: Vec<u8> = Vec::new();
                out.push(43);
                out.push(80);
                out.push(79);
                out.push(78);
                out.push(71);
                out.push(13);
                out.push(10);
                assert(out@ =~= encoding(ValueModel::SimpleString(pong_text())));
                HandlerStep::Reply { output: out, close: false }
            },
            Ok(Command::Command) => {
                let mut out: Vec<u8> = Vec::new();
                out.push(43);
                out.push(79);
                out.push(75);
                out.push(13);
                out.push(10);
                assert(out@ =~= encoding(ValueModel::SimpleString(ok_text())));
                HandlerStep::Reply { output: out, close: false }
            },
            Ok(Command::Echo(a)) => {
                if a.len() < 536870912 {
                    let mut out: Vec<u8> = Vec::new();
                    Value::BulkString(a).serialize(&mut out);
                    HandlerStep::Reply { output: out, close: false }
                } else {
                    HandlerStep::Reply { output: err_reply(ReplyErr::TooLarge), close: false }
                }
            },
            Ok(Command::Get(k)) => match db.get(&k, now_ms) {
                Some(v) => {
                    let mut out: Vec<u8> = Vec::new();
                    to_wire(v).serialize(&mut out);
                    HandlerStep::Reply { output: out, close: false }
                },
                None => HandlerStep::Reply { output: err_reply(ReplyErr::NoKey), close: false },
            },
            Ok(Command::SetValue { key, value, expiration }) => {
                let duration = match expiration {
                    Some(e) => Some(e.as_millis()),
                    None => None,
                };
                db.insert(key, value, now_ms, duration);
                let mut out: Vec<u8> = Vec::new();
                out.push(43);
                out.push(79);
                out.push(75);
                out.push(13);
                out.push(10);
                assert(out@ =~= encoding(ValueModel::SimpleString(ok_text())));
                HandlerStep::Reply { output: out, close: false }
            },
            Err(Error::NotExists) => HandlerStep::Reply {
                output: err_reply(ReplyErr::Unknown),
                close: false,
            },
            Err(Error::InvalidArguments) => HandlerStep::Reply {
                output: err_reply(ReplyErr::Arity),
                close: false,
            },
            Err(Error::InvalidCommandArgument) => HandlerStep::Reply {
                output: err_reply(ReplyErr::Syntax),
                close: false,
            },
            Err(Error::Value(crate::values::Error::InvalidType(_))) => HandlerStep::Reply {
                output: err_reply(ReplyErr::TypeMismatch),
                close: false,
            },
            Err(Error::Value(crate::values::Error::InvalidNumber)) => HandlerStep::Reply {
                output: err_reply(ReplyErr::Number),
                close: false,
            },
            Err(Error::Value(crate::values::Error::OutOfBounds)) => HandlerStep::Reply {
                output: err_reply(ReplyErr::Missing),
                close: false,
            },
            Err(_) => HandlerStep::Reply { output: err_reply(ReplyErr::Protocol), close: true },
        },
    }
}

} // verus!
