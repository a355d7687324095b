//! The command model: turn a parsed wire value into a typed, validated
//! command. The first element of a command array is matched
//! case-insensitively against a fixed keyword table; the remaining elements
//! are consumed through the forward-only cursor.

use vstd::prelude::*;

use crate::database::{storable_of, StoredModel};
use crate::value::{lemma_model_elems_index, model_elems, Value, ValueModel};
use crate::values::{bytes_of, number_of, string_of, NumRead, Values};

verus! {

/// An optional expiration modifier of a `SET` command, as given on the
/// wire: whole seconds (`EX`) or milliseconds (`PX`).
#[derive(Debug, Clone, Copy, PartialEq)]
pub enum Expiration {
    Seconds(u64),
    Millis(u64),
}

impl Expiration {
    /// The duration in milliseconds, saturating at `u64::MAX`.
    pub open spec fn spec_millis(&self) -> int {
        match self {
            Expiration::Seconds(s) => if s * 1000 > u64::MAX {
                u64::MAX as int
            } else {
                s * 1000
            },
            Expiration::Millis(m) => *m as int,
        }
    }

    /// The duration in milliseconds, saturating at `u64::MAX`.
    pub fn as_millis(&self) -> (r: u64)
        ensures
            r as int == self.spec_millis(),
    {
        match self {
            Expiration::Seconds(s) => match s.checked_mul(1000) {
                Some(v) => v,
                None => u64::MAX,
            },
            Expiration::Millis(m) => *m,
        }
    }
}

/// A validated command, constructed once per request and consumed by the
/// dispatcher.
#[derive(Debug, PartialEq)]
pub enum Command {
    Ping,
    Command,
    Echo(Vec<u8>),
    Get(Vec<u8>),
    SetValue { key: Vec<u8>, value: crate::database::Value, expiration: Option<Expiration> },
}

/// Why a wire value is not a valid command.
#[derive(Debug, PartialEq)]
pub enum Error {
    /// The top-level value is not a command shape: neither a non-empty
    /// array nor the simple string `ping`.
    InvalidCommand,
    /// The keyword is not in the command table.
    NotExists,
    /// Wrong number of arguments for the command.
    InvalidArguments,
    /// An unknown `SET` modifier keyword.
    InvalidCommandArgument,
    /// The bytes did not decode to a frame.
    Parse(crate::resp::Error),
    /// An argument could not be taken from the cursor.
    Value(crate::values::Error),
}

/// ASCII lower-casing of one byte.
pub open spec fn lower(b: u8) -> u8 {
    if 65 <= b <= 90 {
        (b + 32) as u8
    } else {
        b
    }
}

/// The keyword `ping`, case-insensitively.
pub open spec fn is_ping(s: Seq<u8>) -> bool {
    s.len() == 4 && lower(s[0]) == 112 && lower(s[1]) == 105 && lower(s[2]) == 110 && lower(s[3])
        == 103
}

/// The keyword `command`, case-insensitively.
pub open spec fn is_command_kw(s: Seq<u8>) -> bool {
    s.len() == 7 && lower(s[0]) == 99 && lower(s[1]) == 111 && lower(s[2]) == 109 && lower(s[3])
        == 109 && lower(s[4]) == 97 && lower(s[5]) == 110 && lower(s[6]) == 100
}

/// The keyword `echo`, case-insensitively.
pub open spec fn is_echo(s: Seq<u8>) -> bool {
    s.len() == 4 && lower(s[0]) == 101 && lower(s[1]) == 99 && lower(s[2]) == 104 && lower(s[3])
        == 111
}

/// The keyword `get`, case-insensitively.
pub open spec fn is_get(s: Seq<u8>) -> bool {
    s.len() == 3 && lower(s[0]) == 103 && lower(s[1]) == 101 && lower(s[2]) == 116
}

/// The keyword `set`, case-insensitively.
pub open spec fn is_set(s: Seq<u8>) -> bool {
    s.len() == 3 && lower(s[0]) == 115 && lower(s[1]) == 101 && lower(s[2]) == 116
}

/// The modifier `ex`, case-insensitively.
pub open spec fn is_ex(s: Seq<u8>) -> bool {
    s.len() == 2 && lower(s[0]) == 101 && lower(s[1]) == 120
}

/// The modifier `px`, case-insensitively.
pub open spec fn is_px(s: Seq<u8>) -> bool {
    s.len() == 2 && lower(s[0]) == 112 && lower(s[1]) == 120
}

/// The fixed command keyword table.
#[derive(Debug, Clone, Copy, PartialEq)]
pub(crate) enum CommandKeywords {
    Ping,
    Echo,
    Command,
    Get,
    SetKw,
}

/// The `SET` modifier keyword table.
#[derive(Debug, Clone, Copy, PartialEq)]
pub(crate) enum SetParams {
    EX,
    PX,
}

/// ASCII lower-casing of one byte.
fn lower_byte(b: u8) -> (r: u8)
    ensures
        r == lower(b),
{
    if 65 <= b && b <= 90 {
        b + 32
    } else {
        b
    }
}

/// Case-insensitive lookup in the command keyword table.
fn keyword_of(s: &Vec<u8>) -> (r: Option<CommandKeywords>)
    ensures
        r == Some(CommandKeywords::Ping) <==> is_ping(s@),
        r == Some(CommandKeywords::Command) <==> is_command_kw(s@),
        r == Some(CommandKeywords::Echo) <==> is_echo(s@),
        r == Some(CommandKeywords::Get) <==> is_get(s@),
        r == Some(CommandKeywords::SetKw) <==> is_set(s@),
{
    let n = s.len();
    if n == 4 && lower_byte(s[0]) == 112 && lower_byte(s[1]) == 105 && lower_byte(s[2]) == 110
        && lower_byte(s[3]) == 103 {
        Some(CommandKeywords::Ping)
    } else if n == 7 && lower_byte(s[0]) == 99 && lower_byte(s[1]) == 111 && lower_byte(s[2]) == 109
        && lower_byte(s[3]) == 109 && lower_byte(s[4]) == 97 && lower_byte(s[5]) == 110
        && lower_byte(s[6]) == 100 {
        Some(CommandKeywords::Command)
    } else if n == 4 && lower_byte(s[0]) == 101 && lower_byte(s[1]) == 99 && lower_byte(s[2]) == 104
        && lower_byte(s[3]) == 111 {
        Some(CommandKeywords::Echo)
    } else if n == 3 && lower_byte(s[0]) == 103 && lower_byte(s[1]) == 101 && lower_byte(s[2])
        == 116 {
        Some(CommandKeywords::Get)
    } else if n == 3 && lower_byte(s[0]) == 115 && lower_byte(s[1]) == 101 && lower_byte(s[2])
        == 116 {
        Some(CommandKeywords::SetKw)
    } else {
        None
    }
}

/// Case-insensitive lookup in the `SET` modifier table.
fn set_param_of(s: &Vec<u8>) -> (r: Option<SetParams>)
    ensures
        r == Some(SetParams::EX) <==> is_ex(s@),
        r == Some(SetParams::PX) <==> is_px(s@),
{
    let n = s.len();
    if n == 2 && lower_byte(s[0]) == 101 && lower_byte(s[1]) == 120 {
        Some(SetParams::EX)
    } else if n == 2 && lower_byte(s[0]) == 112 && lower_byte(s[1]) == 120 {
        Some(SetParams::PX)
    } else {
        None
    }
}

/// What a command array means, element by element: the mathematical
/// counterpart of `Parser::command`.
pub enum CmdSpec {
    Ping,
    Command,
    Echo(Seq<u8>),
    Get(Seq<u8>),
    SetValue(Seq<u8>, StoredModel, Option<Expiration>),
    NotExists,
    InvalidArguments,
    BadArgument,
    TypeErr,
    NumberErr,
    Missing,
}

/// The command denoted by a non-empty sequence of element models.
pub open spec fn spec_command(ms: Seq<ValueModel>) -> CmdSpec
    recommends
        ms.len() >= 1,
{
    match string_of(ms[0]) {
        None => CmdSpec::TypeErr,
        Some(s0) => if is_ping(s0) {
            CmdSpec::Ping
        } else if is_command_kw(s0) {
            CmdSpec::Command
        } else if is_echo(s0) {
            if ms.len() != 2 {
                CmdSpec::InvalidArguments
            } else {
                match string_of(ms[1]) {
                    Some(a) => CmdSpec::Echo(a),
                    None => CmdSpec::TypeErr,
                }
            }
        } else if is_get(s0) {
            if ms.len() != 2 {
                CmdSpec::InvalidArguments
            } else {
                match string_of(ms[1]) {
                    Some(k) => CmdSpec::Get(k),
                    None => CmdSpec::TypeErr,
                }
            }
        } else if is_set(s0) {
            if ms.len() < 2 {
                CmdSpec::Missing
            } else {
                match bytes_of(ms[1]) {
                    None => CmdSpec::TypeErr,
                    Some(key) => if ms.len() < 3 {
                        CmdSpec::Missing
                    } else {
                        match storable_of(ms[2]) {
                            None => CmdSpec::TypeErr,
                            Some(v) => if ms.len() == 3 {
                                CmdSpec::SetValue(key, v, None)
                            } else {
                                match string_of(ms[3]) {
                                    None => CmdSpec::TypeErr,
                                    Some(s3) => if is_ex(s3) {
                                        if ms.len() < 5 {
                                            CmdSpec::Missing
                                        } else {
                                            match number_of(ms[4]) {
                                                NumRead::Num(nv) => CmdSpec::SetValue(
                                                    key,
                                                    v,
                                                    Some(Expiration::Seconds((nv as i64) as u64)),
                                                ),
                                                NumRead::BadText => CmdSpec::NumberErr,
                                                NumRead::WrongType => CmdSpec::TypeErr,
                                            }
                                        }
                                    } else if is_px(s3) {
                                        if ms.len() < 5 {
                                            CmdSpec::Missing
                                        } else {
                                            match number_of(ms[4]) {
                                                NumRead::Num(nv) => CmdSpec::SetValue(
                                                    key,
                                                    v,
                                                    Some(Expiration::Millis((nv as i64) as u64)),
                                                ),
                                                NumRead::BadText => CmdSpec::NumberErr,
                                                NumRead::WrongType => CmdSpec::TypeErr,
                                            }
                                        }
                                    } else {
                                        CmdSpec::BadArgument
                                    },
                                }
                            },
                        }
                    },
                }
            }
        } else {
            CmdSpec::NotExists
        },
    }
}

/// The element models a valid top-level command shape offers: a non-empty
/// array directly, or the simple string `ping` as a one-element command.
pub open spec fn spec_shape(m: ValueModel) -> Option<Seq<ValueModel>> {
    match m {
        ValueModel::Array(ms) => if ms.len() >= 1 {
            Some(ms)
        } else {
            None
        },
        ValueModel::SimpleString(s) => if is_ping(s) {
            Some(seq![ValueModel::SimpleString(s)])
        } else {
            None
        },
        _ => None,
    }
}

/// A parsed command frame, ready to be turned into a `Command`.
#[derive(Debug, PartialEq)]
pub struct Parser {
    ast: Values,
}

/// `ping` as an exec check.
fn is_ping_exec(s: &Vec<u8>) -> (r: bool)
    ensures
        r == is_ping(s@),
{
    s.len() == 4 && lower_byte(s[0]) == 112 && lower_byte(s[1]) == 105 && lower_byte(s[2]) == 110
        && lower_byte(s[3]) == 103
}

impl Parser {
    /// The cursor is well formed.
    pub closed spec fn wf(&self) -> bool {
        self.ast.wf()
    }

    /// The models of the command's elements.
    pub closed spec fn models(&self) -> Seq<ValueModel> {
        self.ast.models()
    }

    /// No argument has been consumed yet.
    pub closed spec fn at_start(&self) -> bool {
        self.ast.pos() == 0
    }

    /// Wrap an already-built cursor, for driving the command layer from a
    /// constructed AST.
    pub fn from_values(ast: Values) -> (r: Parser)
        requires
            ast.wf(),
        ensures
            r.wf(),
            r.models() == ast.models(),
            r.at_start() == (ast.pos() == 0),
    {
        Parser { ast }
    }

    /// Decode one complete frame and check its top-level command shape.
    ///
    /// `InvalidCommand` reports a well-formed frame that is not a command:
    /// anything but a non-empty array or the simple string `ping`.
    pub fn parse(input: &[u8]) -> (r: Result<Parser, Error>)
        ensures
            ({
                let out = crate::resp::spec_parse_at(input@, 0);
                match r {
                    Ok(p) => {
                        &&& out is Done
                        &&& out->Done_1 == input@.len()
                        &&& spec_shape(out->Done_0) == Some(p.models())
                        &&& p.wf()
                        &&& p.at_start()
                    },
                    Err(Error::InvalidCommand) => out is Done && out->Done_1 == input@.len()
                        && spec_shape(out->Done_0) is None,
                    Err(Error::Parse(pe)) => match pe {
                        crate::resp::Error::Incomplete => out is More,
                        crate::resp::Error::OutOfRange(t, n) => out
                            == crate::resp::SpecParse::OutOfRange(t, n as int),
                        crate::resp::Error::Malformed => out is Bad || (out is Done && out->Done_1
                            != input@.len()),
                    },
                    Err(_) => false,
                }
            }),
    {
        match crate::resp::parse(input) {
            Err(e) => Err(Error::Parse(e)),
            Ok(v) => match v {
                Value::Array(elems) => {
                    if elems.len() == 0 {
                        proof {
                            lemma_model_elems_index(elems@);
                        }
                        Err(Error::InvalidCommand)
                    } else {
                        proof {
                            lemma_model_elems_index(elems@);
                        }
                        Ok(Parser { ast: Values::new(elems) })
                    }
                },
                Value::SimpleString(s) => {
                    if is_ping_exec(&s) {
                        let mut one: Vec<Value> = Vec::new();
                        one.push(Value::SimpleString(s));
                        proof {
                            lemma_model_elems_index(one@);
                            assert(model_elems(one@, 0) =~= seq![one@[0].model()]);
                        }
                        Ok(Parser { ast: Values::new(one) })
                    } else {
                        Err(Error::InvalidCommand)
                    }
                },
                _ => Err(Error::InvalidCommand),
            },
        }
    }

    /// Turn the parsed frame into a typed command, consuming arguments
    /// through the cursor. The result is exactly `spec_command` of the
    /// element models.
    pub fn command(&mut self) -> (r: Result<Command, Error>)
        requires
            old(self).wf(),
            old(self).at_start(),
            old(self).models().len() >= 1,
        ensures
            ({
                let ms = old(self).models();
                match r {
                    Ok(Command::Ping) => spec_command(ms) == CmdSpec::Ping,
                    Ok(Command::Command) => spec_command(ms) == CmdSpec::Command,
                    Ok(Command::Echo(a)) => spec_command(ms) == CmdSpec::Echo(a@),
                    Ok(Command::Get(k)) => spec_command(ms) == CmdSpec::Get(k@),
                    Ok(Command::SetValue { key, value, expiration }) => spec_command(ms)
                        == CmdSpec::SetValue(key@, value.model(), expiration),
                    Err(Error::NotExists) => spec_command(ms) == CmdSpec::NotExists,
                    Err(Error::InvalidArguments) => spec_command(ms) == CmdSpec::InvalidArguments,
                    Err(Error::InvalidCommandArgument) => spec_command(ms) == CmdSpec::BadArgument,
                    Err(Error::Value(crate::values::Error::InvalidType(_))) => spec_command(ms)
                        == CmdSpec::TypeErr,
                    Err(Error::Value(crate::values::Error::InvalidNumber)) => spec_command(ms)
                        == CmdSpec::NumberErr,
                    Err(Error::Value(crate::values::Error::OutOfBounds)) => spec_command(ms)
                        == CmdSpec::Missing,
                    _ => false,
                }
            }),
    {
        let kw = match self.ast.get_string() {
            Ok(k) => k,
            Err(e) => {
                return Err(Error::Value(e));
            },
        };
        match keyword_of(&kw) {
            None => Err(Error::NotExists),
            Some(CommandKeywords::Ping) => Ok(Command::Ping),
            Some(CommandKeywords::Command) => Ok(Command::Command),
            Some(CommandKeywords::Echo) => {
                if self.ast.remaining() != 1 {
                    return Err(Error::InvalidArguments);
                }
                match self.ast.get_string() {
                    Ok(a) => Ok(Command::Echo(a)),
                    Err(e) => Err(Error::Value(e)),
                }
            },
            Some(CommandKeywords::Get) => {
                if self.ast.remaining() != 1 {
                    return Err(Error::InvalidArguments);
                }
                match self.ast.get_string() {
                    Ok(k) => Ok(Command::Get(k)),
                    Err(e) => Err(Error::Value(e)),
                }
            },
            Some(CommandKeywords::SetKw) => {
                let key = match self.ast.get_bytes() {
                    Ok(k) => k,
                    Err(e) => {
                        return Err(Error::Value(e));
                    },
                };
                let value = match self.ast.next() {
                    Ok(v) => v,
                    Err(e) => {
                        return Err(Error::Value(e));
                    },
                };
                let expiration = if !self.ast.check_bounds() {
                    None
                } else {
                    let modk = match self.ast.get_string() {
                        Ok(m) => m,
                        Err(e) => {
                            return Err(Error::Value(e));
                        },
                    };
                    match set_param_of(&modk) {
                        Some(SetParams::EX) => {
                            let n = match self.ast.get_number() {
                                Ok(n) => n,
                                Err(e) => {
                                    return Err(Error::Value(e));
                                },
                            };
                            Some(Expiration::Seconds(n as u64))
                        },
                        Some(SetParams::PX) => {
                            let n = match self.ast.get_number() {
                                Ok(n) => n,
                                Err(e) => {
                                    return Err(Error::Value(e));
                                },
                            };
                            Some(Expiration::Millis(n as u64))
                        },
                        None => {
                            return Err(Error::InvalidCommandArgument);
                        },
                    }
                };
                Ok(Command::SetValue { key, value, expiration })
            },
        }
    }
}

} // verus!
