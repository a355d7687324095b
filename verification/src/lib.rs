//! A small in-memory key-value server core speaking a Redis-like wire
//! protocol: the wire value data model, the streaming codec, the command
//! model, the expiring store, and the buffer-pool and admission bookkeeping.
//!
//! Everything here is pure logic over plain values; sockets, timers and
//! tasks live with the embedding application.


mod admission;
mod database;
mod decimal;
mod handler;
mod parser;
mod pool;
mod resp;
mod value;
mod values;

pub use admission::Gate;
pub use database::{Database, Value as DatabaseValue};
pub use handler::{handle_frame, HandlerStep};
pub use parser::{Command, Error as CommandError, Expiration, Parser};
pub use pool::BufferPool;
pub use resp::{parse, Error as ParseError, OutOfRangeType};
pub use values::{Error as ValueError, Values};
pub use value::Value;
