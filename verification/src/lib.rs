//! A miniature Redis-style server core: a RESP2 wire codec (an incremental,
//! binary-safe decoder and a stateless encoder), a command model, and a
//! key-value store executor, all with verified contracts. The I/O that
//! feeds bytes in and writes replies out lives outside this crate.
use vstd::prelude::*;

pub mod codec;
pub mod command;
pub mod server;
pub mod store;
pub mod text;
pub mod types;

pub use codec::{DecodeError, RespCodec, encode};
pub use command::{CmdError, RedisCmd, get_next_value};
pub use server::process_value;
pub use store::Store;
pub use types::{BulkString, RespValue};

verus! {

} // verus!
