use vstd::prelude::*;

pub mod value;
pub mod parse;
pub mod encode;
pub mod store;
pub mod command;

pub use command::{execute, execute_command, CommandError};
pub use encode::encode;
pub use parse::{decode, DecodeError};
pub use store::Db;
pub use value::{RedisValue, Val};

verus! {

/// A server. It holds nothing itself: the store is handed to each request.
#[derive(Debug)]
pub struct Server {}

/// A decoded value together with the offset just past the bytes it consumed.
#[derive(Debug)]
pub struct Token {
    value: RedisValue,
    offset: usize,
}

} // verus!
