//! The core of an in-memory key-value server that speaks the Redis wire format:
//! the frame codec, the command parser, the typed store, and the executor with its
//! transactions and replication outbox.

use vstd::prelude::*;

pub mod command;
pub mod context;
pub mod decode;
pub mod glob;
pub mod number;
pub mod resp;
pub mod score;
pub mod store;

verus! {

} // verus!
