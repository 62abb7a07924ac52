//! John: a dead simple message queue.
//!
//! Messages are appended to named rivers and read back by position. A river
//! keeps one message per fixed-width slot, so a position maps to a byte
//! address by one multiplication. Commands on rivers are sequenced by a
//! replicated log that lets a command take effect only once a majority of
//! nodes has accepted it.

pub mod layout;
pub mod text;
pub mod river;
pub mod rivers;
pub mod commands;
pub mod raft;
pub mod replication;
pub mod transport;
pub mod server;
pub mod laws;

pub use commands::{ClearCommand, PeekCommand, PushCommand};
pub use layout::{LINE_END, MESSAGE_SIZE};
pub use river::{PeekResult, PeekView, River, RiverView, StorageError};
pub use rivers::Rivers;
pub use server::Server;
