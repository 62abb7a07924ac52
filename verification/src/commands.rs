//! The three commands on rivers. A command holds no state: it names an
//! operation, and `execute` runs it on the rivers it is given.

use vstd::prelude::*;
use vstd::utf8::encode_utf8;
use crate::river::{peek_view, peeked, push_outcome, PeekResult, StorageError};
use crate::rivers::{cleared, content, pushed, touched, Rivers};

verus! {

/// Appends a message to a river.
pub struct PushCommand;

impl PushCommand {
    /// A push command.
    pub fn new() -> PushCommand {
        PushCommand
    }

    /// Appends `message` to the river named `river`, which is created if it
    /// does not exist. A message that is refused changes nothing.
    pub fn execute(&self, rivers: &mut Rivers, river: &str, message: &str) -> (r: Result<
        (),
        StorageError,
    >)
        requires
            old(rivers).wf(),
        ensures
            final(rivers).wf(),
            r == push_outcome(content(old(rivers)@, river@).len(), encode_utf8(message@)),
            r is Ok ==> final(rivers)@ == pushed(old(rivers)@, river@, message@),
            r is Err ==> final(rivers)@ == old(rivers)@,
    {
        rivers.push(river, message)
    }
}

/// Reads a message from a river.
pub struct PeekCommand;

impl PeekCommand {
    /// A peek command.
    pub fn new() -> PeekCommand {
        PeekCommand
    }

    /// Reads the message at `offset` of the river named `river`, or the
    /// latest one where `offset` is none. Offsets count from one. The answer
    /// holds the message and the offset of the message after it; there is
    /// none where the river holds no message at `offset`. A river that does
    /// not exist is created empty.
    pub fn execute(&self, rivers: &mut Rivers, river: &str, offset: Option<usize>) -> (r: Option<
        PeekResult,
    >)
        requires
            old(rivers).wf(),
        ensures
            final(rivers).wf(),
            final(rivers)@ == touched(old(rivers)@, river@),
            peek_view(r) == peeked(content(old(rivers)@, river@), offset),
    {
        rivers.peek_at(river, offset)
    }
}

/// Deletes a river.
pub struct ClearCommand;

impl ClearCommand {
    /// A clear command.
    pub fn new() -> ClearCommand {
        ClearCommand
    }

    /// Deletes the river named `river` with all its messages. Clearing a
    /// river that does not exist is no error.
    pub fn execute(&self, rivers: &mut Rivers, river: &str) -> (r: Result<(), StorageError>)
        requires
            old(rivers).wf(),
        ensures
            final(rivers).wf(),
            r is Ok,
            final(rivers)@ == cleared(old(rivers)@, river@),
    {
        rivers.destroy(river)
    }
}

} // verus!
