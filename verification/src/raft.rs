//! What the nodes replicate: commands on rivers, the queries that ask for
//! their outcome, and the responses that answer them.

use vstd::prelude::*;
use vstd::utf8::encode_utf8;
use crate::river::{peek_view, peeked, push_outcome, PeekResult, PeekView, StorageError};
use crate::rivers::{cleared, content, pushed, touched, Rivers};
pub use crate::replication::JohnReplicationLog;
pub use crate::transport::HttpIntercommunication;

verus! {

/// A command on a river: the unit of replication.
#[derive(Debug)]
pub enum JohnCommand {
    /// Deletes the river of that name.
    Clear(String),
    /// Appends to the river of that name the message.
    Push(String, String),
    /// Reads the river of that name at the offset, or its latest message.
    Peek(String, Option<usize>),
}

/// What a command stands for.
pub enum CommandView {
    Clear(Seq<char>),
    Push(Seq<char>, Seq<char>),
    Peek(Seq<char>, Option<usize>),
}

impl View for JohnCommand {
    type V = CommandView;

    open spec fn view(&self) -> CommandView {
        match *self {
            JohnCommand::Clear(river) => CommandView::Clear(river@),
            JohnCommand::Push(river, message) => CommandView::Push(river@, message@),
            JohnCommand::Peek(river, offset) => CommandView::Peek(river@, offset),
        }
    }
}

impl Clone for JohnCommand {
    fn clone(&self) -> (r: JohnCommand)
        ensures
            r == *self,
    {
        match self {
            JohnCommand::Clear(river) => JohnCommand::Clear(river.clone()),
            JohnCommand::Push(river, message) => JohnCommand::Push(river.clone(), message.clone()),
            JohnCommand::Peek(river, offset) => JohnCommand::Peek(river.clone(), *offset),
        }
    }
}

impl JohnCommand {
    /// Whether two commands ask for the same operation on the same river
    /// with the same arguments.
    pub fn same(&self, other: &JohnCommand) -> (r: bool)
        ensures
            r == (self@ == other@),
    {
        match (self, other) {
            (JohnCommand::Clear(a), JohnCommand::Clear(b)) => *a == *b,
            (JohnCommand::Push(a, m), JohnCommand::Push(b, n)) => *a == *b && *m == *n,
            (JohnCommand::Peek(a, at), JohnCommand::Peek(b, bt)) => {
                let same_offset = match (at, bt) {
                    (Some(x), Some(y)) => *x == *y,
                    (None, None) => true,
                    _ => false,
                };
                *a == *b && same_offset
            },
            _ => false,
        }
    }
}

/// The outcome of a command that was applied.
#[derive(Debug)]
pub enum JohnResponse {
    /// The river was cleared.
    ClearResponse,
    /// The push was applied.
    PushResponse,
    /// What the peek found, if anything.
    PeekResponse(Option<PeekResult>),
}

/// What a response stands for.
pub enum ResponseView {
    ClearResponse,
    PushResponse,
    PeekResponse(Option<PeekView>),
}

impl View for JohnResponse {
    type V = ResponseView;

    open spec fn view(&self) -> ResponseView {
        match *self {
            JohnResponse::ClearResponse => ResponseView::ClearResponse,
            JohnResponse::PushResponse => ResponseView::PushResponse,
            JohnResponse::PeekResponse(found) => ResponseView::PeekResponse(peek_view(found)),
        }
    }
}

impl Clone for JohnResponse {
    fn clone(&self) -> (r: JohnResponse)
        ensures
            r@ == self@,
    {
        match self {
            JohnResponse::ClearResponse => JohnResponse::ClearResponse,
            JohnResponse::PushResponse => JohnResponse::PushResponse,
            JohnResponse::PeekResponse(found) => JohnResponse::PeekResponse(
                match found {
                    Some(result) => Some(result.clone()),
                    None => None,
                },
            ),
        }
    }
}

/// A request for the outcome of a command.
#[derive(Debug)]
pub enum JohnQuery {
    /// Asks for the outcome of `Clear` on the river of that name.
    ClearQuery(String),
    /// Asks for the outcome of `Push` of the message to the river.
    PushQuery(String, String),
    /// Asks for the outcome of `Peek` at the river and offset.
    PeekQuery(String, Option<usize>),
}

impl JohnQuery {
    /// The command whose outcome the query asks for.
    pub open spec fn asks(&self) -> CommandView {
        match *self {
            JohnQuery::ClearQuery(river) => CommandView::Clear(river@),
            JohnQuery::PushQuery(river, message) => CommandView::Push(river@, message@),
            JohnQuery::PeekQuery(river, offset) => CommandView::Peek(river@, offset),
        }
    }

    /// The command whose outcome the query asks for.
    pub fn command(&self) -> (r: JohnCommand)
        ensures
            r@ == self.asks(),
    {
        match self {
            JohnQuery::ClearQuery(river) => JohnCommand::Clear(river.clone()),
            JohnQuery::PushQuery(river, message) => JohnCommand::Push(
                river.clone(),
                message.clone(),
            ),
            JohnQuery::PeekQuery(river, offset) => JohnCommand::Peek(river.clone(), *offset),
        }
    }
}

impl Clone for JohnQuery {
    fn clone(&self) -> (r: JohnQuery)
        ensures
            r == *self,
    {
        match self {
            JohnQuery::ClearQuery(river) => JohnQuery::ClearQuery(river.clone()),
            JohnQuery::PushQuery(river, message) => JohnQuery::PushQuery(
                river.clone(),
                message.clone(),
            ),
            JohnQuery::PeekQuery(river, offset) => JohnQuery::PeekQuery(river.clone(), *offset),
        }
    }
}

/// Whether the command can be applied to the stores now. Only a push can
/// fail to: where the store cannot take the write. A push of a message that
/// is too large for a slot is applied and changes nothing, on every node
/// alike.
pub open spec fn applies(files: Map<Seq<char>, Seq<u8>>, command: CommandView) -> bool {
    match command {
        CommandView::Push(river, message) => push_outcome(
            content(files, river).len(),
            encode_utf8(message),
        ) != Err::<(), StorageError>(StorageError::IoError),
        _ => true,
    }
}

/// The stores after the command was applied.
pub open spec fn effect(files: Map<Seq<char>, Seq<u8>>, command: CommandView) -> Map<
    Seq<char>,
    Seq<u8>,
> {
    match command {
        CommandView::Clear(river) => cleared(files, river),
        CommandView::Push(river, message) => if push_outcome(
            content(files, river).len(),
            encode_utf8(message),
        ) is Ok {
            pushed(files, river, message)
        } else {
            files
        },
        CommandView::Peek(river, offset) => touched(files, river),
    }
}

/// The response to the command when it is applied to the stores.
pub open spec fn outcome(files: Map<Seq<char>, Seq<u8>>, command: CommandView) -> ResponseView {
    match command {
        CommandView::Clear(river) => ResponseView::ClearResponse,
        CommandView::Push(river, message) => ResponseView::PushResponse,
        CommandView::Peek(river, offset) => ResponseView::PeekResponse(
            peeked(content(files, river), offset),
        ),
    }
}

/// Applies the command to the rivers and answers with its response. The
/// same command on the same rivers gives the same response and the same
/// rivers. A push that the store cannot take fails and changes nothing.
pub fn apply(rivers: &mut Rivers, command: &JohnCommand) -> (r: Result<JohnResponse, StorageError>)
    requires
        old(rivers).wf(),
    ensures
        final(rivers).wf(),
        r is Ok <==> applies(old(rivers)@, command@),
        r matches Ok(response) ==> response@ == outcome(old(rivers)@, command@)
            && final(rivers)@ == effect(old(rivers)@, command@),
        r matches Err(error) ==> error == StorageError::IoError && final(rivers)@ == old(rivers)@,
{
    match command {
        JohnCommand::Clear(river) => {
            let _ = rivers.destroy(river.as_str());
            Ok(JohnResponse::ClearResponse)
        },
        JohnCommand::Push(river, message) => match rivers.push(river.as_str(), message.as_str()) {
            Ok(()) => Ok(JohnResponse::PushResponse),
            Err(StorageError::MessageTooLarge) => Ok(JohnResponse::PushResponse),
            Err(StorageError::IoError) => Err(StorageError::IoError),
        },
        JohnCommand::Peek(river, offset) => {
            let found = rivers.peek_at(river.as_str(), *offset);
            Ok(JohnResponse::PeekResponse(found))
        },
    }
}

/// The time in milliseconds that a node waits before it stands for
/// election, drawn from `random`: 150 and what is left of the size of
/// `random` after division by 150, so from 150 up to, but not including,
/// 300.
pub fn election_timeout(random: i64) -> (timeout: i64)
    ensures
        timeout == 150 + vstd::math::abs(random as int) % 150,
        150 <= timeout < 300,
{
    let spread: i64 = random % 150;
    let distance: i64 = if spread < 0 {
        -spread
    } else {
        spread
    };
    150 + distance
}

} // verus!
