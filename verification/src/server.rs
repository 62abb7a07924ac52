//! What the node answers to its clients and peers. The functions here
//! decide the answer to a request from the request's parts; listening,
//! routing and encoding are left to the caller.

use vstd::prelude::*;
use vstd::string::*;
use vstd::utf8::{decode_utf8, encode_utf8, valid_utf8};
use crate::river::{peek_view, peeked, push_outcome, PeekResult, PeekView, StorageError};
use crate::rivers::{content, pushed, touched, Rivers};
use crate::text::text_of_utf8;
use crate::transport::{HttpIntercommunication, Package};

verus! {

/// The status of an answer.
#[derive(Clone, Copy, Debug, PartialEq, Eq, Structural)]
pub enum Status {
    /// The request was met.
    Success,
    /// The message was appended.
    Created,
    /// The request cannot be read.
    BadRequest,
    /// There is nothing to answer with.
    NotFound,
    /// The message is too large for a slot.
    PayloadTooLarge,
    /// The store could not take the write.
    InternalServerError,
}

impl Status {
    /// The number of the status on the wire.
    pub open spec fn code_spec(self) -> u16 {
        match self {
            Status::Success => 200,
            Status::Created => 201,
            Status::BadRequest => 400,
            Status::NotFound => 404,
            Status::PayloadTooLarge => 413,
            Status::InternalServerError => 500,
        }
    }

    /// The number of the status on the wire.
    #[verifier::when_used_as_spec(code_spec)]
    pub fn code(self) -> (r: u16)
        ensures
            r == self.code_spec(),
    {
        match self {
            Status::Success => 200,
            Status::Created => 201,
            Status::BadRequest => 400,
            Status::NotFound => 404,
            Status::PayloadTooLarge => 413,
            Status::InternalServerError => 500,
        }
    }
}

/// The body of an answer.
#[derive(Debug)]
pub enum Body {
    /// Plain text.
    Text(String),
    /// A peeked message, which the caller encodes.
    Peeked(PeekResult),
}

/// What a body stands for.
pub enum BodyView {
    Text(Seq<char>),
    Peeked(PeekView),
}

/// An answer to a request.
#[derive(Debug)]
pub struct Reply {
    pub status: Status,
    pub body: Body,
}

/// What an answer stands for.
pub struct ReplyView {
    pub status: Status,
    pub body: BodyView,
}

impl View for Reply {
    type V = ReplyView;

    open spec fn view(&self) -> ReplyView {
        ReplyView {
            status: self.status,
            body: match self.body {
                Body::Text(text) => BodyView::Text(text@),
                Body::Peeked(result) => BodyView::Peeked(result@),
            },
        }
    }
}

/// An answer of that status with that text.
pub open spec fn text_reply(status: Status, text: Seq<char>) -> ReplyView {
    ReplyView { status, body: BodyView::Text(text) }
}

/// The byte of the digit zero.
pub const DIGIT_ZERO: u8 = 48;

/// The byte of the digit nine.
pub const DIGIT_NINE: u8 = 57;

/// Whether the bytes are one or more decimal digits.
pub open spec fn is_decimal(digits: Seq<u8>) -> bool {
    digits.len() > 0 && forall|i: int|
        0 <= i < digits.len() ==> DIGIT_ZERO <= #[trigger] digits[i] <= DIGIT_NINE
}

/// The number that decimal digits write.
pub open spec fn decimal(digits: Seq<u8>) -> nat
    decreases digits.len(),
{
    if digits.len() == 0 {
        0
    } else {
        decimal(digits.drop_last()) * 10 + (digits.last() - DIGIT_ZERO) as nat
    }
}

/// The offset that the text of a request names: the number it writes in
/// decimal digits, where it is nothing but digits and the number fits.
pub open spec fn offset_of(text: Seq<u8>) -> Option<usize> {
    if is_decimal(text) && decimal(text) <= usize::MAX {
        Some(decimal(text) as usize)
    } else {
        None
    }
}

/// The digits that come first write no more than all of them.
proof fn lemma_decimal_grows(digits: Seq<u8>, n: int)
    requires
        0 <= n <= digits.len(),
        forall|i: int|
            0 <= i < digits.len() ==> DIGIT_ZERO <= #[trigger] digits[i] <= DIGIT_NINE,
    ensures
        decimal(digits.take(n)) <= decimal(digits),
    decreases digits.len() - n,
{
    if n < digits.len() {
        lemma_decimal_grows(digits, n + 1);
        assert(digits.take(n + 1).drop_last() =~= digits.take(n));
    } else {
        assert(digits.take(n) =~= digits);
    }
}

/// Reads the offset that a request names.
pub fn parse_offset(text: &str) -> (r: Option<usize>)
    ensures
        r == offset_of(encode_utf8(text@)),
{
    let digits = text.as_bytes();
    if digits.len() == 0 {
        return None;
    }
    let mut value: usize = 0;
    let mut i: usize = 0;
    while i < digits.len()
        invariant
            i <= digits.len(),
            digits@ == encode_utf8(text@),
            forall|j: int| 0 <= j < i ==> DIGIT_ZERO <= #[trigger] digits@[j] <= DIGIT_NINE,
            value == decimal(digits@.take(i as int)),
        decreases digits.len() - i,
    {
        let digit: u8 = digits[i];
        if digit < DIGIT_ZERO || digit > DIGIT_NINE {
            return None;
        }
        proof {
            assert(digits@.take(i + 1).drop_last() =~= digits@.take(i as int));
            if forall|j: int|
                0 <= j < digits.len() ==> DIGIT_ZERO <= #[trigger] digits@[j] <= DIGIT_NINE {
                lemma_decimal_grows(digits@, i + 1);
            }
        }
        let shifted: usize = match value.checked_mul(10) {
            Some(shifted) => shifted,
            None => {
                return None;
            },
        };
        value = match shifted.checked_add((digit - DIGIT_ZERO) as usize) {
            Some(sum) => sum,
            None => {
                return None;
            },
        };
        i += 1;
    }
    proof {
        assert(digits@.take(i as int) =~= digits@);
    }
    Some(value)
}

/// The port that the text of a setting names, where it names one.
pub open spec fn port_of(text: Seq<u8>) -> Option<u16> {
    match offset_of(text) {
        Some(number) => if number <= u16::MAX {
            Some(number as u16)
        } else {
            None
        },
        None => None,
    }
}

/// The port on which the server listens where nothing else is set.
pub const DEFAULT_PORT: u16 = 3000;

/// The port on which the server is to listen, given what the setting for it
/// holds, if it is set: the port that the setting names, or the default one
/// where it is not set or names no port.
pub fn server_port(setting: Option<&str>) -> (port: u16)
    ensures
        port == match setting {
            Some(text) => match port_of(encode_utf8(text@)) {
                Some(named) => named,
                None => DEFAULT_PORT,
            },
            None => DEFAULT_PORT,
        },
{
    match setting {
        Some(text) => match parse_offset(text) {
            Some(number) => if number <= u16::MAX as usize {
                number as u16
            } else {
                DEFAULT_PORT
            },
            None => DEFAULT_PORT,
        },
        None => DEFAULT_PORT,
    }
}

/// How a request asks.
#[derive(Clone, Copy, Debug, PartialEq, Eq, Structural)]
pub enum Method {
    Get,
    Post,
}

/// What the server answers to.
#[derive(Clone, Copy, Debug, PartialEq, Eq, Structural)]
pub enum Route {
    /// Greets the one named.
    Hello,
    /// Reads the latest message of a river.
    Peek,
    /// Reads the message of a river at an offset.
    PeekAt,
    /// Appends a message to a river.
    Push,
    /// Tells who leads the cluster.
    RaftLeader,
    /// Takes a package from a peer.
    RaftPackage,
}

impl Route {
    /// How a request for the route asks.
    pub open spec fn method_spec(self) -> Method {
        match self {
            Route::Push => Method::Post,
            Route::RaftPackage => Method::Post,
            _ => Method::Get,
        }
    }

    /// How a request for the route asks.
    #[verifier::when_used_as_spec(method_spec)]
    pub fn method(self) -> (r: Method)
        ensures
            r == self.method_spec(),
    {
        match self {
            Route::Push => Method::Post,
            Route::RaftPackage => Method::Post,
            _ => Method::Get,
        }
    }

    /// The path of the route. A part that starts with a colon stands for
    /// what a request names there.
    pub open spec fn path_spec(self) -> Seq<char> {
        match self {
            Route::Hello => "/hello/:name"@,
            Route::Peek => "/peek/:river"@,
            Route::PeekAt => "/peek/:river/:offset"@,
            Route::Push => "/push/:river"@,
            Route::RaftLeader => "/raft/leader"@,
            Route::RaftPackage => "/raft/package"@,
        }
    }

    /// The path of the route.
    pub fn path(self) -> (r: &'static str)
        ensures
            r@ == self.path_spec(),
    {
        match self {
            Route::Hello => "/hello/:name",
            Route::Peek => "/peek/:river",
            Route::PeekAt => "/peek/:river/:offset",
            Route::Push => "/push/:river",
            Route::RaftLeader => "/raft/leader",
            Route::RaftPackage => "/raft/package",
        }
    }
}

/// The node's face to its clients.
pub struct Server {
    port: u16,
}

impl Server {
    /// A server that is to listen on `port`.
    pub fn new(port: u16) -> (r: Server)
        ensures
            r.port_spec() == port,
    {
        Server { port }
    }

    /// The port on which the server is to listen.
    pub closed spec fn port_spec(&self) -> u16 {
        self.port
    }

    /// The port on which the server is to listen.
    #[verifier::when_used_as_spec(port_spec)]
    pub fn port(&self) -> (r: u16)
        ensures
            r == self.port_spec(),
    {
        self.port
    }

    /// The routes that the server answers to, in the order in which they
    /// are to be made known.
    pub fn routes() -> (r: Vec<Route>)
        ensures
            r@ == seq![
                Route::Hello,
                Route::Peek,
                Route::PeekAt,
                Route::Push,
                Route::RaftLeader,
                Route::RaftPackage,
            ],
    {
        let mut routes: Vec<Route> = Vec::new();
        routes.push(Route::Hello);
        routes.push(Route::Peek);
        routes.push(Route::PeekAt);
        routes.push(Route::Push);
        routes.push(Route::RaftLeader);
        routes.push(Route::RaftPackage);
        proof {
            assert(routes@ =~= seq![
                Route::Hello,
                Route::Peek,
                Route::PeekAt,
                Route::Push,
                Route::RaftLeader,
                Route::RaftPackage,
            ]);
        }
        routes
    }

    /// Greets `name`.
    pub fn hello(name: &str) -> (r: Reply)
        ensures
            r@ == text_reply(Status::Success, "Hello, "@ + name@ + "!"@),
    {
        Reply {
            status: Status::Success,
            body: Body::Text(String::from_str("Hello, ").concat(name).concat("!")),
        }
    }

    /// Answers a peek at the river named `river`. The offset is the one
    /// that `offset` names, or the latest where it names none. The answer
    /// is the message found, or not found with no text.
    pub fn peek(rivers: &mut Rivers, river: &str, offset: &str) -> (r: Reply)
        requires
            old(rivers).wf(),
        ensures
            final(rivers).wf(),
            final(rivers)@ == touched(old(rivers)@, river@),
            r@ == match peeked(content(old(rivers)@, river@), offset_of(encode_utf8(offset@))) {
                Some(found) => ReplyView { status: Status::Success, body: BodyView::Peeked(found) },
                None => text_reply(Status::NotFound, Seq::empty()),
            },
    {
        let offset = parse_offset(offset);
        match rivers.peek_at(river, offset) {
            Some(result) => Reply { status: Status::Success, body: Body::Peeked(result) },
            None => Reply { status: Status::NotFound, body: Body::Text(String::new()) },
        }
    }

    /// What a push of `body` to a store of `len` bytes is answered with.
    pub open spec fn push_status(len: nat, body: Seq<u8>) -> Status {
        if !valid_utf8(body) {
            Status::BadRequest
        } else {
            match push_outcome(len, body) {
                Ok(_) => Status::Created,
                Err(StorageError::MessageTooLarge) => Status::PayloadTooLarge,
                Err(StorageError::IoError) => Status::InternalServerError,
            }
        }
    }

    /// What the answer to a push says.
    pub open spec fn push_text(status: Status) -> Seq<char> {
        match status {
            Status::BadRequest => "unable to parse response body as utf8"@,
            Status::PayloadTooLarge => "message too large"@,
            Status::InternalServerError => "unable to push message"@,
            _ => Seq::empty(),
        }
    }

    /// Answers a push of `body` to the river named `river`: created where
    /// the message was appended; else the river stays as it was, and the
    /// answer says why.
    pub fn push(rivers: &mut Rivers, river: &str, body: &[u8]) -> (r: Reply)
        requires
            old(rivers).wf(),
        ensures
            final(rivers).wf(),
            r@ == text_reply(
                Self::push_status(content(old(rivers)@, river@).len(), body@),
                Self::push_text(Self::push_status(content(old(rivers)@, river@).len(), body@)),
            ),
            final(rivers)@ == if r.status == Status::Created {
                pushed(old(rivers)@, river@, decode_utf8(body@))
            } else {
                old(rivers)@
            },
    {
        match text_of_utf8(body) {
            Some(message) => {
                proof {
                    vstd::utf8::decode_utf8_encode_utf8(body@);
                }
                match rivers.push(river, message) {
                    Ok(()) => Reply { status: Status::Created, body: Body::Text(String::new()) },
                    Err(StorageError::MessageTooLarge) => Reply {
                        status: Status::PayloadTooLarge,
                        body: Body::Text(String::from_str("message too large")),
                    },
                    Err(StorageError::IoError) => Reply {
                        status: Status::InternalServerError,
                        body: Body::Text(String::from_str("unable to push message")),
                    },
                }
            },
            None => Reply {
                status: Status::BadRequest,
                body: Body::Text(String::from_str("unable to parse response body as utf8")),
            },
        }
    }
}

/// Answers the question who leads the cluster.
pub struct RaftLeaderHandler;

impl RaftLeaderHandler {
    /// A handler.
    pub fn new() -> RaftLeaderHandler {
        RaftLeaderHandler
    }

    /// The answer where `leader_host` is the host of the leader that the
    /// node knows of: the host, or not found where it knows of none.
    pub fn call(&self, leader_host: Option<String>) -> (r: Reply)
        ensures
            r@ == match leader_host {
                Some(host) => text_reply(Status::Success, host@),
                None => text_reply(Status::NotFound, "No leader elected"@),
            },
    {
        match leader_host {
            Some(host) => Reply { status: Status::Success, body: Body::Text(host) },
            None => Reply {
                status: Status::NotFound,
                body: Body::Text(String::from_str("No leader elected")),
            },
        }
    }
}

/// Takes the packages that peers post to the node.
pub struct RaftPackageHandler;

impl RaftPackageHandler {
    /// A handler.
    pub fn new() -> RaftPackageHandler {
        RaftPackageHandler
    }

    /// Puts `package` into the mailbox, where the node will find it, and
    /// acknowledges. Without a registered node the package is dropped and
    /// the answer says that none was found.
    pub fn call(&self, mailbox: &mut HttpIntercommunication, package: Package) -> (r: Reply)
        ensures
            final(mailbox).outbox() == old(mailbox).outbox(),
            final(mailbox).inbox() == match old(mailbox).inbox() {
                Some(waiting) => Some(waiting.push(package)),
                None => None,
            },
            r@ == if old(mailbox).inbox() is Some {
                text_reply(Status::Success, "dummy"@)
            } else {
                text_reply(Status::NotFound, "no node registered"@)
            },
    {
        if mailbox.deliver(package) {
            Reply { status: Status::Success, body: Body::Text(String::from_str("dummy")) }
        } else {
            Reply {
                status: Status::NotFound,
                body: Body::Text(String::from_str("no node registered")),
            }
        }
    }
}

} // verus!
