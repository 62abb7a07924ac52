//! The mailbox between a node and its peers. Packages that the node hands
//! over wait here until they are taken to be posted to their recipient, and
//! packages that arrive from peers wait here until the node takes them.

use vstd::prelude::*;
use vstd::string::*;
use crate::raft::JohnCommand;

verus! {

/// A unit of replication traffic: a command, its index in the sender's log,
/// and the sender's host.
#[derive(Debug)]
pub struct Package {
    pub command: JohnCommand,
    pub index: usize,
    pub sender: String,
}

impl Clone for Package {
    fn clone(&self) -> (r: Package)
        ensures
            r == *self,
    {
        Package { command: self.command.clone(), index: self.index, sender: self.sender.clone() }
    }
}

/// The node's end of the mailbox, as `register` hands it out.
#[derive(Debug)]
pub struct Endpoint {
    /// The host under which the node is known to its peers.
    pub host: String,
}

/// A package on its way out: where to post it, and what.
#[derive(Debug)]
pub struct Outgoing {
    /// The address to post to, as the URL parser writes it.
    pub url: String,
    /// The package to post.
    pub package: Package,
}

/// The address at which the node at `recipient` takes packages.
pub open spec fn package_address(recipient: Seq<char>) -> Seq<char> {
    "http://"@ + recipient + "/raft/package"@
}

/// What `url::Url::parse` makes of `input`: the URL as the parser writes it
/// back, or nothing where it refuses the input.
pub uninterp spec fn parsed_url(input: Seq<char>) -> Option<Seq<char>>;

/// The view of a URL that may have been parsed.
pub open spec fn url_view(r: Option<String>) -> Option<Seq<char>> {
    match r {
        Some(url) => Some(url@),
        None => None,
    }
}

/// Parses `input` as an absolute URL and writes it back as text.
///
/// Trusted: calls `url::Url::parse` and turns the `Url` it returns into its
/// string. The contract claims only that the result depends on `input`
/// alone.
#[verifier::external_body]
fn parse_url(input: &str) -> (r: Option<String>)
    ensures
        url_view(r) == parsed_url(input@),
{
    url::Url::parse(input).ok().map(String::from)
}

/// The mailbox of a node that talks to its peers over HTTP.
pub struct HttpIntercommunication {
    outbox: Vec<Package>,
    registered: bool,
    inbox: Vec<Package>,
}

impl HttpIntercommunication {
    /// The packages that the node handed over and that were not taken yet,
    /// oldest first.
    pub closed spec fn outbox(&self) -> Seq<Package> {
        self.outbox@
    }

    /// The packages that arrived for the node and that it has not taken
    /// yet, oldest first; none as long as no node is registered.
    pub closed spec fn inbox(&self) -> Option<Seq<Package>> {
        if self.registered {
            Some(self.inbox@)
        } else {
            None
        }
    }

    /// An empty mailbox with no node registered.
    pub fn new() -> (r: HttpIntercommunication)
        ensures
            r.outbox() == Seq::<Package>::empty(),
            r.inbox() is None,
    {
        HttpIntercommunication { outbox: Vec::new(), registered: false, inbox: Vec::new() }
    }

    /// Registers the node under `host`. What had arrived for a node that
    /// was registered before is dropped.
    pub fn register(&mut self, host: String) -> (r: Endpoint)
        ensures
            r.host == host,
            final(self).outbox() == old(self).outbox(),
            final(self).inbox() == Some(Seq::<Package>::empty()),
    {
        self.inbox = Vec::new();
        self.registered = true;
        Endpoint { host }
    }

    /// Whether a node is registered.
    pub fn is_registered(&self) -> (r: bool)
        ensures
            r == self.inbox() is Some,
    {
        self.registered
    }

    /// Where the packages that arrive for the node are put.
    pub fn fetch_endpoint(&mut self) -> (r: &mut Vec<Package>)
        requires
            old(self).inbox() is Some,
        ensures
            r@ == old(self).inbox().unwrap(),
            final(self).inbox() == Some(final(r)@),
            final(self).outbox() == old(self).outbox(),
    {
        &mut self.inbox
    }

    /// Puts a package that arrived from a peer where the node will find it.
    /// Tells whether a node is registered to take it; without one the
    /// package is dropped.
    pub fn deliver(&mut self, package: Package) -> (r: bool)
        ensures
            r == old(self).inbox() is Some,
            final(self).outbox() == old(self).outbox(),
            final(self).inbox() == match old(self).inbox() {
                Some(waiting) => Some(waiting.push(package)),
                None => None,
            },
    {
        if self.registered {
            self.fetch_endpoint().push(package);
            true
        } else {
            false
        }
    }

    /// Takes the oldest package that arrived for the node, if there is one.
    pub fn take_arrived(&mut self) -> (r: Option<Package>)
        ensures
            final(self).outbox() == old(self).outbox(),
            match old(self).inbox() {
                Some(waiting) => if waiting.len() > 0 {
                    r == Some(waiting[0]) && final(self).inbox() == Some(waiting.drop_first())
                } else {
                    r is None && final(self).inbox() == old(self).inbox()
                },
                None => r is None && final(self).inbox() is None,
            },
    {
        if self.registered && self.inbox.len() > 0 {
            let package = self.inbox.remove(0);
            proof {
                assert(self.inbox@ =~= old(self).inbox@.drop_first());
            }
            Some(package)
        } else {
            None
        }
    }

    /// Hands a package over, to be posted to a peer.
    pub fn submit(&mut self, package: Package)
        ensures
            final(self).outbox() == old(self).outbox().push(package),
            final(self).inbox() == old(self).inbox(),
    {
        self.outbox.push(package);
    }

    /// Takes the oldest package that was handed over, if there is one.
    pub fn receive(&mut self) -> (r: Option<Package>)
        ensures
            final(self).inbox() == old(self).inbox(),
            if old(self).outbox().len() > 0 {
                r == Some(old(self).outbox()[0]) && final(self).outbox() == old(
                    self,
                ).outbox().drop_first()
            } else {
                r is None && final(self).outbox() == old(self).outbox()
            },
    {
        if self.outbox.len() > 0 {
            let package = self.outbox.remove(0);
            proof {
                assert(self.outbox@ =~= old(self).outbox@.drop_first());
            }
            Some(package)
        } else {
            None
        }
    }

    /// The address at which the node at `recipient` takes packages, as text.
    pub fn address(recipient: &str) -> (r: String)
        ensures
            r@ == package_address(recipient@),
    {
        String::from_str("http://").concat(recipient).concat("/raft/package")
    }

    /// Makes ready `package` to be posted to the node at `recipient`.
    pub fn send(&mut self, recipient: String, package: Package) -> (r: Outgoing)
        requires
            parsed_url(package_address(recipient@)) is Some,
        ensures
            Some(r.url@) == parsed_url(package_address(recipient@)),
            r.package == package,
            final(self).outbox() == old(self).outbox(),
            final(self).inbox() == old(self).inbox(),
    {
        let address = Self::address(recipient.as_str());
        match parse_url(address.as_str()) {
            Some(url) => Outgoing { url, package },
            None => Outgoing { url: address, package },
        }
    }

    /// Makes ready `package` to be posted to the node at `recipient`, where
    /// the recipient's address is a URL. Else the package is dropped.
    pub fn send_if_addressable(&mut self, recipient: String, package: Package) -> (r: Option<
        Outgoing,
    >)
        ensures
            final(self).outbox() == old(self).outbox(),
            final(self).inbox() == old(self).inbox(),
            match r {
                Some(outgoing) => Some(outgoing.url@) == parsed_url(package_address(recipient@))
                    && outgoing.package == package,
                None => parsed_url(package_address(recipient@)) is None,
            },
    {
        let address = Self::address(recipient.as_str());
        match parse_url(address.as_str()) {
            Some(_) => Some(self.send(recipient, package)),
            None => None,
        }
    }

    /// Whether the mailbox reports what it does.
    pub fn is_debug(&self) -> (r: bool)
        ensures
            r,
    {
        true
    }
}

} // verus!
