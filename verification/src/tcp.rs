//! The decisions of the network service: where to listen, where to send,
//! and when a listener has served the connections it was asked to serve.
//!
//! Sockets, threads and the bytes that move through them belong to the
//! caller. The caller binds [`Listener::address`], accepts connections in a
//! loop, hands each one to a worker of its own with a fresh table, and asks
//! [`Listener::served`] after each whether to stop.

use std::io::Stdout;
use vstd::prelude::*;
use crate::text::{chars_of, decimal, push_decimal, push_text};

verus! {

/// `std::io::Stdout`, the handle to the standard output of the process.
/// It is carried through as an opaque value; nothing is known of it.
#[verifier::external_type_specification]
#[verifier::external_body]
pub struct ExStdout(Stdout);

/// `std::io::stdout` hands out a handle to the standard output of the
/// process. Trusted, and nothing is claimed of the handle.
pub assume_specification[ std::io::stdout ]() -> (out: Stdout)
;

/// A source of output sinks: whoever writes reports asks it for one.
pub trait Writer<W>: Sync + Send {
    /// A sink for reports.
    fn output(&self) -> W;
}

/// The source of sinks that all write to standard output.
pub struct StdoutWriter {}

impl StdoutWriter {
    /// The writer to standard output.
    pub fn new() -> (writer: StdoutWriter)
        ensures
            writer == (StdoutWriter {}),
    {
        StdoutWriter {  }
    }
}

impl Writer<Stdout> for StdoutWriter {
    fn output(&self) -> Stdout {
        std::io::stdout()
    }
}

/// How many connections a listener may still serve: a number, or no limit.
pub type Budget = Option<nat>;

/// The budget that a count of connections asks for. A negative count asks
/// for no limit. A count of zero is served like a count of one: the budget
/// is looked at only after a connection has been served.
pub open spec fn budget_of(live: int) -> Budget {
    if live < 0 {
        None
    } else if live == 0 {
        Some(1nat)
    } else {
        Some(live as nat)
    }
}

/// The budget after one more connection has been served.
pub open spec fn spend(budget: Budget) -> Budget {
    match budget {
        None => None,
        Some(n) => if n == 0 {
            Some(0nat)
        } else {
            Some((n - 1) as nat)
        },
    }
}

/// The budget after `connections` more connections have been served.
pub open spec fn spend_many(budget: Budget, connections: nat) -> Budget
    decreases connections,
{
    if connections == 0 {
        budget
    } else {
        spend(spend_many(budget, (connections - 1) as nat))
    }
}

/// Whether a listener with this budget stops.
pub open spec fn exhausted(budget: Budget) -> bool {
    budget == Some(0nat)
}

/// A listener without a limit never stops.
pub proof fn lemma_forever_never_stops(connections: nat)
    ensures
        !exhausted(spend_many(None, connections)),
        spend_many(None, connections) == None::<nat>,
    decreases connections,
{
    if connections > 0 {
        lemma_forever_never_stops((connections - 1) as nat);
    }
}

/// A listener asked to serve `limit` connections, `limit` at least one,
/// has `limit - connections` left after `connections` of them: it goes
/// on before the last of them and stops with it.
pub proof fn lemma_stops_at_limit(limit: nat, connections: nat)
    requires
        limit >= 1,
        connections <= limit,
    ensures
        spend_many(Some(limit), connections) == Some((limit - connections) as nat),
        exhausted(spend_many(Some(limit), connections)) <==> connections == limit,
    decreases connections,
{
    if connections > 0 {
        lemma_stops_at_limit(limit, (connections - 1) as nat);
    }
}

/// Once stopped, a listener stays stopped.
pub proof fn lemma_stopped_stays(budget: Budget, connections: nat)
    requires
        exhausted(budget),
    ensures
        exhausted(spend_many(budget, connections)),
    decreases connections,
{
    if connections > 0 {
        lemma_stopped_stays(budget, (connections - 1) as nat);
    }
}

/// The text of a local address with the given port.
pub open spec fn local_address(port: nat) -> Seq<char> {
    "127.0.0.1:"@ + decimal(port)
}

/// The state of an accept loop: the port it listens on and the connections
/// it may still serve.
pub struct Listener {
    port: u32,
    // Negative: no limit. Otherwise the connections left to serve.
    live: i32,
}

impl Listener {
    /// The port to listen on.
    pub closed spec fn port(&self) -> u32 {
        self.port
    }

    /// The connections that may still be served.
    pub closed spec fn budget(&self) -> Budget {
        if self.live < 0 {
            None
        } else {
            Some(self.live as nat)
        }
    }

    /// A listener on `port` that serves connections without end.
    pub fn listen_forever(port: u32) -> (listener: Listener)
        ensures
            listener.port() == port,
            listener.budget() == None::<nat>,
    {
        Listener::listen(port, -1)
    }

    /// A listener on `port` that stops once it has served `live`
    /// connections; see [`budget_of`] for counts below one.
    pub fn listen(port: u32, live: i32) -> (listener: Listener)
        ensures
            listener.port() == port,
            listener.budget() == budget_of(live as int),
    {
        Listener {
            port,
            live: if live == 0 {
                1
            } else {
                live
            },
        }
    }

    /// The address to bind: the local interface and the listener's port.
    pub fn address(&self) -> (address: String)
        ensures
            address@ == local_address(self.port() as nat),
    {
        let mut address = String::new();
        push_text(&mut address, "127.0.0.1:");
        push_decimal(&mut address, self.port as u64);
        assert(Seq::<char>::empty() + "127.0.0.1:"@ =~= "127.0.0.1:"@);
        address
    }

    /// Whether the listener has served all it was asked to serve.
    pub fn finished(&self) -> (done: bool)
        ensures
            done == exhausted(self.budget()),
    {
        self.live == 0
    }

    /// Records that one more connection has been handed to its worker, and
    /// says whether the accept loop stops now.
    pub fn served(&mut self) -> (stop: bool)
        ensures
            final(self).port() == old(self).port(),
            final(self).budget() == spend(old(self).budget()),
            stop == exhausted(final(self).budget()),
    {
        if self.live > 0 {
            self.live = self.live - 1;
        }
        self.live == 0
    }
}

/// The sending side: where to connect, and what to put on the wire.
pub struct Sender {}

impl Sender {
    /// The address to connect to: `address` itself where it names a host
    /// and a port with a colon between them, else `address` taken as a port
    /// of the local interface.
    pub open spec fn destination_of(address: Seq<char>) -> Seq<char> {
        if address.contains(':') {
            address
        } else {
            "127.0.0.1:"@ + address
        }
    }

    /// The address to connect to, given what the user asked for.
    pub fn destination(address: &str) -> (target: String)
        ensures
            target@ == Sender::destination_of(address@),
    {
        let text = chars_of(address);
        let mut i: usize = 0;
        let mut found = false;
        while i < text.len() && !found
            invariant
                i <= text.len(),
                found ==> text@.contains(':'),
                !found ==> forall|j: int| 0 <= j < i ==> text@[j] != ':',
            decreases text.len() - i + if found { 0int } else { 1int },
        {
            if text[i] == ':' {
                found = true;
            } else {
                i += 1;
            }
        }
        let mut target = String::new();
        if !found {
            push_text(&mut target, "127.0.0.1:");
        }
        push_text(&mut target, address);
        assert(Seq::<char>::empty() + "127.0.0.1:"@ =~= "127.0.0.1:"@);
        assert(Seq::<char>::empty() + address@ =~= address@);
        target
    }

    /// A record as it goes on the wire: the line and a line feed.
    pub fn frame(line: &str) -> (wire: String)
        ensures
            wire@ == line@.push('\n'),
    {
        let mut wire = String::new();
        push_text(&mut wire, line);
        wire.push('\n');
        assert(Seq::<char>::empty() + line@ =~= line@);
        wire
    }
}

} // verus!
