//! Per-connection protocol handling.
//!
//! Each live connection is driven by the transport's lifecycle callbacks:
//! on connect the client is greeted and registered, inbound text while the
//! connection is open is read as a lenient `subscribe <id>` /
//! `unsubscribe <id>` command protocol, and on close the client is
//! deregistered.  Malformed input is silently dropped and never closes the
//! connection.

use vstd::prelude::*;
use crate::registry::{ClientRegistry, Client, subscribe_view, unsubscribe_view};
use crate::text::{tokens_of, token_views, parse_i32_spec, tokenize, parse_i32, slice_eq};

verus! {

/// A recognized inbound command.
#[derive(Debug, Clone, Copy, PartialEq, Eq, Structural)]
pub enum Command {
    Subscribe(i32),
    Unsubscribe(i32),
}

/// The bytes of the keyword `subscribe`.
pub open spec fn subscribe_keyword() -> Seq<u8> {
    seq![115u8, 117u8, 98u8, 115u8, 99u8, 114u8, 105u8, 98u8, 101u8]
}

/// The bytes of the keyword `unsubscribe`.
pub open spec fn unsubscribe_keyword() -> Seq<u8> {
    seq![117u8, 110u8, 115u8, 117u8, 98u8, 115u8, 99u8, 114u8, 105u8, 98u8, 101u8]
}

fn subscribe_bytes() -> (r: Vec<u8>)
    ensures
        r@ == subscribe_keyword(),
{
    let mut v: Vec<u8> = Vec::new();
    v.push(115);
    v.push(117);
    v.push(98);
    v.push(115);
    v.push(99);
    v.push(114);
    v.push(105);
    v.push(98);
    v.push(101);
    proof {
        assert(v@ =~= subscribe_keyword());
    }
    v
}

fn unsubscribe_bytes() -> (r: Vec<u8>)
    ensures
        r@ == unsubscribe_keyword(),
{
    let mut v: Vec<u8> = Vec::new();
    v.push(117);
    v.push(110);
    v.push(115);
    v.push(117);
    v.push(98);
    v.push(115);
    v.push(99);
    v.push(114);
    v.push(105);
    v.push(98);
    v.push(101);
    proof {
        assert(v@ =~= unsubscribe_keyword());
    }
    v
}

/// The command a message carries, if any: split on whitespace, the first
/// token must be a keyword and the second a channel id; fewer than two
/// tokens, an unknown keyword, or a non-integer channel all mean no
/// command.  Extra tokens are ignored.
pub open spec fn parse_command(msg: Seq<u8>) -> Option<Command> {
    let ts = tokens_of(msg);
    if ts.len() < 2 {
        None
    } else if ts[0] == subscribe_keyword() {
        match parse_i32_spec(ts[1]) {
            Some(c) => Some(Command::Subscribe(c)),
            None => None,
        }
    } else if ts[0] == unsubscribe_keyword() {
        match parse_i32_spec(ts[1]) {
            Some(c) => Some(Command::Unsubscribe(c)),
            None => None,
        }
    } else {
        None
    }
}

/// Reads one inbound text message as a command; mirrors `parse_command`
/// exactly.
pub fn decode_command(msg: &[u8]) -> (r: Option<Command>)
    ensures
        r == parse_command(msg@),
{
    let toks = tokenize(msg);
    if toks.len() < 2 {
        return None;
    }
    proof {
        assert(token_views(toks@).len() == toks@.len());
        assert(token_views(toks@)[0] == toks@[0]@);
        assert(token_views(toks@)[1] == toks@[1]@);
    }
    let kw_sub = subscribe_bytes();
    if slice_eq(toks[0].as_slice(), kw_sub.as_slice()) {
        match parse_i32(toks[1].as_slice()) {
            Some(c) => Some(Command::Subscribe(c)),
            None => None,
        }
    } else {
        let kw_unsub = unsubscribe_bytes();
        if slice_eq(toks[0].as_slice(), kw_unsub.as_slice()) {
            match parse_i32(toks[1].as_slice()) {
                Some(c) => Some(Command::Unsubscribe(c)),
                None => None,
            }
        } else {
            None
        }
    }
}

/// What a command does to the registry when sent over the connection
/// registered under `token`.
pub open spec fn apply_command(m: Map<u64, Set<i32>>, token: u64, cmd: Option<Command>) -> Map<
    u64,
    Set<i32>,
> {
    match cmd {
        None => m,
        Some(Command::Subscribe(c)) => subscribe_view(m, token, c),
        Some(Command::Unsubscribe(c)) => unsubscribe_view(m, token, c),
    }
}

/// Lifecycle of one connection; `Closed` is terminal.
#[derive(Debug, Clone, Copy, PartialEq, Eq, Structural)]
pub enum ConnState {
    Connecting,
    Open,
    Closed,
}

/// The greeting sent on every fresh connection.
pub fn welcome_text() -> (r: &'static str)
    ensures
        r@ == "Welcome to EveMarketAnalysis v0.1.0"@,
{
    "Welcome to EveMarketAnalysis v0.1.0"
}

/// The protocol state machine of one connection, keyed by the connection's
/// token.  The transport owns the event loop and calls in here on connect,
/// inbound message, and close; each call says exactly what it does to the
/// shared registry.
pub struct SocketHandler {
    pub token: u64,
    pub state: ConnState,
}

impl SocketHandler {
    pub fn new(token: u64) -> (r: SocketHandler)
        ensures
            r.token == token,
            r.state == ConnState::Connecting,
    {
        SocketHandler { token, state: ConnState::Connecting }
    }

    /// The connection is up: open the state machine and register a fresh
    /// client under this connection's token, superseding any prior entry
    /// for a reused token.  The caller also sends `welcome_text` on the
    /// connection.
    pub fn on_open(&mut self, clients: &mut ClientRegistry)
        requires
            old(clients).wf(),
        ensures
            final(self).token == old(self).token,
            final(self).state == ConnState::Open,
            final(clients).wf(),
            final(clients)@ =~= old(clients)@.insert(old(self).token, Set::<i32>::empty()),
    {
        self.state = ConnState::Open;
        let client = Client::new();
        clients.register(self.token, client);
    }

    /// One inbound text message.  While the connection is open the message
    /// is read as a command and applied to this connection's client; any
    /// malformed or unknown input changes nothing.  No message ever closes
    /// the connection or changes its state.
    pub fn on_message(&mut self, clients: &mut ClientRegistry, msg: &[u8])
        requires
            old(clients).wf(),
        ensures
            *final(self) == *old(self),
            final(clients).wf(),
            old(self).state == ConnState::Open ==> final(clients)@ =~= apply_command(
                old(clients)@,
                old(self).token,
                parse_command(msg@),
            ),
            old(self).state != ConnState::Open ==> final(clients)@ =~= old(clients)@,
    {
        match self.state {
            ConnState::Open => {
                match decode_command(msg) {
                    Some(Command::Subscribe(c)) => {
                        clients.subscribe(self.token, c);
                    },
                    Some(Command::Unsubscribe(c)) => {
                        clients.unsubscribe(self.token, c);
                    },
                    None => {},
                }
            },
            _ => {},
        }
    }

    /// The connection is gone, locally or remotely: close the state
    /// machine and drop this connection's registry entry.  Closing a token
    /// that was never registered is a no-op.
    pub fn on_close(&mut self, clients: &mut ClientRegistry)
        requires
            old(clients).wf(),
        ensures
            final(self).token == old(self).token,
            final(self).state == ConnState::Closed,
            final(clients).wf(),
            final(clients)@ =~= old(clients)@.remove(old(self).token),
    {
        self.state = ConnState::Closed;
        clients.deregister(self.token);
    }
}

} // verus!
