//! The connection state machine.
//!
//! A [`Context`] owns a connection's identity (host and port), its lifecycle
//! state and its pending error, and makes every protocol decision: what
//! bytes a command sends, what a received buffer means, and how transport
//! events move the state.  The transport itself is the caller's: the caller
//! performs the socket work and reports its outcome here.  A context is not
//! safely shareable across concurrent callers without external mutual
//! exclusion — the protocol is strictly one command, then one reply.

use vstd::prelude::*;

use crate::codec::args_bytes;
use crate::codec::command_frame;
use crate::codec::decode_reply;
use crate::codec::encode_command;
use crate::codec::lossy_utf8;
use crate::codec::reply_rep;
use crate::codec::Decoded;
use crate::error::spec_classify;
use crate::error::Error;
use crate::error::ErrorKind;
use crate::reply::AsBytes;
use crate::reply::Reply;
use crate::wire::first_failure;
use crate::wire::spec_parse;
use crate::wire::Parsed;

verus! {

/// The lifecycle of a connection: fresh, usable, failed, or released.
#[derive(Clone, Copy, Debug, PartialEq, Eq, Structural)]
pub enum State {
    /// Created, transport handshake not yet reported.
    Unconnected,
    /// The transport is up; commands may be issued.
    Connected,
    /// An I/O or protocol failure occurred; commands fail immediately until
    /// a reconnect succeeds.
    Faulted,
    /// Released; terminal.
    Closed,
}

/// A context: one connection's identity, state and pending error.
#[derive(Debug)]
pub struct Context {
    host: String,
    port: usize,
    state: State,
    pending: Option<Error>,
}

impl Context {
    /// The lifecycle state.
    pub closed spec fn spec_state(&self) -> State {
        self.state
    }

    /// The host this connection is for.
    pub closed spec fn spec_host(&self) -> Seq<char> {
        self.host@
    }

    /// The port this connection is for.
    pub closed spec fn spec_port(&self) -> int {
        self.port as int
    }

    /// The recorded error of the last failure, if any.
    pub closed spec fn spec_pending(&self) -> Option<Error> {
        self.pending
    }

    /// Whether two context values are for the same endpoint.
    pub open spec fn same_endpoint(&self, other: &Context) -> bool {
        self.spec_host() == other.spec_host() && self.spec_port() == other.spec_port()
    }

    /// A fresh context for the given endpoint, before any handshake.
    pub fn new(host: &str, port: usize) -> (c: Context)
        ensures
            c.spec_state() == State::Unconnected,
            c.spec_host() == host@,
            c.spec_port() == port as int,
            c.spec_pending() is None,
    {
        Context { host: host.to_owned(), port, state: State::Unconnected, pending: None }
    }

    /// The lifecycle state, for the caller driving the transport.
    pub fn state(&self) -> (s: State)
        ensures
            s == self.spec_state(),
    {
        self.state
    }

    /// The host, for the caller re-establishing the transport.
    pub fn host(&self) -> (h: &str)
        ensures
            h@ == self.spec_host(),
    {
        self.host.as_str()
    }

    /// The port, for the caller re-establishing the transport.
    pub fn port(&self) -> (p: usize)
        ensures
            p as int == self.spec_port(),
    {
        self.port
    }

    /// The transport handshake succeeded (connect or reconnect): the
    /// connection is usable and its error state is clear.
    pub fn connected(&mut self)
        ensures
            final(self).spec_state() == State::Connected,
            final(self).spec_pending() is None,
            old(self).same_endpoint(final(self)),
    {
        self.state = State::Connected;
        self.pending = None;
    }

    /// A transport-level failure with the given numeric code and diagnostic
    /// text: the connection is faulted, the classified error is recorded and
    /// returned.
    pub fn transport_failed(&mut self, code: isize, message: String) -> (e: Error)
        ensures
            final(self).spec_state() == State::Faulted,
            old(self).same_endpoint(final(self)),
            e.kind == spec_classify(code as int),
            e.message@ == message@,
            final(self).spec_pending() matches Option::Some(p) && p.kind == e.kind && p.message@
                == e.message@,
    {
        let e = Error { kind: ErrorKind::from(code), message };
        self.pending = Some(e.duplicate());
        self.state = State::Faulted;
        e
    }

    /// The reconnect handshake was rejected: the connection stays faulted
    /// and a generic error is recorded and returned.
    pub fn reconnect_failed(&mut self) -> (e: Error)
        ensures
            final(self).spec_state() == State::Faulted,
            old(self).same_endpoint(final(self)),
            e.kind == ErrorKind::Other,
            e.message@ == "failed to reconnect"@,
            final(self).spec_pending() matches Option::Some(p) && p.kind == e.kind && p.message@
                == e.message@,
    {
        let e = Error::other("failed to reconnect");
        self.pending = Some(e.duplicate());
        self.state = State::Faulted;
        e
    }

    /// Begins a command: on a connected context, the single wire frame that
    /// transmits the arguments; on any other context, an immediate failure
    /// carrying the pending error, with nothing transmitted.
    pub fn begin_command<T: AsBytes>(&self, arguments: &[T]) -> (r: Result<Vec<u8>, Error>)
        ensures
            self.spec_state() == State::Connected ==> (r matches Ok(frame) && frame@
                == command_frame(args_bytes(arguments@))),
            self.spec_state() != State::Connected ==> (r matches Err(e) && (match self
                .spec_pending() {
                Option::Some(p) => e.kind == p.kind && e.message@ == p.message@,
                Option::None => e.kind == ErrorKind::Other && e.message@
                    == "connection is not established"@,
            })),
    {
        if self.state == State::Connected {
            Ok(encode_command(arguments))
        } else {
            match &self.pending {
                Some(p) => Err(p.duplicate()),
                None => Err(Error::other("connection is not established")),
            }
        }
    }

    /// Completes a command from the bytes received so far.  A complete reply
    /// is returned with its encoded length; a truncated buffer asks for more
    /// bytes; a server-reported error reply becomes an error result and
    /// leaves the connection usable; bytes that cannot be a reply fault the
    /// connection.
    pub fn finish_command(&mut self, bytes: &[u8]) -> (r: Result<Option<(Reply, usize)>, Error>)
        ensures
            old(self).same_endpoint(final(self)),
            match spec_parse(bytes@, 0) {
                Parsed::Found(w, n) => match first_failure(w) {
                    Option::None => r matches Ok(Option::Some((rep, c))) && c as int == n
                        && reply_rep(rep, w) && *final(self) == *old(self),
                    Option::Some(m) => r matches Err(e) && e.kind == ErrorKind::Other && e.message@
                        == lossy_utf8(m) && *final(self) == *old(self),
                },
                Parsed::Short => r matches Ok(more) && more is None && *final(self) == *old(self),
                Parsed::Bad => r matches Err(e) && e.kind == ErrorKind::Other && e.message@
                    == "failed to identify a reply"@ && final(self).spec_state() == State::Faulted
                    && (final(self).spec_pending() matches Option::Some(p) && p.kind == e.kind
                    && p.message@ == e.message@),
            },
    {
        match decode_reply(bytes) {
            Decoded::Complete(rep, n) => Ok(Some((rep, n))),
            Decoded::Failed(e, _consumed) => Err(e),
            Decoded::Partial => Ok(None),
            Decoded::Corrupt(e) => {
                self.pending = Some(e.duplicate());
                self.state = State::Faulted;
                Err(e)
            },
        }
    }

    /// Releases the connection; terminal.
    pub fn close(&mut self)
        ensures
            final(self).spec_state() == State::Closed,
            old(self).same_endpoint(final(self)),
    {
        self.state = State::Closed;
    }
}

} // verus!
