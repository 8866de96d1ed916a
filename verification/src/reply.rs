//! Replies and byte-like command arguments.

use vstd::prelude::*;
use vstd::string::StringSliceAdditionalSpecFns;

verus! {

/// A reply of a command: the tagged tree that the server's byte stream
/// decodes to.  Every variant owns its payload; a reply never borrows from
/// the connection or from the receive buffer.
#[derive(Debug)]
pub enum Reply {
    /// A simple status line, decoded as text (lossily where not UTF-8).
    Status(String),
    /// An integer reply.
    Integer(i64),
    /// A length-prefixed byte string; arbitrary bytes, not necessarily text.
    Bulk(Vec<u8>),
    /// An ordered sequence of replies, each fully decoded.
    Array(Vec<Reply>),
    /// The null reply.
    Nil,
}

/// A trait for command arguments: anything that exposes its bytes.
pub trait AsBytes {
    /// The bytes this argument contributes to the command frame.
    spec fn byte_view(&self) -> Seq<u8>;

    /// Borrows the argument's bytes for the duration of the call.
    fn as_bytes(&self) -> (r: &[u8])
        ensures
            r@ == self.byte_view(),
    ;
}

impl<'l> AsBytes for &'l str {
    open spec fn byte_view(&self) -> Seq<u8> {
        (*self).spec_bytes()
    }

    fn as_bytes(&self) -> (r: &[u8]) {
        str::as_bytes(*self)
    }
}

impl<'l> AsBytes for &'l [u8] {
    open spec fn byte_view(&self) -> Seq<u8> {
        (*self)@
    }

    fn as_bytes(&self) -> (r: &[u8]) {
        *self
    }
}

} // verus!
