//! A client-side engine for the Redis serialization protocol (RESP).
//!
//! The crate covers the protocol work of a Redis client: marshaling a command
//! given as a vector of byte-like arguments into a wire frame, decoding the
//! server's byte stream into a tagged reply tree, classifying low-level error
//! codes, and tracking the connection state machine.  The transport itself
//! (opening a socket, reading and writing bytes) is left to the caller, who
//! feeds the raw bytes through [`Context`] and the codec functions.

pub mod codec;
pub mod context;
pub mod error;
pub mod reply;
pub mod wire;

pub use codec::decode_reply;
pub use codec::encode_command;
pub use codec::Decoded;
pub use context::Context;
pub use context::State;
pub use error::Error;
pub use error::ErrorKind;
pub use reply::AsBytes;
pub use reply::Reply;
