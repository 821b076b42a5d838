//! Core logic of a QUIC-multiplexed reverse-proxy fabric.
//!
//! A public gateway terminates plain TCP and TLS connections and steers each
//! request, by the leftmost label of its `Host` header or TLS server name,
//! onto a stream towards the hidden node that registered the matching
//! six-byte identifier.  This crate holds the verified data plane: the
//! identifier and wire codecs, the request-preamble codec, the peek-buffer
//! stream model, the gateway registry, and the routing, rewriting and
//! port-prediction decisions.  The asynchronous transport around it lives
//! outside the library and hands it plain values.

use vstd::prelude::*;

pub mod addrtext;
pub mod codec;
pub mod gateway;
pub mod header;
pub mod mac;
pub mod node;
pub mod p2p;
pub mod peek;
pub mod pem;
pub mod registry;
pub mod resp;
pub mod text;
pub mod urlwrap;

verus! {

/// Error type carried by every fallible operation of the library:
/// a numeric code and a human-readable message.
#[derive(Debug, Clone)]
pub struct RwebError {
    pub code: i32,
    pub msg: String,
}

impl RwebError {
    /// Builds an error from a code and a message.
    pub fn new(code: i32, msg: &str) -> (r: RwebError)
        ensures
            r.code == code,
            r.msg@ == msg@,
    {
        RwebError { code, msg: msg.to_owned() }
    }
}

} // verus!
