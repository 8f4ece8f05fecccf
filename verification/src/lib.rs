//! An event-driven TCP request/response server core: per-connection state
//! machines over readiness events, pluggable codecs with length-prefix
//! framing, a bounded slot table of connections, and per-worker dispatch of
//! decoded requests to a handler.
//!
//! The library holds the protocol-independent logic: byte buffers are plain
//! `Vec<u8>` values, connection identities are small integer tokens, and
//! readiness/interest sets are explicit flags. The platform reactor (sockets,
//! polling, threads) lives outside and drives these state machines with the
//! outcomes of its I/O calls.
use vstd::prelude::*;

pub mod codec;
pub mod codec_stack;
pub mod conn;
pub mod envelope;
pub mod events;
pub mod framed;
pub mod receive;
pub mod send_channel;
pub mod service;
pub mod slab;
pub mod traits;
pub mod worker;

pub use codec::Codec;
pub use conn::{Conn, ConnError, ReadOutcome, WriteOutcome};
pub use codec_stack::CodecStack;
pub use envelope::Envelope;
pub use events::EventSet;
pub use framed::Framed;
pub use framed::{array_to_usize, usize_to_array};
pub use receive::{ClientInfo, EchoReceiver, PeerAddr, Receive};
pub use send_channel::SendChannel;
pub use service::{assign_accepted, choose_worker};
pub use slab::{Slab, SlotsFull};
pub use worker::Worker;

verus! {

/// The element-wise views of a sequence of values.
pub open spec fn seq_views<T: View>(s: Seq<T>) -> Seq<T::V> {
    s.map_values(|t: T| t@)
}

/// The view of an optional value.
pub open spec fn opt_view<T: View>(o: Option<T>) -> Option<T::V> {
    match o {
        Some(t) => Some(t@),
        None => None,
    }
}

} // verus!
