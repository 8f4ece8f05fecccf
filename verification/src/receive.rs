//! The business-logic capability: given the client's identity and one
//! decoded request, produce an optional response.
use vstd::prelude::*;

use crate::opt_view;

verus! {

/// A peer address as plain values: sixteen address octets (an IPv4 address
/// uses the first four), the port, and which family it is.
#[derive(Clone, Copy, Debug)]
pub struct PeerAddr {
    pub octets: [u8; 16],
    pub port: u16,
    pub v6: bool,
}

/// An immutable snapshot of the peer's address taken at read time, handed
/// to the handler so request processing can be identity-aware without
/// seeing the connection itself.
#[derive(Clone, Copy, Debug)]
pub struct ClientInfo {
    pub addr: Option<PeerAddr>,
}

/// A request handler. Each worker owns one; a handler runs synchronously on
/// its worker's thread, so it is expected to be fast and non-blocking.
///
/// An implementation describes itself with two spec functions over its own
/// view: the state it moves to and the optional response it returns for a
/// request from a given client. Returning no response sends no reply.
pub trait Receive<Req: View, Res: View>: View + Sized {
    /// The handler state after processing one request.
    spec fn receive_post(pre: Self::V, info: ClientInfo, req: Req::V) -> Self::V;

    /// The handler's optional response to one request.
    spec fn receive_out(pre: Self::V, info: ClientInfo, req: Req::V) -> Option<Res::V>;

    /// Process one decoded request from the client identified by `info`.
    fn receive(&mut self, info: ClientInfo, req: &Req) -> (r: Option<Res>)
        ensures
            final(self)@ == Self::receive_post(old(self)@, info, req@),
            opt_view(r) == Self::receive_out(old(self)@, info, req@),
    ;
}

/// A handler that answers every request with the request's own bytes.
pub struct EchoReceiver;

impl View for EchoReceiver {
    type V = ();

    open spec fn view(&self) -> () {
        ()
    }
}

impl Receive<Vec<u8>, Vec<u8>> for EchoReceiver {
    open spec fn receive_post(pre: (), info: ClientInfo, req: Seq<u8>) -> () {
        ()
    }

    open spec fn receive_out(pre: (), info: ClientInfo, req: Seq<u8>) -> Option<Seq<u8>> {
        Some(req)
    }

    fn receive(&mut self, info: ClientInfo, req: &Vec<u8>) -> (r: Option<Vec<u8>>) {
        let copy = crate::framed::suffix_of(req, 0);
        proof {
            assert(copy@ =~= req@);
        }
        Some(copy)
    }
}

} // verus!
