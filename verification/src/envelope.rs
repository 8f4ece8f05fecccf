//! A message envelope: correlates a message with its originating
//! connection when codecs operate below the connection abstraction.
use vstd::prelude::*;

use crate::receive::PeerAddr;

verus! {

/// A message together with the peer address (when known) and the slot
/// token of the connection it belongs to.
#[derive(Clone, Debug)]
pub struct Envelope<C> {
    pub address: Option<PeerAddr>,
    pub tok: usize,
    pub msg: C,
}

} // verus!
