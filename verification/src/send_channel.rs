//! The cross-thread send capability: handing a value to another thread's
//! inbox, uniform over whatever channel or notification primitive the
//! platform reactor offers.
use vstd::prelude::*;

verus! {

/// Send `msg` to another thread's inbox. `E` is the primitive's own
/// delivery result; nothing can be promised of it here, since delivery
/// depends on the receiving end.
pub trait SendChannel<M, E> {
    fn send_msg(&self, msg: M) -> E;
}

} // verus!
