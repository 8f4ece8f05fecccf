//! The codec capability: turning raw input buffers into typed messages and
//! typed messages back into buffers.
use vstd::prelude::*;

use crate::seq_views;

verus! {

/// A codec between raw buffers of type `In` and messages of type `Out`.
///
/// `decode` consumes as many complete messages as are currently available
/// from the buffer and may yield zero, one, or many messages per call; any
/// trailing incomplete bytes are carried in the codec's own state (or left in
/// the buffer) for the next call. `encode` is stateless per call and always
/// produces one complete serialized buffer.
///
/// Each implementation describes its exact behaviour with four spec
/// functions over the views of the codec state, the buffer and the messages;
/// the executable methods are proved to match them.
pub trait Codec<In: View, Out: View>: View + Sized {
    /// The codec's own well-formedness condition, established at
    /// construction and preserved by `decode`.
    spec fn inv(s: Self::V) -> bool;

    /// The codec state after a `decode` call.
    spec fn decode_post(pre: Self::V, input: In::V) -> Self::V;

    /// What a `decode` call leaves behind in the buffer.
    spec fn decode_rest(pre: Self::V, input: In::V) -> In::V;

    /// The messages a `decode` call yields, in order.
    spec fn decode_out(pre: Self::V, input: In::V) -> Seq<Out::V>;

    /// The buffer an `encode` call produces.
    spec fn encode_model(s: Self::V, v: Out::V) -> In::V;

    /// When `encode` is defined for a message (for instance, a framed
    /// payload whose length must fit the length prefix).
    spec fn encodable(s: Self::V, v: Out::V) -> bool;

    /// Decode every complete message currently available from `buf`.
    fn decode(&mut self, buf: &mut In) -> (r: Vec<Out>)
        requires
            Self::inv(old(self)@),
        ensures
            Self::inv(final(self)@),
            final(self)@ == Self::decode_post(old(self)@, old(buf)@),
            final(buf)@ == Self::decode_rest(old(self)@, old(buf)@),
            seq_views(r@) == Self::decode_out(old(self)@, old(buf)@),
    ;

    /// Whether `encode` is defined for this message.
    fn can_encode(&self, v: &Out) -> (r: bool)
        requires
            Self::inv(self@),
        ensures
            r == Self::encodable(self@, v@),
    ;

    /// Serialize one message into one complete buffer.
    fn encode(&self, v: &Out) -> (r: In)
        requires
            Self::inv(self@),
            Self::encodable(self@, v@),
        ensures
            r@ == Self::encode_model(self@, v@),
    ;
}

} // verus!
