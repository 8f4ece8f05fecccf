//! The library's capability traits, gathered for one import.
pub use crate::codec::Codec;
pub use crate::receive::Receive;
pub use crate::send_channel::SendChannel;
