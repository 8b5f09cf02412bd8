//! A single node of a line-oriented message-passing protocol: an envelope
//! codec for the JSON wire format, the tagged payload variants, and the
//! node state with its request/response dispatcher.

pub mod protocol;
pub mod node;
pub mod text;
pub mod codec;
pub mod parse;
