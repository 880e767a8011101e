//! The decoded protocol units: typed arguments, messages, and packets.
//!
//! A packet is either a single message (an address plus typed arguments) or a
//! bundle of nested packets. Floating-point arguments are carried as the
//! decimal text the decoder rendered for them, so that every field is a plain
//! value the rest of the library can reason about.

use vstd::prelude::*;

verus! {

/// One typed argument of a control message.
pub enum OscArg {
    /// A 32-bit integer argument.
    Int(i32),
    /// A 64-bit integer argument.
    Long(i64),
    /// A 32-bit floating-point argument, carried as its decimal text.
    Float(String),
    /// A 64-bit floating-point argument, carried as its decimal text.
    Double(String),
    /// A text argument.
    Str(String),
    /// A binary blob argument.
    Blob(Vec<u8>),
    /// A single-character argument.
    Char(char),
    /// A boolean argument.
    Bool(bool),
    /// The nil marker.
    Nil,
    /// The infinity marker.
    Inf,
    /// Any other primitive kind, carried as its generic textual form.
    Other(String),
}

/// A single control message: an address and its ordered arguments.
pub struct OscMsg {
    /// The raw (still percent-encoded) address string.
    pub addr: String,
    /// The ordered arguments.
    pub args: Vec<OscArg>,
}

/// A decoded packet: one message, or a bundle of nested packets.
/// The bundle's time tag is ignored for scheduling and is not kept.
pub enum Packet {
    /// A single message.
    Message(OscMsg),
    /// An ordered sequence of nested packets.
    Bundle(Vec<Packet>),
}

} // verus!
