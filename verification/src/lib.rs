//! A codec for DNS messages, with the splitting and merging that a
//! forwarding resolver needs.
//!
//! Every function states what it returns over the bytes of the message, and
//! Verus proves that it does.

pub mod dns;
