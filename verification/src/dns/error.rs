//! The ways in which a message can fail to decode or encode.

use vstd::prelude::*;

verus! {

/// Why a message was refused.
#[derive(Debug, Clone, Copy, PartialEq, Eq, Structural)]
pub enum DnsError {
    /// Fewer bytes are left than a field of fixed width needs.
    TruncatedMessage,
    /// A label is not valid text, or claims more bytes than are left.
    InvalidLabelEncoding,
    /// The target of a compression pointer holds a pointer itself.
    UnsupportedCompressionChain,
    /// A compression pointer leads past the end of the message.
    PointerOutOfRange,
    /// The header's counts differ from the entries that the message holds.
    InconsistentCounts,
}

} // verus!
