//! A minimal DNS stub: the wire-format codec (512-byte messages, label
//! compression with back-pointers) and the iterative resolution algorithm
//! that follows referral chains across nameservers. Socket I/O is left to
//! the caller; this crate works on plain byte buffers and message values.

use vstd::prelude::*;

pub mod buffer;
pub mod header;
pub mod question;
pub mod packet;
pub mod record;
pub mod resolver;

verus! {

/// The recoverable failures of the codec and of the resolver.
#[derive(Debug, Clone, Copy, PartialEq, Eq, Structural)]
pub enum DnsError {
    /// A read or write ran past the 512-byte message boundary.
    BufferExhausted,
    /// A chain of compression pointers exceeded the decoder's bound.
    PointerLoop,
    /// A name with an empty label, or a label longer than 63 bytes.
    InvalidName,
    /// A referral carried no usable additional-section address record.
    NoGlueRecord,
    /// The referral chain exceeded the configured hop limit.
    ResolutionDepthExceeded,
    /// An upstream exchange did not complete; raised by the transport
    /// around this library, never by its own codec or resolver.
    UpstreamTimeout,
}

} // verus!
