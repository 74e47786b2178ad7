use vstd::prelude::*;

verus! {

/// Why encoding or decoding a DNS message failed.
#[derive(Debug, Clone, Copy, PartialEq, Eq, Structural)]
pub enum DnsError {
    /// A read or a write would leave the 512-octet buffer.
    OutOfBounds,
    /// A label length octet has a reserved high-bit pattern, a label holds a
    /// non-ASCII octet, or a label to encode is longer than 63 octets.
    MalformedLabel,
    /// A name followed more than five compression pointers.
    TooManyJumps,
    /// The upstream resolver gave no usable answer.
    UpstreamFailure,
}

} // verus!
