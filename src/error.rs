//! What can go wrong while decoding.
use vstd::prelude::*;

verus! {

/// Why a run of bytes is no legal instance of the type asked for.
#[derive(Debug, Clone, Copy, PartialEq, Eq, Structural)]
pub enum InvalidBytes {
    /// A boolean byte other than 0 or 1.
    BoolOutOfRange(u8),
    /// A bit list whose last byte holds no length marker.
    MissingSentinel,
    /// A bit vector with bits set beyond its length.
    ExcessBits,
    /// Items of a static type that do not fill the bytes exactly.
    TrailingBytes,
    /// The collection refused the decoded items.
    ItemsRejected,
}

/// The ways a decode fails. Encoding never fails.
#[derive(Debug, Clone, Copy, PartialEq, Eq, Structural)]
pub enum DecodeError {
    /// Fewer (or, for a static type, other than) the bytes the type needs.
    InvalidByteLength { len: usize, expected: usize },
    /// The bytes do not form a legal value.
    BytesInvalid(InvalidBytes),
    /// A static item of zero length stands where a count is divided by it.
    ZeroLengthItem,
    /// An offset table whose size is no positive multiple of the offset width.
    InvalidListFixedBytesLen(usize),
    /// More items (or bits) than the type's capacity.
    ExceedsMaxLength { len: usize, max: usize },
    /// An offset pointing into the fixed region, or before where it must start.
    OffsetIntoFixedPortion(usize),
    /// An offset past where it must start, leaving bytes that no field owns.
    OffsetSkipsVariableBytes(usize),
    /// An offset past the end of the bytes.
    OffsetOutOfBounds(usize),
    /// An offset smaller than the one before it.
    OffsetsAreDecreasing(usize),
}

} // verus!
