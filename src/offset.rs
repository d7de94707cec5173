//! Offsets: the four-byte little-endian positions that a fixed region holds
//! for each variable field, and the checks made on them before use.
use vstd::prelude::*;
use vstd::bytes::{spec_u32_from_le_bytes, spec_u32_to_le_bytes, u32_from_le_bytes, u32_to_le_bytes, lemma_auto_spec_u32_to_from_le_bytes};
use vstd::slice::slice_subrange;
use crate::error::DecodeError;

verus! {

/// Width in bytes of one offset.
pub const BYTES_PER_LENGTH_OFFSET: usize = 4;

/// The largest position an offset can name.
pub open spec fn max_offset() -> nat {
    u32::MAX as nat
}

/// The four bytes that hold offset `n`.
pub open spec fn offset_bytes(n: nat) -> Seq<u8> {
    spec_u32_to_le_bytes(n as u32)
}

/// The offset that four bytes hold.
pub open spec fn offset_value(s: Seq<u8>) -> nat {
    spec_u32_from_le_bytes(s) as nat
}

pub proof fn lemma_offset_round_trip(n: nat)
    requires
        n <= max_offset(),
    ensures
        offset_bytes(n).len() == 4,
        offset_value(offset_bytes(n)) == n,
{
    lemma_auto_spec_u32_to_from_le_bytes();
    let x = n as u32;
    assert(spec_u32_to_le_bytes(x).len() == 4);
    assert(spec_u32_from_le_bytes(spec_u32_to_le_bytes(x)) == x);
}

/// Appends offset `offset` to `buf`.
pub fn write_offset(offset: usize, buf: &mut Vec<u8>)
    requires
        offset <= max_offset(),
    ensures
        final(buf)@ == old(buf)@ + offset_bytes(offset as nat),
{
    let b = u32_to_le_bytes(offset as u32);
    let mut i: usize = 0;
    while i < b.len()
        invariant
            b@ == offset_bytes(offset as nat),
            0 <= i <= b@.len(),
            buf@ == old(buf)@ + b@.take(i as int),
        decreases b@.len() - i,
    {
        buf.push(b[i]);
        i = i + 1;
        assert(b@.take(i as int) == b@.take(i - 1) + seq![b@[i - 1]]);
    }
    assert(b@.take(i as int) == b@);
}

/// Reads the offset in the first four bytes of `bytes`.
pub fn read_offset_from_slice(bytes: &[u8]) -> (r: Result<usize, DecodeError>)
    ensures
        bytes@.len() >= 4 ==> r == Ok::<usize, DecodeError>(
            offset_value(bytes@.take(4)) as usize,
        ),
        bytes@.len() < 4 ==> r == Err::<usize, DecodeError>(
            DecodeError::InvalidByteLength { len: bytes@.len() as usize, expected: 4 },
        ),
{
    if bytes.len() < BYTES_PER_LENGTH_OFFSET {
        Err(DecodeError::InvalidByteLength { len: bytes.len(), expected: BYTES_PER_LENGTH_OFFSET })
    } else {
        let head = slice_subrange(bytes, 0, BYTES_PER_LENGTH_OFFSET);
        assert(head@ == bytes@.take(4));
        Ok(u32_from_le_bytes(head) as usize)
    }
}

/// The error, if any, that `sanitize_offset` gives for these arguments.
pub open spec fn offset_fault(
    offset: nat,
    previous_offset: Option<nat>,
    num_bytes: nat,
    num_fixed_bytes: Option<nat>,
) -> Option<DecodeError> {
    if num_fixed_bytes matches Some(f) && offset < f {
        Some(DecodeError::OffsetIntoFixedPortion(offset as usize))
    } else if previous_offset is None && (num_fixed_bytes matches Some(f) && offset != f) {
        Some(DecodeError::OffsetSkipsVariableBytes(offset as usize))
    } else if offset > num_bytes {
        Some(DecodeError::OffsetOutOfBounds(offset as usize))
    } else if previous_offset matches Some(p) && p > offset {
        Some(DecodeError::OffsetsAreDecreasing(offset as usize))
    } else {
        None
    }
}

pub open spec fn opt_nat(o: Option<usize>) -> Option<nat> {
    match o {
        Some(x) => Some(x as nat),
        None => None,
    }
}

/// Checks an offset before it is trusted: it must not point into the fixed
/// region (`num_fixed_bytes`), must equal the fixed region's length when it is
/// the first one, must not point past `num_bytes`, and must not be smaller
/// than `previous_offset`.
pub fn sanitize_offset(
    offset: usize,
    previous_offset: Option<usize>,
    num_bytes: usize,
    num_fixed_bytes: Option<usize>,
) -> (r: Result<usize, DecodeError>)
    ensures
        match offset_fault(offset as nat, opt_nat(previous_offset), num_bytes as nat, opt_nat(num_fixed_bytes)) {
            Some(e) => r == Err::<usize, DecodeError>(e),
            None => r == Ok::<usize, DecodeError>(offset),
        },
{
    match num_fixed_bytes {
        Some(f) => {
            if offset < f {
                return Err(DecodeError::OffsetIntoFixedPortion(offset));
            }
            if previous_offset.is_none() && offset != f {
                return Err(DecodeError::OffsetSkipsVariableBytes(offset));
            }
        },
        None => {},
    }
    if offset > num_bytes {
        return Err(DecodeError::OffsetOutOfBounds(offset));
    }
    match previous_offset {
        Some(p) => {
            if p > offset {
                return Err(DecodeError::OffsetsAreDecreasing(offset));
            }
        },
        None => {},
    }
    Ok(offset)
}

} // verus!
