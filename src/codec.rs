//! The two capabilities every codable type has: encoding (layout facts, size,
//! writes) and decoding (reads), stated over the type's view.
use vstd::prelude::*;
use crate::error::DecodeError;
use crate::layout::{Part, Shape};
use crate::offset::{max_offset, offset_bytes};

verus! {

/// A type that encodes itself into the fixed/variable layout.
pub trait SszEncode: View + Sized {
    /// Whether every value of the type has the same encoded length.
    spec fn static_spec() -> bool;

    /// Bytes the type takes in an enclosing fixed region: its encoded length
    /// when static, one offset width otherwise.
    spec fn fixed_len_spec() -> nat;

    /// The largest encoded length of a value within capacity.
    spec fn max_len_spec() -> nat;

    /// The type's lengths can be computed without overflow.
    spec fn lengths_fit() -> bool;

    /// The value is within the type's capacity bounds.
    spec fn valid(v: Self::V) -> bool;

    /// The bytes that encode the value.
    spec fn encoding(v: Self::V) -> Seq<u8>;

    proof fn lemma_type_lengths()
        requires
            Self::lengths_fit(),
        ensures
            Self::max_len_spec() <= usize::MAX,
            Self::fixed_len_spec() <= usize::MAX,
            !Self::static_spec() ==> Self::fixed_len_spec() == 4,
            Self::static_spec() ==> Self::fixed_len_spec() <= Self::max_len_spec(),
    ;

    proof fn lemma_encoding_len(v: Self::V)
        requires
            Self::lengths_fit(),
            Self::valid(v),
        ensures
            Self::encoding(v).len() <= Self::max_len_spec(),
            Self::static_spec() ==> Self::encoding(v).len() == Self::fixed_len_spec(),
    ;

    fn is_ssz_static() -> (r: bool)
        ensures
            r == Self::static_spec(),
    ;

    fn ssz_fixed_len() -> (r: usize)
        requires
            Self::lengths_fit(),
        ensures
            r == Self::fixed_len_spec(),
    ;

    fn ssz_max_len() -> (r: usize)
        requires
            Self::lengths_fit(),
        ensures
            r == Self::max_len_spec(),
    ;

    /// The length of the value's encoding.
    fn sszb_bytes_len(&self) -> (r: usize)
        requires
            Self::lengths_fit(),
            Self::valid(self@),
        ensures
            r == Self::encoding(self@).len(),
    ;

    /// Writes the value's share of an enclosing fixed region: its bytes when
    /// static; else the offset `offset`, which then moves past the value's bytes.
    fn ssz_write_fixed(&self, offset: &mut usize, buf: &mut Vec<u8>)
        requires
            Self::lengths_fit(),
            Self::valid(self@),
            !Self::static_spec() ==> *old(offset) + Self::encoding(self@).len() <= max_offset(),
        ensures
            Self::static_spec() ==> final(buf)@ == old(buf)@ + Self::encoding(self@)
                && *final(offset) == *old(offset),
            !Self::static_spec() ==> final(buf)@ == old(buf)@ + offset_bytes(*old(offset) as nat)
                && *final(offset) == *old(offset) + Self::encoding(self@).len(),
    ;

    /// Writes the value's share of an enclosing variable region: its bytes
    /// when variable, nothing when static.
    fn ssz_write_variable(&self, buf: &mut Vec<u8>)
        requires
            Self::lengths_fit(),
            Self::valid(self@),
            !Self::static_spec() ==> Self::encoding(self@).len() <= max_offset(),
        ensures
            Self::static_spec() ==> final(buf)@ == old(buf)@,
            !Self::static_spec() ==> final(buf)@ == old(buf)@ + Self::encoding(self@),
    ;

    /// Writes the value's encoding.
    fn ssz_write(&self, buf: &mut Vec<u8>)
        requires
            Self::lengths_fit(),
            Self::valid(self@),
            !Self::static_spec() ==> Self::encoding(self@).len() <= max_offset(),
        ensures
            final(buf)@ == old(buf)@ + Self::encoding(self@),
    ;
}

/// A type that decodes itself from the fixed/variable layout.
pub trait SszDecode: SszEncode {
    /// The value that `bytes` encode, if they encode one.
    spec fn decoding(bytes: Seq<u8>) -> Option<Self::V>;

    /// A decoded value is within capacity, and a static type decodes only
    /// from exactly its fixed length.
    proof fn lemma_decoding(bytes: Seq<u8>)
        requires
            Self::lengths_fit(),
            Self::decoding(bytes) is Some,
        ensures
            Self::valid(Self::decoding(bytes)->0),
            Self::static_spec() ==> bytes.len() == Self::fixed_len_spec(),
    ;

    /// Decoding an encoding gives the value back.
    proof fn lemma_round_trip(v: Self::V)
        requires
            Self::lengths_fit(),
            Self::valid(v),
            !Self::static_spec() ==> Self::encoding(v).len() <= max_offset(),
        ensures
            Self::decoding(Self::encoding(v)) == Some(v),
    ;

    /// Only an encoding decodes: the bytes that decode to a value are that
    /// value's encoding.
    proof fn lemma_canonical(bytes: Seq<u8>)
        requires
            Self::lengths_fit(),
            Self::decoding(bytes) is Some,
        ensures
            Self::encoding(Self::decoding(bytes)->0) == bytes,
    ;

    /// Decodes a whole encoding.
    fn from_ssz_bytes(bytes: &[u8]) -> (r: Result<Self, DecodeError>)
        requires
            Self::lengths_fit(),
        ensures
            r is Ok <==> Self::decoding(bytes@) is Some,
            r is Ok ==> Self::decoding(bytes@) == Some(r->Ok_0@),
    ;
}

/// A value's contribution to an enclosing layout.
pub open spec fn part<T: SszEncode>(v: T::V) -> Part {
    Part { fixed: T::static_spec(), bytes: T::encoding(v) }
}

/// What a decoder knows of a field of type `T`.
pub open spec fn shape<T: SszEncode>() -> Shape {
    Shape { fixed: T::static_spec(), len: T::fixed_len_spec() }
}

/// Encodes a value into a new buffer.
pub fn to_ssz_bytes<T: SszEncode>(value: &T) -> (r: Vec<u8>)
    requires
        T::lengths_fit(),
        T::valid(value@),
        !T::static_spec() ==> T::encoding(value@).len() <= max_offset(),
    ensures
        r@ == T::encoding(value@),
{
    let mut buf: Vec<u8> = Vec::new();
    value.ssz_write(&mut buf);
    assert(buf@ =~= T::encoding(value@));
    buf
}

} // verus!
