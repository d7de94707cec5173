//! Facts that hold across the codec's operations, proved over the spec
//! functions that the executable contracts speak of.
use vstd::prelude::*;
use crate::codec::{shape, SszDecode, SszEncode};
use crate::layout::{header_len, next_offset, split_from, uniform_shapes, Shape};
use crate::offset::{max_offset, offset_value};
use crate::sequence::{List, Vector};

verus! {

/// Decoding the encoding of any value within capacity gives the value back
/// (for a variable type, as long as its encoding's offsets fit in four bytes).
pub proof fn round_trip<T: SszDecode>(v: T::V)
    requires
        T::lengths_fit(),
        T::valid(v),
        !T::static_spec() ==> T::encoding(v).len() <= max_offset(),
    ensures
        T::decoding(T::encoding(v)) == Some(v),
{
    T::lemma_round_trip(v);
}

/// Decoding accepts nothing but encodings: bytes that decode to a value are
/// exactly that value's encoding, so changed bytes (a moved offset, a
/// dropped byte) either fail or decode to the value they encode.
pub proof fn only_encodings_decode<T: SszDecode>(bytes: Seq<u8>)
    requires
        T::lengths_fit(),
        T::decoding(bytes) is Some,
    ensures
        T::encoding(T::decoding(bytes)->0) == bytes,
        T::valid(T::decoding(bytes)->0),
{
    T::lemma_canonical(bytes);
    T::lemma_decoding(bytes);
}

/// An encoding is never longer than the type's maximum length, and a static
/// type's encoding is exactly its fixed length.
pub proof fn encoding_len_bounded<T: SszEncode>(v: T::V)
    requires
        T::lengths_fit(),
        T::valid(v),
    ensures
        T::encoding(v).len() <= T::max_len_spec(),
        T::static_spec() ==> T::encoding(v).len() == T::fixed_len_spec(),
{
    T::lemma_encoding_len(v);
}

/// Removing any positive number of bytes from the end of a static type's
/// encoding leaves bytes that do not decode.
pub proof fn truncated_static_rejected<T: SszDecode>(v: T::V, k: nat)
    requires
        T::lengths_fit(),
        T::valid(v),
        T::static_spec(),
        0 < k <= T::encoding(v).len(),
    ensures
        T::decoding(T::encoding(v).take(T::encoding(v).len() - k)) is None,
{
    T::lemma_encoding_len(v);
    let short = T::encoding(v).take(T::encoding(v).len() - k);
    if T::decoding(short) is Some {
        T::lemma_decoding(short);
    }
}

/// A boolean byte decodes exactly when it is 0 or 1, and then encodes back
/// to the same byte.
pub proof fn bool_domain(b: u8)
    ensures
        <bool as SszDecode>::decoding(seq![b]) is Some <==> b <= 1,
        b <= 1 ==> <bool as SszEncode>::encoding(<bool as SszDecode>::decoding(seq![b])->0)
            == seq![b],
{
}

/// The offset of table entry `j` in `bytes`.
pub open spec fn table_entry(bytes: Seq<u8>, j: nat) -> nat {
    offset_value(bytes.subrange((4 * j) as int, (4 * j + 4) as int))
}

/// A table of `m` offsets starting at entry `k`, holding an entry `j + 1`
/// smaller than entry `j`, fails to split.
proof fn lemma_decreasing_entries(m: nat, b: Seq<u8>, k: nat, pos: nat, j: nat)
    requires
        k <= j,
        j + 2 <= k + m,
        table_entry(b, j + 1) < table_entry(b, j),
    ensures
        split_from(uniform_shapes(Shape { fixed: false, len: 4 }, m), b, 4 * k, pos) is None,
    decreases m,
{
    let s = Shape { fixed: false, len: 4 };
    let ss = uniform_shapes(s, m);
    assert(ss.drop_first() =~= uniform_shapes(s, (m - 1) as nat));
    assert(ss[0] == s);
    let rest = uniform_shapes(s, (m - 1) as nat);
    assert(rest[0] == s);
    assert(next_offset(rest, b, 4 * k + 4) == Some(table_entry(b, k + 1))) by {
        assert(4 * k + 4 == 4 * (k + 1));
    }
    if j > k {
        assert(4 * k + 4 == 4 * (k + 1));
        lemma_decreasing_entries(
            (m - 1) as nat,
            b,
            k + 1,
            table_entry(b, k + 1),
            j,
        );
    }
}

/// In a list of variable-size items, an offset smaller than the one before
/// it makes the bytes fail to decode.
pub proof fn list_decreasing_offset_rejected<T: SszDecode, const N: usize>(bytes: Seq<u8>, j: nat)
    requires
        <List<T, N> as SszEncode>::lengths_fit(),
        !T::static_spec(),
        bytes.len() >= 4,
        4 * (j + 2) <= offset_value(bytes.take(4)),
        table_entry(bytes, j + 1) < table_entry(bytes, j),
    ensures
        <List<T, N> as SszDecode>::decoding(bytes) is None,
{
    let first = offset_value(bytes.take(4));
    let n = first / 4;
    let s = Shape { fixed: false, len: 4 };
    T::lemma_type_lengths();
    assert(shape::<T>() == s);
    if first % 4 == 0 && first <= bytes.len() {
        assert(j + 2 <= n);
        lemma_decreasing_entries(n, bytes, 0, header_len(uniform_shapes(s, n)), j);
    }
}

/// In a vector of variable-size items, an offset smaller than the one before
/// it makes the bytes fail to decode.
pub proof fn vector_decreasing_offset_rejected<T: SszDecode, const N: usize>(bytes: Seq<u8>, j: nat)
    requires
        <Vector<T, N> as SszEncode>::lengths_fit(),
        !T::static_spec(),
        j + 2 <= N,
        table_entry(bytes, j + 1) < table_entry(bytes, j),
    ensures
        <Vector<T, N> as SszDecode>::decoding(bytes) is None,
{
    let s = Shape { fixed: false, len: 4 };
    T::lemma_type_lengths();
    assert(shape::<T>() == s);
    lemma_decreasing_entries(N as nat, bytes, 0, header_len(uniform_shapes(s, N as nat)), j);
}

} // verus!
