//! Homogeneous sequences: `Vector`, of exactly `N` items, and `List`, of at
//! most `N` items.
use vstd::prelude::*;
use vstd::arithmetic::div_mod::{lemma_div_multiples_vanish, lemma_fundamental_div_mod, lemma_mod_multiples_basic};
use vstd::arithmetic::mul::lemma_mul_inequality;
use crate::codec::{SszDecode, SszEncode};
use crate::error::{DecodeError, InvalidBytes};
use crate::items::{
    all_valid, decode_items, item_max, items_bytes_len, items_decoding, items_encoding,
    lemma_items_canonical, lemma_items_decoded_valid, lemma_items_len, lemma_items_round_trip, lemma_parts_shapes,
    parts_of, views, write_items,
};
use crate::layout::{header, header_len, lemma_header_len, shapes_of, slot_bytes, Part};
use crate::offset::{
    lemma_offset_round_trip, offset_bytes, offset_value, read_offset_from_slice,
    sanitize_offset, write_offset, BYTES_PER_LENGTH_OFFSET,
};

verus! {

/// A collection that can be built from a run of items, and may refuse some
/// counts of them.
pub trait TryFromIter<T: View>: Sized {
    type Error;

    /// Whether a collection of `n` items can be built.
    spec fn accepts(n: nat) -> bool;

    /// The items the collection holds, in order.
    spec fn items(&self) -> Seq<T::V>;

    fn try_from_iter(items: Vec<T>) -> (r: Result<Self, Self::Error>)
        ensures
            r is Ok <==> Self::accepts(items@.len()),
            r is Ok ==> r->Ok_0.items() == views(items@),
    ;
}

/// Decodes `num_items` variable-length items from `bytes`, which start with
/// their table of offsets (counted from the start of `bytes`), and collects
/// them. Each item runs from its offset to the next one, the last to the end
/// of `bytes`; the first item that fails to decode fails the whole.
pub fn ssz_decode_variable_length_items<T: SszDecode, L: TryFromIter<T>>(
    bytes: &[u8],
    num_items: usize,
) -> (r: Result<L, DecodeError>)
    requires
        T::lengths_fit(),
        !T::static_spec(),
        num_items * 4 <= usize::MAX,
    ensures
        r is Ok <==> items_decoding::<T>(num_items as nat, bytes@) is Some && L::accepts(
            num_items as nat,
        ),
        r is Ok ==> items_decoding::<T>(num_items as nat, bytes@) == Some(r->Ok_0.items()),
{
    proof {
        T::lemma_type_lengths();
    }
    let items = match decode_items::<T>(bytes, num_items) {
        Ok(items) => items,
        Err(e) => {
            return Err(e);
        },
    };
    match L::try_from_iter(items) {
        Ok(l) => Ok(l),
        Err(_) => Err(DecodeError::BytesInvalid(InvalidBytes::ItemsRejected)),
    }
}

/// A list of at most `N` items.
#[derive(Debug, Clone, PartialEq, Eq)]
pub struct List<T, const N: usize> {
    items: Vec<T>,
}

impl<T: View, const N: usize> View for List<T, N> {
    type V = Seq<T::V>;

    closed spec fn view(&self) -> Seq<T::V> {
        views(self.items@)
    }
}

impl<T: View, const N: usize> List<T, N> {
    /// A list of `items`; more than `N` of them is an error.
    pub fn new(items: Vec<T>) -> (r: Result<Self, DecodeError>)
        ensures
            r is Ok <==> items@.len() <= N,
            r is Ok ==> r->Ok_0@ == views(items@),
            items@.len() > N ==> r == Err::<Self, DecodeError>(
                DecodeError::ExceedsMaxLength { len: items@.len() as usize, max: N },
            ),
    {
        if items.len() > N {
            Err(DecodeError::ExceedsMaxLength { len: items.len(), max: N })
        } else {
            Ok(List { items })
        }
    }

    pub fn empty() -> (r: Self)
        ensures
            r@ == Seq::<T::V>::empty(),
    {
        let r = List { items: Vec::new() };
        assert(r@ =~= Seq::<T::V>::empty());
        r
    }

    pub fn len(&self) -> (r: usize)
        ensures
            r == self@.len(),
    {
        self.items.len()
    }

    pub fn is_empty(&self) -> (r: bool)
        ensures
            r == (self@.len() == 0),
    {
        self.items.len() == 0
    }

    /// The items, in order.
    pub fn as_slice(&self) -> (r: &[T])
        ensures
            views(r@) == self@,
    {
        self.items.as_slice()
    }
}

impl<T: View, const N: usize> TryFromIter<T> for List<T, N> {
    type Error = DecodeError;

    open spec fn accepts(n: nat) -> bool {
        n <= N
    }

    open spec fn items(&self) -> Seq<T::V> {
        self@
    }

    fn try_from_iter(items: Vec<T>) -> (r: Result<Self, DecodeError>) {
        List::new(items)
    }
}

/// A vector of exactly `N` items.
#[derive(Debug, Clone, PartialEq, Eq)]
pub struct Vector<T, const N: usize> {
    items: Vec<T>,
}

impl<T: View, const N: usize> View for Vector<T, N> {
    type V = Seq<T::V>;

    closed spec fn view(&self) -> Seq<T::V> {
        views(self.items@)
    }
}

impl<T: View, const N: usize> Vector<T, N> {
    /// A vector of `items`; any count but `N` is an error.
    pub fn new(items: Vec<T>) -> (r: Result<Self, DecodeError>)
        ensures
            r is Ok <==> items@.len() == N,
            r is Ok ==> r->Ok_0@ == views(items@),
            items@.len() != N ==> r == Err::<Self, DecodeError>(
                DecodeError::InvalidByteLength { len: items@.len() as usize, expected: N },
            ),
    {
        if items.len() != N {
            Err(DecodeError::InvalidByteLength { len: items.len(), expected: N })
        } else {
            Ok(Vector { items })
        }
    }

    pub fn len(&self) -> (r: usize)
        ensures
            r == self@.len(),
    {
        self.items.len()
    }

    /// The items, in order.
    pub fn as_slice(&self) -> (r: &[T])
        ensures
            views(r@) == self@,
    {
        self.items.as_slice()
    }
}

impl<T: View, const N: usize> TryFromIter<T> for Vector<T, N> {
    type Error = DecodeError;

    open spec fn accepts(n: nat) -> bool {
        n == N
    }

    open spec fn items(&self) -> Seq<T::V> {
        self@
    }

    fn try_from_iter(items: Vec<T>) -> (r: Result<Self, DecodeError>) {
        Vector::new(items)
    }
}

impl<T: SszEncode, const N: usize> SszEncode for List<T, N> {
    open spec fn static_spec() -> bool {
        false
    }

    open spec fn fixed_len_spec() -> nat {
        4
    }

    open spec fn max_len_spec() -> nat {
        N as nat * item_max::<T>()
    }

    open spec fn lengths_fit() -> bool {
        T::lengths_fit() && N * item_max::<T>() <= usize::MAX
    }

    /// At most `N` items, each within capacity; a list of zero-length items
    /// can only be empty, as nothing in its encoding would count them.
    open spec fn valid(v: Seq<T::V>) -> bool {
        &&& v.len() <= N
        &&& all_valid::<T>(v)
        &&& T::static_spec() && T::fixed_len_spec() == 0 ==> v.len() == 0
    }

    open spec fn encoding(v: Seq<T::V>) -> Seq<u8> {
        items_encoding::<T>(v)
    }

    proof fn lemma_type_lengths() {
    }

    proof fn lemma_encoding_len(v: Seq<T::V>) {
        lemma_items_len::<T>(v);
        lemma_mul_inequality(v.len() as int, N as int, item_max::<T>() as int);
    }

    fn is_ssz_static() -> (r: bool) {
        false
    }

    fn ssz_fixed_len() -> (r: usize) {
        BYTES_PER_LENGTH_OFFSET
    }

    fn ssz_max_len() -> (r: usize) {
        proof {
            T::lemma_type_lengths();
        }
        if T::is_ssz_static() {
            N * T::ssz_fixed_len()
        } else if N == 0 {
            0
        } else {
            let m = T::ssz_max_len();
            assert(4 + m <= N * (4 + m)) by (nonlinear_arith)
                requires
                    N >= 1,
            ;
            N * (BYTES_PER_LENGTH_OFFSET + m)
        }
    }

    fn sszb_bytes_len(&self) -> (r: usize) {
        proof {
            Self::lemma_encoding_len(self@);
        }
        items_bytes_len(&self.items)
    }

    fn ssz_write_fixed(&self, offset: &mut usize, buf: &mut Vec<u8>) {
        proof {
            Self::lemma_encoding_len(self@);
        }
        write_offset(*offset, buf);
        let l = self.sszb_bytes_len();
        *offset = *offset + l;
    }

    fn ssz_write_variable(&self, buf: &mut Vec<u8>) {
        self.ssz_write(buf);
    }

    fn ssz_write(&self, buf: &mut Vec<u8>) {
        proof {
            Self::lemma_encoding_len(self@);
        }
        write_items(&self.items, buf);
    }
}

impl<T: SszDecode, const N: usize> SszDecode for List<T, N> {
    /// No bytes are the empty list. Static items fill the bytes in equal
    /// chunks; variable items are counted by the first offset, which ends
    /// their offset table.
    open spec fn decoding(bytes: Seq<u8>) -> Option<Seq<T::V>> {
        if bytes.len() == 0 {
            Some(Seq::empty())
        } else if T::static_spec() {
            let fl = T::fixed_len_spec();
            if fl == 0 || bytes.len() % fl != 0 || bytes.len() / fl > N as nat {
                None
            } else {
                items_decoding::<T>(bytes.len() / fl, bytes)
            }
        } else if bytes.len() < 4 {
            None
        } else {
            let first = offset_value(bytes.take(4));
            if first > bytes.len() || first % 4 != 0 || first < 4 || first / 4 > N as nat {
                None
            } else {
                items_decoding::<T>(first / 4, bytes)
            }
        }
    }

    proof fn lemma_decoding(bytes: Seq<u8>) {
        if bytes.len() == 0 {
        } else if T::static_spec() {
            lemma_items_decoded_valid::<T>(bytes.len() / T::fixed_len_spec(), bytes);
        } else {
            lemma_items_decoded_valid::<T>(offset_value(bytes.take(4)) / 4, bytes);
        }
    }

    proof fn lemma_round_trip(v: Seq<T::V>) {
        T::lemma_type_lengths();
        let bytes = items_encoding::<T>(v);
        lemma_items_len::<T>(v);
        lemma_items_round_trip::<T>(v);
        let n = v.len();
        if n == 0 {
            assert(v =~= Seq::<T::V>::empty());
        } else if T::static_spec() {
            let fl = T::fixed_len_spec();
            lemma_mod_multiples_basic(n as int, fl as int);
            lemma_div_multiples_vanish(n as int, fl as int);
            assert(fl * n == n * fl) by (nonlinear_arith);
        } else {
            let ps = parts_of::<T>(v);
            let hl = 4 * n;
            lemma_parts_shapes::<T>(v);
            assert(ps[0].fixed == false);
            lemma_header_len(ps.drop_first(), hl + ps[0].bytes.len());
            assert(header(ps, hl) == slot_bytes(ps[0], hl) + header(ps.drop_first(), hl + ps[0].bytes.len()));
            lemma_offset_round_trip(hl);
            assert(bytes.take(4) =~= offset_bytes(hl));
            assert((4 * n) % 4 == 0 && (4 * n) / 4 == n) by (nonlinear_arith);
        }
    }

    proof fn lemma_canonical(bytes: Seq<u8>) {
        if bytes.len() == 0 {
            let e = Seq::<T::V>::empty();
            assert(parts_of::<T>(e) =~= Seq::<Part>::empty());
            assert(header_len(shapes_of(parts_of::<T>(e))) == 0);
            assert(items_encoding::<T>(e) =~= bytes);
        } else if T::static_spec() {
            lemma_items_canonical::<T>(bytes.len() / T::fixed_len_spec(), bytes);
        } else {
            lemma_items_canonical::<T>(offset_value(bytes.take(4)) / 4, bytes);
        }
    }

    fn from_ssz_bytes(bytes: &[u8]) -> (r: Result<Self, DecodeError>)
        ensures
            bytes@.len() > 0 && T::static_spec() && T::fixed_len_spec() == 0 ==> r
                == Err::<Self, DecodeError>(DecodeError::ZeroLengthItem),
            bytes@.len() > 0 && T::static_spec() && T::fixed_len_spec() > 0 && bytes@.len()
                % T::fixed_len_spec() != 0 ==> r == Err::<Self, DecodeError>(
                DecodeError::BytesInvalid(InvalidBytes::TrailingBytes),
            ),
            bytes@.len() > 0 && T::static_spec() && T::fixed_len_spec() > 0 && bytes@.len()
                % T::fixed_len_spec() == 0 && bytes@.len() / T::fixed_len_spec() > N ==> r
                == Err::<Self, DecodeError>(
                DecodeError::ExceedsMaxLength {
                    len: (bytes@.len() / T::fixed_len_spec()) as usize,
                    max: N,
                },
            ),
            0 < bytes@.len() < 4 && !T::static_spec() ==> r == Err::<Self, DecodeError>(
                DecodeError::InvalidByteLength { len: bytes@.len() as usize, expected: 4 },
            ),
            bytes@.len() >= 4 && !T::static_spec() && offset_value(bytes@.take(4)) > bytes@.len()
                ==> r == Err::<Self, DecodeError>(
                DecodeError::OffsetOutOfBounds(offset_value(bytes@.take(4)) as usize),
            ),
            bytes@.len() >= 4 && !T::static_spec() && offset_value(bytes@.take(4)) <= bytes@.len()
                && (offset_value(bytes@.take(4)) % 4 != 0 || offset_value(bytes@.take(4)) < 4)
                ==> r == Err::<Self, DecodeError>(
                DecodeError::InvalidListFixedBytesLen(offset_value(bytes@.take(4)) as usize),
            ),
            bytes@.len() >= 4 && !T::static_spec() && offset_value(bytes@.take(4)) <= bytes@.len()
                && offset_value(bytes@.take(4)) % 4 == 0 && offset_value(bytes@.take(4)) >= 4
                && offset_value(bytes@.take(4)) / 4 > N ==> r == Err::<Self, DecodeError>(
                DecodeError::ExceedsMaxLength {
                    len: (offset_value(bytes@.take(4)) / 4) as usize,
                    max: N,
                },
            ),
    {
        proof {
            T::lemma_type_lengths();
        }
        if bytes.len() == 0 {
            return Ok(Self::empty());
        }
        if T::is_ssz_static() {
            let fl = T::ssz_fixed_len();
            if fl == 0 {
                return Err(DecodeError::ZeroLengthItem);
            }
            if bytes.len() % fl != 0 {
                return Err(DecodeError::BytesInvalid(InvalidBytes::TrailingBytes));
            }
            let n = bytes.len() / fl;
            if n > N {
                return Err(DecodeError::ExceedsMaxLength { len: n, max: N });
            }
            proof {
                lemma_fundamental_div_mod(bytes@.len() as int, fl as int);
                assert(n * fl == fl * n) by (nonlinear_arith);
            }
            let items = match decode_items::<T>(bytes, n) {
                Ok(items) => items,
                Err(e) => {
                    return Err(e);
                },
            };
            Self::try_from_iter(items)
        } else {
            let first = match read_offset_from_slice(bytes) {
                Ok(o) => o,
                Err(e) => {
                    return Err(e);
                },
            };
            let first = match sanitize_offset(first, None, bytes.len(), None) {
                Ok(o) => o,
                Err(e) => {
                    return Err(e);
                },
            };
            if first % BYTES_PER_LENGTH_OFFSET != 0 || first < BYTES_PER_LENGTH_OFFSET {
                return Err(DecodeError::InvalidListFixedBytesLen(first));
            }
            let n = first / BYTES_PER_LENGTH_OFFSET;
            if n > N {
                return Err(DecodeError::ExceedsMaxLength { len: n, max: N });
            }
            ssz_decode_variable_length_items::<T, Self>(bytes, n)
        }
    }
}

impl<T: SszEncode, const N: usize> SszEncode for Vector<T, N> {
    open spec fn static_spec() -> bool {
        T::static_spec()
    }

    open spec fn fixed_len_spec() -> nat {
        if T::static_spec() {
            N as nat * T::fixed_len_spec()
        } else {
            4
        }
    }

    open spec fn max_len_spec() -> nat {
        N as nat * item_max::<T>()
    }

    open spec fn lengths_fit() -> bool {
        T::lengths_fit() && N * item_max::<T>() <= usize::MAX
    }

    open spec fn valid(v: Seq<T::V>) -> bool {
        v.len() == N && all_valid::<T>(v)
    }

    open spec fn encoding(v: Seq<T::V>) -> Seq<u8> {
        items_encoding::<T>(v)
    }

    proof fn lemma_type_lengths() {
    }

    proof fn lemma_encoding_len(v: Seq<T::V>) {
        lemma_items_len::<T>(v);
    }

    fn is_ssz_static() -> (r: bool) {
        T::is_ssz_static()
    }

    fn ssz_fixed_len() -> (r: usize) {
        if T::is_ssz_static() {
            N * T::ssz_fixed_len()
        } else {
            BYTES_PER_LENGTH_OFFSET
        }
    }

    fn ssz_max_len() -> (r: usize) {
        proof {
            T::lemma_type_lengths();
        }
        if T::is_ssz_static() {
            N * T::ssz_fixed_len()
        } else if N == 0 {
            0
        } else {
            let m = T::ssz_max_len();
            assert(4 + m <= N * (4 + m)) by (nonlinear_arith)
                requires
                    N >= 1,
            ;
            N * (BYTES_PER_LENGTH_OFFSET + m)
        }
    }

    fn sszb_bytes_len(&self) -> (r: usize) {
        proof {
            Self::lemma_encoding_len(self@);
        }
        items_bytes_len(&self.items)
    }

    fn ssz_write_fixed(&self, offset: &mut usize, buf: &mut Vec<u8>) {
        proof {
            Self::lemma_encoding_len(self@);
        }
        if T::is_ssz_static() {
            write_items(&self.items, buf);
        } else {
            write_offset(*offset, buf);
            let l = self.sszb_bytes_len();
            *offset = *offset + l;
        }
    }

    fn ssz_write_variable(&self, buf: &mut Vec<u8>) {
        proof {
            Self::lemma_encoding_len(self@);
        }
        if !T::is_ssz_static() {
            write_items(&self.items, buf);
        }
    }

    fn ssz_write(&self, buf: &mut Vec<u8>) {
        proof {
            Self::lemma_encoding_len(self@);
        }
        write_items(&self.items, buf);
    }
}

impl<T: SszDecode, const N: usize> SszDecode for Vector<T, N> {
    /// Static items fill exactly `N` fixed-length chunks; variable items
    /// follow a table of `N` offsets.
    open spec fn decoding(bytes: Seq<u8>) -> Option<Seq<T::V>> {
        if T::static_spec() && bytes.len() != N * T::fixed_len_spec() {
            None
        } else {
            items_decoding::<T>(N as nat, bytes)
        }
    }

    proof fn lemma_decoding(bytes: Seq<u8>) {
        lemma_items_decoded_valid::<T>(N as nat, bytes);
    }

    proof fn lemma_round_trip(v: Seq<T::V>) {
        T::lemma_type_lengths();
        lemma_items_len::<T>(v);
        lemma_items_round_trip::<T>(v);
    }

    proof fn lemma_canonical(bytes: Seq<u8>) {
        lemma_items_canonical::<T>(N as nat, bytes);
    }

    fn from_ssz_bytes(bytes: &[u8]) -> (r: Result<Self, DecodeError>)
        ensures
            T::static_spec() && bytes@.len() != N * T::fixed_len_spec() ==> r == Err::<
                Self,
                DecodeError,
            >(
                DecodeError::InvalidByteLength {
                    len: bytes@.len() as usize,
                    expected: (N * T::fixed_len_spec()) as usize,
                },
            ),
    {
        proof {
            T::lemma_type_lengths();
        }
        if T::is_ssz_static() {
            let expected = N * T::ssz_fixed_len();
            if bytes.len() != expected {
                return Err(DecodeError::InvalidByteLength { len: bytes.len(), expected });
            }
            let items = match decode_items::<T>(bytes, N) {
                Ok(items) => items,
                Err(e) => {
                    return Err(e);
                },
            };
            Self::try_from_iter(items)
        } else {
            proof {
                let m = item_max::<T>();
                assert(m >= 4);
                assert(N * 4 <= N * m) by (nonlinear_arith)
                    requires
                        m >= 4,
                ;
            }
            ssz_decode_variable_length_items::<T, Self>(bytes, N)
        }
    }
}

} // verus!
