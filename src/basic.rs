//! Leaf codecs: unsigned integers (little-endian), booleans and fixed-size
//! byte blobs, each a static type of fixed width; and shared values, which
//! encode as the value they share.
use vstd::prelude::*;
use vstd::bytes::*;
use crate::codec::{SszDecode, SszEncode};
use crate::error::{DecodeError, InvalidBytes};
use std::sync::Arc;

verus! {

impl SszEncode for u8 {
    open spec fn static_spec() -> bool {
        true
    }

    open spec fn fixed_len_spec() -> nat {
        1
    }

    open spec fn max_len_spec() -> nat {
        1
    }

    open spec fn lengths_fit() -> bool {
        true
    }

    open spec fn valid(v: u8) -> bool {
        true
    }

    open spec fn encoding(v: u8) -> Seq<u8> {
        seq![v]
    }

    proof fn lemma_type_lengths() {
    }

    proof fn lemma_encoding_len(v: u8) {
    }

    fn is_ssz_static() -> (r: bool) {
        true
    }

    fn ssz_fixed_len() -> (r: usize) {
        1
    }

    fn ssz_max_len() -> (r: usize) {
        1
    }

    fn sszb_bytes_len(&self) -> (r: usize) {
        1
    }

    fn ssz_write_fixed(&self, offset: &mut usize, buf: &mut Vec<u8>) {
        self.ssz_write(buf);
    }

    fn ssz_write_variable(&self, buf: &mut Vec<u8>) {
    }

    fn ssz_write(&self, buf: &mut Vec<u8>) {
        buf.push(*self);
    }
}

impl SszDecode for u8 {
    open spec fn decoding(bytes: Seq<u8>) -> Option<u8> {
        if bytes.len() == 1 {
            Some(bytes[0])
        } else {
            None
        }
    }

    proof fn lemma_decoding(bytes: Seq<u8>) {
    }

    proof fn lemma_round_trip(v: u8) {
        assert(seq![v][0] == v);
    }

    proof fn lemma_canonical(bytes: Seq<u8>) {
        assert(seq![bytes[0]] =~= bytes);
    }

    fn from_ssz_bytes(bytes: &[u8]) -> (r: Result<u8, DecodeError>)
        ensures
            bytes@.len() != 1 ==> r == Err::<u8, DecodeError>(
                DecodeError::InvalidByteLength { len: bytes@.len() as usize, expected: 1 },
            ),
    {
        if bytes.len() != 1 {
            Err(DecodeError::InvalidByteLength { len: bytes.len(), expected: 1 })
        } else {
            Ok(bytes[0])
        }
    }
}

impl SszEncode for bool {
    open spec fn static_spec() -> bool {
        true
    }

    open spec fn fixed_len_spec() -> nat {
        1
    }

    open spec fn max_len_spec() -> nat {
        1
    }

    open spec fn lengths_fit() -> bool {
        true
    }

    open spec fn valid(v: bool) -> bool {
        true
    }

    open spec fn encoding(v: bool) -> Seq<u8> {
        seq![if v { 1u8 } else { 0u8 }]
    }

    proof fn lemma_type_lengths() {
    }

    proof fn lemma_encoding_len(v: bool) {
    }

    fn is_ssz_static() -> (r: bool) {
        true
    }

    fn ssz_fixed_len() -> (r: usize) {
        1
    }

    fn ssz_max_len() -> (r: usize) {
        1
    }

    fn sszb_bytes_len(&self) -> (r: usize) {
        1
    }

    fn ssz_write_fixed(&self, offset: &mut usize, buf: &mut Vec<u8>) {
        self.ssz_write(buf);
    }

    fn ssz_write_variable(&self, buf: &mut Vec<u8>) {
    }

    fn ssz_write(&self, buf: &mut Vec<u8>) {
        buf.push(if *self { 1u8 } else { 0u8 });
    }
}

impl SszDecode for bool {
    /// Only the bytes 0 and 1 are booleans.
    open spec fn decoding(bytes: Seq<u8>) -> Option<bool> {
        if bytes.len() == 1 && bytes[0] <= 1 {
            Some(bytes[0] == 1)
        } else {
            None
        }
    }

    proof fn lemma_decoding(bytes: Seq<u8>) {
    }

    proof fn lemma_round_trip(v: bool) {
    }

    proof fn lemma_canonical(bytes: Seq<u8>) {
        assert(Self::encoding(bytes[0] == 1) =~= bytes);
    }

    fn from_ssz_bytes(bytes: &[u8]) -> (r: Result<bool, DecodeError>)
        ensures
            bytes@.len() != 1 ==> r == Err::<bool, DecodeError>(
                DecodeError::InvalidByteLength { len: bytes@.len() as usize, expected: 1 },
            ),
            bytes@.len() == 1 && bytes@[0] > 1 ==> r == Err::<bool, DecodeError>(
                DecodeError::BytesInvalid(InvalidBytes::BoolOutOfRange(bytes@[0])),
            ),
    {
        if bytes.len() != 1 {
            Err(DecodeError::InvalidByteLength { len: bytes.len(), expected: 1 })
        } else {
            let b = bytes[0];
            if b == 0 {
                Ok(false)
            } else if b == 1 {
                Ok(true)
            } else {
                Err(DecodeError::BytesInvalid(InvalidBytes::BoolOutOfRange(b)))
            }
        }
    }
}

impl SszEncode for u16 {
    open spec fn static_spec() -> bool {
        true
    }

    open spec fn fixed_len_spec() -> nat {
        2
    }

    open spec fn max_len_spec() -> nat {
        2
    }

    open spec fn lengths_fit() -> bool {
        true
    }

    open spec fn valid(v: u16) -> bool {
        true
    }

    open spec fn encoding(v: u16) -> Seq<u8> {
        spec_u16_to_le_bytes(v)
    }

    proof fn lemma_type_lengths() {
    }

    proof fn lemma_encoding_len(v: u16) {
        lemma_auto_spec_u16_to_from_le_bytes();
    }

    fn is_ssz_static() -> (r: bool) {
        true
    }

    fn ssz_fixed_len() -> (r: usize) {
        2
    }

    fn ssz_max_len() -> (r: usize) {
        2
    }

    fn sszb_bytes_len(&self) -> (r: usize) {
        proof {
            lemma_auto_spec_u16_to_from_le_bytes();
        }
        2
    }

    fn ssz_write_fixed(&self, offset: &mut usize, buf: &mut Vec<u8>) {
        self.ssz_write(buf);
    }

    fn ssz_write_variable(&self, buf: &mut Vec<u8>) {
    }

    fn ssz_write(&self, buf: &mut Vec<u8>) {
        let mut b = u16_to_le_bytes(*self);
        buf.append(&mut b);
    }
}

impl SszDecode for u16 {
    open spec fn decoding(bytes: Seq<u8>) -> Option<u16> {
        if bytes.len() == 2 {
            Some(spec_u16_from_le_bytes(bytes))
        } else {
            None
        }
    }

    proof fn lemma_decoding(bytes: Seq<u8>) {
    }

    proof fn lemma_round_trip(v: u16) {
        lemma_auto_spec_u16_to_from_le_bytes();
    }

    proof fn lemma_canonical(bytes: Seq<u8>) {
        lemma_auto_spec_u16_to_from_le_bytes();
    }

    fn from_ssz_bytes(bytes: &[u8]) -> (r: Result<u16, DecodeError>)
        ensures
            bytes@.len() != 2 ==> r == Err::<u16, DecodeError>(
                DecodeError::InvalidByteLength { len: bytes@.len() as usize, expected: 2 },
            ),
    {
        if bytes.len() != 2 {
            Err(DecodeError::InvalidByteLength { len: bytes.len(), expected: 2 })
        } else {
            Ok(u16_from_le_bytes(bytes))
        }
    }
}

impl SszEncode for u32 {
    open spec fn static_spec() -> bool {
        true
    }

    open spec fn fixed_len_spec() -> nat {
        4
    }

    open spec fn max_len_spec() -> nat {
        4
    }

    open spec fn lengths_fit() -> bool {
        true
    }

    open spec fn valid(v: u32) -> bool {
        true
    }

    open spec fn encoding(v: u32) -> Seq<u8> {
        spec_u32_to_le_bytes(v)
    }

    proof fn lemma_type_lengths() {
    }

    proof fn lemma_encoding_len(v: u32) {
        lemma_auto_spec_u32_to_from_le_bytes();
    }

    fn is_ssz_static() -> (r: bool) {
        true
    }

    fn ssz_fixed_len() -> (r: usize) {
        4
    }

    fn ssz_max_len() -> (r: usize) {
        4
    }

    fn sszb_bytes_len(&self) -> (r: usize) {
        proof {
            lemma_auto_spec_u32_to_from_le_bytes();
        }
        4
    }

    fn ssz_write_fixed(&self, offset: &mut usize, buf: &mut Vec<u8>) {
        self.ssz_write(buf);
    }

    fn ssz_write_variable(&self, buf: &mut Vec<u8>) {
    }

    fn ssz_write(&self, buf: &mut Vec<u8>) {
        let mut b = u32_to_le_bytes(*self);
        buf.append(&mut b);
    }
}

impl SszDecode for u32 {
    open spec fn decoding(bytes: Seq<u8>) -> Option<u32> {
        if bytes.len() == 4 {
            Some(spec_u32_from_le_bytes(bytes))
        } else {
            None
        }
    }

    proof fn lemma_decoding(bytes: Seq<u8>) {
    }

    proof fn lemma_round_trip(v: u32) {
        lemma_auto_spec_u32_to_from_le_bytes();
    }

    proof fn lemma_canonical(bytes: Seq<u8>) {
        lemma_auto_spec_u32_to_from_le_bytes();
    }

    fn from_ssz_bytes(bytes: &[u8]) -> (r: Result<u32, DecodeError>)
        ensures
            bytes@.len() != 4 ==> r == Err::<u32, DecodeError>(
                DecodeError::InvalidByteLength { len: bytes@.len() as usize, expected: 4 },
            ),
    {
        if bytes.len() != 4 {
            Err(DecodeError::InvalidByteLength { len: bytes.len(), expected: 4 })
        } else {
            Ok(u32_from_le_bytes(bytes))
        }
    }
}

impl SszEncode for u64 {
    open spec fn static_spec() -> bool {
        true
    }

    open spec fn fixed_len_spec() -> nat {
        8
    }

    open spec fn max_len_spec() -> nat {
        8
    }

    open spec fn lengths_fit() -> bool {
        true
    }

    open spec fn valid(v: u64) -> bool {
        true
    }

    open spec fn encoding(v: u64) -> Seq<u8> {
        spec_u64_to_le_bytes(v)
    }

    proof fn lemma_type_lengths() {
    }

    proof fn lemma_encoding_len(v: u64) {
        lemma_auto_spec_u64_to_from_le_bytes();
    }

    fn is_ssz_static() -> (r: bool) {
        true
    }

    fn ssz_fixed_len() -> (r: usize) {
        8
    }

    fn ssz_max_len() -> (r: usize) {
        8
    }

    fn sszb_bytes_len(&self) -> (r: usize) {
        proof {
            lemma_auto_spec_u64_to_from_le_bytes();
        }
        8
    }

    fn ssz_write_fixed(&self, offset: &mut usize, buf: &mut Vec<u8>) {
        self.ssz_write(buf);
    }

    fn ssz_write_variable(&self, buf: &mut Vec<u8>) {
    }

    fn ssz_write(&self, buf: &mut Vec<u8>) {
        let mut b = u64_to_le_bytes(*self);
        buf.append(&mut b);
    }
}

impl SszDecode for u64 {
    open spec fn decoding(bytes: Seq<u8>) -> Option<u64> {
        if bytes.len() == 8 {
            Some(spec_u64_from_le_bytes(bytes))
        } else {
            None
        }
    }

    proof fn lemma_decoding(bytes: Seq<u8>) {
    }

    proof fn lemma_round_trip(v: u64) {
        lemma_auto_spec_u64_to_from_le_bytes();
    }

    proof fn lemma_canonical(bytes: Seq<u8>) {
        lemma_auto_spec_u64_to_from_le_bytes();
    }

    fn from_ssz_bytes(bytes: &[u8]) -> (r: Result<u64, DecodeError>)
        ensures
            bytes@.len() != 8 ==> r == Err::<u64, DecodeError>(
                DecodeError::InvalidByteLength { len: bytes@.len() as usize, expected: 8 },
            ),
    {
        if bytes.len() != 8 {
            Err(DecodeError::InvalidByteLength { len: bytes.len(), expected: 8 })
        } else {
            Ok(u64_from_le_bytes(bytes))
        }
    }
}

impl SszEncode for u128 {
    open spec fn static_spec() -> bool {
        true
    }

    open spec fn fixed_len_spec() -> nat {
        16
    }

    open spec fn max_len_spec() -> nat {
        16
    }

    open spec fn lengths_fit() -> bool {
        true
    }

    open spec fn valid(v: u128) -> bool {
        true
    }

    open spec fn encoding(v: u128) -> Seq<u8> {
        spec_u128_to_le_bytes(v)
    }

    proof fn lemma_type_lengths() {
    }

    proof fn lemma_encoding_len(v: u128) {
        lemma_auto_spec_u128_to_from_le_bytes();
    }

    fn is_ssz_static() -> (r: bool) {
        true
    }

    fn ssz_fixed_len() -> (r: usize) {
        16
    }

    fn ssz_max_len() -> (r: usize) {
        16
    }

    fn sszb_bytes_len(&self) -> (r: usize) {
        proof {
            lemma_auto_spec_u128_to_from_le_bytes();
        }
        16
    }

    fn ssz_write_fixed(&self, offset: &mut usize, buf: &mut Vec<u8>) {
        self.ssz_write(buf);
    }

    fn ssz_write_variable(&self, buf: &mut Vec<u8>) {
    }

    fn ssz_write(&self, buf: &mut Vec<u8>) {
        let mut b = u128_to_le_bytes(*self);
        buf.append(&mut b);
    }
}

impl SszDecode for u128 {
    open spec fn decoding(bytes: Seq<u8>) -> Option<u128> {
        if bytes.len() == 16 {
            Some(spec_u128_from_le_bytes(bytes))
        } else {
            None
        }
    }

    proof fn lemma_decoding(bytes: Seq<u8>) {
    }

    proof fn lemma_round_trip(v: u128) {
        lemma_auto_spec_u128_to_from_le_bytes();
    }

    proof fn lemma_canonical(bytes: Seq<u8>) {
        lemma_auto_spec_u128_to_from_le_bytes();
    }

    fn from_ssz_bytes(bytes: &[u8]) -> (r: Result<u128, DecodeError>)
        ensures
            bytes@.len() != 16 ==> r == Err::<u128, DecodeError>(
                DecodeError::InvalidByteLength { len: bytes@.len() as usize, expected: 16 },
            ),
    {
        if bytes.len() != 16 {
            Err(DecodeError::InvalidByteLength { len: bytes.len(), expected: 16 })
        } else {
            Ok(u128_from_le_bytes(bytes))
        }
    }
}

impl<const N: usize> SszEncode for [u8; N] {
    open spec fn static_spec() -> bool {
        true
    }

    open spec fn fixed_len_spec() -> nat {
        N as nat
    }

    open spec fn max_len_spec() -> nat {
        N as nat
    }

    open spec fn lengths_fit() -> bool {
        true
    }

    open spec fn valid(v: Seq<u8>) -> bool {
        v.len() == N
    }

    open spec fn encoding(v: Seq<u8>) -> Seq<u8> {
        v
    }

    proof fn lemma_type_lengths() {
    }

    proof fn lemma_encoding_len(v: Seq<u8>) {
    }

    fn is_ssz_static() -> (r: bool) {
        true
    }

    fn ssz_fixed_len() -> (r: usize) {
        N
    }

    fn ssz_max_len() -> (r: usize) {
        N
    }

    fn sszb_bytes_len(&self) -> (r: usize) {
        N
    }

    fn ssz_write_fixed(&self, offset: &mut usize, buf: &mut Vec<u8>) {
        self.ssz_write(buf);
    }

    fn ssz_write_variable(&self, buf: &mut Vec<u8>) {
    }

    fn ssz_write(&self, buf: &mut Vec<u8>) {
        let mut i: usize = 0;
        while i < N
            invariant
                self@.len() == N,
                0 <= i <= N,
                buf@ == old(buf)@ + self@.take(i as int),
            decreases N - i,
        {
            buf.push(self[i]);
            assert(self@.take(i + 1) =~= self@.take(i as int).push(self@[i as int]));
            i = i + 1;
        }
        assert(self@.take(N as int) =~= self@);
    }
}

impl<const N: usize> SszDecode for [u8; N] {
    open spec fn decoding(bytes: Seq<u8>) -> Option<Seq<u8>> {
        if bytes.len() == N {
            Some(bytes)
        } else {
            None
        }
    }

    proof fn lemma_decoding(bytes: Seq<u8>) {
    }

    proof fn lemma_round_trip(v: Seq<u8>) {
    }

    proof fn lemma_canonical(bytes: Seq<u8>) {
    }

    fn from_ssz_bytes(bytes: &[u8]) -> (r: Result<[u8; N], DecodeError>)
        ensures
            bytes@.len() != N ==> r == Err::<[u8; N], DecodeError>(
                DecodeError::InvalidByteLength { len: bytes@.len() as usize, expected: N },
            ),
    {
        if bytes.len() != N {
            return Err(DecodeError::InvalidByteLength { len: bytes.len(), expected: N });
        }
        let mut out = [0u8; N];
        let mut i: usize = 0;
        while i < N
            invariant
                bytes@.len() == N,
                out@.len() == N,
                0 <= i <= N,
                forall|k: int| 0 <= k < i ==> out@[k] == bytes@[k],
            decreases N - i,
        {
            out[i] = bytes[i];
            i = i + 1;
        }
        assert(out@ =~= bytes@);
        Ok(out)
    }
}

impl<T: SszEncode> SszEncode for Arc<T> {
    open spec fn static_spec() -> bool {
        T::static_spec()
    }

    open spec fn fixed_len_spec() -> nat {
        T::fixed_len_spec()
    }

    open spec fn max_len_spec() -> nat {
        T::max_len_spec()
    }

    open spec fn lengths_fit() -> bool {
        T::lengths_fit()
    }

    open spec fn valid(v: T::V) -> bool {
        T::valid(v)
    }

    open spec fn encoding(v: T::V) -> Seq<u8> {
        T::encoding(v)
    }

    proof fn lemma_type_lengths() {
        T::lemma_type_lengths();
    }

    proof fn lemma_encoding_len(v: T::V) {
        T::lemma_encoding_len(v);
    }

    fn is_ssz_static() -> (r: bool) {
        T::is_ssz_static()
    }

    fn ssz_fixed_len() -> (r: usize) {
        T::ssz_fixed_len()
    }

    fn ssz_max_len() -> (r: usize) {
        T::ssz_max_len()
    }

    fn sszb_bytes_len(&self) -> (r: usize) {
        (**self).sszb_bytes_len()
    }

    fn ssz_write_fixed(&self, offset: &mut usize, buf: &mut Vec<u8>) {
        (**self).ssz_write_fixed(offset, buf);
    }

    fn ssz_write_variable(&self, buf: &mut Vec<u8>) {
        (**self).ssz_write_variable(buf);
    }

    fn ssz_write(&self, buf: &mut Vec<u8>) {
        (**self).ssz_write(buf);
    }
}

impl<T: SszDecode> SszDecode for Arc<T> {
    open spec fn decoding(bytes: Seq<u8>) -> Option<T::V> {
        T::decoding(bytes)
    }

    proof fn lemma_decoding(bytes: Seq<u8>) {
        T::lemma_decoding(bytes);
    }

    proof fn lemma_round_trip(v: T::V) {
        T::lemma_round_trip(v);
    }

    proof fn lemma_canonical(bytes: Seq<u8>) {
        T::lemma_canonical(bytes);
    }

    fn from_ssz_bytes(bytes: &[u8]) -> (r: Result<Arc<T>, DecodeError>) {
        match T::from_ssz_bytes(bytes) {
            Ok(t) => Ok(Arc::new(t)),
            Err(e) => Err(e),
        }
    }
}

} // verus!
