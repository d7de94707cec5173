use sszb::bitfield::{BitList, BitVector};
use sszb::codec::{to_ssz_bytes, SszDecode, SszEncode};
use sszb::error::{DecodeError, InvalidBytes};
use sszb::sequence::List;
use std::sync::Arc;

fn bools(s: &str) -> Vec<bool> {
    s.chars().map(|c| c == '1').collect()
}

#[test]
fn bitvector_packs_low_bit_first() {
    let v: BitVector<10> = BitVector::new(bools("1000000001")).unwrap();
    let bytes = to_ssz_bytes(&v);
    assert_eq!(bytes, vec![0b0000_0001, 0b0000_0010]);
    assert_eq!(v.sszb_bytes_len(), 2);
    assert_eq!(BitVector::<10>::from_ssz_bytes(&bytes).unwrap(), v);
    assert!(<BitVector<10> as SszEncode>::is_ssz_static());
    assert_eq!(<BitVector<10> as SszEncode>::ssz_fixed_len(), 2);
}

#[test]
fn bitvector_excess_bits_rejected() {
    assert_eq!(
        BitVector::<10>::from_ssz_bytes(&[0, 0b0000_0100]),
        Err(DecodeError::BytesInvalid(InvalidBytes::ExcessBits))
    );
    assert_eq!(
        BitVector::<10>::from_ssz_bytes(&[0]),
        Err(DecodeError::InvalidByteLength { len: 1, expected: 2 })
    );
    assert_eq!(BitVector::<8>::from_ssz_bytes(&[0xff]).unwrap().get(7), true);
}

#[test]
fn bitvector_of_no_bits_is_one_zero_byte() {
    let v: BitVector<0> = BitVector::new(vec![]).unwrap();
    assert_eq!(to_ssz_bytes(&v), vec![0]);
    assert_eq!(BitVector::<0>::from_ssz_bytes(&[0]).unwrap(), v);
    assert_eq!(
        BitVector::<0>::from_ssz_bytes(&[1]),
        Err(DecodeError::BytesInvalid(InvalidBytes::ExcessBits))
    );
}

#[test]
fn bitlist_marker_bit() {
    let l: BitList<16> = BitList::new(bools("101")).unwrap();
    assert_eq!(to_ssz_bytes(&l), vec![0b0000_1101]);
    let full: BitList<16> = BitList::new(bools("11111111")).unwrap();
    assert_eq!(to_ssz_bytes(&full), vec![0xff, 0x01]);
    assert_eq!(full.sszb_bytes_len(), 2);
    let empty: BitList<16> = BitList::new(vec![]).unwrap();
    assert_eq!(to_ssz_bytes(&empty), vec![1]);
    assert_eq!(BitList::<16>::from_ssz_bytes(&[1]).unwrap(), empty);
    let back = BitList::<16>::from_ssz_bytes(&[0b0000_1101]).unwrap();
    assert_eq!(back.len(), 3);
    assert_eq!(back, l);
    assert_eq!(BitList::<16>::from_ssz_bytes(&[0xff, 0x01]).unwrap(), full);
}

#[test]
fn bitlist_malformed_marker_rejected() {
    assert_eq!(
        BitList::<16>::from_ssz_bytes(&[0b1010, 0]),
        Err(DecodeError::BytesInvalid(InvalidBytes::MissingSentinel))
    );
    assert_eq!(
        BitList::<16>::from_ssz_bytes(&[]),
        Err(DecodeError::BytesInvalid(InvalidBytes::MissingSentinel))
    );
}

#[test]
fn bitlist_capacity_rejected() {
    assert_eq!(
        BitList::<3>::from_ssz_bytes(&[0b0001_0000]),
        Err(DecodeError::ExceedsMaxLength { len: 4, max: 3 })
    );
    assert_eq!(
        BitList::<3>::from_ssz_bytes(&[0, 1]),
        Err(DecodeError::InvalidByteLength { len: 2, expected: 1 })
    );
    assert!(BitList::<3>::new(bools("1111")).is_err());
    assert_eq!(<BitList<16> as SszEncode>::ssz_max_len(), 3);
}

#[test]
fn bitlist_in_container() {
    let v: (u16, BitList<8>, u8) = (0x0102, BitList::new(bools("01")).unwrap(), 9);
    let bytes = to_ssz_bytes(&v);
    assert_eq!(bytes, vec![0x02, 0x01, 7, 0, 0, 0, 9, 0b0000_0110]);
    assert_eq!(<(u16, BitList<8>, u8)>::from_ssz_bytes(&bytes).unwrap(), v);
}

#[test]
fn byte_blobs() {
    let h: [u8; 4] = [1, 2, 3, 4];
    assert_eq!(to_ssz_bytes(&h), vec![1, 2, 3, 4]);
    assert_eq!(<[u8; 4]>::from_ssz_bytes(&[1, 2, 3, 4]), Ok(h));
    assert_eq!(
        <[u8; 4]>::from_ssz_bytes(&[1, 2, 3]),
        Err(DecodeError::InvalidByteLength { len: 3, expected: 4 })
    );
    assert_eq!(<[u8; 32] as SszEncode>::ssz_fixed_len(), 32);
}

#[test]
fn triple_with_two_variable_fields() {
    let a: List<u8, 4> = List::new(vec![1, 2]).unwrap();
    let b: List<u16, 2> = List::new(vec![0x0304]).unwrap();
    let v = (a, 5u32, b);
    let bytes = to_ssz_bytes(&v);
    assert_eq!(
        bytes,
        vec![12, 0, 0, 0, 5, 0, 0, 0, 14, 0, 0, 0, 1, 2, 0x04, 0x03]
    );
    assert_eq!(v.sszb_bytes_len(), 16);
    assert_eq!(<(List<u8, 4>, u32, List<u16, 2>)>::from_ssz_bytes(&bytes).unwrap(), v);
    // The second offset lowered below the first.
    let mut bad = bytes.clone();
    bad[8] = 11;
    assert_eq!(
        <(List<u8, 4>, u32, List<u16, 2>)>::from_ssz_bytes(&bad),
        Err(DecodeError::OffsetsAreDecreasing(11))
    );
    // The second offset past the end.
    let mut past = bytes.clone();
    past[8] = 17;
    assert_eq!(
        <(List<u8, 4>, u32, List<u16, 2>)>::from_ssz_bytes(&past),
        Err(DecodeError::OffsetOutOfBounds(17))
    );
}

#[test]
fn static_triple_exact_length() {
    let v: (u8, u16, bool) = (1, 2, true);
    let bytes = to_ssz_bytes(&v);
    assert_eq!(bytes, vec![1, 2, 0, 1]);
    assert_eq!(<(u8, u16, bool)>::from_ssz_bytes(&bytes).unwrap(), v);
    assert_eq!(
        <(u8, u16, bool)>::from_ssz_bytes(&[1, 2, 0, 1, 0]),
        Err(DecodeError::InvalidByteLength { len: 5, expected: 4 })
    );
    assert_eq!(
        <(u8, u16, bool)>::from_ssz_bytes(&[1, 2, 0]),
        Err(DecodeError::InvalidByteLength { len: 3, expected: 4 })
    );
}

#[test]
fn shared_field_encodes_as_inner() {
    let inner: List<u8, 4> = List::new(vec![4, 5]).unwrap();
    let v: (Arc<List<u8, 4>>, u8) = (Arc::new(inner.clone()), 3);
    let bytes = to_ssz_bytes(&v);
    assert_eq!(bytes, vec![5, 0, 0, 0, 3, 4, 5]);
    let back = <(Arc<List<u8, 4>>, u8)>::from_ssz_bytes(&bytes).unwrap();
    assert_eq!(*back.0, inner);
    assert_eq!(back.1, 3);
}

#[test]
fn crate_root_names() {
    let l: sszb::List<u8, 2> = sszb::List::new(vec![1]).unwrap();
    assert_eq!(sszb::to_ssz_bytes(&l), vec![1]);
    assert_eq!(sszb::BYTES_PER_LENGTH_OFFSET, 4);
}
