use sszb::codec::{to_ssz_bytes, SszDecode, SszEncode};
use sszb::error::{DecodeError, InvalidBytes};
use sszb::offset::{read_offset_from_slice, sanitize_offset};
use sszb::sequence::{List, Vector};

#[test]
fn container_flag_and_list_layout() {
    let v: (bool, List<u8, 4>) = (true, List::new(vec![1, 2, 3]).unwrap());
    let bytes = to_ssz_bytes(&v);
    assert_eq!(bytes, vec![0x01, 0x05, 0x00, 0x00, 0x00, 0x01, 0x02, 0x03]);
    assert_eq!(v.sszb_bytes_len(), bytes.len());
    let back = <(bool, List<u8, 4>)>::from_ssz_bytes(&bytes).unwrap();
    assert_eq!(back, v);
}

#[test]
fn empty_list_from_no_bytes() {
    let l = List::<u8, 4>::from_ssz_bytes(&[]).unwrap();
    assert_eq!(l.len(), 0);
    assert!(to_ssz_bytes(&l).is_empty());
    let mut offset: usize = 4;
    let mut buf: Vec<u8> = Vec::new();
    l.ssz_write_fixed(&mut offset, &mut buf);
    assert_eq!(buf, vec![4, 0, 0, 0]);
    assert_eq!(offset, 4);
    l.ssz_write_variable(&mut buf);
    assert_eq!(buf, vec![4, 0, 0, 0]);
}

#[test]
fn empty_list_in_container() {
    let v: (u8, List<u16, 3>) = (7, List::empty());
    let bytes = to_ssz_bytes(&v);
    assert_eq!(bytes, vec![7, 5, 0, 0, 0]);
    assert_eq!(<(u8, List<u16, 3>)>::from_ssz_bytes(&bytes).unwrap(), v);
}

#[test]
fn bool_domain() {
    assert_eq!(bool::from_ssz_bytes(&[0]), Ok(false));
    assert_eq!(bool::from_ssz_bytes(&[1]), Ok(true));
    assert_eq!(
        bool::from_ssz_bytes(&[2]),
        Err(DecodeError::BytesInvalid(InvalidBytes::BoolOutOfRange(2)))
    );
    assert_eq!(to_ssz_bytes(&false), vec![0]);
    assert_eq!(to_ssz_bytes(&true), vec![1]);
    assert_eq!(
        bool::from_ssz_bytes(&[1, 0]),
        Err(DecodeError::InvalidByteLength { len: 2, expected: 1 })
    );
}

#[test]
fn bool_field_out_of_range_fails_container() {
    let bytes = vec![0x02, 0x05, 0x00, 0x00, 0x00, 0x01];
    assert_eq!(
        <(bool, List<u8, 4>)>::from_ssz_bytes(&bytes),
        Err(DecodeError::BytesInvalid(InvalidBytes::BoolOutOfRange(2)))
    );
}

#[test]
fn integers_little_endian() {
    assert_eq!(to_ssz_bytes(&0x0102u16), vec![0x02, 0x01]);
    assert_eq!(to_ssz_bytes(&0x01020304u32), vec![4, 3, 2, 1]);
    assert_eq!(to_ssz_bytes(&1u64), vec![1, 0, 0, 0, 0, 0, 0, 0]);
    assert_eq!(to_ssz_bytes(&(u128::MAX - 1))[0], 0xfe);
    assert_eq!(to_ssz_bytes(&(u128::MAX - 1)).len(), 16);
    assert_eq!(u32::from_ssz_bytes(&[4, 3, 2, 1]), Ok(0x01020304));
    assert_eq!(u64::from_ssz_bytes(&[0xff; 8]), Ok(u64::MAX));
    assert_eq!(u16::from_ssz_bytes(&[1, 2]), Ok(0x0201));
    assert_eq!(u8::from_ssz_bytes(&[9]), Ok(9));
    assert_eq!(
        u32::from_ssz_bytes(&[1, 2, 3]),
        Err(DecodeError::InvalidByteLength { len: 3, expected: 4 })
    );
}

#[test]
fn static_lengths() {
    assert!(<u64 as SszEncode>::is_ssz_static());
    assert_eq!(<u64 as SszEncode>::ssz_fixed_len(), 8);
    assert_eq!(<u128 as SszEncode>::ssz_max_len(), 16);
    assert!(!<List<u8, 4> as SszEncode>::is_ssz_static());
    assert_eq!(<List<u8, 4> as SszEncode>::ssz_fixed_len(), 4);
    assert_eq!(<List<u16, 4> as SszEncode>::ssz_max_len(), 8);
    assert_eq!(<List<List<u8, 2>, 3> as SszEncode>::ssz_max_len(), 18);
    assert!(<Vector<u32, 3> as SszEncode>::is_ssz_static());
    assert_eq!(<Vector<u32, 3> as SszEncode>::ssz_fixed_len(), 12);
    assert!(<(u8, u32) as SszEncode>::is_ssz_static());
    assert_eq!(<(u8, u32) as SszEncode>::ssz_fixed_len(), 5);
    assert_eq!(<(u8, List<u8, 4>) as SszEncode>::ssz_fixed_len(), 4);
    assert_eq!(<(u8, List<u8, 4>) as SszEncode>::ssz_max_len(), 9);
}

#[test]
fn list_capacity_exceeded_static() {
    assert_eq!(
        List::<u16, 2>::from_ssz_bytes(&[1, 0, 2, 0, 3, 0]),
        Err(DecodeError::ExceedsMaxLength { len: 3, max: 2 })
    );
    assert_eq!(
        List::<u8, 2>::new(vec![1, 2, 3]),
        Err(DecodeError::ExceedsMaxLength { len: 3, max: 2 })
    );
}

#[test]
fn list_capacity_exceeded_variable() {
    // Three offsets for a list bounded at two.
    let bytes = vec![12, 0, 0, 0, 13, 0, 0, 0, 14, 0, 0, 0, 1, 2, 3];
    assert_eq!(
        List::<List<u8, 4>, 2>::from_ssz_bytes(&bytes),
        Err(DecodeError::ExceedsMaxLength { len: 3, max: 2 })
    );
    let ok = List::<List<u8, 4>, 3>::from_ssz_bytes(&bytes).unwrap();
    assert_eq!(ok.len(), 3);
    assert_eq!(ok.as_slice()[2].as_slice(), &[3]);
}

#[test]
fn list_trailing_bytes_rejected() {
    assert_eq!(
        List::<u16, 4>::from_ssz_bytes(&[1, 0, 2]),
        Err(DecodeError::BytesInvalid(InvalidBytes::TrailingBytes))
    );
}

#[test]
fn nested_lists_round_trip() {
    let inner1: List<u8, 4> = List::new(vec![1, 2, 3]).unwrap();
    let inner2: List<u8, 4> = List::new(vec![]).unwrap();
    let inner3: List<u8, 4> = List::new(vec![4, 5]).unwrap();
    let outer: List<List<u8, 4>, 3> = List::new(vec![inner1, inner2, inner3]).unwrap();
    let bytes = to_ssz_bytes(&outer);
    assert_eq!(
        bytes,
        vec![12, 0, 0, 0, 15, 0, 0, 0, 15, 0, 0, 0, 1, 2, 3, 4, 5]
    );
    assert_eq!(outer.sszb_bytes_len(), 17);
    assert_eq!(List::<List<u8, 4>, 3>::from_ssz_bytes(&bytes).unwrap(), outer);
}

#[test]
fn single_empty_inner_list_round_trips() {
    let outer: List<List<u8, 4>, 2> = List::new(vec![List::empty()]).unwrap();
    let bytes = to_ssz_bytes(&outer);
    assert_eq!(bytes, vec![4, 0, 0, 0]);
    assert_eq!(List::<List<u8, 4>, 2>::from_ssz_bytes(&bytes).unwrap(), outer);
}

#[test]
fn decreasing_offset_rejected() {
    // Offsets 12, 15, 15 with the second lowered below the first.
    let bytes = vec![12, 0, 0, 0, 11, 0, 0, 0, 15, 0, 0, 0, 1, 2, 3, 4, 5];
    assert_eq!(
        List::<List<u8, 4>, 3>::from_ssz_bytes(&bytes),
        Err(DecodeError::OffsetsAreDecreasing(11))
    );
}

#[test]
fn first_offset_checks() {
    assert_eq!(
        List::<List<u8, 4>, 3>::from_ssz_bytes(&[9, 0, 0, 0, 1, 2, 3, 4, 5]),
        Err(DecodeError::InvalidListFixedBytesLen(9))
    );
    assert_eq!(
        List::<List<u8, 4>, 3>::from_ssz_bytes(&[40, 0, 0, 0, 1]),
        Err(DecodeError::OffsetOutOfBounds(40))
    );
    assert_eq!(
        List::<List<u8, 4>, 3>::from_ssz_bytes(&[4, 0]),
        Err(DecodeError::InvalidByteLength { len: 2, expected: 4 })
    );
}

#[test]
fn container_offset_must_start_tail() {
    // Offset 6 in a container whose fixed region is 5 bytes long.
    assert_eq!(
        <(u8, List<u8, 4>)>::from_ssz_bytes(&[1, 6, 0, 0, 0, 9, 9]),
        Err(DecodeError::OffsetSkipsVariableBytes(6))
    );
    assert_eq!(
        <(u8, List<u8, 4>)>::from_ssz_bytes(&[1, 4, 0, 0, 0, 9, 9]),
        Err(DecodeError::OffsetIntoFixedPortion(4))
    );
}

#[test]
fn truncation_rejected() {
    let v: (u32, Vector<u16, 2>) = (0xdeadbeef, Vector::new(vec![1, 2]).unwrap());
    let bytes = to_ssz_bytes(&v);
    assert_eq!(bytes.len(), 8);
    for k in 1..=bytes.len() {
        let short = &bytes[..bytes.len() - k];
        assert!(<(u32, Vector<u16, 2>)>::from_ssz_bytes(short).is_err());
    }
    assert_eq!(<(u32, Vector<u16, 2>)>::from_ssz_bytes(&bytes).unwrap(), v);
    let c: (bool, List<u8, 4>) = (true, List::new(vec![1, 2, 3]).unwrap());
    let cb = to_ssz_bytes(&c);
    for k in 4..=cb.len() {
        assert!(<(bool, List<u8, 4>)>::from_ssz_bytes(&cb[..cb.len() - k]).is_err());
    }
}

#[test]
fn vector_static_exact_length() {
    let v: Vector<u16, 3> = Vector::new(vec![1, 2, 3]).unwrap();
    let bytes = to_ssz_bytes(&v);
    assert_eq!(bytes, vec![1, 0, 2, 0, 3, 0]);
    assert_eq!(Vector::<u16, 3>::from_ssz_bytes(&bytes).unwrap(), v);
    assert_eq!(
        Vector::<u16, 3>::from_ssz_bytes(&bytes[..4]),
        Err(DecodeError::InvalidByteLength { len: 4, expected: 6 })
    );
    assert_eq!(
        Vector::<u16, 3>::new(vec![1]),
        Err(DecodeError::InvalidByteLength { len: 1, expected: 3 })
    );
}

#[test]
fn vector_of_lists_round_trip() {
    let v: Vector<List<u8, 2>, 2> =
        Vector::new(vec![List::new(vec![7]).unwrap(), List::new(vec![8, 9]).unwrap()]).unwrap();
    assert!(!<Vector<List<u8, 2>, 2> as SszEncode>::is_ssz_static());
    let bytes = to_ssz_bytes(&v);
    assert_eq!(bytes, vec![8, 0, 0, 0, 9, 0, 0, 0, 7, 8, 9]);
    assert_eq!(Vector::<List<u8, 2>, 2>::from_ssz_bytes(&bytes).unwrap(), v);
}

#[test]
fn zero_length_items_rejected() {
    assert_eq!(
        List::<Vector<u8, 0>, 4>::from_ssz_bytes(&[1]),
        Err(DecodeError::ZeroLengthItem)
    );
}

#[test]
fn offsets_read_and_sanitized() {
    assert_eq!(read_offset_from_slice(&[5, 1, 0, 0, 9]), Ok(261));
    assert_eq!(
        read_offset_from_slice(&[5, 1]),
        Err(DecodeError::InvalidByteLength { len: 2, expected: 4 })
    );
    assert_eq!(sanitize_offset(8, None, 10, Some(8)), Ok(8));
    assert_eq!(
        sanitize_offset(4, None, 10, Some(8)),
        Err(DecodeError::OffsetIntoFixedPortion(4))
    );
    assert_eq!(
        sanitize_offset(9, None, 10, Some(8)),
        Err(DecodeError::OffsetSkipsVariableBytes(9))
    );
    assert_eq!(sanitize_offset(11, Some(8), 10, None), Err(DecodeError::OffsetOutOfBounds(11)));
    assert_eq!(sanitize_offset(7, Some(8), 10, None), Err(DecodeError::OffsetsAreDecreasing(7)));
}

#[test]
fn write_fixed_advances_offset() {
    let l: List<u16, 4> = List::new(vec![1, 2]).unwrap();
    let mut offset: usize = 10;
    let mut buf: Vec<u8> = Vec::new();
    l.ssz_write_fixed(&mut offset, &mut buf);
    assert_eq!(buf, vec![10, 0, 0, 0]);
    assert_eq!(offset, 14);
    l.ssz_write_variable(&mut buf);
    assert_eq!(buf, vec![10, 0, 0, 0, 1, 0, 2, 0]);
    let mut fixed_offset: usize = 10;
    7u32.ssz_write_fixed(&mut fixed_offset, &mut buf);
    assert_eq!(fixed_offset, 10);
    assert_eq!(buf.len(), 12);
}
