//! Simple Serialize: a verified codec for the fixed/variable byte layout of
//! consensus-layer data.
//!
//! Every codable type states, over its view, whether it is static, its fixed
//! and maximum lengths, the bytes that encode a value and the value that
//! bytes decode to ([`codec::SszEncode`], [`codec::SszDecode`]). Leaf types
//! ([`basic`]), sequences ([`sequence`], [`bitfield`]) and containers
//! ([`container`]) implement both, and each proves that decoding an encoding
//! gives the value back and that only encodings decode ([`theorems`]).
pub mod error;
pub mod offset;
pub mod layout;
pub mod codec;
pub mod basic;
pub mod items;
pub mod sequence;
pub mod container;
pub mod bitfield;
pub mod theorems;

pub use crate::bitfield::{BitList, BitVector};
pub use crate::codec::{to_ssz_bytes, SszDecode, SszEncode};
pub use crate::error::{DecodeError, InvalidBytes};
pub use crate::offset::BYTES_PER_LENGTH_OFFSET;
pub use crate::sequence::{ssz_decode_variable_length_items, List, TryFromIter, Vector};
