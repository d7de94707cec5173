//! Bit-packed sequences: `BitVector`, of exactly `N` bits, static; and
//! `BitList`, of at most `N` bits, variable, whose encoding ends with a
//! marker bit set just past the last bit.
use vstd::prelude::*;
use crate::codec::{SszDecode, SszEncode};
use crate::error::{DecodeError, InvalidBytes};
use crate::offset::{write_offset, BYTES_PER_LENGTH_OFFSET};

verus! {

/// Bit `i` (0 the lowest) of byte `b`.
pub open spec fn get_bit(b: u8, i: nat) -> bool {
    (b >> (i as u8)) & 1u8 == 1u8
}

/// Bit `i` of a run of bits, false past its end.
pub open spec fn bit_at(bits: Seq<bool>, i: int) -> bool {
    0 <= i < bits.len() && bits[i]
}

/// Byte `k` of the packing of `bits`, built from its lowest `j` bits.
pub open spec fn pack_byte(bits: Seq<bool>, k: int, j: nat) -> u8
    decreases j,
{
    if j == 0 {
        0
    } else {
        let prev = pack_byte(bits, k, (j - 1) as nat);
        if bit_at(bits, 8 * k + j - 1) {
            prev | (1u8 << ((j - 1) as u8))
        } else {
            prev
        }
    }
}

/// Bytes needed for `n` bits; at least one.
pub open spec fn byte_len(n: nat) -> nat {
    if n == 0 {
        1
    } else {
        (n + 7) / 8
    }
}

/// Bits packed eight to a byte, lowest bit first.
pub open spec fn pack(bits: Seq<bool>) -> Seq<u8> {
    Seq::new(byte_len(bits.len()), |k: int| pack_byte(bits, k, 8))
}

/// The first `n` bits of `bytes`.
pub open spec fn unpack(bytes: Seq<u8>, n: nat) -> Seq<bool> {
    Seq::new(n, |i: int| get_bit(bytes[i / 8], (i % 8) as nat))
}

/// The highest bit set among the lowest `j` bits of `b` (0 when none is).
pub open spec fn top_bit(b: u8, j: nat) -> nat
    decreases j,
{
    if j == 0 {
        0
    } else if get_bit(b, (j - 1) as nat) {
        (j - 1) as nat
    } else {
        top_bit(b, (j - 1) as nat)
    }
}

proof fn lemma_bit_or(x: u8, j: u8, i: u8)
    requires
        j < 8,
        i < 8,
    ensures
        (((x | (1u8 << j)) >> i) & 1u8 == 1u8) == (i == j || ((x >> i) & 1u8 == 1u8)),
{
    assert((((x | (1u8 << j)) >> i) & 1u8 == 1u8) == (i == j || ((x >> i) & 1u8 == 1u8)))
        by (bit_vector)
        requires
            j < 8,
            i < 8,
    ;
}

proof fn lemma_zero_bits(i: u8)
    ensures
        (0u8 >> i) & 1u8 != 1u8,
{
    assert((0u8 >> i) & 1u8 != 1u8) by (bit_vector);
}

proof fn lemma_nonzero_has_bit(b: u8)
    requires
        b != 0,
    ensures
        exists|i: nat| i < 8 && get_bit(b, i),
{
    if !get_bit(b, 0) && !get_bit(b, 1) && !get_bit(b, 2) && !get_bit(b, 3) && !get_bit(b, 4)
        && !get_bit(b, 5) && !get_bit(b, 6) && !get_bit(b, 7) {
        assert(b == 0) by (bit_vector)
            requires
                (b >> 0u8) & 1u8 != 1u8,
                (b >> 1u8) & 1u8 != 1u8,
                (b >> 2u8) & 1u8 != 1u8,
                (b >> 3u8) & 1u8 != 1u8,
                (b >> 4u8) & 1u8 != 1u8,
                (b >> 5u8) & 1u8 != 1u8,
                (b >> 6u8) & 1u8 != 1u8,
                (b >> 7u8) & 1u8 != 1u8,
        ;
    }
}

/// Bit `i` of a packed byte is the bit it was packed from.
proof fn lemma_pack_byte(bits: Seq<bool>, k: int, j: nat, i: nat)
    requires
        j <= 8,
        i < 8,
    ensures
        get_bit(pack_byte(bits, k, j), i) == (i < j && bit_at(bits, 8 * k + i)),
    decreases j,
{
    if j == 0 {
        lemma_zero_bits(i as u8);
    } else {
        lemma_pack_byte(bits, k, (j - 1) as nat, i);
        if bit_at(bits, 8 * k + j - 1) {
            lemma_bit_or(pack_byte(bits, k, (j - 1) as nat), (j - 1) as u8, i as u8);
        }
    }
}

/// Unpacking a packing gives the bits back, and every bit past them is clear.
proof fn lemma_unpack_pack(bits: Seq<bool>)
    ensures
        pack(bits).len() == byte_len(bits.len()),
        forall|i: int|
            0 <= i < 8 * byte_len(bits.len()) ==> get_bit(
                #[trigger] pack(bits)[i / 8],
                (i % 8) as nat,
            ) == bit_at(bits, i),
{
    assert forall|i: int| 0 <= i < 8 * byte_len(bits.len()) implies get_bit(
        #[trigger] pack(bits)[i / 8],
        (i % 8) as nat,
    ) == bit_at(bits, i) by {
        lemma_pack_byte(bits, i / 8, 8, (i % 8) as nat);
    }
}

proof fn lemma_top_bit(b: u8, r: nat, j: nat)
    requires
        r < j <= 8,
        get_bit(b, r),
        forall|i: nat| r < i < j ==> !get_bit(b, i),
    ensures
        top_bit(b, j) == r,
    decreases j,
{
    if j - 1 > r {
        lemma_top_bit(b, r, (j - 1) as nat);
    }
}

proof fn lemma_top_bit_facts(b: u8, j: nat)
    requires
        j <= 8,
    ensures
        j >= 1 ==> top_bit(b, j) < j,
        forall|i: nat| top_bit(b, j) < i < j ==> !get_bit(b, i),
        (exists|i: nat| i < j && get_bit(b, i)) ==> get_bit(b, top_bit(b, j)),
    decreases j,
{
    if j > 0 && !get_bit(b, (j - 1) as nat) {
        lemma_top_bit_facts(b, (j - 1) as nat);
        if exists|i: nat| i < j && get_bit(b, i) {
            let i = choose|i: nat| i < j && get_bit(b, i);
            assert(i < j - 1);
        }
    }
}

/// Two bytes with the same eight bits are equal.
proof fn lemma_byte_ext(x: u8, y: u8)
    requires
        forall|i: nat| i < 8 ==> get_bit(x, i) == get_bit(y, i),
    ensures
        x == y,
{
    assert(get_bit(x, 0) == get_bit(y, 0));
    assert(get_bit(x, 1) == get_bit(y, 1));
    assert(get_bit(x, 2) == get_bit(y, 2));
    assert(get_bit(x, 3) == get_bit(y, 3));
    assert(get_bit(x, 4) == get_bit(y, 4));
    assert(get_bit(x, 5) == get_bit(y, 5));
    assert(get_bit(x, 6) == get_bit(y, 6));
    assert(get_bit(x, 7) == get_bit(y, 7));
    assert(x == y) by (bit_vector)
        requires
            ((x >> 0u8) & 1u8 == 1u8) == ((y >> 0u8) & 1u8 == 1u8),
            ((x >> 1u8) & 1u8 == 1u8) == ((y >> 1u8) & 1u8 == 1u8),
            ((x >> 2u8) & 1u8 == 1u8) == ((y >> 2u8) & 1u8 == 1u8),
            ((x >> 3u8) & 1u8 == 1u8) == ((y >> 3u8) & 1u8 == 1u8),
            ((x >> 4u8) & 1u8 == 1u8) == ((y >> 4u8) & 1u8 == 1u8),
            ((x >> 5u8) & 1u8 == 1u8) == ((y >> 5u8) & 1u8 == 1u8),
            ((x >> 6u8) & 1u8 == 1u8) == ((y >> 6u8) & 1u8 == 1u8),
            ((x >> 7u8) & 1u8 == 1u8) == ((y >> 7u8) & 1u8 == 1u8),
    ;
}

/// Packing bits read from `bytes` gives `bytes` back, when each bit of
/// `bytes` is the matching bit of `bits`.
proof fn lemma_pack_bytes(bits: Seq<bool>, bytes: Seq<u8>)
    requires
        bytes.len() == byte_len(bits.len()),
        forall|p: int|
            0 <= p < 8 * bytes.len() ==> get_bit(#[trigger] bytes[p / 8], (p % 8) as nat)
                == bit_at(bits, p),
    ensures
        pack(bits) == bytes,
{
    lemma_unpack_pack(bits);
    assert forall|k: int| 0 <= k < bytes.len() implies pack(bits)[k] == bytes[k] by {
        assert forall|i: nat| i < 8 implies get_bit(pack(bits)[k], i) == get_bit(bytes[k], i) by {
            let p = 8 * k + i;
            assert(p / 8 == k && p % 8 == i);
            assert(get_bit(bytes[p / 8], (p % 8) as nat) == bit_at(bits, p));
            assert(get_bit(pack(bits)[p / 8], (p % 8) as nat) == bit_at(bits, p));
        }
        lemma_byte_ext(pack(bits)[k], bytes[k]);
    }
    assert(pack(bits) =~= bytes);
}

/// Bit `i` of `b`.
fn bit_of(b: u8, i: u8) -> (r: bool)
    requires
        i < 8,
    ensures
        r == get_bit(b, i as nat),
{
    (b >> i) & 1u8 == 1u8
}

/// The number of bytes that `n` bits take.
fn bytes_for_bits(n: usize) -> (r: usize)
    ensures
        r == byte_len(n as nat),
{
    if n == 0 {
        1
    } else {
        n / 8 + if n % 8 == 0 {
            0
        } else {
            1
        }
    }
}

/// Appends the packing of `bits`, followed by a set bit when `marker` is true.
fn write_packed(bits: &Vec<bool>, marker: bool, buf: &mut Vec<u8>)
    requires
        marker ==> bits@.len() < usize::MAX,
    ensures
        final(buf)@ == old(buf)@ + pack(if marker { bits@.push(true) } else { bits@ }),
{
    let ghost all = if marker {
        bits@.push(true)
    } else {
        bits@
    };
    let n = bits.len();
    let q = n / 8;
    let rem = n % 8;
    let total = if marker {
        n + 1
    } else {
        n
    };
    let count = bytes_for_bits(total);
    let mut k: usize = 0;
    while k < count
        invariant
            all.len() == total,
            all == (if marker { bits@.push(true) } else { bits@ }),
            n == bits@.len(),
            q == n / 8,
            rem == n % 8,
            total == (if marker { n + 1 } else { n as int }),
            count == byte_len(total as nat),
            0 <= k <= count,
            buf@ == old(buf)@ + pack(all).take(k as int),
        decreases count - k,
    {
        let mut byte: u8 = 0;
        let mut j: usize = 0;
        while j < 8
            invariant
                all.len() == total,
                all == (if marker { bits@.push(true) } else { bits@ }),
                n == bits@.len(),
                q == n / 8,
                rem == n % 8,
                k < count,
                0 <= j <= 8,
                byte == pack_byte(all, k as int, j as nat),
            decreases 8 - j,
        {
            // Bit 8k + j of the run, found without computing a position past `n`.
            let bit = if k < q || (k == q && j < rem) {
                bits[8 * k + j]
            } else {
                marker && k == q && j == rem
            };
            assert(bit == bit_at(all, 8 * k + j));
            if bit {
                byte = byte | (1u8 << (j as u8));
            }
            j = j + 1;
        }
        buf.push(byte);
        proof {
            assert(pack(all).take(k + 1) =~= pack(all).take(k as int).push(byte));
        }
        k = k + 1;
    }
    assert(pack(all).take(count as int) =~= pack(all));
}

/// The first `n` bits of `bytes`.
fn read_bits(bytes: &[u8], n: usize) -> (r: Vec<bool>)
    requires
        n <= 8 * bytes@.len(),
    ensures
        r@ == unpack(bytes@, n as nat),
{
    let mut out: Vec<bool> = Vec::new();
    let mut i: usize = 0;
    while i < n
        invariant
            n <= 8 * bytes@.len(),
            0 <= i <= n,
            out@ =~= unpack(bytes@, i as nat),
        decreases n - i,
    {
        let b = bit_of(bytes[i / 8], (i % 8) as u8);
        out.push(b);
        i = i + 1;
    }
    out
}

/// A vector of exactly `N` bits.
#[derive(Debug, Clone, PartialEq, Eq)]
pub struct BitVector<const N: usize> {
    bits: Vec<bool>,
}

impl<const N: usize> View for BitVector<N> {
    type V = Seq<bool>;

    closed spec fn view(&self) -> Seq<bool> {
        self.bits@
    }
}

impl<const N: usize> BitVector<N> {
    /// A bit vector of `bits`; any count but `N` is an error.
    pub fn new(bits: Vec<bool>) -> (r: Result<Self, DecodeError>)
        ensures
            r is Ok <==> bits@.len() == N,
            r is Ok ==> r->Ok_0@ == bits@,
    {
        if bits.len() != N {
            Err(DecodeError::InvalidByteLength { len: bits.len(), expected: N })
        } else {
            Ok(BitVector { bits })
        }
    }

    pub fn len(&self) -> (r: usize)
        ensures
            r == self@.len(),
    {
        self.bits.len()
    }

    /// Bit `i`.
    pub fn get(&self, i: usize) -> (r: bool)
        requires
            i < self@.len(),
        ensures
            r == self@[i as int],
    {
        self.bits[i]
    }
}

/// No bit is set from bit `n` to the end of `bytes`.
pub open spec fn clear_from(bytes: Seq<u8>, n: nat) -> bool {
    forall|i: int| n <= i < 8 * bytes.len() ==> !get_bit(#[trigger] bytes[i / 8], (i % 8) as nat)
}

impl<const N: usize> SszEncode for BitVector<N> {
    open spec fn static_spec() -> bool {
        true
    }

    open spec fn fixed_len_spec() -> nat {
        byte_len(N as nat)
    }

    open spec fn max_len_spec() -> nat {
        byte_len(N as nat)
    }

    open spec fn lengths_fit() -> bool {
        true
    }

    open spec fn valid(v: Seq<bool>) -> bool {
        v.len() == N
    }

    open spec fn encoding(v: Seq<bool>) -> Seq<u8> {
        pack(v)
    }

    proof fn lemma_type_lengths() {
    }

    proof fn lemma_encoding_len(v: Seq<bool>) {
        lemma_unpack_pack(v);
    }

    fn is_ssz_static() -> (r: bool) {
        true
    }

    fn ssz_fixed_len() -> (r: usize) {
        bytes_for_bits(N)
    }

    fn ssz_max_len() -> (r: usize) {
        bytes_for_bits(N)
    }

    fn sszb_bytes_len(&self) -> (r: usize) {
        proof {
            lemma_unpack_pack(self@);
        }
        bytes_for_bits(self.bits.len())
    }

    fn ssz_write_fixed(&self, offset: &mut usize, buf: &mut Vec<u8>) {
        self.ssz_write(buf);
    }

    fn ssz_write_variable(&self, buf: &mut Vec<u8>) {
    }

    fn ssz_write(&self, buf: &mut Vec<u8>) {
        write_packed(&self.bits, false, buf);
    }
}

impl<const N: usize> SszDecode for BitVector<N> {
    /// Exactly the bytes for `N` bits, with every bit past them clear.
    open spec fn decoding(bytes: Seq<u8>) -> Option<Seq<bool>> {
        if bytes.len() == byte_len(N as nat) && clear_from(bytes, N as nat) {
            Some(unpack(bytes, N as nat))
        } else {
            None
        }
    }

    proof fn lemma_decoding(bytes: Seq<u8>) {
    }

    proof fn lemma_round_trip(v: Seq<bool>) {
        lemma_unpack_pack(v);
        assert(unpack(pack(v), N as nat) =~= v);
        assert forall|i: int| N <= i < 8 * pack(v).len() implies !get_bit(
            #[trigger] pack(v)[i / 8],
            (i % 8) as nat,
        ) by {
        }
    }

    proof fn lemma_canonical(bytes: Seq<u8>) {
        let v = unpack(bytes, N as nat);
        assert forall|p: int| 0 <= p < 8 * bytes.len() implies get_bit(
            #[trigger] bytes[p / 8],
            (p % 8) as nat,
        ) == bit_at(v, p) by {
        }
        lemma_pack_bytes(v, bytes);
    }

    fn from_ssz_bytes(bytes: &[u8]) -> (r: Result<Self, DecodeError>)
        ensures
            bytes@.len() != byte_len(N as nat) ==> r == Err::<Self, DecodeError>(
                DecodeError::InvalidByteLength {
                    len: bytes@.len() as usize,
                    expected: byte_len(N as nat) as usize,
                },
            ),
            bytes@.len() == byte_len(N as nat) && !clear_from(bytes@, N as nat) ==> r == Err::<
                Self,
                DecodeError,
            >(DecodeError::BytesInvalid(InvalidBytes::ExcessBits)),
    {
        let expected = bytes_for_bits(N);
        if bytes.len() != expected {
            return Err(DecodeError::InvalidByteLength { len: bytes.len(), expected });
        }
        // Only the last byte can hold bits past the `N`th.
        let last = bytes[expected - 1];
        let used = N - 8 * (expected - 1);
        let mut j: usize = used;
        while j < 8
            invariant
                expected == bytes@.len(),
                expected == byte_len(N as nat),
                last == bytes@[expected - 1],
                used == N - 8 * (expected - 1),
                used <= j <= 8,
                forall|m: int|
                    N <= m < 8 * (expected - 1) + j ==> !get_bit(
                        #[trigger] bytes@[m / 8],
                        (m % 8) as nat,
                    ),
            decreases 8 - j,
        {
            if bit_of(last, j as u8) {
                assert(bytes@[(8 * (expected - 1) + j) / 8] == last);
                assert(!clear_from(bytes@, N as nat));
                return Err(DecodeError::BytesInvalid(InvalidBytes::ExcessBits));
            }
            j = j + 1;
        }
        let bits = read_bits(bytes, N);
        Ok(BitVector { bits })
    }
}

/// A list of at most `N` bits.
#[derive(Debug, Clone, PartialEq, Eq)]
pub struct BitList<const N: usize> {
    bits: Vec<bool>,
}

impl<const N: usize> View for BitList<N> {
    type V = Seq<bool>;

    closed spec fn view(&self) -> Seq<bool> {
        self.bits@
    }
}

impl<const N: usize> BitList<N> {
    /// A bit list of `bits`; more than `N` of them is an error.
    pub fn new(bits: Vec<bool>) -> (r: Result<Self, DecodeError>)
        ensures
            r is Ok <==> bits@.len() <= N,
            r is Ok ==> r->Ok_0@ == bits@,
    {
        if bits.len() > N {
            Err(DecodeError::ExceedsMaxLength { len: bits.len(), max: N })
        } else {
            Ok(BitList { bits })
        }
    }

    pub fn len(&self) -> (r: usize)
        ensures
            r == self@.len(),
    {
        self.bits.len()
    }

    /// Bit `i`.
    pub fn get(&self, i: usize) -> (r: bool)
        requires
            i < self@.len(),
        ensures
            r == self@[i as int],
    {
        self.bits[i]
    }
}

/// The number of bits a bit list's encoding holds, by its marker bit.
pub open spec fn marked_len(bytes: Seq<u8>) -> nat {
    8 * (bytes.len() - 1) as nat + top_bit(bytes.last(), 8)
}

impl<const N: usize> SszEncode for BitList<N> {
    open spec fn static_spec() -> bool {
        false
    }

    open spec fn fixed_len_spec() -> nat {
        4
    }

    open spec fn max_len_spec() -> nat {
        byte_len(N as nat + 1)
    }

    /// Room for the marker bit past `N` bits.
    open spec fn lengths_fit() -> bool {
        N < usize::MAX
    }

    open spec fn valid(v: Seq<bool>) -> bool {
        v.len() <= N
    }

    open spec fn encoding(v: Seq<bool>) -> Seq<u8> {
        pack(v.push(true))
    }

    proof fn lemma_type_lengths() {
    }

    proof fn lemma_encoding_len(v: Seq<bool>) {
        lemma_unpack_pack(v.push(true));
    }

    fn is_ssz_static() -> (r: bool) {
        false
    }

    fn ssz_fixed_len() -> (r: usize) {
        BYTES_PER_LENGTH_OFFSET
    }

    fn ssz_max_len() -> (r: usize) {
        N / 8 + 1
    }

    fn sszb_bytes_len(&self) -> (r: usize) {
        proof {
            lemma_unpack_pack(self@.push(true));
        }
        self.bits.len() / 8 + 1
    }

    fn ssz_write_fixed(&self, offset: &mut usize, buf: &mut Vec<u8>) {
        write_offset(*offset, buf);
        let l = self.sszb_bytes_len();
        *offset = *offset + l;
    }

    fn ssz_write_variable(&self, buf: &mut Vec<u8>) {
        self.ssz_write(buf);
    }

    fn ssz_write(&self, buf: &mut Vec<u8>) {
        write_packed(&self.bits, true, buf);
    }
}

impl<const N: usize> SszDecode for BitList<N> {
    /// The highest set bit of the last byte marks the length; the bits below
    /// it are the list.
    open spec fn decoding(bytes: Seq<u8>) -> Option<Seq<bool>> {
        if bytes.len() == 0 || bytes.last() == 0 {
            None
        } else if marked_len(bytes) > N {
            None
        } else {
            Some(unpack(bytes, marked_len(bytes)))
        }
    }

    proof fn lemma_decoding(bytes: Seq<u8>) {
    }

    proof fn lemma_round_trip(v: Seq<bool>) {
        let all = v.push(true);
        let bytes = pack(all);
        let n = v.len();
        lemma_unpack_pack(all);
        let k = n / 8;
        assert(bytes.len() == k + 1);
        let last = bytes.last();
        assert(bytes[((8 * k + n % 8) / 8) as int] == last);
        assert(get_bit(last, n % 8)) by {
            assert(bit_at(all, (8 * k + n % 8) as int));
        }
        assert forall|i: nat| n % 8 < i < 8 implies !get_bit(last, i) by {
            assert(bytes[((8 * k + i) / 8) as int] == last);
            assert(!bit_at(all, (8 * k + i) as int));
        }
        lemma_top_bit(last, n % 8, 8);
        if last == 0 {
            lemma_zero_bits((n % 8) as u8);
        }
        assert(unpack(bytes, n) =~= v) by {
            assert forall|i: int| 0 <= i < n implies unpack(bytes, n)[i] == v[i] by {
                assert(all[i] == v[i]);
                assert(get_bit(bytes[i / 8], (i % 8) as nat) == bit_at(all, i));
            }
        }
    }

    proof fn lemma_canonical(bytes: Seq<u8>) {
        let last = bytes.last();
        let t = top_bit(last, 8);
        let n = marked_len(bytes);
        let v = unpack(bytes, n);
        let all = v.push(true);
        lemma_nonzero_has_bit(last);
        lemma_top_bit_facts(last, 8);
        let l = bytes.len();
        assert(byte_len(all.len()) == l);
        assert forall|p: int| 0 <= p < 8 * l implies get_bit(
            #[trigger] bytes[p / 8],
            (p % 8) as nat,
        ) == bit_at(all, p) by {
            if p >= n {
                assert(p / 8 == l - 1);
                assert(bytes[p / 8] == last);
            }
        }
        lemma_pack_bytes(all, bytes);
    }

    fn from_ssz_bytes(bytes: &[u8]) -> (r: Result<Self, DecodeError>)
        ensures
            bytes@.len() == 0 || bytes@.last() == 0 ==> r == Err::<Self, DecodeError>(
                DecodeError::BytesInvalid(InvalidBytes::MissingSentinel),
            ),
            bytes@.len() > N / 8 + 1 && bytes@.last() != 0 ==> r == Err::<Self, DecodeError>(
                DecodeError::InvalidByteLength {
                    len: bytes@.len() as usize,
                    expected: (N / 8 + 1) as usize,
                },
            ),
            0 < bytes@.len() <= N / 8 + 1 && bytes@.last() != 0 && marked_len(bytes@) > N ==> r
                == Err::<Self, DecodeError>(
                DecodeError::ExceedsMaxLength { len: marked_len(bytes@) as usize, max: N },
            ),
    {
        if bytes.len() == 0 {
            return Err(DecodeError::BytesInvalid(InvalidBytes::MissingSentinel));
        }
        let last = bytes[bytes.len() - 1];
        if last == 0 {
            return Err(DecodeError::BytesInvalid(InvalidBytes::MissingSentinel));
        }
        if bytes.len() > N / 8 + 1 {
            return Err(DecodeError::InvalidByteLength { len: bytes.len(), expected: N / 8 + 1 });
        }
        proof {
            lemma_nonzero_has_bit(last);
        }
        let mut t: usize = 7;
        while t > 0 && !bit_of(last, t as u8)
            invariant
                t <= 7,
                exists|i: nat| i < 8 && get_bit(last, i),
                forall|i: nat| t < i < 8 ==> !get_bit(last, i),
            decreases t,
        {
            t = t - 1;
        }
        assert(get_bit(last, t as nat));
        proof {
            lemma_top_bit(last, t as nat, 8);
        }
        let n = 8 * (bytes.len() - 1) + t;
        if n > N {
            return Err(DecodeError::ExceedsMaxLength { len: n, max: N });
        }
        let bits = read_bits(bytes, n);
        Ok(BitList { bits })
    }
}

} // verus!
