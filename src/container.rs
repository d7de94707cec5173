//! Containers: ordered, heterogeneous fields laid out as one fixed region
//! (each field's bytes, or an offset for a variable field) followed by the
//! variable fields' bytes. A pair and a triple of fields are containers.
use vstd::prelude::*;
use vstd::slice::slice_subrange;
use crate::codec::{part, shape, SszDecode, SszEncode};
use crate::error::DecodeError;
use crate::items::item_max;
use crate::layout::{
    all_fixed, header, header_len, layout, lemma_header_len, lemma_layout_push,
    lemma_split_fixed_len, lemma_split_layout, shape_of, shapes_of, slot_len, split_fields,
    split_layout, slot_bytes, tail_bytes, tails, lemma_split_canonical, zip_parts, FieldShape, Part, Shape, ShapeList, bytes_of,
};
use crate::offset::{write_offset, BYTES_PER_LENGTH_OFFSET};

verus! {

/// A field of type `T` holding `v` has the shape of its type, and takes at
/// most `item_max` bytes of its container.
pub proof fn lemma_field<T: SszEncode>(v: T::V)
    requires
        T::lengths_fit(),
        T::valid(v),
    ensures
        shape_of(part::<T>(v)) == shape::<T>(),
        slot_len(shape::<T>()) == T::fixed_len_spec(),
        slot_len(shape::<T>()) + tail_bytes(part::<T>(v)).len() <= item_max::<T>(),
        T::static_spec() ==> tail_bytes(part::<T>(v)).len() == 0,
{
    T::lemma_type_lengths();
    T::lemma_encoding_len(v);
}

/// The exec form of a field's shape.
pub fn field_shape<T: SszEncode>() -> (r: FieldShape)
    requires
        T::lengths_fit(),
    ensures
        r@ == shape::<T>(),
{
    FieldShape { is_static: T::is_ssz_static(), fixed_len: T::ssz_fixed_len() }
}

proof fn lemma_header_len_two(s0: Shape, s1: Shape)
    ensures
        header_len(seq![s0, s1]) == slot_len(s0) + slot_len(s1),
{
    let ss = seq![s0, s1];
    assert(ss.drop_first() =~= seq![s1]);
    assert(seq![s1].drop_first() =~= Seq::<Shape>::empty());
    assert(header_len(seq![s1]) == slot_len(s1) + header_len(Seq::<Shape>::empty()));
}

/// The parts of a pair's fields.
pub open spec fn pair_parts<A: SszEncode, B: SszEncode>(v: (A::V, B::V)) -> Seq<Part> {
    seq![part::<A>(v.0), part::<B>(v.1)]
}

pub open spec fn pair_shapes<A: SszEncode, B: SszEncode>() -> Seq<Shape> {
    seq![shape::<A>(), shape::<B>()]
}

proof fn lemma_pair_layout<A: SszEncode, B: SszEncode>(v: (A::V, B::V), pos: nat)
    requires
        A::lengths_fit(),
        B::lengths_fit(),
        A::valid(v.0),
        B::valid(v.1),
    ensures
        shapes_of(pair_parts::<A, B>(v)) == pair_shapes::<A, B>(),
        header_len(pair_shapes::<A, B>()) == A::fixed_len_spec() + B::fixed_len_spec(),
        header(pair_parts::<A, B>(v), pos) == header(seq![part::<A>(v.0)], pos) + header(
            seq![part::<B>(v.1)],
            pos + tail_bytes(part::<A>(v.0)).len(),
        ),
        tails(pair_parts::<A, B>(v)) == tail_bytes(part::<A>(v.0)) + tail_bytes(part::<B>(v.1)),
        layout(pair_parts::<A, B>(v)).len() <= item_max::<A>() + item_max::<B>(),
        A::static_spec() && B::static_spec() ==> layout(pair_parts::<A, B>(v)).len()
            == A::fixed_len_spec() + B::fixed_len_spec(),
        A::static_spec() && B::static_spec() <==> all_fixed(pair_shapes::<A, B>()),
{
    let pa = part::<A>(v.0);
    let pb = part::<B>(v.1);
    let e = Seq::<Part>::empty();
    lemma_field::<A>(v.0);
    lemma_field::<B>(v.1);
    assert(seq![pa] =~= e.push(pa));
    assert(pair_parts::<A, B>(v) =~= seq![pa].push(pb));
    lemma_layout_push(e, pa, pos);
    lemma_layout_push(seq![pa], pb, pos);
    lemma_layout_push(e, pb, pos + tail_bytes(pa).len());
    assert(shapes_of(e).len() == 0);
    assert(header(e, pos) =~= Seq::<u8>::empty());
    assert(header(e, pos + tail_bytes(pa).len()) =~= Seq::<u8>::empty());
    assert(tails(e) =~= Seq::<u8>::empty());
    assert(shapes_of(pair_parts::<A, B>(v)) =~= pair_shapes::<A, B>());
    let hl = header_len(shapes_of(pair_parts::<A, B>(v)));
    lemma_header_len(pair_parts::<A, B>(v), hl);
    if A::static_spec() && B::static_spec() {
        assert(all_fixed(pair_shapes::<A, B>())) by {
            assert forall|i: int| 0 <= i < 2 implies (#[trigger] pair_shapes::<A, B>()[i]).fixed by {
            }
        }
    }
    if !A::static_spec() {
        assert(!pair_shapes::<A, B>()[0].fixed);
    }
    if !B::static_spec() {
        assert(!pair_shapes::<A, B>()[1].fixed);
    }
}

impl<A: SszEncode, B: SszEncode> SszEncode for (A, B) {
    open spec fn static_spec() -> bool {
        A::static_spec() && B::static_spec()
    }

    open spec fn fixed_len_spec() -> nat {
        if A::static_spec() && B::static_spec() {
            A::fixed_len_spec() + B::fixed_len_spec()
        } else {
            4
        }
    }

    open spec fn max_len_spec() -> nat {
        item_max::<A>() + item_max::<B>()
    }

    open spec fn lengths_fit() -> bool {
        A::lengths_fit() && B::lengths_fit() && item_max::<A>() + item_max::<B>() <= usize::MAX
    }

    open spec fn valid(v: (A::V, B::V)) -> bool {
        A::valid(v.0) && B::valid(v.1)
    }

    open spec fn encoding(v: (A::V, B::V)) -> Seq<u8> {
        layout(pair_parts::<A, B>(v))
    }

    proof fn lemma_type_lengths() {
        A::lemma_type_lengths();
        B::lemma_type_lengths();
    }

    proof fn lemma_encoding_len(v: (A::V, B::V)) {
        lemma_pair_layout::<A, B>(v, 0);
    }

    fn is_ssz_static() -> (r: bool) {
        A::is_ssz_static() && B::is_ssz_static()
    }

    fn ssz_fixed_len() -> (r: usize) {
        proof {
            A::lemma_type_lengths();
            B::lemma_type_lengths();
        }
        if A::is_ssz_static() && B::is_ssz_static() {
            A::ssz_fixed_len() + B::ssz_fixed_len()
        } else {
            BYTES_PER_LENGTH_OFFSET
        }
    }

    fn ssz_max_len() -> (r: usize) {
        proof {
            A::lemma_type_lengths();
            B::lemma_type_lengths();
        }
        let a = if A::is_ssz_static() {
            A::ssz_fixed_len()
        } else {
            BYTES_PER_LENGTH_OFFSET + A::ssz_max_len()
        };
        let b = if B::is_ssz_static() {
            B::ssz_fixed_len()
        } else {
            BYTES_PER_LENGTH_OFFSET + B::ssz_max_len()
        };
        a + b
    }

    fn sszb_bytes_len(&self) -> (r: usize) {
        proof {
            lemma_pair_layout::<A, B>(self@, 0);
            lemma_field::<A>(self@.0);
            lemma_field::<B>(self@.1);
            lemma_header_len(pair_parts::<A, B>(self@), header_len(pair_shapes::<A, B>()));
        }
        let a = if A::is_ssz_static() {
            A::ssz_fixed_len()
        } else {
            BYTES_PER_LENGTH_OFFSET + self.0.sszb_bytes_len()
        };
        let b = if B::is_ssz_static() {
            B::ssz_fixed_len()
        } else {
            BYTES_PER_LENGTH_OFFSET + self.1.sszb_bytes_len()
        };
        a + b
    }

    fn ssz_write_fixed(&self, offset: &mut usize, buf: &mut Vec<u8>) {
        if A::is_ssz_static() && B::is_ssz_static() {
            self.ssz_write(buf);
        } else {
            write_offset(*offset, buf);
            let l = self.sszb_bytes_len();
            *offset = *offset + l;
        }
    }

    fn ssz_write_variable(&self, buf: &mut Vec<u8>) {
        if !(A::is_ssz_static() && B::is_ssz_static()) {
            self.ssz_write(buf);
        }
    }

    fn ssz_write(&self, buf: &mut Vec<u8>) {
        let ghost v = self@;
        let ghost pa = part::<A>(v.0);
        let ghost pb = part::<B>(v.1);
        proof {
            lemma_pair_layout::<A, B>(v, header_len(pair_shapes::<A, B>()));
            lemma_field::<A>(v.0);
            lemma_field::<B>(v.1);
            lemma_header_len(pair_parts::<A, B>(v), header_len(pair_shapes::<A, B>()));
            lemma_header_len(seq![pa], header_len(pair_shapes::<A, B>()));
            A::lemma_type_lengths();
            B::lemma_type_lengths();
        }
        let mut offset: usize = A::ssz_fixed_len() + B::ssz_fixed_len();
        let ghost hl = offset as nat;
        self.0.ssz_write_fixed(&mut offset, buf);
        self.1.ssz_write_fixed(&mut offset, buf);
        self.0.ssz_write_variable(buf);
        self.1.ssz_write_variable(buf);
        proof {
            lemma_layout_push(Seq::<Part>::empty(), pa, hl);
            lemma_layout_push(Seq::<Part>::empty(), pb, hl + tail_bytes(pa).len());
            assert(Seq::<Part>::empty().push(pa) =~= seq![pa]);
            assert(Seq::<Part>::empty().push(pb) =~= seq![pb]);
            assert(header(Seq::<Part>::empty(), hl) =~= Seq::<u8>::empty());
            assert(header(Seq::<Part>::empty(), hl + tail_bytes(pa).len()) =~= Seq::<u8>::empty());
            assert(buf@ =~= old(buf)@ + layout(pair_parts::<A, B>(v)));
        }
    }
}

impl<A: SszDecode, B: SszDecode> SszDecode for (A, B) {
    /// Split by the fields' shapes, then each field decoded from its bytes.
    open spec fn decoding(bytes: Seq<u8>) -> Option<(A::V, B::V)> {
        match split_layout(pair_shapes::<A, B>(), bytes) {
            Some(cs) => match (A::decoding(cs[0]), B::decoding(cs[1])) {
                (Some(a), Some(b)) => Some((a, b)),
                _ => None,
            },
            None => None,
        }
    }

    proof fn lemma_decoding(bytes: Seq<u8>) {
        let ss = pair_shapes::<A, B>();
        let cs = split_layout(ss, bytes)->0;
        A::lemma_decoding(cs[0]);
        B::lemma_decoding(cs[1]);
        A::lemma_type_lengths();
        B::lemma_type_lengths();
        if A::static_spec() && B::static_spec() {
            assert(all_fixed(ss)) by {
                assert forall|i: int| 0 <= i < 2 implies (#[trigger] ss[i]).fixed by {
                }
            }
            lemma_split_fixed_len(ss, bytes, 0, header_len(ss));
            lemma_header_len_two(shape::<A>(), shape::<B>());
        }
    }

    proof fn lemma_round_trip(v: (A::V, B::V)) {
        let ps = pair_parts::<A, B>(v);
        lemma_pair_layout::<A, B>(v, 0);
        lemma_field::<A>(v.0);
        lemma_field::<B>(v.1);
        lemma_split_layout(ps);
        lemma_header_len(ps, header_len(shapes_of(ps)));
        lemma_header_len(seq![part::<A>(v.0)], header_len(shapes_of(ps)));
        A::lemma_round_trip(v.0);
        B::lemma_round_trip(v.1);
        assert(bytes_of(ps)[0] == A::encoding(v.0));
        assert(bytes_of(ps)[1] == B::encoding(v.1));
    }

    proof fn lemma_canonical(bytes: Seq<u8>) {
        A::lemma_type_lengths();
        B::lemma_type_lengths();
        let ss = pair_shapes::<A, B>();
        lemma_split_canonical(ss, bytes);
        let cs = split_layout(ss, bytes)->0;
        A::lemma_canonical(cs[0]);
        B::lemma_canonical(cs[1]);
        assert(pair_parts::<A, B>(Self::decoding(bytes)->0) =~= zip_parts(ss, cs));
    }

    fn from_ssz_bytes(bytes: &[u8]) -> (r: Result<(A, B), DecodeError>)
        ensures
            bytes@.len() < A::fixed_len_spec() + B::fixed_len_spec() ==> r == Err::<
                (A, B),
                DecodeError,
            >(
                DecodeError::InvalidByteLength {
                    len: bytes@.len() as usize,
                    expected: (A::fixed_len_spec() + B::fixed_len_spec()) as usize,
                },
            ),
    {
        proof {
            A::lemma_type_lengths();
            B::lemma_type_lengths();
        }
        let shapes: Vec<FieldShape> = vec![field_shape::<A>(), field_shape::<B>()];
        assert(shapes.shapes() =~= pair_shapes::<A, B>());
        proof {
            lemma_header_len_two(shape::<A>(), shape::<B>());
        }
        let ranges = match split_fields(&shapes, bytes) {
            Ok(rs) => rs,
            Err(e) => {
                return Err(e);
            },
        };
        let a = match A::from_ssz_bytes(slice_subrange(bytes, ranges[0].0, ranges[0].1)) {
            Ok(a) => a,
            Err(e) => {
                return Err(e);
            },
        };
        let b = match B::from_ssz_bytes(slice_subrange(bytes, ranges[1].0, ranges[1].1)) {
            Ok(b) => b,
            Err(e) => {
                return Err(e);
            },
        };
        Ok((a, b))
    }
}

proof fn lemma_header_len_three(s0: Shape, s1: Shape, s2: Shape)
    ensures
        header_len(seq![s0, s1, s2]) == slot_len(s0) + slot_len(s1) + slot_len(s2),
{
    assert(seq![s0, s1, s2].drop_first() =~= seq![s1, s2]);
    lemma_header_len_two(s1, s2);
}

/// The parts of a triple's fields.
pub open spec fn triple_parts<A: SszEncode, B: SszEncode, C: SszEncode>(
    v: (A::V, B::V, C::V),
) -> Seq<Part> {
    seq![part::<A>(v.0), part::<B>(v.1), part::<C>(v.2)]
}

pub open spec fn triple_shapes<A: SszEncode, B: SszEncode, C: SszEncode>() -> Seq<Shape> {
    seq![shape::<A>(), shape::<B>(), shape::<C>()]
}

proof fn lemma_triple_layout<A: SszEncode, B: SszEncode, C: SszEncode>(
    v: (A::V, B::V, C::V),
    pos: nat,
)
    requires
        A::lengths_fit(),
        B::lengths_fit(),
        C::lengths_fit(),
        A::valid(v.0),
        B::valid(v.1),
        C::valid(v.2),
    ensures
        shapes_of(triple_parts::<A, B, C>(v)) == triple_shapes::<A, B, C>(),
        header_len(triple_shapes::<A, B, C>()) == A::fixed_len_spec() + B::fixed_len_spec()
            + C::fixed_len_spec(),
        header(triple_parts::<A, B, C>(v), pos) == slot_bytes(part::<A>(v.0), pos) + slot_bytes(
            part::<B>(v.1),
            pos + tail_bytes(part::<A>(v.0)).len(),
        ) + slot_bytes(
            part::<C>(v.2),
            pos + tail_bytes(part::<A>(v.0)).len() + tail_bytes(part::<B>(v.1)).len(),
        ),
        tails(triple_parts::<A, B, C>(v)) == tail_bytes(part::<A>(v.0)) + tail_bytes(
            part::<B>(v.1),
        ) + tail_bytes(part::<C>(v.2)),
        layout(triple_parts::<A, B, C>(v)).len() == header_len(triple_shapes::<A, B, C>()) + tails(
            triple_parts::<A, B, C>(v),
        ).len(),
        layout(triple_parts::<A, B, C>(v)).len() <= item_max::<A>() + item_max::<B>()
            + item_max::<C>(),
        A::static_spec() && B::static_spec() && C::static_spec() <==> all_fixed(
            triple_shapes::<A, B, C>(),
        ),
{
    let pa = part::<A>(v.0);
    let pb = part::<B>(v.1);
    let pc = part::<C>(v.2);
    let e = Seq::<Part>::empty();
    lemma_field::<A>(v.0);
    lemma_field::<B>(v.1);
    lemma_field::<C>(v.2);
    assert(seq![pa] =~= e.push(pa));
    assert(seq![pa, pb] =~= seq![pa].push(pb));
    assert(triple_parts::<A, B, C>(v) =~= seq![pa, pb].push(pc));
    lemma_layout_push(e, pa, pos);
    lemma_layout_push(seq![pa], pb, pos);
    lemma_layout_push(seq![pa, pb], pc, pos);
    assert(shapes_of(e).len() == 0);
    assert(header(e, pos) =~= Seq::<u8>::empty());
    assert(tails(e) =~= Seq::<u8>::empty());
    assert(shapes_of(triple_parts::<A, B, C>(v)) =~= triple_shapes::<A, B, C>());
    lemma_header_len_three(shape::<A>(), shape::<B>(), shape::<C>());
    let hl = header_len(shapes_of(triple_parts::<A, B, C>(v)));
    lemma_header_len(triple_parts::<A, B, C>(v), hl);
    let ss = triple_shapes::<A, B, C>();
    if A::static_spec() && B::static_spec() && C::static_spec() {
        assert(all_fixed(ss)) by {
            assert forall|i: int| 0 <= i < 3 implies (#[trigger] ss[i]).fixed by {
            }
        }
    }
    if !A::static_spec() {
        assert(!ss[0].fixed);
    }
    if !B::static_spec() {
        assert(!ss[1].fixed);
    }
    if !C::static_spec() {
        assert(!ss[2].fixed);
    }
    assert(header(triple_parts::<A, B, C>(v), pos) =~= slot_bytes(pa, pos) + slot_bytes(
        pb,
        pos + tail_bytes(pa).len(),
    ) + slot_bytes(pc, pos + tail_bytes(pa).len() + tail_bytes(pb).len()));
    assert(tails(triple_parts::<A, B, C>(v)) =~= tail_bytes(pa) + tail_bytes(pb) + tail_bytes(pc));
}

impl<A: SszEncode, B: SszEncode, C: SszEncode> SszEncode for (A, B, C) {
    open spec fn static_spec() -> bool {
        A::static_spec() && B::static_spec() && C::static_spec()
    }

    open spec fn fixed_len_spec() -> nat {
        if A::static_spec() && B::static_spec() && C::static_spec() {
            A::fixed_len_spec() + B::fixed_len_spec() + C::fixed_len_spec()
        } else {
            4
        }
    }

    open spec fn max_len_spec() -> nat {
        item_max::<A>() + item_max::<B>() + item_max::<C>()
    }

    open spec fn lengths_fit() -> bool {
        &&& A::lengths_fit()
        &&& B::lengths_fit()
        &&& C::lengths_fit()
        &&& item_max::<A>() + item_max::<B>() + item_max::<C>() <= usize::MAX
    }

    open spec fn valid(v: (A::V, B::V, C::V)) -> bool {
        A::valid(v.0) && B::valid(v.1) && C::valid(v.2)
    }

    open spec fn encoding(v: (A::V, B::V, C::V)) -> Seq<u8> {
        layout(triple_parts::<A, B, C>(v))
    }

    proof fn lemma_type_lengths() {
        A::lemma_type_lengths();
        B::lemma_type_lengths();
        C::lemma_type_lengths();
    }

    proof fn lemma_encoding_len(v: (A::V, B::V, C::V)) {
        lemma_triple_layout::<A, B, C>(v, 0);
    }

    fn is_ssz_static() -> (r: bool) {
        A::is_ssz_static() && B::is_ssz_static() && C::is_ssz_static()
    }

    fn ssz_fixed_len() -> (r: usize) {
        proof {
            Self::lemma_type_lengths();
        }
        if A::is_ssz_static() && B::is_ssz_static() && C::is_ssz_static() {
            A::ssz_fixed_len() + B::ssz_fixed_len() + C::ssz_fixed_len()
        } else {
            BYTES_PER_LENGTH_OFFSET
        }
    }

    fn ssz_max_len() -> (r: usize) {
        proof {
            Self::lemma_type_lengths();
        }
        let a = if A::is_ssz_static() {
            A::ssz_fixed_len()
        } else {
            BYTES_PER_LENGTH_OFFSET + A::ssz_max_len()
        };
        let b = if B::is_ssz_static() {
            B::ssz_fixed_len()
        } else {
            BYTES_PER_LENGTH_OFFSET + B::ssz_max_len()
        };
        let c = if C::is_ssz_static() {
            C::ssz_fixed_len()
        } else {
            BYTES_PER_LENGTH_OFFSET + C::ssz_max_len()
        };
        a + b + c
    }

    fn sszb_bytes_len(&self) -> (r: usize) {
        proof {
            lemma_triple_layout::<A, B, C>(self@, 0);
            Self::lemma_type_lengths();
        }
        let a = if A::is_ssz_static() {
            A::ssz_fixed_len()
        } else {
            BYTES_PER_LENGTH_OFFSET + self.0.sszb_bytes_len()
        };
        let b = if B::is_ssz_static() {
            B::ssz_fixed_len()
        } else {
            BYTES_PER_LENGTH_OFFSET + self.1.sszb_bytes_len()
        };
        let c = if C::is_ssz_static() {
            C::ssz_fixed_len()
        } else {
            BYTES_PER_LENGTH_OFFSET + self.2.sszb_bytes_len()
        };
        a + b + c
    }

    fn ssz_write_fixed(&self, offset: &mut usize, buf: &mut Vec<u8>) {
        if A::is_ssz_static() && B::is_ssz_static() && C::is_ssz_static() {
            self.ssz_write(buf);
        } else {
            write_offset(*offset, buf);
            let l = self.sszb_bytes_len();
            *offset = *offset + l;
        }
    }

    fn ssz_write_variable(&self, buf: &mut Vec<u8>) {
        if !(A::is_ssz_static() && B::is_ssz_static() && C::is_ssz_static()) {
            self.ssz_write(buf);
        }
    }

    #[verifier::rlimit(40)]
    fn ssz_write(&self, buf: &mut Vec<u8>) {
        let ghost v = self@;
        proof {
            lemma_triple_layout::<A, B, C>(v, header_len(triple_shapes::<A, B, C>()));
            lemma_field::<A>(v.0);
            lemma_field::<B>(v.1);
            lemma_field::<C>(v.2);
            A::lemma_type_lengths();
            B::lemma_type_lengths();
            C::lemma_type_lengths();
        }
        let mut offset: usize = A::ssz_fixed_len() + B::ssz_fixed_len() + C::ssz_fixed_len();
        let ghost hl = offset as nat;
        let ghost pa = part::<A>(v.0);
        let ghost pb = part::<B>(v.1);
        let ghost pc = part::<C>(v.2);
        let ghost ta = tail_bytes(pa).len();
        let ghost tb = tail_bytes(pb).len();
        self.0.ssz_write_fixed(&mut offset, buf);
        assert(buf@ == old(buf)@ + slot_bytes(pa, hl) && offset == hl + ta);
        self.1.ssz_write_fixed(&mut offset, buf);
        assert(buf@ == old(buf)@ + slot_bytes(pa, hl) + slot_bytes(pb, hl + ta) && offset == hl
            + ta + tb);
        self.2.ssz_write_fixed(&mut offset, buf);
        let ghost mid = buf@;
        assert(mid == old(buf)@ + header(triple_parts::<A, B, C>(v), hl));
        self.0.ssz_write_variable(buf);
        self.1.ssz_write_variable(buf);
        self.2.ssz_write_variable(buf);
        proof {
            assert(buf@ =~= mid + tails(triple_parts::<A, B, C>(v)));
        }
    }
}

impl<A: SszDecode, B: SszDecode, C: SszDecode> SszDecode for (A, B, C) {
    /// Split by the fields' shapes, then each field decoded from its bytes.
    open spec fn decoding(bytes: Seq<u8>) -> Option<(A::V, B::V, C::V)> {
        match split_layout(triple_shapes::<A, B, C>(), bytes) {
            Some(cs) => match (A::decoding(cs[0]), B::decoding(cs[1]), C::decoding(cs[2])) {
                (Some(a), Some(b), Some(c)) => Some((a, b, c)),
                _ => None,
            },
            None => None,
        }
    }

    proof fn lemma_decoding(bytes: Seq<u8>) {
        let ss = triple_shapes::<A, B, C>();
        let cs = split_layout(ss, bytes)->0;
        A::lemma_decoding(cs[0]);
        B::lemma_decoding(cs[1]);
        C::lemma_decoding(cs[2]);
        Self::lemma_type_lengths();
        if A::static_spec() && B::static_spec() && C::static_spec() {
            assert(all_fixed(ss)) by {
                assert forall|i: int| 0 <= i < 3 implies (#[trigger] ss[i]).fixed by {
                }
            }
            lemma_split_fixed_len(ss, bytes, 0, header_len(ss));
            lemma_header_len_three(shape::<A>(), shape::<B>(), shape::<C>());
        }
    }

    proof fn lemma_round_trip(v: (A::V, B::V, C::V)) {
        let ps = triple_parts::<A, B, C>(v);
        lemma_triple_layout::<A, B, C>(v, 0);
        lemma_field::<A>(v.0);
        lemma_field::<B>(v.1);
        lemma_field::<C>(v.2);
        lemma_split_layout(ps);
        A::lemma_round_trip(v.0);
        B::lemma_round_trip(v.1);
        C::lemma_round_trip(v.2);
        assert(bytes_of(ps)[0] == A::encoding(v.0));
        assert(bytes_of(ps)[1] == B::encoding(v.1));
        assert(bytes_of(ps)[2] == C::encoding(v.2));
    }

    proof fn lemma_canonical(bytes: Seq<u8>) {
        A::lemma_type_lengths();
        B::lemma_type_lengths();
        C::lemma_type_lengths();
        let ss = triple_shapes::<A, B, C>();
        lemma_split_canonical(ss, bytes);
        let cs = split_layout(ss, bytes)->0;
        A::lemma_canonical(cs[0]);
        B::lemma_canonical(cs[1]);
        C::lemma_canonical(cs[2]);
        assert(triple_parts::<A, B, C>(Self::decoding(bytes)->0) =~= zip_parts(ss, cs));
    }

    fn from_ssz_bytes(bytes: &[u8]) -> (r: Result<(A, B, C), DecodeError>)
        ensures
            bytes@.len() < A::fixed_len_spec() + B::fixed_len_spec() + C::fixed_len_spec() ==> r
                == Err::<(A, B, C), DecodeError>(
                DecodeError::InvalidByteLength {
                    len: bytes@.len() as usize,
                    expected: (A::fixed_len_spec() + B::fixed_len_spec() + C::fixed_len_spec()) as usize,
                },
            ),
    {
        proof {
            A::lemma_type_lengths();
            B::lemma_type_lengths();
            C::lemma_type_lengths();
            lemma_header_len_three(shape::<A>(), shape::<B>(), shape::<C>());
        }
        let shapes: Vec<FieldShape> = vec![field_shape::<A>(), field_shape::<B>(), field_shape::<C>()];
        assert(shapes.shapes() =~= triple_shapes::<A, B, C>());
        let ranges = match split_fields(&shapes, bytes) {
            Ok(rs) => rs,
            Err(e) => {
                return Err(e);
            },
        };
        let a = match A::from_ssz_bytes(slice_subrange(bytes, ranges[0].0, ranges[0].1)) {
            Ok(a) => a,
            Err(e) => {
                return Err(e);
            },
        };
        let b = match B::from_ssz_bytes(slice_subrange(bytes, ranges[1].0, ranges[1].1)) {
            Ok(b) => b,
            Err(e) => {
                return Err(e);
            },
        };
        let c = match C::from_ssz_bytes(slice_subrange(bytes, ranges[2].0, ranges[2].1)) {
            Ok(c) => c,
            Err(e) => {
                return Err(e);
            },
        };
        Ok((a, b, c))
    }
}

} // verus!
