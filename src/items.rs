//! Homogeneous runs of items: their layout as parts, and the reads and writes
//! that every sequence type shares.
use vstd::prelude::*;
use vstd::slice::slice_subrange;
use crate::codec::{part, shape, SszDecode, SszEncode};
use crate::error::DecodeError;
use crate::layout::{
    all_fixed, header, header_len, lemma_split_canonical, zip_parts, lemma_split_len, lemma_header_len, lemma_layout_append, lemma_layout_push, lemma_layout_single,
    lemma_split_layout, lemma_uniform_header_len, layout, ranges_view, ranges_within, shapes_of,
    slot_len, split_fields, split_layout, tails, uniform_shapes, bytes_of, FieldShape, Part, ShapeList,
    Uniform,
};
use crate::offset::max_offset;

verus! {

/// The views of a run of values.
pub open spec fn views<T: View>(s: Seq<T>) -> Seq<T::V> {
    s.map_values(|t: T| t@)
}

/// The parts that items `vs` contribute to their sequence's layout.
pub open spec fn parts_of<T: SszEncode>(vs: Seq<T::V>) -> Seq<Part> {
    vs.map_values(|v: T::V| part::<T>(v))
}

/// Every item is within capacity.
pub open spec fn all_valid<T: SszEncode>(vs: Seq<T::V>) -> bool {
    forall|i: int| 0 <= i < vs.len() ==> T::valid(#[trigger] vs[i])
}

/// The encoding of a run of items: static items back to back; variable items
/// after a table of offsets counted from the run's start.
pub open spec fn items_encoding<T: SszEncode>(vs: Seq<T::V>) -> Seq<u8> {
    layout(parts_of::<T>(vs))
}

/// The values that byte runs `cs` decode to, when every one decodes.
pub open spec fn decode_each<T: SszDecode>(cs: Option<Seq<Seq<u8>>>) -> Option<Seq<T::V>> {
    match cs {
        Some(c) => if forall|i: int| 0 <= i < c.len() ==> (#[trigger] T::decoding(c[i])) is Some {
            Some(c.map_values(|b: Seq<u8>| T::decoding(b)->0))
        } else {
            None
        },
        None => None,
    }
}

/// The items that `n` fields of type `T` in `bytes` decode to.
pub open spec fn items_decoding<T: SszDecode>(n: nat, bytes: Seq<u8>) -> Option<Seq<T::V>> {
    decode_each::<T>(split_layout(uniform_shapes(shape::<T>(), n), bytes))
}

/// How many bytes one item takes at most, offset included.
pub open spec fn item_max<T: SszEncode>() -> nat {
    if T::static_spec() {
        T::fixed_len_spec()
    } else {
        4 + T::max_len_spec()
    }
}

pub proof fn lemma_parts_shapes<T: SszEncode>(vs: Seq<T::V>)
    requires
        T::lengths_fit(),
        all_valid::<T>(vs),
    ensures
        shapes_of(parts_of::<T>(vs)) == uniform_shapes(shape::<T>(), vs.len()),
        header_len(shapes_of(parts_of::<T>(vs))) == vs.len() * slot_len(shape::<T>()),
{
    T::lemma_type_lengths();
    assert forall|i: int| 0 <= i < vs.len() implies shapes_of(parts_of::<T>(vs))[i] == shape::<T>() by {
        T::lemma_encoding_len(vs[i]);
    }
    assert(shapes_of(parts_of::<T>(vs)) =~= uniform_shapes(shape::<T>(), vs.len()));
    lemma_uniform_header_len(shape::<T>(), vs.len());
}

/// The encoding of a run of items is at most `item_max` per item, and exactly
/// that for static items, whose run has no tail.
pub proof fn lemma_items_len<T: SszEncode>(vs: Seq<T::V>)
    requires
        T::lengths_fit(),
        all_valid::<T>(vs),
    ensures
        items_encoding::<T>(vs).len() == header_len(shapes_of(parts_of::<T>(vs))) + tails(
            parts_of::<T>(vs),
        ).len(),
        items_encoding::<T>(vs).len() <= vs.len() * item_max::<T>(),
        T::static_spec() ==> items_encoding::<T>(vs).len() == vs.len() * T::fixed_len_spec(),
        T::static_spec() ==> tails(parts_of::<T>(vs)).len() == 0,
    decreases vs.len(),
{
    let ps = parts_of::<T>(vs);
    lemma_header_len(ps, header_len(shapes_of(ps)));
    T::lemma_type_lengths();
    if vs.len() > 0 {
        let init = vs.drop_last();
        let v = vs.last();
        assert(all_valid::<T>(init)) by {
            assert forall|i: int| 0 <= i < init.len() implies T::valid(#[trigger] init[i]) by {
                assert(init[i] == vs[i]);
            }
        }
        lemma_items_len::<T>(init);
        assert(ps =~= parts_of::<T>(init).push(part::<T>(v)));
        lemma_layout_push(parts_of::<T>(init), part::<T>(v), 0);
        lemma_header_len(parts_of::<T>(init), header_len(shapes_of(parts_of::<T>(init))));
        T::lemma_encoding_len(v);
        let m = item_max::<T>();
        let k = init.len();
        assert(vs.len() * m == k * m + m) by (nonlinear_arith)
            requires
                vs.len() == k + 1,
        ;
        assert(vs.len() * T::fixed_len_spec() == k * T::fixed_len_spec() + T::fixed_len_spec())
            by (nonlinear_arith)
            requires
                vs.len() == k + 1,
        ;
    } else {
        assert(ps.len() == 0);
        assert(shapes_of(ps).len() == 0);
    }
}

/// Each item's encoding is no longer than the run's.
pub proof fn lemma_item_within<T: SszEncode>(vs: Seq<T::V>, i: int)
    requires
        0 <= i < vs.len(),
    ensures
        !T::static_spec() ==> T::encoding(vs[i]).len() <= items_encoding::<T>(vs).len(),
{
    let ps = parts_of::<T>(vs);
    let a = ps.take(i);
    let c = ps.skip(i + 1);
    assert(ps =~= a + (seq![ps[i]] + c));
    lemma_layout_append(a, seq![ps[i]] + c, 0);
    lemma_layout_append(seq![ps[i]], c, 0);
    lemma_layout_single(ps[i], 0);
    lemma_header_len(ps, header_len(shapes_of(ps)));
}

/// Decoding the encoding of a run of items gives the items back.
pub proof fn lemma_items_round_trip<T: SszDecode>(vs: Seq<T::V>)
    requires
        T::lengths_fit(),
        all_valid::<T>(vs),
        !T::static_spec() ==> items_encoding::<T>(vs).len() <= max_offset(),
    ensures
        items_decoding::<T>(vs.len(), items_encoding::<T>(vs)) == Some(vs),
{
    let ps = parts_of::<T>(vs);
    lemma_parts_shapes::<T>(vs);
    if !T::static_spec() && vs.len() > 0 {
        assert(!shapes_of(ps)[0].fixed);
    }
    if T::static_spec() {
        assert(all_fixed(shapes_of(ps)));
    }
    lemma_split_layout(ps);
    let cs = bytes_of(ps);
    assert forall|i: int| 0 <= i < cs.len() implies T::decoding(#[trigger] cs[i]) == Some(vs[i]) by {
        lemma_item_within::<T>(vs, i);
        T::lemma_round_trip(vs[i]);
    }
    assert(cs.map_values(|b: Seq<u8>| T::decoding(b)->0) =~= vs);
}

/// Decoded items are within capacity, one for each field.
pub proof fn lemma_items_decoded_valid<T: SszDecode>(n: nat, bytes: Seq<u8>)
    requires
        T::lengths_fit(),
        items_decoding::<T>(n, bytes) is Some,
    ensures
        all_valid::<T>(items_decoding::<T>(n, bytes)->0),
        items_decoding::<T>(n, bytes)->0.len() == n,
{
    let ss = uniform_shapes(shape::<T>(), n);
    let cs = split_layout(ss, bytes)->0;
    lemma_split_len(ss, bytes, 0, header_len(ss));
    assert forall|i: int| 0 <= i < cs.len() implies T::valid(
        #[trigger] items_decoding::<T>(n, bytes)->0[i],
    ) by {
        T::lemma_decoding(cs[i]);
    }
}

/// The bytes that decode to a run of items are the run's encoding.
pub proof fn lemma_items_canonical<T: SszDecode>(n: nat, bytes: Seq<u8>)
    requires
        T::lengths_fit(),
        items_decoding::<T>(n, bytes) is Some,
    ensures
        items_encoding::<T>(items_decoding::<T>(n, bytes)->0) == bytes,
{
    T::lemma_type_lengths();
    let ss = uniform_shapes(shape::<T>(), n);
    lemma_split_canonical(ss, bytes);
    let cs = split_layout(ss, bytes)->0;
    let vs = items_decoding::<T>(n, bytes)->0;
    assert forall|i: int| 0 <= i < cs.len() implies T::encoding(#[trigger] vs[i]) == cs[i] by {
        T::lemma_canonical(cs[i]);
    }
    assert(parts_of::<T>(vs) =~= zip_parts(ss, cs));
}

/// The encoded length of a run of items.
pub fn items_bytes_len<T: SszEncode>(items: &Vec<T>) -> (r: usize)
    requires
        T::lengths_fit(),
        all_valid::<T>(views(items@)),
        items_encoding::<T>(views(items@)).len() <= usize::MAX,
    ensures
        r == items_encoding::<T>(views(items@)).len(),
{
    let ghost vs = views(items@);
    proof {
        lemma_items_len::<T>(vs);
        T::lemma_type_lengths();
    }
    if T::is_ssz_static() {
        let fl = T::ssz_fixed_len();
        assert(vs.len() == items@.len());
        items.len() * fl
    } else {
        proof {
            lemma_parts_shapes::<T>(vs);
        }
        let mut total: usize = 0;
        let mut i: usize = 0;
        while i < items.len()
            invariant
                vs == views(items@),
                T::lengths_fit(),
                !T::static_spec(),
                all_valid::<T>(vs),
                0 <= i <= items@.len(),
                items_encoding::<T>(vs).len() <= usize::MAX,
                items_encoding::<T>(vs).len() == 4 * vs.len() + tails(parts_of::<T>(vs)).len(),
                total == tails(parts_of::<T>(vs).take(i as int)).len(),
            decreases items@.len() - i,
        {
            let ghost ps = parts_of::<T>(vs);
            proof {
                assert(ps.take(i + 1) =~= ps.take(i as int).push(ps[i as int]));
                lemma_layout_push(ps.take(i as int), ps[i as int], 0);
                assert(ps =~= ps.take(i + 1) + ps.skip(i + 1));
                lemma_layout_append(ps.take(i + 1), ps.skip(i + 1), 0);
                assert(vs[i as int] == items@[i as int]@);
            }
            let l = items[i].sszb_bytes_len();
            total = total + l;
            i = i + 1;
        }
        assert(parts_of::<T>(vs).take(i as int) =~= parts_of::<T>(vs));
        4 * items.len() + total
    }
}

/// Writes a run of items: every item's fixed share, offsets counted from the
/// run's start, then every item's variable share.
pub fn write_items<T: SszEncode>(items: &Vec<T>, buf: &mut Vec<u8>)
    requires
        T::lengths_fit(),
        all_valid::<T>(views(items@)),
        items_encoding::<T>(views(items@)).len() <= usize::MAX,
        !T::static_spec() ==> items_encoding::<T>(views(items@)).len() <= max_offset(),
    ensures
        final(buf)@ == old(buf)@ + items_encoding::<T>(views(items@)),
{
    let ghost vs = views(items@);
    let ghost ps = parts_of::<T>(vs);
    proof {
        lemma_items_len::<T>(vs);
        lemma_parts_shapes::<T>(vs);
        T::lemma_type_lengths();
    }
    let n = items.len();
    let slot = T::ssz_fixed_len();
    assert(vs.len() == n);
    assert(slot_len(shape::<T>()) == slot);
    assert(n * slot <= usize::MAX);
    let hl = n * slot;
    let mut offset: usize = hl;
    let mut i: usize = 0;
    assert(ps.take(0) =~= Seq::<Part>::empty());
    assert(old(buf)@ + header(ps.take(0), hl as nat) =~= old(buf)@);
    while i < n
        invariant
            vs == views(items@),
            ps == parts_of::<T>(vs),
            n == items@.len(),
            T::lengths_fit(),
            all_valid::<T>(vs),
            0 <= i <= n,
            hl == header_len(shapes_of(ps)),
            items_encoding::<T>(vs).len() == hl + tails(ps).len(),
            items_encoding::<T>(vs).len() <= usize::MAX,
            !T::static_spec() ==> items_encoding::<T>(vs).len() <= max_offset(),
            offset == hl + tails(ps.take(i as int)).len(),
            buf@ == old(buf)@ + header(ps.take(i as int), hl as nat),
        decreases n - i,
    {
        proof {
            assert(ps.take(i + 1) =~= ps.take(i as int).push(ps[i as int]));
            lemma_layout_push(ps.take(i as int), ps[i as int], hl as nat);
            assert(ps =~= ps.take(i + 1) + ps.skip(i + 1));
            lemma_layout_append(ps.take(i + 1), ps.skip(i + 1), 0);
            assert(vs[i as int] == items@[i as int]@);
        }
        items[i].ssz_write_fixed(&mut offset, buf);
        proof {
            assert(buf@ =~= old(buf)@ + header(ps.take(i + 1), hl as nat));
        }
        i = i + 1;
    }
    assert(ps.take(n as int) =~= ps);
    let ghost mid = buf@;
    let mut j: usize = 0;
    assert(mid + tails(ps.take(0)) =~= mid);
    while j < n
        invariant
            vs == views(items@),
            ps == parts_of::<T>(vs),
            n == items@.len(),
            T::lengths_fit(),
            all_valid::<T>(vs),
            0 <= j <= n,
            items_encoding::<T>(vs).len() == hl + tails(ps).len(),
            !T::static_spec() ==> items_encoding::<T>(vs).len() <= max_offset(),
            mid == old(buf)@ + header(ps, hl as nat),
            buf@ == mid + tails(ps.take(j as int)),
        decreases n - j,
    {
        proof {
            assert(ps.take(j + 1) =~= ps.take(j as int).push(ps[j as int]));
            lemma_layout_push(ps.take(j as int), ps[j as int], 0);
            lemma_item_within::<T>(vs, j as int);
            assert(vs[j as int] == items@[j as int]@);
        }
        items[j].ssz_write_variable(buf);
        proof {
            assert(buf@ =~= mid + tails(ps.take(j + 1)));
        }
        j = j + 1;
    }
    assert(ps.take(n as int) =~= ps);
    assert(buf@ =~= old(buf)@ + items_encoding::<T>(vs));
}

/// Decodes `n` items of type `T` laid out in `bytes`, failing at the first
/// item that does not decode.
pub fn decode_items<T: SszDecode>(bytes: &[u8], n: usize) -> (r: Result<Vec<T>, DecodeError>)
    requires
        T::lengths_fit(),
        n * slot_len(shape::<T>()) <= usize::MAX,
    ensures
        r is Ok <==> items_decoding::<T>(n as nat, bytes@) is Some,
        r is Ok ==> items_decoding::<T>(n as nat, bytes@) == Some(views(r->Ok_0@)),
        r is Ok ==> r->Ok_0@.len() == n,
{
    proof {
        T::lemma_type_lengths();
        lemma_uniform_header_len(shape::<T>(), n as nat);
    }
    let shapes = Uniform {
        shape: FieldShape { is_static: T::is_ssz_static(), fixed_len: T::ssz_fixed_len() },
        count: n,
    };
    assert(shapes.shapes() == uniform_shapes(shape::<T>(), n as nat));
    let ranges = match split_fields(&shapes, bytes) {
        Ok(rs) => rs,
        Err(e) => {
            return Err(e);
        },
    };
    let ghost cs = ranges_view(ranges@, bytes@);
    assert(split_layout(uniform_shapes(shape::<T>(), n as nat), bytes@) == Some(cs));
    let mut out: Vec<T> = Vec::new();
    let mut i: usize = 0;
    while i < ranges.len()
        invariant
            cs == ranges_view(ranges@, bytes@),
            split_layout(uniform_shapes(shape::<T>(), n as nat), bytes@) == Some(cs),
            ranges_within(ranges@, bytes@.len()),
            T::lengths_fit(),
            0 <= i <= ranges@.len(),
            out@.len() == i,
            forall|k: int| 0 <= k < i ==> T::decoding(#[trigger] cs[k]) == Some(out@[k]@),
        decreases ranges@.len() - i,
    {
        let (lo, hi) = ranges[i];
        assert(ranges@[i as int].0 <= ranges@[i as int].1 <= bytes@.len());
        let chunk = slice_subrange(bytes, lo, hi);
        assert(chunk@ == cs[i as int]);
        match T::from_ssz_bytes(chunk) {
            Ok(item) => {
                out.push(item);
            },
            Err(e) => {
                assert(split_layout(uniform_shapes(shape::<T>(), n as nat), bytes@) == Some(cs));
                assert(T::decoding(cs[i as int]) is None);
                return Err(e);
            },
        }
        i = i + 1;
    }
    assert(cs.map_values(|b: Seq<u8>| T::decoding(b)->0) =~= views(out@));
    Ok(out)
}

} // verus!
