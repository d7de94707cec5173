//! The fixed/variable layout shared by containers and sequences: a fixed
//! region holding, field by field, either the field's bytes (static fields)
//! or an offset (variable fields), followed by the variable fields' bytes in
//! order.
use vstd::prelude::*;
use vstd::slice::slice_subrange;
use crate::error::DecodeError;
use crate::offset::{
    max_offset, offset_bytes, offset_value, lemma_offset_round_trip, read_offset_from_slice, sanitize_offset, BYTES_PER_LENGTH_OFFSET,
};

verus! {

/// One field's contribution to an encoding: whether the field is static, and
/// its encoded bytes.
pub struct Part {
    pub fixed: bool,
    pub bytes: Seq<u8>,
}

/// What a decoder knows of a field before it reads: whether it is static,
/// and its length in the fixed region when it is.
pub struct Shape {
    pub fixed: bool,
    pub len: nat,
}

/// Bytes a field takes in the fixed region.
pub open spec fn slot_len(s: Shape) -> nat {
    if s.fixed {
        s.len
    } else {
        4
    }
}

pub open spec fn shape_of(p: Part) -> Shape {
    Shape { fixed: p.fixed, len: if p.fixed { p.bytes.len() } else { 4 } }
}

pub open spec fn shapes_of(ps: Seq<Part>) -> Seq<Shape> {
    ps.map_values(|p: Part| shape_of(p))
}

pub open spec fn bytes_of(ps: Seq<Part>) -> Seq<Seq<u8>> {
    ps.map_values(|p: Part| p.bytes)
}

/// Length of the fixed region.
pub open spec fn header_len(ss: Seq<Shape>) -> nat
    decreases ss.len(),
{
    if ss.len() == 0 {
        0
    } else {
        slot_len(ss[0]) + header_len(ss.drop_first())
    }
}

/// True when no field is variable.
pub open spec fn all_fixed(ss: Seq<Shape>) -> bool {
    forall|i: int| 0 <= i < ss.len() ==> (#[trigger] ss[i]).fixed
}

/// What a field writes into the fixed region when the tail has reached `pos`.
pub open spec fn slot_bytes(p: Part, pos: nat) -> Seq<u8> {
    if p.fixed {
        p.bytes
    } else {
        offset_bytes(pos)
    }
}

/// What a field adds to the tail.
pub open spec fn tail_bytes(p: Part) -> Seq<u8> {
    if p.fixed {
        Seq::empty()
    } else {
        p.bytes
    }
}

/// The fixed region of `ps`, when the first variable field's bytes start at `pos`.
pub open spec fn header(ps: Seq<Part>, pos: nat) -> Seq<u8>
    decreases ps.len(),
{
    if ps.len() == 0 {
        Seq::empty()
    } else {
        slot_bytes(ps[0], pos) + header(ps.drop_first(), pos + tail_bytes(ps[0]).len())
    }
}

/// The variable region of `ps`.
pub open spec fn tails(ps: Seq<Part>) -> Seq<u8>
    decreases ps.len(),
{
    if ps.len() == 0 {
        Seq::empty()
    } else {
        tail_bytes(ps[0]) + tails(ps.drop_first())
    }
}

/// The encoding of fields `ps`: the fixed region, then the variable region.
pub open spec fn layout(ps: Seq<Part>) -> Seq<u8> {
    header(ps, header_len(shapes_of(ps))) + tails(ps)
}

/// The offset of the first variable field among `ss`, whose slots start at
/// `cur` in `bytes`.
pub open spec fn next_offset(ss: Seq<Shape>, bytes: Seq<u8>, cur: nat) -> Option<nat>
    decreases ss.len(),
{
    if ss.len() == 0 {
        None
    } else if ss[0].fixed {
        next_offset(ss.drop_first(), bytes, cur + ss[0].len)
    } else {
        Some(offset_value(bytes.subrange(cur as int, (cur + 4) as int)))
    }
}

/// The fields' bytes, read from `cur` in the fixed region while the variable
/// region has been consumed up to `pos`; `None` where the offsets are
/// inconsistent.
pub open spec fn split_from(ss: Seq<Shape>, bytes: Seq<u8>, cur: nat, pos: nat) -> Option<
    Seq<Seq<u8>>,
>
    decreases ss.len(),
{
    if ss.len() == 0 {
        if pos == bytes.len() {
            Some(Seq::empty())
        } else {
            None
        }
    } else if ss[0].fixed {
        match split_from(ss.drop_first(), bytes, cur + ss[0].len, pos) {
            Some(r) => Some(seq![bytes.subrange(cur as int, (cur + ss[0].len) as int)] + r),
            None => None,
        }
    } else {
        let begin = offset_value(bytes.subrange(cur as int, (cur + 4) as int));
        let end = match next_offset(ss.drop_first(), bytes, cur + 4) {
            Some(e) => e,
            None => bytes.len(),
        };
        if begin != pos || end < begin || end > bytes.len() {
            None
        } else {
            match split_from(ss.drop_first(), bytes, cur + 4, end) {
                Some(r) => Some(seq![bytes.subrange(begin as int, end as int)] + r),
                None => None,
            }
        }
    }
}

/// Splits an encoding into its fields' bytes, given the fields' shapes.
pub open spec fn split_layout(ss: Seq<Shape>, bytes: Seq<u8>) -> Option<Seq<Seq<u8>>> {
    if bytes.len() < header_len(ss) {
        None
    } else {
        split_from(ss, bytes, 0, header_len(ss))
    }
}

pub proof fn lemma_header_len(ps: Seq<Part>, pos: nat)
    ensures
        header(ps, pos).len() == header_len(shapes_of(ps)),
    decreases ps.len(),
{
    if ps.len() > 0 {
        lemma_header_len(ps.drop_first(), pos + tail_bytes(ps[0]).len());
        assert(shapes_of(ps).drop_first() == shapes_of(ps.drop_first()));
        if !ps[0].fixed {
            lemma_offset_round_trip_len(pos);
        }
    }
}

proof fn lemma_offset_round_trip_len(pos: nat)
    ensures
        offset_bytes(pos).len() == 4,
{
    vstd::bytes::lemma_auto_spec_u32_to_from_le_bytes();
    assert(vstd::bytes::spec_u32_to_le_bytes(pos as u32).len() == 4);
}

/// Cutting a run of bytes known to be `x + y`.
proof fn lemma_subrange_split(b: Seq<u8>, lo: nat, mid: nat, hi: nat, x: Seq<u8>, y: Seq<u8>)
    requires
        0 <= lo <= mid <= hi <= b.len(),
        b.subrange(lo as int, hi as int) == x + y,
        x.len() == mid - lo,
    ensures
        b.subrange(lo as int, mid as int) == x,
        b.subrange(mid as int, hi as int) == y,
{
    assert(b.subrange(lo as int, mid as int) =~= (x + y).subrange(0, mid - lo));
    assert(b.subrange(mid as int, hi as int) =~= (x + y).subrange(mid - lo, hi - lo));
    assert((x + y).subrange(0, mid - lo) =~= x);
    assert((x + y).subrange(mid - lo, hi - lo) =~= y);
}

proof fn lemma_tails_empty(ps: Seq<Part>)
    requires
        all_fixed(shapes_of(ps)),
    ensures
        tails(ps) == Seq::<u8>::empty(),
    decreases ps.len(),
{
    if ps.len() > 0 {
        assert(shapes_of(ps)[0].fixed);
        assert(shapes_of(ps).drop_first() == shapes_of(ps.drop_first()));
        assert forall|i: int| 0 <= i < shapes_of(ps.drop_first()).len() implies (
        #[trigger] shapes_of(ps.drop_first())[i]).fixed by {
            assert(shapes_of(ps)[i + 1].fixed);
        }
        lemma_tails_empty(ps.drop_first());
    }
}

proof fn lemma_next_offset(ps: Seq<Part>, b: Seq<u8>, cur: nat, pos: nat)
    requires
        cur + header_len(shapes_of(ps)) <= b.len(),
        b.subrange(cur as int, (cur + header_len(shapes_of(ps))) as int) == header(ps, pos),
        pos <= max_offset(),
    ensures
        all_fixed(shapes_of(ps)) ==> next_offset(shapes_of(ps), b, cur) is None,
        !all_fixed(shapes_of(ps)) ==> next_offset(shapes_of(ps), b, cur) == Some(pos),
    decreases ps.len(),
{
    if ps.len() > 0 {
        let ss = shapes_of(ps);
        let rest = ps.drop_first();
        assert(ss.drop_first() == shapes_of(rest));
        lemma_header_len(rest, pos + tail_bytes(ps[0]).len());
        if ps[0].fixed {
            let l = ps[0].bytes.len();
            lemma_subrange_split(
                b,
                cur,
                cur + l,
                cur + header_len(ss),
                ps[0].bytes,
                header(rest, pos),
            );
            lemma_next_offset(rest, b, cur + l, pos);
            if !all_fixed(ss) {
                let i = choose|i: int| 0 <= i < ss.len() && !(#[trigger] ss[i]).fixed;
                assert(!shapes_of(rest)[i - 1].fixed);
            } else {
                assert forall|i: int| 0 <= i < shapes_of(rest).len() implies (
                #[trigger] shapes_of(rest)[i]).fixed by {
                    assert(ss[i + 1].fixed);
                }
            }
        } else {
            lemma_offset_round_trip(pos);
            lemma_subrange_split(
                b,
                cur,
                cur + 4,
                cur + header_len(ss),
                offset_bytes(pos),
                header(rest, pos + ps[0].bytes.len()),
            );
            assert(!ss[0].fixed);
        }
    }
}

/// The fields' bytes come back from a layout whose offsets fit.
proof fn lemma_split_from(ps: Seq<Part>, b: Seq<u8>, cur: nat, pos: nat)
    requires
        cur + header_len(shapes_of(ps)) <= pos,
        pos + tails(ps).len() == b.len(),
        !all_fixed(shapes_of(ps)) ==> b.len() <= max_offset(),
        b.subrange(cur as int, (cur + header_len(shapes_of(ps))) as int) == header(ps, pos),
        b.subrange(pos as int, b.len() as int) == tails(ps),
    ensures
        split_from(shapes_of(ps), b, cur, pos) == Some(bytes_of(ps)),
    decreases ps.len(),
{
    let ss = shapes_of(ps);
    if ps.len() == 0 {
        assert(bytes_of(ps) =~= Seq::<Seq<u8>>::empty());
    } else {
        let rest = ps.drop_first();
        assert(ss.drop_first() == shapes_of(rest));
        assert(bytes_of(ps) =~= seq![ps[0].bytes] + bytes_of(rest));
        lemma_header_len(rest, pos + tail_bytes(ps[0]).len());
        if ps[0].fixed {
            let l = ps[0].bytes.len();
            lemma_subrange_split(
                b,
                cur,
                cur + l,
                cur + header_len(ss),
                ps[0].bytes,
                header(rest, pos),
            );
            assert(tails(ps) =~= tails(rest));
            if !all_fixed(shapes_of(rest)) {
                let i = choose|i: int| 0 <= i < shapes_of(rest).len() && !(#[trigger] shapes_of(rest)[i]).fixed;
                assert(!ss[i + 1].fixed);
            }
            lemma_split_from(rest, b, cur + l, pos);
        } else {
            let l = ps[0].bytes.len();
            lemma_offset_round_trip(pos);
            lemma_subrange_split(
                b,
                cur,
                cur + 4,
                cur + header_len(ss),
                offset_bytes(pos),
                header(rest, pos + l),
            );
            lemma_subrange_split(
                b,
                pos,
                pos + l,
                b.len(),
                ps[0].bytes,
                tails(rest),
            );
            assert(!ss[0].fixed);
            lemma_next_offset(rest, b, cur + 4, pos + l);
            if all_fixed(shapes_of(rest)) {
                lemma_tails_empty(rest);
            }
            lemma_split_from(rest, b, cur + 4, pos + l);
        }
    }
}

/// Splitting a layout gives back each field's bytes, provided every offset
/// fits in four bytes.
pub proof fn lemma_split_layout(ps: Seq<Part>)
    requires
        !all_fixed(shapes_of(ps)) ==> layout(ps).len() <= max_offset(),
    ensures
        layout(ps).len() == header_len(shapes_of(ps)) + tails(ps).len(),
        split_layout(shapes_of(ps), layout(ps)) == Some(bytes_of(ps)),
{
    let hl = header_len(shapes_of(ps));
    let b = layout(ps);
    lemma_header_len(ps, hl);
    assert(b.subrange(0, hl as int) =~= header(ps, hl));
    assert(b.subrange(hl as int, b.len() as int) =~= tails(ps));
    lemma_split_from(ps, b, 0, hl);
}

/// `done` put in front of what the rest of a split gives.
pub open spec fn prepend(done: Seq<Seq<u8>>, rest: Option<Seq<Seq<u8>>>) -> Option<Seq<Seq<u8>>> {
    match rest {
        Some(r) => Some(done + r),
        None => None,
    }
}

/// The bytes that each range names.
pub open spec fn ranges_view(rs: Seq<(usize, usize)>, bytes: Seq<u8>) -> Seq<Seq<u8>> {
    rs.map_values(|r: (usize, usize)| bytes.subrange(r.0 as int, r.1 as int))
}

/// Each range lies within `len` bytes.
pub open spec fn ranges_within(rs: Seq<(usize, usize)>, len: nat) -> bool {
    forall|i: int| 0 <= i < rs.len() ==> (#[trigger] rs[i]).0 <= rs[i].1 <= len
}

/// A field's shape as the decoder holds it.
#[derive(Clone, Copy)]
pub struct FieldShape {
    pub is_static: bool,
    pub fixed_len: usize,
}

impl View for FieldShape {
    type V = Shape;

    open spec fn view(&self) -> Shape {
        Shape { fixed: self.is_static, len: self.fixed_len as nat }
    }
}

/// The fields of a layout, in order, as the decoder walks them.
pub trait ShapeList {
    spec fn shapes(&self) -> Seq<Shape>;

    fn count(&self) -> (r: usize)
        ensures
            r == self.shapes().len(),
    ;

    fn shape_at(&self, i: usize) -> (r: FieldShape)
        requires
            i < self.shapes().len(),
        ensures
            r@ == self.shapes()[i as int],
    ;

    /// Length of the fixed region.
    fn header_len(&self) -> (r: usize)
        requires
            header_len(self.shapes()) <= usize::MAX,
        ensures
            r == header_len(self.shapes()),
    ;
}

/// `count` fields of one shape: the items of a homogeneous sequence.
pub struct Uniform {
    pub shape: FieldShape,
    pub count: usize,
}

pub open spec fn uniform_shapes(s: Shape, n: nat) -> Seq<Shape> {
    Seq::new(n, |i: int| s)
}

pub proof fn lemma_uniform_header_len(s: Shape, n: nat)
    ensures
        header_len(uniform_shapes(s, n)) == n * slot_len(s),
    decreases n,
{
    if n > 0 {
        let m = (n - 1) as nat;
        assert(uniform_shapes(s, n).drop_first() =~= uniform_shapes(s, m));
        assert(uniform_shapes(s, n)[0] == s);
        lemma_uniform_header_len(s, m);
        assert(header_len(uniform_shapes(s, n)) == slot_len(s) + m * slot_len(s));
        assert(n * slot_len(s) == slot_len(s) + m * slot_len(s)) by (nonlinear_arith)
            requires
                n == m + 1,
        ;
    } else {
        assert(uniform_shapes(s, n).len() == 0);
    }
}

impl ShapeList for Uniform {
    open spec fn shapes(&self) -> Seq<Shape> {
        uniform_shapes(self.shape@, self.count as nat)
    }

    fn count(&self) -> (r: usize) {
        self.count
    }

    fn shape_at(&self, i: usize) -> (r: FieldShape) {
        self.shape
    }

    fn header_len(&self) -> (r: usize) {
        proof {
            lemma_uniform_header_len(self.shape@, self.count as nat);
        }
        let slot = if self.shape.is_static {
            self.shape.fixed_len
        } else {
            BYTES_PER_LENGTH_OFFSET
        };
        self.count * slot
    }
}

impl ShapeList for Vec<FieldShape> {
    open spec fn shapes(&self) -> Seq<Shape> {
        self@.map_values(|f: FieldShape| f@)
    }

    fn count(&self) -> (r: usize) {
        self.len()
    }

    fn shape_at(&self, i: usize) -> (r: FieldShape) {
        self[i]
    }

    fn header_len(&self) -> (r: usize) {
        let ghost ss = self.shapes();
        let mut total: usize = 0;
        let mut i: usize = self.len();
        while i > 0
            invariant
                ss == self.shapes(),
                i <= ss.len(),
                header_len(ss) <= usize::MAX,
                total == header_len(ss.skip(i as int)),
                header_len(ss.skip(i as int)) <= header_len(ss),
            decreases i,
        {
            proof {
                lemma_header_len_skip(ss, (i - 1) as int);
                lemma_header_len_skip_mono(ss, (i - 1) as int);
            }
            let slot = if self[i - 1].is_static {
                self[i - 1].fixed_len
            } else {
                BYTES_PER_LENGTH_OFFSET
            };
            total = total + slot;
            i = i - 1;
        }
        assert(ss.skip(0) =~= ss);
        total
    }
}

pub proof fn lemma_header_len_skip(ss: Seq<Shape>, i: int)
    requires
        0 <= i < ss.len(),
    ensures
        ss.skip(i).drop_first() == ss.skip(i + 1),
        ss.skip(i)[0] == ss[i],
        header_len(ss.skip(i)) == slot_len(ss[i]) + header_len(ss.skip(i + 1)),
{
    assert(ss.skip(i).drop_first() =~= ss.skip(i + 1));
}

proof fn lemma_header_len_skip_mono(ss: Seq<Shape>, i: int)
    requires
        0 <= i <= ss.len(),
    ensures
        header_len(ss.skip(i)) <= header_len(ss),
    decreases i,
{
    if i > 0 {
        lemma_header_len_skip(ss, i - 1);
        lemma_header_len_skip_mono(ss, i - 1);
    } else {
        assert(ss.skip(0) =~= ss);
    }
}

proof fn lemma_prepend_step(done: Seq<Seq<u8>>, x: Seq<u8>, rest: Option<Seq<Seq<u8>>>)
    ensures
        prepend(
            done,
            match rest {
                Some(r) => Some(seq![x] + r),
                None => None,
            },
        ) == prepend(done.push(x), rest),
{
    if let Some(r) = rest {
        assert(done + (seq![x] + r) =~= done.push(x) + r);
    }
}

/// Splits `bytes` into the byte ranges of the fields `shapes`: a static
/// field's range lies in the fixed region; a variable field's range runs from
/// its own offset to the next variable field's offset, or to the end of the
/// bytes for the last. Every offset is checked before use.
pub fn split_fields<S: ShapeList>(shapes: &S, bytes: &[u8]) -> (r: Result<
    Vec<(usize, usize)>,
    DecodeError,
>)
    requires
        header_len(shapes.shapes()) <= usize::MAX,
    ensures
        r is Ok <==> split_layout(shapes.shapes(), bytes@) is Some,
        r is Ok ==> ranges_view(r->Ok_0@, bytes@) == split_layout(shapes.shapes(), bytes@)->0
            && ranges_within(r->Ok_0@, bytes@.len()) && r->Ok_0@.len() == shapes.shapes().len(),
        bytes@.len() < header_len(shapes.shapes()) ==> r == Err::<Vec<(usize, usize)>, DecodeError>(
            DecodeError::InvalidByteLength {
                len: bytes@.len() as usize,
                expected: header_len(shapes.shapes()) as usize,
            },
        ),
{
    let ghost ss = shapes.shapes();
    let ghost b = bytes@;
    let n = shapes.count();
    let hl = shapes.header_len();
    if bytes.len() < hl {
        return Err(DecodeError::InvalidByteLength { len: bytes.len(), expected: hl });
    }
    let mut out: Vec<(usize, usize)> = Vec::new();
    let mut cur: usize = 0;
    let mut pos: usize = hl;
    let mut i: usize = 0;
    assert(ss.skip(0) =~= ss);
    assert(ranges_view(out@, b) =~= Seq::<Seq<u8>>::empty());
    while i < n
        invariant
            ss == shapes.shapes(),
            b == bytes@,
            n == ss.len(),
            hl == header_len(ss),
            hl <= b.len(),
            0 <= i <= n,
            cur + header_len(ss.skip(i as int)) == hl,
            hl <= pos <= b.len(),
            out@.len() == i,
            ranges_within(out@, b.len()),
            split_layout(ss, b) == prepend(
                ranges_view(out@, b),
                split_from(ss.skip(i as int), b, cur as nat, pos as nat),
            ),
        decreases n - i,
    {
        let s = shapes.shape_at(i);
        proof {
            lemma_header_len_skip(ss, i as int);
        }
        let ghost done = ranges_view(out@, b);
        if s.is_static {
            let range = (cur, cur + s.fixed_len);
            proof {
                lemma_prepend_step(
                    done,
                    b.subrange(cur as int, cur + s.fixed_len),
                    split_from(ss.skip(i + 1), b, (cur + s.fixed_len) as nat, pos as nat),
                );
            }
            out.push(range);
            assert(ranges_view(out@, b) =~= done.push(b.subrange(cur as int, cur + s.fixed_len)));
            cur = cur + s.fixed_len;
        } else {
            let head = slice_subrange(bytes, cur, cur + BYTES_PER_LENGTH_OFFSET);
            assert(head@.take(4) =~= b.subrange(cur as int, cur + 4));
            let begin = match read_offset_from_slice(head) {
                Ok(o) => o,
                Err(e) => {
                    return Err(e);
                },
            };
            let begin = match sanitize_offset(begin, None, bytes.len(), Some(pos)) {
                Ok(o) => o,
                Err(e) => {
                    return Err(e);
                },
            };
            // The field ends where the next variable field begins.
            let mut end: usize = bytes.len();
            let mut found = false;
            let mut j: usize = i + 1;
            let mut c2: usize = cur + BYTES_PER_LENGTH_OFFSET;
            while j < n
                invariant
                    ss == shapes.shapes(),
                    b == bytes@,
                    n == ss.len(),
                    hl == header_len(ss),
                    hl <= b.len(),
                    i + 1 <= j <= n,
                    found ==> j == n,
                    !found ==> c2 + header_len(ss.skip(j as int)) == hl,
                    found ==> next_offset(ss.skip(i + 1), b, (cur + 4) as nat) == Some(
                        end as nat,
                    ),
                    !found ==> next_offset(ss.skip(i + 1), b, (cur + 4) as nat) == next_offset(
                        ss.skip(j as int),
                        b,
                        c2 as nat,
                    ) && end == b.len(),
                decreases n - j,
            {
                let t = shapes.shape_at(j);
                proof {
                    lemma_header_len_skip(ss, j as int);
                }
                if t.is_static {
                    c2 = c2 + t.fixed_len;
                    j = j + 1;
                } else {
                    let h2 = slice_subrange(bytes, c2, c2 + BYTES_PER_LENGTH_OFFSET);
                    assert(h2@.take(4) =~= b.subrange(c2 as int, c2 + 4));
                    end = match read_offset_from_slice(h2) {
                        Ok(o) => o,
                        Err(e) => {
                            return Err(e);
                        },
                    };
                    assert(next_offset(ss.skip(j as int), b, c2 as nat) == Some(end as nat));
                    found = true;
                    j = n;
                }
            }
            let end = match sanitize_offset(end, Some(begin), bytes.len(), None) {
                Ok(o) => o,
                Err(e) => {
                    return Err(e);
                },
            };
            proof {
                lemma_prepend_step(
                    done,
                    b.subrange(begin as int, end as int),
                    split_from(ss.skip(i + 1), b, (cur + 4) as nat, end as nat),
                );
            }
            out.push((begin, end));
            assert(ranges_view(out@, b) =~= done.push(b.subrange(begin as int, end as int)));
            cur = cur + BYTES_PER_LENGTH_OFFSET;
            pos = end;
        }
        i = i + 1;
    }
    if pos != bytes.len() {
        return Err(DecodeError::InvalidByteLength { len: bytes.len(), expected: pos });
    }
    assert(ranges_view(out@, b) + Seq::<Seq<u8>>::empty() =~= ranges_view(out@, b));
    Ok(out)
}

/// Layouts compose: the fields of `a` then those of `c`.
pub proof fn lemma_layout_append(a: Seq<Part>, c: Seq<Part>, pos: nat)
    ensures
        tails(a + c) == tails(a) + tails(c),
        header(a + c, pos) == header(a, pos) + header(c, pos + tails(a).len()),
        header_len(shapes_of(a + c)) == header_len(shapes_of(a)) + header_len(shapes_of(c)),
    decreases a.len(),
{
    if a.len() == 0 {
        assert(a + c =~= c);
        assert(shapes_of(a).len() == 0);
        assert(tails(a) + tails(c) =~= tails(c));
        assert(header(a, pos) + header(c, pos) =~= header(c, pos));
    } else {
        let rest = a.drop_first();
        assert((a + c).drop_first() =~= rest + c);
        assert((a + c)[0] == a[0]);
        assert(shapes_of(a + c).drop_first() =~= shapes_of(rest + c));
        assert(shapes_of(a).drop_first() =~= shapes_of(rest));
        lemma_layout_append(rest, c, pos + tail_bytes(a[0]).len());
        assert(tails(a + c) =~= tails(a) + tails(c));
        assert(header(a + c, pos) =~= header(a, pos) + header(c, pos + tails(a).len()));
    }
}

/// A single field's layout pieces.
pub proof fn lemma_layout_single(p: Part, pos: nat)
    ensures
        tails(seq![p]) == tail_bytes(p),
        header(seq![p], pos) == slot_bytes(p, pos),
        header_len(shapes_of(seq![p])) == slot_len(shape_of(p)),
{
    let e = Seq::<Part>::empty();
    assert(seq![p].drop_first() =~= e);
    assert(seq![p][0] == p);
    assert(shapes_of(seq![p]).drop_first() =~= Seq::<Shape>::empty());
    assert(tails(e) == Seq::<u8>::empty());
    assert(header(e, pos + tail_bytes(p).len()) == Seq::<u8>::empty());
    assert(header_len(Seq::<Shape>::empty()) == 0);
    assert(tails(seq![p]) =~= tail_bytes(p));
    assert(header(seq![p], pos) =~= slot_bytes(p, pos));
}

/// The layout of `ps` with one more field at the end.
pub proof fn lemma_layout_push(ps: Seq<Part>, p: Part, pos: nat)
    ensures
        tails(ps.push(p)) == tails(ps) + tail_bytes(p),
        header(ps.push(p), pos) == header(ps, pos) + slot_bytes(p, pos + tails(ps).len()),
        header_len(shapes_of(ps.push(p))) == header_len(shapes_of(ps)) + slot_len(shape_of(p)),
{
    assert(ps.push(p) =~= ps + seq![p]);
    lemma_layout_append(ps, seq![p], pos);
    lemma_layout_single(p, pos + tails(ps).len());
}

/// A split gives one byte run per field.
pub proof fn lemma_split_len(ss: Seq<Shape>, b: Seq<u8>, cur: nat, pos: nat)
    requires
        split_from(ss, b, cur, pos) is Some,
    ensures
        split_from(ss, b, cur, pos)->0.len() == ss.len(),
    decreases ss.len(),
{
    if ss.len() > 0 {
        if ss[0].fixed {
            lemma_split_len(ss.drop_first(), b, cur + ss[0].len, pos);
        } else {
            let end = match next_offset(ss.drop_first(), b, cur + 4) {
                Some(e) => e,
                None => b.len(),
            };
            lemma_split_len(ss.drop_first(), b, cur + 4, end);
        }
    }
}

/// A split of fields that are all static consumes exactly the fixed region.
pub proof fn lemma_split_fixed_len(ss: Seq<Shape>, b: Seq<u8>, cur: nat, pos: nat)
    requires
        all_fixed(ss),
        split_from(ss, b, cur, pos) is Some,
    ensures
        pos == b.len(),
    decreases ss.len(),
{
    if ss.len() > 0 {
        assert(ss[0].fixed);
        assert forall|i: int| 0 <= i < ss.drop_first().len() implies (
        #[trigger] ss.drop_first()[i]).fixed by {
            assert(ss[i + 1].fixed);
        }
        lemma_split_fixed_len(ss.drop_first(), b, cur + ss[0].len, pos);
    }
}

/// The parts that shapes `ss` and their split bytes `cs` stand for.
pub open spec fn zip_parts(ss: Seq<Shape>, cs: Seq<Seq<u8>>) -> Seq<Part> {
    Seq::new(ss.len(), |i: int| Part { fixed: ss[i].fixed, bytes: cs[i] })
}

/// Every variable field takes one offset width in the fixed region.
pub open spec fn offsets_fit_slots(ss: Seq<Shape>) -> bool {
    forall|i: int| 0 <= i < ss.len() && !(#[trigger] ss[i]).fixed ==> ss[i].len == 4
}

proof fn lemma_split_from_canonical(ss: Seq<Shape>, b: Seq<u8>, cur: nat, pos: nat)
    requires
        split_from(ss, b, cur, pos) is Some,
        offsets_fit_slots(ss),
        cur + header_len(ss) <= pos <= b.len(),
    ensures
        shapes_of(zip_parts(ss, split_from(ss, b, cur, pos)->0)) == ss,
        b.subrange(cur as int, (cur + header_len(ss)) as int) == header(
            zip_parts(ss, split_from(ss, b, cur, pos)->0),
            pos,
        ),
        b.subrange(pos as int, b.len() as int) == tails(
            zip_parts(ss, split_from(ss, b, cur, pos)->0),
        ),
    decreases ss.len(),
{
    let cs = split_from(ss, b, cur, pos)->0;
    lemma_split_len(ss, b, cur, pos);
    let ps = zip_parts(ss, cs);
    if ss.len() == 0 {
        assert(shapes_of(ps) =~= ss);
        assert(b.subrange(cur as int, cur as int) =~= header(ps, pos));
        assert(b.subrange(pos as int, b.len() as int) =~= tails(ps));
    } else {
        let rest = ss.drop_first();
        assert forall|i: int| 0 <= i < rest.len() && !(#[trigger] rest[i]).fixed implies rest[i].len
            == 4 by {
            assert(rest[i] == ss[i + 1]);
        }
        if ss[0].fixed {
            let l = ss[0].len;
            let r = split_from(rest, b, cur + l, pos)->0;
            assert(cs == seq![b.subrange(cur as int, (cur + l) as int)] + r);
            assert(ps.drop_first() =~= zip_parts(rest, r));
            lemma_split_from_canonical(rest, b, cur + l, pos);
            assert forall|i: int| 0 <= i < ss.len() implies shapes_of(ps)[i] == ss[i] by {
                if i > 0 {
                    assert(shapes_of(zip_parts(rest, r))[i - 1] == rest[i - 1]);
                    assert(ps[i] == zip_parts(rest, r)[i - 1]);
                }
            }
            assert(shapes_of(ps) =~= ss);
            assert(b.subrange(cur as int, (cur + header_len(ss)) as int) =~= b.subrange(
                cur as int,
                (cur + l) as int,
            ) + b.subrange((cur + l) as int, (cur + header_len(ss)) as int));
        } else {
            let head = b.subrange(cur as int, (cur + 4) as int);
            let begin = offset_value(head);
            let end = match next_offset(rest, b, cur + 4) {
                Some(e) => e,
                None => b.len(),
            };
            let r = split_from(rest, b, cur + 4, end)->0;
            assert(cs == seq![b.subrange(begin as int, end as int)] + r);
            assert(ps.drop_first() =~= zip_parts(rest, r));
            lemma_split_from_canonical(rest, b, cur + 4, end);
            vstd::bytes::lemma_auto_spec_u32_to_from_le_bytes();
            assert(offset_bytes(pos) == head);
            assert forall|i: int| 0 <= i < ss.len() implies shapes_of(ps)[i] == ss[i] by {
                if i > 0 {
                    assert(shapes_of(zip_parts(rest, r))[i - 1] == rest[i - 1]);
                    assert(ps[i] == zip_parts(rest, r)[i - 1]);
                }
            }
            assert(shapes_of(ps) =~= ss);
            assert(b.subrange(cur as int, (cur + header_len(ss)) as int) =~= head + b.subrange(
                (cur + 4) as int,
                (cur + header_len(ss)) as int,
            ));
            assert(b.subrange(pos as int, b.len() as int) =~= b.subrange(pos as int, end as int)
                + b.subrange(end as int, b.len() as int));
        }
    }
}

/// Bytes that split are the layout of the parts they split into: a split
/// accepts nothing but layouts.
pub proof fn lemma_split_canonical(ss: Seq<Shape>, b: Seq<u8>)
    requires
        split_layout(ss, b) is Some,
        offsets_fit_slots(ss),
    ensures
        shapes_of(zip_parts(ss, split_layout(ss, b)->0)) == ss,
        split_layout(ss, b)->0.len() == ss.len(),
        layout(zip_parts(ss, split_layout(ss, b)->0)) == b,
{
    let hl = header_len(ss);
    lemma_split_len(ss, b, 0, hl);
    lemma_split_from_canonical(ss, b, 0, hl);
    assert(b =~= b.subrange(0, hl as int) + b.subrange(hl as int, b.len() as int));
}

} // verus!
