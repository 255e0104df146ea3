//! Field-by-field decoding and encoding of fixed-layout records in either
//! byte order. A record layout is the list of its scalar fields' widths in
//! bytes; fixed-size names are copied as raw bytes and never swapped.

use vstd::prelude::*;
use crate::util::Endian;

verus! {

/// Value of bytes read least significant first.
pub open spec fn le_val(b: Seq<u8>) -> nat
    decreases b.len(),
{
    if b.len() == 0 {
        0
    } else {
        b[0] as nat + 256 * le_val(b.drop_first())
    }
}

/// Value of bytes read most significant first.
pub open spec fn be_val(b: Seq<u8>) -> nat
    decreases b.len(),
{
    if b.len() == 0 {
        0
    } else {
        be_val(b.drop_last()) * 256 + b.last() as nat
    }
}

/// The `w` low bytes of `v`, least significant first.
pub open spec fn le_bytes(v: nat, w: nat) -> Seq<u8>
    decreases w,
{
    if w == 0 {
        Seq::empty()
    } else {
        seq![(v % 256) as u8] + le_bytes(v / 256, (w - 1) as nat)
    }
}

/// The `w` low bytes of `v`, most significant first.
pub open spec fn be_bytes(v: nat, w: nat) -> Seq<u8>
    decreases w,
{
    if w == 0 {
        Seq::empty()
    } else {
        be_bytes(v / 256, (w - 1) as nat).push((v % 256) as u8)
    }
}

/// The unsigned integer that `b` encodes in byte order `e`.
pub open spec fn uint_val(b: Seq<u8>, e: Endian) -> nat {
    match e {
        Endian::LittleEndian => le_val(b),
        Endian::BigEndian => be_val(b),
    }
}

/// The `w`-byte encoding of `v` in byte order `e`.
pub open spec fn uint_bytes(v: nat, w: nat, e: Endian) -> Seq<u8> {
    match e {
        Endian::LittleEndian => le_bytes(v, w),
        Endian::BigEndian => be_bytes(v, w),
    }
}

pub open spec fn pow256(w: nat) -> nat
    decreases w,
{
    if w == 0 {
        1
    } else {
        256 * pow256((w - 1) as nat)
    }
}

/// Whether `w` is the width of a scalar field.
pub open spec fn is_width(w: nat) -> bool {
    w == 1 || w == 2 || w == 4 || w == 8
}

pub proof fn lemma_pow256(w: nat)
    requires
        w <= 8,
    ensures
        pow256(w) <= 0x1_0000_0000_0000_0000,
        w == 1 ==> pow256(w) == 0x100,
        w == 2 ==> pow256(w) == 0x1_0000,
        w == 4 ==> pow256(w) == 0x1_0000_0000,
        w == 8 ==> pow256(w) == 0x1_0000_0000_0000_0000,
{
    reveal_with_fuel(pow256, 9);
}

proof fn lemma_le_bound(b: Seq<u8>)
    ensures
        le_val(b) < pow256(b.len()),
    decreases b.len(),
{
    if b.len() > 0 {
        lemma_le_bound(b.drop_first());
        assert(le_val(b) < pow256(b.len())) by (nonlinear_arith)
            requires
                le_val(b) == b[0] as nat + 256 * le_val(b.drop_first()),
                le_val(b.drop_first()) < pow256((b.len() - 1) as nat),
                pow256(b.len()) == 256 * pow256((b.len() - 1) as nat),
                b[0] < 256,
        ;
    }
}

proof fn lemma_be_bound(b: Seq<u8>)
    ensures
        be_val(b) < pow256(b.len()),
    decreases b.len(),
{
    if b.len() > 0 {
        lemma_be_bound(b.drop_last());
        assert(be_val(b) < pow256(b.len())) by (nonlinear_arith)
            requires
                be_val(b) == be_val(b.drop_last()) * 256 + b.last() as nat,
                be_val(b.drop_last()) < pow256((b.len() - 1) as nat),
                pow256(b.len()) == 256 * pow256((b.len() - 1) as nat),
                b.last() < 256,
        ;
    }
}

pub proof fn lemma_uint_bound(b: Seq<u8>, e: Endian)
    ensures
        uint_val(b, e) < pow256(b.len()),
{
    lemma_le_bound(b);
    lemma_be_bound(b);
}

proof fn lemma_le_round_trip(v: nat, w: nat)
    requires
        v < pow256(w),
    ensures
        le_bytes(v, w).len() == w,
        le_val(le_bytes(v, w)) == v,
    decreases w,
{
    if w > 0 {
        assert(v / 256 < pow256((w - 1) as nat)) by (nonlinear_arith)
            requires
                v < pow256(w),
                pow256(w) == 256 * pow256((w - 1) as nat),
        ;
        lemma_le_round_trip(v / 256, (w - 1) as nat);
        let b = le_bytes(v, w);
        assert(b.drop_first() =~= le_bytes(v / 256, (w - 1) as nat));
    }
}

proof fn lemma_be_round_trip(v: nat, w: nat)
    requires
        v < pow256(w),
    ensures
        be_bytes(v, w).len() == w,
        be_val(be_bytes(v, w)) == v,
    decreases w,
{
    if w > 0 {
        assert(v / 256 < pow256((w - 1) as nat)) by (nonlinear_arith)
            requires
                v < pow256(w),
                pow256(w) == 256 * pow256((w - 1) as nat),
        ;
        lemma_be_round_trip(v / 256, (w - 1) as nat);
        let b = be_bytes(v, w);
        assert(b.drop_last() =~= be_bytes(v / 256, (w - 1) as nat));
    }
}

/// Decoding an encoded scalar gives the value back, in either byte order.
pub proof fn lemma_uint_round_trip(v: nat, w: nat, e: Endian)
    requires
        v < pow256(w),
    ensures
        uint_bytes(v, w, e).len() == w,
        uint_val(uint_bytes(v, w, e), e) == v,
{
    lemma_le_round_trip(v, w);
    lemma_be_round_trip(v, w);
}

proof fn lemma_le_inverse(b: Seq<u8>)
    ensures
        le_bytes(le_val(b), b.len()) == b,
    decreases b.len(),
{
    if b.len() > 0 {
        let t = b.drop_first();
        lemma_le_inverse(t);
        let v = le_val(b);
        assert(v % 256 == b[0] as nat && v / 256 == le_val(t)) by (nonlinear_arith)
            requires v == b[0] as nat + 256 * le_val(t), b[0] < 256;
        assert(le_bytes(v, b.len()) =~= b);
    }
}

proof fn lemma_be_inverse(b: Seq<u8>)
    ensures
        be_bytes(be_val(b), b.len()) == b,
    decreases b.len(),
{
    if b.len() > 0 {
        let t = b.drop_last();
        lemma_be_inverse(t);
        let v = be_val(b);
        assert(v % 256 == b.last() as nat && v / 256 == be_val(t)) by (nonlinear_arith)
            requires v == be_val(t) * 256 + b.last() as nat, b.last() < 256;
        assert(be_bytes(v, b.len()) =~= b);
    }
}

/// Encoding a decoded scalar gives its bytes back, in either byte order.
pub proof fn lemma_uint_inverse(b: Seq<u8>, e: Endian)
    ensures
        uint_bytes(uint_val(b, e), b.len(), e) == b,
{
    lemma_le_inverse(b);
    lemma_be_inverse(b);
}

/// Reads the `w`-byte scalar at `off` of `buf` in byte order `e`.
pub fn read_uint(buf: &[u8], off: usize, w: usize, e: Endian) -> (r: u64)
    requires
        w <= 8,
        off + w <= buf@.len(),
    ensures
        r as nat == uint_val(buf@.subrange(off as int, off + w), e),
        (r as nat) < pow256(w as nat),
{
    let ghost b = buf@.subrange(off as int, off + w);
    proof {
        lemma_pow256(w as nat);
    }
    let n: usize = buf.len();
    let mut acc: u64 = 0;
    match e {
        Endian::BigEndian => {
            let mut i: usize = 0;
            while i < w
                invariant
                    i <= w <= 8,
                    off + w <= buf@.len(),
                    n == buf@.len(),
                    b == buf@.subrange(off as int, off + w),
                    acc as nat == be_val(b.take(i as int)),
                decreases w - i,
            {
                proof {
                    lemma_be_bound(b.take(i as int + 1));
                    lemma_pow256(i as nat + 1);
                    lemma_pow256_mono(i as nat + 1, 8);
                    let t = b.take(i as int + 1);
                    assert(t.drop_last() =~= b.take(i as int));
                    assert(be_val(t) == acc * 256 + buf@[off + i]);
                }
                acc = acc * 256 + buf[off + i] as u64;
                i = i + 1;
            }
            assert(b.take(w as int) =~= b);
        },
        Endian::LittleEndian => {
            let mut i: usize = w;
            while i > 0
                invariant
                    i <= w <= 8,
                    off + w <= buf@.len(),
                    n == buf@.len(),
                    b == buf@.subrange(off as int, off + w),
                    acc as nat == le_val(b.skip(i as int)),
                decreases i,
            {
                proof {
                    lemma_le_bound(b.skip(i as int - 1));
                    lemma_pow256_mono((w - i + 1) as nat, 8);
                    lemma_pow256(8);
                    let t = b.skip(i as int - 1);
                    assert(t.drop_first() =~= b.skip(i as int));
                    assert(le_val(t) == buf@[off + i - 1] + 256 * acc);
                }
                acc = buf[off + i - 1] as u64 + 256 * acc;
                i = i - 1;
            }
            assert(b.skip(0) =~= b);
        },
    }
    proof {
        lemma_uint_bound(b, e);
    }
    acc
}

proof fn lemma_pow256_mono(a: nat, b: nat)
    requires
        a <= b,
    ensures
        pow256(a) <= pow256(b),
    decreases b,
{
    if a < b {
        lemma_pow256_mono(a, (b - 1) as nat);
        assert(pow256(b) == 256 * pow256((b - 1) as nat));
    }
}

fn push_le(out: &mut Vec<u8>, v: u64, w: usize)
    ensures
        final(out)@ == old(out)@ + le_bytes(v as nat, w as nat),
    decreases w,
{
    if w > 0 {
        out.push((v % 256) as u8);
        push_le(out, v / 256, w - 1);
        assert(final(out)@ =~= old(out)@ + le_bytes(v as nat, w as nat));
    } else {
        assert(out@ =~= old(out)@ + le_bytes(v as nat, w as nat));
    }
}

fn push_be(out: &mut Vec<u8>, v: u64, w: usize)
    ensures
        final(out)@ == old(out)@ + be_bytes(v as nat, w as nat),
    decreases w,
{
    if w > 0 {
        push_be(out, v / 256, w - 1);
        out.push((v % 256) as u8);
        assert(final(out)@ =~= old(out)@ + be_bytes(v as nat, w as nat));
    } else {
        assert(out@ =~= old(out)@ + be_bytes(v as nat, w as nat));
    }
}

/// Appends the `w`-byte encoding of `v` in byte order `e`.
pub fn write_uint(out: &mut Vec<u8>, v: u64, w: usize, e: Endian)
    ensures
        final(out)@ == old(out)@ + uint_bytes(v as nat, w as nat, e),
{
    match e {
        Endian::LittleEndian => push_le(out, v, w),
        Endian::BigEndian => push_be(out, v, w),
    }
}

/// Sum of the widths.
pub open spec fn total(ws: Seq<usize>) -> nat
    decreases ws.len(),
{
    if ws.len() == 0 {
        0
    } else {
        total(ws.drop_last()) + ws.last() as nat
    }
}

/// Whether every width of `ws` is a scalar width.
pub open spec fn is_layout(ws: Seq<usize>) -> bool {
    forall|i: int| 0 <= i < ws.len() ==> is_width(#[trigger] ws[i] as nat)
}

/// The fields of layout `ws` decoded from the start of `b`.
pub open spec fn fields_val(b: Seq<u8>, ws: Seq<usize>, e: Endian) -> Seq<u64>
    decreases ws.len(),
{
    if ws.len() == 0 {
        Seq::empty()
    } else {
        let p = ws.drop_last();
        fields_val(b, p, e).push(
            uint_val(b.subrange(total(p) as int, total(p) + ws.last()), e) as u64,
        )
    }
}

/// The encoding of `vs` under layout `ws`.
pub open spec fn fields_bytes(vs: Seq<u64>, ws: Seq<usize>, e: Endian) -> Seq<u8>
    decreases ws.len(),
{
    if ws.len() == 0 || vs.len() == 0 {
        Seq::empty()
    } else {
        fields_bytes(vs.drop_last(), ws.drop_last(), e) + uint_bytes(
            vs.last() as nat,
            ws.last() as nat,
            e,
        )
    }
}

/// Whether each value fits the width of its field.
pub open spec fn fits(vs: Seq<u64>, ws: Seq<usize>) -> bool {
    &&& vs.len() == ws.len()
    &&& forall|i: int| 0 <= i < vs.len() ==> (#[trigger] vs[i]) < pow256(ws[i] as nat)
}

proof fn lemma_total_prefix(ws: Seq<usize>, i: int)
    requires
        0 <= i <= ws.len(),
    ensures
        total(ws.take(i)) <= total(ws),
    decreases ws.len(),
{
    if i < ws.len() {
        assert(ws.drop_last().take(i) =~= ws.take(i));
        lemma_total_prefix(ws.drop_last(), i);
    } else {
        assert(ws.take(i) =~= ws);
    }
}

proof fn lemma_fields_extend(b: Seq<u8>, c: Seq<u8>, ws: Seq<usize>, e: Endian)
    requires
        total(ws) <= b.len(),
    ensures
        fields_val(b + c, ws, e) == fields_val(b, ws, e),
    decreases ws.len(),
{
    if ws.len() > 0 {
        let p = ws.drop_last();
        lemma_fields_extend(b, c, p, e);
        assert((b + c).subrange(total(p) as int, total(p) + ws.last()) =~= b.subrange(
            total(p) as int,
            total(p) + ws.last(),
        ));
    }
}

/// Decoding an encoded record gives every field back, in either byte order,
/// for any record layout.
pub proof fn lemma_fields_round_trip(vs: Seq<u64>, ws: Seq<usize>, e: Endian)
    requires
        fits(vs, ws),
    ensures
        fields_bytes(vs, ws, e).len() == total(ws),
        fields_val(fields_bytes(vs, ws, e), ws, e) == vs,
    decreases ws.len(),
{
    if ws.len() > 0 {
        let p = ws.drop_last();
        let pv = vs.drop_last();
        assert(fits(pv, p)) by {
            assert forall|i: int| 0 <= i < pv.len() implies (#[trigger] pv[i]) < pow256(
                p[i] as nat,
            ) by {
                assert(vs[i] < pow256(ws[i] as nat));
            }
        }
        lemma_fields_round_trip(pv, p, e);
        assert(vs[vs.len() - 1] < pow256(ws[ws.len() - 1] as nat));
        lemma_uint_round_trip(vs.last() as nat, ws.last() as nat, e);
        let a = fields_bytes(pv, p, e);
        let l = uint_bytes(vs.last() as nat, ws.last() as nat, e);
        lemma_fields_extend(a, l, p, e);
        assert((a + l).subrange(total(p) as int, total(p) + ws.last()) =~= l);
        assert(fields_val(a + l, ws, e) =~= vs);
    }
}

/// Encoding the decoded fields of a record gives its bytes back, in either
/// byte order, for any record layout.
pub proof fn lemma_fields_inverse(b: Seq<u8>, ws: Seq<usize>, e: Endian)
    requires
        is_layout(ws),
        b.len() == total(ws),
    ensures
        fields_bytes(fields_val(b, ws, e), ws, e) == b,
    decreases ws.len(),
{
    if ws.len() > 0 {
        let p = ws.drop_last();
        let n = total(p);
        let a = b.take(n as int);
        assert(is_layout(p)) by {
            assert forall|i: int| 0 <= i < p.len() implies is_width(#[trigger] p[i] as nat) by {
                assert(p[i] == ws[i]);
            }
        }
        lemma_fields_inverse(a, p, e);
        lemma_fields_extend(a, b.skip(n as int), p, e);
        assert(a + b.skip(n as int) =~= b);
        let last = b.subrange(n as int, n + ws.last());
        lemma_uint_bound(last, e);
        lemma_pow256(ws.last() as nat);
        assert(is_width(ws[ws.len() - 1] as nat));
        lemma_uint_inverse(last, e);
        let vs = fields_val(b, ws, e);
        assert(vs.drop_last() == fields_val(b, p, e));
        assert(vs.last() as nat == uint_val(last, e));
        assert(b.skip(n as int) =~= last);
        assert(fields_bytes(vs, ws, e) =~= b);
    }
}

/// Each decoded field is below the bound of its width.
pub proof fn lemma_fields_bound(b: Seq<u8>, ws: Seq<usize>, e: Endian)
    requires
        is_layout(ws),
        total(ws) <= b.len(),
    ensures
        fields_val(b, ws, e).len() == ws.len(),
        forall|i: int| 0 <= i < ws.len() ==> (#[trigger] fields_val(b, ws, e)[i] as nat) < pow256(ws[i] as nat),
    decreases ws.len(),
{
    if ws.len() > 0 {
        let p = ws.drop_last();
        assert(is_layout(p)) by {
            assert forall|i: int| 0 <= i < p.len() implies is_width(#[trigger] p[i] as nat) by {
                assert(p[i] == ws[i]);
            }
        }
        lemma_fields_bound(b, p, e);
        let w = ws.last();
        assert(is_width(ws[ws.len() - 1] as nat));
        let last = b.subrange(total(p) as int, total(p) + w);
        lemma_uint_bound(last, e);
        lemma_pow256(w as nat);
        let fv = fields_val(b, ws, e);
        assert forall|i: int| 0 <= i < ws.len() implies (#[trigger] fv[i] as nat) < pow256(ws[i] as nat) by {
            if i < p.len() {
                assert(fv[i] == fields_val(b, p, e)[i]);
                assert(ws[i] == p[i]);
            }
        }
    }
}

/// The encoding of a record has the length of its layout, whatever the
/// values.
pub proof fn lemma_fields_len(vs: Seq<u64>, ws: Seq<usize>, e: Endian)
    requires
        vs.len() == ws.len(),
    ensures
        fields_bytes(vs, ws, e).len() == total(ws),
    decreases ws.len(),
{
    if ws.len() > 0 {
        lemma_fields_len(vs.drop_last(), ws.drop_last(), e);
        lemma_uint_bytes_len(vs.last() as nat, ws.last() as nat, e);
    }
}

proof fn lemma_uint_bytes_len(v: nat, w: nat, e: Endian)
    ensures
        uint_bytes(v, w, e).len() == w,
    decreases w,
{
    if w > 0 {
        lemma_uint_bytes_len(v / 256, (w - 1) as nat, e);
        lemma_uint_bytes_len(v / 256, (w - 1) as nat, Endian::LittleEndian);
        lemma_uint_bytes_len(v / 256, (w - 1) as nat, Endian::BigEndian);
    }
}

/// Decodes the record of layout `ws` that starts at `off` of `buf`.
pub fn read_fields(buf: &[u8], off: usize, ws: &[usize], e: Endian) -> (r: Vec<u64>)
    requires
        is_layout(ws@),
        off + total(ws@) <= buf@.len(),
    ensures
        r@ == fields_val(buf@.subrange(off as int, off + total(ws@)), ws@, e),
        r@.len() == ws@.len(),
        forall|i: int| 0 <= i < ws@.len() ==> (#[trigger] r@[i] as nat) < pow256(ws@[i] as nat),
{
    let ghost b = buf@.subrange(off as int, off + total(ws@));
    let mut r: Vec<u64> = Vec::new();
    let n: usize = buf.len();
    let mut pos: usize = off;
    let mut i: usize = 0;
    while i < ws.len()
        invariant
            i <= ws@.len(),
            is_layout(ws@),
            off + total(ws@) <= buf@.len(),
            n == buf@.len(),
            b == buf@.subrange(off as int, off + total(ws@)),
            pos == off + total(ws@.take(i as int)),
            r@ == fields_val(b, ws@.take(i as int), e),
            r@.len() == i,
            forall|j: int| 0 <= j < i ==> (#[trigger] r@[j] as nat) < pow256(ws@[j] as nat),
        decreases ws@.len() - i,
    {
        let ghost t = ws@.take(i as int + 1);
        proof {
            assert(t.drop_last() =~= ws@.take(i as int));
            assert(t.last() == ws@[i as int]);
            lemma_total_prefix(ws@, i as int + 1);
            assert(is_width(ws@[i as int] as nat));
        }
        let w = ws[i];
        let v = read_uint(buf, pos, w, e);
        proof {
            assert(buf@.subrange(pos as int, pos + w) =~= b.subrange(
                total(ws@.take(i as int)) as int,
                total(ws@.take(i as int)) + w,
            ));
        }
        r.push(v);
        pos = pos + w;
        i = i + 1;
    }
    assert(ws@.take(i as int) =~= ws@);
    r
}

/// Appends the encoding of `vs` under layout `ws`.
pub fn write_fields(out: &mut Vec<u8>, vs: &[u64], ws: &[usize], e: Endian)
    requires
        vs@.len() == ws@.len(),
    ensures
        final(out)@ == old(out)@ + fields_bytes(vs@, ws@, e),
{
    let ghost start = out@;
    let mut i: usize = 0;
    while i < ws.len()
        invariant
            i <= ws@.len(),
            vs@.len() == ws@.len(),
            out@ == start + fields_bytes(vs@.take(i as int), ws@.take(i as int), e),
        decreases ws@.len() - i,
    {
        proof {
            let tw = ws@.take(i as int + 1);
            let tv = vs@.take(i as int + 1);
            assert(tw.drop_last() =~= ws@.take(i as int));
            assert(tv.drop_last() =~= vs@.take(i as int));
        }
        write_uint(out, vs[i], ws[i], e);
        i = i + 1;
        assert(out@ =~= start + fields_bytes(vs@.take(i as int), ws@.take(i as int), e));
    }
    assert(ws@.take(i as int) =~= ws@);
    assert(vs@.take(i as int) =~= vs@);
}

} // verus!
