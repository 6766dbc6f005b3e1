//! What numbers are read as: their byte order, their signs and their ranges.

use vstd::prelude::*;

use crate::format::bits::{lemma_pow2_monotone, lemma_pow2_positive, pow2};
use crate::format::convert::{
    converted, numeric, overlaid, Direction, NumericType, SinkView,
};
use crate::format::datatype::OrderView;
use crate::format::elements::{extended, lemma_pow256_pow2, sign_extended};
use crate::format::order::{lemma_cells_len, ordered_cells, ordered_element, ordered_parts};
use crate::format::{
    law_le_round_trip, le, le_at, le_bytes, lemma_le_bound, lemma_le_bytes_len, lemma_pow256,
    pow256,
};
use crate::types::TypeView;

verus! {

// Byte order.

/// The number that the bytes `s` denote, most significant byte first.
pub open spec fn be(s: Seq<u8>) -> nat
    decreases s.len(),
{
    if s.len() == 0 {
        0
    } else {
        256 * be(s.drop_last()) + s.last() as nat
    }
}

proof fn lemma_reversed(s: Seq<u8>)
    ensures
        le(s.reverse()) == be(s),
    decreases s.len(),
{
    if s.len() > 0 {
        lemma_reversed(s.drop_last());
        assert(s.reverse().skip(1) =~= s.drop_last().reverse());
    }
}

/// A big-endian scalar keeps its number: the bytes that denote it most significant byte
/// first denote it least significant byte first once they were turned around. What stands
/// behind the scalar stays.
pub proof fn law_big_endian_number(w: nat, elem: Seq<u8>, store: Seq<Seq<u8>>)
    requires
        w <= elem.len(),
    ensures
        ({
            let (r, after) = ordered_element(OrderView::SwapLeaf(w), elem, store);
            &&& r.len() == elem.len()
            &&& le(r.take(w as int)) == be(elem.take(w as int))
            &&& forall|i: int| 0 <= i < w ==> #[trigger] r[i] == elem[w - 1 - i]
            &&& forall|i: int| w <= i < elem.len() ==> #[trigger] r[i] == elem[i]
            &&& after == store
        }),
{
    let head = elem.take(w as int);
    let r = ordered_element(OrderView::SwapLeaf(w), elem, store).0;
    lemma_reversed(head);
    assert(r.take(w as int) =~= head.reverse());
}

/// Each big-endian scalar in cells of `stride` bytes keeps its number.
pub proof fn law_big_endian_cells(
    w: nat,
    stride: nat,
    n: nat,
    elem: Seq<u8>,
    store: Seq<Seq<u8>>,
    i: nat,
)
    requires
        0 < w <= stride,
        i < n,
        (i + 1) * stride <= elem.len(),
    ensures
        ({
            let (r, after) = ordered_cells(OrderView::SwapLeaf(w), stride, n, elem, store);
            let at = (i * stride) as int;
            &&& r.len() == elem.len()
            &&& le(r.subrange(at, at + w)) == be(elem.subrange(at, at + w))
            &&& forall|j: int| 0 <= j < w ==> #[trigger] r[at + j] == elem[at + (w - 1 - j)]
            &&& forall|j: int| w <= j < stride ==> #[trigger] r[at + j] == elem[at + j]
            &&& after == store
        }),
    decreases n,
{
    let order = OrderView::SwapLeaf(w);
    let (r, after) = ordered_cells(order, stride, n, elem, store);
    lemma_cells_len(order, stride, n, elem, store);
    assert((i + 1) * stride == i * stride + stride) by (nonlinear_arith);
    assert(i * stride >= 0) by (nonlinear_arith);
    let cell = elem.take(stride as int);
    law_big_endian_number(w, cell, store);
    let (c, mid) = ordered_element(order, cell, store);
    let tail = elem.skip(stride as int);
    let (rest, last) = ordered_cells(order, stride, (n - 1) as nat, tail, mid);
    lemma_cells_len(order, stride, (n - 1) as nat, tail, mid);
    lemma_store_kept(w, stride, (n - 1) as nat, tail, mid);
    let at = (i * stride) as int;
    if i == 0 {
        assert(0 * stride == 0) by (nonlinear_arith);
        assert forall|j: int| 0 <= j < stride implies #[trigger] r[at + j] == c[j] by {}
        assert(r.subrange(at, at + w) =~= c.take(w as int));
        assert(elem.subrange(at, at + w) =~= cell.take(w as int));
    } else {
        let k = (i - 1) as nat;
        assert((k + 1) * stride == i * stride) by (nonlinear_arith)
            requires
                k + 1 == i,
        ;
        assert(i * stride == k * stride + stride) by (nonlinear_arith)
            requires
                k + 1 == i,
        ;
        law_big_endian_cells(w, stride, (n - 1) as nat, tail, mid, k);
        let from = (k * stride) as int;
        assert forall|j: int| 0 <= j < stride implies #[trigger] r[at + j] == rest[from + j]
            && elem[at + j] == tail[from + j] by {}
        assert(r.subrange(at, at + w) =~= rest.subrange(from, from + w));
        assert(elem.subrange(at, at + w) =~= tail.subrange(from, from + w));
        assert forall|j: int| 0 <= j < w implies #[trigger] r[at + j] == elem[at + (w - 1 - j)] by {
            assert(rest[from + j] == tail[from + (w - 1 - j)]);
            assert(elem[at + (w - 1 - j)] == tail[from + (w - 1 - j)]);
        }
        assert forall|j: int| w <= j < stride implies #[trigger] r[at + j] == elem[at + j] by {
            assert(rest[from + j] == tail[from + j]);
        }
    }
}

proof fn lemma_store_kept(w: nat, stride: nat, n: nat, elem: Seq<u8>, store: Seq<Seq<u8>>)
    ensures
        ordered_cells(OrderView::SwapLeaf(w), stride, n, elem, store).1 == store,
    decreases n,
{
    if n > 0 && elem.len() >= stride {
        let after = ordered_element(OrderView::SwapLeaf(w), elem.take(stride as int), store).1;
        assert(after == store);
        lemma_store_kept(w, stride, (n - 1) as nat, elem.skip(stride as int), store);
    }
}

/// Whether the parts of a compound from the number `j` on are scalars within the element
/// that stand apart from each other.
pub open spec fn parts_apart(parts: Seq<(nat, OrderView)>, len: nat) -> bool {
    &&& forall|k: int|
        0 <= k < parts.len() ==> (#[trigger] parts[k]).1 is SwapLeaf && parts[k].1->SwapLeaf_0 > 0
            && parts[k].0 + parts[k].1->SwapLeaf_0 <= len
    &&& forall|k: int, m: int|
        0 <= k < m < parts.len() ==> (#[trigger] parts[k]).0 + parts[k].1->SwapLeaf_0 <= (
        #[trigger] parts[m]).0 || parts[m].0 + parts[m].1->SwapLeaf_0 <= parts[k].0
}

/// Whether a place lies in a part from the number `j` on.
pub open spec fn in_parts(parts: Seq<(nat, OrderView)>, j: int, p: int) -> bool {
    exists|k: int|
        j <= k < parts.len() && (#[trigger] parts[k]).0 <= p < parts[k].0
            + parts[k].1->SwapLeaf_0
}

/// Each big-endian scalar in a compound keeps its number, and what stands between them
/// stays.
pub proof fn law_big_endian_parts(
    parts: Seq<(nat, OrderView)>,
    j: int,
    elem: Seq<u8>,
    store: Seq<Seq<u8>>,
)
    requires
        0 <= j <= parts.len(),
        parts_apart(parts, elem.len()),
    ensures
        ({
            let (r, after) = ordered_parts(parts, j, elem, store);
            &&& r.len() == elem.len()
            &&& after == store
            &&& forall|k: int, q: int|
                #![trigger parts[k], r[parts[k].0 + q]]
                j <= k < parts.len() && 0 <= q < parts[k].1->SwapLeaf_0 ==> r[parts[k].0 + q]
                    == elem[parts[k].0 + (parts[k].1->SwapLeaf_0 - 1 - q)]
            &&& forall|p: int|
                0 <= p < elem.len() && !in_parts(parts, j, p) ==> #[trigger] r[p] == elem[p]
        }),
    decreases parts.len() - j,
{
    if j < parts.len() {
        let off = parts[j].0 as int;
        let w = parts[j].1->SwapLeaf_0;
        let tail = elem.skip(off);
        law_big_endian_number(w, tail, store);
        let (t, after) = ordered_element(parts[j].1, tail, store);
        let next = elem.take(off) + t;
        law_big_endian_parts(parts, j + 1, next, store);
        let r = ordered_parts(parts, j, elem, store).0;
        assert forall|p: int| 0 <= p < elem.len() && !(off <= p < off + w) implies next[p]
            == elem[p] by {
            if p >= off {
                assert(t[p - off] == tail[p - off]);
            }
        }
        assert forall|q: int| 0 <= q < w implies #[trigger] next[off + q] == elem[off + (w - 1
            - q)] by {
            assert(t[q] == tail[w - 1 - q]);
        }
        assert forall|k: int, q: int|
            #![trigger parts[k], r[parts[k].0 + q]]
            j <= k < parts.len() && 0 <= q < parts[k].1->SwapLeaf_0 implies r[parts[k].0 + q]
            == elem[parts[k].0 + (parts[k].1->SwapLeaf_0 - 1 - q)] by {
            let p = parts[k].0 + q;
            if k == j {
                assert(!in_parts(parts, j + 1, p)) by {
                    if in_parts(parts, j + 1, p) {
                        let m = choose|m: int|
                            j + 1 <= m < parts.len() && (#[trigger] parts[m]).0 <= p < parts[m].0
                                + parts[m].1->SwapLeaf_0;
                        assert(parts[j].0 + w <= parts[m].0 || parts[m].0
                            + parts[m].1->SwapLeaf_0 <= parts[j].0);
                    }
                }
                assert(r[p] == next[p]);
                assert(next[off + q] == elem[off + (w - 1 - q)]);
            } else {
                let other = parts[k].0 + (parts[k].1->SwapLeaf_0 - 1 - q);
                assert(parts[j].0 + w <= parts[k].0 || parts[k].0 + parts[k].1->SwapLeaf_0
                    <= parts[j].0);
                assert(next[other] == elem[other]);
            }
        }
        assert forall|p: int| 0 <= p < elem.len() && !in_parts(parts, j, p) implies #[trigger] r[p]
            == elem[p] by {
            assert(!(off <= p < off + w)) by {
                if off <= p < off + w {
                    assert(parts[j].0 <= p < parts[j].0 + parts[j].1->SwapLeaf_0);
                }
            }
            assert(!in_parts(parts, j + 1, p)) by {
                if in_parts(parts, j + 1, p) {
                    let m = choose|m: int|
                        j + 1 <= m < parts.len() && (#[trigger] parts[m]).0 <= p < parts[m].0
                            + parts[m].1->SwapLeaf_0;
                    assert(j <= m);
                }
            }
        }
    }
}

/// Each big-endian scalar in the payload that a slot refers to keeps its number; the slot
/// and the other payloads stay.
pub proof fn law_big_endian_payload(w: nat, elem: Seq<u8>, store: Seq<Seq<u8>>, i: nat)
    requires
        w > 0,
        elem.len() >= 8,
        1 <= le_at(elem, 4, 4) <= store.len(),
        (i + 1) * w <= store[le_at(elem, 4, 4) - 1].len(),
    ensures
        ({
            let k = le_at(elem, 4, 4) - 1;
            let order = OrderView::VarLen { base_stride: w, inner: Box::new(OrderView::SwapLeaf(w)) };
            let (r, after) = ordered_element(order, elem, store);
            let at = (i * w) as int;
            &&& r == elem
            &&& after.len() == store.len()
            &&& forall|m: int| 0 <= m < store.len() && m != k ==> #[trigger] after[m] == store[m]
            &&& after[k].len() == store[k].len()
            &&& le(after[k].subrange(at, at + w)) == be(store[k].subrange(at, at + w))
        }),
{
    let k = le_at(elem, 4, 4) - 1;
    let entry = store[k];
    let none = store.update(k, Seq::empty());
    assert((i + 1) * w >= i + 1) by (nonlinear_arith)
        requires
            w >= 1,
    ;
    law_big_endian_cells(w, w, entry.len(), entry, none, i);
}

// Signs.

/// The two's complement pattern of a number keeps its value when it is extended from `p`
/// bits to `size` bytes.
pub proof fn law_sign_kept(x: int, p: nat, size: nat)
    requires
        1 <= p <= 8 * size,
        -pow2((p - 1) as nat) <= x < pow2((p - 1) as nat),
    ensures
        extended((x % pow2(p) as int) as nat, p, size) == x % pow2(8 * size) as int,
{
    let h = pow2((p - 1) as nat) as int;
    let f = pow2(p) as int;
    let t = pow2(8 * size) as int;
    assert(f == 2 * h);
    lemma_pow2_positive((p - 1) as nat);
    lemma_pow2_monotone(p, 8 * size);
    if x >= 0 {
        assert(x % f == x) by (nonlinear_arith)
            requires
                0 <= x < f,
        ;
        assert(x % t == x) by (nonlinear_arith)
            requires
                0 <= x < t,
        ;
        assert(x / h == 0) by (nonlinear_arith)
            requires
                0 <= x < h,
        ;
    } else {
        let v = x + f;
        assert(x % f == v) by (nonlinear_arith)
            requires
                v == x + f,
                0 <= v < f,
        ;
        assert(x % t == x + t) by (nonlinear_arith)
            requires
                0 <= x + t < t,
        ;
        assert(v / h == 1) by (nonlinear_arith)
            requires
                h <= v < 2 * h,
        ;
        assert(v % f == v) by (nonlinear_arith)
            requires
                0 <= v < f,
        ;
    }
}

/// The elements of a dataset that were stored with `p` bits keep their values when their
/// signs are carried on.
pub proof fn law_signs_kept(bytes: Seq<u8>, size: nat, p: nat, n: nat, i: nat, x: int)
    requires
        1 <= p <= 8 * size,
        i < n,
        (i + 1) * size <= bytes.len(),
        -pow2((p - 1) as nat) <= x < pow2((p - 1) as nat),
        le_at(bytes, (i * size) as int, size as int) == x % pow2(p) as int,
    ensures
        sign_extended(bytes, size, p, n).len() == bytes.len(),
        le_at(sign_extended(bytes, size, p, n), (i * size) as int, size as int) == x % pow2(
            8 * size,
        ) as int,
    decreases n,
{
    let w = size as int;
    let r = sign_extended(bytes, size, p, n);
    let v = extended(le(bytes.take(w)), p, size);
    let tail = bytes.skip(w);
    let rest = sign_extended(tail, size, p, (n - 1) as nat);
    assert((i + 1) * size == i * size + size) by (nonlinear_arith);
    assert(i * size >= 0) by (nonlinear_arith);
    lemma_le_bytes_len(v, size);
    lemma_extended_len(tail, size, p, (n - 1) as nat);
    if i == 0 {
        assert(0 * size == 0) by (nonlinear_arith);
        assert(bytes.subrange(0, w) =~= bytes.take(w));
        law_sign_kept(x, p, size);
        lemma_pow256_pow2(size);
        lemma_pow2_positive(8 * size);
        assert(0 <= x % pow2(8 * size) as int && x % (pow2(8 * size) as int) < pow2(8 * size))
            by (nonlinear_arith)
            requires
                pow2(8 * size) > 0,
        ;
        law_le_round_trip(v, size);
        assert(r.subrange(0, w) =~= le_bytes(v, size));
    } else {
        let k = (i - 1) as nat;
        assert((k + 1) * size == i * size && k * size + size == i * size) by (nonlinear_arith)
            requires
                k + 1 == i,
        ;
        assert(tail.subrange((k * size) as int, k * size + w) =~= bytes.subrange(
            (i * size) as int,
            i * size + w,
        ));
        law_signs_kept(tail, size, p, (n - 1) as nat, k, x);
        assert(r.subrange((i * size) as int, i * size + w) =~= rest.subrange(
            (k * size) as int,
            k * size + w,
        ));
    }
}

proof fn lemma_extended_len(bytes: Seq<u8>, size: nat, p: nat, n: nat)
    ensures
        sign_extended(bytes, size, p, n).len() == bytes.len(),
    decreases n,
{
    if n > 0 && bytes.len() >= size {
        let v = extended(le(bytes.take(size as int)), p, size);
        lemma_le_bytes_len(v, size);
        lemma_extended_len(bytes.skip(size as int), size, p, (n - 1) as nat);
    }
}

// Ranges.

/// The distance of two numbers.
pub open spec fn distance(a: int, b: int) -> int {
    if a < b {
        b - a
    } else {
        a - b
    }
}

/// The patterns of an integer type stand for as many numbers: those without a sign for
/// the numbers from zero on, the others for as many negative numbers as for others. Each
/// pattern is that of its number, to the width of the type.
pub proof fn law_integer_range(t: NumericType, pattern: nat)
    requires
        !(t is Float),
        pattern < pow256(t.bytes()),
    ensures
        t.high() - t.low() + 1 == pow256(t.bytes()),
        t is Unsigned ==> t.low() == 0,
        t is Signed ==> t.low() == -t.high() - 1,
        t.low() <= t.value(pattern) <= t.high(),
        t.value(pattern) == pattern || t.value(pattern) == pattern - pow256(t.bytes()),
{
    lemma_pow256();
}

/// An integer is converted to the nearest one of the other type.
pub proof fn law_saturation_nearest(to: NumericType, v: int, other: int)
    requires
        !(to is Float),
        to.low() <= other <= to.high(),
    ensures
        to.saturated(v) < pow256(to.bytes()),
        to.low() <= to.value(to.saturated(v)) <= to.high(),
        distance(to.value(to.saturated(v)), v) <= distance(other, v),
{
    lemma_pow256();
}

/// The conversion of integers keeps their order.
pub proof fn law_saturation_monotone(to: NumericType, a: int, b: int)
    requires
        !(to is Float),
        a <= b,
    ensures
        to.value(to.saturated(a)) <= to.value(to.saturated(b)),
{
    lemma_pow256();
}

/// An element that is an integer is converted to an element of the other integer type
/// that stands for the nearest number.
pub proof fn law_integer_converted(
    dir: Direction,
    src: TypeView,
    dst: TypeView,
    s: Seq<u8>,
    d: Seq<u8>,
    store: Seq<Seq<u8>>,
    st: SinkView,
    block: nat,
    offset: nat,
    other: int,
)
    requires
        numeric(src) matches Some(a) && !(a is Float) && s.len() == a.bytes(),
        numeric(dst) matches Some(b) && !(b is Float) && d.len() == b.bytes() && b.low() <= other
            <= b.high(),
    ensures
        converted(dir, src, dst, s, d, store, st, block, offset) matches Ok((e, after)) && after
            == st && e.len() == d.len() && ({
            let v = numeric(src)->0.value(le(s));
            let r = numeric(dst)->0.value(le(e));
            distance(r, v) <= distance(other, v)
        }),
{
    let a = numeric(src)->0;
    let b = numeric(dst)->0;
    let v = a.value(le(s));
    lemma_le_bound(s);
    law_integer_range(a, le(s));
    if a == b {
        assert(overlaid(s, d) =~= s);
    } else {
        law_saturation_nearest(b, v, other);
        law_le_round_trip(b.saturated(v), b.bytes());
    }
}

} // verus!
