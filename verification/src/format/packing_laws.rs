//! Where filters that move bytes and bits put them.

use vstd::prelude::*;

use crate::format::bits::{bits, lemma_pow2_sum, number, pow2};
use crate::format::filters::{filter_back, FilterView};
use crate::format::fletcher::{fletcher32_sum, fold16, total, total_of_totals, words};
use crate::format::nbit::{byte_with, element_bit, nbit_decoded, unpacked_byte, Packing};
use crate::format::scaleoffset::{
    cells, fill_number, header_minbits, header_minval, restored, settings, stored, unscaled,
    UnscaledView,
};
use crate::format::shuffle::{shuffled, unshuffled};
use crate::format::{
    law_le_round_trip, le, le_at, le_bytes, lemma_le_bytes_len, lemma_pow256,
};

verus! {

// The N-bit filter.

/// The number with the bits `f(0)` on, lowest first.
spec fn bit_sum(f: spec_fn(int) -> bool, n: nat) -> nat
    decreases n,
{
    if n == 0 {
        0
    } else {
        bit_sum(f, (n - 1) as nat) + (if f(n - 1) {
            pow2((n - 1) as nat)
        } else {
            0
        })
    }
}

spec fn shifted(f: spec_fn(int) -> bool, k: int) -> spec_fn(int) -> bool {
    |p: int| f(p + k)
}

proof fn lemma_sum_split(f: spec_fn(int) -> bool, k: nat, m: nat)
    ensures
        bit_sum(f, k + m) == bit_sum(f, k) + pow2(k) * bit_sum(shifted(f, k as int), m),
    decreases m,
{
    let g = shifted(f, k as int);
    if m == 0 {
        assert(pow2(k) * 0 == 0) by (nonlinear_arith);
    } else {
        let l = (m - 1) as nat;
        lemma_sum_split(f, k, l);
        lemma_pow2_sum(k, l);
        assert(g(l as int) == f((k + l) as int));
        let (a, b, c) = (pow2(k) as int, bit_sum(g, l) as int, pow2(l) as int);
        assert(a * (b + c) == a * b + a * c) by (nonlinear_arith);
        assert(bit_sum(f, k + m) == bit_sum(f, k + l) + (if f((k + l) as int) {
            pow2(k + l)
        } else {
            0
        }));
    }
}

proof fn lemma_sum_same(f: spec_fn(int) -> bool, g: spec_fn(int) -> bool, n: nat)
    requires
        forall|p: int| 0 <= p < n ==> #[trigger] f(p) == g(p),
    ensures
        bit_sum(f, n) == bit_sum(g, n),
    decreases n,
{
    if n > 0 {
        lemma_sum_same(f, g, (n - 1) as nat);
        assert(f(n - 1) == g(n - 1));
    }
}

proof fn lemma_sum_none(f: spec_fn(int) -> bool, n: nat)
    requires
        forall|p: int| 0 <= p < n ==> !#[trigger] f(p),
    ensures
        bit_sum(f, n) == 0,
    decreases n,
{
    if n > 0 {
        lemma_sum_none(f, (n - 1) as nat);
        assert(!f(n - 1));
    }
}

proof fn lemma_sum_byte(f: spec_fn(int) -> bool)
    ensures
        bit_sum(f, 8) == byte_with(f),
        pow2(8) == 256,
{
    reveal_with_fuel(bit_sum, 9);
    reveal_with_fuel(pow2, 9);
}

/// The bytes with the bits `f(0)` on.
spec fn bytes_with(f: spec_fn(int) -> bool, n: nat) -> Seq<u8> {
    Seq::new(n, |i: int| byte_with(|b: int| f(8 * i + b)))
}

proof fn lemma_bytes_sum(f: spec_fn(int) -> bool, n: nat)
    ensures
        le(bytes_with(f, n)) == bit_sum(f, 8 * n),
    decreases n,
{
    let s = bytes_with(f, n);
    if n > 0 {
        let g = shifted(f, 8);
        let m = (n - 1) as nat;
        lemma_bytes_sum(g, m);
        let first = |b: int| f(8 * 0 + b);
        assert(s[0] == byte_with(first));
        lemma_sum_byte(first);
        lemma_sum_same(first, f, 8);
        assert(s.skip(1) =~= bytes_with(g, m)) by {
            assert forall|i: int| 0 <= i < m implies s.skip(1)[i] == bytes_with(g, m)[i] by {
                let x = |b: int| f(8 * (i + 1) + b);
                let y = |b: int| g(8 * i + b);
                assert(s[i + 1] == byte_with(x));
                assert(forall|b: int| #[trigger] x(b) == y(b));
                assert(byte_with(x) == byte_with(y));
            }
        }
        lemma_sum_split(f, 8, 8 * m);
        assert(8 + 8 * m == 8 * n);
    }
}

proof fn lemma_number_sum(bs: Seq<bool>, f: spec_fn(int) -> bool)
    requires
        forall|q: int| 0 <= q < bs.len() ==> #[trigger] f(q) == bs[bs.len() - 1 - q],
    ensures
        bit_sum(f, bs.len()) == number(bs),
    decreases bs.len(),
{
    if bs.len() > 0 {
        let init = bs.drop_last();
        let g = shifted(f, 1);
        assert forall|q: int| 0 <= q < init.len() implies #[trigger] g(q) == init[init.len() - 1
            - q] by {
            assert(f(q + 1) == bs[bs.len() - 1 - (q + 1)]);
        }
        lemma_number_sum(init, g);
        lemma_sum_split(f, 1, init.len());
        reveal_with_fuel(bit_sum, 2);
        reveal_with_fuel(pow2, 2);
        assert(f(0) == bs[bs.len() - 1]);
        assert(1 + init.len() == bs.len());
    }
}

/// Whether client data tell of packed elements of `size` bytes that keep `precision` bits
/// from the bit `offset` on.
pub open spec fn packs(cdata: Seq<u32>, n: nat, size: nat, precision: nat, offset: nat) -> bool {
    &&& cdata.len() >= 8
    &&& cdata[1] == 0
    &&& cdata[2] == n
    &&& cdata[3] == 1
    &&& cdata[4] == size
    &&& cdata[5] == 0
    &&& cdata[6] == precision
    &&& cdata[7] == offset
    &&& precision > 0
    &&& precision + offset <= 8 * size
}

/// The number of each unpacked element is the one in its packed bits, moved up to where
/// the bits belong. The bits of the elements follow each other, highest first.
pub proof fn law_nbit_value(
    cdata: Seq<u32>,
    data: Seq<u8>,
    n: nat,
    size: nat,
    precision: nat,
    offset: nat,
    e: nat,
)
    requires
        packs(cdata, n, size, precision, offset),
        n * precision <= 8 * data.len(),
        e < n,
    ensures
        nbit_decoded(cdata, data) is Ok,
        nbit_decoded(cdata, data)->Ok_0.len() == n * size,
        le(
            nbit_decoded(cdata, data)->Ok_0.subrange(
                (e * size) as int,
                (e * size + size) as int,
            ),
        ) == pow2(offset) * number(
            bits(data).subrange((e * precision) as int, (e * precision + precision) as int),
        ),
{
    let k = Packing {
        nelmts: n as int,
        size: size as int,
        precision: precision as int,
        offset: offset as int,
    };
    let packed = bits(data);
    let out = nbit_decoded(cdata, data)->Ok_0;
    assert(e * size + size <= n * size && 0 <= e * size) by (nonlinear_arith)
        requires
            e + 1 <= n,
    ;
    assert(e * precision + precision <= n * precision && 0 <= e * precision) by (nonlinear_arith)
        requires
            e + 1 <= n,
    ;
    let f = |p: int| element_bit(packed, k, e as int, p);
    let cell = out.subrange((e * size) as int, (e * size + size) as int);
    assert(cell =~= bytes_with(f, size)) by {
        assert forall|i: int| 0 <= i < size implies cell[i] == bytes_with(f, size)[i] by {
            let at = e * size + i;
            assert(at / size as int == e && at % size as int == i) by (nonlinear_arith)
                requires
                    at == e * size + i,
                    0 <= i < size,
            ;
            assert(out[at] == unpacked_byte(packed, k, at));
            let x = |b: int| element_bit(packed, k, at / k.size, 8 * (at % k.size) + b);
            let y = |b: int| f(8 * i + b);
            assert(forall|b: int| #[trigger] x(b) == y(b));
            assert(byte_with(x) == byte_with(y));
        }
    }
    lemma_bytes_sum(f, size);
    let bs = packed.subrange((e * precision) as int, (e * precision + precision) as int);
    let g = shifted(f, offset as int);
    let m = (8 * size - offset) as nat;
    lemma_sum_split(f, offset, m);
    lemma_sum_none(f, offset);
    let l = (m - precision) as nat;
    lemma_sum_split(g, precision, l);
    let far = shifted(g, precision as int);
    lemma_sum_none(far, l);
    assert(pow2(precision) * 0 == 0) by (nonlinear_arith);
    assert forall|q: int| 0 <= q < bs.len() implies #[trigger] g(q) == bs[bs.len() - 1 - q] by {
        assert(bs[bs.len() - 1 - q] == packed[e * precision + (precision - 1 - q)]);
    }
    lemma_number_sum(bs, g);
}

// Shuffling.

proof fn lemma_source(n: int, w: int, i: int, j: int)
    requires
        0 <= i < n,
        0 <= j < w,
    ensures
        0 <= j * n + i < n * w,
        (j * n + i) / n == j,
        (j * n + i) % n == i,
{
    assert(0 <= j * n + i < n * w && (j * n + i) / n == j && (j * n + i) % n == i)
        by (nonlinear_arith)
        requires
            0 <= i < n,
            0 <= j < w,
    ;
}

/// Shuffling puts the byte `j` of each of the elements together: that of the element `i`
/// at the place `i` among the bytes `j`. What does not fill an element stays.
pub proof fn law_shuffled_bytes(es: int, d: Seq<u8>, i: int, j: int)
    requires
        es > 0,
        0 <= i < d.len() as int / es,
        0 <= j < es,
    ensures
        ({
            let n = d.len() as int / es;
            &&& shuffled(es, d).len() == d.len()
            &&& shuffled(es, d)[j * n + i] == d[i * es + j]
            &&& unshuffled(es, d)[i * es + j] == d[j * n + i]
            &&& forall|k: int| n * es <= k < d.len() ==> #[trigger] shuffled(es, d)[k] == d[k]
            &&& forall|k: int| n * es <= k < d.len() ==> #[trigger] unshuffled(es, d)[k] == d[k]
        }),
{
    let n = d.len() as int / es;
    assert(n * es <= d.len()) by (nonlinear_arith)
        requires
            n == d.len() as int / es,
            es > 0,
    ;
    lemma_source(n, es, i, j);
    lemma_source(es, n, j, i);
    assert(es * n == n * es) by (nonlinear_arith);
}

// Scaled and offset chunks.

proof fn lemma_cells_at(vals: Seq<nat>, size: nat, e: int)
    requires
        0 <= e < vals.len(),
    ensures
        cells(vals, size).len() == vals.len() * size,
        0 <= e * size && (e + 1) * size <= vals.len() * size,
        cells(vals, size).subrange((e * size) as int, ((e + 1) * size) as int) == le_bytes(
            vals[e],
            size,
        ),
    decreases vals.len(),
{
    let last = vals.len() - 1;
    let head = vals.drop_last();
    lemma_cells_len(head, size);
    lemma_le_bytes_len(vals.last(), size);
    let all = cells(vals, size);
    let (n, w) = (vals.len() as int, size as int);
    assert((n - 1) * w + w == n * w) by (nonlinear_arith);
    assert(0 <= e * w && (e + 1) * w == e * w + w && (e + 1) * w <= n * w) by (nonlinear_arith)
        requires
            0 <= e,
            e + 1 <= n,
            w >= 0,
    ;
    if e == last {
        assert(all.subrange(e * w, (e + 1) * w) =~= le_bytes(vals[e], size));
    } else {
        lemma_cells_at(head, size, e);
        assert((e + 1) * w <= (n - 1) * w) by (nonlinear_arith)
            requires
                e + 1 <= n - 1,
                w >= 0,
        ;
        assert(all.subrange(e * w, (e + 1) * w) =~= cells(head, size).subrange(
            e * w,
            (e + 1) * w,
        ));
    }
}

proof fn lemma_cells_len(vals: Seq<nat>, size: nat)
    ensures
        cells(vals, size).len() == vals.len() * size,
    decreases vals.len(),
{
    if vals.len() > 0 {
        lemma_cells_len(vals.drop_last(), size);
        lemma_le_bytes_len(vals.last(), size);
        let (n, w) = (vals.len() as int, size as int);
        assert((n - 1) * w + w == n * w) by (nonlinear_arith);
    } else {
        assert(0 * size == 0) by (nonlinear_arith);
    }
}

/// A chunk of integers gives the number of bits of each in its first four bytes, the width
/// of the smallest in the next and that in those behind it; the numbers follow from the byte
/// 21 on. Each element is the sum of the smallest and its number, but all bits set stand for
/// the fill value, where there is one, and numbers with all the bits of the type for
/// themselves.
pub proof fn law_scaled_element(cdata: Seq<u32>, data: Seq<u8>, e: int)
    requires
        unscaled(cdata, data) is Ok,
        cdata[3] == 0,
        data[4] <= 8,
        0 <= e < cdata[2],
    ensures
        ({
            let m = le_at(data, 0, 4);
            let w = cdata[4] as int;
            let raw = number(bits(data.skip(21)).subrange(e * m, (e + 1) * m));
            let low = le_at(data, 5, data[4] as int);
            let v = if m == 8 * w {
                raw
            } else if cdata[7] == 1 && raw + 1 == pow2(m) {
                fill_number(cdata, w as nat)
            } else {
                low + raw
            };
            unscaled(cdata, data) matches Ok(UnscaledView::Bytes(out)) && out.len() == cdata[2] * w
                && out.subrange(e * w, (e + 1) * w) == le_bytes(v, w as nat)
        }),
{
    let s = settings(cdata);
    let m = header_minbits(data);
    let raws = stored(bits(data.skip(21)), m, s.nelmts as nat);
    let vals = raws.map_values(|raw: nat| restored(s, m as nat, header_minval(data), raw));
    lemma_cells_at(vals, s.size as nat, e);
    assert(vals[e] == restored(s, m as nat, header_minval(data), raws[e]));
}

// Fletcher's checksum.

/// The low half of the checksum: the sum of the words.
pub open spec fn low_sum(d: Seq<u8>) -> nat {
    fletcher32_sum(d) % 65536
}

/// The high half of the checksum: the sum of the sums.
pub open spec fn high_sum(d: Seq<u8>) -> nat {
    fletcher32_sum(d) / 65536
}

proof fn lemma_halves(d: Seq<u8>)
    ensures
        low_sum(d) == fold16(total(words(d))),
        high_sum(d) == fold16(total_of_totals(words(d))),
        low_sum(d) <= 65535,
        high_sum(d) <= 65535,
{
    lemma_fold(total(words(d)));
    lemma_fold(total_of_totals(words(d)));
}

proof fn lemma_fold(t: nat)
    ensures
        fold16(t) % 65535 == t % 65535,
        fold16(t) <= 65535,
        fold16(t) == 0 <==> t == 0,
{
    if t > 0 {
        let f = (t - 1) % 65535 + 1;
        vstd::arithmetic::div_mod::lemma_mod_multiples_vanish((t - 1) / 65535, f, 65535);
        assert(65535 * ((t - 1) / 65535) + f == t);
    }
}

proof fn lemma_fold_sum(a: nat, b: nat)
    ensures
        fold16(a + b) % 65535 == (fold16(a) + b) % 65535,
        fold16(a + b) % 65535 == (fold16(a) + fold16(b)) % 65535,
{
    lemma_fold(a);
    lemma_fold(b);
    lemma_fold(a + b);
    vstd::arithmetic::div_mod::lemma_add_mod_noop(a as int, b as int, 65535);
    vstd::arithmetic::div_mod::lemma_add_mod_noop(fold16(a) as int, b as int, 65535);
    vstd::arithmetic::div_mod::lemma_add_mod_noop(fold16(a) as int, fold16(b) as int, 65535);
}

proof fn lemma_words_step(d: Seq<u8>, hi: u8, lo: u8)
    requires
        d.len() % 2 == 0,
    ensures
        words(d + seq![hi, lo]) == words(d).push((256 * hi + lo) as nat),
{
    let e = d + seq![hi, lo];
    let w = words(d).push((256 * hi + lo) as nat);
    assert(words(e).len() == w.len());
    assert forall|i: int| 0 <= i < w.len() implies words(e)[i] == w[i] by {
        if i < words(d).len() {
            assert(e[2 * i] == d[2 * i]);
            assert(e[2 * i + 1] == d[2 * i + 1]);
        } else {
            assert(2 * i == d.len());
            assert(e[2 * i] == hi && e[2 * i + 1] == lo);
        }
    }
    assert(words(e) =~= w);
}

/// Each further word of two bytes, the first of them the higher one, is added to the sum of
/// the words, and that to the sum of the sums, both modulo 65535. The sums of no words are
/// zero, and no sum of others is, unless all of them are.
pub proof fn law_fletcher_step(d: Seq<u8>, hi: u8, lo: u8)
    requires
        d.len() % 2 == 0,
    ensures
        low_sum(d + seq![hi, lo]) % 65535 == (low_sum(d) + 256 * hi + lo) % 65535,
        high_sum(d + seq![hi, lo]) % 65535 == (high_sum(d) + low_sum(d + seq![hi, lo])) % 65535,
        low_sum(d + seq![hi, lo]) == 0 <==> low_sum(d) == 0 && hi == 0 && lo == 0,
        low_sum(Seq::empty()) == 0 && high_sum(Seq::empty()) == 0,
        low_sum(d + seq![hi, lo]) <= 65535,
        high_sum(d + seq![hi, lo]) <= 65535,
{
    let e = d + seq![hi, lo];
    let w = (256 * hi + lo) as nat;
    lemma_halves(d);
    lemma_halves(e);
    lemma_halves(Seq::empty());
    assert(words(Seq::<u8>::empty()) =~= Seq::<nat>::empty());
    lemma_words_step(d, hi, lo);
    assert(words(d).push(w).drop_last() =~= words(d));
    let (t, u) = (total(words(d)), total_of_totals(words(d)));
    lemma_fold_sum(t, w);
    lemma_fold_sum(u, t + w);
    lemma_fold(t);
    lemma_fold(t + w);
}

/// An odd last byte counts as the higher byte of a word.
pub proof fn law_fletcher_odd(d: Seq<u8>, hi: u8)
    requires
        d.len() % 2 == 0,
    ensures
        fletcher32_sum(d + seq![hi]) == fletcher32_sum(d + seq![hi, 0u8]),
{
    let (a, b) = (d + seq![hi], d + seq![hi, 0u8]);
    assert(words(a) =~= words(b)) by {
        assert forall|i: int| 0 <= i < words(a).len() implies words(a)[i] == words(b)[i] by {
            if 2 * i + 1 < d.len() {
                assert(a[2 * i] == b[2 * i] && a[2 * i + 1] == b[2 * i + 1]);
            }
        }
    }
}

/// The checksum stands behind the data, lowest byte first: data with any other number there
/// are refused, and else come back without it.
pub proof fn law_fletcher_checked(cdata: Seq<u32>, name: Seq<char>, size: nat, d: Seq<u8>, v: u32)
    ensures
        ({
            let f = FilterView { id: 3, cdata, name };
            let r = filter_back(f, size, d + le_bytes(v as nat, 4));
            &&& r is Ok <==> v == fletcher32_sum(d)
            &&& r matches Ok(u) ==> u == UnscaledView::Bytes(d)
        }),
{
    lemma_pow256();
    law_le_round_trip(v as nat, 4);
    lemma_le_bytes_len(v as nat, 4);
    let s = d + le_bytes(v as nat, 4);
    let n = d.len() as int;
    assert(s.subrange(n, n + 4) =~= le_bytes(v as nat, 4));
    assert(s.take(n) =~= d);
}

/// Elements are shuffled by the size that the filter gives, or by their own where it gives
/// none.
pub proof fn law_shuffle_reversed(words: Seq<u32>, name: Seq<char>, size: nat, d: Seq<u8>)
    ensures
        ({
            let r = filter_back(FilterView { id: 2, cdata: words, name }, size, d);
            &&& words.len() == 0 && size > 0 ==> r == Ok::<UnscaledView, Seq<char>>(
                UnscaledView::Bytes(unshuffled(size as int, d)),
            )
            &&& words.len() > 0 && words[0] > 0 ==> r == Ok::<UnscaledView, Seq<char>>(
                UnscaledView::Bytes(unshuffled(words[0] as int, d)),
            )
        }),
{
}

} // verus!
