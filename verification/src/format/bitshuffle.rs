//! Bit transposition of element arrays.

use vstd::arithmetic::div_mod::{
    lemma_fundamental_div_mod, lemma_fundamental_div_mod_converse, lemma_mod_bound,
};
use vstd::prelude::*;

use crate::format::shuffle::{law_unshuffle_shuffle, shuffle, shuffled, unshuffle, unshuffled};
use crate::format::{
    law_le_bytes_of_le, law_le_round_trip, le, le_bytes, lemma_le_bound, lemma_le_bytes_len,
    lemma_pow256, uint_of,
};

verus! {

/// The transposition of an 8x8 bit matrix whose rows are the bytes of `x`.
pub open spec fn transposed(x: u64) -> u64 {
    let t = (x ^ (x >> 7)) & 0x00AA_00AA_00AA_00AAu64;
    let x1 = x ^ t ^ (t << 7);
    let u = (x1 ^ (x1 >> 14)) & 0x0000_CCCC_0000_CCCCu64;
    let x2 = x1 ^ u ^ (u << 14);
    let v = (x2 ^ (x2 >> 28)) & 0x0000_0000_F0F0_F0F0u64;
    x2 ^ v ^ (v << 28)
}

/// Bit `m` of byte `k` of the transposition is bit `k` of byte `m`.
pub proof fn law_transposed_bits(x: u64, k: u64, m: u64)
    requires
        k < 8,
        m < 8,
    ensures
        (transposed(x) >> ((8 * k + m) as u64)) & 1 == (x >> ((8 * m + k) as u64)) & 1,
{
    assert((transposed(x) >> ((8 * k + m) as u64)) & 1 == (x >> ((8 * m + k) as u64)) & 1)
        by (bit_vector)
        requires
            k < 8,
            m < 8,
    ;
}

/// Transposing twice changes nothing.
pub proof fn law_transposed_involution(x: u64)
    ensures
        transposed(transposed(x)) == x,
{
    assert(transposed(transposed(x)) == x) by (bit_vector);
}

fn trans_bit_8x8(x: u64) -> (r: u64)
    ensures
        r == transposed(x),
{
    let t: u64 = (x ^ (x >> 7)) & 0x00AA_00AA_00AA_00AAu64;
    let x1: u64 = x ^ t ^ (t << 7);
    let u: u64 = (x1 ^ (x1 >> 14)) & 0x0000_CCCC_0000_CCCCu64;
    let x2: u64 = x1 ^ u ^ (u << 14);
    let v: u64 = (x2 ^ (x2 >> 28)) & 0x0000_0000_F0F0_F0F0u64;
    x2 ^ v ^ (v << 28)
}

/// The eight bytes of `s`, transposed as a bit matrix.
pub open spec fn transposed_bytes(s: Seq<u8>) -> Seq<u8> {
    le_bytes(transposed(le(s) as u64) as nat, 8)
}

proof fn lemma_transposed_bytes(s: Seq<u8>)
    requires
        s.len() == 8,
    ensures
        transposed_bytes(s).len() == 8,
        transposed_bytes(transposed_bytes(s)) == s,
{
    lemma_pow256();
    lemma_le_bound(s);
    let x = le(s) as u64;
    let y = transposed(x);
    lemma_le_bytes_len(y as nat, 8);
    law_le_round_trip(y as nat, 8);
    law_transposed_involution(x);
    law_le_bytes_of_le(s);
}

/// The word `w` of `a`: eight bytes.
pub open spec fn word_of(a: Seq<u8>, w: int) -> Seq<u8> {
    a.subrange(8 * w, 8 * w + 8)
}

/// Bit planes of words, `blk` words to a group: plane `p` of word `w` is the byte
/// at `(w / blk * 8 + p) * blk + w % blk`.
pub open spec fn plane_position(blk: int, w: int, p: int) -> int {
    (w / blk * 8 + p) * blk + w % blk
}

/// The word to which the byte at position `q` belongs.
pub open spec fn plane_word(blk: int, q: int) -> int {
    q / blk / 8 * blk + q % blk
}

/// The plane in which the byte at position `q` lies.
pub open spec fn plane_index(blk: int, q: int) -> int {
    q / blk % 8
}

/// The number of whole elements, if they come in groups of eight; else 0.
pub open spec fn bit_elements(ts: int, d: Seq<u8>) -> int {
    if (d.len() as int / ts) % 8 == 0 {
        d.len() as int / ts
    } else {
        0
    }
}

/// `d` with the bits of its elements of `ts` bytes transposed: all lowest bits of
/// the first bytes first. Nothing changes unless the elements come in groups of
/// eight; trailing bytes stay.
pub open spec fn bitshuffled(ts: int, d: Seq<u8>) -> Seq<u8> {
    let size = bit_elements(ts, d);
    let a = shuffled(ts, d);
    Seq::new(
        d.len(),
        |q: int|
            if q < size * ts {
                transposed_bytes(word_of(a, plane_word(size / 8, q)))[plane_index(size / 8, q)]
            } else {
                d[q]
            },
    )
}

/// The eight planes of word `w`.
pub open spec fn planes(d: Seq<u8>, blk: int, w: int) -> Seq<u8> {
    Seq::new(8, |p: int| d[plane_position(blk, w, p)])
}

/// The transposition back.
pub open spec fn bitunshuffled(ts: int, d: Seq<u8>) -> Seq<u8> {
    let size = bit_elements(ts, d);
    let a = Seq::new(
        d.len(),
        |k: int|
            if k < size * ts {
                transposed_bytes(planes(d, size / 8, k / 8))[k % 8]
            } else {
                d[k]
            },
    );
    if size == 0 {
        d
    } else {
        unshuffled(ts, a)
    }
}

proof fn lemma_plane_of_position(blk: int, w: int, p: int)
    requires
        blk > 0,
        w >= 0,
        0 <= p < 8,
    ensures
        plane_word(blk, plane_position(blk, w, p)) == w,
        plane_index(blk, plane_position(blk, w, p)) == p,
        plane_position(blk, w, p) >= 0,
{
    let g = w / blk;
    let t = w % blk;
    lemma_fundamental_div_mod(w, blk);
    lemma_mod_bound(w, blk);
    vstd::arithmetic::div_mod::lemma_div_pos_is_pos(w, blk);
    let c = g * 8 + p;
    let q = c * blk + t;
    lemma_fundamental_div_mod_converse(q, blk, c, t);
    assert(c / 8 == g);
    assert(c % 8 == p);
    assert(g * blk + t == w) by (nonlinear_arith)
        requires
            w == blk * g + t,
    ;
    assert(q >= 0) by (nonlinear_arith)
        requires
            q == c * blk + t,
            c >= 0,
            blk > 0,
            t >= 0,
    ;
}

proof fn lemma_word_bound(ts: int, blk: int, q: int)
    requires
        ts > 0,
        blk > 0,
        0 <= q < 8 * blk * ts,
    ensures
        0 <= plane_word(blk, q) < ts * blk,
        0 <= plane_index(blk, q) < 8,
        0 <= 8 * plane_word(blk, q),
        8 * plane_word(blk, q) + 8 <= 8 * blk * ts,
{
    let c = q / blk;
    let t = q % blk;
    lemma_fundamental_div_mod(q, blk);
    lemma_mod_bound(q, blk);
    assert(0 <= c < 8 * ts) by (nonlinear_arith)
        requires
            q == blk * c + t,
            0 <= t < blk,
            0 <= q < 8 * blk * ts,
            blk > 0,
    ;
    let g = c / 8;
    assert(0 <= g < ts);
    assert(0 <= g * blk + t < ts * blk) by (nonlinear_arith)
        requires
            0 <= g < ts,
            0 <= t < blk,
    ;
    assert(8 * (g * blk + t) + 8 <= 8 * blk * ts) by (nonlinear_arith)
        requires
            g * blk + t < ts * blk,
    ;
}

proof fn lemma_position_bound(ts: int, blk: int, w: int, p: int)
    requires
        ts > 0,
        blk > 0,
        0 <= w < ts * blk,
        0 <= p < 8,
    ensures
        0 <= plane_position(blk, w, p) < 8 * blk * ts,
        0 <= w / blk,
        (w / blk * 8 + p) * blk <= 8 * blk * ts,
        w / blk * 8 + 8 <= 8 * ts,
{
    let g = w / blk;
    let t = w % blk;
    lemma_fundamental_div_mod(w, blk);
    lemma_mod_bound(w, blk);
    vstd::arithmetic::div_mod::lemma_div_pos_is_pos(w, blk);
    assert(g < ts) by (nonlinear_arith)
        requires
            w == blk * g + t,
            0 <= t < blk,
            w < ts * blk,
            blk > 0,
    ;
    let c = g * 8 + p;
    assert(0 <= c * blk + t < 8 * blk * ts && c * blk <= 8 * blk * ts) by (nonlinear_arith)
        requires
            0 <= c <= 8 * ts - 1,
            0 <= t < blk,
    ;
}

proof fn lemma_sizes(ts: int, len: int)
    requires
        ts > 0,
        len >= 0,
    ensures
        len / ts >= 0,
        0 <= (len / ts) * ts <= len,
        (len / ts) % 8 == 0 ==> (len / ts) * ts == 8 * ((len / ts) / 8) * ts,
        (len / ts) % 8 == 0 ==> 8 * (ts * ((len / ts) / 8)) == (len / ts) * ts,
{
    let size = len / ts;
    lemma_fundamental_div_mod(len, ts);
    lemma_mod_bound(len, ts);
    vstd::arithmetic::div_mod::lemma_div_pos_is_pos(len, ts);
    assert(size * ts == ts * size) by (nonlinear_arith);
    assert(0 <= size * ts) by (nonlinear_arith)
        requires
            size >= 0,
            ts > 0,
    ;
    if size % 8 == 0 {
        assert(size == 8 * (size / 8));
        assert(8 * (ts * (size / 8)) == 8 * (size / 8) * ts) by (nonlinear_arith);
    }
}

/// Bit-unshuffling undoes bit-shuffling.
pub proof fn law_bitunshuffle_bitshuffle(ts: int, d: Seq<u8>)
    requires
        ts > 0,
    ensures
        bitunshuffled(ts, bitshuffled(ts, d)) == d,
        bitshuffled(ts, d).len() == d.len(),
{
    let len = d.len() as int;
    let size = bit_elements(ts, d);
    let blk = size / 8;
    let a = shuffled(ts, d);
    let b = bitshuffled(ts, d);
    lemma_sizes(ts, len);
    law_unshuffle_shuffle(ts, d);
    if size == 0 {
        assert(size * ts == 0) by (nonlinear_arith)
            requires
                size == 0,
        ;
        assert(b =~= d);
    } else {
        let back = Seq::new(
            b.len(),
            |k: int|
                if k < size * ts {
                    transposed_bytes(planes(b, blk, k / 8))[k % 8]
                } else {
                    b[k]
                },
        );
        assert forall|k: int| 0 <= k < len implies back[k] == a[k] by {
            if k < size * ts {
                let w = k / 8;
                assert(0 <= w < ts * blk);
                assert(8 * w + 8 <= size * ts);
                let word = word_of(a, w);
                lemma_transposed_bytes(word);
                assert forall|p: int| 0 <= p < 8 implies planes(b, blk, w)[p]
                    == transposed_bytes(word)[p] by {
                    lemma_plane_of_position(blk, w, p);
                    lemma_position_bound(ts, blk, w, p);
                }
                assert(planes(b, blk, w) =~= transposed_bytes(word));
                assert(word[k % 8] == a[k]);
            } else {
                assert(len / ts * ts == size * ts);
                assert(a[k] == d[k]);
            }
        }
        assert(back =~= a);
    }
}

fn word_bytes(x: u64) -> (r: Vec<u8>)
    ensures
        r@ == le_bytes(x as nat, 8),
{
    let mut buf = crate::format::Buf::new();
    buf.u64(x);
    assert(buf.bytes@ =~= le_bytes(x as nat, 8));
    buf.bytes
}

fn transposed_word(s: &[u8]) -> (r: Vec<u8>)
    requires
        s@.len() == 8,
    ensures
        r@ == transposed_bytes(s@),
        r@.len() == 8,
{
    proof {
        lemma_transposed_bytes(s@);
    }
    word_bytes(trans_bit_8x8(uint_of(s)))
}

/// Forward bit-shuffle of one block of elements of `typesize` bytes.
pub fn bitshuffle_block(typesize: usize, data: &[u8]) -> (r: Vec<u8>)
    requires
        typesize > 0,
    ensures
        r@ == bitshuffled(typesize as int, data@),
{
    let total: usize = data.len();
    proof {
        lemma_sizes(typesize as int, total as int);
    }
    let size: usize = total / typesize;
    if size % 8 != 0 || size == 0 {
        let r = vstd::slice::slice_to_vec(data);
        proof {
            assert(bit_elements(typesize as int, data@) * typesize == 0) by (nonlinear_arith)
                requires
                    bit_elements(typesize as int, data@) == 0,
            ;
            assert(r@ =~= bitshuffled(typesize as int, data@));
        }
        return r;
    }
    let whole: usize = size * typesize;
    let blk: usize = size / 8;
    let a = shuffle(typesize, data);
    let ghost ts = typesize as int;
    // the transposed words, one after the other
    let nwords: usize = whole / 8;
    let mut words: Vec<u8> = Vec::new();
    let mut w: usize = 0;
    while w < nwords
        invariant
            w <= nwords,
            nwords * 8 == whole,
            whole <= total == a@.len(),
            words@.len() == 8 * w,
            forall|v: int, p: int|
                0 <= v < w && 0 <= p < 8 ==> #[trigger] words@[8 * v + p] == transposed_bytes(
                    word_of(a@, v),
                )[p],
        decreases nwords - w,
    {
        let t = transposed_word(vstd::slice::slice_subrange(a.as_slice(), 8 * w, 8 * w + 8));
        let ghost before = words@;
        words.extend_from_slice(t.as_slice());
        proof {
            assert(words@ =~= before + t@);
            assert forall|v: int, p: int| 0 <= v < w + 1 && 0 <= p < 8 implies #[trigger] words@[8
                * v + p] == transposed_bytes(word_of(a@, v))[p] by {
                if v < w {
                    assert(before[8 * v + p] == transposed_bytes(word_of(a@, v))[p]);
                } else {
                    assert(v == w);
                    assert(words@[8 * w + p] == t@[p]);
                }
            }
        }
        w += 1;
    }
    let mut out: Vec<u8> = Vec::new();
    let mut q: usize = 0;
    while q < whole
        invariant
            q <= whole,
            typesize == ts > 0,
            blk > 0,
            whole == 8 * blk * typesize,
            whole == size * typesize,
            size / 8 == blk,
            size == bit_elements(ts, data@),
            whole <= total == data@.len(),
            nwords * 8 == whole,
            words@.len() == 8 * nwords,
            a@ == shuffled(ts, data@),
            forall|v: int, p: int|
                0 <= v < nwords && 0 <= p < 8 ==> #[trigger] words@[8 * v + p] == transposed_bytes(
                    word_of(a@, v),
                )[p],
            out@.len() == q,
            forall|k: int| 0 <= k < q ==> #[trigger] out@[k] == bitshuffled(ts, data@)[k],
        decreases whole - q,
    {
        proof {
            lemma_word_bound(ts, blk as int, q as int);
            assert(q / blk / 8 * blk <= plane_word(blk as int, q as int));
            assert(8 * (ts * blk) == 8 * blk * ts) by (nonlinear_arith);
            let v = plane_word(blk as int, q as int);
            let p = plane_index(blk as int, q as int);
            assert(words@[8 * v + p] == transposed_bytes(word_of(a@, v))[p]);
            assert(0 <= q / blk / 8 * blk) by (nonlinear_arith)
                requires
                    q / blk / 8 >= 0,
                    blk >= 0,
            ;
        }
        out.push(words[8 * (q / blk / 8 * blk + q % blk) + q / blk % 8]);
        q += 1;
    }
    while q < total
        invariant
            whole <= q <= total == data@.len(),
            whole == size * typesize,
            typesize == ts,
            size == bit_elements(ts, data@),
            out@.len() == q,
            forall|k: int| 0 <= k < q ==> #[trigger] out@[k] == bitshuffled(ts, data@)[k],
        decreases total - q,
    {
        out.push(data[q]);
        q += 1;
    }
    assert(out@ =~= bitshuffled(ts, data@));
    out
}

/// The inverse of [`bitshuffle_block`].
pub fn bitunshuffle_block(typesize: usize, data: &[u8]) -> (r: Vec<u8>)
    requires
        typesize > 0,
    ensures
        r@ == bitunshuffled(typesize as int, data@),
{
    let total: usize = data.len();
    proof {
        lemma_sizes(typesize as int, total as int);
    }
    let size: usize = total / typesize;
    if size % 8 != 0 || size == 0 {
        return vstd::slice::slice_to_vec(data);
    }
    let ghost ts = typesize as int;
    let whole: usize = size * typesize;
    let blk: usize = size / 8;
    let nwords: usize = whole / 8;
    let ghost wanted = Seq::new(
        data@.len(),
        |k: int|
            if k < whole {
                transposed_bytes(planes(data@, blk as int, k / 8))[k % 8]
            } else {
                data@[k]
            },
    );
    let mut a: Vec<u8> = Vec::new();
    let mut w: usize = 0;
    while w < nwords
        invariant
            w <= nwords,
            typesize == ts > 0,
            blk > 0,
            whole == 8 * blk * typesize,
            nwords * 8 == whole,
            whole <= total == data@.len(),
            wanted.len() == total,
            forall|k: int|
                0 <= k < whole ==> #[trigger] wanted[k] == transposed_bytes(
                    planes(data@, blk as int, k / 8),
                )[k % 8],
            a@.len() == 8 * w,
            forall|k: int| 0 <= k < 8 * w ==> #[trigger] a@[k] == wanted[k],
        decreases nwords - w,
    {
        let mut gathered: Vec<u8> = Vec::new();
        let mut p: usize = 0;
        proof {
            assert(nwords == ts * blk) by (nonlinear_arith)
                requires
                    nwords * 8 == 8 * blk * ts,
            ;
        }
        while p < 8
            invariant
                p <= 8,
                w < nwords,
                typesize == ts > 0,
                blk > 0,
                nwords == ts * blk,
                whole == 8 * blk * typesize,
                whole <= total == data@.len(),
                gathered@.len() == p,
                forall|k: int|
                    0 <= k < p ==> #[trigger] gathered@[k] == planes(
                        data@,
                        blk as int,
                        w as int,
                    )[k],
            decreases 8 - p,
        {
            proof {
                lemma_position_bound(ts, blk as int, w as int, p as int);
                assert(w / blk * 8 + 8 <= 8 * typesize);
                assert(8 * typesize <= whole) by (nonlinear_arith)
                    requires
                        whole == 8 * blk * typesize,
                        blk >= 1,
                        typesize >= 0,
                ;
                assert(0 <= (w / blk * 8 + p) * blk) by (nonlinear_arith)
                    requires
                        w / blk * 8 + p >= 0,
                        blk >= 0,
                ;
            }
            gathered.push(data[(w / blk * 8 + p) * blk + w % blk]);
            p += 1;
        }
        assert(gathered@ =~= planes(data@, blk as int, w as int));
        let t = transposed_word(gathered.as_slice());
        let ghost before = a@;
        a.extend_from_slice(t.as_slice());
        proof {
            assert(a@ =~= before + t@);
            assert forall|k: int| 0 <= k < 8 * (w + 1) implies #[trigger] a@[k] == wanted[k] by {
                if k >= 8 * w {
                    assert(k / 8 == w);
                }
            }
        }
        w += 1;
    }
    let mut k: usize = whole;
    while k < total
        invariant
            whole <= k <= total == data@.len(),
            wanted == Seq::new(
                data@.len(),
                |k: int|
                    if k < whole {
                        transposed_bytes(planes(data@, blk as int, k / 8))[k % 8]
                    } else {
                        data@[k]
                    },
            ),
            a@.len() == k,
            forall|i: int| 0 <= i < k ==> #[trigger] a@[i] == wanted[i],
        decreases total - k,
    {
        a.push(data[k]);
        k += 1;
    }
    assert(a@ =~= wanted);
    assert(size == bit_elements(ts, data@));
    unshuffle(typesize, a.as_slice())
}

} // verus!
