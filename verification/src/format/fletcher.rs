//! The Fletcher checksum of chunk data.

use vstd::prelude::*;

verus! {

/// The big-endian 16-bit words of `d`; an odd last byte counts as the high byte
/// of a word.
pub open spec fn words(d: Seq<u8>) -> Seq<nat> {
    Seq::new(
        ((d.len() + 1) / 2) as nat,
        |i: int|
            (256 * d[2 * i] + (if 2 * i + 1 < d.len() {
                d[2 * i + 1] as int
            } else {
                0
            })) as nat,
    )
}

/// The sum of a sequence of words.
pub open spec fn total(w: Seq<nat>) -> nat
    decreases w.len(),
{
    if w.len() == 0 {
        0
    } else {
        total(w.drop_last()) + w.last()
    }
}

/// The sum of the sums of all non-empty prefixes.
pub open spec fn total_of_totals(w: Seq<nat>) -> nat
    decreases w.len(),
{
    if w.len() == 0 {
        0
    } else {
        total_of_totals(w.drop_last()) + total(w)
    }
}

/// The representative of `t` modulo 65535 that is 0 only for 0 itself.
pub open spec fn fold16(t: nat) -> nat {
    if t == 0 {
        0
    } else {
        ((t - 1) % 65535 + 1) as nat
    }
}

/// The checksum: the folded sum of sums above the folded sum.
pub open spec fn fletcher32_sum(d: Seq<u8>) -> nat {
    fold16(total_of_totals(words(d))) * 65536 + fold16(total(words(d)))
}

/// Whether `x` stands for `t`: the same residue, and 0 only for 0.
spec fn stands_for(x: int, t: int) -> bool {
    x >= 0 && t >= 0 && x % 65535 == t % 65535 && (x == 0 <==> t == 0)
}

proof fn lemma_fold_step(x: int, t: int)
    requires
        stands_for(x, t),
    ensures
        stands_for(x % 65536 + x / 65536, t),
{
    let y = x % 65536 + x / 65536;
    assert(x == 65536 * (x / 65536) + x % 65536);
    assert(x == 65535 * (x / 65536) + y);
    assert(y % 65535 == x % 65535) by {
        vstd::arithmetic::div_mod::lemma_mod_multiples_vanish(x / 65536, y, 65535);
    }
}

proof fn lemma_add_step(x: int, t: int, y: int, u: int)
    requires
        stands_for(x, t),
        stands_for(y, u),
    ensures
        stands_for(x + y, t + u),
{
    vstd::arithmetic::div_mod::lemma_add_mod_noop(x, y, 65535);
    vstd::arithmetic::div_mod::lemma_add_mod_noop(t, u, 65535);
}

proof fn lemma_final(x: int, t: int)
    requires
        stands_for(x, t),
        x <= 65535,
    ensures
        x == fold16(t as nat),
{
    if t > 0 {
        let f = (t - 1) % 65535 + 1;
        assert(1 <= f <= 65535);
        assert((t - 1) == 65535 * ((t - 1) / 65535) + (t - 1) % 65535);
        assert(f % 65535 == t % 65535) by {
            vstd::arithmetic::div_mod::lemma_mod_multiples_vanish((t - 1) / 65535, f, 65535);
        }
        if x < 65535 {
            assert(x % 65535 == x);
        }
        if f < 65535 {
            assert(f % 65535 == f);
        }
    }
}

proof fn lemma_prefix(w: Seq<nat>, i: int)
    requires
        0 <= i < w.len(),
    ensures
        total(w.take(i + 1)) == total(w.take(i)) + w[i],
        total_of_totals(w.take(i + 1)) == total_of_totals(w.take(i)) + total(w.take(i + 1)),
{
    assert(w.take(i + 1).drop_last() =~= w.take(i));
}

/// HDF5's fletcher32 checksum: 16-bit big-endian words, an odd trailing byte
/// counting as a high byte.
pub fn fletcher32(data: &[u8]) -> (r: u32)
    ensures
        r == fletcher32_sum(data@),
{
    let ghost w = words(data@);
    let n: usize = data.len();
    let mut sum1: u32 = 0;
    let mut sum2: u32 = 0;
    let mut left: usize = n / 2;
    let mut pos: usize = 0;
    assert(w.take(0) =~= Seq::<nat>::empty());
    while left > 0
        invariant
            n == data@.len(),
            w == words(data@),
            pos + 2 * left == 2 * (n / 2),
            pos % 2 == 0,
            stands_for(sum1 as int, total(w.take(pos as int / 2)) as int),
            stands_for(sum2 as int, total_of_totals(w.take(pos as int / 2)) as int),
            sum1 <= 65895,
            sum2 <= 131070,
        decreases left,
    {
        let block: usize = if left < 360 {
            left
        } else {
            360
        };
        left -= block;
        let mut done: usize = 0;
        while done < block
            invariant
                n == data@.len(),
                w == words(data@),
                done <= block <= 360,
                pos + 2 * (block - done) + 2 * left == 2 * (n / 2),
                pos % 2 == 0,
                stands_for(sum1 as int, total(w.take(pos as int / 2)) as int),
                stands_for(sum2 as int, total_of_totals(w.take(pos as int / 2)) as int),
                sum1 <= 65895 + 65535 * done,
                sum2 <= 131070 + 65895 * done + 65535 * (done * (done + 1) / 2),
            decreases block - done,
        {
            let word: u32 = data[pos] as u32 * 256 + data[pos + 1] as u32;
            proof {
                let i = pos as int / 2;
                assert(w[i] == word);
                lemma_prefix(w, i);
                lemma_add_step(sum1 as int, total(w.take(i)) as int, word as int, w[i] as int);
                lemma_add_step(
                    sum2 as int,
                    total_of_totals(w.take(i)) as int,
                    sum1 + word,
                    total(w.take(i + 1)) as int,
                );
                assert((done + 1) * (done + 2) == done * (done + 1) + 2 * (done + 1))
                    by (nonlinear_arith);
                assert(done * (done + 1) <= 359 * 360) by (nonlinear_arith)
                    requires
                        0 <= done <= 359,
                ;
            }
            sum1 = sum1 + word;
            sum2 = sum2 + sum1;
            pos += 2;
            done += 1;
        }
        proof {
            lemma_fold_step(sum1 as int, total(w.take(pos as int / 2)) as int);
            lemma_fold_step(sum2 as int, total_of_totals(w.take(pos as int / 2)) as int);
        }
        sum1 = sum1 % 65536 + sum1 / 65536;
        sum2 = sum2 % 65536 + sum2 / 65536;
    }
    if n % 2 != 0 {
        let word: u32 = data[n - 1] as u32 * 256;
        proof {
            let i = pos as int / 2;
            assert(w[i] == word);
            lemma_prefix(w, i);
            lemma_add_step(sum1 as int, total(w.take(i)) as int, word as int, w[i] as int);
            lemma_add_step(
                sum2 as int,
                total_of_totals(w.take(i)) as int,
                sum1 + word,
                total(w.take(i + 1)) as int,
            );
            lemma_fold_step(sum1 + word, total(w.take(i + 1)) as int);
            lemma_fold_step(sum2 + sum1 + word, total_of_totals(w.take(i + 1)) as int);
        }
        sum1 = sum1 + word;
        sum2 = sum2 + sum1;
        sum1 = sum1 % 65536 + sum1 / 65536;
        sum2 = sum2 % 65536 + sum2 / 65536;
    }
    proof {
        assert(w.take(w.len() as int) =~= w);
        lemma_fold_step(sum1 as int, total(w) as int);
        lemma_fold_step(sum2 as int, total_of_totals(w) as int);
    }
    sum1 = sum1 % 65536 + sum1 / 65536;
    sum2 = sum2 % 65536 + sum2 / 65536;
    proof {
        lemma_final(sum1 as int, total(w) as int);
        lemma_final(sum2 as int, total_of_totals(w) as int);
    }
    sum2 * 65536 + sum1
}

} // verus!
