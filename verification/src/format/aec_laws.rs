//! Decoding an adaptive-entropy-coded stream gives back what was encoded.

use vstd::prelude::*;

use crate::format::aec::{
    aec_bits, aec_decoded, best_split, block_bits, block_padded, block_taken, block_values, coded,
    fs_bits, fundamental, id_len, interval_bits, interval_samples, leading_zeros,
    lemma_interval_len, lemma_low_bits, lemma_pow2_thirty, mapped, max_split, quotient_bits,
    quotient_sum, quotients_taken, remainders_taken, samples_taken, split_cost, split_taken,
    stream_bytes, taken, unmapped, word_bits, Coding,
};
use crate::format::bits::{
    bits, law_number_bits, law_packed_bits, lemma_number_bits_len, lemma_pow2_monotone,
    lemma_pow2_positive, lemma_pow2_values, number, number_bits, pow2, zero_bits,
};

verus! {

/// Reading the bits of a number gives the number and what stands behind it.
proof fn lemma_taken(v: nat, w: nat, s: Seq<bool>)
    ensures
        taken(number_bits(v, w) + s, w) == Ok::<(nat, Seq<bool>), Seq<char>>((v % pow2(w), s)),
{
    lemma_number_bits_len(v, w);
    lemma_pow2_positive(w);
    lemma_low_bits(v, w);
    law_number_bits(v % pow2(w), w);
    let all = number_bits(v, w) + s;
    assert(all.take(w as int) =~= number_bits(v, w));
    assert(all.skip(w as int) =~= s);
}

proof fn lemma_leading_zeros_of_fs(v: nat, s: Seq<bool>)
    ensures
        leading_zeros(fs_bits(v) + s) == v,
    decreases v,
{
    let all = fs_bits(v) + s;
    if v > 0 {
        assert(all.skip(1) =~= fs_bits((v - 1) as nat) + s);
        lemma_leading_zeros_of_fs((v - 1) as nat, s);
    }
}

proof fn lemma_fundamental(v: nat, s: Seq<bool>)
    requires
        v <= 0x1000_0000,
    ensures
        fundamental(fs_bits(v) + s) == Ok::<(nat, Seq<bool>), Seq<char>>((v, s)),
{
    lemma_leading_zeros_of_fs(v, s);
    assert((fs_bits(v) + s).skip(v as int + 1) =~= s);
}

proof fn lemma_samples(vals: Seq<u32>, w: nat, acc: Seq<u32>, s: Seq<bool>)
    requires
        forall|i: int| 0 <= i < vals.len() ==> #[trigger] vals[i] < pow2(w),
    ensures
        samples_taken(word_bits(vals, w) + s, w, vals.len(), acc) == Ok::<
            (Seq<u32>, Seq<bool>),
            Seq<char>,
        >((acc + vals, s)),
    decreases vals.len(),
{
    if vals.len() == 0 {
        assert(word_bits(vals, w) + s =~= s);
        assert(acc + vals =~= acc);
    } else {
        let tail = word_bits(vals.skip(1), w);
        assert(word_bits(vals, w) + s =~= number_bits(vals[0] as nat, w) + (tail + s));
        lemma_taken(vals[0] as nat, w, tail + s);
        vstd::arithmetic::div_mod::lemma_small_mod(vals[0] as nat, pow2(w));
        assert forall|i: int| 0 <= i < vals.skip(1).len() implies #[trigger] vals.skip(1)[i] < pow2(
            w,
        ) by {
            assert(vals[i + 1] < pow2(w));
        }
        lemma_samples(vals.skip(1), w, acc.push(vals[0]), s);
        assert(acc.push(vals[0]) + vals.skip(1) =~= acc + vals);
    }
}

/// The part of a value above its `k` low bits.
spec fn high_part(v: u32, k: nat) -> u32 {
    (v as nat / pow2(k) * pow2(k)) as u32
}

proof fn lemma_high_part(v: u32, k: nat)
    ensures
        0 <= v as nat / pow2(k) * pow2(k) <= v,
        v as nat / pow2(k) * pow2(k) + v as nat % pow2(k) == v,
        (v as nat / pow2(k) * pow2(k)) % 0x1_0000_0000 == v as nat / pow2(k) * pow2(k),
{
    let p = pow2(k);
    lemma_pow2_positive(k);
    vstd::arithmetic::div_mod::lemma_fundamental_div_mod(v as int, p as int);
    let q = v as nat / p;
    assert(p * q == q * p) by (nonlinear_arith);
    vstd::arithmetic::div_mod::lemma_mod_bound(v as int, p as int);
    assert(0 <= q * p) by (nonlinear_arith)
        requires
            q >= 0,
            p >= 0,
    ;
}

proof fn lemma_quotients(vals: Seq<u32>, k: nat, acc: Seq<u32>, s: Seq<bool>)
    requires
        forall|i: int| 0 <= i < vals.len() ==> (#[trigger] vals[i]) as nat / pow2(k) <= 0x1000_0000,
    ensures
        quotients_taken(quotient_bits(vals, k) + s, k, vals.len(), acc) == Ok::<
            (Seq<u32>, Seq<bool>),
            Seq<char>,
        >((acc + vals.map_values(|v: u32| high_part(v, k)), s)),
    decreases vals.len(),
{
    let highs = vals.map_values(|v: u32| high_part(v, k));
    if vals.len() == 0 {
        assert(quotient_bits(vals, k) + s =~= s);
        assert(acc + highs =~= acc);
    } else {
        let q = vals[0] as nat / pow2(k);
        let tail = quotient_bits(vals.skip(1), k);
        assert(quotient_bits(vals, k) + s =~= fs_bits(q) + (tail + s));
        lemma_fundamental(q, tail + s);
        lemma_high_part(vals[0], k);
        assert forall|i: int| 0 <= i < vals.skip(1).len() implies (#[trigger] vals.skip(
            1,
        )[i]) as nat / pow2(k) <= 0x1000_0000 by {
            assert(vals[i + 1] as nat / pow2(k) <= 0x1000_0000);
        }
        let next = acc.push((q * pow2(k) % 0x1_0000_0000) as u32);
        lemma_quotients(vals.skip(1), k, next, s);
        assert(next + vals.skip(1).map_values(|v: u32| high_part(v, k)) =~= acc + highs);
    }
}

proof fn lemma_remainders(vals: Seq<u32>, k: nat, i: int, cur: Seq<u32>, s: Seq<bool>)
    requires
        0 <= i <= vals.len(),
        cur.len() == vals.len(),
        forall|j: int| 0 <= j < i ==> #[trigger] cur[j] == vals[j],
        forall|j: int| i <= j < vals.len() ==> #[trigger] cur[j] == high_part(vals[j], k),
    ensures
        remainders_taken(word_bits(vals.skip(i), k) + s, k, i, cur) == Ok::<
            (Seq<u32>, Seq<bool>),
            Seq<char>,
        >((vals, s)),
    decreases vals.len() - i,
{
    let rest = vals.skip(i);
    if i == vals.len() {
        assert(word_bits(rest, k) + s =~= s);
        assert(cur =~= vals);
    } else {
        let tail = word_bits(rest.skip(1), k);
        assert(word_bits(rest, k) + s =~= number_bits(vals[i] as nat, k) + (tail + s));
        lemma_taken(vals[i] as nat, k, tail + s);
        lemma_high_part(vals[i], k);
        assert(cur[i] == high_part(vals[i], k));
        let next = cur.update(i, (cur[i] + vals[i] as nat % pow2(k)) as u32);
        assert(next[i] == vals[i]);
        assert(rest.skip(1) =~= vals.skip(i + 1));
        lemma_remainders(vals, k, i + 1, next, s);
    }
}

proof fn lemma_quotient_in_sum(vals: Seq<u32>, k: nat, i: int)
    requires
        0 <= i < vals.len(),
    ensures
        vals[i] as nat / pow2(k) <= quotient_sum(vals, k),
    decreases vals.len(),
{
    lemma_pow2_positive(k);
    vstd::arithmetic::div_mod::lemma_div_pos_is_pos(vals.last() as int, pow2(k) as int);
    if i < vals.len() - 1 {
        lemma_quotient_in_sum(vals.drop_last(), k, i);
        assert(vals.drop_last()[i] == vals[i]);
    }
}

proof fn lemma_best_split_bound(vals: Seq<u32>, n: nat)
    ensures
        best_split(vals, n) <= n,
    decreases n,
{
    if n > 0 {
        lemma_best_split_bound(vals, (n - 1) as nat);
    }
}

/// The longest run of zeros that a fundamental sequence can have.
pub open spec fn longest_run() -> nat {
    0x1000_0000
}

/// Whether a block has no fundamental sequence that is too long.
pub open spec fn block_short(c: Coding, reference: bool, block: Seq<u32>) -> bool {
    let vals = block_values(reference, block);
    let k = best_split(vals, max_split(c.bps as int));
    split_cost(vals, k) >= vals.len() * c.bps || forall|i: int|
        0 <= i < vals.len() ==> (#[trigger] vals[i]) as nat / pow2(k) <= longest_run()
}

/// Whether no block of an interval has one.
pub open spec fn interval_short(c: Coding, vals: Seq<u32>) -> bool {
    forall|at: int|
        #![trigger c.has_reference(at)]
        0 <= at < vals.len() && at % c.block as int == 0 ==> block_short(
            c,
            c.has_reference(at),
            vals.subrange(at, at + c.block),
        )
}

/// Whether no block of the samples has a fundamental sequence that is too long to be
/// read back.
pub open spec fn aec_short(c: Coding, samples: Seq<u32>) -> bool
    decreases samples.len(),
{
    samples.len() == 0 || c.interval() <= 0 || {
        let n = if samples.len() < c.interval() {
            samples.len() as int
        } else {
            c.interval()
        };
        &&& interval_short(c, block_padded(coded(c, samples.take(n)), c.block as int))
        &&& aec_short(c, samples.skip(n))
    }
}

/// Samples of at most 28 bits, and blocks of at most `2^28` bits, have no fundamental
/// sequence that is too long.
pub proof fn law_narrow_short(c: Coding, samples: Seq<u32>)
    requires
        c.wf(),
        c.bps <= 28 || c.block * c.bps <= longest_run(),
        forall|i: int| 0 <= i < samples.len() ==> #[trigger] samples[i] <= c.xmax(),
    ensures
        aec_short(c, samples),
    decreases samples.len(),
{
    assert(c.interval() > 0) by (nonlinear_arith)
        requires
            c.interval() == c.rsi * c.block,
            c.rsi >= 1,
            c.block >= 2,
    ;
    if samples.len() > 0 {
        let n = if samples.len() < c.interval() {
            samples.len() as int
        } else {
            c.interval()
        };
        lemma_part_coded(c, samples, n);
        let vals = block_padded(coded(c, samples.take(n)), c.block as int);
        assert forall|at: int|
            #![trigger c.has_reference(at)]
            0 <= at < vals.len() && at % c.block as int == 0 implies block_short(
            c,
            c.has_reference(at),
            vals.subrange(at, at + c.block),
        ) by {
            lemma_block_end(c, vals.len() as int, at);
            let block = vals.subrange(at, at + c.block);
            assert forall|i: int| 0 <= i < block.len() implies #[trigger] block[i] <= c.xmax() by {
                assert(vals[at + i] <= c.xmax());
            }
            lemma_narrow_block(c, c.has_reference(at), block);
        }
        assert forall|i: int| 0 <= i < samples.skip(n).len() implies #[trigger] samples.skip(n)[i]
            <= c.xmax() by {
            assert(samples[n + i] <= c.xmax());
        }
        law_narrow_short(c, samples.skip(n));
    }
}

proof fn lemma_narrow_block(c: Coding, reference: bool, block: Seq<u32>)
    requires
        c.wf(),
        block.len() == c.block,
        c.bps <= 28 || c.block * c.bps <= longest_run(),
        forall|i: int| 0 <= i < block.len() ==> #[trigger] block[i] <= c.xmax(),
    ensures
        block_short(c, reference, block),
{
    let vals = block_values(reference, block);
    let k = best_split(vals, max_split(c.bps as int));
    if split_cost(vals, k) < vals.len() * c.bps {
        assert forall|i: int| 0 <= i < vals.len() implies (#[trigger] vals[i]) as nat / pow2(k)
            <= longest_run() by {
            lemma_quotient_in_sum(vals, k, i);
            if c.bps <= 28 {
                assert(vals[i] <= c.xmax()) by {
                    assert(vals[i] == block[if reference {
                        i + 1
                    } else {
                        i
                    }]);
                }
                lemma_pow2_monotone(c.bps as nat, 28);
                assert(pow2(28) == longest_run()) by {
                    lemma_pow2_values();
                    crate::format::bits::lemma_pow2_sum(16, 12);
                    crate::format::bits::lemma_pow2_sum(8, 4);
                    reveal_with_fuel(pow2, 5);
                }
                lemma_pow2_positive(k);
                vstd::arithmetic::div_mod::lemma_div_is_ordered_by_denominator(
                    vals[i] as int,
                    1,
                    pow2(k) as int,
                );
            } else {
                assert(vals.len() * c.bps <= c.block * c.bps) by (nonlinear_arith)
                    requires
                        vals.len() <= c.block,
                        c.bps >= 0,
                ;
            }
        }
    }
}

/// A block that starts within an interval of whole blocks ends within it.
proof fn lemma_block_end(c: Coding, len: int, at: int)
    requires
        c.wf(),
        0 <= at < len,
        at % c.block as int == 0,
        len % c.block as int == 0,
    ensures
        at + c.block <= len,
        (at + c.block) % c.block as int == 0,
{
    let b = c.block as int;
    vstd::arithmetic::div_mod::lemma_fundamental_div_mod(at, b);
    vstd::arithmetic::div_mod::lemma_fundamental_div_mod(len, b);
    vstd::arithmetic::div_mod::lemma_mod_add_multiples_vanish(at, b);
    let t = at / b;
    let u = len / b;
    assert(b * t + b <= b * u) by (nonlinear_arith)
        requires
            b * t < b * u,
            b > 0,
    {
        assert(t < u) by (nonlinear_arith)
            requires
                b * t < b * u,
                b > 0,
        ;
        assert(b * (t + 1) <= b * u) by (nonlinear_arith)
            requires
                t + 1 <= u,
                b > 0,
        ;
    }
}

proof fn lemma_interval_prefix(c: Coding, raw: Seq<u32>, k: int)
    requires
        0 <= k <= raw.len(),
    ensures
        interval_samples(c, raw).take(k) == interval_samples(c, raw.take(k)),
    decreases raw.len(),
{
    lemma_interval_len(c, raw);
    if k == raw.len() {
        assert(raw.take(k) =~= raw);
        assert(interval_samples(c, raw).take(k) =~= interval_samples(c, raw));
    } else if c.pp && raw.len() > 1 {
        lemma_interval_prefix(c, raw.drop_last(), k);
        lemma_interval_len(c, raw.drop_last());
        assert(raw.drop_last().take(k) =~= raw.take(k));
        assert(interval_samples(c, raw).take(k) =~= interval_samples(c, raw.drop_last()).take(k));
    }
}

/// What the first `n` samples of a stream are coded as.
proof fn lemma_part_coded(c: Coding, samples: Seq<u32>, n: int)
    requires
        c.wf(),
        0 < n <= samples.len(),
        n <= c.interval(),
        forall|i: int| 0 <= i < samples.len() ==> #[trigger] samples[i] <= c.xmax(),
    ensures
        ({
            let vals = block_padded(coded(c, samples.take(n)), c.block as int);
            &&& n <= vals.len() < n + c.block
            &&& vals.len() <= c.interval()
            &&& vals.len() % c.block as nat == 0
            &&& forall|i: int| 0 <= i < vals.len() ==> #[trigger] vals[i] <= c.xmax()
            &&& interval_samples(c, vals).take(n) == samples.take(n)
            &&& interval_samples(c, vals).len() == vals.len()
            &&& n == c.interval() ==> vals.len() == n
        }),
{
    let part = samples.take(n);
    let own = coded(c, part);
    let b = c.block as int;
    let vals = block_padded(own, b);
    assert forall|i: int| 0 <= i < part.len() implies #[trigger] part[i] <= c.xmax() by {
        assert(samples[i] <= c.xmax());
    }
    lemma_xmax(c.bps as nat);
    lemma_coded(c, part, n);
    assert(own.take(n) =~= own);
    assert(part.take(n) =~= part);
    assert(vals.take(n) =~= own);
    lemma_interval_prefix(c, vals, n);
    lemma_interval_len(c, vals);
    vstd::arithmetic::div_mod::lemma_fundamental_div_mod(n, b);
    vstd::arithmetic::div_mod::lemma_mod_bound(n, b);
    let q = n / b;
    let r = n % b;
    vstd::arithmetic::div_mod::lemma_mod_multiples_basic(c.rsi as int, b);
    if r == 0 {
        vstd::arithmetic::div_mod::lemma_mod_self_0(b);
        assert(vals =~= own);
    } else {
        vstd::arithmetic::div_mod::lemma_small_mod((b - r) as nat, b as nat);
        assert(vals.len() == b * q + b);
        assert(b * q + b == (q + 1) * b && b * q + b <= c.rsi * b) by (nonlinear_arith)
            requires
                b * q + r <= c.rsi * b,
                0 < r < b,
        {
            assert(q < c.rsi) by (nonlinear_arith)
                requires
                    b * q < c.rsi * b,
                    b > 0,
            ;
            assert(b * (q + 1) <= b * c.rsi) by (nonlinear_arith)
                requires
                    q + 1 <= c.rsi,
                    b > 0,
            ;
        }
        vstd::arithmetic::div_mod::lemma_mod_multiples_basic(q + 1, b);
    }
}

/// The split form of a block decodes to the block.
proof fn lemma_split_block(c: Coding, at: int, block: Seq<u32>, k: nat, s: Seq<bool>)
    requires
        c.wf(),
        block.len() == c.block,
        forall|i: int| 0 <= i < block.len() ==> #[trigger] block[i] <= c.xmax(),
        ({
            let vals = block_values(c.has_reference(at), block);
            forall|i: int|
                0 <= i < vals.len() ==> (#[trigger] vals[i]) as nat / pow2(k) <= longest_run()
        }),
    ensures
        ({
            let reference = c.has_reference(at);
            let vals = block_values(reference, block);
            let head = if reference {
                number_bits(block[0] as nat, c.bps as nat)
            } else {
                Seq::empty()
            };
            split_taken(c, at, k, head + quotient_bits(vals, k) + word_bits(vals, k) + s) == Ok::<
                (Seq<u32>, Seq<bool>),
                Seq<char>,
            >((block, s))
        }),
{
    let reference = c.has_reference(at);
    let vals = block_values(reference, block);
    let q = quotient_bits(vals, k);
    let low = word_bits(vals, k);
    let w = c.bps as nat;
    lemma_quotients(vals, k, Seq::empty(), low + s);
    let highs = vals.map_values(|v: u32| high_part(v, k));
    assert(Seq::<u32>::empty() + highs =~= highs);
    if reference {
        let first = block.take(1);
        let head = number_bits(block[0] as nat, w);
        assert forall|i: int| 0 <= i < first.len() implies #[trigger] first[i] < pow2(w) by {
            assert(block[0] <= c.xmax());
        }
        lemma_samples(first, w, Seq::empty(), q + low + s);
        assert(first.skip(1) =~= Seq::<u32>::empty());
        assert(word_bits(first, w) =~= head) by {
            assert(word_bits(first.skip(1), w) =~= Seq::<bool>::empty());
        }
        assert(head + q + low + s =~= word_bits(first, w) + (q + low + s));
        assert(Seq::<u32>::empty() + first =~= first);
        assert(q + low + s =~= q + (low + s));
        assert(first + vals =~= block);
    } else {
        assert(Seq::<bool>::empty() + q + low + s =~= q + (low + s));
        assert(Seq::<u32>::empty() + vals =~= block);
    }
    if k == 0 {
        assert(pow2(0) == 1);
        assert forall|i: int| 0 <= i < vals.len() implies #[trigger] highs[i] == vals[i] by {
            assert(vals[i] as nat / 1 == vals[i]);
        }
        assert(highs =~= vals);
        lemma_no_words(vals);
        assert(low + s =~= s);
    } else {
        assert(vals.skip(0) =~= vals);
        lemma_remainders(vals, k, 0, highs, s);
    }
}

proof fn lemma_no_words(vals: Seq<u32>)
    ensures
        word_bits(vals, 0) == Seq::<bool>::empty(),
    decreases vals.len(),
{
    if vals.len() > 0 {
        lemma_no_words(vals.skip(1));
        assert(word_bits(vals, 0) =~= Seq::<bool>::empty());
    }
}

/// The bits of a block decode to the block.
#[verifier::rlimit(60)]
proof fn lemma_block(c: Coding, at: int, block: Seq<u32>, s: Seq<bool>)
    requires
        c.wf(),
        block.len() == c.block,
        block_short(c, c.has_reference(at), block),
        forall|i: int| 0 <= i < block.len() ==> #[trigger] block[i] <= c.xmax(),
    ensures
        block_taken(c, at, block_bits(c, c.has_reference(at), block) + s) == Ok::<
            (Seq<u32>, Seq<bool>),
            Seq<char>,
        >((block, s)),
{
    let reference = c.has_reference(at);
    let w = id_len(c.bps as int);
    let vals = block_values(reference, block);
    let k = best_split(vals, max_split(c.bps as int));
    assert(pow2(3) == 8 && pow2(4) == 16 && pow2(5) == 32) by {
        reveal_with_fuel(pow2, 6);
    }
    lemma_best_split_bound(vals, max_split(c.bps as int));
    if split_cost(vals, k) >= vals.len() * c.bps {
        let id = (pow2(w) - 1) as nat;
        let words = word_bits(block, c.bps as nat);
        assert(block_bits(c, reference, block) + s =~= number_bits(id, w) + (words + s));
        lemma_taken(id, w, words + s);
        vstd::arithmetic::div_mod::lemma_small_mod(id, pow2(w));
        lemma_samples(block, c.bps as nat, Seq::empty(), s);
        assert(Seq::<u32>::empty() + block =~= block);
    } else {
        let head = if reference {
            number_bits(block[0] as nat, c.bps as nat)
        } else {
            Seq::empty()
        };
        let body = head + quotient_bits(vals, k) + word_bits(vals, k) + s;
        assert(block_bits(c, reference, block) + s =~= number_bits(k + 1, w) + body);
        lemma_taken(k + 1, w, body);
        vstd::arithmetic::div_mod::lemma_small_mod(k + 1, pow2(w));
        lemma_split_block(c, at, block, k, s);
    }
}

/// The bits of an interval decode to its coded samples, if that many are wanted.
#[verifier::rlimit(60)]
proof fn lemma_interval(c: Coding, vals: Seq<u32>, at: int, out: Seq<u32>, n: nat, s: Seq<bool>)
    requires
        c.wf(),
        0 <= at < vals.len() <= c.interval(),
        at % c.block as int == 0,
        vals.len() % c.block as nat == 0,
        forall|i: int| 0 <= i < vals.len() ==> #[trigger] vals[i] <= c.xmax(),
        interval_short(c, vals),
        out.len() + vals.len() < n + c.block,
    ensures
        aec_decoded(c, interval_bits(c, vals, at) + s, vals.take(at), out, n) == (if vals.len()
            == c.interval() {
            aec_decoded(c, s, Seq::empty(), out + interval_samples(c, vals), n)
        } else {
            aec_decoded(c, s, vals, out, n)
        }),
    decreases vals.len() - at,
{
    let b = c.block as int;
    lemma_block_end(c, vals.len() as int, at);
    let block = vals.subrange(at, at + b);
    let tail = interval_bits(c, vals, at + b) + s;
    let first = block_bits(c, c.has_reference(at), block);
    assert(interval_bits(c, vals, at) + s =~= first + tail);
    assert forall|i: int| 0 <= i < block.len() implies #[trigger] block[i] <= c.xmax() by {
        assert(vals[at + i] <= c.xmax());
    }
    lemma_block(c, at, block, tail);
    assert(vals.take(at) + block =~= vals.take(at + b));
    assert(first.len() > 0) by {
        let w = id_len(c.bps as int);
        let bv = block_values(c.has_reference(at), block);
        let k = best_split(bv, max_split(c.bps as int));
        lemma_number_bits_len((pow2(w) - 1) as nat, w);
        lemma_number_bits_len(k + 1, w);
    }
    if at + b == vals.len() {
        assert(vals.take(at + b) =~= vals);
        assert(interval_bits(c, vals, at + b) + s =~= s);
    } else {
        lemma_interval(c, vals, at + b, out, n, s);
    }
}

/// One bit less than a power of two.
spec fn all_ones(x: u32) -> bool {
    x & ((x + 1) as u32) == 0
}

proof fn lemma_xmax(bps: nat)
    requires
        1 <= bps <= 31,
    ensures
        1 <= pow2(bps) - 1 < 0x8000_0000,
        all_ones((pow2(bps) - 1) as u32),
    decreases bps,
{
    lemma_pow2_thirty();
    lemma_pow2_monotone(bps, 31);
    lemma_pow2_monotone(1, bps);
    if bps == 1 {
        reveal_with_fuel(pow2, 2);
        assert(1u32 & 2u32 == 0) by (bit_vector);
    } else {
        lemma_xmax((bps - 1) as nat);
        let x = (pow2((bps - 1) as nat) - 1) as u32;
        let y = (2 * x + 1) as u32;
        assert(y & ((y + 1) as u32) == 0) by (bit_vector)
            requires
                x & ((x + 1) as u32) == 0,
                x < 0x4000_0000,
                y == 2 * x + 1,
        ;
    }
}

/// Undoing the mapping of a difference gives the sample back.
proof fn lemma_unmap(xmax: u32, prev: u32, x: u32)
    requires
        1 <= xmax < 0x8000_0000,
        all_ones(xmax),
        prev <= xmax,
        x <= xmax,
    ensures
        0 <= mapped(xmax as int, prev as int, x as int) <= xmax,
        unmapped(xmax, prev, mapped(xmax as int, prev as int, x as int) as u32) == x,
{
    let d = mapped(xmax as int, prev as int, x as int) as u32;
    assert((prev & ((xmax / 2 + 1) as u32) != 0) == (prev > xmax / 2)) by (bit_vector)
        requires
            xmax & ((xmax + 1) as u32) == 0,
            1 <= xmax < 0x8000_0000,
            prev <= xmax,
    ;
    assert(xmax ^ prev == xmax - prev && xmax ^ d == xmax - d && 0u32 ^ prev == prev && 0u32 ^ d
        == d) by (bit_vector)
        requires
            xmax & ((xmax + 1) as u32) == 0,
            prev <= xmax,
            d <= xmax,
    ;
}

/// Restoring a coded interval gives its samples back.
proof fn lemma_coded(c: Coding, samples: Seq<u32>, n: int)
    requires
        c.wf(),
        0 <= n <= samples.len(),
        forall|i: int| 0 <= i < samples.len() ==> #[trigger] samples[i] <= c.xmax(),
    ensures
        interval_samples(c, coded(c, samples).take(n)) == samples.take(n),
        forall|i: int| 0 <= i < n ==> #[trigger] coded(c, samples)[i] <= c.xmax(),
    decreases n,
{
    lemma_xmax(c.bps as nat);
    let all = coded(c, samples);
    if n > 0 {
        lemma_coded(c, samples, n - 1);
        assert(all.take(n).drop_last() =~= all.take(n - 1));
        assert(samples[n - 1] <= c.xmax());
        if c.pp && n > 1 {
            assert(samples[n - 2] <= c.xmax());
            lemma_unmap(c.xmax() as u32, samples[n - 2], samples[n - 1]);
            assert(samples.take(n - 1).push(samples[n - 1]) =~= samples.take(n));
            assert(samples.take(n - 1).last() == samples[n - 2]);
        } else {
            assert(all.take(n) =~= samples.take(n));
        }
    } else {
        assert(all.take(0) =~= samples.take(0));
    }
}

/// Decoding passes over the first interval.
#[verifier::rlimit(60)]
proof fn lemma_stream_step(c: Coding, samples: Seq<u32>, out: Seq<u32>, n: nat, s: Seq<bool>)
    requires
        c.wf(),
        samples.len() >= c.interval() > 0,
        forall|i: int| 0 <= i < samples.len() ==> #[trigger] samples[i] <= c.xmax(),
        aec_short(c, samples),
        out.len() + samples.len() == n,
    ensures
        aec_decoded(c, aec_bits(c, samples) + s, Seq::empty(), out, n) == aec_decoded(
            c,
            aec_bits(c, samples.skip(c.interval())) + s,
            Seq::empty(),
            out + samples.take(c.interval()),
            n,
        ),
{
    let m = c.interval();
    let vals = block_padded(coded(c, samples.take(m)), c.block as int);
    lemma_part_coded(c, samples, m);
    assert(interval_samples(c, vals).take(m) =~= interval_samples(c, vals));
    let tail = aec_bits(c, samples.skip(m)) + s;
    let whole = aec_bits(c, samples) + s;
    assert(whole =~= interval_bits(c, vals, 0) + tail);
    assert(vals.take(0) =~= Seq::<u32>::empty());
    vstd::arithmetic::div_mod::lemma_small_mod(0, c.block as nat);
    lemma_interval(c, vals, 0, out, n, tail);
}

/// Decoding ends within the last interval, where it is not a whole one.
#[verifier::rlimit(60)]
proof fn lemma_stream_end(c: Coding, samples: Seq<u32>, out: Seq<u32>, s: Seq<bool>)
    requires
        c.wf(),
        samples.len() < c.interval(),
        forall|i: int| 0 <= i < samples.len() ==> #[trigger] samples[i] <= c.xmax(),
        aec_short(c, samples),
    ensures
        aec_decoded(
            c,
            aec_bits(c, samples) + s,
            Seq::empty(),
            out,
            out.len() + samples.len(),
        ) == Ok::<Seq<u32>, Seq<char>>(out + samples),
{
    let n = out.len() + samples.len();
    if samples.len() == 0 {
        assert((out + interval_samples(c, Seq::empty())).take(n as int) =~= out + samples);
    } else {
        let m = samples.len() as int;
        let vals = block_padded(coded(c, samples.take(m)), c.block as int);
        lemma_part_coded(c, samples, m);
        assert(samples.take(m) =~= samples);
        assert(samples.skip(m) =~= Seq::<u32>::empty());
        let whole = aec_bits(c, samples) + s;
        assert(aec_bits(c, samples.skip(m)) =~= Seq::<bool>::empty());
        assert(aec_bits(c, samples) == interval_bits(c, vals, 0) + aec_bits(c, samples.skip(m)));
        assert(whole =~= interval_bits(c, vals, 0) + s);
        assert(vals.take(0) =~= Seq::<u32>::empty());
        vstd::arithmetic::div_mod::lemma_small_mod(0, c.block as nat);
        lemma_interval(c, vals, 0, out, n, s);
        let back = interval_samples(c, vals);
        assert((out + back).take(n as int) =~= out + back.take(m));
        assert((out + back + interval_samples(c, Seq::empty())).take(n as int) =~= out
            + back.take(m));
    }
}

proof fn lemma_stream(c: Coding, samples: Seq<u32>, out: Seq<u32>, s: Seq<bool>)
    requires
        c.wf(),
        c.interval() > 0,
        forall|i: int| 0 <= i < samples.len() ==> #[trigger] samples[i] <= c.xmax(),
        aec_short(c, samples),
    ensures
        aec_decoded(
            c,
            aec_bits(c, samples) + s,
            Seq::empty(),
            out,
            out.len() + samples.len(),
        ) == Ok::<Seq<u32>, Seq<char>>(out + samples),
    decreases samples.len(),
{
    let m = c.interval();
    if samples.len() < m {
        lemma_stream_end(c, samples, out, s);
    } else {
        let part = samples.take(m);
        let rest = samples.skip(m);
        lemma_stream_step(c, samples, out, out.len() + samples.len(), s);
        assert forall|i: int| 0 <= i < rest.len() implies #[trigger] rest[i] <= c.xmax() by {
            assert(samples[m + i] <= c.xmax());
        }
        lemma_stream(c, rest, out + part, s);
        assert((out + part) + rest =~= out + samples);
    }
}

/// Samples survive the coding, if no block has a fundamental sequence that is too long.
#[verifier::spinoff_prover]
#[verifier::rlimit(60)]
pub proof fn law_aec_round_trip(c: Coding, samples: Seq<u32>)
    requires
        c.wf(),
        forall|i: int| 0 <= i < samples.len() ==> #[trigger] samples[i] <= c.xmax(),
        aec_short(c, samples),
    ensures
        aec_decoded(
            c,
            bits(stream_bytes(aec_bits(c, samples))),
            Seq::empty(),
            Seq::empty(),
            samples.len(),
        ) == Ok::<Seq<u32>, Seq<char>>(samples),
{
    let bs = aec_bits(c, samples);
    let pad = zero_bits(((8 - bs.len() % 8) % 8) as nat);
    law_packed_bits(bs + pad);
    assert(c.interval() > 0) by (nonlinear_arith)
        requires
            c.interval() == c.rsi * c.block,
            c.rsi >= 1,
            c.block >= 2,
    ;
    lemma_stream(c, samples, Seq::empty(), pad);
    assert(Seq::<u32>::empty() + samples =~= samples);
}

} // verus!
