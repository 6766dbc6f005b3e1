//! The adaptive entropy coding (extended-Rice) of SZip streams.
//!
//! Samples are coded in blocks; a whole number of blocks makes a reference sample
//! interval. With preprocessing, the first sample of an interval is stored and the
//! others are coded as mapped differences from their predecessors.

use vstd::prelude::*;

use crate::error::Error;
use crate::format::bits::{
    bits, lemma_pow2_monotone, lemma_pow2_positive, lemma_pow2_values, number, number_bits,
    packed_bytes, pow2, zero_bits, BitReader, BitWriter,
};
use crate::format::bits::{law_bits_of_number, law_packed_bytes_of_bits};

verus! {

/// How samples are coded.
#[derive(Clone, Copy)]
pub struct Coding {
    /// Bits per sample, 1 to 31.
    pub bps: u32,
    /// Samples per block, at least 2 and even.
    pub block: u32,
    /// Blocks per reference sample interval.
    pub rsi: u32,
    /// Whether samples are coded as differences.
    pub pp: bool,
}

impl Coding {
    pub open spec fn wf(self) -> bool {
        &&& 1 <= self.bps <= 31
        &&& 2 <= self.block
        &&& self.block % 2 == 0
        &&& 1 <= self.rsi <= 4096
    }

    /// The largest sample.
    pub open spec fn xmax(self) -> int {
        pow2(self.bps as nat) - 1
    }

    /// Samples per interval.
    pub open spec fn interval(self) -> int {
        self.rsi * self.block
    }

    /// Whether a block that starts at position `at` of its interval starts with a
    /// stored sample.
    pub open spec fn has_reference(self, at: int) -> bool {
        self.pp && at == 0
    }
}

/// Bits of a block's option field.
pub open spec fn id_len(bps: int) -> nat {
    if bps > 16 {
        5
    } else if bps > 8 {
        4
    } else {
        3
    }
}

fn id_len_for(bps: u32) -> (r: u32)
    ensures
        r == id_len(bps as int),
        3 <= r <= 5,
{
    if bps > 16 {
        5
    } else if bps > 8 {
        4
    } else {
        3
    }
}

/// The number in the next `n` bits, and the bits behind it.
pub open spec fn taken(rest: Seq<bool>, n: nat) -> Result<(nat, Seq<bool>), Seq<char>> {
    if rest.len() < n {
        Err("szip: stream truncated"@)
    } else {
        Ok((number(rest.take(n as int)), rest.skip(n as int)))
    }
}

/// The number of zero bits at the front.
pub open spec fn leading_zeros(rest: Seq<bool>) -> nat
    decreases rest.len(),
{
    if rest.len() == 0 || rest[0] {
        0
    } else {
        1 + leading_zeros(rest.skip(1))
    }
}

/// A fundamental sequence: the number of zero bits before the next one, and the
/// bits behind that one.
pub open spec fn fundamental(rest: Seq<bool>) -> Result<(nat, Seq<bool>), Seq<char>> {
    let z = leading_zeros(rest);
    if z > 0x1000_0000 {
        Err("szip: unterminated FS"@)
    } else if z == rest.len() {
        Err("szip: stream truncated in FS"@)
    } else {
        Ok((z, rest.skip(z as int + 1)))
    }
}

/// The next `n` samples of `w` bits each, after `vals`.
pub open spec fn samples_taken(rest: Seq<bool>, w: nat, n: nat, vals: Seq<u32>) -> Result<
    (Seq<u32>, Seq<bool>),
    Seq<char>,
>
    decreases n,
{
    if n == 0 {
        Ok((vals, rest))
    } else {
        match taken(rest, w) {
            Err(e) => Err(e),
            Ok((v, r)) => samples_taken(r, w, (n - 1) as nat, vals.push(v as u32)),
        }
    }
}

/// The group of a second-extension index: the sum of the pair.
pub open spec fn pair_sum(m: nat) -> nat
    decreases m,
{
    pair_sum_from(m, 0)
}

/// The group of `m`, when the groups before `i` are done.
pub open spec fn pair_sum_from(m: nat, i: nat) -> nat
    decreases m,
{
    if m <= i {
        i
    } else {
        pair_sum_from((m - i - 1) as nat, i + 1)
    }
}

/// The first index of group `i`.
pub open spec fn pair_start(i: nat) -> nat {
    i * (i + 1) / 2
}

/// The pairs of a second-extension block, until `n` samples are there.
pub open spec fn pairs_taken(rest: Seq<bool>, n: nat, vals: Seq<u32>) -> Result<
    (Seq<u32>, Seq<bool>),
    Seq<char>,
>
    decreases n + 1 - vals.len(),
{
    if vals.len() >= n {
        Ok((vals, rest))
    } else {
        match fundamental(rest) {
            Err(e) => Err(e),
            Ok((m, r)) => if m > 90 {
                Err("szip: bad second-extension gamma"@)
            } else {
                let i = pair_sum(m);
                let second = m - pair_start(i);
                if vals.len() % 2 == 0 {
                    pairs_taken(r, n, vals.push((i - second) as u32).push(second as u32))
                } else {
                    pairs_taken(r, n, vals.push(second as u32))
                }
            },
        }
    }
}

/// The number of blocks of a zero-block run that the value `z` stands for, at block
/// `b` of the interval. The value 4 means the rest of the interval or of a segment of
/// 64 blocks.
pub open spec fn zero_run(c: Coding, z: nat, b: int) -> int {
    if z == 4 {
        let left = c.rsi - b;
        let segment = 64 - b % 64;
        if left < segment {
            left
        } else {
            segment
        }
    } else if z > 4 {
        z as int
    } else {
        z as int + 1
    }
}

/// `n` fundamental sequences, each shifted up by `k` bits, after `vals`.
pub open spec fn quotients_taken(rest: Seq<bool>, k: nat, n: nat, vals: Seq<u32>) -> Result<
    (Seq<u32>, Seq<bool>),
    Seq<char>,
>
    decreases n,
{
    if n == 0 {
        Ok((vals, rest))
    } else {
        match fundamental(rest) {
            Err(e) => Err(e),
            Ok((q, r)) => quotients_taken(
                r,
                k,
                (n - 1) as nat,
                vals.push((q * pow2(k) % 0x1_0000_0000) as u32),
            ),
        }
    }
}

/// Remainders of `k` bits for the samples of `vals` from `i` on.
pub open spec fn remainders_taken(rest: Seq<bool>, k: nat, i: int, vals: Seq<u32>) -> Result<
    (Seq<u32>, Seq<bool>),
    Seq<char>,
>
    decreases vals.len() - i,
{
    if i < 0 || i >= vals.len() {
        Ok((vals, rest))
    } else {
        match taken(rest, k) {
            Err(e) => Err(e),
            Ok((v, r)) => remainders_taken(r, k, i + 1, vals.update(i, (vals[i] + v) as u32)),
        }
    }
}

/// The stored sample at the front of a block, if it has one.
pub open spec fn reference_taken(c: Coding, at: int, rest: Seq<bool>) -> Result<
    (Seq<u32>, Seq<bool>),
    Seq<char>,
> {
    if c.has_reference(at) {
        samples_taken(rest, c.bps as nat, 1, Seq::empty())
    } else {
        Ok((Seq::empty(), rest))
    }
}

/// A low-entropy block: pairs or a run of zero blocks.
pub open spec fn low_entropy_taken(c: Coding, at: int, rest: Seq<bool>) -> Result<
    (Seq<u32>, Seq<bool>),
    Seq<char>,
> {
    match taken(rest, 1) {
        Err(e) => Err(e),
        Ok((pairs, r1)) => match reference_taken(c, at, r1) {
            Err(e) => Err(e),
            Ok((head, r2)) => if pairs == 1 {
                pairs_taken(r2, c.block as nat, head)
            } else {
                match fundamental(r2) {
                    Err(e) => Err(e),
                    Ok((z, r3)) => {
                        let n = zero_run(c, z, at / c.block as int) * c.block - head.len();
                        Ok((head + Seq::new(n as nat, |i: int| 0u32), r3))
                    },
                }
            },
        },
    }
}

/// A block of split samples: quotients, then remainders of `k` bits.
pub open spec fn split_taken(c: Coding, at: int, k: nat, rest: Seq<bool>) -> Result<
    (Seq<u32>, Seq<bool>),
    Seq<char>,
> {
    match reference_taken(c, at, rest) {
        Err(e) => Err(e),
        Ok((head, r1)) => match quotients_taken(
            r1,
            k,
            (c.block - head.len()) as nat,
            Seq::empty(),
        ) {
            Err(e) => Err(e),
            Ok((q, r2)) => if k == 0 {
                Ok((head + q, r2))
            } else {
                match remainders_taken(r2, k, 0, q) {
                    Err(e) => Err(e),
                    Ok((v, r3)) => Ok((head + v, r3)),
                }
            },
        },
    }
}

/// The samples of the next block, which starts at position `at` of its interval,
/// and the bits behind it.
pub open spec fn block_taken(c: Coding, at: int, rest: Seq<bool>) -> Result<
    (Seq<u32>, Seq<bool>),
    Seq<char>,
> {
    let w = id_len(c.bps as int);
    match taken(rest, w) {
        Err(e) => Err(e),
        Ok((id, r)) => if id == 0 {
            low_entropy_taken(c, at, r)
        } else if id == pow2(w) - 1 {
            samples_taken(r, c.bps as nat, c.block as nat, Seq::empty())
        } else {
            split_taken(c, at, (id - 1) as nat, r)
        },
    }
}

/// The sample that follows `x`, when `d` is its coded difference.
pub open spec fn unmapped(xmax: u32, x: u32, d: u32) -> u32 {
    let half = (d / 2 + d % 2) as u32;
    let mask = if x & ((xmax / 2 + 1) as u32) != 0 {
        xmax
    } else {
        0u32
    };
    if half <= mask ^ x {
        if d % 2 == 1 {
            x.wrapping_sub((d / 2 + 1) as u32)
        } else {
            x.wrapping_add((d / 2) as u32)
        }
    } else {
        mask ^ d
    }
}

/// The samples of an interval from its coded form.
pub open spec fn interval_samples(c: Coding, raw: Seq<u32>) -> Seq<u32>
    decreases raw.len(),
{
    if !c.pp || raw.len() <= 1 {
        raw
    } else {
        let before = interval_samples(c, raw.drop_last());
        before.push(unmapped(c.xmax() as u32, before.last(), raw.last()))
    }
}

pub(crate) proof fn lemma_interval_len(c: Coding, raw: Seq<u32>)
    ensures
        interval_samples(c, raw).len() == raw.len(),
    decreases raw.len(),
{
    if c.pp && raw.len() > 1 {
        lemma_interval_len(c, raw.drop_last());
    }
}

/// The samples that the bits `rest` decode to, after `out` and the samples `raw` of
/// the current interval, until there are `n`. An interval ends with the block that
/// completes it, though a run of zero blocks goes past its end.
pub open spec fn aec_decoded(
    c: Coding,
    rest: Seq<bool>,
    raw: Seq<u32>,
    out: Seq<u32>,
    n: nat,
) -> Result<Seq<u32>, Seq<char>>
    decreases rest.len(),
{
    if out.len() + raw.len() >= n {
        Ok((out + interval_samples(c, raw)).take(n as int))
    } else {
        match block_taken(c, raw.len() as int, rest) {
            Err(e) => Err(e),
            Ok((vals, r)) => {
                let raw2 = raw + vals;
                if r.len() >= rest.len() {
                    Err(Seq::empty())
                } else if raw2.len() >= c.interval() {
                    aec_decoded(c, r, Seq::empty(), out + interval_samples(c, raw2), n)
                } else {
                    aec_decoded(c, r, raw2, out, n)
                }
            },
        }
    }
}

/// Whether reading samples came out as `s` says, with the bits behind them left in `after`.
pub open spec fn read_list(
    r: Result<Vec<u32>, Error>,
    after: Seq<bool>,
    s: Result<(Seq<u32>, Seq<bool>), Seq<char>>,
) -> bool {
    match (r, s) {
        (Ok(v), Ok((w, rest))) => v@ == w && after == rest,
        (Err(e), Err(m)) => e@ == m,
        _ => false,
    }
}

fn take_bits(r: &mut BitReader, n: u32) -> (res: Result<u64, Error>)
    requires
        old(r).wf(),
        n <= 64,
    ensures
        final(r).wf(),
        match (res, taken(old(r).rest(), n as nat)) {
            (Ok(v), Ok((w, rest))) => v == w && final(r).rest() == rest && v < pow2(n as nat),
            (Err(e), Err(m)) => e@ == m,
            _ => false,
        },
{
    match r.take(n) {
        Some(v) => {
            proof {
                law_bits_of_number(old(r).rest().take(n as int));
            }
            Ok(v)
        },
        None => Err(Error::new("szip: stream truncated")),
    }
}

pub(crate) proof fn lemma_leading_zeros_bound(rest: Seq<bool>)
    ensures
        leading_zeros(rest) <= rest.len(),
    decreases rest.len(),
{
    if rest.len() > 0 {
        lemma_leading_zeros_bound(rest.skip(1));
    }
}

fn take_fs(r: &mut BitReader) -> (res: Result<u32, Error>)
    requires
        old(r).wf(),
    ensures
        final(r).wf(),
        match (res, fundamental(old(r).rest())) {
            (Ok(v), Ok((w, rest))) => v == w && final(r).rest() == rest && v <= 0x1000_0000,
            (Err(e), Err(m)) => e@ == m,
            _ => false,
        },
{
    let ghost start = r.rest();
    let mut n: u32 = 0;
    assert(start.skip(0) =~= start);
    loop
        invariant
            r.wf(),
            start == old(r).rest(),
            n <= 0x1000_0000,
            n <= start.len(),
            r.rest() == start.skip(n as int),
            leading_zeros(start) == n + leading_zeros(r.rest()),
        decreases 0x1000_0001 - n,
    {
        proof {
            lemma_leading_zeros_bound(r.rest());
        }
        match r.next_bit() {
            None => {
                return Err(Error::new("szip: stream truncated in FS"));
            },
            Some(b) => {
                proof {
                    assert(start.skip(n as int).skip(1) =~= start.skip(n + 1));
                }
                if b {
                    return Ok(n);
                }
                n += 1;
                if n > 0x1000_0000 {
                    return Err(Error::new("szip: unterminated FS"));
                }
            },
        }
    }
}

fn take_samples(r: &mut BitReader, w: u32, n: u32) -> (res: Result<Vec<u32>, Error>)
    requires
        old(r).wf(),
        w <= 32,
    ensures
        final(r).wf(),
        read_list(res, final(r).rest(), samples_taken(old(r).rest(), w as nat, n as nat, Seq::empty())),
{
    let mut v: Vec<u32> = Vec::new();
    let mut i: u32 = 0;
    let ghost whole = samples_taken(r.rest(), w as nat, n as nat, Seq::empty());
    while i < n
        invariant
            r.wf(),
            w <= 32,
            i <= n,
            whole == samples_taken(r.rest(), w as nat, (n - i) as nat, v@),
            whole == samples_taken(old(r).rest(), w as nat, n as nat, Seq::empty()),
        decreases n - i,
    {
        let x: u64 = take_bits(r, w)?;
        proof {
            lemma_pow2_values();
            lemma_pow2_monotone(w as nat, 32);
        }
        v.push(x as u32);
        i += 1;
    }
    Ok(v)
}

pub(crate) proof fn lemma_pair_sum(m: nat, i: nat, base: nat)
    requires
        base == pair_start(i) + m,
        base <= 90,
    ensures
        ({
            let s = pair_sum_from(m, i);
            &&& pair_start(s) <= base <= pair_start(s) + s
            &&& s <= 12
        }),
    decreases m,
{
    assert((i + 1) * (i + 2) == i * (i + 1) + 2 * (i + 1)) by (nonlinear_arith);
    assert((i * (i + 1)) % 2 == 0) by {
        lemma_product_even(i);
    }
    if m <= i {
        if i > 12 {
            assert(i * (i + 1) >= 182) by (nonlinear_arith)
                requires
                    i >= 13,
            ;
        }
    } else {
        lemma_pair_sum((m - i - 1) as nat, i + 1, base);
    }
}

pub(crate) proof fn lemma_product_even(i: nat)
    ensures
        (i * (i + 1)) % 2 == 0,
{
    let h = i / 2;
    if i % 2 == 0 {
        assert(i * (i + 1) == 2 * (h * (i + 1))) by (nonlinear_arith)
            requires
                i == 2 * h,
        ;
    } else {
        assert(i * (i + 1) == 2 * (i * (h + 1))) by (nonlinear_arith)
            requires
                i == 2 * h + 1,
        ;
    }
}

/// The pair sum of a second-extension index and the first index of its group.
fn pair_group(m: u32) -> (r: (u32, u32))
    requires
        m <= 90,
    ensures
        r.0 == pair_sum(m as nat),
        r.1 == pair_start(r.0 as nat),
        r.1 <= m <= r.1 + r.0,
        r.0 <= 12,
{
    proof {
        lemma_pair_sum(m as nat, 0, m as nat);
    }
    let mut i: u32 = 0;
    let mut left: u32 = m;
    let mut start: u32 = 0;
    while left > i
        invariant
            left <= m <= 90,
            i <= m,
            start + left == m,
            start == pair_start(i as nat),
            pair_sum_from(left as nat, i as nat) == pair_sum(m as nat),
        decreases left,
    {
        proof {
            assert((i + 1) * (i + 2) == i * (i + 1) + 2 * (i + 1)) by (nonlinear_arith);
            lemma_product_even(i as nat);
        }
        left = left - i - 1;
        start = start + i + 1;
        i += 1;
    }
    (i, start)
}

fn take_pairs(r: &mut BitReader, n: u32, head: Vec<u32>) -> (res: Result<Vec<u32>, Error>)
    requires
        old(r).wf(),
    ensures
        final(r).wf(),
        read_list(res, final(r).rest(), pairs_taken(old(r).rest(), n as nat, head@)),
{
    let ghost whole = pairs_taken(r.rest(), n as nat, head@);
    let mut v: Vec<u32> = head;
    while (v.len() as u64) < n as u64
        invariant
            r.wf(),
            whole == pairs_taken(r.rest(), n as nat, v@),
            whole == pairs_taken(old(r).rest(), n as nat, head@),
        decreases n + 1 - v@.len(),
    {
        let m: u32 = take_fs(r)?;
        if m > 90 {
            return Err(Error::new("szip: bad second-extension gamma"));
        }
        let (sum, start) = pair_group(m);
        let second: u32 = m - start;
        if v.len() % 2 == 0 {
            v.push(sum - second);
        }
        v.push(second);
    }
    Ok(v)
}

fn take_quotients(r: &mut BitReader, k: u32, n: u32) -> (res: Result<Vec<u32>, Error>)
    requires
        old(r).wf(),
        k <= 29,
    ensures
        final(r).wf(),
        read_list(
            res,
            final(r).rest(),
            quotients_taken(old(r).rest(), k as nat, n as nat, Seq::empty()),
        ),
        res matches Ok(v) ==> v@.len() == n && forall|i: int|
            0 <= i < n ==> #[trigger] v@[i] % (pow2(k as nat) as u32) == 0,
{
    let scale: u64 = power_of_two(k);
    let mut v: Vec<u32> = Vec::new();
    let mut i: u32 = 0;
    let ghost whole = quotients_taken(r.rest(), k as nat, n as nat, Seq::empty());
    while i < n
        invariant
            r.wf(),
            k <= 29,
            scale == pow2(k as nat),
            1 <= scale <= 0x2000_0000,
            i <= n,
            v@.len() == i,
            whole == quotients_taken(r.rest(), k as nat, (n - i) as nat, v@),
            whole == quotients_taken(old(r).rest(), k as nat, n as nat, Seq::empty()),
            forall|j: int| 0 <= j < i ==> #[trigger] v@[j] % (pow2(k as nat) as u32) == 0,
        decreases n - i,
    {
        let q: u32 = take_fs(r)?;
        assert(q * scale <= 0x1000_0000 * 0x2000_0000) by (nonlinear_arith)
            requires
                0 <= q <= 0x1000_0000,
                0 <= scale <= 0x2000_0000,
        ;
        let x: u64 = q as u64 * scale;
        proof {
            lemma_multiple_low(q as nat, k as nat);
        }
        v.push((x % 0x1_0000_0000) as u32);
        i += 1;
    }
    Ok(v)
}

pub(crate) fn power_of_two(k: u32) -> (r: u64)
    requires
        k <= 31,
    ensures
        r == pow2(k as nat),
        1 <= r <= 0x8000_0000,
        k <= 29 ==> r <= 0x2000_0000,
{
    let mut r: u64 = 1;
    let mut i: u32 = 0;
    proof {
        lemma_pow2_values();
        reveal_with_fuel(pow2, 4);
        lemma_pow2_monotone(k as nat, 31);
        lemma_pow2_thirty();
        if k <= 29 {
            lemma_pow2_monotone(k as nat, 29);
        }
    }
    while i < k
        invariant
            i <= k <= 31,
            r == pow2(i as nat),
            r <= 0x8000_0000,
        decreases k - i,
    {
        proof {
            lemma_pow2_monotone((i + 1) as nat, 31);
            lemma_pow2_thirty();
        }
        r = 2 * r;
        i += 1;
    }
    r
}

pub(crate) proof fn lemma_pow2_thirty()
    ensures
        pow2(29) == 0x2000_0000,
        pow2(31) == 0x8000_0000,
{
    lemma_pow2_values();
    assert(pow2(32) == 2 * pow2(31));
    assert(pow2(31) == 2 * pow2(30));
    assert(pow2(30) == 2 * pow2(29));
}

/// A multiple of `2^k`, cut to 32 bits, is a multiple of `2^k`.
pub(crate) proof fn lemma_multiple_low(q: nat, k: nat)
    requires
        k <= 29,
    ensures
        (q * pow2(k)) % 0x1_0000_0000 % pow2(k) == 0,
        pow2(k) <= 0x2000_0000,
{
    lemma_pow2_thirty();
    lemma_pow2_monotone(k, 29);
    let p = pow2(k);
    let x = q * p;
    lemma_pow2_values();
    crate::format::bits::lemma_pow2_sum(k, (32 - k) as nat);
    let o = pow2((32 - k) as nat);
    let y = x % 0x1_0000_0000;
    let t = x / 0x1_0000_0000;
    assert(x == 0x1_0000_0000 * t + y);
    assert(y == p * (q - o * t)) by (nonlinear_arith)
        requires
            q * p == (p * o) * t + y,
    ;
    assert(y % p == 0) by {
        vstd::arithmetic::div_mod::lemma_mod_multiples_basic(q - o * t, p as int);
        assert(p * (q - o * t) == (q - o * t) * p) by (nonlinear_arith);
    }
}

/// A multiple of `2^k` below `2^32` has room for `k` more bits.
pub(crate) proof fn lemma_room(x: int, k: nat, v: int)
    requires
        k <= 29,
        0 <= x < 0x1_0000_0000,
        x % pow2(k) as int == 0,
        0 <= v < pow2(k),
    ensures
        x + v < 0x1_0000_0000,
{
    lemma_pow2_thirty();
    lemma_pow2_monotone(k, 29);
    lemma_pow2_values();
    crate::format::bits::lemma_pow2_sum(k, (32 - k) as nat);
    let p = pow2(k) as int;
    let o = pow2((32 - k) as nat) as int;
    let t = x / p;
    vstd::arithmetic::div_mod::lemma_fundamental_div_mod(x, p);
    assert(t < o) by (nonlinear_arith)
        requires
            x == p * t,
            x < p * o,
            p > 0,
    ;
    assert(p * t + p <= p * o) by (nonlinear_arith)
        requires
            t + 1 <= o,
            p > 0,
    ;
}

fn take_remainders(r: &mut BitReader, k: u32, vals: Vec<u32>) -> (res: Result<Vec<u32>, Error>)
    requires
        old(r).wf(),
        k <= 29,
        forall|i: int| 0 <= i < vals@.len() ==> #[trigger] vals@[i] % (pow2(k as nat) as u32) == 0,
    ensures
        final(r).wf(),
        read_list(res, final(r).rest(), remainders_taken(old(r).rest(), k as nat, 0, vals@)),
        res matches Ok(v) ==> v@.len() == vals@.len(),
{
    let ghost whole = remainders_taken(r.rest(), k as nat, 0, vals@);
    let n: usize = vals.len();
    let mut v: Vec<u32> = vals;
    let mut i: usize = 0;
    while i < n
        invariant
            r.wf(),
            k <= 29,
            i <= n == v@.len(),
            whole == remainders_taken(r.rest(), k as nat, i as int, v@),
            whole == remainders_taken(old(r).rest(), k as nat, 0, vals@),
            forall|j: int| i <= j < n ==> #[trigger] v@[j] % (pow2(k as nat) as u32) == 0,
        decreases n - i,
    {
        let x: u64 = take_bits(r, k)?;
        proof {
            lemma_pow2_thirty();
            lemma_pow2_monotone(k as nat, 29);
            assert(v@[i as int] % (pow2(k as nat) as u32) == 0);
            lemma_room(v@[i as int] as int, k as nat, x as int);
        }
        let sum: u32 = v[i] + x as u32;
        v.set(i, sum);
        i += 1;
    }
    Ok(v)
}

fn take_reference(c: &Coding, at: u64, r: &mut BitReader) -> (res: Result<Vec<u32>, Error>)
    requires
        old(r).wf(),
        c.wf(),
    ensures
        final(r).wf(),
        read_list(res, final(r).rest(), reference_taken(*c, at as int, old(r).rest())),
        res matches Ok(v) ==> v@.len() == (if c.has_reference(at as int) {
            1int
        } else {
            0
        }),
{
    if c.pp && at == 0 {
        proof {
            reveal_with_fuel(samples_taken, 2);
        }
        take_samples(r, c.bps, 1)
    } else {
        Ok(Vec::new())
    }
}

fn take_low_entropy(c: &Coding, at: u64, r: &mut BitReader) -> (res: Result<Vec<u32>, Error>)
    requires
        old(r).wf(),
        c.wf(),
        at < c.interval(),
    ensures
        final(r).wf(),
        read_list(res, final(r).rest(), low_entropy_taken(*c, at as int, old(r).rest())),
{
    let pairs: u64 = take_bits(r, 1)?;
    let mut v = take_reference(c, at, r)?;
    if pairs == 1 {
        return take_pairs(r, c.block, v);
    }
    let z: u32 = take_fs(r)?;
    let b: u64 = at / c.block as u64;
    proof {
        assert(0 <= b < c.rsi) by (nonlinear_arith)
            requires
                b == at as int / c.block as int,
                0 <= at < c.rsi * c.block,
                c.block > 0,
        ;
    }
    let blocks: u64 = if z == 4 {
        let left: u64 = c.rsi as u64 - b;
        let segment: u64 = 64 - b % 64;
        if left < segment {
            left
        } else {
            segment
        }
    } else if z > 4 {
        z as u64
    } else {
        z as u64 + 1
    };
    assert(blocks == zero_run(*c, z as nat, at as int / c.block as int));
    assert(c.block <= blocks * c.block <= 0x1000_0000 * 0xffff_ffff) by (nonlinear_arith)
        requires
            1 <= blocks <= 0x1000_0000,
            2 <= c.block <= 0xffff_ffff,
    ;
    let n: u64 = blocks * c.block as u64 - v.len() as u64;
    let ghost head = v@;
    let mut i: u64 = 0;
    while i < n
        invariant
            i <= n,
            v@ == head + Seq::new(i as nat, |i: int| 0u32),
        decreases n - i,
    {
        v.push(0);
        i += 1;
        assert(v@ =~= head + Seq::new(i as nat, |i: int| 0u32));
    }
    assert(v@ =~= head + Seq::new(n as nat, |i: int| 0u32));
    Ok(v)
}

fn take_split(c: &Coding, at: u64, k: u32, r: &mut BitReader) -> (res: Result<Vec<u32>, Error>)
    requires
        old(r).wf(),
        c.wf(),
        k <= 29,
    ensures
        final(r).wf(),
        read_list(res, final(r).rest(), split_taken(*c, at as int, k as nat, old(r).rest())),
{
    let mut v = take_reference(c, at, r)?;
    let n: u32 = c.block - v.len() as u32;
    let mut q = take_quotients(r, k, n)?;
    if k > 0 {
        q = take_remainders(r, k, q)?;
    }
    v.append(&mut q);
    Ok(v)
}

pub(crate) proof fn lemma_fs_shorter(rest: Seq<bool>)
    ensures
        fundamental(rest) matches Ok((z, r)) ==> r.len() < rest.len(),
{
    lemma_leading_zeros_bound(rest);
}

pub(crate) proof fn lemma_samples_shorter(rest: Seq<bool>, w: nat, n: nat, vals: Seq<u32>)
    ensures
        samples_taken(rest, w, n, vals) matches Ok((v, r)) ==> r.len() <= rest.len() && v.len()
            == vals.len() + n,
    decreases n,
{
    if n > 0 {
        if let Ok((x, r)) = taken(rest, w) {
            lemma_samples_shorter(r, w, (n - 1) as nat, vals.push(x as u32));
        }
    }
}

pub(crate) proof fn lemma_pairs_shorter(rest: Seq<bool>, n: nat, vals: Seq<u32>)
    requires
        vals.len() <= n,
        n % 2 == 0,
    ensures
        pairs_taken(rest, n, vals) matches Ok((v, r)) ==> r.len() <= rest.len() && v.len() == n,
    decreases n - vals.len(),
{
    if vals.len() < n {
        if let Ok((m, r)) = fundamental(rest) {
            lemma_fs_shorter(rest);
            if m <= 90 {
                let i = pair_sum(m);
                let second = m - pair_start(i);
                if vals.len() % 2 == 0 {
                    lemma_pairs_shorter(
                        r,
                        n,
                        vals.push((i - second) as u32).push(second as u32),
                    );
                } else {
                    lemma_pairs_shorter(r, n, vals.push(second as u32));
                }
            }
        }
    }
}

pub(crate) proof fn lemma_quotients_shorter(rest: Seq<bool>, k: nat, n: nat, vals: Seq<u32>)
    ensures
        quotients_taken(rest, k, n, vals) matches Ok((v, r)) ==> r.len() <= rest.len() && v.len()
            == vals.len() + n,
    decreases n,
{
    if n > 0 {
        if let Ok((q, r)) = fundamental(rest) {
            lemma_fs_shorter(rest);
            lemma_quotients_shorter(
                r,
                k,
                (n - 1) as nat,
                vals.push((q * pow2(k) % 0x1_0000_0000) as u32),
            );
        }
    }
}

pub(crate) proof fn lemma_remainders_shorter(rest: Seq<bool>, k: nat, i: int, vals: Seq<u32>)
    ensures
        remainders_taken(rest, k, i, vals) matches Ok((v, r)) ==> r.len() <= rest.len() && v.len()
            == vals.len(),
    decreases vals.len() - i,
{
    if 0 <= i < vals.len() {
        if let Ok((x, r)) = taken(rest, k) {
            lemma_remainders_shorter(r, k, i + 1, vals.update(i, (vals[i] + x) as u32));
        }
    }
}

/// A block takes at least one bit and gives whole blocks of samples.
pub(crate) proof fn lemma_block_shorter(c: Coding, at: int, rest: Seq<bool>)
    requires
        c.wf(),
        0 <= at < c.interval(),
        at % c.block as int == 0,
    ensures
        block_taken(c, at, rest) matches Ok((v, r)) ==> r.len() < rest.len() && v.len() > 0
            && v.len() % c.block as nat == 0,
{
    let w = id_len(c.bps as int);
    let b = c.block as int;
    vstd::arithmetic::div_mod::lemma_fundamental_div_mod(at, b);
    assert(at + b <= c.interval()) by (nonlinear_arith)
        requires
            at == b * (at / b),
            at < c.rsi * b,
            c.interval() == c.rsi * b,
            b > 0,
    {
        let t = at / b;
        assert(t < c.rsi) by (nonlinear_arith)
            requires
                b * t < c.rsi * b,
                b > 0,
        ;
        assert(b * t + b <= c.rsi * b) by (nonlinear_arith)
            requires
                t + 1 <= c.rsi,
                b > 0,
        ;
    }
    if let Ok((id, r)) = taken(rest, w) {
        lemma_samples_shorter(r, c.bps as nat, c.block as nat, Seq::empty());
        if id == 0 {
            if let Ok((pairs, r1)) = taken(r, 1) {
                lemma_samples_shorter(r1, c.bps as nat, 1, Seq::empty());
                if let Ok((head, r2)) = reference_taken(c, at, r1) {
                    lemma_pairs_shorter(r2, c.block as nat, head);
                    lemma_fs_shorter(r2);
                    if let Ok((z, r3)) = fundamental(r2) {
                        let run = zero_run(c, z, at / b);
                        let t = at / b;
                        assert(t < c.rsi) by (nonlinear_arith)
                            requires
                                t == at / b,
                                0 <= at < c.rsi * b,
                                b > 0,
                        ;
                        assert(run >= 1);
                        assert(run * b >= b) by (nonlinear_arith)
                            requires
                                run >= 1,
                                b > 0,
                        ;
                        vstd::arithmetic::div_mod::lemma_mod_multiples_basic(run, b);
                    }
                }
            }
            vstd::arithmetic::div_mod::lemma_mod_self_0(b);
        } else if id == pow2(w) - 1 {
            vstd::arithmetic::div_mod::lemma_mod_self_0(b);
        } else {
            let k = (id - 1) as nat;
            lemma_samples_shorter(r, c.bps as nat, 1, Seq::empty());
            if let Ok((head, r1)) = reference_taken(c, at, r) {
                lemma_quotients_shorter(r1, k, (c.block - head.len()) as nat, Seq::empty());
                if let Ok((q, r2)) = quotients_taken(
                    r1,
                    k,
                    (c.block - head.len()) as nat,
                    Seq::empty(),
                ) {
                    lemma_remainders_shorter(r2, k, 0, q);
                }
            }
            vstd::arithmetic::div_mod::lemma_mod_self_0(b);
        }
    }
}

fn take_block(c: &Coding, at: u64, r: &mut BitReader) -> (res: Result<Vec<u32>, Error>)
    requires
        old(r).wf(),
        c.wf(),
        at < c.interval(),
    ensures
        final(r).wf(),
        read_list(res, final(r).rest(), block_taken(*c, at as int, old(r).rest())),
{
    let w: u32 = id_len_for(c.bps);
    proof {
        reveal_with_fuel(pow2, 6);
    }
    let id: u64 = take_bits(r, w)?;
    let last: u64 = power_of_two(w) - 1;
    if id == 0 {
        take_low_entropy(c, at, r)
    } else if id == last {
        take_samples(r, c.bps, c.block)
    } else {
        take_split(c, at, (id - 1) as u32, r)
    }
}

fn unmap(xmax: u32, x: u32, d: u32) -> (r: u32)
    requires
        xmax < 0x8000_0000,
    ensures
        r == unmapped(xmax, x, d),
{
    let half: u32 = d / 2 + d % 2;
    let mask: u32 = if x & (xmax / 2 + 1) != 0 {
        xmax
    } else {
        0
    };
    if half <= mask ^ x {
        if d % 2 == 1 {
            x.wrapping_sub(d / 2 + 1)
        } else {
            x.wrapping_add(d / 2)
        }
    } else {
        mask ^ d
    }
}

fn restore_interval(c: &Coding, raw: &Vec<u32>) -> (r: Vec<u32>)
    requires
        c.wf(),
    ensures
        r@ == interval_samples(*c, raw@),
{
    let n: usize = raw.len();
    let mut out: Vec<u32> = Vec::new();
    proof {
        lemma_pow2_thirty();
        lemma_pow2_monotone(c.bps as nat, 31);
    }
    let xmax: u32 = (power_of_two(c.bps) - 1) as u32;
    let mut i: usize = 0;
    while i < n
        invariant
            i <= n == raw@.len(),
            c.wf(),
            xmax == c.xmax(),
            xmax < 0x8000_0000,
            out@ == interval_samples(*c, raw@.take(i as int)),
            out@.len() == i,
        decreases n - i,
    {
        proof {
            assert(raw@.take(i + 1).drop_last() =~= raw@.take(i as int));
            assert(raw@.take(i + 1).last() == raw@[i as int]);
        }
        if c.pp && i > 0 {
            let x: u32 = unmap(xmax, out[i - 1], raw[i]);
            out.push(x);
        } else {
            out.push(raw[i]);
            if !c.pp {
                assert(out@ =~= raw@.take(i + 1));
            } else {
                assert(out@ =~= raw@.take(1));
            }
        }
        i += 1;
    }
    assert(raw@.take(n as int) =~= raw@);
    out
}

/// Decodes `n` samples from a stream.
pub fn aec_decode(src: &[u8], c: &Coding, n: u64) -> (r: Result<Vec<u32>, Error>)
    requires
        c.wf(),
    ensures
        match (r, aec_decoded(*c, bits(src@), Seq::empty(), Seq::empty(), n as nat)) {
            (Ok(v), Ok(w)) => v@ == w,
            (Err(e), Err(m)) => e@ == m,
            _ => false,
        },
{
    let mut reader = BitReader::new(src);
    let mut raw: Vec<u32> = Vec::new();
    let mut out: Vec<u32> = Vec::new();
    assert(c.rsi * c.block <= 4096 * 0xffff_ffff) by (nonlinear_arith)
        requires
            1 <= c.rsi <= 4096,
            0 <= c.block <= 0xffff_ffff,
    ;
    let interval: u64 = c.rsi as u64 * c.block as u64;
    let ghost whole = aec_decoded(*c, bits(src@), Seq::empty(), Seq::empty(), n as nat);
    proof {
        assert(interval > 0) by (nonlinear_arith)
            requires
                interval == c.rsi * c.block,
                c.rsi >= 1,
                c.block >= 2,
        ;
        vstd::arithmetic::div_mod::lemma_small_mod(0, c.block as nat);
    }
    while (out.len() as u64) < n && (raw.len() as u64) < n - out.len() as u64
        invariant
            reader.wf(),
            c.wf(),
            interval == c.interval(),
            0 < interval <= 4096 * 0xffff_ffff,
            raw@.len() < interval,
            raw@.len() % c.block as nat == 0,
            whole == aec_decoded(*c, reader.rest(), raw@, out@, n as nat),
            whole == aec_decoded(*c, bits(src@), Seq::empty(), Seq::empty(), n as nat),
        decreases reader.rest().len(),
    {
        let ghost rest = reader.rest();
        let ghost raw0 = raw@;
        proof {
            lemma_block_shorter(*c, raw@.len() as int, rest);
        }
        let mut vals = take_block(c, raw.len() as u64, &mut reader)?;
        let ghost got = vals@;
        raw.append(&mut vals);
        proof {
            vstd::arithmetic::div_mod::lemma_add_mod_noop(
                raw0.len() as int,
                got.len() as int,
                c.block as int,
            );
            vstd::arithmetic::div_mod::lemma_small_mod(0, c.block as nat);
        }
        if raw.len() as u64 >= interval {
            let mut done = restore_interval(c, &raw);
            proof {
                lemma_interval_len(*c, raw@);
            }
            out.append(&mut done);
            raw = Vec::new();
        }
    }
    let mut done = restore_interval(c, &raw);
    proof {
        lemma_interval_len(*c, raw@);
    }
    out.append(&mut done);
    let ghost all = out@;
    out.truncate(n as usize);
    assert(out@ =~= all.take(n as int));
    Ok(out)
}

/// The coded difference of a sample `x` from its predecessor.
pub open spec fn mapped(xmax: int, prev: int, x: int) -> int {
    let d = x - prev;
    let theta = if prev < xmax - prev {
        prev
    } else {
        xmax - prev
    };
    if 0 <= d <= theta {
        2 * d
    } else if d < 0 && -d <= theta {
        -2 * d - 1
    } else if d < 0 {
        theta - d
    } else {
        theta + d
    }
}

/// The coded form of the samples of an interval.
pub open spec fn coded(c: Coding, samples: Seq<u32>) -> Seq<u32> {
    if c.pp {
        Seq::new(
            samples.len(),
            |i: int|
                if i == 0 {
                    samples[0]
                } else {
                    mapped(c.xmax(), samples[i - 1] as int, samples[i] as int) as u32
                },
        )
    } else {
        samples
    }
}

/// `vals`, filled up with zeros to whole blocks.
pub open spec fn block_padded(vals: Seq<u32>, block: int) -> Seq<u32> {
    vals + Seq::new(((block - vals.len() as int % block) % block) as nat, |i: int| 0u32)
}

/// The sum of the values, each shifted down by `k` bits.
pub open spec fn quotient_sum(vals: Seq<u32>, k: nat) -> nat
    decreases vals.len(),
{
    if vals.len() == 0 {
        0
    } else {
        quotient_sum(vals.drop_last(), k) + vals.last() as nat / pow2(k)
    }
}

/// The bits that the values take when split at `k` bits.
pub open spec fn split_cost(vals: Seq<u32>, k: nat) -> nat {
    (vals.len() * (k + 1)) as nat + quotient_sum(vals, k)
}

/// The cheapest split up to `n`, the smallest where several are cheapest.
pub open spec fn best_split(vals: Seq<u32>, n: nat) -> nat
    decreases n,
{
    if n == 0 {
        0
    } else {
        let b = best_split(vals, (n - 1) as nat);
        if split_cost(vals, n) < split_cost(vals, b) {
            n
        } else {
            b
        }
    }
}

/// The values as consecutive words of `w` bits.
pub open spec fn word_bits(vals: Seq<u32>, w: nat) -> Seq<bool>
    decreases vals.len(),
{
    if vals.len() == 0 {
        Seq::empty()
    } else {
        number_bits(vals[0] as nat, w) + word_bits(vals.skip(1), w)
    }
}

/// A fundamental sequence.
pub open spec fn fs_bits(v: nat) -> Seq<bool> {
    zero_bits(v).push(true)
}

/// The values, shifted down by `k` bits, as fundamental sequences.
pub open spec fn quotient_bits(vals: Seq<u32>, k: nat) -> Seq<bool>
    decreases vals.len(),
{
    if vals.len() == 0 {
        Seq::empty()
    } else {
        fs_bits(vals[0] as nat / pow2(k)) + quotient_bits(vals.skip(1), k)
    }
}

/// The values of a block behind its stored sample.
pub open spec fn block_values(reference: bool, block: Seq<u32>) -> Seq<u32> {
    if reference {
        block.skip(1)
    } else {
        block
    }
}

/// The largest split of a sample width.
pub open spec fn max_split(bps: int) -> nat {
    (pow2(id_len(bps)) - 3) as nat
}

/// The bits of a block.
pub open spec fn block_bits(c: Coding, reference: bool, block: Seq<u32>) -> Seq<bool> {
    let w = id_len(c.bps as int);
    let vals = block_values(reference, block);
    let k = best_split(vals, max_split(c.bps as int));
    if split_cost(vals, k) >= vals.len() * c.bps {
        number_bits((pow2(w) - 1) as nat, w) + word_bits(block, c.bps as nat)
    } else {
        number_bits(k + 1, w) + (if reference {
            number_bits(block[0] as nat, c.bps as nat)
        } else {
            Seq::empty()
        }) + quotient_bits(vals, k) + word_bits(vals, k)
    }
}

/// The bits of the blocks of an interval from `at` on.
pub open spec fn interval_bits(c: Coding, vals: Seq<u32>, at: int) -> Seq<bool>
    decreases vals.len() - at,
{
    if at < 0 || at >= vals.len() || c.block == 0 {
        Seq::empty()
    } else {
        let end = if at + c.block <= vals.len() {
            at + c.block
        } else {
            vals.len() as int
        };
        block_bits(c, c.has_reference(at), vals.subrange(at, end)) + interval_bits(c, vals, end)
    }
}

/// The bits of all samples.
pub open spec fn aec_bits(c: Coding, samples: Seq<u32>) -> Seq<bool>
    decreases samples.len(),
{
    if samples.len() == 0 || c.interval() <= 0 {
        Seq::empty()
    } else {
        let n = if samples.len() < c.interval() {
            samples.len() as int
        } else {
            c.interval()
        };
        interval_bits(c, block_padded(coded(c, samples.take(n)), c.block as int), 0) + aec_bits(
            c,
            samples.skip(n),
        )
    }
}

/// Bits as bytes, the last byte filled up with zeros.
pub open spec fn stream_bytes(bs: Seq<bool>) -> Seq<u8> {
    packed_bytes(bs + zero_bits(((8 - bs.len() % 8) % 8) as nat))
}

fn put_words(w: &mut BitWriter, vals: &[u32], width: u32)
    requires
        old(w).wf(),
    ensures
        final(w).wf(),
        final(w)@ == old(w)@ + word_bits(vals@, width as nat),
{
    let n: usize = vals.len();
    let ghost start = w@;
    let ghost all = word_bits(vals@, width as nat);
    let mut i: usize = 0;
    assert(vals@.skip(0) =~= vals@);
    while i < n
        invariant
            i <= n == vals@.len(),
            w.wf(),
            start + all == w@ + word_bits(vals@.skip(i as int), width as nat),
        decreases n - i,
    {
        let ghost before = w@;
        w.put(vals[i] as u64, width);
        proof {
            let rest = vals@.skip(i as int);
            assert(rest.skip(1) =~= vals@.skip(i + 1));
            let tail = word_bits(vals@.skip(i + 1), width as nat);
            assert(w@ + tail =~= before + (number_bits(rest[0] as nat, width as nat) + tail));
        }
        i += 1;
    }
    assert(vals@.skip(n as int) =~= Seq::<u32>::empty());
    assert(w@ + Seq::<bool>::empty() =~= w@);
}

pub(crate) proof fn lemma_low_bits(v: nat, k: nat)
    ensures
        number_bits(v % pow2(k), k) == number_bits(v, k),
    decreases k,
{
    lemma_pow2_positive(k);
    if k > 0 {
        let p = pow2((k - 1) as nat);
        lemma_pow2_positive((k - 1) as nat);
        vstd::arithmetic::div_mod::lemma_mod_breakdown(v as int, 2, p as int);
        lemma_low_bits(v / 2, (k - 1) as nat);
        let x = v % pow2(k);
        assert(x == 2 * ((v / 2) % p) + v % 2);
        assert(x / 2 == (v / 2) % p);
        assert(x % 2 == v % 2);
    }
}

fn put_quotients(w: &mut BitWriter, vals: &[u32], k: u32)
    requires
        old(w).wf(),
        k <= 29,
    ensures
        final(w).wf(),
        final(w)@ == old(w)@ + quotient_bits(vals@, k as nat),
{
    let scale: u64 = power_of_two(k);
    let n: usize = vals.len();
    let ghost start = w@;
    let ghost all = quotient_bits(vals@, k as nat);
    let mut i: usize = 0;
    assert(vals@.skip(0) =~= vals@);
    while i < n
        invariant
            i <= n == vals@.len(),
            w.wf(),
            1 <= scale == pow2(k as nat),
            start + all == w@ + quotient_bits(vals@.skip(i as int), k as nat),
        decreases n - i,
    {
        let ghost before = w@;
        let q: u64 = vals[i] as u64 / scale;
        proof {
            vstd::arithmetic::div_mod::lemma_div_is_ordered_by_denominator(
                vals@[i as int] as int,
                1,
                scale as int,
            );
            assert(vals@[i as int] as int / 1 == vals@[i as int]);
        }
        w.put_zeros(q as u32);
        w.put_bit(true);
        proof {
            let rest = vals@.skip(i as int);
            assert(rest.skip(1) =~= vals@.skip(i + 1));
            let tail = quotient_bits(vals@.skip(i + 1), k as nat);
            assert(w@ + tail =~= before + (fs_bits(rest[0] as nat / pow2(k as nat)) + tail));
        }
        i += 1;
    }
    assert(vals@.skip(n as int) =~= Seq::<u32>::empty());
    assert(w@ + Seq::<bool>::empty() =~= w@);
}

pub(crate) proof fn lemma_quotient_sum_bound(vals: Seq<u32>, k: nat)
    ensures
        quotient_sum(vals, k) <= vals.len() * 0xffff_ffff,
    decreases vals.len(),
{
    if vals.len() > 0 {
        lemma_quotient_sum_bound(vals.drop_last(), k);
        lemma_pow2_positive(k);
        let v = vals.last() as int;
        vstd::arithmetic::div_mod::lemma_div_is_ordered_by_denominator(v, 1, pow2(k) as int);
        assert(v / 1 == v);
    }
}

fn cost_of(vals: &[u32], k: u32) -> (r: u128)
    requires
        k <= 29,
    ensures
        r == split_cost(vals@, k as nat),
{
    let scale: u64 = power_of_two(k);
    let n: usize = vals.len();
    let mut sum: u128 = 0;
    let mut i: usize = 0;
    assert(vals@.take(0) =~= Seq::<u32>::empty());
    while i < n
        invariant
            i <= n == vals@.len(),
            1 <= scale == pow2(k as nat),
            sum == quotient_sum(vals@.take(i as int), k as nat),
        decreases n - i,
    {
        proof {
            lemma_quotient_sum_bound(vals@.take(i as int), k as nat);
            assert(vals@.take(i + 1).drop_last() =~= vals@.take(i as int));
            assert(vals@.take(i + 1).last() == vals@[i as int]);
            vstd::arithmetic::div_mod::lemma_div_is_ordered_by_denominator(
                vals@[i as int] as int,
                1,
                scale as int,
            );
            assert(vals@[i as int] as int / 1 == vals@[i as int]);
        }
        sum = sum + (vals[i] as u64 / scale) as u128;
        i += 1;
    }
    proof {
        assert(vals@.take(n as int) =~= vals@);
        lemma_quotient_sum_bound(vals@, k as nat);
        assert(n * (k + 1) <= n * 30) by (nonlinear_arith)
            requires
                0 <= k <= 29,
                0 <= n,
        ;
    }
    n as u128 * (k as u128 + 1) + sum
}

fn choose_split(vals: &[u32], n: u32) -> (r: (u32, u128))
    requires
        n <= 29,
    ensures
        r.0 == best_split(vals@, n as nat),
        r.0 <= n,
        r.1 == split_cost(vals@, r.0 as nat),
{
    let mut best: u32 = 0;
    let mut cost: u128 = cost_of(vals, 0);
    let mut k: u32 = 0;
    while k < n
        invariant
            k <= n <= 29,
            best == best_split(vals@, k as nat),
            best <= k,
            cost == split_cost(vals@, best as nat),
        decreases n - k,
    {
        k += 1;
        let next: u128 = cost_of(vals, k);
        if next < cost {
            best = k;
            cost = next;
        }
    }
    (best, cost)
}

fn put_block(w: &mut BitWriter, c: &Coding, reference: bool, block: &[u32])
    requires
        old(w).wf(),
        c.wf(),
        block@.len() > 0,
    ensures
        final(w).wf(),
        final(w)@ == old(w)@ + block_bits(*c, reference, block@),
{
    let ghost start = w@;
    let width: u32 = id_len_for(c.bps);
    proof {
        reveal_with_fuel(pow2, 6);
    }
    let last: u64 = power_of_two(width) - 1;
    let n: usize = block.len();
    let vals: &[u32] = if reference {
        vstd::slice::slice_subrange(block, 1, n)
    } else {
        block
    };
    assert(vals@ =~= block_values(reference, block@));
    let (k, cost) = choose_split(vals, (last - 2) as u32);
    proof {
        assert(vals@.len() * c.bps <= vals@.len() * 31) by (nonlinear_arith)
            requires
                0 <= c.bps <= 31,
                0 <= vals@.len(),
        ;
    }
    let plain_cost: u128 = vals.len() as u128 * c.bps as u128;
    if cost >= plain_cost {
        w.put(last, width);
        put_words(w, block, c.bps);
        assert(w@ =~= start + block_bits(*c, reference, block@));
    } else {
        w.put(k as u64 + 1, width);
        if reference {
            w.put(block[0] as u64, c.bps);
        }
        put_quotients(w, vals, k);
        put_words(w, vals, k);
        assert(w@ =~= start + block_bits(*c, reference, block@));
    }
}

fn map_sample(xmax: u32, prev: u32, x: u32) -> (r: u32)
    requires
        xmax < 0x8000_0000,
        prev <= xmax,
        x <= xmax,
    ensures
        r == mapped(xmax as int, prev as int, x as int),
        r <= xmax,
{
    let theta: u32 = if prev < xmax - prev {
        prev
    } else {
        xmax - prev
    };
    if x >= prev {
        let d: u32 = x - prev;
        if d <= theta {
            2 * d
        } else {
            theta + d
        }
    } else {
        let d: u32 = prev - x;
        if d <= theta {
            2 * d - 1
        } else {
            theta + d
        }
    }
}

/// Whether samples fit their width, where that matters.
pub open spec fn samples_fit(c: Coding, samples: Seq<u32>) -> bool {
    c.pp ==> forall|i: int| 0 <= i < samples.len() ==> #[trigger] samples[i] <= c.xmax()
}

fn code_interval(c: &Coding, samples: &[u32]) -> (r: Vec<u32>)
    requires
        c.wf(),
        samples@.len() > 0,
        samples_fit(*c, samples@),
    ensures
        r@ == block_padded(coded(*c, samples@), c.block as int),
{
    let n: usize = samples.len();
    let mut out: Vec<u32> = Vec::new();
    proof {
        lemma_pow2_thirty();
        lemma_pow2_monotone(c.bps as nat, 31);
    }
    let xmax: u32 = (power_of_two(c.bps) - 1) as u32;
    let mut i: usize = 0;
    while i < n
        invariant
            i <= n == samples@.len(),
            c.wf(),
            xmax == c.xmax(),
            xmax < 0x8000_0000,
            samples_fit(*c, samples@),
            out@.len() == i,
            forall|j: int| 0 <= j < i ==> #[trigger] out@[j] == coded(*c, samples@)[j],
        decreases n - i,
    {
        if c.pp && i > 0 {
            out.push(map_sample(xmax, samples[i - 1], samples[i]));
        } else {
            out.push(samples[i]);
        }
        i += 1;
    }
    assert(out@ =~= coded(*c, samples@));
    let block: u64 = c.block as u64;
    let over: u64 = n as u64 % block;
    let pad: u64 = if over == 0 {
        0
    } else {
        block - over
    };
    proof {
        let b = block as int;
        if over == 0 {
            vstd::arithmetic::div_mod::lemma_mod_self_0(b);
        } else {
            vstd::arithmetic::div_mod::lemma_small_mod((b - over) as nat, b as nat);
        }
    }
    let ghost head = out@;
    let mut j: u64 = 0;
    while j < pad
        invariant
            j <= pad,
            out@ == head + Seq::new(j as nat, |i: int| 0u32),
        decreases pad - j,
    {
        out.push(0);
        j += 1;
        assert(out@ =~= head + Seq::new(j as nat, |i: int| 0u32));
    }
    assert(out@ =~= block_padded(head, c.block as int));
    out
}

fn put_interval(w: &mut BitWriter, c: &Coding, vals: &[u32])
    requires
        old(w).wf(),
        c.wf(),
    ensures
        final(w).wf(),
        final(w)@ == old(w)@ + interval_bits(*c, vals@, 0),
{
    let n: usize = vals.len();
    let ghost start = w@;
    let ghost all = interval_bits(*c, vals@, 0);
    let mut at: usize = 0;
    while at < n
        invariant
            at <= n == vals@.len(),
            w.wf(),
            c.wf(),
            start + all == w@ + interval_bits(*c, vals@, at as int),
        decreases n - at,
    {
        let end: usize = if n - at >= c.block as usize {
            at + c.block as usize
        } else {
            n
        };
        let ghost before = w@;
        put_block(w, c, c.pp && at == 0, vstd::slice::slice_subrange(vals, at, end));
        proof {
            let b = block_bits(*c, c.has_reference(at as int), vals@.subrange(at as int, end as int));
            let tail = interval_bits(*c, vals@, end as int);
            assert(w@ + tail =~= before + (b + tail));
        }
        at = end;
    }
    assert(w@ + Seq::<bool>::empty() =~= w@);
}

/// Encodes samples, with split and stored blocks only.
pub fn aec_encode(samples: &[u32], c: &Coding) -> (r: Vec<u8>)
    requires
        c.wf(),
        samples_fit(*c, samples@),
    ensures
        r@ == stream_bytes(aec_bits(*c, samples@)),
{
    let n: usize = samples.len();
    let mut w = BitWriter::new();
    assert(0 < c.rsi * c.block <= 4096 * 0xffff_ffff) by (nonlinear_arith)
        requires
            1 <= c.rsi <= 4096,
            2 <= c.block <= 0xffff_ffff,
    ;
    let interval: u64 = c.rsi as u64 * c.block as u64;
    let ghost all = aec_bits(*c, samples@);
    let mut at: usize = 0;
    assert(samples@.skip(0) =~= samples@);
    assert(w@ + all =~= all);
    while at < n
        invariant
            at <= n == samples@.len(),
            c.wf(),
            w.wf(),
            0 < interval == c.interval(),
            samples_fit(*c, samples@),
            all == w@ + aec_bits(*c, samples@.skip(at as int)),
        decreases n - at,
    {
        let end: usize = if (n - at) as u64 >= interval {
            at + interval as usize
        } else {
            n
        };
        let part = vstd::slice::slice_subrange(samples, at, end);
        let ghost before = w@;
        let vals = code_interval(c, part);
        put_interval(&mut w, c, vals.as_slice());
        proof {
            let rest = samples@.skip(at as int);
            assert(rest.take(end - at) =~= part@);
            assert(rest.skip(end - at) =~= samples@.skip(end as int));
            let b = interval_bits(*c, vals@, 0);
            let tail = aec_bits(*c, samples@.skip(end as int));
            assert(w@ + tail =~= before + (b + tail));
        }
        at = end;
    }
    assert(samples@.skip(n as int) =~= Seq::<u32>::empty());
    assert(w@ + Seq::<bool>::empty() =~= w@);
    let r = w.finish();
    proof {
        law_packed_bytes_of_bits(r@);
    }
    r
}

} // verus!
