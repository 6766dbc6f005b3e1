//! The LZF stream format.
//!
//! A stream is a run of tokens. A control byte below 32 starts a literal run; any
//! other one is a back reference into what was decoded so far.

use vstd::prelude::*;

use crate::error::{same_bytes, Error};

verus! {

const MAX_OFF: usize = 8192;

const MAX_REF: usize = 264;

/// `out` continued by `len` bytes, each a copy of the byte `dist` before it.
pub open spec fn copy_back(out: Seq<u8>, dist: nat, len: nat) -> Seq<u8>
    decreases len,
{
    if len == 0 {
        out
    } else {
        copy_back(out.push(out[out.len() - dist]), dist, (len - 1) as nat)
    }
}

/// What the tokens in `rest` decode to, after `out` was decoded.
pub open spec fn lzf_decoded(rest: Seq<u8>, out: Seq<u8>) -> Result<Seq<u8>, Seq<char>>
    decreases rest.len(),
{
    if rest.len() == 0 {
        Ok(out)
    } else if rest[0] < 32 {
        let run = rest[0] + 1;
        if 1 + run > rest.len() {
            Err("lzf: truncated literal run"@)
        } else {
            lzf_decoded(rest.skip(1 + run), out + rest.subrange(1, 1 + run))
        }
    } else {
        let long = rest[0] / 32 == 7;
        let at: int = if long {
            2
        } else {
            1
        };
        if long && rest.len() < 2 {
            Err("lzf: truncated length byte"@)
        } else if rest.len() <= at {
            Err("lzf: truncated offset byte"@)
        } else {
            let len = if long {
                9 + rest[1]
            } else {
                2 + rest[0] as int / 32
            };
            let dist = (rest[0] % 32) * 256 + rest[at] + 1;
            if dist > out.len() {
                Err("lzf: back reference before start of output"@)
            } else {
                lzf_decoded(rest.skip(at + 1), copy_back(out, dist as nat, len as nat))
            }
        }
    }
}

pub(crate) proof fn lemma_copy_back_repeats(input: Seq<u8>, pos: int, dist: nat, len: nat)
    requires
        0 < dist <= pos,
        pos + len <= input.len(),
        forall|k: int| 0 <= k < len ==> input[pos - dist + k] == #[trigger] input[pos + k],
    ensures
        copy_back(input.take(pos), dist, len) == input.take(pos + len),
    decreases len,
{
    if len > 0 {
        let out = input.take(pos);
        assert(input[pos - dist + 0] == input[pos + 0]);
        assert(out.push(out[out.len() - dist]) =~= input.take(pos + 1));
        assert forall|k: int| 0 <= k < len - 1 implies input[(pos + 1) - dist + k]
            == #[trigger] input[(pos + 1) + k] by {
            assert(input[pos - dist + (k + 1)] == input[pos + (k + 1)]);
        }
        lemma_copy_back_repeats(input, pos + 1, dist, (len - 1) as nat);
    }
}

/// Decompresses an LZF stream.
pub fn lzf_decompress(input: &[u8]) -> (r: Result<Vec<u8>, Error>)
    ensures
        same_bytes(r, lzf_decoded(input@, Seq::empty())),
{
    let mut out: Vec<u8> = Vec::new();
    let n: usize = input.len();
    let mut i: usize = 0;
    assert(input@.skip(0) =~= input@);
    while i < n
        invariant
            i <= n == input@.len(),
            lzf_decoded(input@, Seq::empty()) == lzf_decoded(input@.skip(i as int), out@),
        decreases n - i,
    {
        let ghost rest = input@.skip(i as int);
        let ghost before = out@;
        let ctrl: u8 = input[i];
        i += 1;
        if ctrl < 32 {
            let len: usize = ctrl as usize + 1;
            if len > n - i {
                return Err(Error::new("lzf: truncated literal run"));
            }
            let lit = vstd::slice::slice_subrange(input, i, i + len);
            out.extend_from_slice(lit);
            i += len;
            proof {
                assert(rest.subrange(1, 1 + len) =~= lit@);
                assert(out@ =~= before + lit@);
                assert(rest.skip(1 + len) =~= input@.skip(i as int));
            }
        } else {
            let mut len: usize = (ctrl / 32) as usize;
            let long = len == 7;
            if long {
                if i >= n {
                    return Err(Error::new("lzf: truncated length byte"));
                }
                len += input[i] as usize;
                i += 1;
            }
            len += 2;
            if i >= n {
                return Err(Error::new("lzf: truncated offset byte"));
            }
            let dist: usize = (ctrl % 32) as usize * 256 + input[i] as usize + 1;
            i += 1;
            if dist > out.len() {
                return Err(Error::new("lzf: back reference before start of output"));
            }
            proof {
                assert(rest.skip(if long { 3 } else { 2 }) =~= input@.skip(i as int));
            }
            let mut k: usize = 0;
            while k < len
                invariant
                    k <= len,
                    0 < dist <= before.len(),
                    before.len() + k == out@.len(),
                    copy_back(before, dist as nat, len as nat) == copy_back(
                        out@,
                        dist as nat,
                        (len - k) as nat,
                    ),
                decreases len - k,
            {
                let b: u8 = out[out.len() - dist];
                out.push(b);
                k += 1;
            }
        }
    }
    assert(input@.skip(n as int) =~= Seq::<u8>::empty());
    Ok(out)
}

/// The slot of a three-byte prefix in the match table.
pub open spec fn prefix_slot(a: u8, b: u8, c: u8) -> int {
    ((a as u32 * 65536 + b as u32 * 256 + c as u32) as u32).wrapping_mul(2_654_435_761u32) as int
        / 262144
}

pub(crate) fn prefix_hash(a: u8, b: u8, c: u8) -> (r: usize)
    ensures
        r < 16384,
        r == prefix_slot(a, b, c),
{
    let v: u32 = a as u32 * 65536 + b as u32 * 256 + c as u32;
    (v.wrapping_mul(2_654_435_761u32) / 262144) as usize
}

/// The bytes from `from` to `to` as literal runs of at most 32 bytes.
pub open spec fn literal_runs(input: Seq<u8>, from: int, to: int) -> Seq<u8>
    decreases to - from,
{
    if from >= to {
        Seq::empty()
    } else {
        let run = if to - from < 32 {
            to - from
        } else {
            32
        };
        seq![(run - 1) as u8] + input.subrange(from, from + run) + literal_runs(
            input,
            from + run,
            to,
        )
    }
}

/// How far the bytes at `cand` and at `pos` agree from `k` on, up to `max`.
pub open spec fn agreement(input: Seq<u8>, cand: int, pos: int, k: int, max: int) -> int
    decreases max - k,
{
    if k < max && input[cand + k] == input[pos + k] {
        agreement(input, cand, pos, k + 1, max)
    } else {
        k
    }
}

/// The token of a match `dist` back, `len` bytes long.
pub open spec fn match_token(dist: int, len: int) -> Seq<u8> {
    let off = dist - 1;
    if len < 9 {
        seq![(off / 256 + (len - 2) * 32) as u8, (off % 256) as u8]
    } else {
        seq![(off / 256 + 224) as u8, (len - 9) as u8, (off % 256) as u8]
    }
}

/// Whether the earlier position `slot` may serve as a match at `pos`.
pub open spec fn usable(input: Seq<u8>, slot: Option<usize>, pos: int) -> bool {
    match slot {
        Some(cand) => {
            &&& pos - cand <= 8192
            &&& input[cand as int] == input[pos]
            &&& input[cand + 1] == input[pos + 1]
            &&& input[cand + 2] == input[pos + 2]
        },
        None => false,
    }
}

/// The longest match that may be looked for at `pos`.
pub open spec fn longest(input: Seq<u8>, pos: int) -> int {
    if input.len() - pos < 264 {
        input.len() - pos
    } else {
        264
    }
}

/// The tokens of the greedy encoding from `pos` on, when the bytes from `lit` on
/// are still to be written and `table` holds the last position of each prefix slot.
pub open spec fn lzf_tokens(
    input: Seq<u8>,
    table: Seq<Option<usize>>,
    lit: int,
    pos: int,
) -> Seq<u8>
    decreases input.len() - pos,
{
    if pos < 0 || pos + 2 >= input.len() {
        literal_runs(input, lit, input.len() as int)
    } else {
        let h = prefix_slot(input[pos], input[pos + 1], input[pos + 2]);
        let slot = table[h];
        let table2 = table.update(h, Some(pos as usize));
        if usable(input, slot, pos) {
            let cand = slot->0 as int;
            let len = agreement(input, cand, pos, 3, longest(input, pos));
            if len < 1 || pos + len > input.len() {
                Seq::empty()
            } else {
                literal_runs(input, lit, pos) + match_token(pos - cand, len) + lzf_tokens(
                    input,
                    table2,
                    pos + len,
                    pos + len,
                )
            }
        } else {
            lzf_tokens(input, table2, lit, pos + 1)
        }
    }
}

/// The LZF encoding of `input`.
pub open spec fn lzf_encoding(input: Seq<u8>) -> Seq<u8> {
    lzf_tokens(input, Seq::new(16384, |i: int| None::<usize>), 0, 0)
}

/// `table` only holds positions before `pos`.
pub open spec fn earlier(table: Seq<Option<usize>>, pos: int) -> bool {
    table.len() == 16384 && forall|h: int|
        0 <= h < 16384 ==> (#[trigger] table[h] matches Some(c) ==> c < pos)
}

pub(crate) proof fn lemma_slot_bound(a: u8, b: u8, c: u8)
    ensures
        0 <= prefix_slot(a, b, c) < 16384,
{
}

pub(crate) proof fn lemma_agreement_bound(input: Seq<u8>, cand: int, pos: int, k: int, max: int)
    requires
        k <= max,
    ensures
        k <= agreement(input, cand, pos, k, max) <= max,
        forall|i: int|
            k <= i < agreement(input, cand, pos, k, max) ==> input[cand + i] == #[trigger] input[pos
                + i],
    decreases max - k,
{
    if k < max && input[cand + k] == input[pos + k] {
        lemma_agreement_bound(input, cand, pos, k + 1, max);
    }
}

pub(crate) proof fn lemma_agreement(input: Seq<u8>, cand: int, pos: int, k: int, r: int, max: int)
    requires
        0 <= k <= r <= max,
        forall|i: int| k <= i < r ==> input[cand + i] == #[trigger] input[pos + i],
        r < max ==> input[cand + r] != input[pos + r],
    ensures
        agreement(input, cand, pos, k, max) == r,
    decreases r - k,
{
    if k < r {
        assert(input[cand + k] == input[pos + k]);
        lemma_agreement(input, cand, pos, k + 1, r, max);
    }
}

pub(crate) fn emit_literals(out: &mut Vec<u8>, input: &[u8], from: usize, to: usize)
    requires
        from <= to <= input@.len(),
    ensures
        final(out)@ == old(out)@ + literal_runs(input@, from as int, to as int),
{
    let mut s: usize = from;
    let ghost start = out@;
    assert(out@ + literal_runs(input@, from as int, to as int) =~= start + literal_runs(
        input@,
        from as int,
        to as int,
    ));
    while s < to
        invariant
            s <= to <= input@.len(),
            out@ + literal_runs(input@, s as int, to as int) == start + literal_runs(
                input@,
                from as int,
                to as int,
            ),
        decreases to - s,
    {
        let left: usize = to - s;
        let run: usize = if left < 32 {
            left
        } else {
            32
        };
        let ghost before = out@;
        out.push((run - 1) as u8);
        let lit = vstd::slice::slice_subrange(input, s, s + run);
        out.extend_from_slice(lit);
        proof {
            let tail = literal_runs(input@, s + run, to as int);
            assert(out@ + tail =~= before + (seq![(run - 1) as u8] + lit@ + tail));
        }
        s += run;
    }
    assert(out@ + literal_runs(input@, to as int, to as int) =~= out@);
}

/// The length of the longest match at `pos` with the bytes at `cand`, up to
/// `max_len`.
pub(crate) fn match_length(input: &[u8], cand: usize, pos: usize, max_len: usize) -> (r: usize)
    requires
        cand < pos,
        3 <= max_len,
        pos + max_len <= input@.len(),
        input@[cand as int] == input@[pos as int],
        input@[cand + 1] == input@[pos + 1],
        input@[cand + 2] == input@[pos + 2],
    ensures
        3 <= r <= max_len,
        forall|k: int| 0 <= k < r ==> input@[cand + k] == #[trigger] input@[pos + k],
        r < max_len ==> input@[cand + r] != input@[pos + r],
{
    let n: usize = input.len();
    let mut mlen: usize = 3;
    while mlen < max_len && input[cand + mlen] == input[pos + mlen]
        invariant
            cand < pos,
            3 <= mlen <= max_len,
            pos + max_len <= n == input@.len(),
            forall|k: int| 0 <= k < mlen ==> input@[cand + k] == #[trigger] input@[pos + k],
        decreases max_len - mlen,
    {
        mlen += 1;
    }
    mlen
}

fn emit_match(out: &mut Vec<u8>, dist: usize, len: usize)
    requires
        1 <= dist <= 8192,
        3 <= len <= 264,
    ensures
        final(out)@ == old(out)@ + match_token(dist as int, len as int),
{
    let ghost start = out@;
    let off: usize = dist - 1;
    if len < 9 {
        out.push((off / 256 + (len - 2) * 32) as u8);
    } else {
        out.push((off / 256 + 224) as u8);
        out.push((len - 9) as u8);
    }
    out.push((off % 256) as u8);
    assert(out@ =~= start + match_token(dist as int, len as int));
}

proof fn lemma_match_decodes(plain: Seq<u8>, dist: int, len: int, s: Seq<u8>)
    requires
        1 <= dist <= 8192,
        dist <= plain.len(),
        3 <= len <= 264,
    ensures
        lzf_decoded(match_token(dist, len) + s, plain) == lzf_decoded(
            s,
            copy_back(plain, dist as nat, len as nat),
        ),
{
    let token = match_token(dist, len);
    let rest = token + s;
    let off = dist - 1;
    assert(off / 256 < 32);
    if len < 9 {
        assert(rest[0] == off / 256 + (len - 2) * 32);
        assert(rest[0] / 32 == len - 2);
        assert(rest[0] % 32 == off / 256);
        assert(rest.skip(2) =~= s);
    } else {
        assert(rest[0] == off / 256 + 224);
        assert(rest[0] / 32 == 7);
        assert(rest[0] % 32 == off / 256);
        assert(rest.skip(3) =~= s);
    }
}

/// The number of literal runs that `n` bytes take.
pub open spec fn run_count(n: int) -> int {
    (n + 31) / 32
}

proof fn lemma_runs(input: Seq<u8>, from: int, to: int, s: Seq<u8>)
    requires
        0 <= from <= to <= input.len(),
    ensures
        lzf_decoded(literal_runs(input, from, to) + s, input.take(from)) == lzf_decoded(
            s,
            input.take(to),
        ),
        literal_runs(input, from, to).len() == to - from + run_count(to - from),
        from < to ==> literal_runs(input, from, to)[0] < 32,
    decreases to - from,
{
    if from < to {
        let run = if to - from < 32 {
            to - from
        } else {
            32
        };
        let tail = literal_runs(input, from + run, to);
        let rest = literal_runs(input, from, to) + s;
        assert(rest[0] == run - 1);
        assert(rest.subrange(1, 1 + run) =~= input.subrange(from, from + run));
        assert(input.take(from) + input.subrange(from, from + run) =~= input.take(from + run));
        assert(rest.skip(1 + run) =~= tail + s);
        lemma_runs(input, from + run, to, s);
    } else {
        assert(literal_runs(input, from, to) + s =~= s);
    }
}

#[verifier::rlimit(40)]
proof fn lemma_tokens(input: Seq<u8>, table: Seq<Option<usize>>, lit: int, pos: int)
    requires
        0 <= lit <= pos <= input.len() <= usize::MAX,
        earlier(table, pos),
    ensures
        lzf_decoded(lzf_tokens(input, table, lit, pos), input.take(lit)) == Ok::<
            Seq<u8>,
            Seq<char>,
        >(input),
        lzf_tokens(input, table, lit, pos).len() <= input.len() - lit + run_count(
            input.len() - lit,
        ),
        lit < input.len() && (lit < pos || pos == 0) ==> lzf_tokens(input, table, lit, pos).len()
            > 0 && lzf_tokens(input, table, lit, pos)[0] < 32,
    decreases input.len() - pos,
{
    let n = input.len() as int;
    if pos + 2 >= n {
        let runs = literal_runs(input, lit, n);
        lemma_runs(input, lit, n, Seq::empty());
        assert(runs + Seq::<u8>::empty() =~= runs);
        assert(input.take(n) =~= input);
    } else {
        let h = prefix_slot(input[pos], input[pos + 1], input[pos + 2]);
        lemma_slot_bound(input[pos], input[pos + 1], input[pos + 2]);
        let slot = table[h];
        let table2 = table.update(h, Some(pos as usize));
        if usable(input, slot, pos) {
            let cand = slot->0 as int;
            let dist = pos - cand;
            let max = longest(input, pos);
            let len = agreement(input, cand, pos, 3, max);
            lemma_agreement_bound(input, cand, pos, 3, max);
            assert forall|k: int| 0 <= k < len implies input[pos - dist + k]
                == #[trigger] input[pos + k] by {
                assert(pos - dist + k == cand + k);
                if k < 3 {
                    assert(k == 0 || k == 1 || k == 2);
                } else {
                    assert(input[cand + k] == input[pos + k]);
                }
            }
            lemma_copy_back_repeats(input, pos, dist as nat, len as nat);
            lemma_tokens(input, table2, pos + len, pos + len);
            let tail = lzf_tokens(input, table2, pos + len, pos + len);
            let token = match_token(dist, len);
            let runs = literal_runs(input, lit, pos);
            assert(runs + token + tail =~= runs + (token + tail));
            lemma_runs(input, lit, pos, token + tail);
            lemma_match_decodes(input.take(pos), dist, len, tail);
            assert(token.len() < len);
            if lit < pos {
                assert((runs + token + tail)[0] == runs[0]);
            }
        } else {
            lemma_tokens(input, table2, lit, pos + 1);
        }
    }
}

/// The encoding of `input` decodes back to it, is longer than it by at most one byte for
/// each 32, and opens with a literal run.
pub proof fn law_lzf_round_trip(input: Seq<u8>)
    requires
        input.len() <= usize::MAX,
    ensures
        lzf_decoded(lzf_encoding(input), Seq::empty()) == Ok::<Seq<u8>, Seq<char>>(input),
        lzf_encoding(input).len() <= input.len() + run_count(input.len() as int),
        lzf_encoding(input).len() == 0 <==> input.len() == 0,
        input.len() > 0 ==> lzf_encoding(input)[0] < 32,
{
    lemma_tokens(input, Seq::new(16384, |i: int| None::<usize>), 0, 0);
    assert(input.take(0) =~= Seq::<u8>::empty());
}

/// Compresses `input` into an LZF stream that decodes back to `input`: of the earlier
/// places with the same three bytes the last one is taken for a match, as long as it goes.
/// Incompressible data becomes literal runs, so there is always a result.
pub fn lzf_compress(input: &[u8]) -> (r: Vec<u8>)
    ensures
        r@ == lzf_encoding(input@),
        lzf_decoded(r@, Seq::empty()) == Ok::<Seq<u8>, Seq<char>>(input@),
        r@.len() <= input@.len() + run_count(input@.len() as int),
        r@.len() == 0 <==> input@.len() == 0,
        input@.len() > 0 ==> r@[0] < 32,
{
    let n: usize = input.len();
    let mut out: Vec<u8> = Vec::new();
    let mut table: Vec<Option<usize>> = vec![None; 16384];
    let mut lit_start: usize = 0;
    let mut pos: usize = 0;
    proof {
        law_lzf_round_trip(input@);
        assert(table@ =~= Seq::new(16384, |i: int| None::<usize>));
        assert(out@ + lzf_tokens(input@, table@, 0, 0) =~= lzf_encoding(input@));
    }
    while pos < n && n - pos > 2
        invariant
            n == input@.len(),
            lit_start <= pos <= n,
            table@.len() == 16384,
            forall|h: int| 0 <= h < 16384 ==> (#[trigger] table@[h] matches Some(c) ==> c < pos),
            lzf_encoding(input@) == out@ + lzf_tokens(
                input@,
                table@,
                lit_start as int,
                pos as int,
            ),
        decreases n - pos,
    {
        let h: usize = prefix_hash(input[pos], input[pos + 1], input[pos + 2]);
        let slot = table[h];
        table.set(h, Some(pos));
        let mut step: usize = 1;
        match slot {
            Some(cand) => {
                if pos - cand <= MAX_OFF && input[cand] == input[pos] && input[cand + 1]
                    == input[pos + 1] && input[cand + 2] == input[pos + 2] {
                    let left: usize = n - pos;
                    let max_len: usize = if left < MAX_REF {
                        left
                    } else {
                        MAX_REF
                    };
                    let mlen: usize = match_length(input, cand, pos, max_len);
                    proof {
                        lemma_agreement(
                            input@,
                            cand as int,
                            pos as int,
                            3,
                            mlen as int,
                            max_len as int,
                        );
                    }
                    let ghost before = out@;
                    emit_literals(&mut out, input, lit_start, pos);
                    emit_match(&mut out, pos - cand, mlen);
                    proof {
                        let tail = lzf_tokens(input@, table@, pos + mlen, pos + mlen);
                        let runs = literal_runs(input@, lit_start as int, pos as int);
                        let token = match_token(pos - cand, mlen as int);
                        assert(out@ + tail =~= before + (runs + token + tail));
                    }
                    step = mlen;
                    lit_start = pos + mlen;
                }
            },
            None => {},
        }
        pos += step;
    }
    emit_literals(&mut out, input, lit_start, n);
    out
}

} // verus!
