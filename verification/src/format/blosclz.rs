//! The blosclz stream format: tokens like those of LZF, with longer matches, and a
//! control byte that is read ahead of each copy.

use vstd::prelude::*;

use crate::error::{same_bytes, Error};
use crate::format::lzf::{
    agreement, copy_back, earlier, emit_literals, lemma_agreement, lemma_agreement_bound,
    lemma_copy_back_repeats, lemma_slot_bound, literal_runs, match_length, prefix_hash,
    prefix_slot,
};

verus! {

const MAX_DISTANCE: usize = 8191;

/// An extended length: the sum of bytes up to the first that is not 255, and the
/// number of bytes it takes. `None` if the bytes end first.
pub open spec fn extended_length(s: Seq<u8>) -> Option<(nat, nat)>
    decreases s.len(),
{
    if s.len() == 0 {
        None
    } else if s[0] == 255 {
        match extended_length(s.skip(1)) {
            Some((v, count)) => Some((v + 255, count + 1)),
            None => None,
        }
    } else {
        Some((s[0] as nat, 1))
    }
}

/// The result of a stream that ended with `out`.
pub open spec fn ended(out: Seq<u8>, outlen: nat) -> Result<Seq<u8>, Seq<char>> {
    if out.len() == outlen {
        Ok(out)
    } else {
        Err("blosclz: output size mismatch"@)
    }
}

/// A match: how far back, how long, and how many bytes its token takes.
pub struct Match {
    pub dist: int,
    pub len: int,
    pub size: int,
}

/// The match at the start of `rest`, whose control byte is at least 32.
pub open spec fn match_at(rest: Seq<u8>) -> Result<Match, Seq<char>> {
    let base = rest[0] as int / 32 - 1;
    let extension = if base == 6 {
        extended_length(rest.skip(1))
    } else {
        Some((0nat, 0nat))
    };
    match extension {
        None => Err("blosclz: truncated match length"@),
        Some((more, count)) => {
            let at = 1 + count as int;
            let len = base + more + 3;
            if rest.len() <= at {
                Err("blosclz: truncated match"@)
            } else if rest[at] == 255 && rest[0] % 32 == 31 {
                if rest.len() <= at + 2 {
                    Err("blosclz: truncated far match"@)
                } else {
                    Ok(
                        Match {
                            dist: rest[at + 1] * 256 + rest[at + 2] + 8192,
                            len,
                            size: at + 3,
                        },
                    )
                }
            } else {
                Ok(Match { dist: (rest[0] % 32) * 256 + rest[at] + 1, len, size: at + 1 })
            }
        },
    }
}

/// What the tokens in `rest` decode to, after `out` was decoded, when `outlen`
/// bytes are wanted. A match at the very end of the stream is not performed.
pub open spec fn blosclz_tokens_decoded(rest: Seq<u8>, out: Seq<u8>, outlen: nat) -> Result<
    Seq<u8>,
    Seq<char>,
>
    decreases rest.len(),
{
    if rest.len() == 0 {
        ended(out, outlen)
    } else if rest[0] < 32 {
        let run = rest[0] + 1;
        if 1 + run > rest.len() {
            Err("blosclz: truncated literal run"@)
        } else {
            let out2 = out + rest.subrange(1, 1 + run);
            if rest.len() == 1 + run {
                ended(out2, outlen)
            } else if out2.len() > outlen {
                Err("blosclz: output overrun"@)
            } else {
                blosclz_tokens_decoded(rest.skip(1 + run), out2, outlen)
            }
        }
    } else {
        match match_at(rest) {
            Err(e) => Err(e),
            Ok(m) => if m.dist > out.len() {
                Err("blosclz: back reference before start"@)
            } else if rest.len() <= m.size {
                ended(out, outlen)
            } else if out.len() + m.len > outlen {
                Err("blosclz: output overrun"@)
            } else {
                blosclz_tokens_decoded(
                    rest.skip(m.size),
                    copy_back(out, m.dist as nat, m.len as nat),
                    outlen,
                )
            },
        }
    }
}

/// What a stream decodes to. The first control byte can only be a literal run:
/// its three high bits are ignored. An empty stream decodes to nothing, which is an
/// error where bytes are wanted.
pub open spec fn blosclz_decoded(input: Seq<u8>, outlen: nat) -> Result<Seq<u8>, Seq<char>> {
    if input.len() == 0 {
        ended(Seq::empty(), outlen)
    } else {
        blosclz_tokens_decoded(input.update(0, input[0] % 32), Seq::empty(), outlen)
    }
}

proof fn lemma_extended_length_bound(s: Seq<u8>)
    ensures
        extended_length(s) matches Some((v, count)) ==> 1 <= count <= s.len(),
    decreases s.len(),
{
    if s.len() > 0 {
        lemma_extended_length_bound(s.skip(1));
    }
}

/// Reads an extended length at `at`; the sum stops growing at the top of its type.
fn read_extended(input: &[u8], at: usize) -> (r: Option<(usize, usize)>)
    requires
        at <= input@.len(),
    ensures
        match (r, extended_length(input@.skip(at as int))) {
            (Some((v, next)), Some((w, count))) => next == at + count && next <= input@.len() && v
                == (if w <= usize::MAX {
                w as int
            } else {
                usize::MAX as int
            }),
            (None, None) => true,
            _ => false,
        },
{
    let n: usize = input.len();
    let mut ip: usize = at;
    let mut sum: usize = 0;
    let ghost whole = extended_length(input@.skip(at as int));
    let ghost mut seen: nat = 0;
    while ip < n
        invariant
            at <= ip <= n == input@.len(),
            sum == (if seen <= usize::MAX {
                seen as int
            } else {
                usize::MAX as int
            }),
            whole == (match extended_length(input@.skip(ip as int)) {
                Some((w, count)) => Some((seen + w, (ip - at + count) as nat)),
                None => None::<(nat, nat)>,
            }),
            whole == extended_length(input@.skip(at as int)),
        decreases n - ip,
    {
        proof {
            lemma_extended_length_bound(input@.skip(ip as int));
            assert(input@.skip(ip as int).skip(1) =~= input@.skip(ip + 1));
        }
        let code: u8 = input[ip];
        ip += 1;
        sum = sum.saturating_add(code as usize);
        proof {
            seen = seen + code as nat;
        }
        if code != 255 {
            return Some((sum, ip));
        }
    }
    None
}

/// Reads the match whose control byte `ctrl` stands before `ip`: its distance, its
/// length (at most the top of its type) and the position after its token.
fn read_match(input: &[u8], ip: usize, ctrl: usize, Ghost(rest): Ghost<Seq<u8>>) -> (r: Result<
    (usize, usize, usize),
    Error,
>)
    requires
        1 <= ip <= input@.len(),
        32 <= ctrl < 256,
        rest.len() == input@.len() - ip + 1,
        rest[0] == ctrl,
        rest.skip(1) == input@.skip(ip as int),
    ensures
        match (r, match_at(rest)) {
            (Ok((dist, len, next)), Ok(m)) => dist == m.dist && dist > 0 && next == ip - 1 + m.size
                && next <= input@.len() && next > ip && len == (if m.len <= usize::MAX {
                m.len
            } else {
                usize::MAX as int
            }),
            (Err(e), Err(t)) => e@ == t,
            _ => false,
        },
{
    let n: usize = input.len();
    let mut ip: usize = ip;
    let ghost start = ip;
    let base: usize = ctrl / 32 - 1;
    let mut len: usize = base;
    assert forall|k: int| 0 < k < rest.len() implies rest[k] == input@[start - 1 + k] by {
        assert(rest.skip(1)[k - 1] == input@.skip(start as int)[k - 1]);
    }
    if base == 6 {
        match read_extended(input, ip) {
            None => {
                return Err(Error::new("blosclz: truncated match length"));
            },
            Some((more, next)) => {
                len = len.saturating_add(more);
                ip = next;
            },
        }
    }
    len = len.saturating_add(3);
    if ip >= n {
        return Err(Error::new("blosclz: truncated match"));
    }
    let code: usize = input[ip] as usize;
    ip += 1;
    if code == 255 && ctrl % 32 == 31 {
        if n - ip < 2 {
            return Err(Error::new("blosclz: truncated far match"));
        }
        let dist: usize = input[ip] as usize * 256 + input[ip + 1] as usize + MAX_DISTANCE + 1;
        return Ok((dist, len, ip + 2));
    }
    Ok(((ctrl % 32) * 256 + code + 1, len, ip))
}

/// Decompresses a blosclz stream into exactly `outlen` bytes.
pub fn blosclz_decompress(input: &[u8], outlen: usize) -> (r: Result<Vec<u8>, Error>)
    ensures
        same_bytes(r, blosclz_decoded(input@, outlen as nat)),
{
    let mut out: Vec<u8> = Vec::new();
    let n: usize = input.len();
    if n == 0 {
        if outlen != 0 {
            return Err(Error::new("blosclz: output size mismatch"));
        }
        return Ok(out);
    }
    let mut ctrl: usize = (input[0] % 32) as usize;
    let mut ip: usize = 1;
    let ghost first = input@.update(0, (input@[0] % 32) as u8);
    assert(first.skip(0) =~= first);
    loop
        invariant_except_break
            n == input@.len(),
            1 <= ip <= n,
            out@.len() <= outlen,
            first.len() == n,
            forall|k: int| 1 <= k < n ==> first[k] == input@[k],
            ctrl == first[ip - 1],
            blosclz_decoded(input@, outlen as nat) == blosclz_tokens_decoded(
                first.skip(ip - 1),
                out@,
                outlen as nat,
            ),
        ensures
            blosclz_decoded(input@, outlen as nat) == ended(out@, outlen as nat),
        decreases n - ip,
    {
        let ghost rest = first.skip(ip - 1);
        let ghost before = out@;
        let ghost start = ip;
        if ctrl >= 32 {
            assert(rest.skip(1) =~= input@.skip(ip as int));
            let (dist, len, next) = read_match(input, ip, ctrl, Ghost(rest))?;
            ip = next;
            if dist > out.len() {
                return Err(Error::new("blosclz: back reference before start"));
            }
            if ip >= n {
                break;
            }
            ctrl = input[ip] as usize;
            ip += 1;
            if len > outlen - out.len() {
                return Err(Error::new("blosclz: output overrun"));
            }
            let mut k: usize = 0;
            while k < len
                invariant
                    k <= len,
                    0 < dist <= before.len(),
                    before.len() + k == out@.len(),
                    copy_back(before, dist as nat, len as nat) == copy_back(
                        out@,
                        dist as nat,
                        (len - k) as nat,
                    ),
                decreases len - k,
            {
                let b: u8 = out[out.len() - dist];
                out.push(b);
                k += 1;
            }
            proof {
                assert(rest.skip(next - start + 1) =~= first.skip(ip - 1));
            }
        } else {
            let run: usize = ctrl + 1;
            if run > n - ip {
                return Err(Error::new("blosclz: truncated literal run"));
            }
            let lit = vstd::slice::slice_subrange(input, ip, ip + run);
            out.extend_from_slice(lit);
            proof {
                assert(rest.subrange(1, 1 + run) =~= lit@);
                assert(out@ =~= before + lit@);
            }
            ip += run;
            if ip >= n {
                break;
            }
            ctrl = input[ip] as usize;
            ip += 1;
            if out.len() > outlen {
                return Err(Error::new("blosclz: output overrun"));
            }
            proof {
                assert(rest.skip(1 + run) =~= first.skip(ip - 1));
            }
        }
    }
    if out.len() != outlen {
        return Err(Error::new("blosclz: output size mismatch"));
    }
    Ok(out)
}

/// A number as bytes of 255 and a last byte below 255.
pub open spec fn extension_bytes(v: nat) -> Seq<u8>
    decreases v,
{
    if v >= 255 {
        seq![255u8] + extension_bytes((v - 255) as nat)
    } else {
        seq![v as u8]
    }
}

/// The token of a match `dist` back, `len` bytes long.
pub open spec fn match_token(dist: int, len: int) -> Seq<u8> {
    let d1 = dist - 1;
    if len - 3 < 6 {
        seq![((len - 2) * 32 + d1 / 256) as u8, (d1 % 256) as u8]
    } else {
        seq![(224 + d1 / 256) as u8] + extension_bytes((len - 9) as nat) + seq![(d1 % 256) as u8]
    }
}

/// Whether the earlier position `slot` may serve as a match at `pos`.
pub open spec fn usable(input: Seq<u8>, slot: Option<usize>, lit: int, pos: int) -> bool {
    match slot {
        Some(cand) => {
            &&& 1 <= pos - cand <= 8191
            &&& pos != lit
            &&& input[cand as int] == input[pos]
            &&& input[cand + 1] == input[pos + 1]
            &&& input[cand + 2] == input[pos + 2]
            &&& input.len() - pos - 1 >= 3
        },
        None => false,
    }
}

/// The tokens of the greedy encoding from `pos` on, when the bytes from `lit` on
/// are still to be written and `table` holds the last position of each prefix slot.
pub open spec fn greedy_tokens(
    input: Seq<u8>,
    table: Seq<Option<usize>>,
    lit: int,
    pos: int,
) -> Seq<u8>
    decreases input.len() - pos,
{
    if pos < 0 || pos + 2 >= input.len() {
        literal_runs(input, lit, input.len() as int)
    } else {
        let h = prefix_slot(input[pos], input[pos + 1], input[pos + 2]);
        let slot = table[h];
        let table2 = table.update(h, Some(pos as usize));
        if usable(input, slot, lit, pos) {
            let cand = slot->0 as int;
            let len = agreement(input, cand, pos, 3, input.len() - pos - 1);
            if len < 1 || pos + len > input.len() {
                Seq::empty()
            } else {
                literal_runs(input, lit, pos) + match_token(pos - cand, len) + greedy_tokens(
                    input,
                    table2,
                    pos + len,
                    pos + len,
                )
            }
        } else {
            greedy_tokens(input, table2, lit, pos + 1)
        }
    }
}

/// The blosclz encoding of `input`.
pub open spec fn blosclz_encoding(input: Seq<u8>) -> Seq<u8> {
    greedy_tokens(input, Seq::new(16384, |i: int| None::<usize>), 0, 0)
}

fn emit_match(out: &mut Vec<u8>, dist: usize, len: usize)
    requires
        1 <= dist <= 8191,
        3 <= len,
    ensures
        final(out)@ == old(out)@ + match_token(dist as int, len as int),
{
    let ghost start = out@;
    let d1: usize = dist - 1;
    let l: usize = len - 3;
    if l < 6 {
        out.push(((l + 1) * 32 + d1 / 256) as u8);
    } else {
        out.push((224 + d1 / 256) as u8);
        let ghost before = out@;
        let mut rest: usize = l - 6;
        assert(out@ + extension_bytes(rest as nat) =~= before + extension_bytes((len - 9) as nat));
        while rest >= 255
            invariant
                out@ + extension_bytes(rest as nat) == before + extension_bytes((len - 9) as nat),
            decreases rest,
        {
            let ghost now = out@;
            out.push(255);
            proof {
                let tail = extension_bytes((rest - 255) as nat);
                assert(out@ + tail =~= now + (seq![255u8] + tail));
            }
            rest -= 255;
        }
        let ghost now = out@;
        out.push(rest as u8);
        proof {
            assert(out@ =~= now + extension_bytes(rest as nat));
        }
    }
    out.push((d1 % 256) as u8);
    assert(out@ =~= start + match_token(dist as int, len as int));
}

/// Compresses with blosclz; `None` when the input is too small to bother or the
/// encoding would not be shorter.
pub fn blosclz_compress(input: &[u8]) -> (r: Option<Vec<u8>>)
    ensures
        r is Some <==> input@.len() >= 16 && blosclz_encoding(input@).len() < input@.len(),
        r matches Some(c) ==> c@ == blosclz_encoding(input@),
{
    let n: usize = input.len();
    if n < 16 {
        return None;
    }
    let mut table: Vec<Option<usize>> = vec![None; 16384];
    let mut out: Vec<u8> = Vec::new();
    let mut lit_start: usize = 0;
    let mut pos: usize = 0;
    proof {
        assert(table@ =~= Seq::new(16384, |i: int| None::<usize>));
        assert(out@ + greedy_tokens(input@, table@, 0, 0) =~= blosclz_encoding(input@));
    }
    while pos < n && n - pos > 2
        invariant
            n == input@.len(),
            lit_start <= pos <= n,
            table@.len() == 16384,
            forall|h: int| 0 <= h < 16384 ==> (#[trigger] table@[h] matches Some(c) ==> c < pos),
            blosclz_encoding(input@) == out@ + greedy_tokens(
                input@,
                table@,
                lit_start as int,
                pos as int,
            ),
        decreases n - pos,
    {
        let ghost table0 = table@;
        let h: usize = prefix_hash(input[pos], input[pos + 1], input[pos + 2]);
        let slot = table[h];
        table.set(h, Some(pos));
        let mut step: usize = 1;
        match slot {
            Some(cand) => {
                let dist: usize = pos - cand;
                if dist <= MAX_DISTANCE && pos != lit_start && input[cand] == input[pos]
                    && input[cand + 1] == input[pos + 1] && input[cand + 2] == input[pos + 2] && n
                    - pos - 1 >= 3 {
                    let max_len: usize = n - pos - 1;
                    let mlen: usize = match_length(input, cand, pos, max_len);
                    proof {
                        lemma_agreement(
                            input@,
                            cand as int,
                            pos as int,
                            3,
                            mlen as int,
                            max_len as int,
                        );
                    }
                    let ghost before = out@;
                    emit_literals(&mut out, input, lit_start, pos);
                    emit_match(&mut out, dist, mlen);
                    proof {
                        let tail = greedy_tokens(input@, table@, pos + mlen, pos + mlen);
                        let runs = literal_runs(input@, lit_start as int, pos as int);
                        let token = match_token(dist as int, mlen as int);
                        assert(out@ + tail =~= before + (runs + token + tail));
                    }
                    step = mlen;
                    lit_start = pos + mlen;
                }
            },
            None => {},
        }
        pos += step;
    }
    let ghost before = out@;
    emit_literals(&mut out, input, lit_start, n);
    if out.len() < n {
        Some(out)
    } else {
        None
    }
}

proof fn lemma_extension(v: nat, s: Seq<u8>)
    ensures
        extended_length(extension_bytes(v) + s) == Some((v, extension_bytes(v).len())),
    decreases v,
{
    let e = extension_bytes(v) + s;
    if v >= 255 {
        let tail = extension_bytes((v - 255) as nat);
        assert(e.skip(1) =~= tail + s);
        lemma_extension((v - 255) as nat, s);
    }
}

proof fn lemma_match_decodes(plain: Seq<u8>, dist: int, len: int, s: Seq<u8>, outlen: nat)
    requires
        1 <= dist <= 8191,
        dist <= plain.len(),
        3 <= len,
        plain.len() + len <= outlen,
        s.len() > 0,
    ensures
        blosclz_tokens_decoded(match_token(dist, len) + s, plain, outlen)
            == blosclz_tokens_decoded(s, copy_back(plain, dist as nat, len as nat), outlen),
{
    let token = match_token(dist, len);
    let rest = token + s;
    let d1 = dist - 1;
    if len - 3 < 6 {
        assert(rest[0] == (len - 2) * 32 + d1 / 256);
        assert(rest[0] as int / 32 == len - 2);
        assert(rest[0] as int % 32 == d1 / 256);
        assert(rest.skip(2) =~= s);
    } else {
        let ext = extension_bytes((len - 9) as nat);
        assert(rest[0] == 224 + d1 / 256);
        assert(rest[0] as int / 32 == 7);
        assert(rest[0] as int % 32 == d1 / 256);
        assert(rest.skip(1) =~= ext + (seq![(d1 % 256) as u8] + s));
        lemma_extension((len - 9) as nat, seq![(d1 % 256) as u8] + s);
        assert(rest[1 + ext.len() as int] == d1 % 256);
        assert(rest.skip(2 + ext.len() as int) =~= s);
    }
}

proof fn lemma_runs_decode(
    input: Seq<u8>,
    from: int,
    to: int,
    s: Seq<u8>,
    outlen: nat,
)
    requires
        0 <= from <= to <= input.len(),
        to <= outlen,
        s.len() > 0,
    ensures
        blosclz_tokens_decoded(literal_runs(input, from, to) + s, input.take(from), outlen)
            == blosclz_tokens_decoded(s, input.take(to), outlen),
    decreases to - from,
{
    if from < to {
        let run = if to - from < 32 {
            to - from
        } else {
            32
        };
        let tail = literal_runs(input, from + run, to);
        let rest = literal_runs(input, from, to) + s;
        assert(rest[0] == run - 1);
        assert(rest.subrange(1, 1 + run) =~= input.subrange(from, from + run));
        assert(input.take(from) + input.subrange(from, from + run) =~= input.take(from + run));
        assert(rest.skip(1 + run) =~= tail + s);
        lemma_runs_decode(input, from + run, to, s, outlen);
    } else {
        assert(literal_runs(input, from, to) + s =~= s);
    }
}

proof fn lemma_last_runs_decode(input: Seq<u8>, from: int)
    requires
        0 <= from < input.len(),
    ensures
        blosclz_tokens_decoded(
            literal_runs(input, from, input.len() as int),
            input.take(from),
            input.len(),
        ) == Ok::<Seq<u8>, Seq<char>>(input),
    decreases input.len() - from,
{
    let to = input.len() as int;
    let run = if to - from < 32 {
        to - from
    } else {
        32
    };
    let tail = literal_runs(input, from + run, to);
    let rest = literal_runs(input, from, to);
    assert(rest[0] == run - 1);
    assert(rest.subrange(1, 1 + run) =~= input.subrange(from, from + run));
    assert(input.take(from) + input.subrange(from, from + run) =~= input.take(from + run));
    assert(rest.skip(1 + run) =~= tail);
    assert(rest.len() == 1 + run + tail.len());
    if from + run < to {
        lemma_last_runs_decode(input, from + run);
        assert(tail.len() > 0);
        assert(blosclz_tokens_decoded(rest, input.take(from), input.len())
            == blosclz_tokens_decoded(rest.skip(1 + run), input.take(from + run), input.len()));
    } else {
        assert(input.take(to) =~= input);
        assert(tail =~= Seq::empty());
    }
}

#[verifier::rlimit(60)]
proof fn lemma_greedy_decodes(input: Seq<u8>, table: Seq<Option<usize>>, lit: int, pos: int)
    requires
        0 <= lit <= pos <= input.len(),
        lit < input.len() <= usize::MAX,
        earlier(table, pos),
    ensures
        blosclz_tokens_decoded(
            greedy_tokens(input, table, lit, pos),
            input.take(lit),
            input.len(),
        ) == Ok::<Seq<u8>, Seq<char>>(input),
        greedy_tokens(input, table, lit, pos).len() > 0,
        greedy_tokens(input, table, lit, pos)[0] < 32,
    decreases input.len() - pos,
{
    let n = input.len() as int;
    if pos + 2 >= n {
        lemma_last_runs_decode(input, lit);
    } else {
        let h = prefix_slot(input[pos], input[pos + 1], input[pos + 2]);
        lemma_slot_bound(input[pos], input[pos + 1], input[pos + 2]);
        let slot = table[h];
        let table2 = table.update(h, Some(pos as usize));
        if usable(input, slot, lit, pos) {
            let cand = slot->0 as int;
            let dist = pos - cand;
            let len = agreement(input, cand, pos, 3, n - pos - 1);
            lemma_agreement_bound(input, cand, pos, 3, n - pos - 1);
            assert forall|k: int| 0 <= k < len implies input[pos - dist + k]
                == #[trigger] input[pos + k] by {
                assert(pos - dist + k == cand + k);
                if k < 3 {
                    assert(k == 0 || k == 1 || k == 2);
                } else {
                    assert(input[cand + k] == input[pos + k]);
                }
            }
            lemma_copy_back_repeats(input, pos, dist as nat, len as nat);
            lemma_greedy_decodes(input, table2, pos + len, pos + len);
            let tail = greedy_tokens(input, table2, pos + len, pos + len);
            let token = match_token(dist, len);
            let runs = literal_runs(input, lit, pos);
            assert(runs + token + tail =~= runs + (token + tail));
            lemma_runs_decode(input, lit, pos, token + tail, input.len());
            lemma_match_decodes(input.take(pos), dist, len, tail, input.len());
            assert(runs.len() > 0);
            assert((runs + token + tail)[0] == runs[0]);
        } else {
            lemma_greedy_decodes(input, table2, lit, pos + 1);
        }
    }
}

/// A stream that the compressor makes decodes to what was compressed.
pub proof fn law_blosclz_round_trip(input: Seq<u8>)
    requires
        0 < input.len() <= usize::MAX,
    ensures
        blosclz_decoded(blosclz_encoding(input), input.len()) == Ok::<Seq<u8>, Seq<char>>(input),
{
    let table = Seq::new(16384, |i: int| None::<usize>);
    lemma_greedy_decodes(input, table, 0, 0);
    let enc = blosclz_encoding(input);
    assert(enc.update(0, enc[0] % 32) =~= enc);
    assert(input.take(0) =~= Seq::<u8>::empty());
}

} // verus!
