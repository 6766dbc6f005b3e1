//! What the tokens of compressed streams stand for.

use vstd::prelude::*;

use crate::format::blosc::{blosc_decoded, streams_decoded};
use crate::format::blosclz::{blosclz_tokens_decoded, extended_length, match_at};
use crate::format::lzf::{copy_back, lzf_decoded};
use crate::format::{law_le_round_trip, le_at, le_bytes, lemma_le_bytes_len, lemma_pow256, zeroes};

verus! {

/// A match continues the output by bytes that are each a copy of the one `dist` before it.
pub proof fn law_copied(out: Seq<u8>, dist: nat, len: nat)
    requires
        1 <= dist <= out.len(),
    ensures
        copy_back(out, dist, len).len() == out.len() + len,
        copy_back(out, dist, len).take(out.len() as int) == out,
        forall|i: int|
            out.len() <= i < out.len() + len ==> #[trigger] copy_back(out, dist, len)[i] == copy_back(
                out,
                dist,
                len,
            )[i - dist],
    decreases len,
{
    let r = copy_back(out, dist, len);
    if len == 0 {
        assert(out.take(out.len() as int) =~= out);
    } else {
        let next = out.push(out[out.len() - dist]);
        law_copied(next, dist, (len - 1) as nat);
        assert(r.take(next.len() as int) == next);
        assert(r.take(out.len() as int) =~= out) by {
            assert forall|i: int| 0 <= i < out.len() implies r[i] == out[i] by {
                assert(r.take(next.len() as int)[i] == next[i]);
            }
        }
        assert(r.take(next.len() as int)[out.len() as int] == next[out.len() as int]);
        assert(r.take(next.len() as int)[out.len() - dist] == next[out.len() - dist]);
    }
}

// LZF.

/// A control byte below 32 announces a run of one to 32 bytes, which come as they are.
pub proof fn law_lzf_literals(run: Seq<u8>, rest: Seq<u8>, out: Seq<u8>)
    requires
        1 <= run.len() <= 32,
    ensures
        lzf_decoded(seq![(run.len() - 1) as u8] + (run + rest), out) == lzf_decoded(rest, out + run),
{
    let s = seq![(run.len() - 1) as u8] + (run + rest);
    assert(s[0] == run.len() - 1);
    assert(s.skip(1 + run.len() as int) =~= rest);
    assert(s.subrange(1, 1 + run.len() as int) =~= run);
}

/// Other control bytes hold the length of a match in their three high bits, or say there
/// that a byte for it follows, and the high part of its distance in the others.
pub proof fn law_lzf_match(dist: nat, len: nat, rest: Seq<u8>, out: Seq<u8>)
    requires
        1 <= dist <= 8192,
        dist <= out.len(),
        3 <= len <= 264,
    ensures
        len < 9 ==> lzf_decoded(
            seq![((len - 2) * 32 + (dist - 1) / 256) as u8, ((dist - 1) % 256) as u8] + rest,
            out,
        ) == lzf_decoded(rest, copy_back(out, dist, len)),
        len >= 9 ==> lzf_decoded(
            seq![(7 * 32 + (dist - 1) / 256) as u8, (len - 9) as u8, ((dist - 1) % 256) as u8]
                + rest,
            out,
        ) == lzf_decoded(rest, copy_back(out, dist, len)),
{
    let d = dist - 1;
    if len < 9 {
        let s = seq![((len - 2) * 32 + d / 256) as u8, (d % 256) as u8] + rest;
        assert(s[0] == (len - 2) * 32 + d / 256 && s[1] == d % 256);
        assert(s.skip(2) =~= rest);
    } else {
        let s = seq![(7 * 32 + d / 256) as u8, (len - 9) as u8, (d % 256) as u8] + rest;
        assert(s[0] == 7 * 32 + d / 256 && s[1] == len - 9 && s[2] == d % 256);
        assert(s.skip(3) =~= rest);
    }
}

// BloscLZ.

/// A run of one to 32 bytes comes as it is, where more tokens follow.
pub proof fn law_blosclz_literals(run: Seq<u8>, rest: Seq<u8>, out: Seq<u8>, outlen: nat)
    requires
        1 <= run.len() <= 32,
        rest.len() > 0,
        out.len() + run.len() <= outlen,
    ensures
        blosclz_tokens_decoded(seq![(run.len() - 1) as u8] + (run + rest), out, outlen)
            == blosclz_tokens_decoded(rest, out + run, outlen),
{
    let s = seq![(run.len() - 1) as u8] + (run + rest);
    assert(s[0] == run.len() - 1);
    assert(s.skip(1 + run.len() as int) =~= rest);
    assert(s.subrange(1, 1 + run.len() as int) =~= run);
}

/// The bytes that a length beyond eight goes on in: some of 255, and one that is less.
pub open spec fn length_bytes(len: nat) -> Seq<u8> {
    if len < 9 {
        Seq::empty()
    } else {
        Seq::new((len - 9) as nat / 255, |i: int| 255u8).push(((len - 9) % 255) as u8)
    }
}

proof fn lemma_extended(n: nat, last: u8, rest: Seq<u8>)
    requires
        last < 255,
    ensures
        extended_length(Seq::new(n, |i: int| 255u8).push(last) + rest) == Some(
            (255 * n + last as nat, n + 1),
        ),
    decreases n,
{
    let s = Seq::new(n, |i: int| 255u8).push(last) + rest;
    if n == 0 {
        assert(s[0] == last);
    } else {
        let m = (n - 1) as nat;
        lemma_extended(m, last, rest);
        assert(s[0] == 255);
        assert(s.skip(1) =~= Seq::new(m, |i: int| 255u8).push(last) + rest);
    }
}

proof fn lemma_length(first: u8, len: nat, tail: Seq<u8>)
    requires
        len >= 3,
        first / 32 == (if len < 9 {
            (len - 2) as u8
        } else {
            7u8
        }),
    ensures
        ({
            let s = seq![first] + (length_bytes(len) + tail);
            let base = s[0] as int / 32 - 1;
            &&& s.skip(1) == length_bytes(len) + tail
            &&& base == 6 <==> len >= 9
            &&& base == 6 ==> extended_length(s.skip(1)) == Some(
                ((len - 9) as nat, length_bytes(len).len()),
            )
            &&& base != 6 ==> base + 3 == len && length_bytes(len).len() == 0
        }),
{
    let s = seq![first] + (length_bytes(len) + tail);
    assert(s.skip(1) =~= length_bytes(len) + tail);
    assert(s[0] == first);
    if len >= 9 {
        let v = (len - 9) as nat;
        lemma_extended(v / 255, (v % 255) as u8, tail);
    }
}

/// A match holds its length in the three high bits of its control byte, and goes on with it
/// in further bytes where it is nine or more; its distance is one more than the number in
/// the other bits and the last byte.
pub proof fn law_blosclz_match(dist: nat, len: nat, rest: Seq<u8>, out: Seq<u8>, outlen: nat)
    requires
        1 <= dist <= 8191,
        dist <= out.len(),
        3 <= len,
        rest.len() > 0,
        out.len() + len <= outlen,
    ensures
        blosclz_tokens_decoded(
            seq![((if len < 9 {
                len - 2
            } else {
                7
            }) * 32 + (dist - 1) / 256) as u8] + (length_bytes(len) + (seq![
                ((dist - 1) % 256) as u8,
            ] + rest)),
            out,
            outlen,
        ) == blosclz_tokens_decoded(rest, copy_back(out, dist, len), outlen),
{
    let d = dist - 1;
    let k = if len < 9 {
        len - 2
    } else {
        7
    };
    let first = (k * 32 + d / 256) as u8;
    let low = (d % 256) as u8;
    let tail = seq![low] + rest;
    let s = seq![first] + (length_bytes(len) + tail);
    let at = 1 + length_bytes(len).len() as int;
    lemma_length(first, len, tail);
    assert(s[0] == first && first == k * 32 + d / 256);
    assert(s[at] == low);
    assert(s.skip(at + 1) =~= rest);
    let m = match_at(s)->Ok_0;
    assert(m.dist == dist && m.len == len && m.size == at + 1);
}

/// A far match has all the low bits of its control byte set and the byte 255; the distance
/// beyond 8192 follows in two bytes, the higher one first.
pub proof fn law_blosclz_far(
    hi: u8,
    lo: u8,
    len: nat,
    rest: Seq<u8>,
    out: Seq<u8>,
    outlen: nat,
)
    requires
        8192 + 256 * hi + lo <= out.len(),
        3 <= len,
        rest.len() > 0,
        out.len() + len <= outlen,
    ensures
        blosclz_tokens_decoded(
            seq![((if len < 9 {
                len - 2
            } else {
                7
            }) * 32 + 31) as u8] + (length_bytes(len) + (seq![255u8, hi, lo] + rest)),
            out,
            outlen,
        ) == blosclz_tokens_decoded(
            rest,
            copy_back(out, (8192 + 256 * hi + lo) as nat, len),
            outlen,
        ),
{
    let k = if len < 9 {
        len - 2
    } else {
        7
    };
    let first = (k * 32 + 31) as u8;
    let tail = seq![255u8, hi, lo] + rest;
    let s = seq![first] + (length_bytes(len) + tail);
    let at = 1 + length_bytes(len).len() as int;
    lemma_length(first, len, tail);
    assert(s[0] == first && first == k * 32 + 31);
    assert(s[at] == 255 && s[at + 1] == hi && s[at + 2] == lo);
    assert(s.skip(at + 3) =~= rest);
    let m = match_at(s)->Ok_0;
    assert(m.dist == 8192 + 256 * hi + lo && m.len == len && m.size == at + 3);
}

// Blosc.

/// Streams, each behind its size.
pub open spec fn sized_streams(v: Seq<Seq<u8>>) -> Seq<u8>
    decreases v.len(),
{
    if v.len() == 0 {
        Seq::empty()
    } else {
        le_bytes(v[0].len(), 4) + v[0] + sized_streams(v.skip(1))
    }
}

/// Streams, one behind the other.
pub open spec fn all_streams(v: Seq<Seq<u8>>) -> Seq<u8>
    decreases v.len(),
{
    if v.len() == 0 {
        Seq::empty()
    } else {
        v[0] + all_streams(v.skip(1))
    }
}

/// The streams of a block that have the size that is wanted come as they are, in their
/// order, whatever the codec.
pub proof fn law_streams_stored(
    src: Seq<u8>,
    codec: int,
    off: int,
    size: nat,
    v: Seq<Seq<u8>>,
)
    requires
        0 < size < 0x8000_0000,
        forall|i: int| 0 <= i < v.len() ==> (#[trigger] v[i]).len() == size,
        off >= 0,
        off + sized_streams(v).len() <= src.len(),
        src.subrange(off, off + sized_streams(v).len()) == sized_streams(v),
    ensures
        streams_decoded(src, codec, off, size, v.len()) == Ok::<Seq<u8>, Seq<char>>(all_streams(v)),
    decreases v.len(),
{
    if v.len() > 0 {
        let rest = v.skip(1);
        let all = sized_streams(v);
        let more = sized_streams(rest);
        assert(v[0].len() == size);
        lemma_pow256();
        lemma_le_bytes_len(size, 4);
        law_le_round_trip(size, 4);
        let next = off + 4 + size;
        assert(all.len() == 4 + size + more.len());
        assert(src.subrange(off, off + 4) =~= le_bytes(size, 4)) by {
            assert(all.subrange(0, 4) =~= le_bytes(size, 4));
            assert forall|i: int| 0 <= i < 4 implies src[off + i] == all[i] by {
                assert(src.subrange(off, off + all.len())[i] == all[i]);
            }
        }
        assert(src.subrange(off + 4, next) =~= v[0]) by {
            assert forall|i: int| 0 <= i < size implies src[off + 4 + i] == v[0][i] by {
                assert(src.subrange(off, off + all.len())[4 + i] == all[4 + i]);
            }
        }
        assert(src.subrange(next, next + more.len()) =~= more) by {
            assert forall|i: int| 0 <= i < more.len() implies src[next + i] == more[i] by {
                assert(src.subrange(off, off + all.len())[4 + size + i] == all[4 + size + i]);
            }
        }
        assert forall|i: int| 0 <= i < rest.len() implies (#[trigger] rest[i]).len() == size by {
            assert(rest[i] == v[i + 1]);
        }
        law_streams_stored(src, codec, next, size, rest);
    }
}

/// A stream of the size zero stands for zeros.
pub proof fn law_stream_zeros(src: Seq<u8>, codec: int, off: int, size: nat)
    requires
        0 <= off,
        off + 4 <= src.len(),
        le_at(src, off, 4) == 0,
    ensures
        streams_decoded(src, codec, off, size, 1) == Ok::<Seq<u8>, Seq<char>>(zeroes(size)),
{
    reveal_with_fuel(streams_decoded, 2);
    assert(zeroes(size) + Seq::<u8>::empty() =~= zeroes(size));
}

/// A frame whose second flag is set holds the bytes as they are behind its header of
/// sixteen.
pub proof fn law_frame_whole(
    version: u8,
    inner: u8,
    flags: u8,
    typesize: u8,
    block: nat,
    data: Seq<u8>,
)
    requires
        flags / 2 % 2 == 1,
        data.len() + 16 <= u32::MAX,
    ensures
        blosc_decoded(
            seq![version, inner, flags, typesize] + le_bytes(data.len(), 4) + le_bytes(block, 4)
                + le_bytes(data.len() + 16, 4) + data,
        ) == Ok::<Seq<u8>, Seq<char>>(data),
{
    let n = data.len();
    lemma_pow256();
    law_le_round_trip(n, 4);
    law_le_round_trip(n + 16, 4);
    lemma_le_bytes_len(n, 4);
    lemma_le_bytes_len(n + 16, 4);
    lemma_le_bytes_len(block, 4);
    let s = seq![version, inner, flags, typesize] + le_bytes(n, 4) + le_bytes(block, 4) + le_bytes(
        n + 16,
        4,
    ) + data;
    assert(s[2] == flags);
    assert(s.subrange(4, 8) =~= le_bytes(n, 4));
    assert(s.subrange(12, 16) =~= le_bytes(n + 16, 4));
    assert(s.subrange(16, 16 + n as int) =~= data);
    assert(n == 0 ==> data =~= Seq::<u8>::empty());
}

} // verus!
