//! Decompressing what was compressed gives the data back.

use vstd::prelude::*;

use crate::format::aec_laws::{aec_short, law_aec_round_trip, law_narrow_short};
use crate::format::bits::{bits, pow2};
use crate::format::shuffle::{law_unshuffle_shuffle, shuffled, unshuffled};
use crate::format::szip::{
    cut_lines, deinterleaved, filler, interleaved, lemma_blocks, ordered, padded_lines,
    sample_bytes, samples_of, sz_decoded, sz_encoded, sz_params, sz_sample_count, sz_source,
    sz_unpacked, SzParams,
};
use crate::format::{law_le_bytes_of_le, le, le_bytes};

verus! {

/// The widths that a pixel can have.
spec fn pixel_width(pixel: int) -> bool {
    pixel == 1 || pixel == 2 || pixel == 4
}

/// Counting in pixels.
proof fn lemma_pixels(n: int, k: int, pixel: int)
    requires
        pixel_width(pixel),
        n % pixel == 0,
        k % pixel == 0,
    ensures
        n / pixel * pixel == n,
        (n - k) % pixel == 0,
        (n - k) / pixel == n / pixel - k / pixel,
        (n + k) % pixel == 0,
        (n + k) / pixel == n / pixel + k / pixel,
        pixel % pixel == 0,
        pixel / pixel == 1,
{
    if pixel == 1 {
        assert(n / 1 * 1 == n);
    } else if pixel == 2 {
        assert(n % 2 == 0 && k % 2 == 0);
        assert(n / 2 * 2 == n && (n - k) % 2 == 0 && (n - k) / 2 == n / 2 - k / 2);
        assert((n + k) % 2 == 0 && (n + k) / 2 == n / 2 + k / 2);
    } else {
        assert(n % 4 == 0 && k % 4 == 0);
        assert(n / 4 * 4 == n && (n - k) % 4 == 0 && (n - k) / 4 == n / 4 - k / 4);
        assert((n + k) % 4 == 0 && (n + k) / 4 == n / 4 + k / 4);
    }
}

/// The place of byte `t` of pixel `i`.
proof fn lemma_pixel_byte(i: int, t: int, pixel: int)
    requires
        pixel_width(pixel),
        0 <= t < pixel,
    ensures
        (i * pixel) % pixel == 0,
        (i * pixel) / pixel == i,
        (i * pixel + t) % pixel == t,
        (i + 1) * pixel == i * pixel + pixel,
{
    assert((i + 1) * pixel == i * pixel + pixel) by (nonlinear_arith);
    vstd::arithmetic::div_mod::lemma_fundamental_div_mod_converse(i * pixel + t, pixel, i, t);
    vstd::arithmetic::div_mod::lemma_fundamental_div_mod_converse(i * pixel, pixel, i, 0);
}

proof fn lemma_ordered_twice(msb: bool, s: Seq<u8>)
    ensures
        ordered(msb, ordered(msb, s)) == s,
        ordered(msb, s).len() == s.len(),
{
    assert(s.reverse().reverse() =~= s);
}

proof fn lemma_bytes_of_samples(d: Seq<u8>, pixel: int, msb: bool)
    requires
        pixel_width(pixel),
        d.len() as int % pixel == 0,
    ensures
        sample_bytes(samples_of(d, pixel, msb), pixel, msb) == d,
    decreases d.len(),
{
    let v = samples_of(d, pixel, msb);
    if d.len() == 0 {
        assert(v =~= Seq::empty());
        assert(sample_bytes(v, pixel, msb) =~= d);
    } else {
        let n = d.len() as int;
        let e = d.take(n - pixel);
        let last = d.subrange(n - pixel, n);
        assert(n >= pixel) by {
            if pixel == 2 {
                assert(n % 2 == 0);
            } else if pixel == 4 {
                assert(n % 4 == 0);
            }
        }
        lemma_pixels(n, 0, pixel);
        lemma_pixels(n, pixel, pixel);
        lemma_pixel_byte(n / pixel - 1, 0, pixel);
        assert(v.drop_last() =~= samples_of(e, pixel, msb)) by {
            assert forall|i: int| 0 <= i < n / pixel - 1 implies v[i] == samples_of(
                e,
                pixel,
                msb,
            )[i] by {
                crate::format::szip::lemma_pixel_place(i, pixel, n - pixel);
                assert(e.subrange(i * pixel, i * pixel + pixel) =~= d.subrange(
                    i * pixel,
                    i * pixel + pixel,
                ));
            }
        }
        lemma_bytes_of_samples(e, pixel, msb);
        lemma_ordered_twice(msb, last);
        crate::format::szip::lemma_sample_range(last, msb);
        law_le_bytes_of_le(ordered(msb, last));
        assert(v.last() == le(ordered(msb, last)) as u32);
        assert(e + last =~= d);
    }
}

proof fn lemma_sample_bytes_join(a: Seq<u32>, b: Seq<u32>, pixel: int, msb: bool)
    ensures
        sample_bytes(a + b, pixel, msb) == sample_bytes(a, pixel, msb) + sample_bytes(
            b,
            pixel,
            msb,
        ),
    decreases b.len(),
{
    if b.len() == 0 {
        assert(a + b =~= a);
        assert(sample_bytes(a, pixel, msb) + sample_bytes(b, pixel, msb) =~= sample_bytes(
            a,
            pixel,
            msb,
        ));
    } else {
        lemma_sample_bytes_join(a, b.drop_last(), pixel, msb);
        assert((a + b).drop_last() =~= a + b.drop_last());
        let last = ordered(msb, le_bytes(b.last() as nat, pixel as nat));
        assert(sample_bytes(a, pixel, msb) + (sample_bytes(b.drop_last(), pixel, msb) + last) =~= (
        sample_bytes(a, pixel, msb) + sample_bytes(b.drop_last(), pixel, msb)) + last);
    }
}

proof fn lemma_samples_join(a: Seq<u8>, b: Seq<u8>, pixel: int, msb: bool)
    requires
        pixel_width(pixel),
        a.len() as int % pixel == 0,
    ensures
        samples_of(a + b, pixel, msb) == samples_of(a, pixel, msb) + samples_of(b, pixel, msb),
{
    let v = samples_of(a + b, pixel, msb);
    let w = samples_of(a, pixel, msb) + samples_of(b, pixel, msb);
    let k = a.len() as int / pixel;
    lemma_pixels(a.len() as int, 0, pixel);
    assert((a.len() + b.len()) as int / pixel == k + b.len() as int / pixel) by {
        if pixel == 2 {
            assert((a.len() + b.len()) as int / 2 == a.len() as int / 2 + b.len() as int / 2);
        } else if pixel == 4 {
            assert((a.len() + b.len()) as int / 4 == a.len() as int / 4 + b.len() as int / 4);
        }
    }
    assert(v.len() == w.len());
    assert forall|i: int| 0 <= i < v.len() implies v[i] == w[i] by {
        if i < k {
            crate::format::szip::lemma_pixel_place(i, pixel, a.len() as int);
            assert((a + b).subrange(i * pixel, i * pixel + pixel) =~= a.subrange(
                i * pixel,
                i * pixel + pixel,
            ));
        } else {
            let j = i - k;
            crate::format::szip::lemma_pixel_place(j, pixel, b.len() as int);
            assert(i * pixel == a.len() + j * pixel) by (nonlinear_arith)
                requires
                    i == k + j,
                    k * pixel == a.len(),
            ;
            assert((a + b).subrange(i * pixel, i * pixel + pixel) =~= b.subrange(
                j * pixel,
                j * pixel + pixel,
            ));
        }
    }
    assert(v =~= w);
}

proof fn lemma_le_zero(s: Seq<u8>)
    requires
        forall|i: int| 0 <= i < s.len() ==> s[i] == 0,
    ensures
        le(s) == 0,
    decreases s.len(),
{
    if s.len() > 0 {
        assert forall|i: int| 0 <= i < s.skip(1).len() implies s.skip(1)[i] == 0 by {
            assert(s[i + 1] == 0);
        }
        lemma_le_zero(s.skip(1));
        assert forall|i: int| 0 <= i < s.drop_first().len() implies s.drop_first()[i] == 0 by {
            assert(s[i + 1] == 0);
        }
        lemma_le_zero(s.drop_first());
    }
}

/// What fills a scanline up is a repeated sample or zeros.
proof fn lemma_filler(line: Seq<u8>, pad: int, pixel: int, msb: bool, pp: bool, bound: int)
    requires
        pixel_width(pixel),
        line.len() > 0,
        line.len() as int % pixel == 0,
        pad >= 0,
        pad % pixel == 0,
        0 <= bound,
        forall|i: int|
            0 <= i < samples_of(line, pixel, msb).len() ==> #[trigger] samples_of(
                line,
                pixel,
                msb,
            )[i] <= bound,
    ensures
        filler(line, pad, pixel, pp).len() == pad,
        forall|i: int|
            0 <= i < pad / pixel ==> #[trigger] samples_of(
                filler(line, pad, pixel, pp),
                pixel,
                msb,
            )[i] <= bound,
{
    let f = filler(line, pad, pixel, pp);
    let v = samples_of(line, pixel, msb);
    let last = line.len() as int / pixel - 1;
    lemma_pixels(pad, 0, pixel);
    lemma_pixels(line.len() as int, pixel, pixel);
    assert(line.len() >= pixel) by {
        if pixel == 2 {
            assert(line.len() as int % 2 == 0);
        } else if pixel == 4 {
            assert(line.len() as int % 4 == 0);
        }
    }
    lemma_pixel_byte(last, 0, pixel);
    assert(f.len() == pad);
    assert forall|i: int| 0 <= i < pad / pixel implies #[trigger] samples_of(f, pixel, msb)[i]
        <= bound by {
        let part = f.subrange(i * pixel, i * pixel + pixel);
        crate::format::szip::lemma_pixel_place(i, pixel, pad);
        if pp {
            assert(v[last] <= bound);
            assert(part =~= line.subrange(last * pixel, last * pixel + pixel)) by {
                assert forall|t: int| 0 <= t < pixel implies part[t] == line[line.len() - pixel
                    + t] by {
                    lemma_pixel_byte(i, t, pixel);
                }
            }
        } else {
            assert forall|t: int| 0 <= t < ordered(msb, part).len() implies ordered(msb, part)[t]
                == 0 by {
                assert(forall|u: int| 0 <= u < pixel ==> part[u] == 0);
            }
            lemma_le_zero(ordered(msb, part));
        }
    }
}

/// The first scanline of `src`.
spec fn first_line(src: Seq<u8>, line: int) -> Seq<u8> {
    src.take(
        if src.len() < line {
            src.len() as int
        } else {
            line
        },
    )
}

/// How many scanlines of `line` samples hold `n` samples.
spec fn line_count(n: int, line: int) -> int {
    (n + line - 1) / line
}

proof fn lemma_line_count(n: int, line: int)
    requires
        n > 0,
        line > 0,
    ensures
        n <= line ==> line_count(n, line) == 1,
        n > line ==> line_count(n, line) == 1 + line_count(n - line, line),
{
    if n <= line {
        vstd::arithmetic::div_mod::lemma_fundamental_div_mod_converse(
            n + line - 1,
            line,
            1,
            n - 1,
        );
    } else {
        vstd::arithmetic::div_mod::lemma_div_plus_one(n - 1, line);
    }
}

/// Whether no sample of `d` exceeds `bound`.
spec fn all_within(d: Seq<u8>, pixel: int, msb: bool, bound: int) -> bool {
    forall|i: int|
        0 <= i < samples_of(d, pixel, msb).len() ==> #[trigger] samples_of(d, pixel, msb)[i]
            <= bound
}

/// The first scanline and what follows it.
proof fn lemma_first_line(
    src: Seq<u8>,
    pps: int,
    full: int,
    pixel: int,
    msb: bool,
    pp: bool,
    bound: int,
)
    requires
        pixel_width(pixel),
        src.len() > 0,
        src.len() as int % pixel == 0,
        0 < pps <= full,
        0 <= bound,
        all_within(src, pixel, msb, bound),
    ensures
        ({
            let line = pps * pixel;
            let m = src.len() as int / pixel;
            let head = first_line(src, line);
            let n = head.len() as int;
            let rest = src.skip(n);
            let fill = filler(head, full * pixel - n, pixel, pp);
            let tail = padded_lines(rest, line, full * pixel, pixel, pp);
            let sh = samples_of(head, pixel, msb);
            let sf = samples_of(fill, pixel, msb);
            &&& line > 0
            &&& 0 < n <= src.len()
            &&& n % pixel == 0
            &&& rest.len() as int % pixel == 0
            &&& rest.len() as int / pixel == m - sh.len()
            &&& sh.len() == (if m < pps {
                m
            } else {
                pps
            })
            &&& sh.len() + sf.len() == full
            &&& samples_of(src, pixel, msb) == sh + samples_of(rest, pixel, msb)
            &&& samples_of(padded_lines(src, line, full * pixel, pixel, pp), pixel, msb) == sh + sf
                + samples_of(tail, pixel, msb)
            &&& all_within(head, pixel, msb, bound)
            &&& all_within(fill, pixel, msb, bound)
            &&& all_within(rest, pixel, msb, bound)
        }),
{
    let line = pps * pixel;
    let m = src.len() as int / pixel;
    let head = first_line(src, line);
    let n = head.len() as int;
    let rest = src.skip(n);
    let pad = full * pixel - n;
    let fill = filler(head, pad, pixel, pp);
    let tail = padded_lines(rest, line, full * pixel, pixel, pp);
    let sh = samples_of(head, pixel, msb);
    let sr = samples_of(rest, pixel, msb);
    lemma_pixel_byte(pps, 0, pixel);
    lemma_pixel_byte(full, 0, pixel);
    lemma_pixels(src.len() as int, line, pixel);
    assert(line > 0) by (nonlinear_arith)
        requires
            line == pps * pixel,
            pps > 0,
            pixel > 0,
    ;
    assert(line <= full * pixel) by (nonlinear_arith)
        requires
            line == pps * pixel,
            pps <= full,
            pixel > 0,
    ;
    assert(src.len() < line <==> m < pps) by (nonlinear_arith)
        requires
            src.len() == m * pixel,
            line == pps * pixel,
            pixel > 0,
    ;
    assert(n % pixel == 0);
    lemma_pixels(src.len() as int, n, pixel);
    lemma_pixels(full * pixel, n, pixel);
    assert(head + rest =~= src);
    lemma_samples_join(head, rest, pixel, msb);
    assert forall|i: int| 0 <= i < sh.len() implies #[trigger] sh[i] <= bound by {
        assert(sh[i] == samples_of(src, pixel, msb)[i]);
    }
    assert forall|i: int| 0 <= i < sr.len() implies #[trigger] sr[i] <= bound by {
        assert(sr[i] == samples_of(src, pixel, msb)[i + sh.len()]);
    }
    lemma_filler(head, pad, pixel, msb, pp, bound);
    lemma_pixels(n, pad, pixel);
    lemma_samples_join(head, fill, pixel, msb);
    lemma_samples_join(head + fill, tail, pixel, msb);
    assert(padded_lines(src, line, full * pixel, pixel, pp) == head + fill + tail);
}

/// Filling scanlines up and cutting the samples again keeps the samples.
#[verifier::rlimit(60)]
proof fn lemma_lines(
    src: Seq<u8>,
    pps: int,
    full: int,
    pixel: int,
    msb: bool,
    pp: bool,
    bound: int,
)
    requires
        pixel_width(pixel),
        src.len() as int % pixel == 0,
        0 < pps <= full,
        0 <= bound,
        all_within(src, pixel, msb, bound),
    ensures
        ({
            let m = src.len() as int / pixel;
            let all = padded_lines(src, pps * pixel, full * pixel, pixel, pp);
            let s = samples_of(all, pixel, msb);
            let kept = cut_lines(s, pps, full);
            &&& s.len() == line_count(m, pps) * full
            &&& kept.len() >= m
            &&& kept.take(m) == samples_of(src, pixel, msb)
            &&& all_within(all, pixel, msb, bound)
        }),
    decreases src.len(),
{
    let m = src.len() as int / pixel;
    let line = pps * pixel;
    let s = samples_of(padded_lines(src, line, full * pixel, pixel, pp), pixel, msb);
    assert(line_count(0, pps) == 0) by {
        vstd::arithmetic::div_mod::lemma_fundamental_div_mod_converse(pps - 1, pps, 0, pps - 1);
    }
    assert(0 * full == 0 && 1 * full == full) by (nonlinear_arith);
    if src.len() == 0 {
        lemma_pixels(0, 0, pixel);
        assert(m == 0);
        assert(s =~= Seq::empty());
        assert(cut_lines(s, pps, full).take(0) =~= samples_of(src, pixel, msb));
    } else {
        lemma_first_line(src, pps, full, pixel, msb, pp, bound);
        let head = first_line(src, line);
        let n = head.len() as int;
        let rest = src.skip(n);
        let fill = filler(head, full * pixel - n, pixel, pp);
        let tail = padded_lines(rest, line, full * pixel, pixel, pp);
        let sh = samples_of(head, pixel, msb);
        let sf = samples_of(fill, pixel, msb);
        let st = samples_of(tail, pixel, msb);
        let k = sh.len() as int;
        lemma_lines(rest, pps, full, pixel, msb, pp, bound);
        lemma_line_count(m, pps);
        assert(m > 0);
        assert(s == sh + sf + st);
        assert(s.skip(full) =~= st);
        let more = cut_lines(st, pps, full);
        let kept = cut_lines(s, pps, full);
        assert(kept == s.take(pps) + more);
        assert(s.take(k) =~= sh);
        let c = line_count(m - k, pps);
        assert((1 + c) * full == full + c * full) by (nonlinear_arith);
        assert(line_count(m, pps) == 1 + c);
        if k == pps {
            assert(kept.take(m) =~= sh + more.take(m - k));
        } else {
            assert(samples_of(rest, pixel, msb) =~= Seq::<u32>::empty());
            assert(kept.take(m) =~= sh);
            assert(sh + samples_of(rest, pixel, msb) =~= sh);
        }
        assert forall|i: int| 0 <= i < s.len() implies #[trigger] s[i] <= bound by {
            if i < k {
                assert(s[i] == sh[i]);
            } else if i < full {
                assert(s[i] == sf[i - k]);
            } else {
                assert(s[i] == st[i - full]);
            }
        }
    }
}

/// The bytes that are coded, before scanlines are filled up.
pub open spec fn sz_pixels(p: SzParams, data: Seq<u8>) -> Seq<u8> {
    if p.interleaves() {
        interleaved(p.bpp as int / 8, data)
    } else {
        data
    }
}

/// Whether `data` can be coded without loss: it holds whole words, every sample keeps
/// within its width, and no fundamental sequence is too long to be read back. Samples
/// of at most 28 bits never have such a sequence.
pub open spec fn sz_lossless(p: SzParams, data: Seq<u8>) -> bool {
    let samples = samples_of(sz_pixels(p, data), p.pixel(), p.msb);
    &&& p.interleaves() ==> data.len() as int % (p.bpp as int / 8) == 0
    &&& data.len() as int % p.pixel() == 0
    &&& forall|i: int| 0 <= i < samples.len() ==> #[trigger] samples[i] < pow2(p.sample_bits() as nat)
    &&& p.sample_bits() > 28 ==> aec_short(
        p.coding(),
        samples_of(sz_source(p, data), p.pixel(), p.msb),
    )
}

proof fn lemma_interleave(ws: int, d: Seq<u8>)
    requires
        ws > 0,
        d.len() as int % ws == 0,
    ensures
        interleaved(ws, d) == shuffled(ws, d),
        deinterleaved(ws, interleaved(ws, d)) == d,
        interleaved(ws, d).len() == d.len(),
{
    assert(d.take(d.len() as int) =~= d);
    assert(interleaved(ws, d) =~= shuffled(ws, d));
    let e = shuffled(ws, d);
    assert(e.take(e.len() as int) =~= e);
    assert(deinterleaved(ws, e) =~= unshuffled(ws, e));
    law_unshuffle_shuffle(ws, d);
}

/// The samples of data that can be coded without loss.
#[verifier::rlimit(40)]
proof fn lemma_sz_samples(p: SzParams, data: Seq<u8>)
    requires
        p.wf(),
        sz_lossless(p, data),
    ensures
        ({
            let px = sz_pixels(p, data);
            let m = data.len() as int / p.pixel();
            let samples = samples_of(sz_source(p, data), p.pixel(), p.msb);
            let kept = if p.pads() {
                cut_lines(samples, p.pps as int, p.full_line())
            } else {
                samples
            };
            &&& px.len() == data.len()
            &&& samples.len() == sz_sample_count(p, data.len())
            &&& forall|i: int| 0 <= i < samples.len() ==> #[trigger] samples[i] <= p.coding().xmax()
            &&& kept.len() >= m
            &&& kept.take(m) == samples_of(px, p.pixel(), p.msb)
        }),
{
    let pixel = p.pixel();
    let px = sz_pixels(p, data);
    let m = px.len() as int / pixel;
    let bound = pow2(p.sample_bits() as nat) - 1;
    lemma_blocks(p);
    crate::format::bits::lemma_pow2_positive(p.sample_bits() as nat);
    if p.interleaves() {
        lemma_interleave(p.bpp as int / 8, data);
    }
    assert(all_within(px, pixel, p.msb, bound));
    if p.pads() {
        lemma_lines(px, p.pps as int, p.full_line(), pixel, p.msb, p.pp, bound);
    } else {
        let own = samples_of(px, pixel, p.msb);
        assert(own.take(m) =~= own);
    }
}

proof fn lemma_sz_unpacked(p: SzParams, data: Seq<u8>)
    requires
        p.wf(),
        sz_lossless(p, data),
    ensures
        sz_unpacked(
            p,
            samples_of(sz_source(p, data), p.pixel(), p.msb),
            data.len(),
        ) == data,
{
    let pixel = p.pixel();
    let px = sz_pixels(p, data);
    let m = data.len() as int / pixel;
    let samples = samples_of(sz_source(p, data), pixel, p.msb);
    let kept = if p.pads() {
        cut_lines(samples, p.pps as int, p.full_line())
    } else {
        samples
    };
    lemma_sz_samples(p, data);
    let own = samples_of(px, pixel, p.msb);
    let all = sample_bytes(kept, pixel, p.msb);
    lemma_bytes_of_samples(px, pixel, p.msb);
    assert(kept =~= own + kept.skip(m));
    lemma_sample_bytes_join(own, kept.skip(m), pixel, p.msb);
    assert(all.take(data.len() as int) =~= px);
    if all.len() == data.len() {
        assert(all =~= px);
    }
    if p.interleaves() {
        lemma_interleave(p.bpp as int / 8, data);
    }
}

/// What SZip compressed, it restores, where the data can be coded without loss. Such
/// data are compressed as long as their samples can be counted.
pub proof fn law_szip_round_trip(cdata: Seq<u32>, data: Seq<u8>)
    requires
        sz_params(cdata) is Ok,
        sz_lossless(sz_params(cdata)->Ok_0, data),
        sz_sample_count(sz_params(cdata)->Ok_0, data.len()) <= u64::MAX || sz_encoded(
            cdata,
            data,
        ) is Ok,
    ensures
        sz_encoded(cdata, data) is Ok,
        sz_decoded(cdata, sz_encoded(cdata, data)->Ok_0, data.len()) == Ok::<
            Seq<u8>,
            Seq<char>,
        >(data),
{
    let p = sz_params(cdata)->Ok_0;
    lemma_blocks(p);
    lemma_sz_samples(p, data);
    let samples = samples_of(sz_source(p, data), p.pixel(), p.msb);
    if p.sample_bits() <= 28 {
        law_narrow_short(p.coding(), samples);
    }
    law_aec_round_trip(p.coding(), samples);
    lemma_sz_unpacked(p, data);
}

} // verus!
