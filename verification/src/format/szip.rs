//! The SZip filter: interleaving, scanline padding and sample packing around the
//! entropy coder.

use vstd::prelude::*;

use crate::error::{same_bytes, Error};
use crate::format::aec::{
    aec_bits, aec_decode, aec_decoded, aec_encode, samples_fit, stream_bytes, Coding,
};
use crate::format::shuffle::{shuffle, shuffled, unshuffle, unshuffled};
use crate::format::{le, le_bytes, push_le, uint_of, zeroes};

verus! {

pub const SZ_EC_OPTION_MASK: u32 = 4;

pub const SZ_NN_OPTION_MASK: u32 = 32;

pub const SZ_RAW_OPTION_MASK: u32 = 128;

pub const SZ_MSB_OPTION_MASK: u32 = 16;

/// The settings of the filter.
#[derive(Clone, Copy)]
pub struct SzParams {
    /// Nearest-neighbour coding: differences to the sample before.
    pub pp: bool,
    /// Samples stored most significant byte first.
    pub msb: bool,
    /// Bits per pixel.
    pub bpp: u32,
    /// Pixels per block.
    pub ppb: u32,
    /// Pixels per scanline.
    pub pps: u32,
}

impl SzParams {
    pub open spec fn wf(self) -> bool {
        &&& 1 <= self.pps <= 4096
        &&& 2 <= self.ppb
        &&& self.ppb % 2 == 0
        &&& 1 <= self.bpp
        &&& self.bpp <= 32 || self.bpp == 64
    }

    /// Wide pixels are coded byte by byte.
    pub open spec fn interleaves(self) -> bool {
        self.bpp == 32 || self.bpp == 64
    }

    /// Bits per coded sample.
    pub open spec fn sample_bits(self) -> u32 {
        if self.interleaves() {
            8
        } else {
            self.bpp
        }
    }

    /// Bytes per coded sample.
    pub open spec fn pixel(self) -> int {
        if self.sample_bits() > 16 {
            4
        } else if self.sample_bits() > 8 {
            2
        } else {
            1
        }
    }

    /// Blocks per scanline.
    pub open spec fn blocks(self) -> int {
        (self.pps + self.ppb - 1) / self.ppb as int
    }

    /// Samples of a scanline that is filled up to whole blocks.
    pub open spec fn full_line(self) -> int {
        self.blocks() * self.ppb
    }

    /// Whether scanlines are filled up.
    pub open spec fn pads(self) -> bool {
        self.pps % self.ppb != 0
    }

    pub open spec fn coding(self) -> Coding {
        Coding {
            bps: self.sample_bits(),
            block: self.ppb,
            rsi: self.blocks() as u32,
            pp: self.pp,
        }
    }
}

/// The settings that the filter values name, or what is wrong with them.
pub open spec fn sz_params(cdata: Seq<u32>) -> Result<SzParams, Seq<char>> {
    if cdata.len() < 4 {
        Err("szip: missing filter parameters"@)
    } else {
        let p = SzParams {
            pp: cdata[0] & SZ_NN_OPTION_MASK != 0,
            msb: cdata[0] & SZ_MSB_OPTION_MASK != 0,
            bpp: cdata[1],
            ppb: cdata[2],
            pps: cdata[3],
        };
        if !p.wf() {
            Err("szip: invalid parameters"@)
        } else if cdata[0] & SZ_RAW_OPTION_MASK != 0 {
            Err("szip: raw option not supported"@)
        } else {
            Ok(p)
        }
    }
}

fn params(cdata: &[u32]) -> (r: Result<SzParams, Error>)
    ensures
        match (r, sz_params(cdata@)) {
            (Ok(p), Ok(q)) => p == q,
            (Err(e), Err(m)) => e@ == m,
            _ => false,
        },
{
    if cdata.len() < 4 {
        return Err(Error::new("szip: missing filter parameters"));
    }
    let mask: u32 = cdata[0];
    let p = SzParams {
        pp: mask & SZ_NN_OPTION_MASK != 0,
        msb: mask & SZ_MSB_OPTION_MASK != 0,
        bpp: cdata[1],
        ppb: cdata[2],
        pps: cdata[3],
    };
    if p.pps == 0 || p.pps > 4096 || p.ppb == 0 || p.ppb % 2 == 1 || p.bpp == 0 || (p.bpp > 32
        && p.bpp != 64) {
        return Err(Error::new("szip: invalid parameters"));
    }
    if mask & SZ_RAW_OPTION_MASK != 0 {
        return Err(Error::new("szip: raw option not supported"));
    }
    Ok(p)
}

/// The entropy coder's settings and the width of a sample in bytes.
fn coding_of(p: &SzParams) -> (r: (Coding, usize))
    requires
        p.wf(),
    ensures
        r.0 == p.coding(),
        r.0.wf(),
        r.1 == p.pixel(),
        1 <= p.blocks() <= 4096,
        p.pps <= p.full_line(),
        r.0.rsi == p.blocks(),
{
    let bps: u32 = if p.bpp == 32 || p.bpp == 64 {
        8
    } else {
        p.bpp
    };
    let pixel: usize = if bps > 16 {
        4
    } else if bps > 8 {
        2
    } else {
        1
    };
    proof {
        lemma_blocks(*p);
    }
    let rsi: u64 = (p.pps as u64 + p.ppb as u64 - 1) / p.ppb as u64;
    (Coding { bps, block: p.ppb, rsi: rsi as u32, pp: p.pp }, pixel)
}

pub(crate) proof fn lemma_blocks(p: SzParams)
    requires
        p.wf(),
    ensures
        1 <= p.blocks() <= 4096,
        p.pps <= p.full_line() < p.pps + p.ppb,
        !p.pads() ==> p.full_line() == p.pps,
        p.coding().wf(),
        p.coding().rsi == p.blocks(),
        p.coding().interval() == p.full_line(),
{
    let x = p.pps + p.ppb - 1;
    let b = p.ppb as int;
    let q = x / b;
    vstd::arithmetic::div_mod::lemma_fundamental_div_mod(x, b);
    vstd::arithmetic::div_mod::lemma_mod_bound(x, b);
    assert(1 <= q <= 4096) by (nonlinear_arith)
        requires
            x == b * q + x % b,
            0 <= x % b < b,
            b >= 2,
            b <= x <= 4096 + b - 1,
    ;
    assert(q * b == b * q) by (nonlinear_arith);
    if !p.pads() {
        let t = p.pps as int / b;
        vstd::arithmetic::div_mod::lemma_fundamental_div_mod(p.pps as int, b);
        assert(b * t == t * b) by (nonlinear_arith);
        vstd::arithmetic::div_mod::lemma_fundamental_div_mod_converse(x, b, t, b - 1);
    }
}

/// The bytes of whole words of `ws` bytes gathered by their place in the word; what
/// is left over is written as zeros.
pub open spec fn interleaved(ws: int, d: Seq<u8>) -> Seq<u8> {
    shuffled(ws, d.take(d.len() - d.len() as int % ws)) + zeroes((d.len() as int % ws) as nat)
}

/// The words back.
pub open spec fn deinterleaved(ws: int, d: Seq<u8>) -> Seq<u8> {
    unshuffled(ws, d.take(d.len() - d.len() as int % ws)) + zeroes((d.len() as int % ws) as nat)
}

fn push_zeros(v: &mut Vec<u8>, n: u64)
    ensures
        final(v)@ == old(v)@ + zeroes(n as nat),
{
    let mut i: u64 = 0;
    assert(v@ =~= old(v)@ + zeroes(0));
    while i < n
        invariant
            i <= n,
            v@ == old(v)@ + zeroes(i as nat),
        decreases n - i,
    {
        v.push(0);
        i += 1;
        assert(v@ =~= old(v)@ + zeroes(i as nat));
    }
}

fn interleave(src: &[u8], ws: usize) -> (r: Vec<u8>)
    requires
        ws > 0,
    ensures
        r@ == interleaved(ws as int, src@),
{
    let n: usize = src.len();
    let left: usize = n % ws;
    proof {
        vstd::arithmetic::div_mod::lemma_mod_decreases(n as nat, ws as nat);
    }
    let mut out = shuffle(ws, vstd::slice::slice_subrange(src, 0, n - left));
    assert(src@.subrange(0, n - left) =~= src@.take(n - left));
    push_zeros(&mut out, left as u64);
    out
}

fn deinterleave(src: &[u8], ws: usize) -> (r: Vec<u8>)
    requires
        ws > 0,
    ensures
        r@ == deinterleaved(ws as int, src@),
{
    let n: usize = src.len();
    let left: usize = n % ws;
    proof {
        vstd::arithmetic::div_mod::lemma_mod_decreases(n as nat, ws as nat);
    }
    let mut out = unshuffle(ws, vstd::slice::slice_subrange(src, 0, n - left));
    assert(src@.subrange(0, n - left) =~= src@.take(n - left));
    push_zeros(&mut out, left as u64);
    out
}

/// The bytes of a number in the stored order.
pub open spec fn ordered(msb: bool, s: Seq<u8>) -> Seq<u8> {
    if msb {
        s.reverse()
    } else {
        s
    }
}

/// The samples that the whole pixels of some bytes hold.
pub open spec fn samples_of(d: Seq<u8>, pixel: int, msb: bool) -> Seq<u32> {
    Seq::new(
        (d.len() as int / pixel) as nat,
        |i: int| le(ordered(msb, d.subrange(i * pixel, i * pixel + pixel))) as u32,
    )
}

/// The bytes of samples, each cut down to its pixel.
pub open spec fn sample_bytes(v: Seq<u32>, pixel: int, msb: bool) -> Seq<u8>
    decreases v.len(),
{
    if v.len() == 0 {
        Seq::empty()
    } else {
        sample_bytes(v.drop_last(), pixel, msb) + ordered(
            msb,
            le_bytes(v.last() as nat, pixel as nat),
        )
    }
}

fn reversed(s: &[u8]) -> (r: Vec<u8>)
    ensures
        r@ == s@.reverse(),
{
    let n: usize = s.len();
    let mut out: Vec<u8> = Vec::new();
    let mut i: usize = 0;
    while i < n
        invariant
            i <= n == s@.len(),
            out@ == s@.reverse().take(i as int),
        decreases n - i,
    {
        out.push(s[n - 1 - i]);
        i += 1;
        assert(out@ =~= s@.reverse().take(i as int));
    }
    assert(s@.reverse().take(n as int) =~= s@.reverse());
    out
}

pub(crate) proof fn lemma_pixel_place(i: int, pixel: int, n: int)
    requires
        1 <= pixel <= 4,
        0 <= i < n / pixel,
        n >= 0,
    ensures
        0 <= i * pixel,
        i * pixel + pixel <= n,
{
    vstd::arithmetic::div_mod::lemma_fundamental_div_mod(n, pixel);
    vstd::arithmetic::div_mod::lemma_mod_bound(n, pixel);
    let q = n / pixel;
    assert(0 <= i * pixel && i * pixel + pixel <= pixel * q) by (nonlinear_arith)
        requires
            0 <= i,
            i + 1 <= q,
            pixel >= 1,
    ;
}

/// A number of at most four bytes fits a sample.
pub(crate) proof fn lemma_sample_range(s: Seq<u8>, msb: bool)
    requires
        s.len() <= 4,
    ensures
        ordered(msb, s).len() == s.len(),
        le(ordered(msb, s)) <= 0xffff_ffff,
{
    crate::format::lemma_le_bound(ordered(msb, s));
    reveal_with_fuel(crate::format::pow256, 5);
}

/// Reads samples from bytes.
fn to_samples(data: &[u8], pixel: usize, msb: bool) -> (r: Vec<u32>)
    requires
        1 <= pixel <= 4,
    ensures
        r@ == samples_of(data@, pixel as int, msb),
{
    let total: usize = data.len();
    let n: usize = total / pixel;
    let mut out: Vec<u32> = Vec::new();
    let mut i: usize = 0;
    while i < n
        invariant
            1 <= pixel <= 4,
            i <= n == total as int / pixel as int,
            total == data@.len(),
            out@ == samples_of(data@, pixel as int, msb).take(i as int),
        decreases n - i,
    {
        proof {
            lemma_pixel_place(i as int, pixel as int, data@.len() as int);
        }
        let s = vstd::slice::slice_subrange(data, i * pixel, i * pixel + pixel);
        let v: u64 = if msb {
            let t = reversed(s);
            uint_of(t.as_slice())
        } else {
            uint_of(s)
        };
        proof {
            lemma_sample_range(s@, msb);
        }
        out.push(v as u32);
        i += 1;
        assert(out@ =~= samples_of(data@, pixel as int, msb).take(i as int));
    }
    assert(samples_of(data@, pixel as int, msb).take(n as int) =~= samples_of(
        data@,
        pixel as int,
        msb,
    ));
    out
}

/// Writes samples as bytes.
fn from_samples(samples: &[u32], pixel: usize, msb: bool) -> (r: Vec<u8>)
    requires
        1 <= pixel <= 4,
    ensures
        r@ == sample_bytes(samples@, pixel as int, msb),
{
    let n: usize = samples.len();
    let mut out: Vec<u8> = Vec::new();
    let mut i: usize = 0;
    assert(samples@.take(0) =~= Seq::<u32>::empty());
    while i < n
        invariant
            1 <= pixel <= 4,
            i <= n == samples@.len(),
            out@ == sample_bytes(samples@.take(i as int), pixel as int, msb),
        decreases n - i,
    {
        let mut one: Vec<u8> = Vec::new();
        push_le(&mut one, samples[i] as u64, pixel);
        proof {
            assert(one@ =~= le_bytes(samples@[i as int] as nat, pixel as nat));
            assert(samples@.take(i + 1).drop_last() =~= samples@.take(i as int));
        }
        if msb {
            let mut back = reversed(one.as_slice());
            out.append(&mut back);
        } else {
            out.append(&mut one);
        }
        i += 1;
    }
    assert(samples@.take(n as int) =~= samples@);
    out
}

/// What fills a scanline up: its last pixel again and again, or zeros.
pub open spec fn filler(line: Seq<u8>, pad: int, pixel: int, pp: bool) -> Seq<u8> {
    if pp && line.len() >= pixel {
        Seq::new((pad / pixel * pixel) as nat, |k: int| line[line.len() - pixel + k % pixel])
    } else {
        zeroes(pad as nat)
    }
}

/// Bytes cut into scanlines of `line` bytes, each filled up to `full` bytes.
pub open spec fn padded_lines(
    src: Seq<u8>,
    line: int,
    full: int,
    pixel: int,
    pp: bool,
) -> Seq<u8>
    decreases src.len(),
{
    if src.len() == 0 || line <= 0 {
        Seq::empty()
    } else {
        let n = if src.len() < line {
            src.len() as int
        } else {
            line
        };
        let head = src.take(n);
        head + filler(head, full - n, pixel, pp) + padded_lines(
            src.skip(n),
            line,
            full,
            pixel,
            pp,
        )
    }
}

/// The first `line` samples of every scanline of `full` samples.
pub open spec fn cut_lines(samples: Seq<u32>, line: int, full: int) -> Seq<u32>
    decreases samples.len(),
{
    if samples.len() == 0 || full <= 0 {
        Seq::empty()
    } else {
        let n = if samples.len() < full {
            samples.len() as int
        } else {
            full
        };
        samples.take(if line < n {
            line
        } else {
            n
        }) + cut_lines(samples.skip(n), line, full)
    }
}

fn push_filler(v: &mut Vec<u8>, line: &[u8], pad: u64, pixel: usize, pp: bool)
    requires
        1 <= pixel <= 4,
    ensures
        final(v)@ == old(v)@ + filler(line@, pad as int, pixel as int, pp),
{
    let n: usize = line.len();
    if pp && n >= pixel {
        let ghost all = filler(line@, pad as int, pixel as int, pp);
        proof {
            vstd::arithmetic::div_mod::lemma_fundamental_div_mod(pad as int, pixel as int);
            assert(pixel * (pad as int / pixel as int) == pad as int / pixel as int * pixel)
                by (nonlinear_arith);
            vstd::arithmetic::div_mod::lemma_mod_bound(pad as int, pixel as int);
        }
        let whole: u64 = pad - pad % pixel as u64;
        let mut k: u64 = 0;
        assert(v@ =~= old(v)@ + all.take(0));
        while k < whole
            invariant
                1 <= pixel <= 4,
                pixel <= n == line@.len(),
                pp,
                k <= whole == all.len(),
                all == filler(line@, pad as int, pixel as int, pp),
                v@ == old(v)@ + all.take(k as int),
            decreases whole - k,
        {
            let at: usize = (k % pixel as u64) as usize;
            v.push(line[n - pixel + at]);
            k += 1;
            assert(v@ =~= old(v)@ + all.take(k as int));
        }
        assert(all.take(whole as int) =~= all);
    } else {
        push_zeros(v, pad);
    }
}

fn pad_lines(src: &[u8], line: usize, full: u64, pixel: usize, pp: bool) -> (r: Vec<u8>)
    requires
        1 <= pixel <= 4,
        1 <= line <= full,
    ensures
        r@ == padded_lines(src@, line as int, full as int, pixel as int, pp),
{
    let n: usize = src.len();
    let ghost whole = padded_lines(src@, line as int, full as int, pixel as int, pp);
    let mut out: Vec<u8> = Vec::new();
    let mut at: usize = 0;
    assert(src@.skip(0) =~= src@);
    assert(out@ + whole =~= whole);
    while at < n
        invariant
            1 <= pixel <= 4,
            1 <= line <= full,
            at <= n == src@.len(),
            whole == padded_lines(src@, line as int, full as int, pixel as int, pp),
            whole == out@ + padded_lines(
                src@.skip(at as int),
                line as int,
                full as int,
                pixel as int,
                pp,
            ),
        decreases n - at,
    {
        let len: usize = if n - at < line {
            n - at
        } else {
            line
        };
        let head = vstd::slice::slice_subrange(src, at, at + len);
        let ghost before = out@;
        push_slice(&mut out, head);
        push_filler(&mut out, head, full - len as u64, pixel, pp);
        proof {
            let rest = src@.skip(at as int);
            assert(rest.take(len as int) =~= head@);
            assert(rest.skip(len as int) =~= src@.skip(at + len));
            assert(whole =~= out@ + padded_lines(
                src@.skip(at + len),
                line as int,
                full as int,
                pixel as int,
                pp,
            ));
        }
        at += len;
    }
    proof {
        assert(src@.skip(n as int) =~= Seq::<u8>::empty());
        assert(whole =~= out@);
    }
    out
}

fn push_slice(v: &mut Vec<u8>, s: &[u8])
    ensures
        final(v)@ == old(v)@ + s@,
{
    let mut t = vstd::slice::slice_to_vec(s);
    v.append(&mut t);
}

fn unpad_lines(samples: &[u32], line: usize, full: u64) -> (r: Vec<u32>)
    requires
        1 <= line <= full,
    ensures
        r@ == cut_lines(samples@, line as int, full as int),
{
    let n: usize = samples.len();
    let ghost whole = cut_lines(samples@, line as int, full as int);
    let mut out: Vec<u32> = Vec::new();
    let mut at: usize = 0;
    assert(samples@.skip(0) =~= samples@);
    assert(out@ + whole =~= whole);
    while at < n
        invariant
            1 <= line <= full,
            at <= n == samples@.len(),
            whole == cut_lines(samples@, line as int, full as int),
            whole == out@ + cut_lines(samples@.skip(at as int), line as int, full as int),
        decreases n - at,
    {
        let chunk: usize = if ((n - at) as u64) < full {
            n - at
        } else {
            full as usize
        };
        let len: usize = if line < chunk {
            line
        } else {
            chunk
        };
        let part = vstd::slice::slice_subrange(samples, at, at + len);
        let mut copy = vstd::slice::slice_to_vec(part);
        out.append(&mut copy);
        proof {
            let rest = samples@.skip(at as int);
            assert(rest.take(len as int) =~= part@);
            assert(rest.skip(chunk as int) =~= samples@.skip(at + chunk));
            assert(whole =~= out@ + cut_lines(
                samples@.skip(at + chunk),
                line as int,
                full as int,
            ));
        }
        at += chunk;
    }
    proof {
        assert(samples@.skip(n as int) =~= Seq::<u32>::empty());
        assert(whole =~= out@);
    }
    out
}

/// The bytes that are cut into samples.
pub open spec fn sz_source(p: SzParams, data: Seq<u8>) -> Seq<u8> {
    let src = if p.interleaves() {
        interleaved(p.bpp as int / 8, data)
    } else {
        data
    };
    if p.pads() {
        padded_lines(src, p.pps * p.pixel(), p.full_line() * p.pixel(), p.pixel(), p.pp)
    } else {
        src
    }
}

/// The stream for `data`. Differences need samples of the announced width, and there
/// are no more samples than 64 bits count.
pub open spec fn sz_encoded(cdata: Seq<u32>, data: Seq<u8>) -> Result<Seq<u8>, Seq<char>> {
    match sz_params(cdata) {
        Err(e) => Err(e),
        Ok(p) => {
            let samples = samples_of(sz_source(p, data), p.pixel(), p.msb);
            if samples.len() > u64::MAX {
                Err("szip: input too large"@)
            } else if samples_fit(p.coding(), samples) {
                Ok(stream_bytes(aec_bits(p.coding(), samples)))
            } else {
                Err("szip: sample exceeds its bit width"@)
            }
        },
    }
}

/// How many samples the stream for `out_len` bytes holds.
pub open spec fn sz_sample_count(p: SzParams, out_len: nat) -> int {
    let n = out_len as int / p.pixel();
    if p.pads() {
        (n + p.pps - 1) / p.pps as int * p.full_line()
    } else {
        n
    }
}

/// The bytes of the samples of a stream for `out_len` bytes.
pub open spec fn sz_unpacked(p: SzParams, samples: Seq<u32>, out_len: nat) -> Seq<u8> {
    let s = if p.pads() {
        cut_lines(samples, p.pps as int, p.full_line())
    } else {
        samples
    };
    let all = sample_bytes(s, p.pixel(), p.msb);
    let kept = if all.len() > out_len {
        all.take(out_len as int)
    } else {
        all
    };
    if p.interleaves() {
        deinterleaved(p.bpp as int / 8, kept)
    } else {
        kept
    }
}

/// The data of a stream whose data were `out_len` bytes.
pub open spec fn sz_decoded(cdata: Seq<u32>, data: Seq<u8>, out_len: nat) -> Result<
    Seq<u8>,
    Seq<char>,
> {
    match sz_params(cdata) {
        Err(e) => Err(e),
        Ok(p) => if sz_sample_count(p, out_len) > u64::MAX {
            Err("szip: output too large"@)
        } else {
            match aec_decoded(
                p.coding(),
                crate::format::bits::bits(data),
                Seq::empty(),
                Seq::empty(),
                sz_sample_count(p, out_len) as nat,
            ) {
                Err(e) => Err(e),
                Ok(samples) => Ok(sz_unpacked(p, samples, out_len)),
            }
        },
    }
}

fn fits(c: &Coding, samples: &[u32]) -> (r: bool)
    requires
        c.wf(),
    ensures
        r == samples_fit(*c, samples@),
{
    if !c.pp {
        return true;
    }
    proof {
        crate::format::aec::lemma_pow2_thirty();
        crate::format::bits::lemma_pow2_monotone(c.bps as nat, 31);
        crate::format::bits::lemma_pow2_positive(c.bps as nat);
    }
    let xmax: u32 = (crate::format::aec::power_of_two(c.bps) - 1) as u32;
    let n: usize = samples.len();
    let mut i: usize = 0;
    while i < n
        invariant
            i <= n == samples@.len(),
            c.pp,
            xmax == c.xmax(),
            forall|j: int| 0 <= j < i ==> #[trigger] samples@[j] <= c.xmax(),
        decreases n - i,
    {
        if samples[i] > xmax {
            assert(samples@[i as int] > c.xmax());
            return false;
        }
        i += 1;
    }
    true
}

/// Compresses `data` with the filter values `cdata`.
pub fn sz_compress(cdata: &[u32], data: &[u8]) -> (r: Result<Vec<u8>, Error>)
    ensures
        same_bytes(r, sz_encoded(cdata@, data@)),
{
    let p = params(cdata)?;
    let (c, pixel) = coding_of(&p);
    let mut src: Vec<u8> = if p.bpp == 32 || p.bpp == 64 {
        interleave(data, (p.bpp / 8) as usize)
    } else {
        vstd::slice::slice_to_vec(data)
    };
    if p.pps % p.ppb != 0 {
        proof {
            lemma_line_sizes(p);
        }
        let line: usize = p.pps as usize * pixel;
        let full: u64 = c.rsi as u64 * c.block as u64 * pixel as u64;
        src = pad_lines(src.as_slice(), line, full, pixel, p.pp);
    }
    assert(src@ == sz_source(p, data@));
    let samples = to_samples(src.as_slice(), pixel, p.msb);
    let n: usize = samples.len();
    assert(n == samples@.len() && n <= u64::MAX);
    if !fits(&c, samples.as_slice()) {
        return Err(Error::new("szip: sample exceeds its bit width"));
    }
    Ok(aec_encode(samples.as_slice(), &c))
}

proof fn lemma_line_sizes(p: SzParams)
    requires
        p.wf(),
    ensures
        p.coding().rsi == p.blocks(),
        1 <= p.pps * p.pixel() <= 4096 * 4,
        p.pps * p.pixel() <= p.full_line() * p.pixel() <= 4096 * 0xffff_ffff * 4,
        p.full_line() <= 4096 * 0xffff_ffff,
{
    lemma_blocks(p);
    let f = p.full_line();
    assert(f <= 4096 * 0xffff_ffff) by (nonlinear_arith)
        requires
            f == p.blocks() * p.ppb,
            0 <= p.blocks() <= 4096,
            0 <= p.ppb <= 0xffff_ffff,
    ;
    assert(p.pps * p.pixel() <= f * p.pixel() <= f * 4) by (nonlinear_arith)
        requires
            p.pps <= f,
            1 <= p.pixel() <= 4,
    ;
    assert(1 <= p.pps * p.pixel() <= 4096 * 4) by (nonlinear_arith)
        requires
            1 <= p.pps <= 4096,
            1 <= p.pixel() <= 4,
    ;
}

/// Restores `out_len` bytes from a stream made with the filter values `cdata`.
pub fn sz_decompress(cdata: &[u32], data: &[u8], out_len: usize) -> (r: Result<Vec<u8>, Error>)
    ensures
        same_bytes(r, sz_decoded(cdata@, data@, out_len as nat)),
{
    let p = params(cdata)?;
    let (c, pixel) = coding_of(&p);
    proof {
        lemma_line_sizes(p);
    }
    let pads: bool = p.pps % p.ppb != 0;
    let full: u64 = c.rsi as u64 * c.block as u64;
    let out_samples: u64 = (out_len / pixel) as u64;
    let mut count: u128 = out_samples as u128;
    if pads {
        let lines: u128 = (out_samples as u128 + p.pps as u128 - 1) / p.pps as u128;
        proof {
            assert(lines <= out_samples + 4096) by (nonlinear_arith)
                requires
                    lines == (out_samples as int + p.pps as int - 1) / p.pps as int,
                    1 <= p.pps <= 4096,
                    out_samples >= 0,
            ;
            assert(lines * full <= 0x2_0000_0000_0000_0000 * (4096 * 0xffff_ffff))
                by (nonlinear_arith)
                requires
                    0 <= lines <= 0x2_0000_0000_0000_0000,
                    0 <= full <= 4096 * 0xffff_ffff,
            ;
        }
        count = lines * full as u128;
    }
    assert(count == sz_sample_count(p, out_len as nat));
    if count > u64::MAX as u128 {
        return Err(Error::new("szip: output too large"));
    }
    let mut samples = aec_decode(data, &c, count as u64)?;
    if pads {
        samples = unpad_lines(samples.as_slice(), p.pps as usize, full);
    }
    let mut bytes = from_samples(samples.as_slice(), pixel, p.msb);
    let ghost all = bytes@;
    bytes.truncate(out_len);
    assert(bytes@ =~= if all.len() > out_len {
        all.take(out_len as int)
    } else {
        all
    });
    if p.bpp == 32 || p.bpp == 64 {
        return Ok(deinterleave(bytes.as_slice(), (p.bpp / 8) as usize));
    }
    Ok(bytes)
}

} // verus!
