//! The filter pipeline.
//!
//! Filters work on the raw bytes of a chunk. On writing they are applied in listed
//! order; on reading they are reversed in the opposite order. Scaling
//! floating-point elements is left to the caller: a pipeline stops there, and is
//! resumed with the scaled bytes.

use vstd::prelude::*;

use crate::error::{bytes_view, Error};
use crate::format::aec::power_of_two;
use crate::format::bits::pow2;
use crate::format::blosc::{
    blosc_decoded, compress, compressed_as, decompress, prefixed, CODEC_BLOSCLZ, CODEC_LZ4,
    CODEC_SNAPPY, CODEC_ZLIB, CODEC_ZSTD,
};
use crate::format::codecs::{gives, zlib_compress, zlib_decompress, zlib_plain, zlib_stream};
use crate::format::fletcher::{fletcher32, fletcher32_sum};
use crate::format::lzf::{lzf_compress, lzf_decoded, lzf_decompress, lzf_encoding};
use crate::format::nbit::{nbit_decoded, nbit_decompress};
use crate::format::scaleoffset::{
    law_scaleoffset_round_trip, scaled, scaleoffset_compress, scaleoffset_decompress, settings,
    unscaled, FloatBlock, FloatCells, Scaled, ScaledView, Unscaled, UnscaledView,
};
use crate::format::shuffle::{
    law_unshuffle_shuffle, shuffle, shuffled, unshuffle, unshuffled,
};
use crate::format::szip::{sz_compress, sz_decoded, sz_decompress, sz_encoded, sz_params};
use crate::format::szip_laws::{law_szip_round_trip, sz_lossless};
use crate::format::{le_at, le_bytes, lemma_le_bytes_len, push_le, uint_of};
use crate::text::{decimal, join, with_number};

verus! {

pub const FILTER_DEFLATE: u16 = 1;

pub const FILTER_SHUFFLE: u16 = 2;

pub const FILTER_FLETCHER32: u16 = 3;

pub const FILTER_SZIP: u16 = 4;

pub const FILTER_NBIT: u16 = 5;

pub const FILTER_SCALEOFFSET: u16 = 6;

/// The registered id of the LZF filter.
pub const FILTER_LZF: u16 = 32000;

/// The registered id of the blosc filter.
pub const FILTER_BLOSC: u16 = 32001;

/// A single filter lowered to its id and client-data words.
#[derive(Debug)]
pub struct RawFilter {
    pub id: u16,
    pub cdata: Vec<u32>,
    pub name: String,
}

/// The view of a [`RawFilter`].
#[verifier::ext_equal]
pub struct FilterView {
    pub id: u16,
    pub cdata: Seq<u32>,
    pub name: Seq<char>,
}

impl View for RawFilter {
    type V = FilterView;

    open spec fn view(&self) -> FilterView {
        FilterView { id: self.id, cdata: self.cdata@, name: self.name@ }
    }
}

impl Clone for RawFilter {
    fn clone(&self) -> (r: Self)
        ensures
            r@ == self@,
    {
        let cdata = copy_words(self.cdata.as_slice());
        RawFilter { id: self.id, cdata, name: self.name.clone() }
    }
}

pub(crate) fn copy_words(v: &[u32]) -> (r: Vec<u32>)
    ensures
        r@ == v@,
{
    vstd::slice::slice_to_vec(v)
}

/// The views of a pipeline.
pub open spec fn filter_views(fs: Seq<RawFilter>) -> Seq<FilterView> {
    fs.map_values(|f: RawFilter| f@)
}

/// A copy of a pipeline.
pub fn clone_filters(fs: &[RawFilter]) -> (r: Vec<RawFilter>)
    ensures
        filter_views(r@) == filter_views(fs@),
{
    let n: usize = fs.len();
    let mut out: Vec<RawFilter> = Vec::new();
    let mut i: usize = 0;
    while i < n
        invariant
            i <= n == fs@.len(),
            filter_views(out@) == filter_views(fs@).take(i as int),
        decreases n - i,
    {
        let ghost before = out@;
        out.push(fs[i].clone());
        i += 1;
        assert(filter_views(out@) =~= filter_views(before).push(fs@[i - 1]@));
        assert(filter_views(out@) =~= filter_views(fs@).take(i as int));
    }
    assert(filter_views(fs@).take(n as int) =~= filter_views(fs@));
    out
}

/// The client-data word `i`, or a default.
pub open spec fn word_or(cdata: Seq<u32>, i: int, default: nat) -> nat {
    if i < cdata.len() {
        cdata[i] as nat
    } else {
        default
    }
}

pub(crate) fn word_at(cdata: &[u32], i: usize, default: u64) -> (r: u64)
    ensures
        r == word_or(cdata@, i as int, default as nat),
{
    if i < cdata.len() {
        cdata[i] as u64
    } else {
        default
    }
}

/// The element size that shuffling works with.
pub open spec fn shuffle_size(f: FilterView, element_size: nat) -> nat {
    let e = word_or(f.cdata, 0, element_size);
    if e == 0 {
        1
    } else {
        e
    }
}

/// The compression level of a deflate filter.
pub open spec fn deflate_level(f: FilterView) -> nat {
    let l = word_or(f.cdata, 0, 6);
    if l > 9 {
        9
    } else {
        l
    }
}

/// The codec format that a blosc frame stores for a compressor code.
pub open spec fn blosc_format(code: nat) -> int {
    if code == 1 || code == 2 {
        1
    } else if code == 3 {
        2
    } else if code == 4 {
        3
    } else if code == 5 {
        4
    } else {
        0
    }
}

/// The shuffle mode of a blosc filter.
pub open spec fn blosc_shuffle(f: FilterView) -> int {
    word_or(f.cdata, 5, 1) as int % 256
}

/// The element size of a blosc filter.
pub open spec fn blosc_typesize(f: FilterView, element_size: nat) -> int {
    let t = word_or(f.cdata, 2, element_size % 0x1_0000_0000) as int;
    if t == 0 {
        1
    } else {
        t
    }
}

/// The stage that bytes make.
pub open spec fn bytes_stage(r: Result<Seq<u8>, Seq<char>>) -> Result<ScaledView, Seq<char>> {
    match r {
        Ok(v) => Ok(ScaledView::Bytes(v)),
        Err(e) => Err(e),
    }
}

pub open spec fn unsupported(id: u16, what: Seq<char>) -> Seq<char> {
    "filter id "@ + decimal(id as nat) + what
}

/// Whether `out` is what the filter `f` makes of `data`. What the general-purpose
/// compressors make of it gives the data back.
pub open spec fn filter_forward(
    f: FilterView,
    element_size: nat,
    data: Seq<u8>,
    out: Result<ScaledView, Seq<char>>,
) -> bool {
    if f.id == FILTER_DEFLATE {
        &&& out == bytes_stage(prefixed("I/O error: "@, zlib_stream(data, deflate_level(f))))
        &&& out matches Ok(ScaledView::Bytes(b)) ==> gives(zlib_plain(b), data)
    } else if f.id == FILTER_SHUFFLE {
        out == bytes_stage(Ok(shuffled(shuffle_size(f, element_size) as int, data)))
    } else if f.id == FILTER_FLETCHER32 {
        out == bytes_stage(Ok(data + le_bytes(fletcher32_sum(data), 4)))
    } else if f.id == FILTER_LZF {
        &&& out == bytes_stage(Ok(lzf_encoding(data)))
        &&& lzf_decoded(lzf_encoding(data), Seq::empty()) == Ok::<Seq<u8>, Seq<char>>(data)
    } else if f.id == FILTER_BLOSC {
        let codec = blosc_format(word_or(f.cdata, 6, 0));
        let mode = blosc_shuffle(f);
        let size = blosc_typesize(f, element_size);
        exists|r: Result<Seq<u8>, Seq<char>>| #[trigger]
            compressed_as(codec, mode, size, data, r) && out == bytes_stage(r)
    } else if f.id == FILTER_SCALEOFFSET {
        out == scaled(f.cdata, data)
    } else if f.id == FILTER_SZIP {
        out == bytes_stage(
            match sz_encoded(f.cdata, data) {
                Ok(s) => Ok(le_bytes(data.len(), 4) + s),
                Err(e) => Err(e),
            },
        )
    } else if f.id == FILTER_NBIT {
        out == bytes_stage(Ok(data))
    } else {
        out == bytes_stage(Err(unsupported(f.id, " is not supported for writing"@)))
    }
}

/// What comes out of applying a pipeline.
#[derive(Debug)]
pub enum Applied {
    /// The filtered bytes.
    Bytes(Vec<u8>),
    /// Floating-point elements to be scaled; the packed chunk goes on at filter
    /// `next`.
    Float { next: usize, cells: FloatCells },
}

/// The view of an [`Applied`].
pub enum AppliedView {
    Bytes(Seq<u8>),
    Float { next: int, cells: ScaledView },
}

impl View for Applied {
    type V = AppliedView;

    open spec fn view(&self) -> AppliedView {
        match *self {
            Applied::Bytes(b) => AppliedView::Bytes(b@),
            Applied::Float { next, cells } => AppliedView::Float {
                next: next as int,
                cells: Scaled::Float(cells)@,
            },
        }
    }
}

/// Whether `out` is what the filters from `from` on make of `data`.
pub open spec fn pipeline_forward(
    fs: Seq<FilterView>,
    from: int,
    element_size: nat,
    data: Seq<u8>,
    out: Result<AppliedView, Seq<char>>,
) -> bool
    decreases fs.len() - from,
{
    if from < 0 || from >= fs.len() {
        out == Ok::<AppliedView, Seq<char>>(AppliedView::Bytes(data))
    } else {
        exists|mid: Result<ScaledView, Seq<char>>| #[trigger]
            filter_forward(fs[from], element_size, data, mid) && match mid {
                Err(e) => out == Err::<AppliedView, Seq<char>>(e),
                Ok(ScaledView::Bytes(b)) => pipeline_forward(fs, from + 1, element_size, b, out),
                Ok(cells) => out == Ok::<AppliedView, Seq<char>>(
                    AppliedView::Float { next: from + 1, cells },
                ),
            }
    }
}

/// The view of a pipeline's outcome.
pub open spec fn applied_view(r: Result<Applied, Error>) -> Result<AppliedView, Seq<char>> {
    match r {
        Ok(a) => Ok(a@),
        Err(e) => Err(e@),
    }
}

pub open spec fn scaled_view(r: Result<Scaled, Error>) -> Result<ScaledView, Seq<char>> {
    match r {
        Ok(a) => Ok(a@),
        Err(e) => Err(e@),
    }
}

fn apply_deflate(f: &RawFilter, data: &[u8]) -> (r: Result<Scaled, Error>)
    requires
        f.id == FILTER_DEFLATE,
    ensures
        forall|es: nat| #[trigger] filter_forward(f@, es, data@, scaled_view(r)),
{
    let word: u64 = word_at(f.cdata.as_slice(), 0, 6);
    let level: u32 = if word > 9 {
        9
    } else {
        word as u32
    };
    match zlib_compress(data, level) {
        Ok(v) => Ok(Scaled::Bytes(v)),
        Err(e) => Err(Error::from_text(join("I/O error: ", e.as_str()))),
    }
}

fn apply_blosc(f: &RawFilter, element_size: usize, data: &[u8]) -> (r: Result<Scaled, Error>)
    requires
        f.id == FILTER_BLOSC,
    ensures
        filter_forward(f@, element_size as nat, data@, scaled_view(r)),
{
    let cdata = f.cdata.as_slice();
    let word: u64 = word_at(cdata, 2, element_size as u64 % 0x1_0000_0000);
    let typesize: usize = if word == 0 {
        1
    } else {
        word as usize
    };
    let clevel: u8 = (word_at(cdata, 4, 5) % 256) as u8;
    let mode: u8 = (word_at(cdata, 5, 1) % 256) as u8;
    let code: u64 = word_at(cdata, 6, 0);
    let format: u8 = match code {
        1 | 2 => CODEC_LZ4,
        3 => CODEC_SNAPPY,
        4 => CODEC_ZLIB,
        5 => CODEC_ZSTD,
        _ => CODEC_BLOSCLZ,
    };
    assert(format == blosc_format(word_or(f@.cdata, 6, 0)));
    let framed = compress(format, clevel, mode, typesize, data);
    assert(compressed_as(
        blosc_format(word_or(f@.cdata, 6, 0)),
        blosc_shuffle(f@),
        blosc_typesize(f@, element_size as nat),
        data@,
        bytes_view(framed),
    ));
    match framed {
        Ok(v) => Ok(Scaled::Bytes(v)),
        Err(e) => Err(e),
    }
}

fn apply_one(f: &RawFilter, element_size: usize, data: &[u8]) -> (r: Result<Scaled, Error>)
    ensures
        filter_forward(f@, element_size as nat, data@, scaled_view(r)),
{
    if f.id == FILTER_DEFLATE {
        apply_deflate(f, data)
    } else if f.id == FILTER_SHUFFLE {
        let word: u64 = word_at(f.cdata.as_slice(), 0, element_size as u64);
        let size: usize = if word == 0 {
            1
        } else {
            word as usize
        };
        Ok(Scaled::Bytes(shuffle(size, data)))
    } else if f.id == FILTER_FLETCHER32 {
        let mut out = vstd::slice::slice_to_vec(data);
        let sum: u32 = fletcher32(data);
        push_le(&mut out, sum as u64, 4);
        Ok(Scaled::Bytes(out))
    } else if f.id == FILTER_LZF {
        Ok(Scaled::Bytes(lzf_compress(data)))
    } else if f.id == FILTER_BLOSC {
        apply_blosc(f, element_size, data)
    } else if f.id == FILTER_SCALEOFFSET {
        scaleoffset_compress(f.cdata.as_slice(), data)
    } else if f.id == FILTER_SZIP {
        let mut out: Vec<u8> = Vec::new();
        push_le(&mut out, data.len() as u64, 4);
        let mut stream = sz_compress(f.cdata.as_slice(), data)?;
        out.append(&mut stream);
        assert(out@ =~= le_bytes(data@.len(), 4) + sz_encoded(f@.cdata, data@)->Ok_0);
        Ok(Scaled::Bytes(out))
    } else if f.id == FILTER_NBIT {
        Ok(Scaled::Bytes(vstd::slice::slice_to_vec(data)))
    } else {
        let text = with_number("filter id ", f.id as u64);
        Err(Error::from_text(join(text.as_str(), " is not supported for writing")))
    }
}

/// Applies the filters from `from` on to `data`, given the element size.
pub fn apply_from(filters: &[RawFilter], from: usize, element_size: usize, data: &[u8]) -> (r:
    Result<Applied, Error>)
    requires
        from <= filters@.len(),
    ensures
        pipeline_forward(
            filter_views(filters@),
            from as int,
            element_size as nat,
            data@,
            applied_view(r),
        ),
    decreases filters@.len() - from,
{
    let ghost fs = filter_views(filters@);
    if from >= filters.len() {
        return Ok(Applied::Bytes(vstd::slice::slice_to_vec(data)));
    }
    let mid = apply_one(&filters[from], element_size, data);
    assert(filter_forward(fs[from as int], element_size as nat, data@, scaled_view(mid)));
    match mid {
        Err(e) => Err(e),
        Ok(Scaled::Bytes(b)) => apply_from(filters, from + 1, element_size, b.as_slice()),
        Ok(Scaled::Float(cells)) => Ok(Applied::Float { next: from + 1, cells }),
    }
}

/// Applies the pipeline to `data`, given the element size.
pub fn apply(filters: &[RawFilter], element_size: usize, data: &[u8]) -> (r: Result<Applied, Error>)
    ensures
        pipeline_forward(
            filter_views(filters@),
            0,
            element_size as nat,
            data@,
            applied_view(r),
        ),
{
    apply_from(filters, 0, element_size, data)
}

pub open spec fn bytes_unscaled(r: Result<Seq<u8>, Seq<char>>) -> Result<
    UnscaledView,
    Seq<char>,
> {
    match r {
        Ok(v) => Ok(UnscaledView::Bytes(v)),
        Err(e) => Err(e),
    }
}

/// What reversing the filter `f` makes of `data`.
pub open spec fn filter_back(f: FilterView, element_size: nat, data: Seq<u8>) -> Result<
    UnscaledView,
    Seq<char>,
> {
    if f.id == FILTER_DEFLATE {
        bytes_unscaled(prefixed("I/O error: "@, zlib_plain(data)))
    } else if f.id == FILTER_SHUFFLE {
        bytes_unscaled(Ok(unshuffled(shuffle_size(f, element_size) as int, data)))
    } else if f.id == FILTER_FLETCHER32 {
        let n = data.len() - 4;
        if n < 0 {
            Err("fletcher32: data too short"@)
        } else if le_at(data, n, 4) != fletcher32_sum(data.take(n)) {
            Err("fletcher32 checksum mismatch"@)
        } else {
            bytes_unscaled(Ok(data.take(n)))
        }
    } else if f.id == FILTER_LZF {
        bytes_unscaled(lzf_decoded(data, Seq::empty()))
    } else if f.id == FILTER_SCALEOFFSET {
        unscaled(f.cdata, data)
    } else if f.id == FILTER_NBIT {
        bytes_unscaled(nbit_decoded(f.cdata, data))
    } else if f.id == FILTER_BLOSC {
        bytes_unscaled(blosc_decoded(data))
    } else if f.id == FILTER_SZIP {
        if data.len() < 4 {
            Err("szip: chunk too short"@)
        } else {
            bytes_unscaled(sz_decoded(f.cdata, data.skip(4), le_at(data, 0, 4)))
        }
    } else {
        Err(unsupported(f.id, " is not supported for reading"@))
    }
}

/// What comes out of reversing a pipeline.
#[derive(Debug)]
pub enum Reversed {
    /// The restored bytes.
    Bytes(Vec<u8>),
    /// Floating-point elements to be scaled back; the elements go on through the
    /// filters before `next`.
    Float { next: usize, block: FloatBlock },
}

/// The view of a [`Reversed`].
pub enum ReversedView {
    Bytes(Seq<u8>),
    Float { next: int, block: UnscaledView },
}

impl View for Reversed {
    type V = ReversedView;

    open spec fn view(&self) -> ReversedView {
        match *self {
            Reversed::Bytes(b) => ReversedView::Bytes(b@),
            Reversed::Float { next, block } => ReversedView::Float {
                next: next as int,
                block: Unscaled::Float(block)@,
            },
        }
    }
}

/// Whether bit `i` of a mask is set.
pub open spec fn bit_of(mask: u32, i: int) -> bool {
    (mask as nat / pow2(i as nat)) % 2 == 1
}

/// What reversing the filters before `upto` makes of `data`. Filters whose bit is
/// set in `mask` were skipped when the chunk was written.
pub open spec fn pipeline_back(
    fs: Seq<FilterView>,
    upto: int,
    element_size: nat,
    data: Seq<u8>,
    mask: u32,
) -> Result<ReversedView, Seq<char>>
    decreases upto,
{
    if upto <= 0 {
        Ok(ReversedView::Bytes(data))
    } else if bit_of(mask, upto - 1) {
        pipeline_back(fs, upto - 1, element_size, data, mask)
    } else {
        match filter_back(fs[upto - 1], element_size, data) {
            Err(e) => Err(e),
            Ok(UnscaledView::Bytes(b)) => pipeline_back(fs, upto - 1, element_size, b, mask),
            Ok(block) => Ok(ReversedView::Float { next: upto - 1, block }),
        }
    }
}

/// Whether reversing a pipeline came out as `s` says.
pub open spec fn same_reversed(
    r: Result<Reversed, Error>,
    s: Result<ReversedView, Seq<char>>,
) -> bool {
    match (r, s) {
        (Ok(v), Ok(w)) => v@ == w,
        (Err(e), Err(m)) => e@ == m,
        _ => false,
    }
}

pub open spec fn same_stage(r: Result<Unscaled, Error>, s: Result<UnscaledView, Seq<char>>) -> bool {
    match (r, s) {
        (Ok(v), Ok(w)) => v@ == w,
        (Err(e), Err(m)) => e@ == m,
        _ => false,
    }
}

fn mask_bit(mask: u32, i: u32) -> (r: bool)
    requires
        i <= 31,
    ensures
        r == bit_of(mask, i as int),
{
    (mask as u64 / power_of_two(i)) % 2 == 1
}

fn reverse_fletcher(data: &[u8]) -> (r: Result<Unscaled, Error>)
    ensures
        forall|f: FilterView, es: nat|
            f.id == FILTER_FLETCHER32 ==> same_stage(r, #[trigger] filter_back(f, es, data@)),
{
    let n: usize = data.len();
    if n < 4 {
        return Err(Error::new("fletcher32: data too short"));
    }
    let body = vstd::slice::slice_subrange(data, 0, n - 4);
    assert(body@ =~= data@.take(n - 4));
    let stored: u64 = uint_of(vstd::slice::slice_subrange(data, n - 4, n));
    if stored != fletcher32(body) as u64 {
        return Err(Error::new("fletcher32 checksum mismatch"));
    }
    Ok(Unscaled::Bytes(vstd::slice::slice_to_vec(body)))
}

fn reverse_szip(cdata: &[u32], data: &[u8]) -> (r: Result<Vec<u8>, Error>)
    ensures
        crate::error::same_bytes(
            r,
            if data@.len() < 4 {
                Err("szip: chunk too short"@)
            } else {
                sz_decoded(cdata@, data@.skip(4), le_at(data@, 0, 4))
            },
        ),
{
    let n: usize = data.len();
    if n < 4 {
        return Err(Error::new("szip: chunk too short"));
    }
    let head = vstd::slice::slice_subrange(data, 0, 4);
    let size: u64 = uint_of(head);
    proof {
        crate::format::lemma_le_bound(head@);
        reveal_with_fuel(crate::format::pow256, 5);
    }
    let rest = vstd::slice::slice_subrange(data, 4, n);
    assert(rest@ =~= data@.skip(4));
    sz_decompress(cdata, rest, size as usize)
}

fn reverse_one(f: &RawFilter, element_size: usize, data: &[u8]) -> (r: Result<Unscaled, Error>)
    ensures
        same_stage(r, filter_back(f@, element_size as nat, data@)),
{
    if f.id == FILTER_DEFLATE {
        match zlib_decompress(data) {
            Ok(v) => Ok(Unscaled::Bytes(v)),
            Err(e) => Err(Error::from_text(join("I/O error: ", e.as_str()))),
        }
    } else if f.id == FILTER_SHUFFLE {
        let word: u64 = word_at(f.cdata.as_slice(), 0, element_size as u64);
        let size: usize = if word == 0 {
            1
        } else {
            word as usize
        };
        Ok(Unscaled::Bytes(unshuffle(size, data)))
    } else if f.id == FILTER_FLETCHER32 {
        reverse_fletcher(data)
    } else if f.id == FILTER_LZF {
        let v = lzf_decompress(data)?;
        Ok(Unscaled::Bytes(v))
    } else if f.id == FILTER_SCALEOFFSET {
        scaleoffset_decompress(f.cdata.as_slice(), data)
    } else if f.id == FILTER_NBIT {
        let v = nbit_decompress(f.cdata.as_slice(), data)?;
        Ok(Unscaled::Bytes(v))
    } else if f.id == FILTER_BLOSC {
        let v = decompress(data)?;
        Ok(Unscaled::Bytes(v))
    } else if f.id == FILTER_SZIP {
        let v = reverse_szip(f.cdata.as_slice(), data)?;
        Ok(Unscaled::Bytes(v))
    } else {
        let text = with_number("filter id ", f.id as u64);
        Err(Error::from_text(join(text.as_str(), " is not supported for reading")))
    }
}

/// Reverses the filters before `upto` on `data`, last filter first.
pub fn reverse_from(
    filters: &[RawFilter],
    upto: usize,
    element_size: usize,
    data: &[u8],
    filter_mask: u32,
) -> (r: Result<Reversed, Error>)
    requires
        upto <= filters@.len(),
        upto <= 32,
    ensures
        same_reversed(
            r,
            pipeline_back(
                filter_views(filters@),
                upto as int,
                element_size as nat,
                data@,
                filter_mask,
            ),
        ),
    decreases upto,
{
    if upto == 0 {
        return Ok(Reversed::Bytes(vstd::slice::slice_to_vec(data)));
    }
    if mask_bit(filter_mask, (upto - 1) as u32) {
        return reverse_from(filters, upto - 1, element_size, data, filter_mask);
    }
    assert(filter_views(filters@)[upto - 1] == filters@[upto - 1]@);
    match reverse_one(&filters[upto - 1], element_size, data) {
        Err(e) => Err(e),
        Ok(Unscaled::Bytes(b)) => reverse_from(
            filters,
            upto - 1,
            element_size,
            b.as_slice(),
            filter_mask,
        ),
        Ok(Unscaled::Float(block)) => Ok(Reversed::Float { next: upto - 1, block }),
    }
}

/// Reverses the pipeline, skipping filters whose bit is set in `filter_mask`.
pub fn reverse_masked(
    filters: &[RawFilter],
    element_size: usize,
    data: &[u8],
    filter_mask: u32,
) -> (r: Result<Reversed, Error>)
    requires
        filters@.len() <= 32,
    ensures
        same_reversed(
            r,
            pipeline_back(
                filter_views(filters@),
                filters@.len() as int,
                element_size as nat,
                data@,
                filter_mask,
            ),
        ),
{
    reverse_from(filters, filters.len(), element_size, data, filter_mask)
}

/// Reverses the pipeline on `data`.
pub fn reverse(filters: &[RawFilter], element_size: usize, data: &[u8]) -> (r: Result<
    Reversed,
    Error,
>)
    requires
        filters@.len() <= 32,
    ensures
        same_reversed(
            r,
            pipeline_back(
                filter_views(filters@),
                filters@.len() as int,
                element_size as nat,
                data@,
                0,
            ),
        ),
{
    reverse_masked(filters, element_size, data, 0)
}

/// Whether a filter gives `data` back. N-bit packing does so where it stores the
/// elements whole, szip where its settings lose none of their bits, and scale-offset
/// where it packs integers.
pub open spec fn keeps(f: FilterView, data: Seq<u8>) -> bool {
    if f.id == FILTER_NBIT {
        f.cdata.len() >= 3 && f.cdata[1] != 0
    } else if f.id == FILTER_SZIP {
        &&& sz_params(f.cdata) is Ok
        &&& sz_lossless(sz_params(f.cdata)->Ok_0, data)
        &&& data.len() < 0x1_0000_0000
    } else if f.id == FILTER_SCALEOFFSET {
        let s = settings(f.cdata);
        &&& f.cdata.len() >= 8
        &&& s.class == 0
        &&& s.order == 0
        &&& 1 <= s.size <= 8
        &&& s.nelmts * s.size == data.len()
    } else {
        true
    }
}

proof fn lemma_word_back(a: Seq<u8>, v: nat)
    requires
        v < 0x1_0000_0000,
    ensures
        le_at(a + le_bytes(v, 4), a.len() as int, 4) == v,
        (a + le_bytes(v, 4)).len() == a.len() + 4,
        (a + le_bytes(v, 4)).take(a.len() as int) == a,
{
    lemma_le_bytes_len(v, 4);
    reveal_with_fuel(crate::format::pow256, 5);
    crate::format::law_le_round_trip(v, 4);
    let all = a + le_bytes(v, 4);
    assert(all.subrange(a.len() as int, a.len() as int + 4) =~= le_bytes(v, 4));
    assert(all.take(a.len() as int) =~= a);
}

/// A filter that keeps the data gives back what it was applied to.
pub proof fn law_filter_round_trip(
    f: FilterView,
    element_size: nat,
    data: Seq<u8>,
    out: Seq<u8>,
)
    requires
        filter_forward(f, element_size, data, Ok(ScaledView::Bytes(out))),
        keeps(f, data),
    ensures
        filter_back(f, element_size, out) == Ok::<UnscaledView, Seq<char>>(
            UnscaledView::Bytes(data),
        ),
{
    if f.id == FILTER_DEFLATE {
    } else if f.id == FILTER_SHUFFLE {
        law_unshuffle_shuffle(shuffle_size(f, element_size) as int, data);
    } else if f.id == FILTER_FLETCHER32 {
        assert(fletcher32_sum(data) < 0x1_0000_0000);
        lemma_word_back(data, fletcher32_sum(data));
    } else if f.id == FILTER_LZF {
    } else if f.id == FILTER_BLOSC {
    } else if f.id == FILTER_SZIP {
        law_szip_round_trip(f.cdata, data);
        let stream = sz_encoded(f.cdata, data)->Ok_0;
        let head = le_bytes(data.len(), 4);
        assert(out == head + stream);
        lemma_word_back(Seq::empty(), data.len());
        assert(Seq::<u8>::empty() + head =~= head);
        assert(out.subrange(0, 4) =~= head.subrange(0, 4));
        assert(out.skip(4) =~= stream);
    } else if f.id == FILTER_SCALEOFFSET {
        law_scaleoffset_round_trip(f.cdata, data);
        assert(data.take(data.len() as int) =~= data);
    }
}

/// Whether each filter from `from` on gives back what it gets when the pipeline is
/// applied to `data`.
pub open spec fn kept(fs: Seq<FilterView>, from: int, element_size: nat, data: Seq<u8>) -> bool
    decreases fs.len() - from,
{
    from < 0 || from >= fs.len() || {
        &&& keeps(fs[from], data)
        &&& forall|b: Seq<u8>| #[trigger]
            filter_forward(fs[from], element_size, data, Ok(ScaledView::Bytes(b))) ==> kept(
                fs,
                from + 1,
                element_size,
                b,
            )
    }
}

proof fn lemma_no_bit(i: int)
    requires
        0 <= i,
    ensures
        !bit_of(0, i),
{
    crate::format::bits::lemma_pow2_positive(i as nat);
    vstd::arithmetic::div_mod::lemma_div_basics(pow2(i as nat) as int);
}

proof fn lemma_back_from(
    fs: Seq<FilterView>,
    from: int,
    element_size: nat,
    data: Seq<u8>,
    out: Seq<u8>,
)
    requires
        0 <= from <= fs.len(),
        kept(fs, from, element_size, data),
        pipeline_forward(fs, from, element_size, data, Ok(AppliedView::Bytes(out))),
    ensures
        pipeline_back(fs, fs.len() as int, element_size, out, 0) == pipeline_back(
            fs,
            from,
            element_size,
            data,
            0,
        ),
    decreases fs.len() - from,
{
    if from < fs.len() {
        let mid = choose|mid: Result<ScaledView, Seq<char>>| #[trigger]
            filter_forward(fs[from], element_size, data, mid) && match mid {
                Err(e) => false,
                Ok(ScaledView::Bytes(b)) => pipeline_forward(
                    fs,
                    from + 1,
                    element_size,
                    b,
                    Ok(AppliedView::Bytes(out)),
                ),
                Ok(cells) => false,
            };
        let b = mid->Ok_0->Bytes_0;
        assert(filter_forward(fs[from], element_size, data, Ok(ScaledView::Bytes(b))));
        law_filter_round_trip(fs[from], element_size, data, b);
        lemma_back_from(fs, from + 1, element_size, b, out);
        lemma_no_bit(from);
    }
}

/// Reversing a pipeline gives back what it was applied to, if each of its filters gives
/// back what it gets.
pub proof fn law_pipeline_round_trip(
    fs: Seq<FilterView>,
    element_size: nat,
    data: Seq<u8>,
    out: Seq<u8>,
)
    requires
        kept(fs, 0, element_size, data),
        pipeline_forward(fs, 0, element_size, data, Ok(AppliedView::Bytes(out))),
    ensures
        pipeline_back(fs, fs.len() as int, element_size, out, 0) == Ok::<
            ReversedView,
            Seq<char>,
        >(ReversedView::Bytes(data)),
{
    lemma_back_from(fs, 0, element_size, data, out);
}

/// The filters before `upto` that a mask does not skip.
pub open spec fn unmasked(fs: Seq<FilterView>, upto: int, mask: u32) -> Seq<FilterView>
    decreases upto,
{
    if upto <= 0 {
        Seq::empty()
    } else if bit_of(mask, upto - 1) {
        unmasked(fs, upto - 1, mask)
    } else {
        unmasked(fs, upto - 1, mask).push(fs[upto - 1])
    }
}

/// Whether two reversals came to the same bytes, error or elements to be scaled, apart
/// from the number of the filter at which they stopped.
pub open spec fn same_outcome(
    a: Result<ReversedView, Seq<char>>,
    b: Result<ReversedView, Seq<char>>,
) -> bool {
    match (a, b) {
        (Ok(ReversedView::Bytes(x)), Ok(ReversedView::Bytes(y))) => x == y,
        (Ok(ReversedView::Float { block: x, .. }), Ok(ReversedView::Float { block: y, .. })) => x
            == y,
        (Err(x), Err(y)) => x == y,
        _ => false,
    }
}

/// What stands behind `upto` does not matter to the reversal of the filters before it.
proof fn lemma_back_prefix(
    fs: Seq<FilterView>,
    gs: Seq<FilterView>,
    upto: int,
    element_size: nat,
    data: Seq<u8>,
    mask: u32,
)
    requires
        forall|i: int| 0 <= i < upto ==> fs[i] == gs[i],
    ensures
        pipeline_back(fs, upto, element_size, data, mask) == pipeline_back(
            gs,
            upto,
            element_size,
            data,
            mask,
        ),
    decreases upto,
{
    if upto > 0 {
        lemma_back_prefix(fs, gs, upto - 1, element_size, data, mask);
        if let Ok(UnscaledView::Bytes(b)) = filter_back(fs[upto - 1], element_size, data) {
            lemma_back_prefix(fs, gs, upto - 1, element_size, b, mask);
        }
    }
}

/// Reversing a pipeline under a mask is reversing the filters that the mask does not
/// skip.
pub proof fn law_mask_skips(
    fs: Seq<FilterView>,
    upto: int,
    element_size: nat,
    data: Seq<u8>,
    mask: u32,
)
    requires
        0 <= upto <= fs.len(),
    ensures
        same_outcome(
            pipeline_back(fs, upto, element_size, data, mask),
            pipeline_back(
                unmasked(fs, upto, mask),
                unmasked(fs, upto, mask).len() as int,
                element_size,
                data,
                0,
            ),
        ),
    decreases upto,
{
    if upto > 0 {
        let rest = unmasked(fs, upto - 1, mask);
        let n = rest.len() as int;
        if bit_of(mask, upto - 1) {
            law_mask_skips(fs, upto - 1, element_size, data, mask);
        } else {
            let all = rest.push(fs[upto - 1]);
            lemma_no_bit(n);
            assert(all[n] == fs[upto - 1]);
            if let Ok(UnscaledView::Bytes(b)) = filter_back(fs[upto - 1], element_size, data) {
                law_mask_skips(fs, upto - 1, element_size, b, mask);
                lemma_back_prefix(all, rest, n, element_size, b, 0);
            }
        }
    }
}

/// An outcome with the number of the filter at which it stopped moved by `k`.
pub open spec fn moved(out: Result<AppliedView, Seq<char>>, k: int) -> Result<
    AppliedView,
    Seq<char>,
> {
    match out {
        Ok(AppliedView::Float { next, cells }) => Ok(
            AppliedView::Float { next: next + k, cells },
        ),
        _ => out,
    }
}

/// Whether `out` is what a pipeline `gs` makes of the outcome `mid` of `k` filters
/// before it: bytes go on through it, an error or elements to be scaled stay.
pub open spec fn continued(
    gs: Seq<FilterView>,
    element_size: nat,
    k: int,
    mid: Result<AppliedView, Seq<char>>,
    out: Result<AppliedView, Seq<char>>,
) -> bool {
    match mid {
        Ok(AppliedView::Bytes(b)) => pipeline_forward(gs, 0, element_size, b, moved(out, -k)),
        _ => out == mid,
    }
}

/// The filters of `gs` work behind others as they do alone.
proof fn lemma_forward_suffix(
    fs: Seq<FilterView>,
    gs: Seq<FilterView>,
    j: int,
    element_size: nat,
    data: Seq<u8>,
    out: Result<AppliedView, Seq<char>>,
)
    requires
        0 <= j <= gs.len(),
    ensures
        pipeline_forward(fs + gs, fs.len() + j, element_size, data, out) == pipeline_forward(
            gs,
            j,
            element_size,
            data,
            moved(out, -(fs.len() as int)),
        ),
    decreases gs.len() - j,
{
    let k = fs.len() as int;
    let all = fs + gs;
    if j < gs.len() {
        assert(all[k + j] == gs[j]);
        assert forall|b: Seq<u8>| #[trigger]
            pipeline_forward(all, k + j + 1, element_size, b, out) == pipeline_forward(
                gs,
                j + 1,
                element_size,
                b,
                moved(out, -k),
            ) by {
            lemma_forward_suffix(fs, gs, j + 1, element_size, b, out);
        }
        if pipeline_forward(all, k + j, element_size, data, out) {
            let mid = choose|mid: Result<ScaledView, Seq<char>>| #[trigger]
                filter_forward(all[k + j], element_size, data, mid) && match mid {
                    Err(e) => out == Err::<AppliedView, Seq<char>>(e),
                    Ok(ScaledView::Bytes(b)) => pipeline_forward(
                        all,
                        k + j + 1,
                        element_size,
                        b,
                        out,
                    ),
                    Ok(cells) => out == Ok::<AppliedView, Seq<char>>(
                        AppliedView::Float { next: k + j + 1, cells },
                    ),
                };
            assert(filter_forward(gs[j], element_size, data, mid));
        }
        if pipeline_forward(gs, j, element_size, data, moved(out, -k)) {
            let mid = choose|mid: Result<ScaledView, Seq<char>>| #[trigger]
                filter_forward(gs[j], element_size, data, mid) && match mid {
                    Err(e) => moved(out, -k) == Err::<AppliedView, Seq<char>>(e),
                    Ok(ScaledView::Bytes(b)) => pipeline_forward(
                        gs,
                        j + 1,
                        element_size,
                        b,
                        moved(out, -k),
                    ),
                    Ok(cells) => moved(out, -k) == Ok::<AppliedView, Seq<char>>(
                        AppliedView::Float { next: j + 1, cells },
                    ),
                };
            assert(filter_forward(all[k + j], element_size, data, mid));
            if let Ok(ScaledView::Bytes(b)) = mid {
                assert(pipeline_forward(all, k + j + 1, element_size, b, out));
            }
        }
    }
}

proof fn lemma_forward_split(
    fs: Seq<FilterView>,
    gs: Seq<FilterView>,
    from: int,
    element_size: nat,
    data: Seq<u8>,
    out: Result<AppliedView, Seq<char>>,
) -> (mid: Result<AppliedView, Seq<char>>)
    requires
        0 <= from <= fs.len(),
        pipeline_forward(fs + gs, from, element_size, data, out),
    ensures
        pipeline_forward(fs, from, element_size, data, mid),
        continued(gs, element_size, fs.len() as int, mid, out),
    decreases fs.len() - from,
{
    let all = fs + gs;
    if from == fs.len() {
        lemma_forward_suffix(fs, gs, 0, element_size, data, out);
        Ok(AppliedView::Bytes(data))
    } else {
        assert(all[from] == fs[from]);
        let mid = choose|mid: Result<ScaledView, Seq<char>>| #[trigger]
            filter_forward(all[from], element_size, data, mid) && match mid {
                Err(e) => out == Err::<AppliedView, Seq<char>>(e),
                Ok(ScaledView::Bytes(b)) => pipeline_forward(all, from + 1, element_size, b, out),
                Ok(cells) => out == Ok::<AppliedView, Seq<char>>(
                    AppliedView::Float { next: from + 1, cells },
                ),
            };
        assert(filter_forward(fs[from], element_size, data, mid));
        match mid {
            Ok(ScaledView::Bytes(b)) => lemma_forward_split(fs, gs, from + 1, element_size, b, out),
            _ => out,
        }
    }
}

proof fn lemma_forward_join(
    fs: Seq<FilterView>,
    gs: Seq<FilterView>,
    from: int,
    element_size: nat,
    data: Seq<u8>,
    mid: Result<AppliedView, Seq<char>>,
    out: Result<AppliedView, Seq<char>>,
)
    requires
        0 <= from <= fs.len(),
        pipeline_forward(fs, from, element_size, data, mid),
        continued(gs, element_size, fs.len() as int, mid, out),
    ensures
        pipeline_forward(fs + gs, from, element_size, data, out),
    decreases fs.len() - from,
{
    let all = fs + gs;
    if from == fs.len() {
        lemma_forward_suffix(fs, gs, 0, element_size, data, out);
    } else {
        assert(all[from] == fs[from]);
        let one = choose|one: Result<ScaledView, Seq<char>>| #[trigger]
            filter_forward(fs[from], element_size, data, one) && match one {
                Err(e) => mid == Err::<AppliedView, Seq<char>>(e),
                Ok(ScaledView::Bytes(b)) => pipeline_forward(fs, from + 1, element_size, b, mid),
                Ok(cells) => mid == Ok::<AppliedView, Seq<char>>(
                    AppliedView::Float { next: from + 1, cells },
                ),
            };
        assert(filter_forward(all[from], element_size, data, one));
        if let Ok(ScaledView::Bytes(b)) = one {
            lemma_forward_join(fs, gs, from + 1, element_size, b, mid, out);
        }
    }
}

/// Applying a longer pipeline is applying its parts in turn. The second part gets the
/// bytes of the first; where that fails, its error is that of the whole.
pub proof fn law_pipeline_parts(
    fs: Seq<FilterView>,
    gs: Seq<FilterView>,
    element_size: nat,
    data: Seq<u8>,
    out: Result<AppliedView, Seq<char>>,
)
    ensures
        pipeline_forward(fs + gs, 0, element_size, data, out) <==> exists|
            mid: Result<AppliedView, Seq<char>>,
        | #[trigger]
            pipeline_forward(fs, 0, element_size, data, mid) && continued(
                gs,
                element_size,
                fs.len() as int,
                mid,
                out,
            ),
{
    if pipeline_forward(fs + gs, 0, element_size, data, out) {
        let mid = lemma_forward_split(fs, gs, 0, element_size, data, out);
    }
    if exists|mid: Result<AppliedView, Seq<char>>| #[trigger]
        pipeline_forward(fs, 0, element_size, data, mid) && continued(
            gs,
            element_size,
            fs.len() as int,
            mid,
            out,
        ) {
        let mid = choose|mid: Result<AppliedView, Seq<char>>| #[trigger]
            pipeline_forward(fs, 0, element_size, data, mid) && continued(
                gs,
                element_size,
                fs.len() as int,
                mid,
                out,
            );
        lemma_forward_join(fs, gs, 0, element_size, data, mid, out);
    }
}

/// Reversing a pipeline is reversing its last filter, then the ones before it.
pub proof fn law_reverse_parts(
    fs: Seq<FilterView>,
    g: FilterView,
    element_size: nat,
    data: Seq<u8>,
)
    ensures
        pipeline_back(fs.push(g), fs.push(g).len() as int, element_size, data, 0) == (match filter_back(
            g,
            element_size,
            data,
        ) {
            Err(e) => Err(e),
            Ok(UnscaledView::Bytes(b)) => pipeline_back(fs, fs.len() as int, element_size, b, 0),
            Ok(block) => Ok(ReversedView::Float { next: fs.len() as int, block }),
        }),
{
    let n = fs.len() as int;
    lemma_no_bit(n);
    assert(fs.push(g)[n] == g);
    if let Ok(UnscaledView::Bytes(b)) = filter_back(g, element_size, data) {
        lemma_back_prefix(fs.push(g), fs, n, element_size, b, 0);
    }
}

/// Whether a filter is one of those that a pipeline can hold.
pub open spec fn supported(id: u16) -> bool {
    ||| id == FILTER_DEFLATE
    ||| id == FILTER_SHUFFLE
    ||| id == FILTER_FLETCHER32
    ||| id == FILTER_SZIP
    ||| id == FILTER_NBIT
    ||| id == FILTER_SCALEOFFSET
    ||| id == FILTER_LZF
    ||| id == FILTER_BLOSC
}

/// No bytes come through a pipeline with an unsupported filter.
pub proof fn law_unsupported_refused(
    fs: Seq<FilterView>,
    from: int,
    i: int,
    element_size: nat,
    data: Seq<u8>,
    out: Result<AppliedView, Seq<char>>,
)
    requires
        0 <= from <= i < fs.len(),
        !supported(fs[i].id),
        pipeline_forward(fs, from, element_size, data, out),
    ensures
        !(out matches Ok(AppliedView::Bytes(_))),
    decreases i - from,
{
    let mid = choose|mid: Result<ScaledView, Seq<char>>| #[trigger]
        filter_forward(fs[from], element_size, data, mid) && match mid {
            Err(e) => out == Err::<AppliedView, Seq<char>>(e),
            Ok(ScaledView::Bytes(b)) => pipeline_forward(fs, from + 1, element_size, b, out),
            Ok(cells) => out == Ok::<AppliedView, Seq<char>>(
                AppliedView::Float { next: from + 1, cells },
            ),
        };
    if from < i {
        if let Ok(ScaledView::Bytes(b)) = mid {
            law_unsupported_refused(fs, from + 1, i, element_size, b, out);
        }
    }
}

/// Whether a pipeline makes one thing of its data. What LZ4 makes of a block, as a codec of
/// Blosc, depends on the machine.
pub open spec fn settled(fs: Seq<FilterView>) -> bool {
    forall|i: int| 0 <= i < fs.len() ==> (#[trigger] fs[i]).id != FILTER_BLOSC
}

/// What a filter makes of its data, unless it is Blosc.
pub open spec fn filter_result(f: FilterView, element_size: nat, data: Seq<u8>) -> Result<
    ScaledView,
    Seq<char>,
> {
    if f.id == FILTER_DEFLATE {
        bytes_stage(prefixed("I/O error: "@, zlib_stream(data, deflate_level(f))))
    } else if f.id == FILTER_SHUFFLE {
        bytes_stage(Ok(shuffled(shuffle_size(f, element_size) as int, data)))
    } else if f.id == FILTER_FLETCHER32 {
        bytes_stage(Ok(data + le_bytes(fletcher32_sum(data), 4)))
    } else if f.id == FILTER_LZF {
        bytes_stage(Ok(lzf_encoding(data)))
    } else if f.id == FILTER_SCALEOFFSET {
        scaled(f.cdata, data)
    } else if f.id == FILTER_SZIP {
        bytes_stage(
            match sz_encoded(f.cdata, data) {
                Ok(s) => Ok(le_bytes(data.len(), 4) + s),
                Err(e) => Err(e),
            },
        )
    } else if f.id == FILTER_NBIT {
        bytes_stage(Ok(data))
    } else {
        bytes_stage(Err(unsupported(f.id, " is not supported for writing"@)))
    }
}

/// What the filters from `from` on make of their data, where none of them is Blosc.
pub open spec fn pipeline_result(
    fs: Seq<FilterView>,
    from: int,
    element_size: nat,
    data: Seq<u8>,
) -> Result<AppliedView, Seq<char>>
    decreases fs.len() - from,
{
    if from < 0 || from >= fs.len() {
        Ok(AppliedView::Bytes(data))
    } else {
        match filter_result(fs[from], element_size, data) {
            Err(e) => Err(e),
            Ok(ScaledView::Bytes(b)) => pipeline_result(fs, from + 1, element_size, b),
            Ok(cells) => Ok(AppliedView::Float { next: from + 1, cells }),
        }
    }
}

/// A pipeline without filters makes nothing else of its data.
pub proof fn law_empty_pipeline(
    element_size: nat,
    data: Seq<u8>,
    out: Result<AppliedView, Seq<char>>,
)
    ensures
        pipeline_forward(Seq::empty(), 0, element_size, data, out) <==> out == Ok::<
            AppliedView,
            Seq<char>,
        >(AppliedView::Bytes(data)),
{
}

/// A pipeline without Blosc makes one thing of its data.
pub proof fn law_pipeline_result(
    fs: Seq<FilterView>,
    from: int,
    element_size: nat,
    data: Seq<u8>,
    out: Result<AppliedView, Seq<char>>,
)
    requires
        settled(fs),
        pipeline_forward(fs, from, element_size, data, out),
    ensures
        out == pipeline_result(fs, from, element_size, data),
    decreases fs.len() - from,
{
    if 0 <= from < fs.len() {
        let mid = choose|mid: Result<ScaledView, Seq<char>>| #[trigger]
            filter_forward(fs[from], element_size, data, mid) && match mid {
                Err(e) => out == Err::<AppliedView, Seq<char>>(e),
                Ok(ScaledView::Bytes(b)) => pipeline_forward(fs, from + 1, element_size, b, out),
                Ok(cells) => out == Ok::<AppliedView, Seq<char>>(
                    AppliedView::Float { next: from + 1, cells },
                ),
            };
        assert(fs[from].id != FILTER_BLOSC);
        assert(mid == filter_result(fs[from], element_size, data));
        if let Ok(ScaledView::Bytes(b)) = mid {
            law_pipeline_result(fs, from + 1, element_size, b, out);
        }
    }
}

proof fn lemma_result_shift(
    fs: Seq<FilterView>,
    gs: Seq<FilterView>,
    j: int,
    element_size: nat,
    data: Seq<u8>,
)
    requires
        0 <= j <= gs.len(),
    ensures
        pipeline_result(fs + gs, fs.len() + j, element_size, data) == moved(
            pipeline_result(gs, j, element_size, data),
            fs.len() as int,
        ),
    decreases gs.len() - j,
{
    if j < gs.len() {
        assert((fs + gs)[fs.len() + j] == gs[j]);
        if let Ok(ScaledView::Bytes(b)) = filter_result(gs[j], element_size, data) {
            lemma_result_shift(fs, gs, j + 1, element_size, b);
        }
    }
}

proof fn lemma_result_split(
    fs: Seq<FilterView>,
    gs: Seq<FilterView>,
    from: int,
    element_size: nat,
    data: Seq<u8>,
)
    requires
        0 <= from <= fs.len(),
    ensures
        pipeline_result(fs + gs, from, element_size, data) == match pipeline_result(
            fs,
            from,
            element_size,
            data,
        ) {
            Ok(AppliedView::Bytes(b)) => moved(
                pipeline_result(gs, 0, element_size, b),
                fs.len() as int,
            ),
            other => other,
        },
    decreases fs.len() - from,
{
    if from < fs.len() {
        assert((fs + gs)[from] == fs[from]);
        if let Ok(ScaledView::Bytes(b)) = filter_result(fs[from], element_size, data) {
            lemma_result_split(fs, gs, from + 1, element_size, b);
        }
    } else {
        lemma_result_shift(fs, gs, 0, element_size, data);
    }
}

/// What a pipeline without Blosc makes of its data is what its parts make of it in turn:
/// the second part goes on with the bytes of the first. The numbers of filters at which
/// scaled elements go on count those of the first part.
pub proof fn law_result_parts(
    fs: Seq<FilterView>,
    gs: Seq<FilterView>,
    element_size: nat,
    data: Seq<u8>,
)
    requires
        settled(fs + gs),
    ensures
        pipeline_result(fs + gs, 0, element_size, data) == match pipeline_result(
            fs,
            0,
            element_size,
            data,
        ) {
            Ok(AppliedView::Bytes(b)) => moved(
                pipeline_result(gs, 0, element_size, b),
                fs.len() as int,
            ),
            other => other,
        },
{
    lemma_result_split(fs, gs, 0, element_size, data);
}

} // verus!
