//! Filters as they are stored with a dataset: their client data completed from what the
//! dataset holds.

use vstd::prelude::*;
use vstd::utf8::encode_utf8;

use crate::format::convert::disk_size;
use crate::format::encode::names_fit;
use crate::format::filters::{
    filter_views, word_at, word_or, FilterView, RawFilter, FILTER_BLOSC, FILTER_NBIT,
    FILTER_SCALEOFFSET, FILTER_SHUFFLE, FILTER_SZIP,
};
use crate::format::{le, lemma_le_bound, pow256, uint_of};
use crate::hl::filters::{Filter, FilterKind};
use crate::model::{DatasetData, DatasetView, FillValue, FillView, LayoutClass, LayoutKind};
use crate::types::{TypeDescriptor, TypeView};

verus! {

/// A number as a word of client data: its low 32 bits.
pub open spec fn word(n: nat) -> u32 {
    (n % 0x1_0000_0000) as u32
}

fn word_of(n: u128) -> (r: u32)
    ensures
        r == word(n as nat),
{
    (n % 0x1_0000_0000) as u32
}

/// The length of a scan line: the last extent of a chunk, or of the dataset where it
/// has no chunks.
pub open spec fn line(d: DatasetView) -> u32 {
    match d.layout {
        LayoutKind::Chunked(c) => if c.len() == 0 {
            1
        } else {
            word(c.last() as nat)
        },
        _ => if d.dims.len() == 0 {
            1
        } else {
            word(d.dims.last() as nat)
        },
    }
}

/// The number of pixels of a block of szip: between 2 and 32.
pub open spec fn block_pixels(n: nat) -> u32 {
    if n < 2 {
        2
    } else if n > 32 {
        32
    } else {
        n as u32
    }
}

/// The number of pixels of a scan line of szip.
pub open spec fn scan_pixels(first: u32, block: u32, points: u32) -> u32 {
    let most = (block * 128) as u32;
    if first < block {
        if points < block {
            points
        } else if most < points {
            most
        } else {
            points
        }
    } else if first <= 4096 && first < most {
        first
    } else {
        most
    }
}

/// The client data of szip.
pub open spec fn szip_words(cdata: Seq<u32>, d: DatasetView, size: nat, n: nat) -> Seq<u32> {
    let mask = word_or(cdata, 0, 4) as u32;
    let block = block_pixels(word_or(cdata, 1, 32));
    seq![
        (mask & !0x10u32) | 0x08u32,
        word(size * 8),
        block,
        scan_pixels(line(d), block, word(n)),
    ]
}

/// The class and the sign of elements for scaling.
pub open spec fn scale_class(t: TypeView) -> (u32, u32) {
    match t {
        TypeView::Integer(_) => (0, 1),
        TypeView::Unsigned(_) => (0, 0),
        TypeView::Float(_) => (1, 1),
        _ => (0xffff_ffff, 0),
    }
}

/// The word number `j` of a fill value.
pub open spec fn fill_word(v: Seq<u8>, j: int) -> u32 {
    if 4 * j >= v.len() {
        0
    } else if 4 * j + 4 <= v.len() {
        le(v.subrange(4 * j, 4 * j + 4)) as u32
    } else {
        le(v.subrange(4 * j, v.len() as int)) as u32
    }
}

/// The fill value that scaling knows of.
pub open spec fn scale_fill(f: FillView) -> (u32, Seq<u8>) {
    match f {
        FillView::UserDefined(v) => (1, v),
        _ => (0, Seq::empty()),
    }
}

/// The client data of the scale-offset filter: 20 words.
pub open spec fn scale_words(cdata: Seq<u32>, d: DatasetView, size: nat, n: nat) -> Seq<u32> {
    let (class, sign) = scale_class(d.dtype);
    let (present, value) = scale_fill(d.fill);
    seq![
        word_or(cdata, 0, 2) as u32,
        word_or(cdata, 1, 0) as u32,
        word(n),
        class,
        word(size),
        sign,
        0u32,
        present,
    ] + Seq::new(12, |j: int| fill_word(value, j))
}

/// The client data of a filter of a dataset whose elements have `size` bytes and whose
/// chunks have `n` elements.
pub open spec fn lowered_words(raw: FilterView, d: DatasetView, size: nat, n: nat) -> Seq<u32> {
    if raw.id == FILTER_SHUFFLE {
        seq![word(size)]
    } else if raw.id == FILTER_BLOSC && raw.cdata.len() >= 4 {
        raw.cdata.update(2, word(size)).update(3, word(n * size))
    } else if raw.id == FILTER_NBIT {
        seq![8u32, 1u32, word(n), 1u32, word(size), 0u32, word(size * 8), 0u32]
    } else if raw.id == FILTER_SZIP {
        szip_words(raw.cdata, d, size, n)
    } else if raw.id == FILTER_SCALEOFFSET {
        scale_words(raw.cdata, d, size, n)
    } else {
        raw.cdata
    }
}

/// A filter as it is stored.
pub open spec fn lowered_one(k: FilterKind, d: DatasetView, n: nat) -> FilterView {
    let raw = k.raw();
    FilterView { cdata: lowered_words(raw, d, d.dtype.disk_size(), n), ..raw }
}

/// The filters of a dataset as they are stored.
pub open spec fn lowered(d: DatasetView, n: nat) -> Seq<FilterView> {
    d.filters.map_values(|k: FilterKind| lowered_one(k, d, n))
}

fn szip_data(cdata: &Vec<u32>, d: &DatasetData, size: usize, n: u64) -> (r: Vec<u32>)
    ensures
        r@ == szip_words(cdata@, d@, size as nat, n as nat),
{
    let mask: u32 = word_at(cdata.as_slice(), 0, 4) as u32;
    let want: u64 = word_at(cdata.as_slice(), 1, 32);
    let block: u32 = if want < 2 {
        2
    } else if want > 32 {
        32
    } else {
        want as u32
    };
    let first: u32 = match &d.layout {
        LayoutClass::Chunked(c) => if c.len() == 0 {
            1
        } else {
            word_of(c[c.len() - 1] as u128)
        },
        _ => if d.dims.len() == 0 {
            1
        } else {
            word_of(d.dims[d.dims.len() - 1] as u128)
        },
    };
    let points: u32 = word_of(n as u128);
    let most: u32 = block * 128;
    let scan: u32 = if first < block {
        if points < block {
            points
        } else if most < points {
            most
        } else {
            points
        }
    } else if first <= 4096 && first < most {
        first
    } else {
        most
    };
    let bits: u32 = word_of(size as u128 * 8);
    let out: Vec<u32> = vec![(mask & !0x10u32) | 0x08u32, bits, block, scan];
    assert(out@ =~= szip_words(cdata@, d@, size as nat, n as nat));
    out
}

fn fill_word_of(v: &[u8], j: usize) -> (r: u32)
    requires
        j < 12,
    ensures
        r == fill_word(v@, j as int),
{
    let n: usize = v.len();
    if 4 * j >= n {
        return 0;
    }
    let to: usize = if n - 4 * j >= 4 {
        4 * j + 4
    } else {
        n
    };
    let part = vstd::slice::slice_subrange(v, 4 * j, to);
    proof {
        lemma_le_bound(part@);
        reveal_with_fuel(pow256, 5);
    }
    uint_of(part) as u32
}

fn scale_data(cdata: &Vec<u32>, d: &DatasetData, size: usize, n: u64) -> (r: Vec<u32>)
    ensures
        r@ == scale_words(cdata@, d@, size as nat, n as nat),
{
    let (class, sign): (u32, u32) = match &d.dtype {
        TypeDescriptor::Integer(_) => (0, 1),
        TypeDescriptor::Unsigned(_) => (0, 0),
        TypeDescriptor::Float(_) => (1, 1),
        _ => (0xffff_ffff, 0),
    };
    let present: u32 = match &d.fill {
        FillValue::UserDefined(_) => 1,
        _ => 0,
    };
    let a: u32 = word_at(cdata.as_slice(), 0, 2) as u32;
    let b: u32 = word_at(cdata.as_slice(), 1, 0) as u32;
    let mut out: Vec<u32> = vec![
        a,
        b,
        word_of(n as u128),
        class,
        word_of(size as u128),
        sign,
        0,
        present,
    ];
    let ghost head = out@;
    let ghost value = scale_fill(d.fill@).1;
    let mut j: usize = 0;
    while j < 12
        invariant
            j <= 12,
            value == scale_fill(d.fill@).1,
            out@.len() == 8 + j,
            head.len() == 8,
            out@.take(8) == head,
            forall|k: int| 0 <= k < j ==> #[trigger] out@[8 + k] == fill_word(value, k),
        decreases 12 - j,
    {
        let ghost before = out@;
        let w: u32 = match &d.fill {
            FillValue::UserDefined(v) => fill_word_of(v.as_slice(), j),
            _ => 0,
        };
        out.push(w);
        proof {
            assert(out@.take(8) =~= before.take(8));
            assert forall|k: int| 0 <= k < j + 1 implies #[trigger] out@[8 + k] == fill_word(
                value,
                k,
            ) by {
                if k < j {
                    assert(before[8 + k] == fill_word(value, k));
                }
            }
        }
        j += 1;
    }
    proof {
        let want = scale_words(cdata@, d@, size as nat, n as nat);
        assert forall|k: int| 0 <= k < 20 implies out@[k] == want[k] by {
            if k < 8 {
                assert(out@.take(8)[k] == head[k]);
            } else {
                assert(out@[8 + (k - 8)] == fill_word(value, k - 8));
            }
        }
        assert(out@ =~= want);
    }
    out
}

fn lower_one(f: &Filter, d: &DatasetData, size: usize, n: u64) -> (r: RawFilter)
    requires
        size == d.dtype@.disk_size(),
    ensures
        r@ == lowered_one(f@, d@, n as nat),
{
    let mut raw = f.to_raw();
    let ghost first = raw@;
    if raw.id == FILTER_SHUFFLE {
        raw.cdata = vec![word_of(size as u128)];
    } else if raw.id == FILTER_BLOSC && raw.cdata.len() >= 4 {
        let a: u32 = word_of(size as u128);
        assert(n * size <= u64::MAX * usize::MAX) by (nonlinear_arith)
            requires
                n <= u64::MAX,
                size <= usize::MAX,
        ;
        assert(u64::MAX * usize::MAX <= 0xffff_ffff_ffff_ffff * 0xffff_ffff_ffff_ffff)
            by (nonlinear_arith)
            requires
                usize::MAX <= 0xffff_ffff_ffff_ffff,
        ;
        let b: u32 = word_of(n as u128 * size as u128);
        raw.cdata.set(2, a);
        raw.cdata.set(3, b);
    } else if raw.id == FILTER_NBIT {
        raw.cdata = vec![
            8,
            1,
            word_of(n as u128),
            1,
            word_of(size as u128),
            0,
            word_of(size as u128 * 8),
            0,
        ];
    } else if raw.id == FILTER_SZIP {
        raw.cdata = szip_data(&raw.cdata, d, size, n);
    } else if raw.id == FILTER_SCALEOFFSET {
        raw.cdata = scale_data(&raw.cdata, d, size, n);
    }
    assert(raw@.cdata =~= lowered_words(first, d@, size as nat, n as nat));
    raw
}

/// The filters of a dataset as they are stored, where a chunk has `chunk_elems`
/// elements.
pub fn lower_filters(d: &DatasetData, chunk_elems: u64) -> (r: Vec<RawFilter>)
    requires
        d.dtype@.sized(),
    ensures
        filter_views(r@) == lowered(d@, chunk_elems as nat),
        names_fit(filter_views(r@)),
{
    let size: usize = disk_size(&d.dtype);
    let mut out: Vec<RawFilter> = Vec::new();
    let mut i: usize = 0;
    while i < d.filters.len()
        invariant
            i <= d.filters@.len(),
            size == d.dtype@.disk_size(),
            out@.len() == i,
            forall|k: int|
                0 <= k < i ==> (#[trigger] out@[k])@ == lowered_one(
                    d.filters@[k]@,
                    d@,
                    chunk_elems as nat,
                ),
        decreases d.filters@.len() - i,
    {
        out.push(lower_one(&d.filters[i], d, size, chunk_elems));
        i += 1;
    }
    proof {
        assert(filter_views(out@) =~= lowered(d@, chunk_elems as nat));
        lemma_names_fit(d@, chunk_elems as nat);
    }
    out
}

proof fn lemma_utf8_len(s: Seq<char>)
    ensures
        encode_utf8(s).len() <= 4 * s.len(),
    decreases s.len(),
{
    if s.len() > 0 {
        lemma_utf8_len(s.drop_first());
    }
}

/// The names of stored filters are short.
pub proof fn lemma_names_fit(d: DatasetView, n: nat)
    ensures
        names_fit(lowered(d, n)),
{
    reveal_strlit("deflate");
    reveal_strlit("shuffle");
    reveal_strlit("fletcher32");
    reveal_strlit("szip");
    reveal_strlit("nbit");
    reveal_strlit("scaleoffset");
    reveal_strlit("lzf");
    reveal_strlit("blosc");
    reveal_strlit("");
    let fs = lowered(d, n);
    assert forall|i: int| 0 <= i < fs.len() implies encode_utf8((#[trigger] fs[i]).name).len() + 8
        <= usize::MAX by {
        assert(fs[i].name == d.filters[i].raw().name);
        assert(fs[i].name.len() <= 16);
        lemma_utf8_len(fs[i].name);
    }
}

} // verus!
