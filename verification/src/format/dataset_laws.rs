//! Datasets are read as they are written.

use vstd::prelude::*;

use crate::format::chunk_index::chunk_size;
use crate::format::chunk_read_laws::{
    chunks_of, chunks_plain, law_chunk_tree_read, law_chunks_read,
};
use crate::format::chunk_write::{all_written, chunks_written};
use crate::format::chunks::{ChunkGeometry, ProgressView};
use crate::format::dataset::{
    dataset_read, first_filter, kinds_of, lazy_finished, lazy_started, stored_bits, DATASET_LIMIT,
};
use crate::format::datatype::OrderView;
use crate::format::elements::{fitted, loaded};
use crate::format::filters::{kept, FilterView, FILTER_NBIT};
use crate::format::fixup::fixed_cells;
use crate::format::gheap::heap_object;
use crate::format::grid::{count, countable};
use crate::format::group_write::Ref;
use crate::format::heap_laws::law_collection_read;
use crate::format::lower::{lowered, lowered_one};
use crate::format::message_laws::{
    law_block_layout_read, law_chunk_layout_read, law_mapped_layout_read,
};
use crate::format::messages::{ChunkIndex, LayoutView};
use crate::format::object::ImageView;
use crate::format::object_laws::{
    attrs_back, attrs_dense, dataset_header, dataset_plain, dataset_space, fill_of, header_fits,
    header_told, keeps, lemma_appended_stands, lemma_finished, lemma_keeps, lemma_settled_back,
    node_plain, whole_messages,
};
use crate::format::object_write::{
    block_message, chunked_message, cut_of, dataset_cells, dataset_messages, dataset_written,
    finished, layout_written, mapped_message, stored_as, unit_count, ImageOut,
};
use crate::format::reader::{is_group, mappings_of, object_read, RawKindView, RawObjectView};
use crate::format::share::StoreView;
use crate::format::share_laws::{
    all_settled, keeps_but, lemma_dataset_settled, lemma_dataset_stores, lemma_finished_grows,
    lemma_header_settled, lemma_keeps_before, lemma_keeps_plain, lemma_known_on, serves, sound,
    stores_keep,
};
use crate::format::stands::stands;
use crate::format::tree::{appended, end_of, extends, lemma_appended, lemma_extends, padded};
use crate::format::tree_laws::lemma_keeps_less;
use crate::format::vds::{vds_encoded, vds_parsed, MappingView};
use crate::format::vds_laws::{law_vds_round_trip, mapping_writable};
use crate::format::vlen_laws::{
    cells_back, law_cells_read, lemma_blank_read, lemma_cells_extend, vlen_told,
};
use crate::format::{zeroes, UNDEF};
use crate::model::{elements, DatasetView, LayoutKind, NodeView};

verus! {

/// The elements of a dataset that was read: those that are there, or those that are
/// copied out of the file on demand.
pub open spec fn elements_of(data: Seq<u8>, x: DatasetView) -> Option<Seq<u8>> {
    match x.lazy {
        None => Some(x.data),
        Some(l) => match lazy_started(data, l) {
            Ok(ProgressView::Done(b)) => Some(lazy_finished(l, b)),
            _ => None,
        },
    }
}

/// What the elements of a dataset are read back as: its payloads are numbered anew.
pub open spec fn dataset_back(d: DatasetView) -> (Seq<u8>, Seq<Seq<u8>>) {
    cells_back(d.dtype, elements(d.is_null, d.is_scalar, d.dims), d.data, d.vlen)
}

/// Whether a dataset that was read from a file is one that was written there: all that
/// its header says agrees, and so do its elements, with the payloads that they had.
/// Filters come back with the client data that they were stored with. A virtual dataset
/// has no elements of its own.
pub open spec fn comes_back(data: Seq<u8>, x: DatasetView, d: DatasetView) -> bool {
    &&& x.dtype == d.dtype
    &&& x.dims == d.dims
    &&& x.maxdims == d.maxdims
    &&& x.is_scalar == d.is_scalar
    &&& x.is_null == d.is_null
    &&& x.fill == d.fill
    &&& x.filters == kinds_of(lowered(d, unit_count(d)))
    &&& if d.layout is Virtual {
        x.layout is Virtual
    } else {
        elements_of(data, x) == Some(dataset_back(d).0) && x.vlen == dataset_back(d).1
    }
}

/// Whether a heap object holds the mappings of a virtual dataset.
pub open spec fn maps_back(
    data: Seq<u8>,
    base: u64,
    place: Option<(u64, u32)>,
    layout: LayoutKind,
) -> bool {
    layout matches LayoutKind::Virtual(maps) ==> (place matches Some((addr, idx)) && (heap_object(
        data,
        base,
        addr,
        idx as u64,
    ) matches Ok(blob) && vds_parsed(blob) == Ok::<Seq<MappingView>, Seq<char>>(maps)))
}

/// Filters are stored with all bits of an element.
proof fn lemma_no_bits(fs: Seq<FilterView>, d: DatasetView, n: nat)
    requires
        forall|i: int|
            0 <= i < fs.len() && (#[trigger] fs[i]).id == FILTER_NBIT ==> fs[i].cdata.len() == 8
                && fs[i].cdata[1] == 1,
    ensures
        first_filter(fs, FILTER_NBIT) matches Some(f) ==> f.cdata.len() == 8 && f.cdata[1] == 1,
    decreases fs.len(),
{
    if fs.len() > 0 && fs[0].id != FILTER_NBIT {
        assert forall|i: int|
            0 <= i < fs.skip(1).len() && (#[trigger] fs.skip(1)[i]).id == FILTER_NBIT implies
            fs.skip(1)[i].cdata.len() == 8 && fs.skip(1)[i].cdata[1] == 1 by {
            assert(fs.skip(1)[i] == fs[i + 1]);
        }
        lemma_no_bits(fs.skip(1), d, n);
    }
}

proof fn lemma_stored_bits(d: DatasetView, n: nat)
    ensures
        stored_bits(lowered(d, n), d.dtype) is None,
{
    let fs = lowered(d, n);
    assert forall|i: int| 0 <= i < fs.len() && (#[trigger] fs[i]).id == FILTER_NBIT implies
        fs[i].cdata.len() == 8 && fs[i].cdata[1] == 1 by {
        assert(fs[i] == lowered_one(d.filters[i], d, n));
    }
    lemma_no_bits(fs, d, n);
}

/// Whether the elements of a dataset can be read: they are there, each has the same
/// number of bytes, there are not too many of them, and their payloads can be told.
pub open spec fn readable_data(d: DatasetView) -> bool {
    let n = elements(d.is_null, d.is_scalar, d.dims);
    let total = n * d.dtype.disk_size();
    &&& d.is_null || d.is_scalar || countable(d.dims)
    &&& total <= usize::MAX
    &&& total <= DATASET_LIMIT
    &&& if d.layout is Virtual {
        vlen_told(d.dtype, n, zeroes(total), Seq::empty())
    } else {
        d.data.len() == total && vlen_told(d.dtype, n, d.data, d.vlen)
    }
}

/// The elements of a dataset as they are stored, where their payloads are in the
/// collection at `addr`.
pub open spec fn cells_at(d: DatasetView, addr: u64) -> Seq<u8> {
    let n = elements(d.is_null, d.is_scalar, d.dims);
    if d.dtype.has_vlen() && d.vlen.len() > 0 {
        fixed_cells(
            d.dtype,
            if n < d.data.len() {
                n
            } else {
                d.data.len()
            },
            d.data,
            addr,
        )
    } else {
        d.data
    }
}

/// The kind of a dataset that was read.
proof fn lemma_object_kind(
    img: ImageView,
    n: NodeView,
    d: DatasetView,
    layout: LayoutView,
    addr: u64,
    x: DatasetView,
)
    requires
        header_told(img, addr, img.data.len(), n, dataset_header(d, layout)),
        dataset_read(
            img.data,
            img.base,
            layout,
            d.dtype,
            OrderView::Plain,
            dataset_space(d),
            d.fill,
            lowered(d, unit_count(d)),
        ) == Ok::<DatasetView, Seq<char>>(x),
    ensures
        object_read(img, addr) == Ok::<RawObjectView, Seq<char>>(
            RawObjectView {
                kind: RawKindView::Dataset(x),
                attrs: attrs_back(n.attrs),
                comment: n.comment,
                mtime: n.mtime,
                mappings: mappings_of(Some(layout)),
            },
        ),
{
    let h = dataset_header(d, layout);
    assert(!is_group(h));
}

/// Whether stored elements are those of a dataset, with its payloads in the file.
spec fn cells_stored(data: Seq<u8>, base: u64, d: DatasetView, cells: Seq<u8>) -> bool {
    &&& cells.len() == d.data.len()
    &&& !d.dtype.has_vlen() ==> cells == d.data
    &&& loaded(data, base, d.dtype, elements(d.is_null, d.is_scalar, d.dims), cells) == Ok::<
        (Seq<u8>, Seq<Seq<u8>>),
        Seq<char>,
    >(dataset_back(d))
}

/// Elements in one block are read where they stand.
proof fn lemma_block_read(
    img: ImageView,
    d: DatasetView,
    cells: Seq<u8>,
    addr: u64,
    layout: LayoutView,
)
    requires
        readable_data(d),
        d.layout is Contiguous || d.layout is Compact,
        cells_stored(img.data, img.base, d, cells),
        layout == (LayoutView::Contiguous { addr, size: d.data.len() as u64 }),
        addr != UNDEF,
        d.data.len() > 0,
        stands(img.data, img.base + addr, cells),
    ensures
        dataset_read(
            img.data,
            img.base,
            layout,
            d.dtype,
            OrderView::Plain,
            dataset_space(d),
            d.fill,
            lowered(d, unit_count(d)),
        ) matches Ok(x) && comes_back(img.data, x, d),
{
    let start = img.base + addr;
    lemma_stored_bits(d, unit_count(d));
    assert(img.data.subrange(start, start + cells.len()) == cells);
    assert(fitted(cells, cells.len()) =~= cells);
}

/// A dataset without elements is read.
proof fn lemma_empty_read(img: ImageView, d: DatasetView)
    requires
        readable_data(d),
        d.layout is Contiguous || d.layout is Compact,
        d.data.len() == 0,
    ensures
        dataset_read(
            img.data,
            img.base,
            LayoutView::Contiguous { addr: UNDEF, size: 0 },
            d.dtype,
            OrderView::Plain,
            dataset_space(d),
            d.fill,
            lowered(d, unit_count(d)),
        ) matches Ok(x) && comes_back(img.data, x, d),
{
    lemma_stored_bits(d, unit_count(d));
    assert(zeroes(0) =~= d.data);
}

/// A virtual dataset is read.
proof fn lemma_virtual_read(img: ImageView, d: DatasetView, addr: u64)
    requires
        readable_data(d),
        d.layout is Virtual,
        img.data.len() <= u64::MAX,
        img.data.len() > 0,
    ensures
        dataset_read(
            img.data,
            img.base,
            LayoutView::Virtual { gh_addr: addr, gh_idx: 1 },
            d.dtype,
            OrderView::Plain,
            dataset_space(d),
            d.fill,
            lowered(d, unit_count(d)),
        ) matches Ok(x) && comes_back(img.data, x, d),
{
    let n = elements(d.is_null, d.is_scalar, d.dims);
    let total = n * d.dtype.disk_size();
    lemma_stored_bits(d, unit_count(d));
    lemma_blank_read(img.data, img.base, d.dtype, n, zeroes(total));
}

/// A block of an image stands in a file that holds a longer image.
proof fn lemma_block_place(
    img: ImageView,
    s: Seq<u8>,
    s1: Seq<u8>,
    whole: Seq<u8>,
    block: Seq<u8>,
)
    requires
        s1 == appended(s, block),
        s.len() >= 96,
        crate::format::tree::extends(whole, s1),
        keeps(img.data, img.base, whole, s.len()),
    ensures
        stands(img.data, img.base + padded(s).len(), block),
{
    lemma_appended(s, block);
    lemma_appended_stands(s, block);
    let at = padded(s).len() as int;
    assert(whole.subrange(at, at + block.len()) =~= s1.subrange(at, at + block.len())) by {
        assert forall|i: int| 0 <= i < s1.len() implies whole[i] == s1[i] by {
            assert(whole.take(s1.len() as int)[i] == s1[i]);
        }
    }
    lemma_keeps(img.data, img.base, whole, s.len(), at, block);
}

/// Whether the chunks of a dataset can be told from its layout message, and its filters
/// lose nothing of them, wherever its payloads stand.
pub open spec fn chunking_plain(d: DatasetView, cdims: Seq<u64>) -> bool {
    let fs = lowered(d, unit_count(d));
    &&& !d.is_null && !d.is_scalar
    &&& d.dims.len() < 255
    &&& 0 < d.dtype.disk_size() < 0x1_0000_0000
    &&& forall|i: int| 0 <= i < cdims.len() ==> #[trigger] cdims[i] < 0x1_0000_0000
    &&& fs.len() <= 32
    &&& forall|addr: u64, i: nat|
        #![trigger cut_of(d, cdims, cells_at(d, addr)).chunk(i)]
        cut_of(d, cdims, cells_at(d, addr)).total() matches Ok(n) && 0 < n <= u64::MAX && (i < n
            ==> kept(fs, 0, d.dtype.disk_size(), cut_of(d, cdims, cells_at(d, addr)).chunk(i)))
}

/// The elements of chunks are read where they stand.
proof fn lemma_chunks_read(
    img: ImageView,
    s: Seq<u8>,
    d: DatasetView,
    cdims: Seq<u64>,
    there: u64,
    stored: Seq<Seq<u8>>,
    out: Seq<u8>,
    root: u64,
)
    requires
        d.layout == LayoutKind::Chunked(cdims),
        readable_data(d),
        chunking_plain(d, cdims),
        cells_stored(img.data, img.base, d, cells_at(d, there)),
        cut_of(d, cdims, cells_at(d, there)).total() == Ok::<nat, Seq<char>>(stored.len()),
        cut_of(d, cdims, cells_at(d, there)).all_filtered(0, stored),
        chunks_plain(stored),
        chunks_written(s, d.dims, cdims, d.dtype.disk_size(), stored) == Ok::<
            (Seq<u8>, u64),
            Seq<char>,
        >((out, root)),
        keeps(img.data, img.base, out, s.len()),
        out.len() < u64::MAX,
        s.len() >= 96,
    ensures
        dataset_read(
            img.data,
            img.base,
            LayoutView::Chunked {
                index: ChunkIndex::BtreeV1 { addr: root },
                chunk_dims: cdims.push(d.dtype.disk_size() as u64),
            },
            d.dtype,
            OrderView::Plain,
            dataset_space(d),
            d.fill,
            lowered(d, unit_count(d)),
        ) matches Ok(x) && comes_back(img.data, x, d),
{
    let size = d.dtype.disk_size();
    let fs = lowered(d, unit_count(d));
    let cells = cells_at(d, there);
    let cut = cut_of(d, cdims, cells);
    lemma_stored_bits(d, unit_count(d));
    law_chunk_tree_read(
        img.data,
        img.base,
        s,
        d.dims,
        cdims,
        size,
        stored,
        out,
        root,
    );
    let addrs = all_written(s, stored).1;
    let chunks = chunks_of(d.dims, cdims, stored, addrs);
    assert(cdims.push(size as u64).drop_last() =~= cdims);
    let bytes = count(cdims) * size;
    assert(chunk_size(d.dims, cdims, size) == Ok::<nat, Seq<char>>(bytes));
    let g = ChunkGeometry { dims: d.dims, cdims, elem: size, bytes, filters: fs };
    assert forall|k: int| 0 <= k < stored.len() implies kept(
        cut.filters,
        0,
        cut.size,
        #[trigger] cut.chunk(k as nat),
    ) by {
        assert(cut_of(d, cdims, cells_at(d, there)).chunk(k as nat) == cut.chunk(k as nat));
    }
    law_chunks_read(img.data, img.base, cut, stored, addrs, g);
}

/// Whether a dataset can be told from what is written of it.
pub open spec fn dataset_told(n: NodeView, d: DatasetView) -> bool {
    &&& dataset_plain(d)
    &&& readable_data(d)
    &&& match d.layout {
        LayoutKind::Chunked(c) => {
            &&& chunking_plain(d, c)
            &&& forall|stores: Seq<StoreView>, tree: u64|
                header_fits(
                    whole_messages(
                        (#[trigger] dataset_messages(
                            stores,
                            d,
                            chunked_message(d.dims.len(), tree, c, d.dtype.disk_size()),
                        )).1,
                        n,
                    ),
                )
        },
        LayoutKind::Virtual(maps) => {
            &&& maps.len() <= u64::MAX
            &&& forall|k: int| 0 <= k < maps.len() ==> mapping_writable(#[trigger] maps[k])
            &&& forall|stores: Seq<StoreView>, heap: u64|
                header_fits(
                    whole_messages(
                        (#[trigger] dataset_messages(stores, d, mapped_message(heap))).1,
                        n,
                    ),
                )
        },
        _ => forall|stores: Seq<StoreView>, addr: u64|
            header_fits(
                whole_messages(
                    (#[trigger] dataset_messages(
                        stores,
                        d,
                        block_message(addr, d.data.len()),
                    )).1,
                    n,
                ),
            ),
    }
}

/// What the reading of a dataset that was written comes to.
spec fn layout_back(d: DatasetView, s: Seq<u8>, chunks: Seq<Seq<u8>>) -> LayoutView {
    match d.layout {
        LayoutKind::Chunked(c) => LayoutView::Chunked {
            index: ChunkIndex::BtreeV1 {
                addr: chunks_written(s, d.dims, c, d.dtype.disk_size(), chunks)->Ok_0.1,
            },
            chunk_dims: c.push(d.dtype.disk_size() as u64),
        },
        LayoutKind::Virtual(_) => LayoutView::Virtual { gh_addr: end_of(s), gh_idx: 1 },
        _ => if d.data.len() == 0 {
            LayoutView::Contiguous { addr: UNDEF, size: 0 }
        } else {
            LayoutView::Contiguous { addr: end_of(s), size: d.data.len() as u64 }
        },
    }
}

/// The layout message of a dataset that was written is read.
proof fn lemma_layout_back(
    d: DatasetView,
    s: Seq<u8>,
    cells: Seq<u8>,
    chunks: Seq<Seq<u8>>,
    tail: Seq<u8>,
)
    requires
        layout_written(s, d, cells, Ok(chunks)) is Ok,
        readable_data(d),
        !(d.layout is Virtual) ==> cells.len() == d.data.len(),
        d.layout matches LayoutKind::Chunked(c) ==> chunking_plain(d, c) && c.len() == d.dims.len(),
    ensures
        crate::format::messages::layout_parsed(
            layout_written(s, d, cells, Ok(chunks))->Ok_0.1 + tail,
        ) == Ok::<LayoutView, Seq<char>>(layout_back(d, s, chunks)),
{
    match d.layout {
        LayoutKind::Chunked(c) => {
            let size = d.dtype.disk_size();
            let (s1, root) = chunks_written(s, d.dims, c, size, chunks)->Ok_0;
            law_chunk_layout_read(d.dims.len(), root, c, size, tail);
        },
        LayoutKind::Virtual(_) => {
            law_mapped_layout_read(end_of(s), tail);
        },
        _ => {
            if cells.len() == 0 {
                law_block_layout_read(UNDEF, 0, tail);
            } else {
                law_block_layout_read(end_of(s), cells.len() as u64, tail);
            }
        },
    }
}

/// The elements of a dataset leave the image before them as it is.
pub(crate) proof fn lemma_layout_extends(
    s: Seq<u8>,
    d: DatasetView,
    cells: Seq<u8>,
    chunks: Result<Seq<Seq<u8>>, Seq<char>>,
)
    requires
        layout_written(s, d, cells, chunks) is Ok,
    ensures
        extends(layout_written(s, d, cells, chunks)->Ok_0.0, s),
{
    match d.layout {
        LayoutKind::Chunked(c) => {
            let size = d.dtype.disk_size();
            let stored = chunks->Ok_0;
            let (s1, addrs) = all_written(s, stored);
            lemma_stored_grow(s, stored);
            crate::format::tree_laws::lemma_tree_extends(
                s1,
                crate::format::chunk_write::chunk_shape(d.dims.len()),
                0,
                crate::format::chunk_write::chunk_children(d.dims, c, size, stored, addrs),
            );
            lemma_extends(s, s1, layout_written(s, d, cells, chunks)->Ok_0.0);
        },
        LayoutKind::Virtual(maps) => {
            lemma_appended(
                s,
                crate::format::tree::collection_message(seq![vds_encoded(maps)->Ok_0]),
            );
        },
        _ => {
            assert(s.take(s.len() as int) =~= s);
            lemma_appended(s, cells);
        },
    }
}

proof fn lemma_stored_grow(s: Seq<u8>, stored: Seq<Seq<u8>>)
    ensures
        extends(all_written(s, stored).0, s),
    decreases stored.len(),
{
    if stored.len() == 0 {
        assert(s.take(s.len() as int) =~= s);
    } else {
        let init = stored.drop_last();
        lemma_stored_grow(s, init);
        lemma_appended(all_written(s, init).0, stored.last());
        lemma_extends(s, all_written(s, init).0, all_written(s, stored).0);
    }
}

/// The stored elements of a dataset are its own, in a file that holds the image.
proof fn lemma_cells_stored(img: ImageView, s: Seq<u8>, d: DatasetView)
    requires
        readable_data(d),
        !(d.layout is Virtual),
        keeps(img.data, img.base, dataset_cells(s, d).0, s.len()),
        dataset_cells(s, d).0.len() < u64::MAX,
        img.data.len() <= u64::MAX,
        s.len() >= 96,
    ensures
        dataset_cells(s, d).1 == cells_at(d, end_of(s)),
        cells_stored(img.data, img.base, d, dataset_cells(s, d).1),
{
    let n = elements(d.is_null, d.is_scalar, d.dims);
    law_cells_read(img.data, img.base, s, d.dtype, n, d.data, d.vlen, s.len());
}

/// The elements of a dataset that was written are read.
proof fn lemma_elements_read(
    img: ImageView,
    s: Seq<u8>,
    d: DatasetView,
    chunks: Seq<Seq<u8>>,
    out: Seq<u8>,
    n: NodeView,
)
    requires
        dataset_told(n, d),
        ({
            let (s0, cells) = dataset_cells(s, d);
            &&& layout_written(s0, d, cells, Ok(chunks)) matches Ok(x) && x.0 == out
            &&& stored_as(d, cells, None, Ok(chunks))
        }),
        out.len() < u64::MAX,
        img.data.len() <= u64::MAX,
        keeps(img.data, img.base, out, s.len()),
        s.len() >= 96,
    ensures
        dataset_read(
            img.data,
            img.base,
            layout_back(d, dataset_cells(s, d).0, chunks),
            d.dtype,
            OrderView::Plain,
            dataset_space(d),
            d.fill,
            lowered(d, unit_count(d)),
        ) matches Ok(x) && comes_back(img.data, x, d),
{
    let (s0, cells) = dataset_cells(s, d);
    lemma_dataset_cells_extend(s, d);
    lemma_layout_extends(s0, d, cells, Ok(chunks));
    lemma_keeps_less(img.data, img.base, out, s0, s.len());
    match d.layout {
        LayoutKind::Virtual(maps) => {
            lemma_virtual_read(img, d, end_of(s0));
        },
        LayoutKind::Chunked(c) => {
            lemma_cells_stored(img, s, d);
            reveal(stored_as);
            let size = d.dtype.disk_size();
            let root = chunks_written(s0, d.dims, c, size, chunks)->Ok_0.1;
            assert(chunks_plain(chunks)) by {
                let cut = cut_of(d, c, cells_at(d, end_of(s)));
                let first = cut.chunk(0);
            }
            lemma_chunks_read(img, s0, d, c, end_of(s), chunks, out, root);
        },
        _ => {
            lemma_cells_stored(img, s, d);
            if d.data.len() == 0 {
                lemma_empty_read(img, d);
            } else {
                assert(out.take(out.len() as int) =~= out);
                lemma_block_place(img, s0, out, out, cells);
                lemma_appended(s0, cells);
                lemma_block_read(
                    img,
                    d,
                    cells,
                    end_of(s0),
                    layout_back(d, s0, chunks),
                );
            }
        },
    }
}

pub(crate) proof fn lemma_dataset_cells_extend(s: Seq<u8>, d: DatasetView)
    ensures
        extends(dataset_cells(s, d).0, s),
{
    let n = elements(d.is_null, d.is_scalar, d.dims);
    lemma_cells_extend(s, d.dtype, n, d.data, d.vlen);
}

/// The mappings of a virtual dataset that was written are read.
proof fn lemma_maps_back(
    img: ImageView,
    s: Seq<u8>,
    d: DatasetView,
    chunks: Seq<Seq<u8>>,
    out: Seq<u8>,
    n: NodeView,
)
    requires
        dataset_told(n, d),
        ({
            let (s0, cells) = dataset_cells(s, d);
            layout_written(s0, d, cells, Ok(chunks)) matches Ok(x) && x.0 == out
        }),
        out.len() < u64::MAX,
        img.data.len() <= u64::MAX,
        keeps(img.data, img.base, out, s.len()),
        s.len() >= 96,
    ensures
        maps_back(
            img.data,
            img.base,
            mappings_of(Some(layout_back(d, dataset_cells(s, d).0, chunks))),
            d.layout,
        ),
{
    let s0 = dataset_cells(s, d).0;
    lemma_dataset_cells_extend(s, d);
    match d.layout {
        LayoutKind::Virtual(maps) => {
            law_vds_round_trip(maps);
            let blob = vds_encoded(maps)->Ok_0;
            let m = crate::format::tree::collection_message(seq![blob]);
            assert(out.take(out.len() as int) =~= out);
            lemma_block_place(img, s0, out, out, m);
            lemma_appended(s0, m);
            law_collection_read(img.data, img.base, end_of(s0), seq![blob], 0);
        },
        _ => {},
    }
}

/// The header of a dataset has room for its messages.
proof fn lemma_told_fits(
    n: NodeView,
    d: DatasetView,
    stores: Seq<StoreView>,
    s: Seq<u8>,
    cells: Seq<u8>,
    chunks: Seq<Seq<u8>>,
)
    requires
        dataset_told(n, d),
        layout_written(s, d, cells, Ok(chunks)) is Ok,
        !(d.layout is Virtual) ==> cells.len() == d.data.len(),
    ensures
        header_fits(
            whole_messages(
                dataset_messages(stores, d, layout_written(s, d, cells, Ok(chunks))->Ok_0.1).1,
                n,
            ),
        ),
{
    let body = layout_written(s, d, cells, Ok(chunks))->Ok_0.1;
    let ms = dataset_messages(stores, d, body).1;
    match d.layout {
        LayoutKind::Chunked(c) => {
            let root = chunks_written(s, d.dims, c, d.dtype.disk_size(), chunks)->Ok_0.1;
            assert(body == chunked_message(d.dims.len(), root, c, d.dtype.disk_size()));
        },
        LayoutKind::Virtual(_) => {
            assert(body == mapped_message(end_of(s)));
        },
        _ => {
            if cells.len() == 0 {
                assert(body == block_message(UNDEF, d.data.len()));
            } else {
                assert(body == block_message(end_of(s), d.data.len()));
            }
        },
    }
}

/// A dataset is read as it was written, from any file that holds the image, with the ids
/// of shared messages in place and their bodies found by them: its elements come back
/// with their payloads, the array that was cut into chunks and filtered is whole again,
/// and a virtual dataset has its mappings.
pub proof fn law_dataset_read(
    img: ImageView,
    w: ImageOut,
    n: NodeView,
    d: DatasetView,
    chunks: Seq<Seq<u8>>,
    v: Seq<StoreView>,
    ids: Seq<Seq<Seq<u8>>>,
    w1: ImageOut,
    r: Ref,
)
    requires
        stored_as(d, dataset_cells(w.buf, d).1, None, Ok(chunks)),
        dataset_written(w, n, d, Ok(chunks)) == Ok::<(ImageOut, Ref), Seq<char>>((w1, r)),
        sound(w),
        w.buf.len() >= 96,
        w1.buf.len() < u64::MAX,
        img.data.len() <= u64::MAX,
        keeps_but(img.data, img.base, w1.buf, w.buf.len(), w1.patches, ids),
        serves(img, v, ids),
        stores_keep(v, w1.stores),
        node_plain(n),
        dataset_told(n, d),
    ensures
        object_read(img, r.oh_addr) matches Ok(o) && o.attrs == attrs_back(n.attrs) && o.comment
            == n.comment && o.mtime == n.mtime && (o.kind matches RawKindView::Dataset(x)
            && comes_back(img.data, x, d)) && maps_back(img.data, img.base, o.mappings, d.layout),
{
    let from = w.buf.len();
    let (s0, cells) = dataset_cells(w.buf, d);
    let (s1, body) = layout_written(s0, d, cells, Ok(chunks))->Ok_0;
    let layout = layout_back(d, s0, chunks);
    let (stores, ms) = dataset_messages(w.stores, d, body);
    let mid = ImageOut { buf: s1, stores, ..w };
    assert(finished(mid, n, ms) == Ok::<(ImageOut, u64), Seq<char>>((w1, r.oh_addr)));
    lemma_dataset_cells_extend(w.buf, d);
    lemma_layout_extends(s0, d, cells, Ok(chunks));
    lemma_extends(w.buf, s0, s1);
    lemma_dataset_stores(w.stores, d, body);
    lemma_known_on(w.patches, w.stores, stores);
    lemma_finished_grows(mid, n, ms, w1, r.oh_addr);
    let _ = lemma_finished(mid, n, ms, w1, r.oh_addr);
    lemma_keeps_before(img.data, img.base, w1, mid, from, ids);
    lemma_keeps_plain(img.data, img.base, s1, from, w.patches, ids);
    lemma_keeps_less(img.data, img.base, s1, s0, from);
    lemma_elements_read(img, w.buf, d, chunks, s1, n);
    lemma_maps_back(img, w.buf, d, chunks, s1, n);
    if !(d.layout is Virtual) {
        lemma_cells_stored(img, w.buf, d);
    }
    assert(d.layout matches LayoutKind::Chunked(c) ==> c.len() == d.dims.len()) by {
        reveal(stored_as);
    }
    let fill = !attrs_dense(n.attrs);
    let depth = img.data.len();
    lemma_layout_back(d, s0, cells, chunks, fill_of(body, fill));
    lemma_told_fits(n, d, w.stores, s0, cells, chunks);
    lemma_dataset_settled(img, w.stores, d, body, layout, v, ids, fill, depth);
    lemma_header_settled(img, mid, n, ms, w1, r.oh_addr, from, ids);
    lemma_settled_back(
        img,
        mid,
        n,
        ms,
        all_settled(ms, ids),
        w1,
        r.oh_addr,
        dataset_header(d, layout),
        depth,
    );
    let x = dataset_read(
        img.data,
        img.base,
        layout,
        d.dtype,
        OrderView::Plain,
        dataset_space(d),
        d.fill,
        lowered(d, unit_count(d)),
    )->Ok_0;
    lemma_object_kind(img, n, d, layout, r.oh_addr, x);
}

} // verus!
