//! Writing of single objects: what stands in their headers, and the data of datasets.

use vstd::prelude::*;
use vstd::utf8::encode_utf8;

use crate::error::Error;
use crate::format::attr_write::{
    attrs_sized, attrs_written, cells_written, is_overfull, overfull, whole_count, write_attributes,
    write_cells,
    AttrsOut, AttrsView,
};
use crate::format::chunk_index::{chunk_counts, has_zero};
use crate::format::chunk_write::{chunks_written, filter_chunks, write_chunks, ChunksOut, CutView};
use crate::format::convert::{disk_size, payloads};
use crate::format::datatype::{encode, encoded};
use crate::format::dense::views_of;
use crate::format::encode::{
    dataspace_message, encode_dataspace, encode_fill, encode_filter_pipeline, fill_message,
    pipeline_message, words32,
};
use crate::format::filters::{applied_view, filter_views, Applied, AppliedView, RawFilter};
use crate::format::grid::{checked_count, count};
use crate::format::group_write::{bare_ref, Ref};
use crate::format::header::{
    MSG_ATTRIBUTE, MSG_ATTRIBUTE_INFO, MSG_COMMENT, MSG_DATASPACE, MSG_DATATYPE, MSG_FILL,
    MSG_FILTER, MSG_LAYOUT, MSG_MOD_TIME,
};
use crate::format::header_write::{
    header_written, out_views, patch_views, patches_fit, plain, plain_message, shared_fit,
    write_object_header, OutMessage, OutView, Patch, PatchView,
};
use crate::format::lower::{lower_filters, lowered, word};
use crate::format::share::{
    maybe_share, message_known, patches_known, shared, store_views, stores_grow, stores_wf,
    SharedStore, StoreView,
};
use crate::format::tree::{
    append, appended, collection_message, end_of, extends, lemma_appended, lemma_extends,
    write_gheap,
};
use crate::format::vds::{encode_vds_blob, mapping_views, vds_encoded, VdsMapping};
use crate::format::{le_bytes, lemma_le_bytes_residue, lemma_pow256, push_le, Buf, UNDEF};
use crate::model::{
    attr_views, elements, DatasetData, DatasetView, LayoutClass, LayoutKind, NodeView, ObjectNode,
};

verus! {

/// A file image that is being written.
#[verifier::ext_equal]
pub struct ImageOut {
    pub buf: Seq<u8>,
    /// The objects that are written.
    pub memo: Seq<Option<Ref>>,
    pub stores: Seq<StoreView>,
    pub patches: Seq<PatchView>,
}

/// A file image that is being written.
pub struct Output {
    pub buf: Vec<u8>,
    pub memo: Vec<Option<Ref>>,
    pub stores: Vec<SharedStore>,
    pub patches: Vec<Patch>,
}

impl View for Output {
    type V = ImageOut;

    open spec fn view(&self) -> ImageOut {
        ImageOut {
            buf: self.buf@,
            memo: self.memo@,
            stores: store_views(self.stores@),
            patches: patch_views(self.patches@),
        }
    }
}

impl ImageOut {
    /// The places of shared messages lie in the image and refer to bodies that are there.
    pub open spec fn wf(self) -> bool {
        &&& stores_wf(self.stores)
        &&& patches_fit(self.patches, self.buf.len())
        &&& patches_known(self.patches, self.stores)
    }
}

/// What writing an object gives.
pub type Written = Result<(ImageOut, Ref), Seq<char>>;

/// Whether an object was written as a specification says.
pub open spec fn object_as(r: Result<Ref, Error>, out: ImageOut, w: Written) -> bool {
    match (r, w) {
        (Ok(x), Ok(y)) => out == y.0 && x == y.1,
        (Err(e), Err(y)) => e@ == y,
        _ => false,
    }
}

// Messages that every object may have.

/// The message with the time of modification.
pub open spec fn time_message(mtime: u32) -> Seq<u8> {
    seq![1u8, 0u8, 0u8, 0u8] + le_bytes(mtime as nat, 4)
}

/// The message with a comment.
pub open spec fn comment_message(text: Seq<char>) -> Seq<u8> {
    encode_utf8(text) + seq![0u8]
}

/// The message that says where dense attributes are.
pub open spec fn attr_info(heap: u64, tree: u64) -> Seq<u8> {
    seq![0u8, 0u8] + le_bytes(heap as nat, 8) + le_bytes(tree as nat, 8)
}

/// The messages of attributes.
pub open spec fn attr_messages(a: AttrsView) -> Seq<OutView> {
    match a {
        AttrsView::Messages(ms) => ms.map_values(|m: Seq<u8>| plain_message(MSG_ATTRIBUTE, m)),
        AttrsView::Dense(heap, tree) => seq![
            plain_message(MSG_ATTRIBUTE_INFO, attr_info(heap, tree)),
        ],
    }
}

/// The messages of the time of modification and the comment.
pub open spec fn note_messages(n: NodeView) -> Seq<OutView> {
    (if n.mtime != 0 {
        seq![plain_message(MSG_MOD_TIME, time_message(n.mtime))]
    } else {
        Seq::empty()
    }) + (match n.comment {
        Some(text) => seq![plain_message(MSG_COMMENT, comment_message(text))],
        None => Seq::empty(),
    })
}

/// An image with the header of an object behind it, which holds `ms` and what every
/// object may have, and the address of the header.
#[verifier::opaque]
pub open spec fn finished(w: ImageOut, n: NodeView, ms: Seq<OutView>) -> Result<
    (ImageOut, u64),
    Seq<char>,
> {
    match attrs_written(w.buf, n.attrs) {
        Err(e) => Err(e),
        Ok((s, attrs)) => match header_written(
            s,
            ms + note_messages(n) + attr_messages(attrs),
            attrs is Dense,
        ) {
            Err(e) => Err(e),
            Ok((s1, addr, patches)) => Ok(
                (ImageOut { buf: s1, patches: w.patches + patches, ..w }, addr),
            ),
        },
    }
}

/// Whether messages refer to bodies that are there.
pub open spec fn all_known(ms: Seq<OutView>, v: Seq<StoreView>) -> bool {
    forall|i: int| 0 <= i < ms.len() ==> message_known(#[trigger] ms[i], v)
}

pub(crate) proof fn lemma_patches_known(
    ms: Seq<OutView>,
    base: nat,
    head: nat,
    fill: bool,
    v: Seq<StoreView>,
)
    requires
        all_known(ms, v),
    ensures
        patches_known(crate::format::header_write::patches_of(ms, base, head, fill), v),
        shared_fit(ms),
    decreases ms.len(),
{
    if ms.len() > 0 {
        assert(all_known(ms.drop_last(), v)) by {
            assert forall|i: int| 0 <= i < ms.drop_last().len() implies message_known(
                #[trigger] ms.drop_last()[i],
                v,
            ) by {
                assert(ms[i] == ms.drop_last()[i]);
            }
        }
        lemma_patches_known(ms.drop_last(), base, head, fill, v);
        assert(message_known(ms[ms.len() - 1], v));
    }
    assert forall|i: int| 0 <= i < ms.len() && (#[trigger] ms[i]).shared is Some implies ms[i].body.len()
        == 10 by {
        assert(message_known(ms[i], v));
    }
}

fn push_notes(ms: &mut Vec<OutMessage>, n: &ObjectNode)
    ensures
        out_views(final(ms)@) == out_views(old(ms)@) + note_messages(n@),
{
    let ghost before = out_views(ms@);
    if n.mtime != 0 {
        let mut b = Buf::new();
        b.u8(1);
        b.zeros(3);
        b.u32(n.mtime);
        assert(b@ =~= time_message(n.mtime));
        ms.push(plain(MSG_MOD_TIME, b.bytes));
    }
    let ghost mid = out_views(ms@);
    assert(mid =~= before + (if n.mtime != 0 {
        seq![plain_message(MSG_MOD_TIME, time_message(n.mtime))]
    } else {
        Seq::empty()
    }));
    match &n.comment {
        Some(text) => {
            let mut b = Buf::new();
            b.raw(text.as_str().as_bytes());
            b.u8(0);
            assert(b@ =~= comment_message(text@));
            ms.push(plain(MSG_COMMENT, b.bytes));
            assert(out_views(ms@) =~= mid + seq![
                plain_message(MSG_COMMENT, comment_message(text@)),
            ]);
        },
        None => {},
    }
    assert(out_views(ms@) =~= before + note_messages(n@));
}

fn push_attributes(ms: &mut Vec<OutMessage>, a: AttrsOut)
    ensures
        out_views(final(ms)@) == out_views(old(ms)@) + attr_messages(a@),
{
    let ghost before = out_views(ms@);
    match a {
        AttrsOut::Dense(heap, tree) => {
            let mut b = Buf::new();
            b.u8(0);
            b.u8(0);
            b.u64(heap);
            b.u64(tree);
            assert(b@ =~= attr_info(heap, tree));
            ms.push(plain(MSG_ATTRIBUTE_INFO, b.bytes));
            assert(out_views(ms@) =~= before + attr_messages(a@));
        },
        AttrsOut::Messages(list) => {
            let ghost views = views_of(list@);
            let ghost want = attr_messages(AttrsView::Messages(views));
            let mut i: usize = 0;
            assert(out_views(ms@) =~= before + want.take(0));
            while i < list.len()
                invariant
                    i <= list@.len(),
                    views == views_of(list@),
                    want == attr_messages(AttrsView::Messages(views)),
                    out_views(ms@) == before + want.take(i as int),
                decreases list@.len() - i,
            {
                let body = vstd::slice::slice_to_vec(list[i].as_slice());
                let ghost was = out_views(ms@);
                ms.push(plain(MSG_ATTRIBUTE, body));
                proof {
                    assert(views[i as int] == list@[i as int]@);
                    assert(out_views(ms@) =~= was.push(want[i as int]));
                    assert(out_views(ms@) =~= before + want.take(i + 1));
                }
                i += 1;
            }
            assert(want.take(want.len() as int) =~= want);
        },
    }
}

impl Output {
    /// Writes the header of an object.
    pub fn finish(&mut self, n: &ObjectNode, messages: Vec<OutMessage>) -> (r: Result<u64, Error>)
        requires
            old(self)@.wf(),
            attrs_sized(attr_views(n.attrs@)),
            all_known(out_views(messages@), old(self)@.stores),
        ensures
            match (r, finished(old(self)@, n@, out_views(messages@))) {
                (Ok(a), Ok(y)) => {
                    &&& final(self)@ == y.0
                    &&& a == y.1
                    &&& final(self)@.wf()
                    &&& extends(final(self)@.buf, old(self)@.buf)
                    &&& final(self)@.memo == old(self)@.memo
                },
                (Err(e), Err(y)) => e@ == y,
                _ => false,
            },
    {
        let ghost w = self@;
        reveal(finished);
        let attrs: AttrsOut = write_attributes(&mut self.buf, &n.attrs)?;
        let ghost s = self.buf@;
        let ghost av = attrs@;
        let dense: bool = match &attrs {
            AttrsOut::Dense(_, _) => true,
            _ => false,
        };
        let mut ms: Vec<OutMessage> = messages;
        push_notes(&mut ms, n);
        push_attributes(&mut ms, attrs);
        let ghost views = out_views(ms@);
        proof {
            assert forall|i: int| 0 <= i < views.len() implies message_known(
                #[trigger] views[i],
                w.stores,
            ) by {
                if i < messages@.len() {
                    assert(views[i] == out_views(messages@)[i]);
                }
            }
            let at = appended(s, Seq::empty()).len();
            lemma_patches_known(views, at + 10, 4, false, w.stores);
            lemma_patches_known(views, at + 16, 8, true, w.stores);
        }
        let addr: u64 = write_object_header(&mut self.buf, &ms, dense, &mut self.patches)?;
        proof {
            lemma_extends(w.buf, s, self.buf@);
            let ps = self@.patches;
            assert forall|i: int| 0 <= i < ps.len() implies (#[trigger] ps[i]).index
                < w.stores.len() && ps[i].item < w.stores[ps[i].index as int].objects.len() by {
                if i < w.patches.len() {
                    assert(ps[i] == w.patches[i]);
                }
            }
        }
        Ok(addr)
    }
}

// Datasets.

/// The number of elements that go through the filters at once, at least one.
pub open spec fn unit_count(d: DatasetView) -> nat {
    let n = match d.layout {
        LayoutKind::Chunked(c) => count(c),
        _ => elements(d.is_null, d.is_scalar, d.dims),
    };
    if n == 0 {
        1
    } else {
        n
    }
}

/// How the elements of a chunked dataset are cut into chunks.
pub open spec fn cut_of(d: DatasetView, cdims: Seq<u64>, data: Seq<u8>) -> CutView {
    CutView {
        data,
        dims: d.dims,
        cdims,
        size: d.dtype.disk_size(),
        filters: lowered(d, unit_count(d)),
    }
}

/// Whether `chunks` are the stored chunks of a dataset with the elements `data`. Chunks
/// that are given stand for those that hold floating-point elements to be scaled.
#[verifier::opaque]
pub open spec fn stored_as(
    d: DatasetView,
    data: Seq<u8>,
    given: Option<Seq<Seq<u8>>>,
    chunks: Result<Seq<Seq<u8>>, Seq<char>>,
) -> bool {
    match d.layout {
        LayoutKind::Chunked(c) => {
            let cut = cut_of(d, c, data);
            match cut.total() {
                Err(e) => chunks == Err::<Seq<Seq<u8>>, Seq<char>>(e),
                Ok(n) => match given {
                    Some(v) => chunks == (if v.len() == n {
                        Ok::<Seq<Seq<u8>>, Seq<char>>(v)
                    } else {
                        Err("chunk count mismatch"@)
                    }),
                    None => match chunks {
                        Ok(v) => v.len() == n && cut.all_filtered(0, v),
                        Err(e) => exists|i: nat, out: Result<AppliedView, Seq<char>>|
                            i < n && #[trigger] cut.filtered(i, out) && match out {
                                Err(x) => e == x,
                                Ok(AppliedView::Float { .. }) => e
                                    == "floating-point scaling of a chunk"@,
                                Ok(AppliedView::Bytes(_)) => false,
                            },
                    },
                },
            }
        },
        _ => chunks == Ok::<Seq<Seq<u8>>, Seq<char>>(Seq::empty()),
    }
}

/// The layout message of chunks.
pub open spec fn chunked_message(rank: nat, tree: u64, cdims: Seq<u64>, size: nat) -> Seq<u8> {
    seq![3u8, 2u8] + le_bytes(rank + 1, 1) + le_bytes(tree as nat, 8) + words32(
        cdims.map_values(|c: u64| word(c as nat)),
    ) + le_bytes(size, 4)
}

/// The layout message of elements in one block.
pub open spec fn block_message(addr: u64, size: nat) -> Seq<u8> {
    seq![3u8, 1u8] + le_bytes(addr as nat, 8) + le_bytes(size, 8)
}

/// The layout message of mappings.
pub open spec fn mapped_message(heap: u64) -> Seq<u8> {
    seq![4u8, 3u8] + le_bytes(heap as nat, 8) + le_bytes(1, 4)
}

/// An image with the elements of a dataset behind it, and the layout message.
pub open spec fn layout_written(
    s: Seq<u8>,
    d: DatasetView,
    data: Seq<u8>,
    chunks: Result<Seq<Seq<u8>>, Seq<char>>,
) -> Result<(Seq<u8>, Seq<u8>), Seq<char>> {
    let size = d.dtype.disk_size();
    match d.layout {
        LayoutKind::Virtual(maps) => match vds_encoded(maps) {
            Err(e) => Err(e),
            Ok(blob) => Ok(
                (appended(s, collection_message(seq![blob])), mapped_message(end_of(s))),
            ),
        },
        LayoutKind::Chunked(c) => match chunks {
            Err(e) => Err(e),
            Ok(v) => match chunks_written(s, d.dims, c, size, v) {
                Err(e) => Err(e),
                Ok((s1, tree)) => Ok((s1, chunked_message(d.dims.len(), tree, c, size))),
            },
        },
        _ => if data.len() == 0 {
            Ok((s, block_message(UNDEF, elements(d.is_null, d.is_scalar, d.dims) * size)))
        } else {
            Ok((appended(s, data), block_message(end_of(s), data.len())))
        },
    }
}

/// The messages of a dataset, of which the first ones may be shared, and the stores of
/// shared messages.
pub open spec fn dataset_messages(v: Seq<StoreView>, d: DatasetView, layout: Seq<u8>) -> (
    Seq<StoreView>,
    Seq<OutView>,
) {
    let (v1, m1) = shared(
        v,
        MSG_DATASPACE,
        dataspace_message(d.dims, d.maxdims, d.is_scalar, d.is_null),
    );
    let (v2, m2) = shared(v1, MSG_DATATYPE, encoded(d.dtype));
    let (v3, m3) = shared(v2, MSG_FILL, fill_message(d.fill));
    let fs = lowered(d, unit_count(d));
    (
        v3,
        seq![m1, m2, m3] + (if fs.len() == 0 {
            Seq::empty()
        } else {
            seq![plain_message(MSG_FILTER, pipeline_message(fs))]
        }) + seq![plain_message(MSG_LAYOUT, layout)],
    )
}

/// Why a dataset cannot be written at all, if so.
pub open spec fn unwritable(d: DatasetView) -> Option<Seq<char>> {
    if d.lazy is Some {
        Some("internal: lazy dataset not materialized before serialization"@)
    } else if elements(d.is_null, d.is_scalar, d.dims) > u64::MAX {
        Some("too many elements"@)
    } else if unit_count(d) > u64::MAX {
        Some("chunk too large"@)
    } else if overfull(d.dtype, d.vlen) {
        Some("too many variable-length payloads"@)
    } else {
        None
    }
}

/// An image with the payloads of a dataset behind it, and its elements as they are
/// stored.
pub open spec fn dataset_cells(s: Seq<u8>, d: DatasetView) -> (Seq<u8>, Seq<u8>) {
    cells_written(s, d.dtype, elements(d.is_null, d.is_scalar, d.dims), d.data, d.vlen)
}

/// An image with a dataset behind it, given its stored chunks.
pub open spec fn dataset_written(
    w: ImageOut,
    n: NodeView,
    d: DatasetView,
    chunks: Result<Seq<Seq<u8>>, Seq<char>>,
) -> Written {
    let (s, data) = dataset_cells(w.buf, d);
    match layout_written(s, d, data, chunks) {
        Err(e) => Err(e),
        Ok((s1, layout)) => {
            let (stores, ms) = dataset_messages(w.stores, d, layout);
            match finished(ImageOut { buf: s1, stores, ..w }, n, ms) {
                Err(e) => Err(e),
                Ok((w1, addr)) => Ok((w1, bare_ref(addr))),
            }
        },
    }
}

/// Whether `out` is what writing a dataset gives.
#[verifier::opaque]
pub open spec fn dataset_writes(
    w: ImageOut,
    n: NodeView,
    d: DatasetView,
    given: Option<Seq<Seq<u8>>>,
    out: Written,
) -> bool {
    match unwritable(d) {
        Some(e) => out == Err::<(ImageOut, Ref), Seq<char>>(e),
        None => exists|chunks: Result<Seq<Seq<u8>>, Seq<char>>| #[trigger]
            stored_as(d, dataset_cells(w.buf, d).1, given, chunks) && out == dataset_written(
                w,
                n,
                d,
                chunks,
            ),
    }
}

proof fn lemma_unwritable(
    w: ImageOut,
    n: NodeView,
    d: DatasetView,
    given: Option<Seq<Seq<u8>>>,
    e: Seq<char>,
)
    requires
        unwritable(d) == Some(e),
    ensures
        dataset_writes(w, n, d, given, Err(e)),
{
    reveal(dataset_writes);
}

proof fn lemma_dataset_writes(
    w: ImageOut,
    n: NodeView,
    d: DatasetView,
    given: Option<Seq<Seq<u8>>>,
    chunks: Result<Seq<Seq<u8>>, Seq<char>>,
)
    requires
        unwritable(d) is None,
        stored_as(d, dataset_cells(w.buf, d).1, given, chunks),
    ensures
        dataset_writes(w, n, d, given, dataset_written(w, n, d, chunks)),
{
    reveal(dataset_writes);
}

/// Whether a dataset has a type with a size and no more dimensions than a message can
/// hold.
pub open spec fn dataset_sound(d: DatasetView) -> bool {
    d.dtype.sized() && d.dims.len() <= 255
}

/// The view of given chunks.
pub open spec fn given_view(g: Option<Vec<Vec<u8>>>) -> Option<Seq<Seq<u8>>> {
    match g {
        Some(v) => Some(views_of(v@)),
        None => None,
    }
}

fn copy_all(v: &Vec<Vec<u8>>) -> (r: Vec<Vec<u8>>)
    ensures
        views_of(r@) == views_of(v@),
{
    let mut out: Vec<Vec<u8>> = Vec::new();
    let mut i: usize = 0;
    while i < v.len()
        invariant
            i <= v@.len(),
            out@.len() == i,
            forall|k: int| 0 <= k < i ==> (#[trigger] out@[k])@ == v@[k]@,
        decreases v@.len() - i,
    {
        out.push(vstd::slice::slice_to_vec(v[i].as_slice()));
        i += 1;
    }
    assert(views_of(out@) =~= views_of(v@));
    out
}

/// The stored chunks of a dataset.
fn chunks_of(
    d: &DatasetData,
    c: &Vec<u64>,
    data: &Vec<u8>,
    filters: &Vec<RawFilter>,
    size: usize,
    given: &Option<Vec<Vec<u8>>>,
) -> (r: Result<Vec<Vec<u8>>, Error>)
    requires
        d@.layout == LayoutKind::Chunked(c@),
        size == d.dtype@.disk_size(),
        filter_views(filters@) == lowered(d@, unit_count(d@)),
    ensures
        stored_as(
            d@,
            data@,
            given_view(*given),
            match r {
                Ok(v) => Ok(views_of(v@)),
                Err(e) => Err(e@),
            },
        ),
        r matches Ok(v) ==> cut_of(d@, c@, data@).total() == Ok::<nat, Seq<char>>(v@.len()),
{
    let ghost cut = cut_of(d@, c@, data@);
    reveal(stored_as);
    match given {
        Some(v) => {
            match crate::format::chunk_index::size_of_chunk(d.dims.as_slice(), c.as_slice(), size) {
                Err(e) => {
                    return Err(e);
                },
                Ok(_) => {},
            }
            match checked_count(d.dims.as_slice()) {
                None => {
                    return Err(Error::new("too many elements"));
                },
                Some(_) => {},
            }
            let grid = crate::format::chunk_index::Grid::new(d.dims.as_slice(), c.as_slice())?;
            assert(cut.total() == Ok::<nat, Seq<char>>(grid.total as nat));
            if v.len() as u64 == grid.total {
                let out = copy_all(v);
                assert(views_of(out@).len() == out@.len());
                assert(views_of(v@).len() == v@.len());
                Ok(out)
            } else {
                Err(Error::new("chunk count mismatch"))
            }
        },
        None => {
            let none: Vec<Vec<u8>> = Vec::new();
            assert(views_of(none@) =~= Seq::empty());
            match filter_chunks(
                data.as_slice(),
                d.dims.as_slice(),
                c.as_slice(),
                size,
                filters.as_slice(),
                none,
            ) {
                Err(e) => {
                    proof {
                        if cut.total() is Ok {
                            let i = choose|i: nat|
                                0 <= i < cut.total()->Ok_0 && #[trigger] cut.filtered(i, Err(e@));
                            assert(cut.filtered(i, Err(e@)));
                        }
                    }
                    Err(e)
                },
                Ok(ChunksOut::Done(v)) => Ok(v),
                Ok(ChunksOut::Float { stored, next, cells }) => {
                    assert(cut.filtered(
                        stored@.len(),
                        applied_view(Ok(Applied::Float { next, cells })),
                    ));
                    Err(Error::new("floating-point scaling of a chunk"))
                },
            }
        },
    }
}

fn push_words(b: &mut Buf, v: &Vec<u64>)
    ensures
        final(b)@ == old(b)@ + words32(v@.map_values(|c: u64| word(c as nat))),
{
    let ghost start = b@;
    let ghost ws = v@.map_values(|c: u64| word(c as nat));
    let mut i: usize = 0;
    assert(start + words32(ws.take(0)) =~= start);
    while i < v.len()
        invariant
            i <= v@.len(),
            ws == v@.map_values(|c: u64| word(c as nat)),
            b@ == start + words32(ws.take(i as int)),
        decreases v@.len() - i,
    {
        let w: u32 = (v[i] % 0x1_0000_0000) as u32;
        b.u32(w);
        proof {
            assert(ws[i as int] == w);
            assert(ws.take(i + 1).drop_last() =~= ws.take(i as int));
            assert(b@ =~= start + words32(ws.take(i + 1)));
        }
        i += 1;
    }
    assert(ws.take(ws.len() as int) =~= ws);
}

/// Writes mappings and returns the layout message.
fn write_mappings(buf: &mut Vec<u8>, maps: &Vec<VdsMapping>) -> (r: Result<Vec<u8>, Error>)
    ensures
        match (r, vds_encoded(mapping_views(maps@))) {
            (Ok(m), Ok(blob)) => {
                &&& final(buf)@ == appended(old(buf)@, collection_message(seq![blob]))
                &&& m@ == mapped_message(end_of(old(buf)@))
                &&& extends(final(buf)@, old(buf)@)
            },
            (Err(e), Err(x)) => e@ == x,
            _ => false,
        },
{
    let blob: Vec<u8> = encode_vds_blob(maps.as_slice())?;
    let ghost bytes = blob@;
    let store: Vec<Vec<u8>> = vec![blob];
    assert(payloads(store@) =~= seq![bytes]);
    let ghost s = buf@;
    let heap: u64 = write_gheap(buf, &store);
    proof {
        lemma_appended(s, collection_message(payloads(store@)));
    }
    let mut m = Buf::new();
    m.u8(4);
    m.u8(3);
    m.u64(heap);
    m.u32(1);
    assert(m@ =~= mapped_message(heap));
    Ok(m.bytes)
}

/// Writes elements in one block and returns the layout message.
fn write_block(buf: &mut Vec<u8>, data: &Vec<u8>, count: u64, size: usize) -> (r: Vec<u8>)
    ensures
        (final(buf)@, r@) == (if data@.len() == 0 {
            (old(buf)@, block_message(UNDEF, (count * size) as nat))
        } else {
            (appended(old(buf)@, data@), block_message(end_of(old(buf)@), data@.len()))
        }),
        extends(final(buf)@, old(buf)@),
{
    let ghost s = buf@;
    let mut m = Buf::new();
    m.u8(3);
    m.u8(1);
    if data.len() == 0 {
        m.u64(UNDEF);
        proof {
            assert(count * size <= u64::MAX * u64::MAX) by (nonlinear_arith)
                requires
                    count <= u64::MAX,
                    size <= u64::MAX,
            ;
            assert(count * size >= 0) by (nonlinear_arith);
            lemma_pow256();
            lemma_le_bytes_residue((count * size) as nat, 8, 8);
            assert(s.take(s.len() as int) =~= s);
        }
        let bytes: u64 = ((count as u128 * size as u128) % 0x1_0000_0000_0000_0000) as u64;
        m.u64(bytes);
        assert(m@ =~= block_message(UNDEF, (count * size) as nat));
    } else {
        let addr: u64 = append(buf, data.as_slice());
        proof {
            lemma_appended(s, data@);
        }
        m.u64(addr);
        m.u64(data.len() as u64);
        assert(m@ =~= block_message(addr, data@.len()));
    }
    m.bytes
}

/// Writes stored chunks and returns the layout message.
fn write_chunked(buf: &mut Vec<u8>, dims: &Vec<u64>, c: &Vec<u64>, size: usize, v: &Vec<Vec<u8>>)
    -> (r: Result<Vec<u8>, Error>)
    requires
        dims@.len() <= 255,
        c@.len() == dims@.len(),
        !has_zero(c@),
        v@.len() == count(chunk_counts(dims@, c@)),
    ensures
        match (r, chunks_written(old(buf)@, dims@, c@, size as nat, views_of(v@))) {
            (Ok(m), Ok(y)) => {
                &&& final(buf)@ == y.0
                &&& m@ == chunked_message(dims@.len(), y.1, c@, size as nat)
                &&& extends(final(buf)@, old(buf)@)
            },
            (Err(e), Err(x)) => e@ == x,
            _ => false,
        },
{
    let tree: u64 = write_chunks(buf, dims.as_slice(), c.as_slice(), size, v)?;
    let mut m = Buf::new();
    m.u8(3);
    m.u8(2);
    push_le(&mut m.bytes, dims.len() as u64 + 1, 1);
    m.u64(tree);
    push_words(&mut m, c);
    push_le(&mut m.bytes, size as u64, 4);
    assert(m@ =~= chunked_message(dims@.len(), tree, c@, size as nat));
    Ok(m.bytes)
}

/// Whether the elements of a dataset were written as a specification says.
pub open spec fn layout_as(
    r: Result<Vec<u8>, Error>,
    before: Seq<u8>,
    after: Seq<u8>,
    expected: Result<(Seq<u8>, Seq<u8>), Seq<char>>,
) -> bool {
    match (r, expected) {
        (Ok(x), Ok(y)) => after == y.0 && x@ == y.1 && extends(after, before),
        (Err(e), Err(y)) => e@ == y,
        _ => false,
    }
}

/// Writes the elements of a dataset and returns the layout message.
fn write_layout(
    buf: &mut Vec<u8>,
    d: &DatasetData,
    data: &Vec<u8>,
    count: u64,
    filters: &Vec<RawFilter>,
    given: &Option<Vec<Vec<u8>>>,
) -> (r: Result<Vec<u8>, Error>)
    requires
        dataset_sound(d@),
        count == elements(d.is_null, d.is_scalar, d.dims@),
        filter_views(filters@) == lowered(d@, unit_count(d@)),
    ensures
        exists|chunks: Result<Seq<Seq<u8>>, Seq<char>>| #[trigger]
            stored_as(d@, data@, given_view(*given), chunks) && layout_as(
                r,
                old(buf)@,
                final(buf)@,
                layout_written(old(buf)@, d@, data@, chunks),
            ),
{
    let ghost g = given_view(*given);
    let size: usize = disk_size(&d.dtype);
    match &d.layout {
        LayoutClass::Virtual(maps) => {
            assert(stored_as(d@, data@, g, Ok(Seq::empty()))) by {
                reveal(stored_as);
            }
            write_mappings(buf, maps)
        },
        LayoutClass::Chunked(c) => {
            match chunks_of(d, c, data, filters, size, given) {
                Err(e) => {
                    assert(stored_as(d@, data@, g, Err(e@)));
                    Err(e)
                },
                Ok(v) => {
                    assert(stored_as(d@, data@, g, Ok(views_of(v@))));
                    write_chunked(buf, &d.dims, c, size, &v)
                },
            }
        },
        _ => {
            assert(stored_as(d@, data@, g, Ok(Seq::empty()))) by {
                reveal(stored_as);
            }
            Ok(write_block(buf, data, count, size))
        },
    }
}

impl Output {
    fn share_messages(&mut self, d: &DatasetData, filters: &Vec<RawFilter>, layout: Vec<u8>) -> (r:
        Vec<OutMessage>)
        requires
            old(self)@.wf(),
            d.dtype@.sized(),
            filter_views(filters@) == lowered(d@, unit_count(d@)),
            crate::format::encode::names_fit(filter_views(filters@)),
        ensures
            ({
                let (stores, ms) = dataset_messages(old(self)@.stores, d@, layout@);
                final(self)@ == (ImageOut { stores, ..old(self)@ }) && out_views(r@) == ms
            }),
            final(self)@.wf(),
            all_known(out_views(r@), final(self)@.stores),
    {
        let ghost w = self@;
        let m1 = maybe_share(
            &mut self.stores,
            MSG_DATASPACE,
            encode_dataspace(
                d.dims.as_slice(),
                d.maxdims.as_slice(),
                d.is_scalar,
                d.is_null,
            ),
        );
        let ghost v1 = store_views(self.stores@);
        let m2 = maybe_share(&mut self.stores, MSG_DATATYPE, encode(&d.dtype));
        let ghost v2 = store_views(self.stores@);
        let m3 = maybe_share(&mut self.stores, MSG_FILL, encode_fill(&d.fill));
        let ghost v3 = store_views(self.stores@);
        let ghost (x1, x2, x3) = (m1@, m2@, m3@);
        let mut ms: Vec<OutMessage> = vec![m1, m2, m3];
        let ghost first = out_views(ms@);
        assert(first =~= seq![x1, x2, x3]);
        if filters.len() > 0 {
            let body = encode_filter_pipeline(filters.as_slice());
            ms.push(plain(MSG_FILTER, body));
        }
        let ghost second = out_views(ms@);
        assert(filter_views(filters@).len() == filters@.len());
        assert(second =~= first + (if filters@.len() == 0 {
            Seq::empty()
        } else {
            seq![plain_message(MSG_FILTER, pipeline_message(lowered(d@, unit_count(d@))))]
        }));
        ms.push(plain(MSG_LAYOUT, layout));
        let ghost all = out_views(ms@);
        proof {
            assert(all =~= second + seq![plain_message(MSG_LAYOUT, layout@)]);
            assert(message_known(x1, v3)) by {
                assert(stores_grow(v2, v1) && stores_grow(v3, v2));
                if x1.shared is Some {
                    let place = x1.shared->0;
                    let ix = place.0 as int;
                    assert(v2[ix].objects.len() >= v1[ix].objects.len());
                    assert(v3[ix].objects.len() >= v2[ix].objects.len());
                }
            }
            assert(message_known(x2, v3)) by {
                if x2.shared is Some {
                    let place = x2.shared->0;
                    let ix = place.0 as int;
                    assert(v3[ix].objects.len() >= v2[ix].objects.len());
                }
            }
            assert forall|i: int| 0 <= i < all.len() implies message_known(
                #[trigger] all[i],
                v3,
            ) by {
                if i < 3 {
                    assert(all[i] == first[i]);
                }
            }
            let ps = w.patches;
            assert forall|i: int| 0 <= i < ps.len() implies (#[trigger] ps[i]).index < v3.len()
                && ps[i].item < v3[ps[i].index as int].objects.len() by {
                let ix = ps[i].index as int;
                assert(v1[ix].objects.len() >= w.stores[ix].objects.len());
                assert(v2[ix].objects.len() >= v1[ix].objects.len());
                assert(v3[ix].objects.len() >= v2[ix].objects.len());
            }
        }
        ms
    }

    /// Writes a dataset.
    pub fn write_dataset(
        &mut self,
        n: &ObjectNode,
        d: &DatasetData,
        given: &Option<Vec<Vec<u8>>>,
    ) -> (r: Result<Ref, Error>)
        requires
            old(self)@.wf(),
            dataset_sound(d@),
            attrs_sized(attr_views(n.attrs@)),
        ensures
            exists|out: Written| #[trigger]
                dataset_writes(old(self)@, n@, d@, given_view(*given), out) && object_as(
                    r,
                    final(self)@,
                    out,
                ),
            r is Ok ==> final(self)@.wf() && extends(final(self)@.buf, old(self)@.buf)
                && final(self)@.memo == old(self)@.memo,
    {
        let ghost w = self@;
        let ghost g = given_view(*given);
        let ghost cells = dataset_cells(w.buf, d@);
        if d.lazy.is_some() {
            let e = Error::new("internal: lazy dataset not materialized before serialization");
            proof {
                lemma_unwritable(w, n@, d@, g, e@);
            }
            return Err(e);
        }
        let count: u64 = match whole_count(d.is_null, d.is_scalar, d.dims.as_slice()) {
            Some(x) => x,
            None => {
                let e = Error::new("too many elements");
                proof {
                    lemma_unwritable(w, n@, d@, g, e@);
                }
                return Err(e);
            },
        };
        let whole: u64 = match &d.layout {
            LayoutClass::Chunked(c) => match checked_count(c.as_slice()) {
                Some(x) => x,
                None => {
                    let e = Error::new("chunk too large");
                    proof {
                        lemma_unwritable(w, n@, d@, g, e@);
                    }
                    return Err(e);
                },
            },
            _ => count,
        };
        let units: u64 = if whole == 0 {
            1
        } else {
            whole
        };
        if is_overfull(&d.dtype, &d.vlen) {
            let e = Error::new("too many variable-length payloads");
            proof {
                lemma_unwritable(w, n@, d@, g, e@);
            }
            return Err(e);
        }
        assert(unwritable(d@) is None);
        let data: Vec<u8> = write_cells(
            &mut self.buf,
            &d.dtype,
            Some(count),
            &d.data,
            &d.vlen,
            Ghost(count as nat),
        );
        let ghost w1 = self@;
        assert(w1 == (ImageOut { buf: cells.0, ..w }));
        let filters: Vec<RawFilter> = lower_filters(d, units);
        let layout = write_layout(&mut self.buf, d, &data, count, &filters, given);
        let ghost w2 = self@;
        let ghost chunks = choose|chunks: Result<Seq<Seq<u8>>, Seq<char>>| #[trigger]
            stored_as(d@, data@, g, chunks) && layout_as(
                layout,
                w1.buf,
                w2.buf,
                layout_written(w1.buf, d@, data@, chunks),
            );
        let ghost out = dataset_written(w, n@, d@, chunks);
        proof {
            lemma_dataset_writes(w, n@, d@, g, chunks);
        }
        match layout {
            Err(e) => Err(e),
            Ok(m) => {
                proof {
                    lemma_extends(w.buf, w1.buf, w2.buf);
                }
                let ms = self.share_messages(d, &filters, m);
                let ghost w3 = self@;
                match self.finish(n, ms) {
                    Err(e) => {
                        assert(object_as(Err(e), self@, out));
                        Err(e)
                    },
                    Ok(addr) => {
                        proof {
                            lemma_extends(w.buf, w2.buf, self@.buf);
                        }
                        let r = Ref { oh_addr: addr, cache_type: 0, btree: UNDEF, heap: UNDEF };
                        assert(object_as(Ok(r), self@, out));
                        Ok(r)
                    },
                }
            },
        }
    }
}

} // verus!
