//! Datasets: their creation, their chunks and their size.

use vstd::prelude::*;

use crate::error::{same_unit, Error};
use crate::format::chunk_write::gather_chunk;
use crate::format::chunks::gathered;
use crate::format::convert::{disk_size, zero_bytes};
use crate::format::grid::{
    as_nats, checked_count, coordinates, coords_of, count, countable, step_sizes,
};
use crate::format::vds::{mapping_views, point_views, MappingView, SerSelection, Slab, VdsMapping};
use crate::format::zeroes;
use crate::hl::extents::{Extents, ExtentsView, Ix};
use crate::hl::filters::{Filter, FilterKind};
use crate::hl::group::{
    between, has_link, link_place, linked, named_error, new_link, ordered, recounted_object,
    with_object, Group,
};
use crate::hl::hyperslab::RawSlice;
use crate::hl::points::{wide, widen, RawSelection, RawView};
use crate::hl::selection::{Selection, SelectionView};
use crate::model::{
    bare_node, count_elements, elements, filter_kinds, DatasetData, DatasetView, FileState,
    FileView, FillValue, FillView, KindView, LayoutClass, LayoutKind, Link, LinkTarget, NodeView,
    ObjId, ObjectKind, TargetView,
};
use crate::text::{decimal, join, with_number};
use crate::types::{TypeDescriptor, TypeView};

verus! {

/// The chunks of a new dataset.
#[derive(Debug)]
pub enum Chunk {
    /// Chunks of exactly this shape.
    Exact(Vec<Ix>),
    /// Chunks of about this size in units of 1024 bytes.
    MinKB(usize),
    /// No chunks.
    Unchunked,
}

/// The view of a [`Chunk`].
pub enum ChunkChoice {
    Exact(Seq<usize>),
    MinKB(nat),
    Unchunked,
}

impl View for Chunk {
    type V = ChunkChoice;

    open spec fn view(&self) -> ChunkChoice {
        match *self {
            Chunk::Exact(c) => ChunkChoice::Exact(c@),
            Chunk::MinKB(n) => ChunkChoice::MinKB(n as nat),
            Chunk::Unchunked => ChunkChoice::Unchunked,
        }
    }
}

/// A mapping of elements of a virtual dataset to elements of a source.
#[derive(Debug)]
pub struct VirtualMapping {
    pub src_filename: String,
    pub src_dataset: String,
    pub src_extents: Extents,
    pub src_selection: Selection,
    pub vds_extents: Extents,
    pub vds_selection: Selection,
}

/// The view of a [`VirtualMapping`].
pub struct VirtualView {
    pub src_filename: Seq<char>,
    pub src_dataset: Seq<char>,
    pub src_extents: ExtentsView,
    pub src_selection: SelectionView,
    pub vds_extents: ExtentsView,
    pub vds_selection: SelectionView,
}

impl View for VirtualMapping {
    type V = VirtualView;

    open spec fn view(&self) -> VirtualView {
        VirtualView {
            src_filename: self.src_filename@,
            src_dataset: self.src_dataset@,
            src_extents: self.src_extents@,
            src_selection: self.src_selection@,
            vds_extents: self.vds_extents@,
            vds_selection: self.vds_selection@,
        }
    }
}

/// The views of mappings.
pub open spec fn virtual_views(v: Seq<VirtualMapping>) -> Seq<VirtualView> {
    v.map_values(|m: VirtualMapping| m@)
}

/// A file outside with data of a dataset.
#[derive(Debug)]
pub struct ExternalFile {
    pub name: String,
    pub offset: usize,
    pub size: usize,
}

/// What a new dataset is made of.
#[derive(Debug)]
pub struct DatasetPlan {
    /// The type of the elements, as in a file.
    pub dtype: TypeDescriptor,
    pub extents: Extents,
    pub filters: Vec<Filter>,
    pub external: Vec<ExternalFile>,
    pub virtual_maps: Vec<VirtualMapping>,
    pub chunk: Option<Chunk>,
    /// The bytes of the fill value as in a file, or why it could not be converted.
    pub fill: Option<Result<Vec<u8>, String>>,
}

/// The view of a [`DatasetPlan`].
pub struct PlanView {
    pub dtype: TypeView,
    pub extents: ExtentsView,
    pub filters: Seq<FilterKind>,
    pub external: bool,
    pub maps: Seq<VirtualView>,
    pub chunk: Option<ChunkChoice>,
    pub fill: Option<Result<Seq<u8>, Seq<char>>>,
}

impl View for DatasetPlan {
    type V = PlanView;

    open spec fn view(&self) -> PlanView {
        PlanView {
            dtype: self.dtype@,
            extents: self.extents@,
            filters: filter_kinds(self.filters@),
            external: self.external@.len() > 0,
            maps: virtual_views(self.virtual_maps@),
            chunk: match self.chunk {
                None => None,
                Some(c) => Some(c@),
            },
            fill: match self.fill {
                None => None,
                Some(Ok(v)) => Some(Ok(v@)),
                Some(Err(e)) => Some(Err(e@)),
            },
        }
    }
}

impl PlanView {
    /// The sizes of the dimensions.
    pub open spec fn dims(self) -> Seq<u64> {
        wide(self.extents.dims())
    }

    /// The maximal sizes.
    pub open spec fn maxdims(self) -> Seq<Option<u64>> {
        wide_max(self.extents.maxdims())
    }

    /// Whether a dimension has no maximum.
    pub open spec fn resizable(self) -> bool {
        exists|i: int|
            0 <= i < self.extents.maxdims().len() && #[trigger] self.extents.maxdims()[i] is None
    }

    /// The number of elements.
    pub open spec fn total(self) -> nat {
        elements(self.extents is Null, self.extents is Scalar, self.dims())
    }

    /// Whether the elements can be counted, and their bytes held in memory.
    pub open spec fn holdable(self) -> bool {
        &&& self.extents is Simple ==> countable(self.dims())
        &&& self.total() * self.dtype.disk_size() <= usize::MAX
    }

    /// Whether the type has a size, the fill value has it too, and points have as many
    /// coordinates as they say.
    pub open spec fn sound(self) -> bool {
        &&& self.dtype.sized()
        &&& self.fill matches Some(Ok(v)) ==> v.len() == self.dtype.disk_size()
        &&& forall|i: int|
            0 <= i < self.maps.len() ==> (#[trigger] self.maps[i]).src_selection.sound()
                && self.maps[i].vds_selection.sound()
    }
}

/// Maxima with 64 bits.
pub open spec fn wide_max(v: Seq<Option<usize>>) -> Seq<Option<u64>> {
    v.map_values(
        |m: Option<usize>|
            match m {
                Some(n) => Some(n as u64),
                None => None,
            },
    )
}

/// Checks that filters from `i` on can be written.
pub open spec fn filters_checked(v: Seq<FilterKind>, i: int) -> Result<(), Seq<char>>
    decreases v.len() - i,
{
    if i < 0 || i >= v.len() {
        Ok(())
    } else {
        match v[i].writable() {
            Err(e) => Err(e),
            Ok(_) => filters_checked(v, i + 1),
        }
    }
}

/// A slice as it is stored.
pub open spec fn slab_of(s: RawSlice) -> Slab {
    (
        s.start as u64,
        s.step as u64,
        match s.count {
            Some(c) => Some(c as u64),
            None => None,
        },
        s.block as u64,
    )
}

/// A selection of an array as it is stored.
pub open spec fn stored_selection(sel: SelectionView, dims: Seq<usize>) -> Result<
    crate::format::vds::SelectionView,
    Seq<char>,
> {
    match sel.raw(dims) {
        Err(e) => Err(e),
        Ok(RawView::All) => Ok(crate::format::vds::SelectionView::All),
        Ok(RawView::Nothing) => Ok(crate::format::vds::SelectionView::Nothing),
        Ok(RawView::Regular(h)) => Ok(
            crate::format::vds::SelectionView::Regular(h.map_values(|s: RawSlice| slab_of(s))),
        ),
        Ok(RawView::Points(p)) => Ok(
            crate::format::vds::SelectionView::Points(
                p.rows.map_values(|r: Seq<usize>| wide(r)),
            ),
        ),
        Ok(RawView::Complex) => Err("complex hyperslabs cannot be written"@),
    }
}

/// The mappings from `i` on as they are stored, behind `acc`.
pub open spec fn maps_stored(
    maps: Seq<VirtualView>,
    dims: Seq<usize>,
    i: int,
    acc: Seq<MappingView>,
) -> Result<Seq<MappingView>, Seq<char>>
    decreases maps.len() - i,
{
    if i < 0 || i >= maps.len() {
        Ok(acc)
    } else {
        let m = maps[i];
        match stored_selection(m.src_selection, m.src_extents.dims()) {
            Err(e) => Err(e),
            Ok(src) => match stored_selection(m.vds_selection, dims) {
                Err(e) => Err(e),
                Ok(virt) => maps_stored(
                    maps,
                    dims,
                    i + 1,
                    acc.push(
                        MappingView {
                            source_file: m.src_filename,
                            source_dset: m.src_dataset,
                            src_sel: src,
                            virt_sel: virt,
                        },
                    ),
                ),
            },
        }
    }
}

// Chunks.

/// The sum of sizes.
pub open spec fn sum(c: Seq<u64>) -> nat
    decreases c.len(),
{
    if c.len() == 0 {
        0
    } else {
        sum(c.drop_last()) + c.last() as nat
    }
}

pub(crate) proof fn lemma_sum_update(c: Seq<u64>, i: int, v: u64)
    requires
        0 <= i < c.len(),
    ensures
        sum(c.update(i, v)) == sum(c) - c[i] + v,
    decreases c.len(),
{
    let d = c.update(i, v);
    if i == c.len() - 1 {
        assert(d.drop_last() =~= c.drop_last());
    } else {
        lemma_sum_update(c.drop_last(), i, v);
        assert(d.drop_last() =~= c.drop_last().update(i, v));
    }
}

/// The last of the largest among the first `n` sizes.
pub open spec fn largest(c: Seq<u64>, n: nat) -> nat
    decreases n,
{
    if n <= 1 {
        0
    } else {
        let k = largest(c, (n - 1) as nat);
        if c[n - 1] >= c[k as int] {
            (n - 1) as nat
        } else {
            k
        }
    }
}

pub(crate) proof fn lemma_largest(c: Seq<u64>, n: nat)
    requires
        0 < n <= c.len(),
    ensures
        largest(c, n) < n,
    decreases n,
{
    if n > 1 {
        lemma_largest(c, (n - 1) as nat);
    }
}

/// Half of a size, rounded up.
pub open spec fn half(n: u64) -> u64 {
    ((n + 1) / 2) as u64
}

/// Halves the largest size until a chunk has at most `limit` bytes, or one element.
pub open spec fn halved(c: Seq<u64>, esize: nat, limit: nat) -> Seq<u64>
    decreases sum(c),
    via halved_shrinks
{
    if count(c) * esize <= limit || c.len() == 0 {
        c
    } else {
        let i = largest(c, c.len()) as int;
        if c[i] <= 1 {
            c
        } else {
            halved(c.update(i, half(c[i])), esize, limit)
        }
    }
}

#[via_fn]
proof fn halved_shrinks(c: Seq<u64>, esize: nat, limit: nat) {
    if c.len() > 0 {
        lemma_largest(c, c.len());
        let i = largest(c, c.len()) as int;
        lemma_sum_update(c, i, half(c[i]));
    }
}

/// Sizes, at least one.
pub open spec fn at_least_one(dims: Seq<u64>) -> Seq<u64> {
    dims.map_values(
        |d: u64|
            if d == 0 {
                1u64
            } else {
                d
            },
    )
}

/// The shape of chunks of at most `min_bytes` bytes, or of one element.
pub open spec fn auto_chunked(dims: Seq<u64>, esize: nat, min_bytes: nat) -> Seq<u64> {
    halved(
        at_least_one(dims),
        esize,
        if min_bytes > esize {
            min_bytes
        } else {
            esize
        },
    )
}

fn raise_dims(dims: &[u64]) -> (r: Vec<u64>)
    ensures
        r@ == at_least_one(dims@),
{
    let n: usize = dims.len();
    let mut out: Vec<u64> = Vec::new();
    let mut i: usize = 0;
    while i < n
        invariant
            i <= n == dims@.len(),
            out@ =~= at_least_one(dims@).take(i as int),
        decreases n - i,
    {
        out.push(
            if dims[i] == 0 {
                1
            } else {
                dims[i]
            },
        );
        i += 1;
    }
    assert(out@ =~= at_least_one(dims@));
    out
}

fn largest_of(c: &Vec<u64>) -> (r: usize)
    requires
        c@.len() > 0,
    ensures
        r == largest(c@, c@.len()),
        r < c@.len(),
{
    let n: usize = c.len();
    let mut k: usize = 0;
    let mut i: usize = 1;
    while i < n
        invariant
            1 <= i <= n == c@.len(),
            k < i,
            k == largest(c@, i as nat),
        decreases n - i,
    {
        if c[i] >= c[k] {
            k = i;
        }
        i += 1;
    }
    k
}

/// Whether chunks have at most `limit` bytes.
fn chunk_fits(c: &Vec<u64>, esize: usize, limit: usize) -> (r: bool)
    ensures
        r == (count(c@) * esize as nat <= limit),
{
    if esize == 0 {
        assert(count(c@) * esize as nat == 0) by (nonlinear_arith)
            requires
                esize == 0,
        ;
        return true;
    }
    match checked_count(c.as_slice()) {
        None => {
            assert(count(c@) * esize as nat >= count(c@)) by (nonlinear_arith)
                requires
                    esize >= 1,
            ;
            false
        },
        Some(n) => {
            assert(n as int * esize as int <= 0xffff_ffff_ffff_ffff * 0xffff_ffff_ffff_ffff)
                by (nonlinear_arith)
                requires
                    0 <= n as int <= 0xffff_ffff_ffff_ffff,
                    0 <= esize as int <= 0xffff_ffff_ffff_ffff,
            ;
            n as u128 * esize as u128 <= limit as u128
        },
    }
}

/// The shape of chunks of at most `kb` times 1024 bytes, or of one element.
fn auto_chunk(dims: &[u64], esize: usize, kb: usize) -> (r: Vec<u64>)
    requires
        kb * 1024 <= usize::MAX,
    ensures
        r@ == auto_chunked(dims@, esize as nat, kb as nat * 1024),
{
    let bytes: usize = kb * 1024;
    let limit: usize = if bytes > esize {
        bytes
    } else {
        esize
    };
    let mut c = raise_dims(dims);
    let ghost whole = halved(c@, esize as nat, limit as nat);
    while c.len() > 0 && !chunk_fits(&c, esize, limit)
        invariant_except_break
            whole == halved(c@, esize as nat, limit as nat),
        ensures
            whole == c@,
        decreases sum(c@),
    {
        let i: usize = largest_of(&c);
        let d: u64 = c[i];
        if d <= 1 {
            break;
        }
        proof {
            lemma_sum_update(c@, i as int, half(d));
        }
        c.set(i, d / 2 + d % 2);
    }
    c
}

/// The layout of a new dataset.
pub open spec fn layout_chosen(p: PlanView) -> Result<LayoutKind, Seq<char>> {
    let flat = p.extents is Null || p.extents is Scalar;
    match p.chunk {
        Some(ChunkChoice::Unchunked) => if p.resizable() {
            Err("resizable datasets require chunking"@)
        } else if p.filters.len() > 0 {
            Err("filtered datasets require chunking"@)
        } else {
            Ok(LayoutKind::Contiguous)
        },
        Some(ChunkChoice::Exact(c)) => if c.len() != p.dims().len() {
            Err(
                "chunk rank "@ + decimal(c.len()) + " != dataset rank "@ + decimal(p.dims().len()),
            )
        } else if exists|i: int| 0 <= i < c.len() && #[trigger] c[i] == 0 {
            Err("chunk dimensions must be positive"@)
        } else {
            Ok(LayoutKind::Chunked(wide(c)))
        },
        Some(ChunkChoice::MinKB(kb)) => if kb * 1024 > usize::MAX {
            Err("chunk size too large"@)
        } else {
            Ok(LayoutKind::Chunked(auto_chunked(p.dims(), p.dtype.disk_size(), kb * 1024)))
        },
        None => if flat {
            if p.filters.len() > 0 || p.resizable() {
                Err("scalar datasets cannot be chunked"@)
            } else {
                Ok(LayoutKind::Contiguous)
            }
        } else if p.filters.len() > 0 || p.resizable() {
            Ok(LayoutKind::Chunked(at_least_one(p.dims())))
        } else {
            Ok(LayoutKind::Contiguous)
        },
    }
}

/// `n` copies of a value.
pub open spec fn repeated(v: Seq<u8>, n: nat) -> Seq<u8>
    decreases n,
{
    if n == 0 {
        Seq::empty()
    } else {
        repeated(v, (n - 1) as nat) + v
    }
}

/// What external storage is answered.
pub open spec fn external_text() -> Seq<char> {
    "external storage (H5Pset_external) is not supported; store the data in the file or use an external link"@
}

/// A new dataset of the given layout.
pub open spec fn laid_out(
    p: PlanView,
    layout: LayoutKind,
    filters: Seq<FilterKind>,
    fill: FillView,
    data: Seq<u8>,
) -> DatasetView {
    DatasetView {
        dtype: p.dtype,
        dims: p.dims(),
        maxdims: p.maxdims(),
        layout,
        filters,
        fill,
        data,
        vlen: Seq::empty(),
        lazy: None,
        is_scalar: p.extents is Scalar,
        is_null: p.extents is Null,
    }
}

/// The dataset that a plan stands for.
pub open spec fn dataset_made(p: PlanView) -> Result<DatasetView, Seq<char>> {
    match filters_checked(p.filters, 0) {
        Err(e) => Err(e),
        Ok(_) => if p.external {
            Err(external_text())
        } else if p.maps.len() > 0 {
            match maps_stored(p.maps, p.extents.dims(), 0, Seq::empty()) {
                Err(e) => Err(e),
                Ok(maps) => if !p.holdable() {
                    Err("dataset too large"@)
                } else {
                    Ok(
                        laid_out(
                            p,
                            LayoutKind::Virtual(maps),
                            Seq::empty(),
                            FillView::Default,
                            zeroes(p.total() * p.dtype.disk_size()),
                        ),
                    )
                },
            }
        } else {
            match layout_chosen(p) {
                Err(e) => Err(e),
                Ok(layout) => if layout is Chunked && (p.extents is Scalar || p.extents is Null) {
                    Err("scalar datasets cannot be chunked"@)
                } else if !p.holdable() {
                    Err("dataset too large"@)
                } else {
                    match p.fill {
                        Some(Err(e)) => Err("invalid fill value: "@ + e),
                        Some(Ok(v)) => Ok(
                            laid_out(
                                p,
                                layout,
                                p.filters,
                                FillView::UserDefined(v),
                                repeated(v, p.total()),
                            ),
                        ),
                        None => Ok(
                            laid_out(
                                p,
                                layout,
                                p.filters,
                                FillView::Default,
                                zeroes(p.total() * p.dtype.disk_size()),
                            ),
                        ),
                    }
                },
            }
        },
    }
}

/// A file with a new dataset that no link leads to.
pub open spec fn dataset_stray(f: FileView, d: DatasetView, time: u32) -> FileView {
    FileView {
        objects: f.objects.push(
            Some(NodeView { mtime: time, ..bare_node(KindView::Dataset(d)) }),
        ),
        ..f
    }
}

/// The group for a new dataset's link and the name of the link. A virtual dataset is
/// linked by its name as it is.
pub open spec fn dataset_place(f: FileView, parent: nat, name: Seq<char>, mapped: bool) -> Result<
    (nat, Seq<char>),
    Seq<char>,
> {
    if mapped {
        Ok((parent, name))
    } else {
        link_place(f, parent, name)
    }
}

/// A file after a dataset was made in it, and the dataset. Where it cannot be linked
/// it stays in the arena without a link.
pub open spec fn dataset_created(
    f: FileView,
    parent: nat,
    name: Option<Seq<char>>,
    p: PlanView,
    time: u32,
) -> (FileView, Result<nat, Seq<char>>) {
    match dataset_made(p) {
        Err(e) => (f, Err(e)),
        Ok(d) => if f.read_only {
            (f, Err("unable to create dataset: file is read-only"@))
        } else {
            let id = f.objects.len();
            let g = dataset_stray(f, d, time);
            match name {
                None => (g, Ok(id)),
                Some(n) => match dataset_place(g, parent, n, p.maps.len() > 0) {
                    Err(e) => (g, Err(e)),
                    Ok((pid, leaf)) => if p.maps.len() == 0 && has_link(g, pid, leaf) {
                        (
                            g,
                            Err(
                                between(
                                    "unable to create dataset: '"@,
                                    leaf,
                                    "' already exists"@,
                                ),
                            ),
                        )
                    } else if g.next_creation_order == i64::MAX {
                        (g, Err("creation order exhausted"@))
                    } else if g.group(pid) is None {
                        (ordered(g), Err("parent is not a group"@))
                    } else {
                        (
                            recounted_object(
                                linked(
                                    ordered(g),
                                    pid,
                                    new_link(g, leaf, TargetView::Hard(id)),
                                ),
                                id,
                                true,
                            ),
                            Ok(id),
                        )
                    },
                },
            }
        },
    }
}

// Making datasets.

pub(crate) fn check_filters(filters: &Vec<Filter>) -> (r: Result<(), Error>)
    ensures
        same_unit(r, filters_checked(filter_kinds(filters@), 0)),
{
    let ghost kinds = filter_kinds(filters@);
    let n: usize = filters.len();
    let mut i: usize = 0;
    while i < n
        invariant
            i <= n == filters@.len(),
            kinds == filter_kinds(filters@),
            filters_checked(kinds, 0) == filters_checked(kinds, i as int),
        decreases n - i,
    {
        assert(kinds[i as int] == filters@[i as int]@);
        if let Err(e) = filters[i].validate_writable() {
            return Err(e);
        }
        i += 1;
    }
    Ok(())
}

/// Whether a selection came out as `s` says.
pub open spec fn same_stored(
    r: Result<SerSelection, Error>,
    s: Result<crate::format::vds::SelectionView, Seq<char>>,
) -> bool {
    match (r, s) {
        (Ok(v), Ok(w)) => v@ == w,
        (Err(e), Err(m)) => e@ == m,
        _ => false,
    }
}

/// A selection of an array as it is stored.
fn store_selection(sel: Selection, dims: &[Ix]) -> (r: Result<SerSelection, Error>)
    requires
        sel@.sound(),
    ensures
        same_stored(r, stored_selection(sel@, dims@)),
{
    match sel.into_raw(dims) {
        Err(e) => Err(e),
        Ok(RawSelection::All) => Ok(SerSelection::All),
        Ok(RawSelection::Nothing) => Ok(SerSelection::Nothing),
        Ok(RawSelection::RegularHyperslab(h)) => {
            let n: usize = h.dims.len();
            let ghost all = h@.map_values(|s: RawSlice| slab_of(s));
            let mut out: Vec<Slab> = Vec::new();
            let mut i: usize = 0;
            while i < n
                invariant
                    i <= n == h.dims@.len(),
                    all == h@.map_values(|s: RawSlice| slab_of(s)),
                    out@ =~= all.take(i as int),
                decreases n - i,
            {
                let s = h.dims[i];
                let count: Option<u64> = match s.count {
                    Some(c) => Some(c as u64),
                    None => None,
                };
                out.push((s.start as u64, s.step as u64, count, s.block as u64));
                i += 1;
            }
            assert(out@ =~= all);
            Ok(SerSelection::Regular(out))
        },
        Ok(RawSelection::Points(p)) => {
            let n: usize = p.rows.len();
            let ghost all = p@.rows.map_values(|r: Seq<usize>| wide(r));
            let mut out: Vec<Vec<u64>> = Vec::new();
            let mut i: usize = 0;
            assert(point_views(out@) =~= all.take(0));
            while i < n
                invariant
                    i <= n == p.rows@.len(),
                    all == p@.rows.map_values(|r: Seq<usize>| wide(r)),
                    out@.len() == i,
                    point_views(out@) == all.take(i as int),
                decreases n - i,
            {
                let row = widen(p.rows[i].as_slice());
                let ghost before = out@;
                out.push(row);
                i += 1;
                assert(p@.rows[i - 1] == p.rows@[i - 1]@);
                assert(point_views(out@) =~= point_views(before).push(row@));
                assert(point_views(out@) =~= all.take(i as int));
            }
            assert(all.take(n as int) =~= all);
            Ok(SerSelection::Points(out))
        },
        Ok(RawSelection::ComplexHyperslab) => Err(
            Error::new("complex hyperslabs cannot be written"),
        ),
    }
}

/// The mappings of a virtual dataset as they are stored.
fn store_maps(maps: &Vec<VirtualMapping>, dims: &[Ix]) -> (r: Result<Vec<VdsMapping>, Error>)
    requires
        forall|i: int|
            0 <= i < maps@.len() ==> (#[trigger] maps@[i]).src_selection@.sound()
                && maps@[i].vds_selection@.sound(),
    ensures
        match (r, maps_stored(virtual_views(maps@), dims@, 0, Seq::empty())) {
            (Ok(v), Ok(w)) => mapping_views(v@) == w,
            (Err(e), Err(m)) => e@ == m,
            _ => false,
        },
{
    let ghost views = virtual_views(maps@);
    let ghost whole = maps_stored(views, dims@, 0, Seq::empty());
    let n: usize = maps.len();
    let mut out: Vec<VdsMapping> = Vec::new();
    let mut i: usize = 0;
    assert(mapping_views(out@) =~= Seq::empty());
    while i < n
        invariant
            i <= n == maps@.len(),
            views == virtual_views(maps@),
            forall|i: int|
                0 <= i < maps@.len() ==> (#[trigger] maps@[i]).src_selection@.sound()
                    && maps@[i].vds_selection@.sound(),
            whole == maps_stored(views, dims@, 0, Seq::empty()),
            whole == maps_stored(views, dims@, i as int, mapping_views(out@)),
        decreases n - i,
    {
        let m = &maps[i];
        assert(views[i as int] == m@);
        let src_sel = match store_selection(m.src_selection.clone(), m.src_extents.dims().as_slice())
        {
            Err(e) => {
                return Err(e);
            },
            Ok(s) => s,
        };
        let virt_sel = match store_selection(m.vds_selection.clone(), dims) {
            Err(e) => {
                return Err(e);
            },
            Ok(s) => s,
        };
        let ghost before = out@;
        let v = VdsMapping {
            source_file: m.src_filename.clone(),
            source_dset: m.src_dataset.clone(),
            src_sel,
            virt_sel,
        };
        out.push(v);
        assert(mapping_views(out@) =~= mapping_views(before).push(v@));
        i += 1;
    }
    Ok(out)
}

/// Maxima with 64 bits.
fn widen_max(v: &[Option<usize>]) -> (r: Vec<Option<u64>>)
    ensures
        r@ == wide_max(v@),
{
    let n: usize = v.len();
    let mut out: Vec<Option<u64>> = Vec::new();
    let mut i: usize = 0;
    while i < n
        invariant
            i <= n == v@.len(),
            out@ =~= wide_max(v@).take(i as int),
        decreases n - i,
    {
        let m: Option<u64> = match v[i] {
            Some(x) => Some(x as u64),
            None => None,
        };
        out.push(m);
        i += 1;
    }
    assert(out@ =~= wide_max(v@));
    out
}

/// Whether a layout came out as `s` says.
pub open spec fn same_layout(r: Result<LayoutClass, Error>, s: Result<LayoutKind, Seq<char>>) -> bool {
    match (r, s) {
        (Ok(v), Ok(w)) => v@ == w,
        (Err(e), Err(m)) => e@ == m,
        _ => false,
    }
}

/// Whether a list has a zero.
fn has_zero(c: &[usize]) -> (r: bool)
    ensures
        r == exists|i: int| 0 <= i < c@.len() && #[trigger] c@[i] == 0,
{
    let n: usize = c.len();
    let mut i: usize = 0;
    while i < n
        invariant
            i <= n == c@.len(),
            forall|j: int| 0 <= j < i ==> #[trigger] c@[j] != 0,
        decreases n - i,
    {
        if c[i] == 0 {
            return true;
        }
        i += 1;
    }
    false
}

/// The layout of a new dataset.
fn choose_layout(plan: &DatasetPlan, dims: &Vec<u64>, esize: usize) -> (r: Result<LayoutClass, Error>)
    requires
        dims@ == plan@.dims(),
        esize == plan@.dtype.disk_size(),
    ensures
        same_layout(r, layout_chosen(plan@)),
{
    let resizable = plan.extents.is_resizable();
    let filtered = plan.filters.len() > 0;
    assert(plan@.filters.len() == plan.filters@.len());
    match &plan.chunk {
        Some(Chunk::Unchunked) => {
            if resizable {
                return Err(Error::new("resizable datasets require chunking"));
            }
            if filtered {
                return Err(Error::new("filtered datasets require chunking"));
            }
            Ok(LayoutClass::Contiguous)
        },
        Some(Chunk::Exact(c)) => {
            if c.len() != dims.len() {
                let head = join(
                    with_number("chunk rank ", c.len() as u64).as_str(),
                    " != dataset rank ",
                );
                return Err(Error::from_text(with_number(head.as_str(), dims.len() as u64)));
            }
            if has_zero(c.as_slice()) {
                return Err(Error::new("chunk dimensions must be positive"));
            }
            Ok(LayoutClass::Chunked(widen(c.as_slice())))
        },
        Some(Chunk::MinKB(kb)) => if *kb > usize::MAX / 1024 {
            Err(Error::new("chunk size too large"))
        } else {
            Ok(LayoutClass::Chunked(auto_chunk(dims.as_slice(), esize, *kb)))
        },
        None => if plan.extents.is_scalar() || plan.extents.is_null() {
            if filtered || resizable {
                Err(Error::new("scalar datasets cannot be chunked"))
            } else {
                Ok(LayoutClass::Contiguous)
            }
        } else if filtered || resizable {
            Ok(LayoutClass::Chunked(raise_dims(dims.as_slice())))
        } else {
            Ok(LayoutClass::Contiguous)
        },
    }
}

proof fn lemma_repeated_len(v: Seq<u8>, n: nat)
    ensures
        repeated(v, n).len() == n * v.len(),
    decreases n,
{
    if n == 0 {
        assert(0 * v.len() == 0) by (nonlinear_arith);
    } else {
        lemma_repeated_len(v, (n - 1) as nat);
        assert((n - 1) * v.len() + v.len() == n * v.len()) by (nonlinear_arith)
            requires
                n >= 1,
        ;
    }
}

/// `n` copies of a value.
fn repeat(v: &Vec<u8>, n: u64) -> (r: Vec<u8>)
    ensures
        r@ == repeated(v@, n as nat),
{
    let mut out: Vec<u8> = Vec::new();
    let mut i: u64 = 0;
    assert(out@ =~= repeated(v@, 0));
    while i < n
        invariant
            i <= n,
            out@ == repeated(v@, i as nat),
        decreases n - i,
    {
        let mut more = vstd::slice::slice_to_vec(v.as_slice());
        out.append(&mut more);
        i += 1;
    }
    out
}

/// The bytes of a dataset's elements, where they can be held.
fn total_bytes(plan: &DatasetPlan, dims: &Vec<u64>, esize: usize) -> (r: Option<(u64, usize)>)
    requires
        dims@ == plan@.dims(),
        esize == plan@.dtype.disk_size(),
    ensures
        r is Some <==> plan@.holdable(),
        r matches Some((n, b)) ==> n == plan@.total() && b == plan@.total() * esize,
{
    let n: u64 = match count_elements(
        plan.extents.is_null(),
        plan.extents.is_scalar(),
        dims.as_slice(),
    ) {
        None => {
            return None;
        },
        Some(n) => n,
    };
    assert(n as int * esize as int <= 0xffff_ffff_ffff_ffff * 0xffff_ffff_ffff_ffff)
        by (nonlinear_arith)
        requires
            0 <= n as int <= 0xffff_ffff_ffff_ffff,
            0 <= esize as int <= 0xffff_ffff_ffff_ffff,
    ;
    let b: u128 = n as u128 * esize as u128;
    if b > usize::MAX as u128 {
        None
    } else {
        Some((n, b as usize))
    }
}

/// Whether a dataset came out as `s` says.
pub open spec fn same_dataset(r: Result<DatasetData, Error>, s: Result<DatasetView, Seq<char>>) -> bool {
    match (r, s) {
        (Ok(v), Ok(w)) => v@ == w,
        (Err(e), Err(m)) => e@ == m,
        _ => false,
    }
}

/// The dataset that a plan stands for.
fn make_dataset(plan: DatasetPlan) -> (r: Result<DatasetData, Error>)
    requires
        plan@.sound(),
    ensures
        same_dataset(r, dataset_made(plan@)),
{
    let ghost p = plan@;
    let esize: usize = disk_size(&plan.dtype);
    let shape = plan.extents.dims();
    let dims = widen(shape.as_slice());
    let maxdims = widen_max(plan.extents.maxdims().as_slice());
    if let Err(e) = check_filters(&plan.filters) {
        return Err(e);
    }
    if plan.external.len() > 0 {
        return Err(
            Error::new(
                "external storage (H5Pset_external) is not supported; store the data in the file or use an external link",
            ),
        );
    }
    let is_scalar = plan.extents.is_scalar();
    let is_null = plan.extents.is_null();
    assert(p.maps.len() == plan.virtual_maps@.len());
    if plan.virtual_maps.len() > 0 {
        proof {
            assert forall|i: int| 0 <= i < plan.virtual_maps@.len() implies (
            #[trigger] plan.virtual_maps@[i]).src_selection@.sound()
                && plan.virtual_maps@[i].vds_selection@.sound() by {
                assert(p.maps[i] == plan.virtual_maps@[i]@);
            }
        }
        let maps = match store_maps(&plan.virtual_maps, shape.as_slice()) {
            Err(e) => {
                return Err(e);
            },
            Ok(m) => m,
        };
        let (_, bytes) = match total_bytes(&plan, &dims, esize) {
            None => {
                return Err(Error::new("dataset too large"));
            },
            Some(x) => x,
        };
        let d = DatasetData {
            dtype: plan.dtype,
            dims,
            maxdims,
            layout: LayoutClass::Virtual(maps),
            filters: Vec::new(),
            fill: FillValue::Default,
            data: zero_bytes(bytes),
            vlen: Vec::new(),
            lazy: None,
            is_scalar,
            is_null,
        };
        assert(d@ =~= dataset_made(p)->Ok_0);
        return Ok(d);
    }
    let layout = match choose_layout(&plan, &dims, esize) {
        Err(e) => {
            return Err(e);
        },
        Ok(l) => l,
    };
    if matches!(layout, LayoutClass::Chunked(_)) && (is_scalar || is_null) {
        return Err(Error::new("scalar datasets cannot be chunked"));
    }
    let (n, bytes) = match total_bytes(&plan, &dims, esize) {
        None => {
            return Err(Error::new("dataset too large"));
        },
        Some(x) => x,
    };
    let (fill, data) = match plan.fill {
        Some(Err(e)) => {
            return Err(Error::from_text(join("invalid fill value: ", e.as_str())));
        },
        Some(Ok(v)) => {
            let data = repeat(&v, n);
            (FillValue::UserDefined(v), data)
        },
        None => (FillValue::Default, zero_bytes(bytes)),
    };
    let d = DatasetData {
        dtype: plan.dtype,
        dims,
        maxdims,
        layout,
        filters: plan.filters,
        fill,
        data,
        vlen: Vec::new(),
        lazy: None,
        is_scalar,
        is_null,
    };
    assert(d@ =~= dataset_made(p)->Ok_0);
    Ok(d)
}

/// Whether an object came out as `s` says.
pub open spec fn same_id(r: Result<ObjId, Error>, s: Result<nat, Seq<char>>) -> bool {
    match (r, s) {
        (Ok(g), Ok(id)) => g == id,
        (Err(e), Err(m)) => e@ == m,
        _ => false,
    }
}

/// The text of a name, if there is one.
pub open spec fn name_view(name: Option<&str>) -> Option<Seq<char>> {
    match name {
        None => None,
        Some(s) => Some(s@),
    }
}

impl Group {
    /// Makes a dataset, linked from the group where it has a name.
    pub fn create_dataset(
        &self,
        state: &mut FileState,
        name: Option<&str>,
        plan: DatasetPlan,
        time: u32,
    ) -> (r: Result<ObjId, Error>)
        requires
            plan@.sound(),
        ensures
            final(state)@ == dataset_created(
                old(state)@,
                self.id as nat,
                name_view(name),
                plan@,
                time,
            ).0,
            same_id(
                r,
                dataset_created(old(state)@, self.id as nat, name_view(name), plan@, time).1,
            ),
    {
        let ghost f = state@;
        let ghost p = plan@;
        let mapped = plan.virtual_maps.len() > 0;
        assert(p.maps.len() == plan.virtual_maps@.len());
        let d = match make_dataset(plan) {
            Err(e) => {
                return Err(e);
            },
            Ok(d) => d,
        };
        let ghost view = d@;
        if state.read_only {
            return Err(Error::new("unable to create dataset: file is read-only"));
        }
        let id: ObjId = state.allocate(ObjectKind::Dataset(d));
        let node = state.get_mut(id);
        node.mtime = time;
        let ghost g = dataset_stray(f, view, time);
        assert(state@ =~= g);
        let name = match name {
            None => {
                return Ok(id);
            },
            Some(n) => n,
        };
        let (parent, leaf) = if mapped {
            (self.id, String::from_str(name))
        } else {
            match crate::hl::group::find_place(state, self.id, name) {
                Err(e) => {
                    return Err(e);
                },
                Ok(x) => x,
            }
        };
        if !mapped && crate::hl::group::finds_link(state, parent, leaf.as_str()) {
            return Err(
                named_error("unable to create dataset: '", leaf.as_str(), "' already exists"),
            );
        }
        if state.next_creation_order == i64::MAX {
            return Err(Error::new("creation order exhausted"));
        }
        let order: i64 = state.next_order();
        assert(state@ == ordered(g));
        if !state.is_group(parent) {
            return Err(Error::new("parent is not a group"));
        }
        let utf8 = !leaf.as_str().is_ascii();
        let link = Link { name: leaf, target: LinkTarget::Hard(id), creation_order: order, utf8 };
        assert(link@ == new_link(g, leaf@, TargetView::Hard(id as nat)));
        state.push_link(parent, link);
        state.count_link(id, true);
        Ok(id)
    }
}

// Datasets that are there.

/// The storage layout of a dataset.
#[derive(Clone, Copy, Debug, PartialEq, Eq, Structural)]
pub enum Layout {
    Compact,
    Contiguous,
    Chunked,
    Virtual,
}

impl Default for Layout {
    fn default() -> (r: Self)
        ensures
            r == Layout::Contiguous,
    {
        Layout::Contiguous
    }
}

/// A dataset of a file, by its number.
#[derive(Clone, Copy, Debug, PartialEq, Eq, Structural)]
pub struct Dataset {
    pub id: ObjId,
}

/// The numbers of chunks along the dimensions, at least one each.
pub open spec fn chunk_counts(dims: Seq<u64>, c: Seq<u64>) -> Seq<u64> {
    Seq::new(
        if dims.len() < c.len() {
            dims.len()
        } else {
            c.len()
        },
        |i: int| chunks_along(dims[i], c[i]),
    )
}

/// The number of chunks of the size `c` for a dimension, at least one.
pub open spec fn chunks_along(dim: u64, c: u64) -> u64 {
    if dim == 0 || c == 0 {
        1
    } else {
        ((dim - 1) / c as int + 1) as u64
    }
}

/// Information on a chunk.
#[derive(Debug)]
pub struct ChunkInfo {
    /// Where the chunk lies in the dataset.
    pub offset: Vec<u64>,
    /// Which filters were skipped.
    pub filter_mask: u32,
    /// Where the chunk lies in the file; nowhere before the file is written.
    pub addr: u64,
    /// The bytes of the chunk before its filters.
    pub size: u64,
}

/// Information on a chunk, borrowed.
#[derive(Clone, Copy, Debug)]
pub struct ChunkInfoRef<'a> {
    pub offset: &'a [u64],
    pub filter_mask: u32,
    pub addr: u64,
    pub size: u64,
}

/// The bits of a mask below `n` that are set.
pub open spec fn set_bits(mask: u32, n: nat) -> Seq<usize>
    decreases n,
{
    if n == 0 {
        Seq::empty()
    } else {
        let before = set_bits(mask, (n - 1) as nat);
        if (mask >> ((n - 1) as u32)) & 1 == 1 {
            before.push((n - 1) as usize)
        } else {
            before
        }
    }
}

impl<'a> ChunkInfoRef<'a> {
    /// The numbers of the filters that were skipped.
    pub fn disabled_filters(&self) -> (r: Vec<usize>)
        ensures
            r@ == set_bits(self.filter_mask, 32),
    {
        let mut out: Vec<usize> = Vec::new();
        let mut i: u32 = 0;
        while i < 32
            invariant
                i <= 32,
                out@ == set_bits(self.filter_mask, i as nat),
            decreases 32 - i,
        {
            if (self.filter_mask >> i) & 1 == 1 {
                out.push(i as usize);
            }
            i += 1;
        }
        out
    }
}

fn count_chunks(dims: &[u64], c: &[u64]) -> (r: Vec<u64>)
    ensures
        r@ == chunk_counts(dims@, c@),
{
    let mut out: Vec<u64> = Vec::new();
    let mut i: usize = 0;
    while i < dims.len() && i < c.len()
        invariant
            i <= dims@.len(),
            i <= c@.len(),
            out@ =~= chunk_counts(dims@, c@).take(i as int),
        decreases dims@.len() - i,
    {
        let n: u64 = if dims[i] == 0 || c[i] == 0 {
            1
        } else {
            proof {
                vstd::arithmetic::div_mod::lemma_div_is_ordered_by_denominator(
                    dims@[i as int] - 1,
                    1,
                    c@[i as int] as int,
                );
            }
            (dims[i] - 1) / c[i] + 1
        };
        out.push(n);
        i += 1;
    }
    assert(out@ =~= chunk_counts(dims@, c@));
    out
}

/// What is known of chunk `index` of a dataset with chunks of the shape `c`: none
/// behind the last chunk, or where the chunks or their bytes cannot be counted.
pub open spec fn chunk_known(d: DatasetView, c: Seq<u64>, index: nat) -> Option<(Seq<u64>, nat)> {
    let n = chunk_counts(d.dims, c);
    let size = count(c) * d.dtype.disk_size();
    if count(n) > u64::MAX || index >= count(n) || size > u64::MAX || c.len() < d.dims.len() {
        None
    } else {
        let at = coords_of(n, index);
        if exists|i: int| 0 <= i < n.len() && #[trigger] at[i] * c[i] > u64::MAX {
            None
        } else {
            Some((Seq::new(n.len(), |i: int| (at[i] * c[i]) as u64), size))
        }
    }
}

/// A dataset of another shape: what lies in both shapes is kept, the rest is zero.
pub open spec fn reshaped(d: DatasetView, dims: Seq<u64>) -> DatasetView {
    DatasetView {
        data: gathered(
            d.data,
            d.dims,
            dims,
            Seq::new(d.dims.len(), |i: int| 0u64),
            d.dtype.disk_size(),
        ),
        dims,
        ..d
    }
}

/// The first dimension from `i` on that would be larger than its maximum.
pub open spec fn beyond_max(dims: Seq<u64>, max: Seq<Option<u64>>, i: int) -> Option<nat>
    decreases dims.len() - i,
{
    if i < 0 || i >= dims.len() || i >= max.len() {
        None
    } else if max[i] matches Some(m) && dims[i] > m {
        Some(i as nat)
    } else {
        beyond_max(dims, max, i + 1)
    }
}

/// Why a dataset cannot get another shape, if it cannot.
pub open spec fn resize_refused(d: DatasetView, dims: Seq<u64>) -> Option<Seq<char>> {
    if dims.len() != d.dims.len() {
        Some(
            "resize: rank mismatch ("@ + decimal(dims.len()) + " != "@ + decimal(d.dims.len())
                + ")"@,
        )
    } else if !(d.layout is Chunked) {
        Some("only chunked datasets can be resized"@)
    } else {
        match beyond_max(dims, d.maxdims, 0) {
            Some(i) => Some(
                "resize: dim "@ + decimal(i) + " exceeds maximum ("@ + decimal(
                    dims[i as int] as nat,
                ) + " > "@ + decimal((d.maxdims[i as int]->0) as nat) + ")"@,
            ),
            None => if count(d.dims) > u64::MAX || count(dims) > u64::MAX || count(dims)
                * d.dtype.disk_size() > usize::MAX {
                Some("dataset too large"@)
            } else {
                None
            },
        }
    }
}

/// Whether the axis `i` has room: it has no maximum, or one above its size.
pub open spec fn axis_grows(d: DatasetView, i: int) -> bool {
    &&& 0 <= i < d.dims.len()
    &&& i < d.maxdims.len()
    &&& d.maxdims[i] matches Some(m) ==> m > d.dims[i]
}

/// Whether a dataset can be resized along at least one axis: it is chunked, and an axis
/// has room.
pub open spec fn can_grow(d: DatasetView) -> bool {
    d.layout is Chunked && exists|i: int| #[trigger] axis_grows(d, i)
}

/// A file after a dataset got another shape.
pub open spec fn resized(f: FileView, id: nat, dims: Seq<u64>) -> (FileView, Result<(), Seq<char>>) {
    if f.read_only {
        (f, Err("unable to resize: file is read-only"@))
    } else {
        match f.dataset(id) {
            None => (f, Err("object is not a dataset"@)),
            Some(d) => match resize_refused(d, dims) {
                Some(e) => (f, Err(e)),
                None => (
                    with_object(
                        f,
                        id,
                        NodeView { kind: KindView::Dataset(reshaped(d, dims)), ..f.object(id)->0 },
                    ),
                    Ok(()),
                ),
            },
        }
    }
}

fn find_beyond(dims: &Vec<u64>, max: &Vec<Option<u64>>) -> (r: Option<(usize, u64)>)
    ensures
        r is Some <==> beyond_max(dims@, max@, 0) is Some,
        r matches Some((i, m)) ==> beyond_max(dims@, max@, 0) == Some(i as nat) && i < dims@.len()
            && i < max@.len() && max@[i as int] == Some(m),
{
    let mut i: usize = 0;
    while i < dims.len() && i < max.len()
        invariant
            i <= dims@.len(),
            i <= max@.len(),
            beyond_max(dims@, max@, 0) == beyond_max(dims@, max@, i as int),
        decreases dims@.len() - i,
    {
        if let Some(m) = max[i] {
            if dims[i] > m {
                return Some((i, m));
            }
        }
        i += 1;
    }
    None
}

/// Why a dataset cannot get another shape, if it cannot.
fn refuse_resize(d: &DatasetData, dims: &Vec<u64>) -> (r: Option<Error>)
    requires
        d@.dtype.sized(),
    ensures
        match (r, resize_refused(d@, dims@)) {
            (Some(e), Some(m)) => e@ == m,
            (None, None) => true,
            _ => false,
        },
{
    if dims.len() != d.dims.len() {
        let a = with_number("resize: rank mismatch (", dims.len() as u64);
        let b = with_number(join(a.as_str(), " != ").as_str(), d.dims.len() as u64);
        return Some(Error::from_text(join(b.as_str(), ")")));
    }
    if !matches!(d.layout, LayoutClass::Chunked(_)) {
        return Some(Error::new("only chunked datasets can be resized"));
    }
    if let Some((i, m)) = find_beyond(dims, &d.maxdims) {
        let a = with_number("resize: dim ", i as u64);
        let b = with_number(join(a.as_str(), " exceeds maximum (").as_str(), dims[i]);
        let c = with_number(join(b.as_str(), " > ").as_str(), m);
        return Some(Error::from_text(join(c.as_str(), ")")));
    }
    let esize: usize = disk_size(&d.dtype);
    match (checked_count(d.dims.as_slice()), checked_count(dims.as_slice())) {
        (Some(_), Some(n)) => {
            assert(n as int * esize as int <= 0xffff_ffff_ffff_ffff * 0xffff_ffff_ffff_ffff)
                by (nonlinear_arith)
                requires
                    0 <= n as int <= 0xffff_ffff_ffff_ffff,
                    0 <= esize as int <= 0xffff_ffff_ffff_ffff,
            ;
            if n as u128 * esize as u128 > usize::MAX as u128 {
                Some(Error::new("dataset too large"))
            } else {
                None
            }
        },
        _ => Some(Error::new("dataset too large")),
    }
}

impl Dataset {
    /// Whether the dataset can be resized along at least one axis; not so for what is
    /// no dataset.
    pub fn is_resizable(&self, state: &FileState) -> (r: bool)
        ensures
            r == (state@.dataset(self.id as nat) matches Some(d) && can_grow(d)),
    {
        match state.dataset_data(self.id) {
            None => false,
            Some(d) => {
                if !matches!(d.layout, LayoutClass::Chunked(_)) {
                    return false;
                }
                let mut i: usize = 0;
                while i < d.dims.len() && i < d.maxdims.len()
                    invariant
                        i <= d.dims@.len(),
                        i <= d.maxdims@.len(),
                        state@.dataset(self.id as nat) == Some(d@),
                        d@.layout is Chunked,
                        forall|j: int| 0 <= j < i ==> !#[trigger] axis_grows(d@, j),
                    decreases d.dims@.len() - i,
                {
                    let grows: bool = match d.maxdims[i] {
                        None => true,
                        Some(m) => m > d.dims[i],
                    };
                    if grows {
                        assert(axis_grows(d@, i as int));
                        return true;
                    }
                    assert(!axis_grows(d@, i as int));
                    i += 1;
                }
                false
            },
        }
    }

    pub fn is_chunked(&self, state: &FileState) -> (r: bool)
        ensures
            r == (state@.dataset(self.id as nat) matches Some(d) && d.layout is Chunked),
    {
        match state.dataset_data(self.id) {
            None => false,
            Some(d) => matches!(d.layout, LayoutClass::Chunked(_)),
        }
    }

    pub fn layout(&self, state: &FileState) -> (r: Layout)
        ensures
            r == match state@.dataset(self.id as nat) {
                None => Layout::Contiguous,
                Some(d) => match d.layout {
                    LayoutKind::Compact => Layout::Compact,
                    LayoutKind::Contiguous => Layout::Contiguous,
                    LayoutKind::Chunked(_) => Layout::Chunked,
                    LayoutKind::Virtual(_) => Layout::Virtual,
                },
            },
    {
        match state.dataset_data(self.id) {
            None => Layout::Contiguous,
            Some(d) => match &d.layout {
                LayoutClass::Compact => Layout::Compact,
                LayoutClass::Contiguous => Layout::Contiguous,
                LayoutClass::Chunked(_) => Layout::Chunked,
                LayoutClass::Virtual(_) => Layout::Virtual,
            },
        }
    }

    /// The number of chunks, where there are chunks and they can be counted.
    pub fn num_chunks(&self, state: &FileState) -> (r: Option<u64>)
        ensures
            match state@.dataset(self.id as nat) {
                Some(d) => match d.layout {
                    LayoutKind::Chunked(c) => {
                        &&& r is Some <==> count(chunk_counts(d.dims, c)) <= u64::MAX
                        &&& r matches Some(n) ==> n == count(chunk_counts(d.dims, c))
                    },
                    _ => r is None,
                },
                None => r is None,
            },
    {
        match state.dataset_data(self.id) {
            None => None,
            Some(d) => match &d.layout {
                LayoutClass::Chunked(c) => {
                    let n = count_chunks(d.dims.as_slice(), c.as_slice());
                    checked_count(n.as_slice())
                },
                _ => None,
            },
        }
    }

    /// The shape of the chunks, if there are any.
    pub fn chunk(&self, state: &FileState) -> (r: Option<Vec<u64>>)
        ensures
            match (r, state@.dataset(self.id as nat)) {
                (Some(v), Some(d)) => d.layout == LayoutKind::Chunked(v@),
                (None, Some(d)) => !(d.layout is Chunked),
                (None, None) => true,
                _ => false,
            },
    {
        match state.dataset_data(self.id) {
            None => None,
            Some(d) => match &d.layout {
                LayoutClass::Chunked(c) => Some(vstd::slice::slice_to_vec(c.as_slice())),
                _ => None,
            },
        }
    }

    /// Where the data lies in the file: it is known only while a file is written.
    pub fn offset(&self) -> (r: Option<u64>)
        ensures
            r is None,
    {
        None
    }

    /// What is known of a chunk.
    pub fn chunk_info(&self, state: &FileState, index: usize) -> (r: Option<ChunkInfo>)
        requires
            state@.dataset(self.id as nat) matches Some(d) ==> d.dtype.sized(),
        ensures
            match state@.dataset(self.id as nat) {
                Some(d) => match d.layout {
                    LayoutKind::Chunked(c) => match (r, chunk_known(d, c, index as nat)) {
                        (Some(i), Some((at, size))) => i.offset@ == at && i.filter_mask == 0
                            && i.addr == 0 && i.size == size,
                        (None, None) => true,
                        _ => false,
                    },
                    _ => r is None,
                },
                None => r is None,
            },
    {
        let d = match state.dataset_data(self.id) {
            None => {
                return None;
            },
            Some(d) => d,
        };
        let c = match &d.layout {
            LayoutClass::Chunked(c) => c,
            _ => {
                return None;
            },
        };
        let n = count_chunks(d.dims.as_slice(), c.as_slice());
        let total: u64 = match checked_count(n.as_slice()) {
            None => {
                return None;
            },
            Some(t) => t,
        };
        if index as u64 >= total {
            return None;
        }
        let esize: usize = disk_size(&d.dtype);
        let size: u64 = match chunk_bytes(c, esize) {
            None => {
                return None;
            },
            Some(b) => b,
        };
        if c.len() < d.dims.len() {
            return None;
        }
        let step = step_sizes(n.as_slice());
        let at = coordinates(&step, index as u64, Ghost(n@));
        let mut offset: Vec<u64> = Vec::new();
        let rank: usize = n.len();
        let mut i: usize = 0;
        while i < rank
            invariant
                i <= rank == n@.len() == at@.len(),
                rank <= c@.len(),
                as_nats(at@) == coords_of(n@, index as nat),
                offset@.len() == i,
                forall|j: int|
                    0 <= j < i ==> #[trigger] offset@[j] == coords_of(n@, index as nat)[j] * c@[j],
                n@ == chunk_counts(d@.dims, c@),
                d@.layout == LayoutKind::Chunked(c@),
                state@.dataset(self.id as nat) == Some(d@),
            decreases rank - i,
        {
            assert(as_nats(at@)[i as int] == at@[i as int]);
            match at[i].checked_mul(c[i]) {
                None => {
                    assert(coords_of(n@, index as nat)[i as int] * c@[i as int] > u64::MAX);
                    return None;
                },
                Some(p) => {
                    offset.push(p);
                },
            }
            i += 1;
        }
        proof {
            let w = coords_of(n@, index as nat);
            assert forall|j: int| 0 <= j < rank implies !(#[trigger] w[j] * c@[j] > u64::MAX) by {
                assert(offset@[j] == w[j] * c@[j]);
            }
            assert(offset@ =~= Seq::new(n@.len(), |i: int| (w[i] * c@[i]) as u64));
        }
        Some(ChunkInfo { offset, filter_mask: 0, addr: 0, size })
    }

    /// Gives the dataset another shape, within its maxima.
    pub fn resize(&self, state: &mut FileState, dims: Vec<u64>) -> (r: Result<(), Error>)
        requires
            old(state)@.dataset(self.id as nat) matches Some(d) ==> d.dtype.sized(),
        ensures
            final(state)@ == resized(old(state)@, self.id as nat, dims@).0,
            same_unit(r, resized(old(state)@, self.id as nat, dims@).1),
    {
        if state.read_only {
            return Err(Error::new("unable to resize: file is read-only"));
        }
        let ghost f = state@;
        let data = match state.dataset_data(self.id) {
            None => {
                return Err(Error::new("object is not a dataset"));
            },
            Some(d) => {
                if let Some(e) = refuse_resize(d, &dims) {
                    return Err(e);
                }
                let corner: Vec<u64> = vec![0; d.dims.len()];
                assert(corner@ =~= Seq::new(d@.dims.len(), |i: int| 0u64));
                gather_chunk(
                    d.data.as_slice(),
                    d.dims.as_slice(),
                    dims.as_slice(),
                    corner.as_slice(),
                    disk_size(&d.dtype),
                )
            },
        };
        let node = state.get_mut(self.id);
        if let ObjectKind::Dataset(d) = &mut node.kind {
            d.data = data;
            d.dims = dims;
        }
        assert(state@ =~= resized(f, self.id as nat, dims@).0);
        Ok(())
    }
}

/// The bytes of a chunk, where they are in range.
fn chunk_bytes(c: &Vec<u64>, esize: usize) -> (r: Option<u64>)
    ensures
        r is Some <==> count(c@) * esize as nat <= u64::MAX,
        r matches Some(b) ==> b == count(c@) * esize as nat,
{
    if esize == 0 {
        assert(count(c@) * esize as nat == 0) by (nonlinear_arith)
            requires
                esize == 0,
        ;
        return Some(0);
    }
    match checked_count(c.as_slice()) {
        None => {
            assert(count(c@) * esize as nat >= count(c@)) by (nonlinear_arith)
                requires
                    esize >= 1,
            ;
            None
        },
        Some(n) => n.checked_mul(esize as u64),
    }
}

/// The data of a new dataset has the size of its elements.
pub proof fn law_new_dataset_filled(p: PlanView)
    requires
        p.sound(),
        dataset_made(p) is Ok,
    ensures
        dataset_made(p)->Ok_0.data.len() == p.total() * p.dtype.disk_size(),
{
    if let Some(Ok(v)) = p.fill {
        lemma_repeated_len(v, p.total());
    }
}

} // verus!
