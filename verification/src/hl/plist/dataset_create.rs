//! The settings for the creation of datasets.

use vstd::prelude::*;

use crate::error::Error;
use crate::hl::dataset::{
    check_filters, filters_checked, virtual_views, Chunk, ChunkChoice, DatasetPlan, ExternalFile,
    Layout, PlanView, VirtualMapping, VirtualView,
};
use crate::hl::extents::Extents;
use crate::hl::filters::{
    Blosc, BloscShuffle, Filter, FilterKind, H5Z_filter_t, SZip, ScaleOffset,
};
use crate::hl::plist::common::{AttrCreationOrder, AttrPhaseChange};
use crate::model::filter_kinds;
use crate::types::{TypeDescriptor, TypeView};

verus! {

/// When the space for a dataset is allocated.
#[derive(Clone, Copy, Debug, PartialEq, Eq, Structural)]
pub enum AllocTime {
    Early,
    Incr,
    Late,
}

/// When a fill value is written.
#[derive(Clone, Copy, Debug, PartialEq, Eq, Structural)]
pub enum FillTime {
    IfSet,
    Alloc,
    Never,
}

impl Default for FillTime {
    fn default() -> (r: Self)
        ensures
            r == FillTime::IfSet,
    {
        FillTime::IfSet
    }
}

/// Whether there is a fill value.
#[derive(Clone, Copy, Debug, PartialEq, Eq, Structural)]
pub enum FillStatus {
    Undefined,
    Default,
    UserDefined,
}

/// The options of chunked datasets: bit 0 leaves chunks at the edge unfiltered.
#[derive(Clone, Copy, Debug, PartialEq, Eq, Structural)]
pub struct ChunkOpts {
    pub bits: u32,
}

/// A value with its type, in memory layout.
#[derive(Debug)]
pub struct DynValue {
    pub ty: TypeDescriptor,
    pub bytes: Vec<u8>,
}

/// The settings.
#[derive(Debug)]
pub struct DatasetCreateData {
    pub filters: Vec<Filter>,
    pub alloc_time: Option<AllocTime>,
    pub fill_time: FillTime,
    pub fill_value: Option<DynValue>,
    pub chunk: Option<Vec<usize>>,
    pub layout: Layout,
    pub external: Vec<ExternalFile>,
    pub virtual_maps: Vec<VirtualMapping>,
    pub obj_track_times: bool,
    pub attr_phase_change: AttrPhaseChange,
    pub attr_creation_order: AttrCreationOrder,
    pub chunk_opts: ChunkOpts,
}

/// The view of [`DatasetCreateData`].
#[verifier::ext_equal]
pub struct CreateView {
    pub filters: Seq<FilterKind>,
    pub alloc_time: Option<AllocTime>,
    pub fill_time: FillTime,
    pub fill_value: Option<(TypeView, Seq<u8>)>,
    pub chunk: Option<Seq<usize>>,
    pub layout: Layout,
    pub external: Seq<(Seq<char>, usize, usize)>,
    pub maps: Seq<VirtualView>,
    pub obj_track_times: bool,
    pub attr_phase_change: AttrPhaseChange,
    pub attr_creation_order: AttrCreationOrder,
    pub chunk_opts: ChunkOpts,
}

/// The views of files outside.
pub open spec fn external_views(v: Seq<ExternalFile>) -> Seq<(Seq<char>, usize, usize)> {
    v.map_values(|f: ExternalFile| (f.name@, f.offset, f.size))
}

impl View for DatasetCreateData {
    type V = CreateView;

    open spec fn view(&self) -> CreateView {
        CreateView {
            filters: filter_kinds(self.filters@),
            alloc_time: self.alloc_time,
            fill_time: self.fill_time,
            fill_value: match self.fill_value {
                None => None,
                Some(v) => Some((v.ty@, v.bytes@)),
            },
            chunk: match self.chunk {
                None => None,
                Some(c) => Some(c@),
            },
            layout: self.layout,
            external: external_views(self.external@),
            maps: virtual_views(self.virtual_maps@),
            obj_track_times: self.obj_track_times,
            attr_phase_change: self.attr_phase_change,
            attr_creation_order: self.attr_creation_order,
            chunk_opts: self.chunk_opts,
        }
    }
}

/// The default settings.
pub open spec fn create_plain() -> CreateView {
    CreateView {
        filters: Seq::empty(),
        alloc_time: None,
        fill_time: FillTime::IfSet,
        fill_value: None,
        chunk: None,
        layout: Layout::Contiguous,
        external: Seq::empty(),
        maps: Seq::empty(),
        obj_track_times: false,
        attr_phase_change: AttrPhaseChange { max_compact: 8, min_dense: 6 },
        attr_creation_order: AttrCreationOrder { bits: 0 },
        chunk_opts: ChunkOpts { bits: 0 },
    }
}

impl Default for DatasetCreateData {
    fn default() -> (r: Self)
        ensures
            r@ == create_plain(),
    {
        let r = DatasetCreateData {
            filters: Vec::new(),
            alloc_time: None,
            fill_time: FillTime::IfSet,
            fill_value: None,
            chunk: None,
            layout: Layout::Contiguous,
            external: Vec::new(),
            virtual_maps: Vec::new(),
            obj_track_times: false,
            attr_phase_change: AttrPhaseChange::default(),
            attr_creation_order: AttrCreationOrder::default(),
            chunk_opts: ChunkOpts { bits: 0 },
        };
        assert(r@ =~= create_plain());
        r
    }
}

/// A copy of a list.
pub(crate) fn copy_filters(v: &[Filter]) -> (r: Vec<Filter>)
    ensures
        filter_kinds(r@) == filter_kinds(v@),
{
    let n: usize = v.len();
    let mut out: Vec<Filter> = Vec::new();
    let mut i: usize = 0;
    assert(filter_kinds(out@) =~= filter_kinds(v@).take(0));
    while i < n
        invariant
            i <= n == v@.len(),
            out@.len() == i,
            filter_kinds(out@) == filter_kinds(v@).take(i as int),
        decreases n - i,
    {
        let ghost before = out@;
        let x = &v[i];
        let one = x.clone();
        out.push(one);
        i += 1;
        assert(filter_kinds(out@) =~= filter_kinds(before).push(filter_kinds(v@)[i - 1]));
        assert(filter_kinds(out@) =~= filter_kinds(v@).take(i as int));
    }
    assert(filter_kinds(v@).take(n as int) =~= filter_kinds(v@));
    out
}

/// A copy of a list.
fn copy_external(v: &[ExternalFile]) -> (r: Vec<ExternalFile>)
    ensures
        external_views(r@) == external_views(v@),
{
    let n: usize = v.len();
    let mut out: Vec<ExternalFile> = Vec::new();
    let mut i: usize = 0;
    assert(external_views(out@) =~= external_views(v@).take(0));
    while i < n
        invariant
            i <= n == v@.len(),
            out@.len() == i,
            external_views(out@) == external_views(v@).take(i as int),
        decreases n - i,
    {
        let ghost before = out@;
        let x = &v[i];
        let one = ExternalFile { name: x.name.clone(), offset: x.offset, size: x.size };
        out.push(one);
        i += 1;
        assert(external_views(out@) =~= external_views(before).push(external_views(v@)[i - 1]));
        assert(external_views(out@) =~= external_views(v@).take(i as int));
    }
    assert(external_views(v@).take(n as int) =~= external_views(v@));
    out
}

/// A copy of a list.
fn copy_maps(v: &[VirtualMapping]) -> (r: Vec<VirtualMapping>)
    ensures
        virtual_views(r@) == virtual_views(v@),
{
    let n: usize = v.len();
    let mut out: Vec<VirtualMapping> = Vec::new();
    let mut i: usize = 0;
    assert(virtual_views(out@) =~= virtual_views(v@).take(0));
    while i < n
        invariant
            i <= n == v@.len(),
            out@.len() == i,
            virtual_views(out@) == virtual_views(v@).take(i as int),
        decreases n - i,
    {
        let ghost before = out@;
        let x = &v[i];
        let one = VirtualMapping {
            src_filename: x.src_filename.clone(),
            src_dataset: x.src_dataset.clone(),
            src_extents: x.src_extents.clone(),
            src_selection: x.src_selection.clone(),
            vds_extents: x.vds_extents.clone(),
            vds_selection: x.vds_selection.clone(),
        };
        out.push(one);
        i += 1;
        assert(virtual_views(out@) =~= virtual_views(before).push(virtual_views(v@)[i - 1]));
        assert(virtual_views(out@) =~= virtual_views(v@).take(i as int));
    }
    assert(virtual_views(v@).take(n as int) =~= virtual_views(v@));
    out
}

impl Clone for DatasetCreateData {
    fn clone(&self) -> (r: Self)
        ensures
            r@ == self@,
    {
        DatasetCreateData {
            filters: copy_filters(self.filters.as_slice()),
            alloc_time: self.alloc_time,
            fill_time: self.fill_time,
            fill_value: match &self.fill_value {
                None => None,
                Some(v) => Some(
                    DynValue {
                        ty: v.ty.duplicate(),
                        bytes: vstd::slice::slice_to_vec(v.bytes.as_slice()),
                    },
                ),
            },
            chunk: match &self.chunk {
                None => None,
                Some(c) => Some(vstd::slice::slice_to_vec(c.as_slice())),
            },
            layout: self.layout,
            external: copy_external(self.external.as_slice()),
            virtual_maps: copy_maps(self.virtual_maps.as_slice()),
            obj_track_times: self.obj_track_times,
            attr_phase_change: self.attr_phase_change,
            attr_creation_order: self.attr_creation_order,
            chunk_opts: self.chunk_opts,
        }
    }
}

/// A property list for the creation of datasets.
#[derive(Debug)]
pub struct DatasetCreate {
    pub data: DatasetCreateData,
}

impl DatasetCreate {
    pub fn try_new() -> (r: Self)
        ensures
            r.data@ == create_plain(),
    {
        DatasetCreate { data: DatasetCreateData::default() }
    }

    pub fn build() -> (r: DatasetCreateBuilder)
        ensures
            r.data@ == create_plain(),
    {
        DatasetCreateBuilder::new()
    }

    pub fn copy(&self) -> (r: Self)
        ensures
            r.data@ == self.data@,
    {
        DatasetCreate { data: self.data.clone() }
    }

    pub fn filters(&self) -> (r: Vec<Filter>)
        ensures
            filter_kinds(r@) == self.data@.filters,
    {
        copy_filters(self.data.filters.as_slice())
    }

    pub fn has_filters(&self) -> (r: bool)
        ensures
            r == (self.data@.filters.len() > 0),
    {
        assert(self.data@.filters.len() == self.data.filters@.len());
        self.data.filters.len() > 0
    }

    /// When space is allocated: late, where it is not said.
    pub fn alloc_time(&self) -> (r: AllocTime)
        ensures
            r == match self.data@.alloc_time {
                Some(t) => t,
                None => AllocTime::Late,
            },
    {
        match self.data.alloc_time {
            Some(t) => t,
            None => AllocTime::Late,
        }
    }

    pub fn fill_time(&self) -> (r: FillTime)
        ensures
            r == self.data@.fill_time,
    {
        self.data.fill_time
    }

    pub fn fill_value_defined(&self) -> (r: FillStatus)
        ensures
            r == (if self.data@.fill_value is Some {
                FillStatus::UserDefined
            } else {
                FillStatus::Default
            }),
    {
        match &self.data.fill_value {
            Some(_) => FillStatus::UserDefined,
            None => FillStatus::Default,
        }
    }

    pub fn chunk(&self) -> (r: Option<Vec<usize>>)
        ensures
            match (r, self.data@.chunk) {
                (Some(v), Some(c)) => v@ == c,
                (None, None) => true,
                _ => false,
            },
    {
        match &self.data.chunk {
            None => None,
            Some(c) => Some(vstd::slice::slice_to_vec(c.as_slice())),
        }
    }

    pub fn layout(&self) -> (r: Layout)
        ensures
            r == self.data@.layout,
    {
        self.data.layout
    }

    pub fn chunk_opts(&self) -> (r: Option<ChunkOpts>)
        ensures
            r == Some(self.data@.chunk_opts),
    {
        Some(self.data.chunk_opts)
    }

    pub fn external(&self) -> (r: Vec<ExternalFile>)
        ensures
            external_views(r@) == self.data@.external,
    {
        copy_external(self.data.external.as_slice())
    }

    pub fn virtual_map(&self) -> (r: Vec<VirtualMapping>)
        ensures
            virtual_views(r@) == self.data@.maps,
    {
        copy_maps(self.data.virtual_maps.as_slice())
    }

    pub fn obj_track_times(&self) -> (r: bool)
        ensures
            r == self.data@.obj_track_times,
    {
        self.data.obj_track_times
    }

    pub fn attr_phase_change(&self) -> (r: AttrPhaseChange)
        ensures
            r == self.data@.attr_phase_change,
    {
        self.data.attr_phase_change
    }

    pub fn attr_creation_order(&self) -> (r: AttrCreationOrder)
        ensures
            r == self.data@.attr_creation_order,
    {
        self.data.attr_creation_order
    }

    /// What a dataset with these settings is made of. The chunks are those given, or
    /// those of the settings.
    pub fn plan(
        self,
        dtype: TypeDescriptor,
        extents: Extents,
        chunk: Option<Chunk>,
        fill: Option<Result<Vec<u8>, String>>,
    ) -> (r: DatasetPlan)
        ensures
            r@ == planned(
                self.data@,
                dtype@,
                extents@,
                match chunk {
                    None => None,
                    Some(c) => Some(c@),
                },
                match fill {
                    None => None,
                    Some(Ok(v)) => Some(Ok(v@)),
                    Some(Err(e)) => Some(Err(e@)),
                },
            ),
    {
        let chunk = match chunk {
            Some(c) => Some(c),
            None => match self.data.chunk {
                None => None,
                Some(c) => Some(Chunk::Exact(c)),
            },
        };
        assert(self.data@.external.len() == self.data.external@.len());
        DatasetPlan {
            dtype,
            extents,
            filters: self.data.filters,
            external: self.data.external,
            virtual_maps: self.data.virtual_maps,
            chunk,
            fill,
        }
    }
}

/// What a dataset is made of.
pub open spec fn planned(
    d: CreateView,
    dtype: TypeView,
    extents: crate::hl::extents::ExtentsView,
    chunk: Option<ChunkChoice>,
    fill: Option<Result<Seq<u8>, Seq<char>>>,
) -> PlanView {
    PlanView {
        dtype,
        extents,
        filters: d.filters,
        external: d.external.len() > 0,
        maps: d.maps,
        chunk: match chunk {
            Some(c) => Some(c),
            None => match d.chunk {
                None => None,
                Some(c) => Some(ChunkChoice::Exact(c)),
            },
        },
        fill,
    }
}

/// A builder of property lists for the creation of datasets.
#[derive(Debug)]
pub struct DatasetCreateBuilder {
    pub data: DatasetCreateData,
}

/// Settings with one more filter.
pub open spec fn filtered(d: CreateView, f: FilterKind) -> CreateView {
    CreateView { filters: d.filters.push(f), ..d }
}

impl DatasetCreateBuilder {
    /// With the default settings.
    pub fn new() -> (r: Self)
        ensures
            r.data@ == create_plain(),
    {
        DatasetCreateBuilder { data: DatasetCreateData::default() }
    }

    pub fn from_plist(plist: &DatasetCreate) -> (r: Self)
        ensures
            r.data@ == plist.data@,
    {
        DatasetCreateBuilder { data: plist.data.clone() }
    }

    fn push_filter(&mut self, f: Filter)
        ensures
            final(self).data@ == filtered(old(self).data@, f@),
    {
        let ghost before = self.data.filters@;
        self.data.filters.push(f);
        assert(filter_kinds(self.data.filters@) =~= filter_kinds(before).push(f@));
        assert(self.data@ =~= filtered(old(self).data@, f@));
    }

    pub fn set_filters(&mut self, filters: &[Filter]) -> (r: &mut Self)
        ensures
            r.data@ == (CreateView { filters: filter_kinds(filters@), ..old(self).data@ }),
            *final(self) == *final(r),
    {
        self.data.filters = copy_filters(filters);
        self
    }

    pub fn deflate(&mut self, level: u8) -> (r: &mut Self)
        ensures
            r.data@ == filtered(old(self).data@, FilterKind::Deflate(level)),
            *final(self) == *final(r),
    {
        self.push_filter(Filter::deflate(level));
        self
    }

    pub fn shuffle(&mut self) -> (r: &mut Self)
        ensures
            r.data@ == filtered(old(self).data@, FilterKind::Shuffle),
            *final(self) == *final(r),
    {
        self.push_filter(Filter::shuffle());
        self
    }

    pub fn fletcher32(&mut self) -> (r: &mut Self)
        ensures
            r.data@ == filtered(old(self).data@, FilterKind::Fletcher32),
            *final(self) == *final(r),
    {
        self.push_filter(Filter::fletcher32());
        self
    }

    pub fn szip(&mut self, coding: SZip, px_per_block: u8) -> (r: &mut Self)
        ensures
            r.data@ == filtered(old(self).data@, FilterKind::SZip(coding, px_per_block)),
            *final(self) == *final(r),
    {
        self.push_filter(Filter::szip(coding, px_per_block));
        self
    }

    pub fn nbit(&mut self) -> (r: &mut Self)
        ensures
            r.data@ == filtered(old(self).data@, FilterKind::NBit),
            *final(self) == *final(r),
    {
        self.push_filter(Filter::nbit());
        self
    }

    pub fn lzf(&mut self) -> (r: &mut Self)
        ensures
            r.data@ == filtered(old(self).data@, FilterKind::LZF),
            *final(self) == *final(r),
    {
        self.push_filter(Filter::lzf());
        self
    }

    pub fn blosc(&mut self, complib: Blosc, clevel: u8, shuffle: BloscShuffle) -> (r: &mut Self)
        ensures
            r.data@ == filtered(old(self).data@, FilterKind::Blosc(complib, clevel, shuffle)),
            *final(self) == *final(r),
    {
        self.push_filter(Filter::Blosc(complib, clevel, shuffle));
        self
    }

    pub fn blosc_blosclz(&mut self, clevel: u8, shuffle: BloscShuffle) -> (r: &mut Self)
        ensures
            r.data@ == filtered(old(self).data@, FilterKind::Blosc(Blosc::BloscLZ, clevel, shuffle)),
            *final(self) == *final(r),
    {
        self.push_filter(Filter::Blosc(Blosc::BloscLZ, clevel, shuffle));
        self
    }

    pub fn blosc_lz4(&mut self, clevel: u8, shuffle: BloscShuffle) -> (r: &mut Self)
        ensures
            r.data@ == filtered(old(self).data@, FilterKind::Blosc(Blosc::LZ4, clevel, shuffle)),
            *final(self) == *final(r),
    {
        self.push_filter(Filter::Blosc(Blosc::LZ4, clevel, shuffle));
        self
    }

    pub fn blosc_lz4hc(&mut self, clevel: u8, shuffle: BloscShuffle) -> (r: &mut Self)
        ensures
            r.data@ == filtered(old(self).data@, FilterKind::Blosc(Blosc::LZ4HC, clevel, shuffle)),
            *final(self) == *final(r),
    {
        self.push_filter(Filter::Blosc(Blosc::LZ4HC, clevel, shuffle));
        self
    }

    pub fn blosc_snappy(&mut self, clevel: u8, shuffle: BloscShuffle) -> (r: &mut Self)
        ensures
            r.data@ == filtered(old(self).data@, FilterKind::Blosc(Blosc::Snappy, clevel, shuffle)),
            *final(self) == *final(r),
    {
        self.push_filter(Filter::Blosc(Blosc::Snappy, clevel, shuffle));
        self
    }

    pub fn blosc_zlib(&mut self, clevel: u8, shuffle: BloscShuffle) -> (r: &mut Self)
        ensures
            r.data@ == filtered(old(self).data@, FilterKind::Blosc(Blosc::ZLib, clevel, shuffle)),
            *final(self) == *final(r),
    {
        self.push_filter(Filter::Blosc(Blosc::ZLib, clevel, shuffle));
        self
    }

    pub fn blosc_zstd(&mut self, clevel: u8, shuffle: BloscShuffle) -> (r: &mut Self)
        ensures
            r.data@ == filtered(old(self).data@, FilterKind::Blosc(Blosc::ZStd, clevel, shuffle)),
            *final(self) == *final(r),
    {
        self.push_filter(Filter::Blosc(Blosc::ZStd, clevel, shuffle));
        self
    }

    pub fn scale_offset(&mut self, mode: ScaleOffset) -> (r: &mut Self)
        ensures
            r.data@ == filtered(old(self).data@, FilterKind::ScaleOffset(mode)),
            *final(self) == *final(r),
    {
        self.push_filter(Filter::scale_offset(mode));
        self
    }

    pub fn add_filter(&mut self, id: H5Z_filter_t, cdata: &[u32]) -> (r: &mut Self)
        ensures
            r.data@ == filtered(old(self).data@, FilterKind::User(id, cdata@)),
            *final(self) == *final(r),
    {
        self.push_filter(Filter::user(id, cdata));
        self
    }

    pub fn clear_filters(&mut self) -> (r: &mut Self)
        ensures
            r.data@ == (CreateView { filters: Seq::empty(), ..old(self).data@ }),
            *final(self) == *final(r),
    {
        self.data.filters = Vec::new();
        assert(filter_kinds(self.data.filters@) =~= Seq::empty());
        self
    }

    pub fn alloc_time(&mut self, alloc_time: Option<AllocTime>) -> (r: &mut Self)
        ensures
            r.data@ == (CreateView { alloc_time, ..old(self).data@ }),
            *final(self) == *final(r),
    {
        self.data.alloc_time = alloc_time;
        self
    }

    pub fn fill_time(&mut self, fill_time: FillTime) -> (r: &mut Self)
        ensures
            r.data@ == (CreateView { fill_time, ..old(self).data@ }),
            *final(self) == *final(r),
    {
        self.data.fill_time = fill_time;
        self
    }

    pub fn fill_value(&mut self, fill_value: DynValue) -> (r: &mut Self)
        ensures
            r.data@ == (CreateView { fill_value: Some((fill_value.ty@, fill_value.bytes@)), ..old(self).data@ }),
            *final(self) == *final(r),
    {
        self.data.fill_value = Some(fill_value);
        self
    }

    pub fn no_fill_value(&mut self) -> (r: &mut Self)
        ensures
            r.data@ == (CreateView { fill_value: None, ..old(self).data@ }),
            *final(self) == *final(r),
    {
        self.data.fill_value = None;
        self
    }

    pub fn chunk(&mut self, chunk: Vec<usize>) -> (r: &mut Self)
        ensures
            r.data@ == (CreateView { chunk: Some(chunk@), layout: Layout::Chunked, ..old(self).data@ }),
            *final(self) == *final(r),
    {
        self.data.chunk = Some(chunk);
        self.data.layout = Layout::Chunked;
        self
    }

    pub fn no_chunk(&mut self) -> (r: &mut Self)
        ensures
            r.data@ == (CreateView {
                chunk: None,
                layout: if old(self).data@.layout is Chunked {
                    Layout::Contiguous
                } else {
                    old(self).data@.layout
                },
                ..old(self).data@
            }),
            *final(self) == *final(r),
    {
        self.data.chunk = None;
        if self.data.layout == Layout::Chunked {
            self.data.layout = Layout::Contiguous;
        }
        self
    }

    pub fn layout(&mut self, layout: Layout) -> (r: &mut Self)
        ensures
            r.data@ == (CreateView { layout, ..old(self).data@ }),
            *final(self) == *final(r),
    {
        self.data.layout = layout;
        self
    }

    pub fn chunk_opts(&mut self, opts: ChunkOpts) -> (r: &mut Self)
        ensures
            r.data@ == (CreateView { chunk_opts: opts, ..old(self).data@ }),
            *final(self) == *final(r),
    {
        self.data.chunk_opts = opts;
        self
    }

    pub fn external(&mut self, name: &str, offset: usize, size: usize) -> (r: &mut Self)
        ensures
            r.data@ == (CreateView { external: old(self).data@.external.push((name@, offset, size)), ..old(self).data@ }),
            *final(self) == *final(r),
    {
        let ghost before = self.data.external@;
        let f = ExternalFile { name: String::from_str(name), offset, size };
        self.data.external.push(f);
        assert(external_views(self.data.external@) =~= external_views(before).push(
            (name@, offset, size),
        ));
        self
    }

    pub fn virtual_map(&mut self, map: VirtualMapping) -> (r: &mut Self)
        ensures
            r.data@ == (CreateView { maps: old(self).data@.maps.push(map@), layout: Layout::Virtual, ..old(self).data@ }),
            *final(self) == *final(r),
    {
        let ghost before = self.data.virtual_maps@;
        self.data.virtual_maps.push(map);
        self.data.layout = Layout::Virtual;
        assert(virtual_views(self.data.virtual_maps@) =~= virtual_views(before).push(map@));
        self
    }

    pub fn obj_track_times(&mut self, track_times: bool) -> (r: &mut Self)
        ensures
            r.data@ == (CreateView { obj_track_times: track_times, ..old(self).data@ }),
            *final(self) == *final(r),
    {
        self.data.obj_track_times = track_times;
        self
    }

    pub fn attr_phase_change(&mut self, max_compact: u32, min_dense: u32) -> (r: &mut Self)
        ensures
            r.data@ == (CreateView { attr_phase_change: AttrPhaseChange { max_compact, min_dense }, ..old(self).data@ }),
            *final(self) == *final(r),
    {
        self.data.attr_phase_change = AttrPhaseChange { max_compact, min_dense };
        self
    }

    pub fn attr_creation_order(&mut self, attr_creation_order: AttrCreationOrder) -> (r: &mut Self)
        ensures
            r.data@ == (CreateView { attr_creation_order, ..old(self).data@ }),
            *final(self) == *final(r),
    {
        self.data.attr_creation_order = attr_creation_order;
        self
    }

    pub fn apply(&self, plist: &mut DatasetCreate)
        ensures
            final(plist).data@ == self.data@,
    {
        plist.data = self.data.clone();
    }

    /// The property list, if its filters can be written.
    pub fn finish(&self) -> (r: Result<DatasetCreate, Error>)
        ensures
            match (r, filters_checked(self.data@.filters, 0)) {
                (Ok(p), Ok(_)) => p.data@ == self.data@,
                (Err(e), Err(m)) => e@ == m,
                _ => false,
            },
    {
        if let Err(e) = check_filters(&self.data.filters) {
            return Err(e);
        }
        Ok(DatasetCreate { data: self.data.clone() })
    }
}

} // verus!
