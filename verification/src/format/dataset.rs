//! Datasets: their data as the layout, filter, type and fill messages describe it.

use vstd::prelude::*;

use crate::error::Error;
use crate::format::chunk_index::{chunk_list, chunk_size, list_chunks};
use crate::format::chunks::{
    filled, materialize_chunks, resume_chunks, resumed, ChunkGeometry, Chunking, Progress,
    ProgressView,
};
use crate::format::convert::{disk_size, has_vlen, payloads, VlenStore};
use crate::format::datatype::{OrderTree, OrderView};
use crate::format::elements::{
    extend_signs, fit, fitted, load, loaded, sign_extended, turn, turned,
};
use crate::format::filters::{
    clone_filters, filter_views, FilterView, RawFilter, FILTER_NBIT,
};
use crate::format::gheap::GlobalHeap;
use crate::format::grid::{count, countable};
use crate::format::messages::{LayoutView, RawLayout, Space, SpaceView};
use crate::format::order::{apply_order, ordered_element};
use crate::format::{zeroes, UNDEF};
use crate::hl::filters::{Filter, FilterKind};
use crate::model::{
    count_elements, elements, filter_kinds, DatasetData, DatasetView, FillValue, FillView,
    LayoutClass, LayoutKind, LazyData, LazyKind, LazyView, PlaceView,
};
use crate::text::{decimal, join, with_number};
use crate::types::{TypeDescriptor, TypeView};

verus! {

/// The largest dataset that is read.
pub const DATASET_LIMIT: u64 = 0x10_0000_0000;

/// The number of elements of a dataset, where its size can be read.
pub open spec fn dataset_elements(space: SpaceView, size: nat) -> Result<nat, Seq<char>> {
    let n = elements(space.is_null, space.is_scalar, space.dims);
    if !space.is_null && !space.is_scalar && !countable(space.dims) {
        Err("dataset dimension overflow"@)
    } else if n * size > usize::MAX {
        Err("dataset size overflow"@)
    } else if n * size > DATASET_LIMIT {
        Err("dataset too large to materialize ("@ + decimal(n * size) + " bytes)"@)
    } else {
        Ok(n)
    }
}

fn count_dataset(space: &Space, size: usize) -> (r: Result<(u64, usize), Error>)
    ensures
        match (r, dataset_elements(space@, size as nat)) {
            (Ok((n, total)), Ok(m)) => n == m && total == n * size,
            (Err(e), Err(m)) => e@ == m,
            _ => false,
        },
{
    let n: u64 = match count_elements(space.is_null, space.is_scalar, space.dims.as_slice()) {
        Some(n) => n,
        None => {
            return Err(Error::new("dataset dimension overflow"));
        },
    };
    assert(n * size <= 0xffff_ffff_ffff_ffff * 0xffff_ffff_ffff_ffff) by (nonlinear_arith)
        requires
            0 <= n <= 0xffff_ffff_ffff_ffff,
            0 <= size <= 0xffff_ffff_ffff_ffff,
    ;
    let total: u128 = n as u128 * size as u128;
    if total > usize::MAX as u128 {
        return Err(Error::new("dataset size overflow"));
    }
    if total > DATASET_LIMIT as u128 {
        let a = with_number("dataset too large to materialize (", total as u64);
        return Err(Error::from_text(join(a.as_str(), " bytes)")));
    }
    Ok((n, total as usize))
}

/// The first filter with an identifier.
pub open spec fn first_filter(fs: Seq<FilterView>, id: u16) -> Option<FilterView>
    decreases fs.len(),
{
    if fs.len() == 0 {
        None
    } else if fs[0].id == id {
        Some(fs[0])
    } else {
        first_filter(fs.skip(1), id)
    }
}

/// The number of bits whose sign is carried on in a dataset of signed numbers that
/// were stored with the n-bit filter.
pub open spec fn stored_bits(fs: Seq<FilterView>, ty: TypeView) -> Option<nat> {
    match first_filter(fs, FILTER_NBIT) {
        None => None,
        Some(f) => {
            let precision = crate::format::filters::word_or(f.cdata, 6, 0);
            let offset = crate::format::filters::word_or(f.cdata, 7, 0);
            if ty is Integer && f.cdata.len() > 1 && f.cdata[1] == 0 && precision > 0 && offset == 0
                && precision <= 8 * ty.disk_size() {
                Some(precision)
            } else {
                None
            }
        },
    }
}

fn find_stored_bits(fs: &Vec<RawFilter>, ty: &TypeDescriptor) -> (r: Option<u32>)
    requires
        ty@.sized(),
    ensures
        match (r, stored_bits(filter_views(fs@), ty@)) {
            (Some(a), Some(b)) => a == b && 1 <= a <= 8 * ty@.disk_size(),
            (None, None) => true,
            _ => false,
        },
        r is Some ==> 1 <= ty@.disk_size() <= 8,
{
    let ghost views = filter_views(fs@);
    let n: usize = fs.len();
    let mut i: usize = 0;
    assert(views.skip(0) =~= views);
    while i < n
        invariant
            i <= n == fs@.len(),
            views == filter_views(fs@),
            ty@.sized(),
            first_filter(views, FILTER_NBIT) == first_filter(views.skip(i as int), FILTER_NBIT),
        decreases n - i,
    {
        assert(views.skip(i as int)[0] == fs@[i as int]@);
        assert(views.skip(i as int).skip(1) =~= views.skip(i + 1));
        let f = &fs[i];
        if f.id == FILTER_NBIT {
            let k: usize = f.cdata.len();
            let precision: u32 = if k > 6 {
                f.cdata[6]
            } else {
                0
            };
            let offset: u32 = if k > 7 {
                f.cdata[7]
            } else {
                0
            };
            if let TypeDescriptor::Integer(_) = ty {
                let size: usize = disk_size(ty);
                if k > 1 && f.cdata[1] == 0 && precision > 0 && offset == 0 && precision as u64 <= 8
                    * size as u64 {
                    return Some(precision);
                }
            }
            return None;
        }
        i += 1;
    }
    None
}

/// Elements after the sign bits were carried on.
pub open spec fn extended_cells(bytes: Seq<u8>, size: nat, n: nat, bits: Option<nat>) -> Seq<u8> {
    match bits {
        None => bytes,
        Some(p) => sign_extended(bytes, size, p, n),
    }
}

/// Where the data of a dataset stand, or the data themselves.
pub enum SourceView {
    Bytes(Seq<u8>),
    Place(PlaceView),
}

/// The layout class of a dataset, and where its data stand.
pub open spec fn layout_source(
    data: Seq<u8>,
    base: u64,
    layout: LayoutView,
    ty: TypeView,
    dims: Seq<u64>,
    filters: Seq<FilterView>,
    logical: nat,
) -> Result<(LayoutKind, SourceView), Seq<char>> {
    match layout {
        LayoutView::Compact(b) => Ok(
            (LayoutKind::Compact, SourceView::Bytes(fitted(b, logical))),
        ),
        LayoutView::Contiguous { addr, size } => if addr == UNDEF || logical == 0 {
            Ok((LayoutKind::Contiguous, SourceView::Bytes(zeroes(logical))))
        } else {
            let start = base + addr;
            let n = if size < logical {
                size as nat
            } else {
                logical
            };
            if start + n > data.len() {
                Err("contiguous data out of bounds"@)
            } else if filters.len() == 0 && !ty.has_vlen() {
                Ok(
                    (
                        LayoutKind::Contiguous,
                        SourceView::Place(
                            PlaceView::Contiguous { offset: start as nat, len: n },
                        ),
                    ),
                )
            } else {
                Ok(
                    (
                        LayoutKind::Contiguous,
                        SourceView::Bytes(fitted(data.subrange(start, start + n), logical)),
                    ),
                )
            }
        },
        LayoutView::Chunked { index, chunk_dims } => {
            let cdims = if chunk_dims.len() == 0 {
                chunk_dims
            } else {
                chunk_dims.drop_last()
            };
            match chunk_list(data, base, index, dims, cdims, ty.disk_size()) {
                Err(e) => Err(e),
                Ok(chunks) => if ty.has_vlen() {
                    match chunked_bytes(
                        data,
                        base,
                        chunks,
                        dims,
                        cdims,
                        ty.disk_size(),
                        filters,
                        logical,
                    ) {
                        Err(e) => Err(e),
                        Ok(b) => Ok((LayoutKind::Chunked(cdims), SourceView::Bytes(b))),
                    }
                } else {
                    Ok(
                        (
                            LayoutKind::Chunked(cdims),
                            SourceView::Place(
                                PlaceView::Chunked {
                                    chunks,
                                    dims,
                                    chunk_dims: cdims,
                                    elem_size: ty.disk_size(),
                                    filters,
                                },
                            ),
                        ),
                    )
                },
            }
        },
        LayoutView::Virtual { gh_addr, gh_idx } => Ok(
            (LayoutKind::Virtual(Seq::empty()), SourceView::Bytes(zeroes(logical))),
        ),
    }
}

/// The bytes of a chunked dataset without floating-point scaling.
pub open spec fn chunked_bytes(
    data: Seq<u8>,
    base: u64,
    chunks: Seq<crate::model::ChunkView>,
    dims: Seq<u64>,
    cdims: Seq<u64>,
    elem: nat,
    filters: Seq<FilterView>,
    logical: nat,
) -> Result<Seq<u8>, Seq<char>> {
    match chunk_size(dims, cdims, elem) {
        Err(e) => Err(e),
        Ok(bytes) => if logical != count(dims) * elem {
            Err("chunked data without dimensions"@)
        } else {
            match filled(
                data,
                base,
                chunks,
                0,
                ChunkGeometry { dims, cdims, elem, bytes, filters },
                zeroes(logical),
            ) {
                Err(e) => Err(e),
                Ok(ProgressView::Done(b)) => Ok(b),
                Ok(ProgressView::Float { out, chunk, next, block }) => Err(
                    "floating-point scaling of variable-length data"@,
                ),
            }
        },
    }
}

/// The fill value in the byte order of the model.
pub open spec fn turned_fill(fill: FillView, order: OrderView, size: nat) -> FillView {
    match fill {
        FillView::UserDefined(v) => if !(order is Plain) && v.len() >= size {
            FillView::UserDefined(
                ordered_element(order, v.take(size as int), Seq::empty()).0 + v.skip(size as int),
            )
        } else {
            fill
        },
        _ => fill,
    }
}

/// The views of filters of a pipeline.
pub open spec fn kinds_of(fs: Seq<FilterView>) -> Seq<FilterKind> {
    fs.map_values(|f: FilterView| FilterKind::of_raw(f.id, f.cdata))
}

/// The dataset that the messages of a header describe.
pub open spec fn dataset_read(
    data: Seq<u8>,
    base: u64,
    layout: LayoutView,
    ty: TypeView,
    order: OrderView,
    space: SpaceView,
    fill: FillView,
    filters: Seq<FilterView>,
) -> Result<DatasetView, Seq<char>> {
    let size = ty.disk_size();
    match dataset_elements(space, size) {
        Err(e) => Err(e),
        Ok(n) => match layout_source(data, base, layout, ty, space.dims, filters, n * size) {
            Err(e) => Err(e),
            Ok((class, source)) => {
                let bits = stored_bits(filters, ty);
                let rest = DatasetView {
                    dtype: ty,
                    dims: space.dims,
                    maxdims: space.maxdims,
                    layout: class,
                    filters: kinds_of(filters),
                    fill: turned_fill(fill, order, size),
                    data: Seq::empty(),
                    vlen: Seq::empty(),
                    lazy: None,
                    is_scalar: space.is_scalar,
                    is_null: space.is_null,
                };
                match source {
                    SourceView::Place(kind) => Ok(
                        DatasetView {
                            lazy: Some(
                                LazyView {
                                    base,
                                    logical: n * size,
                                    kind,
                                    extend: match bits {
                                        None => None,
                                        Some(p) => Some((size, p)),
                                    },
                                    elem_size: size,
                                    order,
                                },
                            ),
                            ..rest
                        },
                    ),
                    SourceView::Bytes(b) => match loaded(
                        data,
                        base,
                        ty,
                        n,
                        extended_cells(b, size, n, bits),
                    ) {
                        Err(e) => Err(e),
                        Ok((cells, store)) => {
                            let (cells, store) = turned(order, size, n, cells, store);
                            Ok(DatasetView { data: cells, vlen: store, ..rest })
                        },
                    },
                }
            },
        },
    }
}

enum Source {
    Bytes(Vec<u8>),
    Place(LazyKind),
}

spec fn source_view(s: Source) -> SourceView {
    match s {
        Source::Bytes(b) => SourceView::Bytes(b@),
        Source::Place(k) => SourceView::Place(k@),
    }
}

fn zero_data(n: usize) -> (r: Vec<u8>)
    ensures
        r@ == zeroes(n as nat),
{
    let r = vec![0u8; n];
    assert(r@ =~= zeroes(n as nat));
    r
}

fn copy_dims(v: &[u64]) -> (r: Vec<u64>)
    ensures
        r@ == v@,
{
    vstd::slice::slice_to_vec(v)
}

fn read_chunked_bytes(
    data: &[u8],
    base: u64,
    chunks: &Vec<crate::model::ChunkRef>,
    dims: &[u64],
    cdims: &[u64],
    elem: usize,
    filters: &Vec<RawFilter>,
    logical: usize,
) -> (r: Result<Vec<u8>, Error>)
    ensures
        crate::error::same_bytes(
            r,
            chunked_bytes(
                data@,
                base,
                crate::model::chunk_views(chunks@),
                dims@,
                cdims@,
                elem as nat,
                filter_views(filters@),
                logical as nat,
            ),
        ),
        r matches Ok(v) ==> v@.len() == logical,
{
    let g = Chunking::new(dims, cdims, elem, filters.as_slice())?;
    if !sized_exactly(dims, elem, logical) {
        return Err(Error::new("chunked data without dimensions"));
    }
    match materialize_chunks(data, base, chunks, 0, &g, zero_data(logical))? {
        Progress::Done(v) => Ok(v),
        Progress::Float { out: _, chunk: _, next: _, block: _ } => Err(
            Error::new("floating-point scaling of variable-length data"),
        ),
    }
}

fn find_source(
    data: &[u8],
    base: u64,
    layout: &RawLayout,
    ty: &TypeDescriptor,
    dims: &Vec<u64>,
    filters: &Vec<RawFilter>,
    logical: usize,
) -> (r: Result<(LayoutClass, Source), Error>)
    requires
        ty@.sized(),
        dims@.len() <= 255,
    ensures
        match (
            r,
            layout_source(
                data@,
                base,
                layout@,
                ty@,
                dims@,
                filter_views(filters@),
                logical as nat,
            ),
        ) {
            (Ok((a, b)), Ok((x, y))) => a@ == x && source_view(b) == y,
            (Err(e), Err(m)) => e@ == m,
            _ => false,
        },
        r matches Ok((a, Source::Bytes(v))) ==> v@.len() == logical,
{
    match layout {
        RawLayout::Compact(b) => Ok(
            (
                LayoutClass::Compact,
                Source::Bytes(fit(vstd::slice::slice_to_vec(b.as_slice()), logical)),
            ),
        ),
        RawLayout::Contiguous { addr, size } => {
            if *addr == UNDEF || logical == 0 {
                return Ok((LayoutClass::Contiguous, Source::Bytes(zero_data(logical))));
            }
            let start: u128 = base as u128 + *addr as u128;
            let n: usize = if *size < logical as u64 {
                *size as usize
            } else {
                logical
            };
            if start + n as u128 > data.len() as u128 {
                return Err(Error::new("contiguous data out of bounds"));
            }
            let from: usize = start as usize;
            if filters.len() == 0 && !has_vlen(ty) {
                return Ok(
                    (
                        LayoutClass::Contiguous,
                        Source::Place(LazyKind::Contiguous { offset: from, len: n }),
                    ),
                );
            }
            let part = vstd::slice::slice_to_vec(
                vstd::slice::slice_subrange(data, from, from + n),
            );
            Ok((LayoutClass::Contiguous, Source::Bytes(fit(part, logical))))
        },
        RawLayout::Chunked { index, chunk_dims } => {
            let rank: usize = chunk_dims.len();
            let cdims = if rank == 0 {
                copy_dims(chunk_dims.as_slice())
            } else {
                let v = copy_dims(
                    vstd::slice::slice_subrange(chunk_dims.as_slice(), 0, rank - 1),
                );
                assert(v@ =~= chunk_dims@.drop_last());
                v
            };
            let elem: usize = disk_size(ty);
            let chunks = list_chunks(data, base, index, dims.as_slice(), cdims.as_slice(), elem)?;
            if has_vlen(ty) {
                let b = read_chunked_bytes(
                    data,
                    base,
                    &chunks,
                    dims.as_slice(),
                    cdims.as_slice(),
                    elem,
                    filters,
                    logical,
                )?;
                return Ok((LayoutClass::Chunked(cdims), Source::Bytes(b)));
            }
            let kind = LazyKind::Chunked {
                chunks,
                dims: copy_dims(dims.as_slice()),
                chunk_dims: copy_dims(cdims.as_slice()),
                elem_size: elem,
                filters: clone_filters(filters.as_slice()),
            };
            Ok((LayoutClass::Chunked(cdims), Source::Place(kind)))
        },
        RawLayout::Virtual { gh_addr: _, gh_idx: _ } => {
            let none: Vec<crate::format::vds::VdsMapping> = Vec::new();
            assert(crate::format::vds::mapping_views(none@) =~= Seq::empty());
            Ok((LayoutClass::Virtual(none), Source::Bytes(zero_data(logical))))
        },
    }
}

fn turn_fill(fill: FillValue, order: &OrderTree, size: usize) -> (r: FillValue)
    ensures
        r@ == turned_fill(fill@, order@, size as nat),
{
    match fill {
        FillValue::UserDefined(v) => {
            let n: usize = v.len();
            if order.is_none() || n < size {
                return FillValue::UserDefined(v);
            }
            let head = vstd::slice::slice_to_vec(
                vstd::slice::slice_subrange(v.as_slice(), 0, size),
            );
            let mut tail = vstd::slice::slice_to_vec(
                vstd::slice::slice_subrange(v.as_slice(), size, n),
            );
            assert(head@ =~= v@.take(size as int));
            assert(tail@ =~= v@.skip(size as int));
            let mut none: VlenStore = Vec::new();
            assert(payloads(none@) =~= Seq::<Seq<u8>>::empty());
            let mut out = apply_order(order, head, &mut none);
            out.append(&mut tail);
            FillValue::UserDefined(out)
        },
        other => other,
    }
}

fn list_filters(fs: &Vec<RawFilter>) -> (r: Vec<Filter>)
    ensures
        filter_kinds(r@) == kinds_of(filter_views(fs@)),
{
    let n: usize = fs.len();
    let mut out: Vec<Filter> = Vec::new();
    let mut i: usize = 0;
    while i < n
        invariant
            i <= n == fs@.len(),
            filter_kinds(out@) =~= kinds_of(filter_views(fs@)).take(i as int),
        decreases n - i,
    {
        let ghost before = out@;
        let f = Filter::from_raw_parts(fs[i].id, fs[i].cdata.as_slice());
        out.push(f);
        assert(filter_kinds(out@) =~= filter_kinds(before).push(f@));
        assert(filter_views(fs@)[i as int] == fs@[i as int]@);
        i += 1;
    }
    assert(kinds_of(filter_views(fs@)).take(n as int) =~= kinds_of(filter_views(fs@)));
    out
}

/// Reads the dataset that the messages of a header describe.
pub fn read_dataset(
    heap: &mut GlobalHeap,
    layout: &RawLayout,
    ty: TypeDescriptor,
    order: OrderTree,
    space: Space,
    fill: FillValue,
    filters: &Vec<RawFilter>,
) -> (r: Result<DatasetData, Error>)
    requires
        old(heap).wf(),
        ty@.sized(),
        space@.dims.len() <= 255,
    ensures
        final(heap).wf(),
        final(heap).data@ == old(heap).data@,
        final(heap).base == old(heap).base,
        match (
            r,
            dataset_read(
                old(heap).data@,
                old(heap).base,
                layout@,
                ty@,
                order@,
                space@,
                fill@,
                filter_views(filters@),
            ),
        ) {
            (Ok(a), Ok(b)) => a@ == b && a.dtype@.sized(),
            (Err(e), Err(m)) => e@ == m,
            _ => false,
        },
{
    let size: usize = disk_size(&ty);
    let (n, total): (u64, usize) = count_dataset(&space, size)?;
    let (class, source) = find_source(
        heap.data,
        heap.base,
        layout,
        &ty,
        &space.dims,
        filters,
        total,
    )?;
    let bits = find_stored_bits(filters, &ty);
    let kinds = list_filters(filters);
    let new_fill = turn_fill(fill, &order, size);
    match source {
        Source::Place(kind) => {
            let lazy = LazyData {
                base: heap.base,
                logical: total,
                kind,
                extend: match bits {
                    None => None,
                    Some(p) => Some((size, p)),
                },
                elem_size: size,
                order,
            };
            let none: VlenStore = Vec::new();
            assert(payloads(none@) =~= Seq::<Seq<u8>>::empty());
            Ok(
                DatasetData {
                    dtype: ty,
                    dims: space.dims,
                    maxdims: space.maxdims,
                    layout: class,
                    filters: kinds,
                    fill: new_fill,
                    data: Vec::new(),
                    vlen: none,
                    lazy: Some(lazy),
                    is_scalar: space.is_scalar,
                    is_null: space.is_null,
                },
            )
        },
        Source::Bytes(b) => {
            let ghost raw = b@;
            if size == 0 || n == 0 {
                assert(total == 0) by (nonlinear_arith)
                    requires
                        total == n * size,
                        size == 0 || n == 0,
                ;
                assert(b@ =~= Seq::<u8>::empty());
                let none: VlenStore = Vec::new();
                proof {
                    assert(payloads(none@) =~= Seq::<Seq<u8>>::empty());
                    let bv = stored_bits(filter_views(filters@), ty@);
                    assert(extended_cells(raw, size as nat, n as nat, bv) == raw);
                    assert(turned(order@, size as nat, n as nat, raw, Seq::empty()) == (
                        raw,
                        Seq::<Seq<u8>>::empty(),
                    )) by {
                        reveal_with_fuel(crate::format::order::ordered_cells, 1);
                    }
                }
                return Ok(
                    DatasetData {
                        dtype: ty,
                        dims: space.dims,
                        maxdims: space.maxdims,
                        layout: class,
                        filters: kinds,
                        fill: new_fill,
                        data: b,
                        vlen: none,
                        lazy: None,
                        is_scalar: space.is_scalar,
                        is_null: space.is_null,
                    },
                );
            }
            assert(n <= total && total == size * n) by (nonlinear_arith)
                requires
                    total == n * size,
                    size >= 1,
                    n >= 0,
            ;
            let cells = match bits {
                None => b,
                Some(p) => extend_signs(b, size, p, n as usize),
            };
            let (cells, mut store) = load(heap, &ty, n as usize, cells)?;
            let cells = turn(&order, size, n as usize, cells, &mut store);
            Ok(
                DatasetData {
                    dtype: ty,
                    dims: space.dims,
                    maxdims: space.maxdims,
                    layout: class,
                    filters: kinds,
                    fill: new_fill,
                    data: cells,
                    vlen: store,
                    lazy: None,
                    is_scalar: space.is_scalar,
                    is_null: space.is_null,
                },
            )
        },
    }
}

// Deferred data.

/// The stored bytes of deferred data, as far as they can be read without
/// floating-point scaling.
pub open spec fn lazy_started(data: Seq<u8>, l: LazyView) -> Result<ProgressView, Seq<char>> {
    match l.kind {
        PlaceView::Contiguous { offset, len } => if offset + len > data.len() {
            Err("contiguous data out of bounds"@)
        } else {
            Ok(
                ProgressView::Done(
                    fitted(data.subrange(offset as int, (offset + len) as int), l.logical),
                ),
            )
        },
        PlaceView::Chunked { chunks, dims, chunk_dims, elem_size, filters } => match chunk_size(
            dims,
            chunk_dims,
            elem_size,
        ) {
            Err(e) => Err(e),
            Ok(bytes) => if l.logical != count(dims) * elem_size {
                Err("chunked data without dimensions"@)
            } else {
                filled(
                    data,
                    l.base,
                    chunks,
                    0,
                    ChunkGeometry { dims, cdims: chunk_dims, elem: elem_size, bytes, filters },
                    zeroes(l.logical),
                )
            },
        },
    }
}

/// How reading deferred data goes on with the scaled elements of a chunk.
pub open spec fn lazy_resumed(
    data: Seq<u8>,
    l: LazyView,
    out: Seq<u8>,
    chunk: int,
    next: int,
    scaled: Seq<u8>,
) -> Result<ProgressView, Seq<char>> {
    match l.kind {
        PlaceView::Contiguous { offset, len } => Err("dataset is not chunked"@),
        PlaceView::Chunked { chunks, dims, chunk_dims, elem_size, filters } => match chunk_size(
            dims,
            chunk_dims,
            elem_size,
        ) {
            Err(e) => Err(e),
            Ok(bytes) => if out.len() != count(dims) * elem_size {
                Err("chunked data without dimensions"@)
            } else {
                resumed(
                    data,
                    l.base,
                    chunks,
                    ChunkGeometry { dims, cdims: chunk_dims, elem: elem_size, bytes, filters },
                    out,
                    chunk,
                    next,
                    scaled,
                )
            },
        },
    }
}

/// The elements of deferred data, once their stored bytes were read.
pub open spec fn lazy_finished(l: LazyView, bytes: Seq<u8>) -> Seq<u8> {
    let n = if l.elem_size == 0 {
        0
    } else {
        bytes.len() / l.elem_size
    };
    let cells = match l.extend {
        Some((size, p)) => if 1 <= size <= 8 && 1 <= p <= 8 * size {
            sign_extended(bytes, size, p, n)
        } else {
            bytes
        },
        None => bytes,
    };
    turned(l.order, l.elem_size, n, cells, Seq::empty()).0
}

/// Whether the number of bytes of an array is known.
fn sized_exactly(dims: &[u64], elem: usize, logical: usize) -> (r: bool)
    ensures
        r == (logical == count(dims@) * elem),
{
    match crate::format::grid::checked_count(dims) {
        None => {
            proof {
                let n = count(dims@);
                let e = elem as nat;
                if e > 0 {
                    assert(n * e >= n) by (nonlinear_arith)
                        requires
                            e >= 1,
                    ;
                } else {
                    assert(n * e == 0) by (nonlinear_arith)
                        requires
                            e == 0,
                    ;
                }
            }
            elem == 0 && logical == 0
        },
        Some(n) => {
            assert(n * elem <= 0xffff_ffff_ffff_ffff * 0xffff_ffff_ffff_ffff) by (nonlinear_arith)
                requires
                    0 <= n <= 0xffff_ffff_ffff_ffff,
                    0 <= elem <= 0xffff_ffff_ffff_ffff,
            ;
            n as u128 * elem as u128 == logical as u128
        },
    }
}

impl LazyData {
    /// Reads the stored bytes from the file image.
    pub fn start(&self, data: &[u8]) -> (r: Result<Progress, Error>)
        ensures
            crate::format::chunks::progress_as(r, lazy_started(data@, self@)),
            r matches Ok(Progress::Done(v)) ==> v@.len() == self.logical,
    {
        match &self.kind {
            LazyKind::Contiguous { offset, len } => {
                let total: usize = data.len();
                if *offset > total || *len > total - *offset {
                    return Err(Error::new("contiguous data out of bounds"));
                }
                let v = vstd::slice::slice_to_vec(
                    vstd::slice::slice_subrange(data, *offset, *offset + *len),
                );
                Ok(Progress::Done(fit(v, self.logical)))
            },
            LazyKind::Chunked { chunks, dims, chunk_dims, elem_size, filters } => {
                let g = Chunking::new(
                    dims.as_slice(),
                    chunk_dims.as_slice(),
                    *elem_size,
                    filters.as_slice(),
                )?;
                if !sized_exactly(dims.as_slice(), *elem_size, self.logical) {
                    return Err(Error::new("chunked data without dimensions"));
                }
                materialize_chunks(data, self.base, chunks, 0, &g, zero_data(self.logical))
            },
        }
    }

    /// Goes on reading, with the scaled elements of a chunk.
    pub fn resume(&self, data: &[u8], left: Unfinished, scaled: &[u8]) -> (r: Result<
        Progress,
        Error,
    >)
        ensures
            crate::format::chunks::progress_as(
                r,
                lazy_resumed(
                    data@,
                    self@,
                    left.out@,
                    left.chunk as int,
                    left.next as int,
                    scaled@,
                ),
            ),
    {
        match &self.kind {
            LazyKind::Contiguous { offset, len } => Err(Error::new("dataset is not chunked")),
            LazyKind::Chunked { chunks, dims, chunk_dims, elem_size, filters } => {
                let g = Chunking::new(
                    dims.as_slice(),
                    chunk_dims.as_slice(),
                    *elem_size,
                    filters.as_slice(),
                )?;
                let total: usize = left.out.len();
                if !sized_exactly(dims.as_slice(), *elem_size, total) {
                    return Err(Error::new("chunked data without dimensions"));
                }
                resume_chunks(
                    data,
                    self.base,
                    chunks,
                    &g,
                    left.out,
                    left.chunk,
                    left.next,
                    scaled,
                )
            },
        }
    }

    /// Settles the signs and the byte order of the stored bytes.
    pub fn finish(&self, bytes: Vec<u8>) -> (r: Vec<u8>)
        ensures
            r@ == lazy_finished(self@, bytes@),
            r@.len() == bytes@.len(),
    {
        let n: usize = if self.elem_size == 0 {
            0
        } else {
            bytes.len() / self.elem_size
        };
        let cells = match self.extend {
            None => bytes,
            Some((size, p)) => {
                if 1 <= size && size <= 8 && 1 <= p && p as usize <= 8 * size {
                    extend_signs(bytes, size, p, n)
                } else {
                    bytes
                }
            },
        };
        let mut none: VlenStore = Vec::new();
        assert(payloads(none@) =~= Seq::<Seq<u8>>::empty());
        turn(&self.order, self.elem_size, n, cells, &mut none)
    }
}

/// What is left to do before the data of a dataset are in memory: the elements of a
/// chunk have to be scaled as floating-point numbers.
pub struct Unfinished {
    pub out: Vec<u8>,
    pub chunk: usize,
    pub next: usize,
    pub block: crate::format::scaleoffset::FloatBlock,
}

impl DatasetData {
    /// Copies deferred data out of the file image.
    pub fn materialize(&mut self, image: &[u8]) -> (r: Result<Option<Unfinished>, Error>)
        ensures
            match old(self)@.lazy {
                None => (r matches Ok(None)) && final(self)@ == old(self)@,
                Some(l) => match lazy_started(image@, l) {
                    Err(m) => (r matches Err(e) && e@ == m) && final(self)@ == old(self)@,
                    Ok(ProgressView::Done(b)) => (r matches Ok(None)) && final(self)@ == (
                    DatasetView { data: lazy_finished(l, b), lazy: None, ..old(self)@ }),
                    Ok(ProgressView::Float { out, chunk, next, block }) => {
                        &&& final(self)@ == old(self)@
                        &&& r matches Ok(Some(u)) && u.out@ == out && u.chunk == chunk && u.next
                            == next && crate::format::scaleoffset::Unscaled::Float(u.block)@
                            == block
                    },
                },
            },
    {
        let data = match &self.lazy {
            None => {
                return Ok(None);
            },
            Some(l) => match l.start(image)? {
                Progress::Done(v) => l.finish(v),
                Progress::Float { out, chunk, next, block } => {
                    return Ok(Some(Unfinished { out, chunk, next, block }));
                },
            },
        };
        self.data = data;
        self.lazy = None;
        Ok(None)
    }

    /// Goes on copying deferred data out of the file image, with the scaled elements of a
    /// chunk.
    pub fn resume(&mut self, image: &[u8], left: Unfinished, scaled: &[u8]) -> (r: Result<
        Option<Unfinished>,
        Error,
    >)
        ensures
            match old(self)@.lazy {
                None => (r matches Ok(None)) && final(self)@ == old(self)@,
                Some(l) => match lazy_resumed(
                    image@,
                    l,
                    left.out@,
                    left.chunk as int,
                    left.next as int,
                    scaled@,
                ) {
                    Err(m) => (r matches Err(e) && e@ == m) && final(self)@ == old(self)@,
                    Ok(ProgressView::Done(b)) => (r matches Ok(None)) && final(self)@ == (
                    DatasetView { data: lazy_finished(l, b), lazy: None, ..old(self)@ }),
                    Ok(ProgressView::Float { out, chunk, next, block }) => {
                        &&& final(self)@ == old(self)@
                        &&& r matches Ok(Some(u)) && u.out@ == out && u.chunk == chunk && u.next
                            == next && crate::format::scaleoffset::Unscaled::Float(u.block)@
                            == block
                    },
                },
            },
    {
        let data = match &self.lazy {
            None => {
                return Ok(None);
            },
            Some(l) => match l.resume(image, left, scaled)? {
                Progress::Done(v) => l.finish(v),
                Progress::Float { out, chunk, next, block } => {
                    return Ok(Some(Unfinished { out, chunk, next, block }));
                },
            },
        };
        self.data = data;
        self.lazy = None;
        Ok(None)
    }
}

} // verus!
