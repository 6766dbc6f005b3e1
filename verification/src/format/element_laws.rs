//! What the elements of a dataset are read as, from where they are stored.

use vstd::prelude::*;

use crate::format::bits::pow2;
use crate::format::chunk_list_laws::reads_back;
use crate::format::chunk_write::CutView;
use crate::format::dataset::{
    dataset_elements, dataset_read, first_filter, lazy_finished, stored_bits, turned_fill,
};
use crate::format::dataset_laws::elements_of;
use crate::format::datatype::OrderView;
use crate::format::filters::FilterView;
use crate::format::grid::count;
use crate::format::messages::{ChunkIndex, LayoutView, SpaceView};
use crate::format::number_laws::{be, law_big_endian_cells, law_big_endian_number, law_signs_kept};
use crate::format::vds_data::vds_start;
use crate::format::{le, le_at, UNDEF};
use crate::model::{FillView, LazyView};
use crate::types::TypeView;

verus! {

/// The bytes of a dataset that stand one behind the other are read from there, as far as
/// the dataset has elements; where fewer bytes are stored, zeros follow them.
pub proof fn law_contiguous_read(
    data: Seq<u8>,
    base: u64,
    addr: u64,
    size: u64,
    ty: TypeView,
    space: SpaceView,
    fill: FillView,
    i: int,
)
    requires
        !ty.has_vlen(),
        addr != UNDEF,
        dataset_elements(space, ty.disk_size()) is Ok,
        ({
            let n = dataset_elements(space, ty.disk_size())->Ok_0 * ty.disk_size();
            &&& 0 <= i < n
            &&& base + addr + size <= data.len()
        }),
    ensures
        ({
            let r = dataset_read(
                data,
                base,
                LayoutView::Contiguous { addr, size },
                ty,
                OrderView::Plain,
                space,
                fill,
                Seq::empty(),
            );
            let n = dataset_elements(space, ty.disk_size())->Ok_0 * ty.disk_size();
            &&& r is Ok
            &&& elements_of(data, r->Ok_0) matches Some(v) && v.len() == n && v[i] == (if i < size {
                data[base + addr + i]
            } else {
                0
            })
        }),
{
}

/// A big-endian dataset keeps its numbers: each of them is the one that its stored bytes
/// denote, most significant byte first.
pub proof fn law_big_endian_dataset(
    data: Seq<u8>,
    base: u64,
    addr: u64,
    size: u64,
    ty: TypeView,
    space: SpaceView,
    fill: FillView,
    i: nat,
)
    requires
        !ty.has_vlen(),
        addr != UNDEF,
        ty.disk_size() > 0,
        dataset_elements(space, ty.disk_size()) is Ok,
        ({
            let n = dataset_elements(space, ty.disk_size())->Ok_0;
            &&& i < n
            &&& size == n * ty.disk_size()
            &&& base + addr + size <= data.len()
        }),
    ensures
        ({
            let w = ty.disk_size();
            let r = dataset_read(
                data,
                base,
                LayoutView::Contiguous { addr, size },
                ty,
                OrderView::SwapLeaf(w),
                space,
                fill,
                Seq::empty(),
            );
            &&& r is Ok
            &&& elements_of(data, r->Ok_0) matches Some(v) && v.len() == size && le(
                v.subrange((i * w) as int, i * w + w as int),
            ) == be(data.subrange(base + addr + i * w, base + addr + i * w + w))
        }),
{
    let w = ty.disk_size();
    let n = dataset_elements(space, w)->Ok_0;
    let order = OrderView::SwapLeaf(w);
    let bytes = data.subrange(base + addr, base + addr + size);
    assert((i + 1) * w <= n * w && (i + 1) * w == i * w + w && 0 <= i * w) by (nonlinear_arith)
        requires
            i + 1 <= n,
    ;
    assert((n * w) / w == n) by (nonlinear_arith)
        requires
            w > 0,
    ;
    assert(bytes.take(size as int) =~= bytes);
    law_big_endian_cells(w, w, n, bytes, Seq::empty(), i);
    assert(bytes.subrange((i * w) as int, i * w + w as int) =~= data.subrange(
        base + addr + i * w,
        base + addr + i * w + w,
    ));
}

/// The fill value of a big-endian dataset keeps its number too.
pub proof fn law_big_endian_fill(v: Seq<u8>, w: nat)
    requires
        v.len() == w,
    ensures
        turned_fill(FillView::UserDefined(v), OrderView::SwapLeaf(w), w) matches FillView::UserDefined(
            r,
        ) && r.len() == w && le(r) == be(v),
{
    law_big_endian_number(w, v, Seq::empty());
    assert(v.take(w as int) =~= v);
    let r = crate::format::order::ordered_element(OrderView::SwapLeaf(w), v, Seq::empty()).0;
    assert(r.take(w as int) =~= r);
    assert(r + v.skip(w as int) =~= r);
}

/// Signed numbers that are stored with `p` bits keep their values when they are read.
pub proof fn law_signed_read(l: LazyView, bytes: Seq<u8>, size: nat, p: nat, i: nat, x: int)
    requires
        l.extend == Some((size, p)),
        l.elem_size == size,
        l.order is Plain,
        1 <= size <= 8,
        1 <= p <= 8 * size,
        (i + 1) * size <= bytes.len(),
        -pow2((p - 1) as nat) <= x < pow2((p - 1) as nat),
        le_at(bytes, (i * size) as int, size as int) == x % pow2(p) as int,
    ensures
        lazy_finished(l, bytes).len() == bytes.len(),
        le_at(lazy_finished(l, bytes), (i * size) as int, size as int) == x % pow2(
            8 * size,
        ) as int,
{
    let n = bytes.len() / size;
    assert(i < n) by (nonlinear_arith)
        requires
            (i + 1) * size <= bytes.len(),
            n == bytes.len() / size,
            size > 0,
    ;
    law_signs_kept(bytes, size, p, n, i, x);
}

/// The signs of a dataset are carried on exactly where its elements are signed and its
/// N-bit filter keeps their low bits only.
pub proof fn law_stored_bits(f: FilterView, ty: TypeView)
    requires
        f.cdata.len() >= 8,
    ensures
        f.id == 5 ==> stored_bits(seq![f], ty) == (if ty is Integer && f.cdata[1] == 0 && 0 < f.cdata[6] <= 8
            * ty.disk_size() && f.cdata[7] == 0 {
            Some(f.cdata[6] as nat)
        } else {
            None
        }),
        f.id != 5 ==> stored_bits(seq![f], ty) is None,
{
    assert(seq![f][0] == f);
    assert(seq![f].skip(1).len() == 0);
    assert(first_filter(seq![f].skip(1), 5) is None);
}

/// A chunked dataset is read as the array that was cut into its chunks, whatever index
/// lists them.
pub proof fn law_chunked_read(
    data: Seq<u8>,
    base: u64,
    index: ChunkIndex,
    last: u64,
    cut: CutView,
    ty: TypeView,
    space: SpaceView,
    fill: FillView,
)
    requires
        reads_back(data, base, index, cut),
        !ty.has_vlen(),
        ty.disk_size() == cut.size,
        space.dims == cut.dims,
        !space.is_null,
        !space.is_scalar,
        cut.size > 0,
        cut.data.len() == count(cut.dims) * cut.size,
        dataset_elements(space, cut.size) is Ok,
        stored_bits(cut.filters, ty) is None,
        crate::format::chunk_index::chunk_size(cut.dims, cut.cdims, cut.size) is Ok,
    ensures
        ({
            let r = dataset_read(
                data,
                base,
                LayoutView::Chunked { index, chunk_dims: cut.cdims.push(last) },
                ty,
                OrderView::Plain,
                space,
                fill,
                cut.filters,
            );
            r is Ok && elements_of(data, r->Ok_0) == Some(cut.data)
        }),
{
    assert(cut.cdims.push(last).drop_last() =~= cut.cdims);
}

/// A virtual dataset starts with its fill value in each element.
pub proof fn law_virtual_start(bytes: Seq<u8>, v: Seq<u8>, size: nat, e: nat, b: int)
    requires
        v.len() == size,
        0 <= b < size,
        (e + 1) * size <= bytes.len(),
    ensures
        vds_start(bytes, FillView::UserDefined(v), size).len() == bytes.len(),
        vds_start(bytes, FillView::UserDefined(v), size)[e * size + b] == v[b],
        vds_start(bytes, FillView::Default, size) == bytes,
{
    let p = e * size + b;
    assert(0 <= p < (e + 1) * size && p % size as int == b) by (nonlinear_arith)
        requires
            p == e * size + b,
            0 <= b < size,
    ;
}

} // verus!
