//! Which elements the selections of a virtual dataset select, and what its mappings put
//! where.

use vstd::prelude::*;

use crate::format::grid::{count, law_coords_of_number, number_of, within};
use crate::format::patched;
use crate::format::vds::{
    axis_coords, block_axes, blocks_indices, element_count, grid, linear, points_indices,
    range_coords, selected, slab_axes, slab_coords, spread, stride_of, MappingView, SelectionView,
    Slab,
};
use crate::format::vds_data::{mapped, mapping_applied, name_place};

verus! {

// Mappings.

/// Whether the element number `e` lies within an array of elements of `size` bytes.
pub open spec fn element_in(bytes: Seq<u8>, size: nat, e: nat) -> bool {
    (e + 1) * size <= bytes.len()
}

/// The element number `e` of an array of elements of `size` bytes.
pub open spec fn element_at(bytes: Seq<u8>, size: nat, e: nat) -> Seq<u8> {
    bytes.subrange((e * size) as int, ((e + 1) * size) as int)
}

/// Whether a list holds no number twice.
pub open spec fn distinct(v: Seq<nat>) -> bool {
    forall|i: int, j: int| 0 <= i < j < v.len() ==> #[trigger] v[i] != #[trigger] v[j]
}

proof fn lemma_patch_element(bytes: Seq<u8>, size: nat, v: nat, elem: Seq<u8>, e: nat)
    requires
        elem.len() == size,
        element_in(bytes, size, v),
        element_in(bytes, size, e),
    ensures
        patched(bytes, (v * size) as int, elem).len() == bytes.len(),
        element_at(patched(bytes, (v * size) as int, elem), size, e) == (if e == v {
            elem
        } else {
            element_at(bytes, size, e)
        }),
{
    assert((v + 1) * size == v * size + size) by (nonlinear_arith);
    assert((e + 1) * size == e * size + size) by (nonlinear_arith);
    assert(v * size >= 0 && e * size >= 0) by (nonlinear_arith);
    let r = patched(bytes, (v * size) as int, elem);
    if e == v {
        assert(element_at(r, size, e) =~= elem);
    } else {
        assert(e < v ==> (e + 1) * size <= v * size) by (nonlinear_arith);
        assert(v < e ==> (v + 1) * size <= e * size) by (nonlinear_arith);
        assert(element_at(r, size, e) =~= element_at(bytes, size, e));
    }
}

proof fn lemma_mapped_elsewhere(
    bytes: Seq<u8>,
    source: Seq<u8>,
    dst: Seq<nat>,
    src: Seq<nat>,
    j: int,
    size: nat,
    e: nat,
)
    requires
        0 <= j,
        element_in(bytes, size, e),
        forall|k: int| j <= k < dst.len() ==> #[trigger] dst[k] != e,
    ensures
        mapped(bytes, source, dst, src, j, size).len() == bytes.len(),
        element_at(mapped(bytes, source, dst, src, j, size), size, e) == element_at(bytes, size, e),
    decreases dst.len() - j,
{
    if j < dst.len() && j < src.len() {
        let (v, s) = (dst[j] * size, src[j] * size);
        assert((dst[j] + 1) * size == v + size) by (nonlinear_arith)
            requires
                v == dst[j] * size,
        ;
        if v + size <= bytes.len() && s + size <= source.len() {
            assert(s >= 0) by (nonlinear_arith)
                requires
                    s == src[j] * size,
            ;
            let elem = source.subrange(s as int, (s + size) as int);
            lemma_patch_element(bytes, size, dst[j], elem, e);
            lemma_mapped_elsewhere(patched(bytes, v as int, elem), source, dst, src, j + 1, size, e);
        } else {
            lemma_mapped_elsewhere(bytes, source, dst, src, j + 1, size, e);
        }
    }
}

proof fn lemma_mapped_element(
    bytes: Seq<u8>,
    source: Seq<u8>,
    dst: Seq<nat>,
    src: Seq<nat>,
    j: int,
    size: nat,
    k: int,
)
    requires
        0 <= j <= k < dst.len(),
        k < src.len(),
        distinct(dst),
        element_in(bytes, size, dst[k]),
        element_in(source, size, src[k]),
    ensures
        element_at(mapped(bytes, source, dst, src, j, size), size, dst[k]) == element_at(
            source,
            size,
            src[k],
        ),
    decreases dst.len() - j,
{
    let (v, s) = (dst[j] * size, src[j] * size);
    assert((dst[j] + 1) * size == v + size) by (nonlinear_arith)
        requires
            v == dst[j] * size,
    ;
    assert((src[j] + 1) * size == s + size) by (nonlinear_arith)
        requires
            s == src[j] * size,
    ;
    assert(s >= 0) by (nonlinear_arith)
        requires
            s == src[j] * size,
    ;
    if v + size <= bytes.len() && s + size <= source.len() {
        let elem = source.subrange(s as int, (s + size) as int);
        lemma_patch_element(bytes, size, dst[j], elem, dst[k]);
        let next = patched(bytes, v as int, elem);
        if j == k {
            lemma_mapped_elsewhere(next, source, dst, src, j + 1, size, dst[k]);
        } else {
            lemma_mapped_element(next, source, dst, src, j + 1, size, k);
        }
    } else {
        lemma_mapped_element(bytes, source, dst, src, j + 1, size, k);
    }
}

/// A mapping whose virtual selection names no element twice copies the element number
/// `src[k]` of the source to the element number `dst[k]`, as far as both lists go.
pub proof fn law_mapping_copies(
    bytes: Seq<u8>,
    dims: Seq<u64>,
    size: nat,
    m: MappingView,
    sdims: Seq<u64>,
    source: Seq<u8>,
    k: int,
)
    requires
        selected(m.virt_sel, dims) is Ok,
        selected(m.src_sel, sdims) is Ok,
        ({
            let (dst, src) = (selected(m.virt_sel, dims)->Ok_0, selected(m.src_sel, sdims)->Ok_0);
            &&& distinct(dst)
            &&& 0 <= k < dst.len() && k < src.len()
            &&& element_in(bytes, size, dst[k])
            &&& element_in(source, size, src[k])
        }),
    ensures
        mapping_applied(bytes, dims, size, m, sdims, size, source) matches Ok(r) && element_at(
            r,
            size,
            selected(m.virt_sel, dims)->Ok_0[k],
        ) == element_at(source, size, selected(m.src_sel, sdims)->Ok_0[k]),
{
    lemma_mapped_element(
        bytes,
        source,
        selected(m.virt_sel, dims)->Ok_0,
        selected(m.src_sel, sdims)->Ok_0,
        0,
        size,
        k,
    );
}

/// A mapping leaves every element as it was that its virtual selection does not name.
pub proof fn law_mapping_keeps(
    bytes: Seq<u8>,
    dims: Seq<u64>,
    size: nat,
    m: MappingView,
    sdims: Seq<u64>,
    source: Seq<u8>,
    e: nat,
)
    requires
        selected(m.virt_sel, dims) matches Ok(dst) && !dst.contains(e),
        selected(m.src_sel, sdims) is Ok,
        element_in(bytes, size, e),
    ensures
        mapping_applied(bytes, dims, size, m, sdims, size, source) matches Ok(r) && r.len()
            == bytes.len() && element_at(r, size, e) == element_at(bytes, size, e),
{
    let dst = selected(m.virt_sel, dims)->Ok_0;
    assert forall|k: int| 0 <= k < dst.len() implies #[trigger] dst[k] != e by {
        assert(dst.contains(dst[k]));
    }
    lemma_mapped_elsewhere(bytes, source, dst, selected(m.src_sel, sdims)->Ok_0, 0, size, e);
}

/// A mapping from a source with elements of another size is refused.
pub proof fn law_mapping_sizes(
    bytes: Seq<u8>,
    dims: Seq<u64>,
    size: nat,
    m: MappingView,
    sdims: Seq<u64>,
    ssize: nat,
    source: Seq<u8>,
)
    requires
        ssize != size,
    ensures
        mapping_applied(bytes, dims, size, m, sdims, ssize, source) is Err,
{
}

// Selections.

proof fn lemma_stride(dims: Seq<u64>, i: int)
    requires
        0 <= i < dims.len(),
    ensures
        stride_of(dims, i) == count(dims.skip(i + 1)),
    decreases dims.len() - i,
{
    if i + 1 < dims.len() {
        lemma_stride(dims, i + 1);
        assert(dims.skip(i + 1).skip(1) =~= dims.skip(i + 2));
        assert(stride_of(dims, i + 1) * dims[i + 1] as nat == dims[i + 1] as nat * stride_of(
            dims,
            i + 1,
        )) by (nonlinear_arith);
    } else {
        assert(dims.skip(i + 1).len() == 0);
    }
}

pub(crate) proof fn lemma_count(dims: Seq<u64>)
    ensures
        element_count(dims) == count(dims),
{
    if dims.len() > 0 {
        lemma_stride(dims, 0);
        assert(dims[0] as nat * stride_of(dims, 0) == stride_of(dims, 0) * dims[0] as nat)
            by (nonlinear_arith);
        assert(dims.skip(0) =~= dims);
    }
}

/// A selection of everything names each element of the array once, in order.
pub proof fn law_all_selected(dims: Seq<u64>, e: nat)
    requires
        selected(SelectionView::All, dims) is Ok,
        e < count(dims),
    ensures
        selected(SelectionView::All, dims)->Ok_0.len() == count(dims),
        selected(SelectionView::All, dims)->Ok_0[e as int] == e,
{
    lemma_count(dims);
}

pub(crate) proof fn lemma_linear(dims: Seq<u64>, p: Seq<u64>, c: Seq<nat>, k: int)
    requires
        p.len() >= dims.len(),
        c == Seq::new(dims.len(), |i: int| p[i] as nat),
        0 <= k <= dims.len(),
    ensures
        linear(dims, p, k) + number_of(dims.skip(k), c.skip(k)) == number_of(dims, c),
    decreases k,
{
    if k == 0 {
        assert(dims.skip(0) =~= dims && c.skip(0) =~= c);
    } else {
        lemma_linear(dims, p, c, k - 1);
        lemma_stride(dims, k - 1);
        assert(dims.skip(k - 1).skip(1) =~= dims.skip(k));
        assert(c.skip(k - 1).skip(1) =~= c.skip(k));
    }
}

proof fn lemma_points(dims: Seq<u64>, points: Seq<Seq<u64>>, i: int, acc: Seq<nat>)
    requires
        0 <= i <= points.len(),
        points_indices(dims, points, i, acc) is Ok,
    ensures
        points_indices(dims, points, i, acc)->Ok_0.len() == acc.len() + points.len() - i,
        forall|j: int|
            0 <= j < acc.len() ==> #[trigger] points_indices(dims, points, i, acc)->Ok_0[j]
                == acc[j],
        forall|j: int|
            i <= j < points.len() ==> points_indices(dims, points, i, acc)->Ok_0[acc.len() + j - i]
                == linear(dims, #[trigger] points[j], dims.len() as int) && points[j].len()
                >= dims.len(),
    decreases points.len() - i,
{
    if i < points.len() {
        let n = linear(dims, points[i], dims.len() as int);
        lemma_points(dims, points, i + 1, acc.push(n));
        let r = points_indices(dims, points, i, acc)->Ok_0;
        assert(r[acc.len() as int] == acc.push(n)[acc.len() as int]);
        assert forall|j: int| 0 <= j < acc.len() implies #[trigger] r[j] == acc[j] by {
            assert(acc.push(n)[j] == acc[j]);
        }
    }
}

/// A selection of points names the elements at their coordinates, in the order of the
/// points.
pub proof fn law_points_selected(dims: Seq<u64>, points: Seq<Seq<u64>>, i: int)
    requires
        selected(SelectionView::Points(points), dims) is Ok,
        0 <= i < points.len(),
    ensures
        selected(SelectionView::Points(points), dims)->Ok_0.len() == points.len(),
        selected(SelectionView::Points(points), dims)->Ok_0[i] == number_of(
            dims,
            Seq::new(dims.len(), |k: int| points[i][k] as nat),
        ),
{
    lemma_points(dims, points, 0, Seq::empty());
    let c = Seq::new(dims.len(), |k: int| points[i][k] as nat);
    lemma_linear(dims, points[i], c, dims.len() as int);
    assert(number_of(dims.skip(dims.len() as int), c.skip(dims.len() as int)) == 0);
}

/// Whether the numbers rise strictly.
pub open spec fn rising(v: Seq<nat>) -> bool {
    forall|i: int, j: int| 0 <= i < j < v.len() ==> #[trigger] v[i] < #[trigger] v[j]
}

/// Whether coordinates stand on each of some axes.
pub open spec fn on_axes(axes: Seq<Seq<nat>>, c: Seq<nat>) -> bool {
    c.len() == axes.len() && forall|k: int| 0 <= k < axes.len() ==> axes[k].contains(#[trigger] c[k])
}

/// Whether all coordinates of an axis lie within its dimension.
pub open spec fn axes_within(dims: Seq<u64>, axes: Seq<Seq<nat>>) -> bool {
    axes.len() == dims.len() && forall|k: int, i: int|
        0 <= k < axes.len() && 0 <= i < axes[k].len() ==> #[trigger] axes[k][i] < dims[k]
}

proof fn lemma_spread(axis: Seq<nat>, stride: nat, inner: Seq<nat>, i: int, j: int)
    requires
        0 <= i < axis.len(),
        0 <= j < inner.len(),
    ensures
        spread(axis, stride, inner).len() == axis.len() * inner.len(),
        i * inner.len() + j < axis.len() * inner.len(),
        spread(axis, stride, inner)[i * inner.len() + j] == axis[i] * stride + inner[j],
    decreases axis.len(),
{
    let n = inner.len() as int;
    let r = spread(axis, stride, inner);
    lemma_spread_len(axis, stride, inner);
    lemma_spread_len(axis.drop_last(), stride, inner);
    assert((i + 1) * n <= axis.len() * n) by (nonlinear_arith)
        requires
            i + 1 <= axis.len(),
            0 <= n,
    ;
    assert((i + 1) * n == i * n + n) by (nonlinear_arith);
    assert(i * n + j >= 0) by (nonlinear_arith)
        requires
            i >= 0,
            j >= 0,
            n >= 0,
    ;
    if i == axis.len() - 1 {
        assert((axis.len() - 1) * n == i * n);
        assert(r[i * n + j] == inner.map_values(|x: nat| x + axis.last() * stride)[j]);
    } else {
        lemma_spread(axis.drop_last(), stride, inner, i, j);
        assert(axis.drop_last()[i] == axis[i]);
    }
}

proof fn lemma_spread_len(axis: Seq<nat>, stride: nat, inner: Seq<nat>)
    ensures
        spread(axis, stride, inner).len() == axis.len() * inner.len(),
    decreases axis.len(),
{
    if axis.len() > 0 {
        lemma_spread_len(axis.drop_last(), stride, inner);
        assert((axis.len() - 1) * inner.len() + inner.len() == axis.len() * inner.len())
            by (nonlinear_arith);
    } else {
        assert(0 * inner.len() == 0) by (nonlinear_arith);
    }
}

proof fn lemma_place_in_spread(n: int, m: int, p: int) -> (r: (int, int))
    requires
        0 <= p < n * m,
        n >= 0,
        m >= 0,
    ensures
        0 <= r.0 < n,
        0 <= r.1 < m,
        p == r.0 * m + r.1,
{
    assert(m > 0) by (nonlinear_arith)
        requires
            0 <= p < n * m,
            n >= 0,
            m >= 0,
    ;
    let (q, t) = (p / m, p % m);
    assert(p == q * m + t && 0 <= t < m && q >= 0) by (nonlinear_arith)
        requires
            q == p / m,
            t == p % m,
            m > 0,
            p >= 0,
    ;
    assert(q < n) by (nonlinear_arith)
        requires
            p == q * m + t,
            0 <= t,
            p < n * m,
            m > 0,
    ;
    (q, t)
}

pub(crate) proof fn lemma_grid_len(axes: Seq<Seq<nat>>, dims: Seq<u64>, k: int)
    requires
        0 <= k < axes.len(),
    ensures
        grid(axes, dims, k).len() == axes[k].len() * grid(axes, dims, k + 1).len(),
{
    lemma_spread_len(axes[k], stride_of(dims, k), grid(axes, dims, k + 1));
}

/// Each number in a grid is that of coordinates on its axes.
proof fn lemma_grid_sound(axes: Seq<Seq<nat>>, dims: Seq<u64>, k: int, p: int) -> (c: Seq<nat>)
    requires
        axes.len() == dims.len(),
        0 <= k <= axes.len(),
        0 <= p < grid(axes, dims, k).len(),
    ensures
        on_axes(axes.skip(k), c),
        grid(axes, dims, k)[p] == number_of(dims.skip(k), c),
    decreases axes.len() - k,
{
    if k == axes.len() {
        Seq::empty()
    } else {
        let inner = grid(axes, dims, k + 1);
        lemma_spread_len(axes[k], stride_of(dims, k), inner);
        let (i, j) = lemma_place_in_spread(axes[k].len() as int, inner.len() as int, p);
        lemma_spread(axes[k], stride_of(dims, k), inner, i, j);
        let rest = lemma_grid_sound(axes, dims, k + 1, j);
        let c = seq![axes[k][i]] + rest;
        lemma_stride(dims, k);
        assert(dims.skip(k).skip(1) =~= dims.skip(k + 1));
        assert(c.skip(1) =~= rest);
        assert forall|m: int| 0 <= m < axes.skip(k).len() implies axes.skip(k)[m].contains(
            #[trigger] c[m],
        ) by {
            if m == 0 {
                assert(axes[k].contains(axes[k][i]));
            } else {
                assert(axes.skip(k + 1)[m - 1].contains(rest[m - 1]));
            }
        }
        c
    }
}

/// The number of coordinates on the axes of a grid is in it.
proof fn lemma_grid_complete(axes: Seq<Seq<nat>>, dims: Seq<u64>, k: int, c: Seq<nat>) -> (p: int)
    requires
        axes.len() == dims.len(),
        0 <= k <= axes.len(),
        on_axes(axes.skip(k), c),
    ensures
        0 <= p < grid(axes, dims, k).len(),
        grid(axes, dims, k)[p] == number_of(dims.skip(k), c),
    decreases axes.len() - k,
{
    if k == axes.len() {
        0
    } else {
        let inner = grid(axes, dims, k + 1);
        assert(axes.skip(k)[0].contains(c[0]));
        let i = axes[k].index_of(c[0]);
        assert forall|m: int| 0 <= m < axes.skip(k + 1).len() implies axes.skip(k + 1)[m].contains(
            #[trigger] c.skip(1)[m],
        ) by {
            assert(axes.skip(k)[m + 1].contains(c[m + 1]));
        }
        let j = lemma_grid_complete(axes, dims, k + 1, c.skip(1));
        lemma_spread(axes[k], stride_of(dims, k), inner, i, j);
        lemma_stride(dims, k);
        assert(dims.skip(k).skip(1) =~= dims.skip(k + 1));
        assert(i * inner.len() + j >= 0) by (nonlinear_arith)
            requires
                i >= 0,
                j >= 0,
        ;
        i * inner.len() + j
    }
}

pub(crate) proof fn lemma_grid_rising(axes: Seq<Seq<nat>>, dims: Seq<u64>, k: int)
    requires
        axes_within(dims, axes),
        0 <= k <= axes.len(),
        forall|m: int| 0 <= m < axes.len() ==> rising(#[trigger] axes[m]),
    ensures
        rising(grid(axes, dims, k)),
        forall|p: int|
            0 <= p < grid(axes, dims, k).len() ==> #[trigger] grid(axes, dims, k)[p] < count(
                dims.skip(k),
            ),
    decreases axes.len() - k,
{
    let g = grid(axes, dims, k);
    if k < axes.len() {
        lemma_grid_rising(axes, dims, k + 1);
        let inner = grid(axes, dims, k + 1);
        let s = stride_of(dims, k);
        lemma_stride(dims, k);
        lemma_spread_len(axes[k], s, inner);
        assert(dims.skip(k).skip(1) =~= dims.skip(k + 1));
        assert forall|p: int, q: int| 0 <= p < q < g.len() implies #[trigger] g[p]
            < #[trigger] g[q] by {
            let (i, j) = lemma_place_in_spread(axes[k].len() as int, inner.len() as int, p);
            let (x, y) = lemma_place_in_spread(axes[k].len() as int, inner.len() as int, q);
            lemma_spread(axes[k], s, inner, i, j);
            lemma_spread(axes[k], s, inner, x, y);
            let m = inner.len() as int;
            assert(x + 1 <= i ==> i * m >= x * m + m) by (nonlinear_arith)
                requires
                    m >= 0,
            ;
            if i < x {
                let (a, b, u) = (axes[k][i], axes[k][x], inner[j]);
                assert(rising(axes[k]));
                assert(a * s + u < b * s) by (nonlinear_arith)
                    requires
                        a + 1 <= b,
                        u < s,
                ;
            }
        }
        assert forall|p: int| 0 <= p < g.len() implies #[trigger] g[p] < count(dims.skip(k)) by {
            let (i, j) = lemma_place_in_spread(axes[k].len() as int, inner.len() as int, p);
            lemma_spread(axes[k], s, inner, i, j);
            let (a, u, d) = (axes[k][i], inner[j], dims[k] as nat);
            assert(a * s + u < d * s) by (nonlinear_arith)
                requires
                    a + 1 <= d,
                    u < s,
            ;
        }
    }
}

pub(crate) proof fn lemma_grid_member(axes: Seq<Seq<nat>>, dims: Seq<u64>, c: Seq<nat>)
    requires
        axes_within(dims, axes),
        within(dims, c),
    ensures
        grid(axes, dims, 0).contains(number_of(dims, c)) <==> on_axes(axes, c),
{
    let g = grid(axes, dims, 0);
    assert(axes.skip(0) =~= axes && dims.skip(0) =~= dims);
    if on_axes(axes, c) {
        let p = lemma_grid_complete(axes, dims, 0, c);
        assert(g[p] == number_of(dims, c));
    }
    if g.contains(number_of(dims, c)) {
        let p = g.index_of(number_of(dims, c));
        let d = lemma_grid_sound(axes, dims, 0, p);
        assert forall|k: int| 0 <= k < dims.len() implies #[trigger] d[k] < dims[k] by {
            assert(axes[k].contains(d[k]));
            let i = axes[k].index_of(d[k]);
            assert(axes[k][i] < dims[k]);
        }
        law_coords_of_number(dims, c);
        law_coords_of_number(dims, d);
    }
}

/// Whether a dimension of a hyperslab selects the coordinate `x`: it lies in one of the
/// blocks, and where their number is unlimited, that block lies within the dimension.
pub open spec fn slab_holds(dim: nat, slab: Slab, x: nat) -> bool {
    exists|i: nat, j: nat| #[trigger] slab_place(dim, slab, i, j, x)
}

/// Whether `x` is the coordinate number `j` of the block number `i`.
pub open spec fn slab_place(dim: nat, slab: Slab, i: nat, j: nat, x: nat) -> bool {
    let step = if slab.1 == 0 {
        1nat
    } else {
        slab.1 as nat
    };
    &&& j < slab.3
    &&& x == slab.0 + i * step + j
    &&& slab.2 matches Some(n) ==> i < n
    &&& slab.2 is None ==> slab.0 + i * step + slab.3 <= dim
}

proof fn lemma_slab_member(
    dim: nat,
    start: nat,
    stride: nat,
    count: nat,
    block: nat,
    i: nat,
    x: nat,
)
    ensures
        slab_coords(dim, start, stride, count, block, i).contains(x) <==> (x < dim && exists|b: nat|
            i <= b < count && start + #[trigger] (b * stride) <= x < start + b * stride + block),
    decreases count - i,
{
    let r = slab_coords(dim, start, stride, count, block, i);
    if i < count {
        lemma_slab_member(dim, start, stride, count, block, i + 1, x);
        let base = start + i * stride;
        let n = if base >= dim {
            0
        } else if dim - base < block {
            (dim - base) as nat
        } else {
            block
        };
        let head = Seq::new(n, |j: int| (base + j) as nat);
        let rest = slab_coords(dim, start, stride, count, block, i + 1);
        assert(r == head + rest);
        if r.contains(x) {
            let p = r.index_of(x);
            if p < n {
                assert(head[p] == x);
                assert(start + i * stride <= x < start + i * stride + block);
            } else {
                assert(rest[p - n] == x);
                assert(rest.contains(x));
            }
        }
        if x < dim && exists|b: nat|
            i <= b < count && start + #[trigger] (b * stride) <= x < start + b * stride + block {
            let b = choose|b: nat|
                i <= b < count && start + #[trigger] (b * stride) <= x < start + b * stride + block;
            if b == i {
                assert(r[x - base] == x);
            } else {
                assert(rest.contains(x));
                let p = rest.index_of(x);
                assert(r[n + p] == x);
            }
        }
    }
}

proof fn lemma_slab_rising(
    dim: nat,
    start: nat,
    stride: nat,
    count: nat,
    block: nat,
    i: nat,
)
    requires
        block <= stride,
    ensures
        rising(slab_coords(dim, start, stride, count, block, i)),
        forall|p: int|
            0 <= p < slab_coords(dim, start, stride, count, block, i).len() ==> start + i * stride
                <= #[trigger] slab_coords(dim, start, stride, count, block, i)[p] < dim,
    decreases count - i,
{
    let r = slab_coords(dim, start, stride, count, block, i);
    if i < count {
        lemma_slab_rising(dim, start, stride, count, block, i + 1);
        assert((i + 1) * stride == i * stride + stride) by (nonlinear_arith);
        let base = start + i * stride;
        let n = if base >= dim {
            0
        } else if dim - base < block {
            (dim - base) as nat
        } else {
            block
        };
        let head = Seq::new(n, |j: int| (base + j) as nat);
        let rest = slab_coords(dim, start, stride, count, block, i + 1);
        assert(r == head + rest);
        assert forall|p: int, q: int| 0 <= p < q < r.len() implies #[trigger] r[p]
            < #[trigger] r[q] by {
            if p < n && q >= n {
                assert(r[p] == base + p);
                assert(r[q] == rest[q - n]);
            } else if p >= n {
                assert(r[p] == rest[p - n] && r[q] == rest[q - n]);
            }
        }
        assert forall|p: int| 0 <= p < r.len() implies base <= #[trigger] r[p] < dim by {
            if p >= n {
                assert(r[p] == rest[p - n]);
            }
        }
    }
}

proof fn lemma_axis_member(dim: nat, slab: Slab, x: nat)
    ensures
        axis_coords(dim, slab).contains(x) <==> x < dim && slab_holds(dim, slab, x),
{
    let (start, stride0, count0, block) = slab;
    let stride = if stride0 == 0 {
        1nat
    } else {
        stride0 as nat
    };
    let n = match count0 {
        Some(c) => c as nat,
        None => if dim >= start + block {
            ((dim - start - block) / stride as int + 1) as nat
        } else {
            0
        },
    };
    lemma_slab_member(dim, start as nat, stride, n, block as nat, 0, x);
    if axis_coords(dim, slab).contains(x) {
        let b = choose|b: nat|
            0 <= b < n && start + #[trigger] (b * stride) <= x < start + b * stride + block;
        let j = (x - start - b * stride) as nat;
        if count0 is None {
            let room = dim - start - block;
            assert(b * stride <= room) by (nonlinear_arith)
                requires
                    b < room / stride as int + 1,
                    stride > 0,
                    room >= 0,
            ;
        }
        assert(slab_place(dim, slab, b, j, x));
    }
    if x < dim && slab_holds(dim, slab, x) {
        let (i, j) = choose|i: nat, j: nat| #[trigger] slab_place(dim, slab, i, j, x);
        if count0 is None {
            let room = dim - start - block;
            assert(i * stride >= 0) by (nonlinear_arith);
            assert(i < room / stride as int + 1) by (nonlinear_arith)
                requires
                    i * stride <= room,
                    stride > 0,
            ;
        }
        assert(0 <= i < n && start + (i * stride) <= x < start + i * stride + block);
    }
}

proof fn lemma_slab_axes_within(dims: Seq<u64>, v: Seq<Slab>)
    requires
        v.len() == dims.len(),
    ensures
        axes_within(dims, slab_axes(dims, v)),
{
    let axes = slab_axes(dims, v);
    assert forall|k: int, i: int|
        0 <= k < axes.len() && 0 <= i < axes[k].len() implies #[trigger] axes[k][i] < dims[k] by {
        lemma_axis_member(dims[k] as nat, v[k], axes[k][i]);
        assert(axes[k].contains(axes[k][i]));
    }
}

/// A regular hyperslab selects exactly the elements whose coordinates lie in its blocks
/// in every dimension.
pub proof fn law_hyperslab_selected(dims: Seq<u64>, v: Seq<Slab>, c: Seq<nat>)
    requires
        selected(SelectionView::Regular(v), dims) is Ok,
        within(dims, c),
    ensures
        selected(SelectionView::Regular(v), dims)->Ok_0.contains(number_of(dims, c)) <==> forall|
            k: int,
        |
            0 <= k < dims.len() ==> slab_holds(dims[k] as nat, v[k], #[trigger] c[k]),
{
    let axes = slab_axes(dims, v);
    lemma_slab_axes_within(dims, v);
    lemma_grid_member(axes, dims, c);
    assert forall|k: int| 0 <= k < dims.len() implies (axes[k].contains(#[trigger] c[k])
        <==> slab_holds(dims[k] as nat, v[k], c[k])) by {
        lemma_axis_member(dims[k] as nat, v[k], c[k]);
    }
    if on_axes(axes, c) {
        assert forall|k: int| 0 <= k < dims.len() implies slab_holds(
            dims[k] as nat,
            v[k],
            #[trigger] c[k],
        ) by {
            assert(axes[k].contains(c[k]));
        }
    }
    if forall|k: int| 0 <= k < dims.len() ==> slab_holds(dims[k] as nat, v[k], #[trigger] c[k]) {
        assert forall|k: int| 0 <= k < axes.len() implies axes[k].contains(#[trigger] c[k]) by {
            assert(slab_holds(dims[k] as nat, v[k], c[k]));
        }
    }
}

/// A hyperslab whose blocks do not overlap names its elements in rising order, so none
/// twice, and none beyond the array.
pub proof fn law_hyperslab_rising(dims: Seq<u64>, v: Seq<Slab>)
    requires
        selected(SelectionView::Regular(v), dims) is Ok,
        forall|k: int| 0 <= k < v.len() ==> 0 < (#[trigger] v[k]).1 && v[k].3 <= v[k].1,
    ensures
        rising(selected(SelectionView::Regular(v), dims)->Ok_0),
        distinct(selected(SelectionView::Regular(v), dims)->Ok_0),
        forall|p: int|
            0 <= p < selected(SelectionView::Regular(v), dims)->Ok_0.len() ==> #[trigger] selected(
                SelectionView::Regular(v),
                dims,
            )->Ok_0[p] < count(dims),
{
    let axes = slab_axes(dims, v);
    lemma_slab_axes_within(dims, v);
    assert forall|m: int| 0 <= m < axes.len() implies rising(#[trigger] axes[m]) by {
        let (start, stride, count0, block) = v[m];
        let dim = dims[m] as nat;
        let n = match count0 {
            Some(c) => c as nat,
            None => if dim >= start + block {
                ((dim - start - block) / stride as int + 1) as nat
            } else {
                0
            },
        };
        lemma_slab_rising(dim, start as nat, stride as nat, n, block as nat, 0);
    }
    lemma_grid_rising(axes, dims, 0);
    assert(dims.skip(0) =~= dims);
}

/// A box selects exactly the elements between its corners, in rising order.
pub proof fn law_box_selected(dims: Seq<u64>, a: Seq<u64>, b: Seq<u64>, c: Seq<nat>)
    requires
        selected(SelectionView::Blocks(seq![(a, b)]), dims) is Ok,
        dims.len() > 0,
        forall|k: int| 0 <= k < dims.len() ==> #[trigger] a[k] <= b[k] < dims[k],
        within(dims, c),
    ensures
        ({
            let list = selected(SelectionView::Blocks(seq![(a, b)]), dims)->Ok_0;
            &&& rising(list)
            &&& list.contains(number_of(dims, c)) <==> forall|k: int|
                0 <= k < dims.len() ==> a[k] <= #[trigger] c[k] <= b[k]
        }),
{
    let blocks = seq![(a, b)];
    let axes = block_axes((a, b));
    assert(blocks[0] == (a, b));
    let g = grid(axes, dims, 0);
    assert(blocks_indices(dims, blocks, 1, Seq::<nat>::empty() + g) == Ok::<Seq<nat>, Seq<char>>(
        Seq::<nat>::empty() + g,
    ));
    assert(Seq::<nat>::empty() + g =~= g);
    assert(axes_within(dims, axes)) by {
        assert forall|k: int, i: int|
            0 <= k < axes.len() && 0 <= i < axes[k].len() implies #[trigger] axes[k][i]
            < dims[k] by {
            assert(a[k] <= b[k] < dims[k]);
        }
    }
    lemma_grid_member(axes, dims, c);
    lemma_grid_rising(axes, dims, 0);
    if on_axes(axes, c) {
        assert forall|k: int| 0 <= k < dims.len() implies a[k] <= #[trigger] c[k] <= b[k] by {
            assert(axes[k].contains(c[k]));
            let i = axes[k].index_of(c[k]);
            assert(range_coords(a[k], b[k])[i] == c[k]);
            assert(a[k] <= b[k]);
        }
    }
    if forall|k: int| 0 <= k < dims.len() ==> a[k] <= #[trigger] c[k] <= b[k] {
        assert forall|k: int| 0 <= k < axes.len() implies axes[k].contains(#[trigger] c[k]) by {
            assert(a[k] <= c[k] <= b[k]);
            assert(range_coords(a[k], b[k])[c[k] - a[k]] == c[k]);
        }
    }
}

proof fn lemma_blocks_acc(
    dims: Seq<u64>,
    blocks: Seq<(Seq<u64>, Seq<u64>)>,
    i: int,
    acc: Seq<nat>,
)
    requires
        0 <= i <= blocks.len(),
        dims.len() > 0,
        blocks_indices(dims, blocks, i, acc) is Ok,
    ensures
        blocks_indices(dims, blocks, i, Seq::empty()) matches Ok(v) && blocks_indices(
            dims,
            blocks,
            i,
            acc,
        ) == Ok::<Seq<nat>, Seq<char>>(acc + v),
    decreases blocks.len() - i,
{
    if i < blocks.len() {
        let g = grid(block_axes(blocks[i]), dims, 0);
        lemma_blocks_acc(dims, blocks, i + 1, acc + g);
        lemma_blocks_acc_back(dims, blocks, i + 1, acc + g, Seq::empty() + g);
        lemma_blocks_acc(dims, blocks, i + 1, Seq::empty() + g);
        let v = blocks_indices(dims, blocks, i + 1, Seq::empty())->Ok_0;
        assert(acc + g + v =~= acc + (Seq::<nat>::empty() + g + v));
    } else {
        assert(acc + Seq::<nat>::empty() =~= acc);
    }
}

/// Whether the boxes can be listed does not depend on what was listed before.
proof fn lemma_blocks_acc_back(
    dims: Seq<u64>,
    blocks: Seq<(Seq<u64>, Seq<u64>)>,
    i: int,
    acc: Seq<nat>,
    other: Seq<nat>,
)
    requires
        0 <= i <= blocks.len(),
        blocks_indices(dims, blocks, i, acc) is Ok,
    ensures
        blocks_indices(dims, blocks, i, other) is Ok,
    decreases blocks.len() - i,
{
    if i < blocks.len() && dims.len() > 0 {
        let g = grid(block_axes(blocks[i]), dims, 0);
        lemma_blocks_acc_back(dims, blocks, i + 1, acc + g, other + g);
    }
}

/// A list of boxes selects what its first box does, then what the others do.
pub proof fn law_boxes_listed(dims: Seq<u64>, blocks: Seq<(Seq<u64>, Seq<u64>)>)
    requires
        selected(SelectionView::Blocks(blocks), dims) is Ok,
        dims.len() > 0,
        blocks.len() > 0,
    ensures
        selected(SelectionView::Blocks(blocks.take(1)), dims) is Ok,
        selected(SelectionView::Blocks(blocks.skip(1)), dims) is Ok,
        selected(SelectionView::Blocks(blocks), dims)->Ok_0 == selected(
            SelectionView::Blocks(blocks.take(1)),
            dims,
        )->Ok_0 + selected(SelectionView::Blocks(blocks.skip(1)), dims)->Ok_0,
{
    let g = grid(block_axes(blocks[0]), dims, 0);
    let none = Seq::<nat>::empty();
    assert(none + g =~= g);
    let first = blocks.take(1);
    assert(first[0] == blocks[0]);
    assert(blocks_indices(dims, first, 1, none + g) == Ok::<Seq<nat>, Seq<char>>(none + g));
    lemma_blocks_acc(dims, blocks, 1, g);
    lemma_blocks_skip(dims, blocks, 1, none);
}

proof fn lemma_blocks_skip(
    dims: Seq<u64>,
    blocks: Seq<(Seq<u64>, Seq<u64>)>,
    i: int,
    acc: Seq<nat>,
)
    requires
        1 <= i <= blocks.len(),
    ensures
        blocks_indices(dims, blocks, i, acc) == blocks_indices(dims, blocks.skip(1), i - 1, acc),
    decreases blocks.len() - i,
{
    if i < blocks.len() {
        assert(blocks.skip(1)[i - 1] == blocks[i]);
        if dims.len() > 0 {
            lemma_blocks_skip(
                dims,
                blocks,
                i + 1,
                acc + grid(block_axes(blocks[i]), dims, 0),
            );
        }
    }
}

/// The place of a name is the first one at which it stands.
pub proof fn law_name_place(names: Seq<Seq<char>>, name: Seq<char>, i: int)
    requires
        0 <= i <= names.len(),
    ensures
        match name_place(names, name, i) {
            Some(k) => i <= k < names.len() && names[k] == name && forall|j: int|
                i <= j < k ==> #[trigger] names[j] != name,
            None => forall|j: int| i <= j < names.len() ==> #[trigger] names[j] != name,
        },
    decreases names.len() - i,
{
    if i < names.len() && names[i] != name {
        law_name_place(names, name, i + 1);
    }
}

} // verus!
