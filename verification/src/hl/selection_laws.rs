//! Which elements the selections of an array select, and in which order.

use vstd::prelude::*;

use crate::format::grid::{count, number_of, within};
use crate::format::select_laws::{
    axes_within, distinct, law_points_selected, lemma_count, lemma_grid_len, lemma_grid_member,
    lemma_grid_rising, lemma_linear, on_axes, rising,
};
use crate::format::vds::{axis_coords, element_count, grid, selected, slab_axes, slab_coords};
use crate::hl::dataset::{slab_of, stored_selection};
use crate::hl::extents::{product, Ix};
use crate::hl::hyperslab::{
    blocks_before, covers, elem_selector, last_index, less_one, raw_slice, raw_slices, slice_back,
    slices_back, unlimited_from, RawSlice, SliceElem, SliceOrIndex,
};
use crate::hl::points::{
    axes_checked, block_count, coordinate, coordinate_out, coords_checked, indices, point_out,
    slice_axes, slice_axis, wide, PointsView, RawView,
};
use crate::hl::selection::{
    law_slice_round_trip, lemma_raw_len, selection_back, slab_shape, slice_total, SelectionView,
};

verus! {

/// Whether the coordinate `x` lies in the block number `b`.
pub open spec fn in_block(start: nat, step: nat, block: nat, b: nat, x: nat) -> bool {
    start + b * step <= x < start + b * step + block
}

/// Whether a selector selects the coordinate `x` of a dimension of the size `dim`. A slice
/// up to an index selects the blocks that end there or before, one without an end those
/// that end within the dimension.
pub open spec fn holds(s: SliceOrIndex, dim: nat, x: nat) -> bool {
    match s {
        SliceOrIndex::Index(i) => x == i,
        SliceOrIndex::SliceTo { start, step, end, block } => exists|b: nat|
            start + b * step + block <= end && #[trigger] in_block(
                start as nat,
                step as nat,
                block as nat,
                b,
                x,
            ),
        SliceOrIndex::SliceCount { start, step, count, block } => exists|b: nat|
            b < count && #[trigger] in_block(start as nat, step as nat, block as nat, b, x),
        SliceOrIndex::Unlimited { start, step, block } => exists|b: nat|
            start + b * step + block <= dim && #[trigger] in_block(
                start as nat,
                step as nat,
                block as nat,
                b,
                x,
            ),
    }
}

/// As many blocks are counted before an end as end there or before.
pub proof fn law_blocks_before(start: nat, step: nat, end: nat, block: nat, b: nat)
    requires
        step >= 1,
        block >= 1,
    ensures
        b < blocks_before(start, step, end, block) <==> start + b * step + block <= end,
{
    lemma_blocks(start, step, end, block, b);
}

proof fn lemma_blocks(start: nat, step: nat, end: nat, block: nat, b: nat)
    requires
        step >= 1,
    ensures
        b < blocks_before(start, step, end, block) <==> start + b * step + less_one(block) + 1
            <= end,
        blocks_before(start, step, end, block) <= end,
{
    let room = end - (start + less_one(block)) - 1;
    assert(b * step >= 0) by (nonlinear_arith);
    if room >= 0 {
        let q = room / step as int;
        assert(b <= q <==> b * step <= room) by (nonlinear_arith)
            requires
                q == room / step as int,
                step >= 1,
        ;
        assert(0 <= q <= room) by (nonlinear_arith)
            requires
                q == room / step as int,
                step >= 1,
                room >= 0,
        ;
    }
}

/// What a slice of a dimension holds.
spec fn slice_holds(r: RawSlice, n: nat, x: nat) -> bool {
    exists|b: nat| b < n && #[trigger] in_block(r.start as nat, r.step as nat, r.block as nat, b, x)
}

proof fn lemma_raw_holds(axis: nat, s: SliceOrIndex, dim: Ix, x: nat)
    requires
        raw_slice(axis, s, dim) is Ok,
    ensures
        ({
            let r = raw_slice(axis, s, dim)->Ok_0;
            &&& r.count is Some
            &&& r.step >= 1
            &&& slice_holds(r, r.count->0 as nat, x) <==> holds(s, dim as nat, x)
        }),
{
    let r = raw_slice(axis, s, dim)->Ok_0;
    let n = r.count->0 as nat;
    let (start, step, block) = (r.start as nat, r.step as nat, r.block as nat);
    match s {
        SliceOrIndex::Index(i) => {
            assert(0 * step == 0) by (nonlinear_arith);
            if x == i {
                assert(in_block(start, step, block, 0, x));
            }
        },
        SliceOrIndex::SliceCount { .. } => {},
        _ => {
            let end = match s {
                SliceOrIndex::SliceTo { start, step, end, block } => end as nat,
                _ => dim as nat,
            };
            lemma_blocks(start, step, end, block, 0);
            assert(n == blocks_before(start, step, end, block));
            if slice_holds(r, n, x) {
                let b = choose|b: nat| b < n && #[trigger] in_block(start, step, block, b, x);
                lemma_blocks(start, step, end, block, b);
                assert(start + b * step + block <= end);
            }
            if holds(s, dim as nat, x) {
                let b = choose|b: nat|
                    start + b * step + block <= end && #[trigger] in_block(start, step, block, b, x);
                lemma_blocks(start, step, end, block, b);
                assert(b < n);
            }
        },
    }
}

proof fn lemma_coordinates(s: RawSlice, dim: nat, k: nat, n: nat)
    requires
        coordinate_out(s, dim, k, n) is None,
    ensures
        forall|i: nat| k <= i < n ==> #[trigger] coordinate(s, i) < dim,
    decreases n - k,
{
    if k < n {
        lemma_coordinates(s, dim, k + 1, n);
    }
}

proof fn lemma_axis(s: RawSlice, dim: nat, x: nat)
    requires
        slice_axis(s, dim) is Ok,
    ensures
        ({
            let a = slice_axis(s, dim)->Ok_0;
            let n = block_count(s, dim);
            &&& a.len() == n * s.block
            &&& a.contains(x) <==> slice_holds(s, n, x)
            &&& forall|i: int| 0 <= i < a.len() ==> #[trigger] a[i] < dim
            &&& s.block <= s.step ==> rising(a)
        }),
{
    let a = slice_axis(s, dim)->Ok_0;
    let (start, step, block) = (s.start as nat, s.step as nat, s.block as nat);
    let n = block_count(s, dim);
    lemma_coordinates(s, dim, 0, n * block);
    assert forall|i: int| 0 <= i < a.len() implies #[trigger] a[i] < dim && a[i] == start + (i
        / block as int) * step + i % block as int && block > 0 && 0 <= i / block as int && i
        / block as int <= n - 1 && 0 <= i % block as int && i % (block as int) < block by {
        assert(coordinate(s, i as nat) < dim);
        assert(block > 0) by (nonlinear_arith)
            requires
                0 <= i < n * block,
                block >= 0,
        ;
        let (q, t, d) = (i / block as int, i % block as int, block as int);
        assert(0 <= q && q <= n - 1 && 0 <= t < d) by (nonlinear_arith)
            requires
                q == i / d,
                t == i % d,
                d > 0,
                0 <= i < n * d,
        ;
    }
    if a.contains(x) {
        let i = a.index_of(x);
        assert(a[i] == x);
        let q = (i / block as int) as nat;
        assert(in_block(start, step, block, q, x));
        assert(slice_holds(s, n, x));
    }
    if slice_holds(s, n, x) {
        let b = choose|b: nat| b < n && #[trigger] in_block(start, step, block, b, x);
        let j = x - start - b * step;
        let i = b * block + j;
        assert(0 <= i < n * block && i / block as int == b && i % block as int == j)
            by (nonlinear_arith)
            requires
                i == b * block + j,
                0 <= j < block,
                0 <= b < n,
        ;
        assert(a[i] == x);
    }
    if s.block <= s.step {
        assert forall|p: int, q: int| 0 <= p < q < a.len() implies #[trigger] a[p]
            < #[trigger] a[q] by {
            assert(a[p] < dim && a[q] < dim);
            let (d, t) = (block as int, step as int);
            let (u, v, y, z) = (p / d, p % d, q / d, q % d);
            assert(p == u * d + v && q == y * d + z) by (nonlinear_arith)
                requires
                    u == p / d,
                    v == p % d,
                    y == q / d,
                    z == q % d,
                    d > 0,
            ;
            assert(u * t + v < y * t + z) by (nonlinear_arith)
                requires
                    p == u * d + v,
                    q == y * d + z,
                    p < q,
                    0 <= v < d,
                    0 <= z < d,
                    d <= t,
            {
                if u >= y + 1 {
                    assert(u * d >= y * d + d) by (nonlinear_arith)
                        requires
                            u >= y + 1,
                            d > 0,
                    ;
                }
                if u < y {
                    assert(y * t >= u * t + t) by (nonlinear_arith)
                        requires
                            u + 1 <= y,
                            t > 0,
                    ;
                }
            }
        }
    }
}

proof fn lemma_slice_axes(h: Seq<RawSlice>, dims: Seq<u64>, i: int, acc: Seq<Seq<nat>>)
    requires
        0 <= i <= h.len(),
        acc.len() == i,
        slice_axes(h, dims, i, acc) is Ok,
    ensures
        slice_axes(h, dims, i, acc)->Ok_0.len() == h.len(),
        forall|k: int| 0 <= k < i ==> #[trigger] slice_axes(h, dims, i, acc)->Ok_0[k] == acc[k],
        forall|k: int|
            i <= k < h.len() ==> slice_axis(h[k], dims[k] as nat) == Ok::<Seq<nat>, Seq<char>>(
                #[trigger] slice_axes(h, dims, i, acc)->Ok_0[k],
            ),
    decreases h.len() - i,
{
    if i < h.len() {
        let a = slice_axis(h[i], dims[i] as nat)->Ok_0;
        lemma_slice_axes(h, dims, i + 1, acc.push(a));
        let r = slice_axes(h, dims, i, acc)->Ok_0;
        assert(r[i] == acc.push(a)[i]);
        assert forall|k: int| 0 <= k < i implies #[trigger] r[k] == acc[k] by {
            assert(acc.push(a)[k] == acc[k]);
        }
    }
}

/// Each number of `0..n`, in order.
proof fn lemma_everything(dims: Seq<u64>, c: Seq<nat>)
    requires
        within(dims, c),
    ensures
        Seq::new(element_count(dims), |i: int| i as nat).contains(number_of(dims, c)),
{
    crate::format::grid::lemma_number_bound(dims, c);
    lemma_count(dims);
    assert(Seq::new(element_count(dims), |i: int| i as nat)[number_of(dims, c) as int]
        == number_of(dims, c));
}

/// A hyperslab selects exactly the elements whose coordinates its selectors select.
pub proof fn law_hyperslab_elements(h: Seq<SliceOrIndex>, shape: Seq<usize>, c: Seq<nat>)
    requires
        SelectionView::Hyperslab(h).raw(shape) is Ok,
        indices(SelectionView::Hyperslab(h).raw(shape)->Ok_0, shape) is Ok,
        within(wide(shape), c),
    ensures
        indices(SelectionView::Hyperslab(h).raw(shape)->Ok_0, shape)->Ok_0.contains(
            number_of(wide(shape), c),
        ) <==> forall|k: int|
            0 <= k < shape.len() ==> holds(h[k], shape[k] as nat, #[trigger] c[k]),
{
    let dims = wide(shape);
    let raw = SelectionView::Hyperslab(h).raw(shape)->Ok_0;
    let list = indices(raw, shape)->Ok_0;
    let s = raw_slices(h, shape, 0, Seq::empty())->Ok_0;
    lemma_raw_len(h, shape, 0, Seq::empty());
    let all = forall|k: int|
        0 <= k < shape.len() ==> holds(h[k], shape[k] as nat, #[trigger] c[k]);
    assert forall|k: int| 0 <= k < shape.len() implies s[k].count is Some && s[k].step >= 1 && (
    slice_holds(s[k], s[k].count->0 as nat, #[trigger] c[k]) <==> holds(
        h[k],
        shape[k] as nat,
        c[k],
    )) by {
        assert(raw_slice(k as nat, h[k], shape[k]) == Ok::<RawSlice, Seq<char>>(s[k]));
        lemma_raw_holds(k as nat, h[k], shape[k], c[k]);
    }
    match raw {
        RawView::Nothing => {
            let k = choose|k: int| 0 <= k < s.len() && (#[trigger] s[k]).count == Some(0usize);
            assert(!slice_holds(s[k], 0, c[k]));
            assert(!holds(h[k], shape[k] as nat, c[k]));
        },
        RawView::All => {
            lemma_everything(dims, c);
            assert forall|k: int| 0 <= k < shape.len() implies holds(
                h[k],
                shape[k] as nat,
                #[trigger] c[k],
            ) by {
                assert(c[k] < dims[k]);
                assert(covers(s[k], shape[k]));
                let (x, d, n) = (c[k] as int, s[k].block as int, s[k].count->0 as int);
                assert(d > 0) by (nonlinear_arith)
                    requires
                        0 <= x < n * d,
                        d >= 0,
                ;
                assert(0 <= x / d < n && (x / d) * d <= x < (x / d) * d + d) by (nonlinear_arith)
                    requires
                        0 <= x < n * d,
                        d > 0,
                ;
                assert(in_block(0, s[k].step as nat, s[k].block as nat, (x / d) as nat, c[k]));
            }
        },
        RawView::Regular(r) => {
            let axes = slice_axes(s, dims, 0, Seq::empty())->Ok_0;
            lemma_slice_axes(s, dims, 0, Seq::empty());
            assert forall|k: int| 0 <= k < axes.len() implies (forall|i: int|
                0 <= i < axes[k].len() ==> #[trigger] axes[k][i] < dims[k]) && (axes[k].contains(
                #[trigger] c[k],
            ) <==> holds(h[k], shape[k] as nat, c[k])) by {
                assert(slice_axis(s[k], dims[k] as nat) == Ok::<Seq<nat>, Seq<char>>(axes[k]));
                lemma_axis(s[k], dims[k] as nat, c[k]);
            }
            assert(axes_within(dims, axes)) by {
                assert forall|k: int, i: int|
                    0 <= k < axes.len() && 0 <= i < axes[k].len() implies #[trigger] axes[k][i]
                    < dims[k] by {
                    assert(axes[k].contains(c[k]) <==> holds(h[k], shape[k] as nat, c[k]));
                }
            }
            lemma_grid_member(axes, dims, c);
            if on_axes(axes, c) {
                assert forall|k: int| 0 <= k < shape.len() implies holds(
                    h[k],
                    shape[k] as nat,
                    #[trigger] c[k],
                ) by {
                    assert(axes[k].contains(c[k]));
                }
            }
            if all {
                assert forall|k: int| 0 <= k < axes.len() implies axes[k].contains(
                    #[trigger] c[k],
                ) by {
                    assert(holds(h[k], shape[k] as nat, c[k]));
                }
            }
        },
        _ => {},
    }
}

/// A hyperslab whose blocks do not overlap lists its elements in the order of the array,
/// so none twice.
pub proof fn law_hyperslab_order(h: Seq<SliceOrIndex>, shape: Seq<usize>)
    requires
        SelectionView::Hyperslab(h).raw(shape) is Ok,
        indices(SelectionView::Hyperslab(h).raw(shape)->Ok_0, shape) is Ok,
        forall|k: int|
            0 <= k < h.len() ==> match #[trigger] h[k] {
                SliceOrIndex::Index(_) => true,
                SliceOrIndex::SliceTo { step, block, .. } => block <= step,
                SliceOrIndex::SliceCount { step, block, .. } => block <= step,
                SliceOrIndex::Unlimited { step, block, .. } => block <= step,
            },
    ensures
        rising(indices(SelectionView::Hyperslab(h).raw(shape)->Ok_0, shape)->Ok_0),
        distinct(indices(SelectionView::Hyperslab(h).raw(shape)->Ok_0, shape)->Ok_0),
{
    let dims = wide(shape);
    let raw = SelectionView::Hyperslab(h).raw(shape)->Ok_0;
    let s = raw_slices(h, shape, 0, Seq::empty())->Ok_0;
    lemma_raw_len(h, shape, 0, Seq::empty());
    if let RawView::Regular(r) = raw {
        let axes = slice_axes(s, dims, 0, Seq::empty())->Ok_0;
        lemma_slice_axes(s, dims, 0, Seq::empty());
        assert forall|k: int| 0 <= k < axes.len() implies rising(#[trigger] axes[k]) && forall|
            i: int,
        |
            0 <= i < axes[k].len() ==> #[trigger] axes[k][i] < dims[k] by {
            assert(raw_slice(k as nat, h[k], shape[k]) == Ok::<RawSlice, Seq<char>>(s[k]));
            assert(s[k].block <= s[k].step) by {
                assert(match h[k] {
                    SliceOrIndex::Index(_) => true,
                    SliceOrIndex::SliceTo { step, block, .. } => block <= step,
                    SliceOrIndex::SliceCount { step, block, .. } => block <= step,
                    SliceOrIndex::Unlimited { step, block, .. } => block <= step,
                });
            }
            assert(slice_axis(s[k], dims[k] as nat) == Ok::<Seq<nat>, Seq<char>>(axes[k]));
            lemma_axis(s[k], dims[k] as nat, 0);
        }
        assert(axes_within(dims, axes)) by {
            assert forall|k: int, i: int|
                0 <= k < axes.len() && 0 <= i < axes[k].len() implies #[trigger] axes[k][i]
                < dims[k] by {
                assert(rising(axes[k]));
            }
        }
        lemma_grid_rising(axes, dims, 0);
    }
}

proof fn lemma_product_push(v: Seq<usize>, x: usize)
    ensures
        product(v.push(x)) == product(v) * x,
{
    assert(v.push(x).drop_last() =~= v);
}

/// The number of elements of a shape that is cut out: the sizes of the slices, where an
/// index counts as one.
proof fn lemma_slab_shape(
    s: Seq<RawSlice>,
    h: Seq<SliceOrIndex>,
    dims: Seq<u64>,
    axes: Seq<Seq<nat>>,
    i: int,
    acc: Seq<usize>,
)
    requires
        0 <= i <= s.len(),
        h.len() == s.len() == axes.len() == dims.len(),
        forall|k: int|
            0 <= k < s.len() ==> (#[trigger] s[k]).count is Some && axes[k].len() == s[k].count->0
                * s[k].block && (h[k] is Index ==> s[k].count->0 == 1 && s[k].block == 1),
        slab_shape(s, h, i, acc) is Ok,
    ensures
        product(slab_shape(s, h, i, acc)->Ok_0) == product(acc) * grid(axes, dims, i).len(),
    decreases s.len() - i,
{
    if i < s.len() {
        let n = s[i].count->0 * s[i].block;
        lemma_grid_len(axes, dims, i);
        let rest = grid(axes, dims, i + 1).len() as int;
        let p = product(acc) as int;
        if h[i] is Index {
            lemma_slab_shape(s, h, dims, axes, i + 1, acc);
            assert(1 * rest == rest) by (nonlinear_arith);
            assert(axes[i].len() == 1) by (nonlinear_arith)
                requires
                    axes[i].len() == s[i].count->0 * s[i].block,
                    s[i].count->0 == 1,
                    s[i].block == 1,
            ;
        } else {
            lemma_slab_shape(s, h, dims, axes, i + 1, acc.push(n as usize));
            lemma_product_push(acc, n as usize);
            assert((p * n) * rest == p * (n * rest)) by (nonlinear_arith);
        }
    } else {
        assert(grid(axes, dims, i).len() == 1);
        assert(product(acc) * 1 == product(acc)) by (nonlinear_arith);
    }
}

/// A hyperslab selects as many elements as the shape that it cuts out has.
pub proof fn law_hyperslab_shape(h: Seq<SliceOrIndex>, shape: Seq<usize>)
    requires
        SelectionView::Hyperslab(h).shape_out(shape) is Ok,
        SelectionView::Hyperslab(h).raw(shape) matches Ok(raw) && raw is Regular && indices(
            raw,
            shape,
        ) is Ok,
    ensures
        indices(SelectionView::Hyperslab(h).raw(shape)->Ok_0, shape)->Ok_0.len() == product(
            SelectionView::Hyperslab(h).shape_out(shape)->Ok_0,
        ),
{
    let dims = wide(shape);
    let s = raw_slices(h, shape, 0, Seq::empty())->Ok_0;
    lemma_raw_len(h, shape, 0, Seq::empty());
    let axes = slice_axes(s, dims, 0, Seq::empty())->Ok_0;
    lemma_slice_axes(s, dims, 0, Seq::empty());
    assert forall|k: int| 0 <= k < s.len() implies (#[trigger] s[k]).count is Some
        && axes[k].len() == s[k].count->0 * s[k].block && (h[k] is Index ==> s[k].count->0 == 1
        && s[k].block == 1) by {
        assert(raw_slice(k as nat, h[k], shape[k]) == Ok::<RawSlice, Seq<char>>(s[k]));
        lemma_raw_holds(k as nat, h[k], shape[k], 0);
        assert(slice_axis(s[k], dims[k] as nat) == Ok::<Seq<nat>, Seq<char>>(axes[k]));
        lemma_axis(s[k], dims[k] as nat, 0);
    }
    lemma_slab_shape(s, h, dims, axes, 0, Seq::empty());
    assert(product(Seq::<usize>::empty()) == 1);
    let n = grid(axes, dims, 0).len();
    assert(1 * n == n) by (nonlinear_arith);
}

/// A selection of everything lists each element of the array, in order.
pub proof fn law_everything_listed(shape: Seq<usize>, e: nat)
    requires
        SelectionView::All.raw(shape) is Ok,
        indices(SelectionView::All.raw(shape)->Ok_0, shape) is Ok,
        e < count(wide(shape)),
    ensures
        indices(SelectionView::All.raw(shape)->Ok_0, shape)->Ok_0.len() == count(wide(shape)),
        indices(SelectionView::All.raw(shape)->Ok_0, shape)->Ok_0[e as int] == e,
{
    lemma_count(wide(shape));
}

proof fn lemma_point_out(rows: Seq<Seq<usize>>, axis: int, dim: usize, j: int)
    requires
        0 <= j <= rows.len(),
    ensures
        point_out(rows, axis, dim, j) is None <==> forall|i: int|
            j <= i < rows.len() ==> (#[trigger] rows[i])[axis] < dim,
    decreases rows.len() - j,
{
    if j < rows.len() && rows[j][axis] < dim {
        lemma_point_out(rows, axis, dim, j + 1);
    }
}

proof fn lemma_axes_checked(rows: Seq<Seq<usize>>, shape: Seq<usize>, i: int)
    requires
        0 <= i <= shape.len(),
    ensures
        axes_checked(rows, shape, i) is Ok <==> forall|j: int, k: int|
            0 <= j < rows.len() && i <= k < shape.len() ==> #[trigger] rows[j][k] < shape[k],
    decreases shape.len() - i,
{
    if i < shape.len() {
        lemma_point_out(rows, i, shape[i], 0);
        lemma_axes_checked(rows, shape, i + 1);
        if axes_checked(rows, shape, i) is Ok {
            assert forall|j: int, k: int|
                0 <= j < rows.len() && i <= k < shape.len() implies #[trigger] rows[j][k]
                < shape[k] by {
                if k == i {
                    assert(rows[j][i] < shape[i]);
                }
            }
        }
        if forall|j: int, k: int|
            0 <= j < rows.len() && i <= k < shape.len() ==> #[trigger] rows[j][k] < shape[k] {
            assert forall|j: int| 0 <= j < rows.len() implies (#[trigger] rows[j])[i]
                < shape[i] by {
                assert(rows[j][i] < shape[i]);
            }
        }
    }
}

/// Points are accepted exactly where each of them lies within the array.
pub proof fn law_points_checked(p: PointsView, shape: Seq<usize>)
    requires
        !p.empty(),
    ensures
        coords_checked(p, shape) is Ok <==> p.ndim == shape.len() && forall|j: int, k: int|
            0 <= j < p.rows.len() && 0 <= k < shape.len() ==> #[trigger] p.rows[j][k] < shape[k],
{
    lemma_axes_checked(p.rows, shape, 0);
}

/// Points are listed in their order, each as the element at its coordinates.
pub proof fn law_points_listed(p: PointsView, shape: Seq<usize>, i: int)
    requires
        p.sound(),
        SelectionView::Points(p).raw(shape) is Ok,
        indices(SelectionView::Points(p).raw(shape)->Ok_0, shape) is Ok,
        0 <= i < p.rows.len(),
    ensures
        ({
            let list = indices(SelectionView::Points(p).raw(shape)->Ok_0, shape)->Ok_0;
            &&& list.len() == p.rows.len()
            &&& list[i] == number_of(wide(shape), Seq::new(shape.len(), |k: int| p.rows[i][k] as nat))
        }),
{
    let dims = wide(shape);
    let row = wide(p.rows[i]);
    assert(p.rows[i].len() == p.ndim);
    let c = Seq::new(dims.len(), |k: int| row[k] as nat);
    assert(c =~= Seq::new(shape.len(), |k: int| p.rows[i][k] as nat));
    lemma_linear(dims, row, c, dims.len() as int);
    assert(number_of(dims.skip(dims.len() as int), c.skip(dims.len() as int)) == 0);
}

/// A slicing by `start..end;step` selects the coordinates from `start` on, `step` apart,
/// before `end`; without an end, before the end of the dimension.
pub proof fn law_slicing(start: isize, end: Option<isize>, step: isize, dim: nat, x: nat)
    requires
        start >= 0,
        step >= 1,
        end matches Some(n) ==> n >= 0,
    ensures
        elem_selector(SliceElem::Slice { start, end, step }) matches Ok(s) && (holds(s, dim, x)
            <==> start <= x && (x - start) % step as int == 0 && x < (match end {
            Some(n) => n as int,
            None => dim as int,
        })),
{
    let s = elem_selector(SliceElem::Slice { start, end, step })->Ok_0;
    let stop = match end {
        Some(n) => n as nat,
        None => dim,
    };
    let (a, t) = (start as nat, step as nat);
    if holds(s, dim, x) {
        let b = choose|b: nat| a + b * t + 1 <= stop && #[trigger] in_block(a, t, 1, b, x);
        assert((b * t) as int % t as int == 0) by (nonlinear_arith)
            requires
                t >= 1,
                b >= 0,
        ;
        assert(b * t >= 0) by (nonlinear_arith);
        assert(x - start == b * t);
        assert((x - start) % step as int == 0);
    }
    if start <= x && (x - start) % step as int == 0 && x < stop {
        let b = ((x - start) / step as int) as nat;
        let d = x - start;
        assert(d / step as int >= 0 && (d / step as int) * step == d) by (nonlinear_arith)
            requires
                d % step as int == 0,
                d >= 0,
                step >= 1,
        ;
        assert(b * t == d);
        assert(a + b * t + 1 <= stop && in_block(a, t, 1, b, x));
        match s {
            SliceOrIndex::SliceTo { start: u, step: v, end: w, block: y } => {
                assert(u == a && v == t && y == 1 && w == stop);
                assert(u + b * v + y <= w && in_block(u as nat, v as nat, y as nat, b, x));
            },
            SliceOrIndex::Unlimited { start: u, step: v, block: y } => {
                assert(u == a && v == t && y == 1);
                assert(u + b * v + y <= dim && in_block(u as nat, v as nat, y as nat, b, x));
            },
            _ => {},
        }
    }
}

// Selections as they are stored.

proof fn lemma_slab_whole(
    dim: nat,
    start: nat,
    stride: nat,
    count: nat,
    block: nat,
    i: nat,
)
    requires
        i <= count,
        forall|b: nat, j: nat|
            b < count && j < block ==> start + #[trigger] (b * stride) + #[trigger] (j + 0) < dim,
    ensures
        slab_coords(dim, start, stride, count, block, i) == Seq::new(
            ((count - i) * block) as nat,
            |k: int|
                (start + (i + k / block as int) * stride + k % block as int) as nat,
        ),
    decreases count - i,
{
    let r = slab_coords(dim, start, stride, count, block, i);
    let want = Seq::new(
        ((count - i) * block) as nat,
        |k: int| (start + (i + k / block as int) * stride + k % block as int) as nat,
    );
    if i == count {
        assert((count - i) * block == 0) by (nonlinear_arith)
            requires
                i == count,
        ;
        assert(r =~= want);
    } else {
        lemma_slab_whole(dim, start, stride, count, block, i + 1);
        let base = start + i * stride;
        let rest = slab_coords(dim, start, stride, count, block, i + 1);
        let n = if base >= dim {
            0
        } else if dim - base < block {
            (dim - base) as nat
        } else {
            block
        };
        assert(n == block) by {
            if block > 0 {
                let j = (block - 1) as nat;
                assert(start + i * stride + (j + 0) < dim);
            }
        }
        let head = Seq::new(n, |j: int| (base + j) as nat);
        assert(r == head + rest);
        assert((count - i) * block == block + (count - i - 1) * block && (count - i - 1) * block
            >= 0) by (nonlinear_arith)
            requires
                i < count,
        ;
        assert forall|k: int| 0 <= k < want.len() implies r[k] == want[k] by {
            let (d, t) = (block as int, stride as int);
            assert(d > 0);
            if k < d {
                assert(k / d == 0 && k % d == k) by (nonlinear_arith)
                    requires
                        0 <= k < d,
                ;
            } else {
                let m = k - d;
                assert(k / d == m / d + 1 && k % d == m % d && m / d >= 0 && m % d >= 0)
                    by (nonlinear_arith)
                    requires
                        m == k - d,
                        d > 0,
                        m >= 0,
                ;
                assert(r[k] == rest[m]);
                assert(i + k / d == i + 1 + m / d);
            }
        }
        assert(r =~= want);
    }
}

proof fn lemma_axis_same(s: RawSlice, dim: nat)
    requires
        slice_axis(s, dim) is Ok,
        s.count is Some,
        s.step >= 1,
    ensures
        axis_coords(dim, slab_of(s)) == slice_axis(s, dim)->Ok_0,
{
    let (start, step, block) = (s.start as nat, s.step as nat, s.block as nat);
    let n = s.count->0 as nat;
    let a = slice_axis(s, dim)->Ok_0;
    lemma_axis(s, dim, 0);
    assert forall|b: nat, j: nat| b < n && j < block implies start + #[trigger] (b * step)
        + #[trigger] (j + 0) < dim by {
        let x = start + b * step + j;
        lemma_axis(s, dim, x);
        assert(in_block(start, step, block, b, x));
        assert(a.contains(x));
        let i = a.index_of(x);
        assert(a[i] < dim);
    }
    lemma_slab_whole(dim, start, step, n, block, 0);
    let want = Seq::new(
        ((n - 0) * block) as nat,
        |k: int| (start + (0 + k / block as int) * step + k % block as int) as nat,
    );
    assert(a =~= want) by {
        assert forall|k: int| 0 <= k < a.len() implies a[k] == want[k] by {
            assert(a[k] == coordinate(s, k as nat));
            let d = block as int;
            assert(d > 0) by (nonlinear_arith)
                requires
                    0 <= k < n * d,
                    d >= 0,
            ;
            assert(k / d >= 0 && k % d >= 0) by (nonlinear_arith)
                requires
                    d > 0,
                    k >= 0,
            ;
        }
    }
}

/// A selection that is stored selects the elements that it selected, in the same order.
pub proof fn law_stored_selection(sel: SelectionView, shape: Seq<usize>)
    requires
        sel.sound(),
        stored_selection(sel, shape) is Ok,
        indices(sel.raw(shape)->Ok_0, shape) is Ok,
        selected(stored_selection(sel, shape)->Ok_0, wide(shape)) is Ok,
    ensures
        selected(stored_selection(sel, shape)->Ok_0, wide(shape)) == indices(
            sel.raw(shape)->Ok_0,
            shape,
        ),
{
    let dims = wide(shape);
    match sel.raw(shape)->Ok_0 {
        RawView::Regular(s) => {
            let h = sel->Hyperslab_0;
            lemma_raw_len(h, shape, 0, Seq::empty());
            let axes = slice_axes(s, dims, 0, Seq::empty())->Ok_0;
            lemma_slice_axes(s, dims, 0, Seq::empty());
            let v = s.map_values(|x: RawSlice| slab_of(x));
            let other = slab_axes(dims, v);
            assert forall|k: int| 0 <= k < axes.len() implies other[k] == axes[k] by {
                assert(raw_slice(k as nat, h[k], shape[k]) == Ok::<RawSlice, Seq<char>>(s[k]));
                lemma_raw_holds(k as nat, h[k], shape[k], 0);
                assert(slice_axis(s[k], dims[k] as nat) == Ok::<Seq<nat>, Seq<char>>(axes[k]));
                lemma_axis_same(s[k], dims[k] as nat);
            }
            assert(other =~= axes);
        },
        RawView::Points(p) => {
            let points = p.rows.map_values(|r: Seq<usize>| wide(r));
            let a = selected(stored_selection(sel, shape)->Ok_0, dims)->Ok_0;
            let b = indices(sel.raw(shape)->Ok_0, shape)->Ok_0;
            if p.rows.len() > 0 {
                law_points_listed(p, shape, 0);
                law_points_selected(dims, points, 0);
            }
            assert forall|i: int| 0 <= i < a.len() implies a[i] == b[i] by {
                law_points_listed(p, shape, i);
                law_points_selected(dims, points, i);
                assert(p.rows[i].len() == p.ndim);
                assert(Seq::new(dims.len(), |k: int| points[i][k] as nat) =~= Seq::new(
                    shape.len(),
                    |k: int| p.rows[i][k] as nat,
                ));
            }
            assert(a =~= b);
        },
        _ => {},
    }
}

// Selectors that change.

/// A slice without its end keeps its start, its pace and its blocks, and so selects what it
/// did within the dimension, and what follows. An index has no end to lose.
pub proof fn law_unlimited(axis: nat, s: SliceOrIndex, dim: Ix, x: nat)
    requires
        raw_slice(axis, s, dim) is Ok,
        s matches SliceOrIndex::SliceCount { start, step, count, block } ==> last_index(
            start as nat,
            step as nat,
            count as nat,
            block as nat,
        ) < dim,
    ensures
        s.unbounded() is Ok <==> !(s is Index),
        s.unbounded() matches Ok(u) ==> u is Unlimited && (holds(s, dim as nat, x) ==> holds(
            u,
            dim as nat,
            x,
        )),
        s.unbounded() matches Ok(u) ==> u.unbounded() == Ok::<SliceOrIndex, Seq<char>>(u),
        s matches SliceOrIndex::SliceTo { start, step, end, block } ==> (end == dim && holds(
            s.unbounded()->Ok_0,
            dim as nat,
            x,
        ) ==> holds(s, dim as nat, x)),
{
    match s {
        SliceOrIndex::Index(_) => {},
        SliceOrIndex::SliceCount { start, step, count, block } => {
            if holds(s, dim as nat, x) {
                let (a, t, n, l) = (start as nat, step as nat, count as nat, block as nat);
                let b = choose|b: nat| b < n && #[trigger] in_block(a, t, l, b, x);
                assert(b * t <= t * (n - 1)) by (nonlinear_arith)
                    requires
                        b <= n - 1,
                        t >= 0,
                ;
                assert(t * less_one(n) == t * (n - 1));
                assert(a + b * t + l <= dim);
                assert(in_block(a, t, l, b, x));
            }
        },
        SliceOrIndex::SliceTo { start, step, end, block } => {
            let (a, t, l) = (start as nat, step as nat, block as nat);
            if holds(s, dim as nat, x) {
                let b = choose|b: nat|
                    a + b * t + l <= end && #[trigger] in_block(a, t, l, b, x);
                assert(in_block(a, t, l, b, x));
                assert(a + b * t + l <= dim);
            }
            if end == dim && holds(s.unbounded()->Ok_0, dim as nat, x) {
                let b = choose|b: nat|
                    a + b * t + l <= dim && #[trigger] in_block(a, t, l, b, x);
                assert(in_block(a, t, l, b, x));
            }
        },
        _ => {},
    }
}

/// A slice with blocks of another size selects such blocks; where they begin stays.
pub proof fn law_blocked(axis: nat, s: SliceOrIndex, size: Ix, dim: Ix)
    ensures
        s.blocked(size) is Ok <==> !(s is Index),
        raw_slice(axis, s, dim) is Ok ==> (s.blocked(size) matches Ok(t) ==> (raw_slice(
            axis,
            t,
            dim,
        ) matches Ok(r) ==> r.block == size && r.start == raw_slice(axis, s, dim)->Ok_0.start
            && r.step == raw_slice(axis, s, dim)->Ok_0.step)),
        s matches SliceOrIndex::SliceCount { start, step, count, block } ==> (raw_slice(
            axis,
            s.blocked(size)->Ok_0,
            dim,
        ) is Ok ==> raw_slice(axis, s.blocked(size)->Ok_0, dim)->Ok_0.count == Some(count)),
{
}

/// The unlimited axis is the first one without an end.
pub proof fn law_unlimited_axis(h: Seq<SliceOrIndex>, i: int)
    requires
        0 <= i <= h.len(),
    ensures
        match unlimited_from(h, i) {
            Some(k) => i <= k < h.len() && h[k as int] is Unlimited && forall|j: int|
                i <= j < k ==> !(#[trigger] h[j] is Unlimited),
            None => forall|j: int| i <= j < h.len() ==> !(#[trigger] h[j] is Unlimited),
        },
    decreases h.len() - i,
{
    if i < h.len() && !(h[i] is Unlimited) {
        law_unlimited_axis(h, i + 1);
    }
}

proof fn lemma_slices_back(h: Seq<RawSlice>, i: int, acc: Seq<SliceOrIndex>)
    requires
        0 <= i <= h.len(),
        acc.len() == i,
    ensures
        slices_back(h, i, acc) is Ok <==> forall|k: int|
            i <= k < h.len() ==> (#[trigger] h[k]).block <= h[k].step,
        slices_back(h, i, acc) matches Ok(v) ==> v.len() == h.len() && (forall|k: int|
            0 <= k < i ==> v[k] == acc[k]) && (forall|k: int|
            i <= k < h.len() ==> #[trigger] v[k] == slice_back(h[k])),
    decreases h.len() - i,
{
    if i < h.len() && h[i].step >= h[i].block {
        lemma_slices_back(h, i + 1, acc.push(slice_back(h[i])));
    }
}

proof fn lemma_slices_again(h: Seq<RawSlice>, v: Seq<SliceOrIndex>, shape: Seq<usize>, i: int)
    requires
        0 <= i <= h.len(),
        v.len() == h.len(),
        forall|k: int|
            i <= k < h.len() ==> raw_slice(k as nat, #[trigger] v[k], shape[k]) == Ok::<
                RawSlice,
                Seq<char>,
            >(h[k]),
    ensures
        raw_slices(v, shape, i, h.take(i)) == Ok::<Seq<RawSlice>, Seq<char>>(h),
    decreases h.len() - i,
{
    if i < h.len() {
        assert(raw_slice(i as nat, v[i], shape[i]) == Ok::<RawSlice, Seq<char>>(h[i]));
        assert(h.take(i).push(h[i]) =~= h.take(i + 1));
        lemma_slices_again(h, v, shape, i + 1);
    } else {
        assert(h.take(i) =~= h);
    }
}

proof fn lemma_slice_ends(axis: nat, s: SliceOrIndex, dim: Ix)
    requires
        raw_slice(axis, s, dim) is Ok,
    ensures
        ({
            let r = raw_slice(axis, s, dim)->Ok_0;
            r.count matches Some(n) && (n > 0 ==> raw_slice(axis, slice_back(r), dim) == Ok::<
                RawSlice,
                Seq<char>,
            >(r))
        }),
{
    let r = raw_slice(axis, s, dim)->Ok_0;
    lemma_raw_holds(axis, s, dim, 0);
    let n = r.count->0 as nat;
    if n > 0 && !(s is SliceCount) {
        let (a, t, l) = (r.start as nat, r.step as nat, r.block as nat);
        if s is Index {
            assert(t * less_one(n) == 0) by (nonlinear_arith)
                requires
                    less_one(n) == 0,
            ;
        } else {
            let end = match s {
                SliceOrIndex::SliceTo { start, step, end, block } => end as nat,
                _ => dim as nat,
            };
            let b = (n - 1) as nat;
            lemma_blocks(a, t, end, l, 0);
            lemma_blocks(a, t, end, l, b);
            assert(b * t == t * less_one(n)) by (nonlinear_arith)
                requires
                    b == less_one(n),
            ;
        }
        law_slice_round_trip(axis, r, dim);
    }
}

/// A selection that comes back from what it selects of an array selects the same of it.
pub proof fn law_selection_back(sel: SelectionView, shape: Seq<usize>)
    requires
        sel.sound(),
        sel.raw(shape) is Ok,
    ensures
        selection_back(sel.raw(shape)->Ok_0) matches Ok(s) ==> s.raw(shape) == sel.raw(shape),
        selection_back(sel.raw(shape)->Ok_0) is Err ==> (sel.raw(shape)->Ok_0 matches RawView::Regular(
            h,
        ) && exists|k: int| 0 <= k < h.len() && (#[trigger] h[k]).step < h[k].block),
{
    if let RawView::Regular(h) = sel.raw(shape)->Ok_0 {
        let v = sel->Hyperslab_0;
        lemma_raw_len(v, shape, 0, Seq::empty());
        lemma_slices_back(h, 0, Seq::empty());
        if selection_back(RawView::Regular(h)) is Ok {
            let w = slices_back(h, 0, Seq::empty())->Ok_0;
            assert forall|k: int| 0 <= k < h.len() implies raw_slice(
                k as nat,
                #[trigger] w[k],
                shape[k],
            ) == Ok::<RawSlice, Seq<char>>(h[k]) by {
                assert(raw_slice(k as nat, v[k], shape[k]) == Ok::<RawSlice, Seq<char>>(h[k]));
                lemma_slice_ends(k as nat, v[k], shape[k]);
                assert(h[k].count != Some(0usize));
            }
            lemma_slices_again(h, w, shape, 0);
            assert(h.take(0) =~= Seq::<RawSlice>::empty());
        }
    }
}

proof fn lemma_shape_len(s: Seq<RawSlice>, h: Seq<SliceOrIndex>, i: int, acc: Seq<usize>)
    requires
        0 <= i <= s.len(),
        s.len() == h.len(),
        acc.len() == slice_total(h.take(i)),
        slab_shape(s, h, i, acc) is Ok,
    ensures
        slab_shape(s, h, i, acc)->Ok_0.len() == slice_total(h),
    decreases s.len() - i,
{
    if i < s.len() {
        assert(h.take(i + 1).drop_last() =~= h.take(i));
        if h[i] is Index {
            lemma_shape_len(s, h, i + 1, acc);
        } else {
            lemma_shape_len(s, h, i + 1, acc.push((s[i].count->0 * s[i].block) as usize));
        }
    } else {
        assert(h.take(i) =~= h);
    }
}

/// A selection that can be made of an array has the rank that it asks for, and what is
/// selected has the rank that it tells.
pub proof fn law_ranks(sel: SelectionView, shape: Seq<usize>)
    ensures
        sel.raw(shape) is Ok ==> (sel.ndim_in() matches Some(n) ==> n == shape.len()),
        sel.shape_out(shape) matches Ok(v) ==> v.len() == (match sel.ndim_out() {
            Some(n) => n,
            None => shape.len(),
        }),
{
    if let SelectionView::Hyperslab(h) = sel {
        if sel.shape_out(shape) is Ok {
            let s = raw_slices(h, shape, 0, Seq::empty())->Ok_0;
            lemma_raw_len(h, shape, 0, Seq::empty());
            assert(h.take(0) =~= Seq::<SliceOrIndex>::empty());
            lemma_shape_len(s, h, 0, Seq::empty());
        }
    }
}

} // verus!
