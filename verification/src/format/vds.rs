//! Virtual datasets: serialized dataspace selections, and the list of mappings from
//! virtual to source elements.

use vstd::prelude::*;
use vstd::utf8::encode_utf8;

use crate::error::{same_bytes, Error};
use crate::format::checksum::{checksum, lookup3};
use crate::format::datatype::{nats, nul_at};
use crate::format::{
    dropped, eof_text, le_bytes, push_le, taken_sized, taken_uint, Buf, Cursor,
};
use crate::text::{decimal, from_utf8_lossy, text_of, with_number};

verus! {

/// One dimension of a regular hyperslab: start, stride, count (none where it is
/// unlimited) and block.
pub type Slab = (u64, u64, Option<u64>, u64);

/// A selection of elements of a dataspace.
#[derive(Debug)]
pub enum SerSelection {
    /// Every element.
    All,
    /// No element.
    Nothing,
    /// A regular hyperslab.
    Regular(Vec<Slab>),
    /// Boxes, each given by its first and its last corner.
    Blocks(Vec<(Vec<u64>, Vec<u64>)>),
    /// Single elements.
    Points(Vec<Vec<u64>>),
}

/// The view of a [`SerSelection`].
pub enum SelectionView {
    All,
    Nothing,
    Regular(Seq<Slab>),
    Blocks(Seq<(Seq<u64>, Seq<u64>)>),
    Points(Seq<Seq<u64>>),
}

/// The views of boxes.
pub open spec fn block_views(v: Seq<(Vec<u64>, Vec<u64>)>) -> Seq<(Seq<u64>, Seq<u64>)> {
    v.map_values(|p: (Vec<u64>, Vec<u64>)| (p.0@, p.1@))
}

/// The views of points.
pub open spec fn point_views(v: Seq<Vec<u64>>) -> Seq<Seq<u64>> {
    v.map_values(|p: Vec<u64>| p@)
}

impl View for SerSelection {
    type V = SelectionView;

    open spec fn view(&self) -> SelectionView {
        match *self {
            SerSelection::All => SelectionView::All,
            SerSelection::Nothing => SelectionView::Nothing,
            SerSelection::Regular(v) => SelectionView::Regular(v@),
            SerSelection::Blocks(v) => SelectionView::Blocks(block_views(v@)),
            SerSelection::Points(v) => SelectionView::Points(point_views(v@)),
        }
    }
}

/// The number of elements between neighbours in dimension `i` of a row-major array.
pub open spec fn stride_of(dims: Seq<u64>, i: int) -> nat
    decreases dims.len() - i,
{
    if i < 0 || i + 1 >= dims.len() {
        1
    } else {
        stride_of(dims, i + 1) * dims[i + 1] as nat
    }
}

/// The number of elements of an array.
pub open spec fn element_count(dims: Seq<u64>) -> nat {
    if dims.len() == 0 {
        1
    } else {
        stride_of(dims, 0) * dims[0] as nat
    }
}

/// Whether all strides and the number of elements are within range.
pub open spec fn countable(dims: Seq<u64>) -> bool {
    &&& element_count(dims) <= u64::MAX
    &&& forall|i: int| 0 <= i < dims.len() ==> #[trigger] stride_of(dims, i) <= u64::MAX
}

/// The coordinates that blocks `i` on of a hyperslab select below `dim`.
pub open spec fn slab_coords(dim: nat, start: nat, stride: nat, count: nat, block: nat, i: nat) -> Seq<
    nat,
>
    decreases count - i,
{
    if i >= count {
        Seq::empty()
    } else {
        let base = start + i * stride;
        let n = if base >= dim {
            0
        } else if dim - base < block {
            (dim - base) as nat
        } else {
            block
        };
        Seq::new(n, |j: int| (base + j) as nat) + slab_coords(
            dim,
            start,
            stride,
            count,
            block,
            i + 1,
        )
    }
}

/// The coordinates that a dimension of a hyperslab selects. Where the count is
/// unlimited, as many whole blocks as the dimension holds.
pub open spec fn axis_coords(dim: nat, slab: Slab) -> Seq<nat> {
    let (start, stride0, count0, block) = slab;
    let stride = if stride0 == 0 {
        1nat
    } else {
        stride0 as nat
    };
    let count = match count0 {
        Some(c) => c as nat,
        None => if dim >= start + block {
            ((dim - start - block) / stride as int + 1) as nat
        } else {
            0
        },
    };
    slab_coords(dim, start as nat, stride, count, block as nat, 0)
}

/// The elements `inner` repeated at each of some coordinates.
pub open spec fn spread(axis: Seq<nat>, stride: nat, inner: Seq<nat>) -> Seq<nat>
    decreases axis.len(),
{
    if axis.len() == 0 {
        Seq::empty()
    } else {
        spread(axis.drop_last(), stride, inner) + inner.map_values(
            |x: nat| x + axis.last() * stride,
        )
    }
}

/// The row-major numbers of the elements at all combinations of coordinates, from
/// dimension `k` on.
pub open spec fn grid(axes: Seq<Seq<nat>>, dims: Seq<u64>, k: int) -> Seq<nat>
    decreases axes.len() - k,
{
    if k < 0 || k >= axes.len() {
        seq![0]
    } else {
        spread(axes[k], stride_of(dims, k), grid(axes, dims, k + 1))
    }
}

/// The coordinates from `a` to `b`, or `a` alone.
pub open spec fn range_coords(a: u64, b: u64) -> Seq<nat> {
    Seq::new(
        (if b > a {
            b - a + 1
        } else {
            1
        }) as nat,
        |j: int| (a + j) as nat,
    )
}

/// Whether all numbers are in range.
pub open spec fn in_range(v: Seq<nat>) -> bool {
    forall|i: int| 0 <= i < v.len() ==> #[trigger] v[i] <= u64::MAX
}

/// The numbers `v`, if they are in range.
pub open spec fn ranged(v: Seq<nat>) -> Result<Seq<nat>, Seq<char>> {
    if in_range(v) {
        Ok(v)
    } else {
        Err("selection out of range"@)
    }
}

/// The axes of a regular hyperslab.
pub open spec fn slab_axes(dims: Seq<u64>, sel: Seq<Slab>) -> Seq<Seq<nat>> {
    Seq::new(sel.len(), |i: int| axis_coords(dims[i] as nat, sel[i]))
}

/// The axes of a box.
pub open spec fn block_axes(b: (Seq<u64>, Seq<u64>)) -> Seq<Seq<nat>> {
    Seq::new(b.0.len(), |i: int| range_coords(b.0[i], b.1[i]))
}

/// The elements of the boxes from `blocks[i]` on, behind `acc`. A dataspace without
/// dimensions has one element only.
pub open spec fn blocks_indices(
    dims: Seq<u64>,
    blocks: Seq<(Seq<u64>, Seq<u64>)>,
    i: int,
    acc: Seq<nat>,
) -> Result<Seq<nat>, Seq<char>>
    decreases blocks.len() - i,
{
    if i < 0 || i >= blocks.len() {
        Ok(acc)
    } else {
        let b = blocks[i];
        if b.0.len() != dims.len() || b.1.len() != dims.len() {
            Err("selection rank mismatch"@)
        } else if dims.len() == 0 {
            Ok(acc.push(0))
        } else {
            match ranged(grid(block_axes(b), dims, 0)) {
                Err(e) => Err(e),
                Ok(v) => blocks_indices(dims, blocks, i + 1, acc + v),
            }
        }
    }
}

/// The row-major number of a point.
pub open spec fn linear(dims: Seq<u64>, p: Seq<u64>, k: int) -> nat
    decreases k,
{
    if k <= 0 {
        0
    } else {
        linear(dims, p, k - 1) + p[k - 1] as nat * stride_of(dims, k - 1)
    }
}

pub open spec fn points_indices(dims: Seq<u64>, points: Seq<Seq<u64>>, i: int, acc: Seq<nat>) -> Result<
    Seq<nat>,
    Seq<char>,
>
    decreases points.len() - i,
{
    if i < 0 || i >= points.len() {
        Ok(acc)
    } else if points[i].len() < dims.len() {
        Err("selection rank mismatch"@)
    } else {
        let n = linear(dims, points[i], dims.len() as int);
        if n > u64::MAX {
            Err("selection out of range"@)
        } else {
            points_indices(dims, points, i + 1, acc.push(n))
        }
    }
}

/// The row-major numbers of the selected elements of an array with the dimensions
/// `dims`.
pub open spec fn selected(sel: SelectionView, dims: Seq<u64>) -> Result<Seq<nat>, Seq<char>> {
    if !countable(dims) {
        Err("dataspace too large"@)
    } else {
        match sel {
            SelectionView::All => Ok(Seq::new(element_count(dims), |i: int| i as nat)),
            SelectionView::Nothing => Ok(Seq::empty()),
            SelectionView::Regular(v) => if v.len() != dims.len() {
                Err("selection rank mismatch"@)
            } else {
                ranged(grid(slab_axes(dims, v), dims, 0))
            },
            SelectionView::Blocks(v) => blocks_indices(dims, v, 0, Seq::empty()),
            SelectionView::Points(v) => points_indices(dims, v, 0, Seq::empty()),
        }
    }
}

/// Whether numbers came out as `s` says.
pub open spec fn same_numbers(r: Result<Vec<u64>, Error>, s: Result<Seq<nat>, Seq<char>>) -> bool {
    match (r, s) {
        (Ok(v), Ok(w)) => nats(v@) == w,
        (Err(e), Err(m)) => e@ == m,
        _ => false,
    }
}

fn product_of(a: u64, b: u64) -> (r: Option<u64>)
    ensures
        r matches Some(v) ==> v == a * b,
        r is None <==> a * b > u64::MAX,
{
    assert(a as int * b as int <= 0xffff_ffff_ffff_ffff * 0xffff_ffff_ffff_ffff) by (nonlinear_arith)
        requires
            0 <= a as int <= 0xffff_ffff_ffff_ffff,
            0 <= b as int <= 0xffff_ffff_ffff_ffff,
    ;
    let p: u128 = a as u128 * b as u128;
    if p > u64::MAX as u128 {
        None
    } else {
        Some(p as u64)
    }
}

/// The strides of an array and its number of elements, where they are in range.
pub fn strides_of(dims: &[u64]) -> (r: Option<(Vec<u64>, u64)>)
    ensures
        r is Some <==> countable(dims@),
        r matches Some((v, n)) ==> n == element_count(dims@) && v@.len() == dims@.len() && forall|
            i: int,
        |
            0 <= i < v@.len() ==> #[trigger] v@[i] == stride_of(dims@, i),
{
    let n: usize = dims.len();
    if n == 0 {
        return Some((Vec::new(), 1));
    }
    let mut v: Vec<u64> = vec![1; n];
    let mut i: usize = n - 1;
    while i > 0
        invariant
            i < n == dims@.len() == v@.len(),
            forall|k: int| i <= k < n ==> #[trigger] v@[k] == stride_of(dims@, k),
        decreases i,
    {
        assert(v@[i as int] == stride_of(dims@, i as int));
        match product_of(v[i], dims[i]) {
            None => {
                assert(stride_of(dims@, i - 1) > u64::MAX);
                return None;
            },
            Some(p) => {
                v.set(i - 1, p);
            },
        }
        i -= 1;
    }
    assert(v@[0] == stride_of(dims@, 0));
    match product_of(v[0], dims[0]) {
        None => None,
        Some(p) => {
            assert forall|k: int| 0 <= k < n implies #[trigger] stride_of(dims@, k)
                <= u64::MAX by {
                assert(v@[k] == stride_of(dims@, k));
            }
            Some((v, p))
        },
    }
}

proof fn lemma_nats_push(v: Seq<u64>, x: u64)
    ensures
        nats(v.push(x)) == nats(v).push(x as nat),
{
    assert(nats(v.push(x)) =~= nats(v).push(x as nat));
}

/// From the first block behind the end on, nothing is selected.
proof fn lemma_slab_end(dim: nat, start: nat, stride: nat, count: nat, block: nat, i: nat)
    requires
        start + i * stride >= dim,
    ensures
        slab_coords(dim, start, stride, count, block, i) == Seq::<nat>::empty(),
    decreases count - i,
{
    if i < count {
        assert((i + 1) * stride >= i * stride) by (nonlinear_arith);
        lemma_slab_end(dim, start, stride, count, block, i + 1);
        assert(slab_coords(dim, start, stride, count, block, i) =~= Seq::<nat>::empty());
    }
}

/// The coordinates that a dimension of a hyperslab selects.
fn slab_axis(dim: u64, slab: &Slab) -> (r: Vec<u64>)
    ensures
        nats(r@) == axis_coords(dim as nat, *slab),
{
    let start: u64 = slab.0;
    let stride: u64 = if slab.1 == 0 {
        1
    } else {
        slab.1
    };
    let block: u64 = slab.3;
    let count: u64 = match slab.2 {
        Some(c) => c,
        None => {
            if dim as u128 >= start as u128 + block as u128 {
                let room: u64 = dim - start - block;
                proof {
                    vstd::arithmetic::div_mod::lemma_div_is_ordered_by_denominator(
                        room as int,
                        1,
                        stride as int,
                    );
                    assert(room as int / 1 == room);
                }
                if room / stride == u64::MAX {
                    u64::MAX
                } else {
                    room / stride + 1
                }
            } else {
                0
            }
        },
    };
    let ghost wanted = match slab.2 {
        Some(c) => c as nat,
        None => if dim >= start + block {
            ((dim - start - block) / stride as int + 1) as nat
        } else {
            0
        },
    };
    let ghost whole = slab_coords(
        dim as nat,
        start as nat,
        stride as nat,
        wanted,
        block as nat,
        0,
    );
    let mut out: Vec<u64> = Vec::new();
    let mut i: u64 = 0;
    let mut base: u64 = start;
    assert(0 * stride == 0) by (nonlinear_arith);
    assert(nats(out@) =~= Seq::empty());
    assert(nats(out@) + whole =~= whole);
    while i < count && base < dim
        invariant
            stride >= 1,
            i <= count,
            base <= u64::MAX,
            count <= wanted,
            wanted <= count + 1,
            wanted > count ==> count == u64::MAX,
            i < count ==> base == start + i * stride || base >= dim,
            i == count ==> base >= dim || base == start + i * stride,
            base >= dim ==> start + i * stride >= dim,
            whole == nats(out@) + slab_coords(
                dim as nat,
                start as nat,
                stride as nat,
                wanted,
                block as nat,
                i as nat,
            ),
        decreases count - i,
    {
        let n: u64 = if dim - base < block {
            dim - base
        } else {
            block
        };
        let ghost before = nats(out@);
        let ghost part = Seq::new(n as nat, |j: int| (base + j) as nat);
        let mut j: u64 = 0;
        assert(nats(out@) =~= before + part.take(0));
        while j < n
            invariant
                j <= n <= dim - base,
                base < dim,
                part == Seq::new(n as nat, |j: int| (base + j) as nat),
                nats(out@) == before + part.take(j as int),
            decreases n - j,
        {
            proof {
                lemma_nats_push(out@, (base + j) as u64);
            }
            out.push(base + j);
            j += 1;
            assert(nats(out@) =~= before + part.take(j as int));
        }
        proof {
            assert(part.take(n as int) =~= part);
            let rest = slab_coords(
                dim as nat,
                start as nat,
                stride as nat,
                wanted,
                block as nat,
                (i + 1) as nat,
            );
            assert(before + (part + rest) =~= (before + part) + rest);
            assert((i + 1) * stride == i * stride + stride) by (nonlinear_arith);
        }
        i += 1;
        base = if base > u64::MAX - stride {
            u64::MAX
        } else {
            base + stride
        };
        assert(base >= dim ==> start + i * stride >= dim);
    }
    proof {
        if base >= dim {
            lemma_slab_end(
                dim as nat,
                start as nat,
                stride as nat,
                wanted,
                block as nat,
                i as nat,
            );
        } else if wanted > count {
            assert(start + i * stride >= dim) by (nonlinear_arith)
                requires
                    i == u64::MAX,
                    stride >= 1,
                    dim <= u64::MAX,
                    start >= 0,
            ;
            lemma_slab_end(
                dim as nat,
                start as nat,
                stride as nat,
                wanted,
                block as nat,
                i as nat,
            );
        }
        assert(whole =~= nats(out@));
    }
    out
}

/// The axes as numbers.
pub open spec fn axis_views(axes: Seq<Vec<u64>>) -> Seq<Seq<nat>> {
    axes.map_values(|v: Vec<u64>| nats(v@))
}

proof fn lemma_spread_empty(axis: Seq<nat>, stride: nat)
    ensures
        spread(axis, stride, Seq::empty()) == Seq::<nat>::empty(),
    decreases axis.len(),
{
    if axis.len() > 0 {
        lemma_spread_empty(axis.drop_last(), stride);
        assert(spread(axis, stride, Seq::empty()) =~= Seq::<nat>::empty());
    }
}

/// With an empty axis nothing is selected.
proof fn lemma_grid_empty(axes: Seq<Seq<nat>>, dims: Seq<u64>, k: int, at: int)
    requires
        0 <= k <= at < axes.len(),
        axes[at].len() == 0,
    ensures
        grid(axes, dims, k) == Seq::<nat>::empty(),
    decreases at - k,
{
    if k < at {
        lemma_grid_empty(axes, dims, k + 1, at);
        lemma_spread_empty(axes[k], stride_of(dims, k));
    } else {
        assert(axes[k] =~= Seq::empty());
        assert(spread(axes[k], stride_of(dims, k), grid(axes, dims, k + 1)) =~= Seq::empty());
    }
}

/// A number that is out of range stays so in further dimensions.
proof fn lemma_grid_grows(axes: Seq<Seq<nat>>, dims: Seq<u64>, k: int, i: int)
    requires
        0 <= k <= axes.len(),
        forall|j: int| 0 <= j < axes.len() ==> (#[trigger] axes[j]).len() > 0,
        0 <= i < grid(axes, dims, k).len(),
        grid(axes, dims, k)[i] > u64::MAX,
    ensures
        !in_range(grid(axes, dims, 0)),
    decreases k,
{
    if k > 0 {
        let inner = grid(axes, dims, k);
        let axis = axes[k - 1];
        let stride = stride_of(dims, k - 1);
        let outer = grid(axes, dims, k - 1);
        let head = spread(axis.drop_last(), stride, inner);
        let tail = inner.map_values(|x: nat| x + axis.last() * stride);
        assert(axes[k - 1].len() > 0);
        assert(outer == head + tail);
        let at = head.len() + i;
        assert(outer[at as int] == inner[i] + axis.last() * stride);
        assert(axis.last() * stride >= 0) by (nonlinear_arith);
        lemma_grid_grows(axes, dims, k - 1, at as int);
    }
}

/// `a * b + c`, where it fits.
fn combined(a: u64, b: u64, c: u64) -> (r: Option<u64>)
    ensures
        r matches Some(v) ==> v == c + a * b,
        r is None <==> c + a * b > u64::MAX,
{
    assert(a as int * b as int <= 0xffff_ffff_ffff_ffff * 0xffff_ffff_ffff_ffff) by (nonlinear_arith)
        requires
            0 <= a as int <= 0xffff_ffff_ffff_ffff,
            0 <= b as int <= 0xffff_ffff_ffff_ffff,
    ;
    let p: u128 = a as u128 * b as u128 + c as u128;
    if p > u64::MAX as u128 {
        None
    } else {
        Some(p as u64)
    }
}

/// Repeats `inner` at each of some coordinates; none where a number is out of range.
fn spread_over(axis: &Vec<u64>, stride: u64, inner: &Vec<u64>) -> (r: Option<Vec<u64>>)
    ensures
        r matches Some(v) ==> nats(v@) == spread(nats(axis@), stride as nat, nats(inner@)),
        r is None <==> !in_range(spread(nats(axis@), stride as nat, nats(inner@))),
{
    let n: usize = axis.len();
    let m: usize = inner.len();
    let ghost (va, vi) = (nats(axis@), nats(inner@));
    let mut out: Vec<u64> = Vec::new();
    let mut i: usize = 0;
    assert(va.take(0) =~= Seq::empty());
    assert(nats(out@) =~= Seq::empty());
    while i < n
        invariant
            i <= n == axis@.len(),
            m == inner@.len(),
            va == nats(axis@),
            vi == nats(inner@),
            nats(out@) == spread(va.take(i as int), stride as nat, vi),
        decreases n - i,
    {
        let c: u64 = axis[i];
        let ghost before = nats(out@);
        let ghost part = vi.map_values(|x: nat| x + c as nat * stride as nat);
        proof {
            assert(va.take(i + 1).drop_last() =~= va.take(i as int));
            assert(va.take(i + 1).last() == c);
        }
        let mut j: usize = 0;
        assert(nats(out@) =~= before + part.take(0));
        while j < m
            invariant
                i < n == axis@.len(),
                j <= m == inner@.len(),
                va == nats(axis@),
                vi == nats(inner@),
                c == axis@[i as int],
                part == vi.map_values(|x: nat| x + c as nat * stride as nat),
                spread(va.take(i + 1), stride as nat, vi) == before + part,
                nats(out@) == before + part.take(j as int),
            decreases m - j,
        {
            assert(part[j as int] == inner@[j as int] + c * stride);
            match combined(c, stride, inner[j]) {
                None => {
                    proof {
                        let some = spread(va.take(i + 1), stride as nat, vi);
                        assert(some[before.len() + j] == part[j as int]);
                        lemma_spread_prefix(va, stride as nat, vi, i + 1);
                        let all = spread(va, stride as nat, vi);
                        assert(all[before.len() + j] > u64::MAX);
                    }
                    return None;
                },
                Some(v) => {
                    proof {
                        lemma_nats_push(out@, v);
                    }
                    out.push(v);
                },
            }
            j += 1;
            assert(nats(out@) =~= before + part.take(j as int));
        }
        assert(part.take(m as int) =~= part);
        i += 1;
    }
    proof {
        assert(va.take(n as int) =~= va);
        assert forall|k: int| 0 <= k < nats(out@).len() implies #[trigger] nats(out@)[k]
            <= u64::MAX by {}
    }
    Some(out)
}

proof fn lemma_spread_prefix(axis: Seq<nat>, stride: nat, inner: Seq<nat>, k: int)
    requires
        0 <= k <= axis.len(),
    ensures
        spread(axis.take(k), stride, inner).len() <= spread(axis, stride, inner).len(),
        forall|i: int|
            0 <= i < spread(axis.take(k), stride, inner).len() ==> #[trigger] spread(
                axis.take(k),
                stride,
                inner,
            )[i] == spread(axis, stride, inner)[i],
    decreases axis.len() - k,
{
    if k == axis.len() {
        assert(axis.take(k) =~= axis);
    } else {
        lemma_spread_prefix(axis, stride, inner, k + 1);
        let more = axis.take(k + 1);
        assert(more.drop_last() =~= axis.take(k));
        let part = spread(axis.take(k), stride, inner);
        assert forall|i: int| 0 <= i < part.len() implies #[trigger] part[i] == spread(
            axis,
            stride,
            inner,
        )[i] by {
            assert(spread(more, stride, inner)[i] == part[i]);
        }
    }
}

/// The row-major numbers of the elements at all combinations of coordinates; none
/// where one is out of range.
pub(crate) fn grid_numbers(axes: &Vec<Vec<u64>>, strides: &Vec<u64>, Ghost(dims): Ghost<Seq<u64>>) -> (r: Option<
    Vec<u64>,
>)
    requires
        axes@.len() == strides@.len(),
        forall|i: int| 0 <= i < strides@.len() ==> #[trigger] strides@[i] == stride_of(dims, i),
    ensures
        r matches Some(v) ==> nats(v@) == grid(axis_views(axes@), dims, 0),
        r is None <==> !in_range(grid(axis_views(axes@), dims, 0)),
{
    let n: usize = axes.len();
    let ghost views = axis_views(axes@);
    let mut k: usize = 0;
    while k < n
        invariant
            k <= n == axes@.len(),
            views == axis_views(axes@),
            forall|j: int| 0 <= j < k ==> (#[trigger] views[j]).len() > 0,
        decreases n - k,
    {
        assert(views[k as int] == nats(axes@[k as int]@));
        if axes[k].is_empty() {
            proof {
                lemma_grid_empty(views, dims, 0, k as int);
            }
            let nothing: Vec<u64> = Vec::new();
            assert(nats(nothing@) =~= Seq::empty());
            return Some(nothing);
        }
        k += 1;
    }
    let mut inner: Vec<u64> = Vec::new();
    inner.push(0);
    let mut i: usize = n;
    assert(nats(inner@) =~= seq![0nat]);
    while i > 0
        invariant
            i <= n == axes@.len() == strides@.len(),
            views == axis_views(axes@),
            forall|j: int| 0 <= j < n ==> (#[trigger] views[j]).len() > 0,
            forall|i: int|
                0 <= i < strides@.len() ==> #[trigger] strides@[i] == stride_of(dims, i),
            nats(inner@) == grid(views, dims, i as int),
        decreases i,
    {
        i -= 1;
        assert(views[i as int] == nats(axes@[i as int]@));
        assert(strides@[i as int] == stride_of(dims, i as int));
        match spread_over(&axes[i], strides[i], &inner) {
            None => {
                proof {
                    let g = grid(views, dims, i as int);
                    assert(!in_range(g));
                    let j = choose|j: int| 0 <= j < g.len() && #[trigger] g[j] > u64::MAX;
                    lemma_grid_grows(views, dims, i as int, j);
                }
                return None;
            },
            Some(v) => {
                inner = v;
            },
        }
    }
    proof {
        assert forall|j: int| 0 <= j < nats(inner@).len() implies #[trigger] nats(inner@)[j]
            <= u64::MAX by {}
    }
    Some(inner)
}

/// The coordinates from `a` to `b`, or `a` alone.
fn range_axis(a: u64, b: u64) -> (r: Vec<u64>)
    ensures
        nats(r@) == range_coords(a, b),
{
    let ghost all = range_coords(a, b);
    let mut out: Vec<u64> = Vec::new();
    proof {
        lemma_nats_push(out@, a);
        assert(nats(out@) =~= Seq::empty());
    }
    out.push(a);
    let mut x: u64 = a;
    assert(nats(out@) =~= all.take(1));
    while x < b
        invariant
            all == range_coords(a, b),
            a <= x,
            x <= b || x == a,
            out@.len() == x - a + 1,
            out@.len() <= all.len(),
            nats(out@) == all.take(x - a + 1),
        decreases b - x,
    {
        x += 1;
        proof {
            lemma_nats_push(out@, x);
        }
        out.push(x);
        assert(nats(out@) =~= all.take(x - a + 1));
    }
    assert(all.take(x - a + 1) =~= all);
    out
}

fn indices_of_slabs(sel: &Vec<Slab>, dims: &[u64], strides: &Vec<u64>) -> (r: Result<
    Vec<u64>,
    Error,
>)
    requires
        sel@.len() == dims@.len() == strides@.len(),
        forall|i: int| 0 <= i < strides@.len() ==> #[trigger] strides@[i] == stride_of(dims@, i),
    ensures
        same_numbers(r, ranged(grid(slab_axes(dims@, sel@), dims@, 0))),
{
    let n: usize = sel.len();
    let ghost wanted = slab_axes(dims@, sel@);
    let mut axes: Vec<Vec<u64>> = Vec::new();
    let mut i: usize = 0;
    assert(axis_views(axes@) =~= wanted.take(0));
    while i < n
        invariant
            i <= n == sel@.len() == dims@.len(),
            wanted == slab_axes(dims@, sel@),
            axes@.len() == i,
            axis_views(axes@) == wanted.take(i as int),
        decreases n - i,
    {
        let ghost before = axes@;
        let axis = slab_axis(dims[i], &sel[i]);
        axes.push(axis);
        i += 1;
        assert(axis_views(axes@) =~= axis_views(before).push(nats(axis@)));
        assert(axis_views(axes@) =~= wanted.take(i as int));
    }
    assert(wanted.take(n as int) =~= wanted);
    match grid_numbers(&axes, strides, Ghost(dims@)) {
        Some(v) => Ok(v),
        None => Err(Error::new("selection out of range")),
    }
}

fn indices_of_block(start: &Vec<u64>, end: &Vec<u64>, strides: &Vec<u64>, Ghost(dims): Ghost<
    Seq<u64>,
>) -> (r: Result<Vec<u64>, Error>)
    requires
        start@.len() == end@.len() == strides@.len(),
        forall|i: int| 0 <= i < strides@.len() ==> #[trigger] strides@[i] == stride_of(dims, i),
    ensures
        same_numbers(r, ranged(grid(block_axes((start@, end@)), dims, 0))),
{
    let n: usize = start.len();
    let ghost wanted = block_axes((start@, end@));
    let mut axes: Vec<Vec<u64>> = Vec::new();
    let mut i: usize = 0;
    assert(axis_views(axes@) =~= wanted.take(0));
    while i < n
        invariant
            i <= n == start@.len() == end@.len(),
            wanted == block_axes((start@, end@)),
            axes@.len() == i,
            axis_views(axes@) == wanted.take(i as int),
        decreases n - i,
    {
        let ghost before = axes@;
        let axis = range_axis(start[i], end[i]);
        axes.push(axis);
        i += 1;
        assert(axis_views(axes@) =~= axis_views(before).push(nats(axis@)));
        assert(axis_views(axes@) =~= wanted.take(i as int));
    }
    assert(wanted.take(n as int) =~= wanted);
    match grid_numbers(&axes, strides, Ghost(dims)) {
        Some(v) => Ok(v),
        None => Err(Error::new("selection out of range")),
    }
}

fn indices_of_blocks(blocks: &Vec<(Vec<u64>, Vec<u64>)>, dims: &[u64], strides: &Vec<u64>) -> (r:
    Result<Vec<u64>, Error>)
    requires
        dims@.len() == strides@.len(),
        forall|i: int| 0 <= i < strides@.len() ==> #[trigger] strides@[i] == stride_of(dims@, i),
    ensures
        same_numbers(r, blocks_indices(dims@, block_views(blocks@), 0, Seq::empty())),
{
    let rank: usize = dims.len();
    let n: usize = blocks.len();
    let ghost views = block_views(blocks@);
    let ghost whole = blocks_indices(dims@, views, 0, Seq::empty());
    let mut out: Vec<u64> = Vec::new();
    let mut i: usize = 0;
    assert(nats(out@) =~= Seq::empty());
    while i < n
        invariant
            i <= n == blocks@.len(),
            rank == dims@.len() == strides@.len(),
            views == block_views(blocks@),
            forall|i: int|
                0 <= i < strides@.len() ==> #[trigger] strides@[i] == stride_of(dims@, i),
            whole == blocks_indices(dims@, views, 0, Seq::empty()),
            whole == blocks_indices(dims@, views, i as int, nats(out@)),
        decreases n - i,
    {
        let b = &blocks[i];
        assert(views[i as int] == (b.0@, b.1@));
        if b.0.len() != rank || b.1.len() != rank {
            return Err(Error::new("selection rank mismatch"));
        }
        if rank == 0 {
            proof {
                lemma_nats_push(out@, 0);
            }
            out.push(0);
            return Ok(out);
        }
        let mut v = indices_of_block(&b.0, &b.1, strides, Ghost(dims@))?;
        let ghost (x, y) = (out@, v@);
        out.append(&mut v);
        assert(nats(out@) =~= nats(x) + nats(y));
        i += 1;
    }
    Ok(out)
}

/// The row-major number of a point; none where it is out of range.
pub(crate) fn point_number(p: &Vec<u64>, strides: &Vec<u64>, Ghost(dims): Ghost<Seq<u64>>) -> (r: Option<u64>)
    requires
        p@.len() >= strides@.len(),
        dims.len() == strides@.len(),
        forall|i: int| 0 <= i < strides@.len() ==> #[trigger] strides@[i] == stride_of(dims, i),
    ensures
        r matches Some(v) ==> v == linear(dims, p@, dims.len() as int),
        r is None <==> linear(dims, p@, dims.len() as int) > u64::MAX,
{
    let n: usize = strides.len();
    let mut sum: u64 = 0;
    let mut i: usize = 0;
    while i < n
        invariant
            i <= n == strides@.len() == dims.len(),
            n <= p@.len(),
            forall|i: int|
                0 <= i < strides@.len() ==> #[trigger] strides@[i] == stride_of(dims, i),
            sum == linear(dims, p@, i as int),
        decreases n - i,
    {
        assert(strides@[i as int] == stride_of(dims, i as int));
        match combined(p[i], strides[i], sum) {
            None => {
                proof {
                    lemma_linear_grows(dims, p@, i + 1, n as int);
                }
                return None;
            },
            Some(v) => {
                sum = v;
            },
        }
        i += 1;
    }
    Some(sum)
}

proof fn lemma_linear_grows(dims: Seq<u64>, p: Seq<u64>, k: int, n: int)
    requires
        0 <= k <= n,
    ensures
        linear(dims, p, k) <= linear(dims, p, n),
    decreases n - k,
{
    if k < n {
        lemma_linear_grows(dims, p, k, n - 1);
        let (a, b) = (p[n - 1] as nat, stride_of(dims, n - 1));
        assert(a * b >= 0) by (nonlinear_arith);
    }
}

fn indices_of_points(points: &Vec<Vec<u64>>, dims: &[u64], strides: &Vec<u64>) -> (r: Result<
    Vec<u64>,
    Error,
>)
    requires
        dims@.len() == strides@.len(),
        forall|i: int| 0 <= i < strides@.len() ==> #[trigger] strides@[i] == stride_of(dims@, i),
    ensures
        same_numbers(r, points_indices(dims@, point_views(points@), 0, Seq::empty())),
{
    let rank: usize = dims.len();
    let n: usize = points.len();
    let ghost views = point_views(points@);
    let ghost whole = points_indices(dims@, views, 0, Seq::empty());
    let mut out: Vec<u64> = Vec::new();
    let mut i: usize = 0;
    assert(nats(out@) =~= Seq::empty());
    while i < n
        invariant
            i <= n == points@.len(),
            rank == dims@.len() == strides@.len(),
            views == point_views(points@),
            forall|i: int|
                0 <= i < strides@.len() ==> #[trigger] strides@[i] == stride_of(dims@, i),
            whole == points_indices(dims@, views, 0, Seq::empty()),
            whole == points_indices(dims@, views, i as int, nats(out@)),
        decreases n - i,
    {
        assert(views[i as int] == points@[i as int]@);
        if points[i].len() < rank {
            return Err(Error::new("selection rank mismatch"));
        }
        match point_number(&points[i], strides, Ghost(dims@)) {
            None => {
                return Err(Error::new("selection out of range"));
            },
            Some(v) => {
                proof {
                    lemma_nats_push(out@, v);
                }
                out.push(v);
            },
        }
        i += 1;
    }
    Ok(out)
}

impl SerSelection {
    /// The row-major numbers of the selected elements within `dims`.
    pub fn linear_indices(&self, dims: &[u64]) -> (r: Result<Vec<u64>, Error>)
        ensures
            same_numbers(r, selected(self@, dims@)),
    {
        let rank: usize = dims.len();
        let (strides, total) = match strides_of(dims) {
            Some(p) => p,
            None => return Err(Error::new("dataspace too large")),
        };
        match self {
            SerSelection::All => {
                let ghost all = Seq::new(total as nat, |i: int| i as nat);
                let mut out: Vec<u64> = Vec::new();
                let mut i: u64 = 0;
                assert(nats(out@) =~= all.take(0));
                while i < total
                    invariant
                        i <= total,
                        all == Seq::new(total as nat, |i: int| i as nat),
                        nats(out@) == all.take(i as int),
                    decreases total - i,
                {
                    proof {
                        lemma_nats_push(out@, i);
                    }
                    out.push(i);
                    i += 1;
                    assert(nats(out@) =~= all.take(i as int));
                }
                assert(all.take(total as int) =~= all);
                Ok(out)
            },
            SerSelection::Nothing => {
                let out: Vec<u64> = Vec::new();
                assert(nats(out@) =~= Seq::empty());
                Ok(out)
            },
            SerSelection::Regular(sel) => {
                if sel.len() != rank {
                    return Err(Error::new("selection rank mismatch"));
                }
                indices_of_slabs(sel, dims, &strides)
            },
            SerSelection::Blocks(blocks) => indices_of_blocks(blocks, dims, &strides),
            SerSelection::Points(points) => indices_of_points(points, dims, &strides),
        }
    }
}

/// The number of elements of the dimensions from `k` on.
pub(crate) open spec fn count_from(dims: Seq<u64>, k: int) -> nat {
    if k < 0 || k >= dims.len() {
        1
    } else {
        stride_of(dims, k) * dims[k] as nat
    }
}

proof fn lemma_spread_bound(axis: Seq<nat>, stride: nat, inner: Seq<nat>, dim: nat)
    requires
        forall|i: int| 0 <= i < axis.len() ==> #[trigger] axis[i] < dim,
        forall|i: int| 0 <= i < inner.len() ==> #[trigger] inner[i] < stride,
    ensures
        forall|i: int|
            0 <= i < spread(axis, stride, inner).len() ==> #[trigger] spread(
                axis,
                stride,
                inner,
            )[i] < stride * dim,
    decreases axis.len(),
{
    if axis.len() > 0 {
        let init = axis.drop_last();
        assert forall|i: int| 0 <= i < init.len() implies #[trigger] init[i] < dim by {
            assert(axis[i] < dim);
        }
        lemma_spread_bound(init, stride, inner, dim);
        let head = spread(init, stride, inner);
        let all = spread(axis, stride, inner);
        assert forall|i: int| 0 <= i < all.len() implies #[trigger] all[i] < stride * dim by {
            if i < head.len() {
                assert(all[i] == head[i]);
            } else {
                let x = inner[i - head.len()];
                let c = axis.last();
                assert(axis[axis.len() - 1] < dim);
                assert(x + c * stride < stride * dim) by (nonlinear_arith)
                    requires
                        x < stride,
                        c + 1 <= dim,
                ;
            }
        }
    }
}

pub(crate) proof fn lemma_grid_bound(axes: Seq<Seq<nat>>, dims: Seq<u64>, k: int)
    requires
        0 <= k <= axes.len(),
        axes.len() == dims.len(),
        forall|j: int, i: int|
            0 <= j < axes.len() && 0 <= i < axes[j].len() ==> (#[trigger] axes[j][i]) < dims[j],
    ensures
        forall|i: int|
            0 <= i < grid(axes, dims, k).len() ==> #[trigger] grid(axes, dims, k)[i] < count_from(
                dims,
                k,
            ),
    decreases axes.len() - k,
{
    if k < axes.len() {
        lemma_grid_bound(axes, dims, k + 1);
        let stride = stride_of(dims, k);
        assert(count_from(dims, k + 1) == stride);
        assert forall|i: int| 0 <= i < axes[k].len() implies #[trigger] axes[k][i]
            < dims[k] as nat by {}
        lemma_spread_bound(axes[k], stride, grid(axes, dims, k + 1), dims[k] as nat);
    }
}

proof fn lemma_slab_bound(dim: nat, start: nat, stride: nat, count: nat, block: nat, i: nat)
    ensures
        forall|j: int|
            0 <= j < slab_coords(dim, start, stride, count, block, i).len() ==> #[trigger] slab_coords(
                dim,
                start,
                stride,
                count,
                block,
                i,
            )[j] < dim,
    decreases count - i,
{
    if i < count {
        lemma_slab_bound(dim, start, stride, count, block, i + 1);
        let base = start + i * stride;
        let n = if base >= dim {
            0
        } else if dim - base < block {
            (dim - base) as nat
        } else {
            block
        };
        let head = Seq::new(n, |j: int| (base + j) as nat);
        let tail = slab_coords(dim, start, stride, count, block, i + 1);
        let all = slab_coords(dim, start, stride, count, block, i);
        assert forall|j: int| 0 <= j < all.len() implies #[trigger] all[j] < dim by {
            if j < n {
                assert(all[j] == head[j]);
            } else {
                assert(all[j] == tail[j - n]);
            }
        }
    }
}

/// A regular hyperslab of the right rank selects elements of the array only.
pub proof fn law_hyperslab_within(dims: Seq<u64>, sel: Seq<Slab>)
    requires
        countable(dims),
        sel.len() == dims.len(),
    ensures
        selected(SelectionView::Regular(sel), dims) is Ok,
        forall|i: int|
            0 <= i < selected(SelectionView::Regular(sel), dims)->Ok_0.len()
                ==> #[trigger] selected(SelectionView::Regular(sel), dims)->Ok_0[i]
                < element_count(dims),
{
    let axes = slab_axes(dims, sel);
    assert forall|j: int, i: int|
        0 <= j < axes.len() && 0 <= i < axes[j].len() implies (#[trigger] axes[j][i])
        < dims[j] by {
        let (start, stride0, count0, block) = sel[j];
        let dim = dims[j] as nat;
        let stride = if stride0 == 0 {
            1nat
        } else {
            stride0 as nat
        };
        let count = match count0 {
            Some(c) => c as nat,
            None => if dim >= start + block {
                ((dim - start - block) / stride as int + 1) as nat
            } else {
                0
            },
        };
        lemma_slab_bound(dim, start as nat, stride, count, block as nat, 0);
    }
    lemma_grid_bound(axes, dims, 0);
    assert(count_from(dims, 0) == element_count(dims));
    let g = grid(axes, dims, 0);
    assert forall|i: int| 0 <= i < g.len() implies #[trigger] g[i] <= u64::MAX by {
        assert(g[i] < count_from(dims, 0));
    }
}

/// `n` numbers of `size` bytes.
pub open spec fn numbers_taken(s: Seq<u8>, size: nat, n: nat, acc: Seq<u64>) -> Result<
    (Seq<u64>, Seq<u8>),
    Seq<char>,
>
    decreases n,
{
    if n == 0 {
        Ok((acc, s))
    } else {
        match taken_sized(s, size) {
            Err(e) => Err(e),
            Ok((v, r)) => numbers_taken(r, size, (n - 1) as nat, acc.push(v as u64)),
        }
    }
}

/// `n` points of `rank` coordinates.
pub open spec fn points_taken(s: Seq<u8>, size: nat, rank: nat, n: nat, acc: Seq<Seq<u64>>) -> Result<
    (Seq<Seq<u64>>, Seq<u8>),
    Seq<char>,
>
    decreases n,
{
    if n == 0 {
        Ok((acc, s))
    } else {
        match numbers_taken(s, size, rank, Seq::empty()) {
            Err(e) => Err(e),
            Ok((p, r)) => points_taken(r, size, rank, (n - 1) as nat, acc.push(p)),
        }
    }
}

/// `n` boxes with corners of `rank` coordinates.
pub open spec fn blocks_taken(
    s: Seq<u8>,
    size: nat,
    rank: nat,
    n: nat,
    acc: Seq<(Seq<u64>, Seq<u64>)>,
) -> Result<(Seq<(Seq<u64>, Seq<u64>)>, Seq<u8>), Seq<char>>
    decreases n,
{
    if n == 0 {
        Ok((acc, s))
    } else {
        match numbers_taken(s, size, rank, Seq::empty()) {
            Err(e) => Err(e),
            Ok((a, r)) => match numbers_taken(r, size, rank, Seq::empty()) {
                Err(e) => Err(e),
                Ok((b, r2)) => blocks_taken(r2, size, rank, (n - 1) as nat, acc.push((a, b))),
            },
        }
    }
}

/// The number that stands for no limit in a field of `size` bytes.
pub open spec fn unlimited(size: nat) -> nat {
    if size == 2 {
        0xffff
    } else if size == 4 {
        0xffff_ffff
    } else {
        0xffff_ffff_ffff_ffff
    }
}

/// `n` dimensions of a regular hyperslab.
pub open spec fn slabs_taken(s: Seq<u8>, size: nat, n: nat, acc: Seq<Slab>) -> Result<
    (Seq<Slab>, Seq<u8>),
    Seq<char>,
>
    decreases n,
{
    if n == 0 {
        Ok((acc, s))
    } else {
        match numbers_taken(s, size, 4, Seq::empty()) {
            Err(e) => Err(e),
            Ok((v, r)) => slabs_taken(
                r,
                size,
                (n - 1) as nat,
                acc.push(
                    (
                        v[0],
                        v[1],
                        if v[2] == unlimited(size) {
                            None
                        } else {
                            Some(v[2])
                        },
                        if v[3] == unlimited(size) {
                            u64::MAX
                        } else {
                            v[3]
                        },
                    ),
                ),
            ),
        }
    }
}

/// A selection and what follows it.
pub type Parsed = Result<(SelectionView, Seq<u8>), Seq<char>>;

pub open spec fn points_parsed(s: Seq<u8>) -> Parsed {
    match taken_uint(s, 4) {
        Err(e) => Err(e),
        Ok((version, r)) => {
            let head = if version >= 2 {
                taken_uint(r, 1)
            } else {
                Ok((4, dropped(r, 8)))
            };
            match head {
                Err(e) => Err(e),
                Ok((size, r2)) => match taken_uint(r2, 4) {
                    Err(e) => Err(e),
                    Ok((rank, r3)) => match taken_sized(r3, size) {
                        Err(e) => Err(e),
                        Ok((n, r4)) => match points_taken(r4, size, rank, n, Seq::empty()) {
                            Err(e) => Err(e),
                            Ok((v, rest)) => Ok((SelectionView::Points(v), rest)),
                        },
                    },
                },
            }
        },
    }
}

/// The flags and the number width of a hyperslab of a version.
pub open spec fn hyperslab_head(s: Seq<u8>, version: nat) -> Result<
    (nat, nat, Seq<u8>),
    Seq<char>,
> {
    if version == 1 {
        Ok((0, 4, dropped(s, 8)))
    } else if version == 2 {
        match taken_uint(s, 1) {
            Err(e) => Err(e),
            Ok((f, r)) => Ok((f, 8, dropped(r, 4))),
        }
    } else if version == 3 {
        match taken_uint(s, 1) {
            Err(e) => Err(e),
            Ok((f, r)) => match taken_uint(r, 1) {
                Err(e) => Err(e),
                Ok((size, r2)) => Ok((f, size, r2)),
            },
        }
    } else {
        Err("unsupported hyperslab selection version "@ + decimal(version))
    }
}

pub open spec fn hyperslab_parsed(s: Seq<u8>) -> Parsed {
    match taken_uint(s, 4) {
        Err(e) => Err(e),
        Ok((version, r)) => match hyperslab_head(r, version) {
            Err(e) => Err(e),
            Ok((flags, size, r2)) => match taken_uint(r2, 4) {
                Err(e) => Err(e),
                Ok((rank, r3)) => if version >= 2 && flags % 2 == 1 {
                    match slabs_taken(r3, size, rank, Seq::empty()) {
                        Err(e) => Err(e),
                        Ok((v, rest)) => Ok((SelectionView::Regular(v), rest)),
                    }
                } else {
                    match taken_sized(
                        r3,
                        if size > 8 {
                            8
                        } else {
                            size
                        },
                    ) {
                        Err(e) => Err(e),
                        Ok((n, r4)) => match blocks_taken(r4, size, rank, n, Seq::empty()) {
                            Err(e) => Err(e),
                            Ok((v, rest)) => Ok((SelectionView::Blocks(v), rest)),
                        },
                    }
                },
            },
        },
    }
}

/// The selection that starts with `s`.
pub open spec fn selection_parsed(s: Seq<u8>) -> Parsed {
    match taken_uint(s, 4) {
        Err(e) => Err(e),
        Ok((kind, r)) => if kind == 0 || kind == 3 {
            match taken_uint(r, 4) {
                Err(e) => Err(e),
                Ok((version, r2)) => Ok(
                    (
                        if kind == 0 {
                            SelectionView::Nothing
                        } else {
                            SelectionView::All
                        },
                        dropped(r2, 8),
                    ),
                ),
            }
        } else if kind == 1 {
            points_parsed(r)
        } else if kind == 2 {
            hyperslab_parsed(r)
        } else {
            Err("unsupported selection type "@ + decimal(kind))
        },
    }
}

/// Whether a list was read as `s` says, with `after` still to be read.
pub open spec fn read_numbers_as(
    r: Result<Vec<u64>, Error>,
    after: Seq<u8>,
    s: Result<(Seq<u64>, Seq<u8>), Seq<char>>,
) -> bool {
    match (r, s) {
        (Ok(v), Ok((w, rest))) => v@ == w && after == rest,
        (Err(e), Err(m)) => e@ == m,
        _ => false,
    }
}

pub(crate) fn read_numbers(c: &mut Cursor, size: usize, n: usize) -> (r: Result<Vec<u64>, Error>)
    ensures
        final(c).data@ == old(c).data@,
        old(c).within() ==> final(c).within(),
        read_numbers_as(
            r,
            final(c).rest(),
            numbers_taken(old(c).rest(), size as nat, n as nat, Seq::empty()),
        ),
        r matches Ok(v) ==> v@.len() == n,
{
    let ghost whole = numbers_taken(c.rest(), size as nat, n as nat, Seq::empty());
    let mut out: Vec<u64> = Vec::new();
    let mut i: usize = 0;
    while i < n
        invariant
            i <= n,
            c.data@ == old(c).data@,
            old(c).within() ==> c.within(),
            out@.len() == i,
            whole == numbers_taken(old(c).rest(), size as nat, n as nat, Seq::empty()),
            whole == numbers_taken(c.rest(), size as nat, (n - i) as nat, out@),
        decreases n - i,
    {
        let v: u64 = c.next_sized(size)?;
        out.push(v);
        i += 1;
    }
    Ok(out)
}

/// Whether a selection was read as `s` says, with `after` still to be read.
pub open spec fn parsed_as(r: Result<SerSelection, Error>, after: Seq<u8>, s: Parsed) -> bool {
    match (r, s) {
        (Ok(v), Ok((w, rest))) => v@ == w && after == rest,
        (Err(e), Err(m)) => e@ == m,
        _ => false,
    }
}

fn parse_points(c: &mut Cursor) -> (r: Result<SerSelection, Error>)
    ensures
        final(c).data@ == old(c).data@,
        old(c).within() ==> final(c).within(),
        parsed_as(r, final(c).rest(), points_parsed(old(c).rest())),
{
    let ghost whole = points_parsed(c.rest());
    let version: u64 = c.next_uint(4)?;
    let size: usize = if version >= 2 {
        let ghost r = c.rest();
        let w: u64 = c.next_uint(1)?;
        proof {
            crate::format::lemma_le_bound(r.take(1));
            reveal_with_fuel(crate::format::pow256, 2);
        }
        w as usize
    } else {
        c.pass(8);
        4
    };
    let ghost r2 = c.rest();
    let rank: u64 = c.next_uint(4)?;
    proof {
        crate::format::lemma_le_bound(r2.take(4));
        reveal_with_fuel(crate::format::pow256, 5);
    }
    let n: u64 = c.next_sized(size)?;
    let ghost start = c.rest();
    let ghost list = points_taken(start, size as nat, rank as nat, n as nat, Seq::empty());
    let mut points: Vec<Vec<u64>> = Vec::new();
    let mut i: u64 = 0;
    assert(point_views(points@) =~= Seq::empty());
    while i < n
        invariant
            i <= n,
            rank <= u32::MAX,
            c.data@ == old(c).data@,
            old(c).within() ==> c.within(),
            whole == points_parsed(old(c).rest()),
            whole == (match list {
                Err(e) => Err(e),
                Ok((v, rest)) => Ok((SelectionView::Points(v), rest)),
            }),
            list == points_taken(
                c.rest(),
                size as nat,
                rank as nat,
                (n - i) as nat,
                point_views(points@),
            ),
        decreases n - i,
    {
        let ghost before = points@;
        let p = read_numbers(c, size, rank as usize)?;
        points.push(p);
        assert(point_views(points@) =~= point_views(before).push(p@));
        i += 1;
    }
    Ok(SerSelection::Points(points))
}

fn parse_blocks(c: &mut Cursor, size: usize, rank: usize) -> (r: Result<SerSelection, Error>)
    ensures
        final(c).data@ == old(c).data@,
        old(c).within() ==> final(c).within(),
        parsed_as(
            r,
            final(c).rest(),
            match taken_sized(
                old(c).rest(),
                if size > 8 {
                    8
                } else {
                    size as nat
                },
            ) {
                Err(e) => Err(e),
                Ok((n, r4)) => match blocks_taken(
                    r4,
                    size as nat,
                    rank as nat,
                    n,
                    Seq::empty(),
                ) {
                    Err(e) => Err(e),
                    Ok((v, rest)) => Ok((SelectionView::Blocks(v), rest)),
                },
            },
        ),
{
    let n: u64 = c.next_sized(
        if size > 8 {
            8
        } else {
            size
        },
    )?;
    let ghost start = c.rest();
    let ghost list = blocks_taken(start, size as nat, rank as nat, n as nat, Seq::empty());
    let mut blocks: Vec<(Vec<u64>, Vec<u64>)> = Vec::new();
    let mut i: u64 = 0;
    assert(block_views(blocks@) =~= Seq::empty());
    while i < n
        invariant
            i <= n,
            c.data@ == old(c).data@,
            old(c).within() ==> c.within(),
            list == blocks_taken(start, size as nat, rank as nat, n as nat, Seq::empty()),
            list == blocks_taken(
                c.rest(),
                size as nat,
                rank as nat,
                (n - i) as nat,
                block_views(blocks@),
            ),
            taken_sized(old(c).rest(), if size > 8 { 8 } else { size as nat }) == Ok::<
                (nat, Seq<u8>),
                Seq<char>,
            >((n as nat, start)),
        decreases n - i,
    {
        let ghost before = blocks@;
        let a = read_numbers(c, size, rank)?;
        let b = read_numbers(c, size, rank)?;
        blocks.push((a, b));
        assert(block_views(blocks@) =~= block_views(before).push((a@, b@)));
        i += 1;
    }
    Ok(SerSelection::Blocks(blocks))
}

fn parse_slabs(c: &mut Cursor, size: usize, rank: usize) -> (r: Result<SerSelection, Error>)
    ensures
        final(c).data@ == old(c).data@,
        old(c).within() ==> final(c).within(),
        parsed_as(
            r,
            final(c).rest(),
            match slabs_taken(old(c).rest(), size as nat, rank as nat, Seq::empty()) {
                Err(e) => Err(e),
                Ok((v, rest)) => Ok((SelectionView::Regular(v), rest)),
            },
        ),
{
    let ghost list = slabs_taken(c.rest(), size as nat, rank as nat, Seq::empty());
    let none: u64 = match size {
        2 => 0xffff,
        4 => 0xffff_ffff,
        _ => u64::MAX,
    };
    let mut slabs: Vec<Slab> = Vec::new();
    let mut i: usize = 0;
    while i < rank
        invariant
            i <= rank,
            none == unlimited(size as nat),
            c.data@ == old(c).data@,
            old(c).within() ==> c.within(),
            list == slabs_taken(old(c).rest(), size as nat, rank as nat, Seq::empty()),
            list == slabs_taken(c.rest(), size as nat, (rank - i) as nat, slabs@),
        decreases rank - i,
    {
        let v = read_numbers(c, size, 4)?;
        let count: Option<u64> = if v[2] == none {
            None
        } else {
            Some(v[2])
        };
        let block: u64 = if v[3] == none {
            u64::MAX
        } else {
            v[3]
        };
        slabs.push((v[0], v[1], count, block));
        i += 1;
    }
    Ok(SerSelection::Regular(slabs))
}

fn parse_hyperslab(c: &mut Cursor) -> (r: Result<SerSelection, Error>)
    ensures
        final(c).data@ == old(c).data@,
        old(c).within() ==> final(c).within(),
        parsed_as(r, final(c).rest(), hyperslab_parsed(old(c).rest())),
{
    let version: u64 = c.next_uint(4)?;
    let ghost s = c.rest();
    proof {
        crate::format::lemma_le_bound(s.take(1));
        reveal_with_fuel(crate::format::pow256, 5);
    }
    let (flags, size): (u64, usize) = match version {
        1 => {
            c.pass(8);
            (0, 4)
        },
        2 => {
            let f: u64 = c.next_uint(1)?;
            c.pass(4);
            (f, 8)
        },
        3 => {
            let f: u64 = c.next_uint(1)?;
            let ghost r = c.rest();
            let w: u64 = c.next_uint(1)?;
            proof {
                crate::format::lemma_le_bound(r.take(1));
            }
            (f, w as usize)
        },
        _ => {
            return Err(
                Error::from_text(
                    with_number("unsupported hyperslab selection version ", version),
                ),
            );
        },
    };
    let ghost r2 = c.rest();
    let rank: u64 = c.next_uint(4)?;
    proof {
        crate::format::lemma_le_bound(r2.take(4));
    }
    if version >= 2 && flags % 2 == 1 {
        parse_slabs(c, size, rank as usize)
    } else {
        parse_blocks(c, size, rank as usize)
    }
}

/// Reads a selection.
pub fn parse_selection(c: &mut Cursor) -> (r: Result<SerSelection, Error>)
    ensures
        final(c).data@ == old(c).data@,
        parsed_as(r, final(c).rest(), selection_parsed(old(c).rest())),
        r is Ok ==> final(c).pos + final(c).rest().len() == final(c).data@.len(),
{
    let kind: u64 = c.next_uint(4)?;
    match kind {
        0 | 3 => {
            let _version: u64 = c.next_uint(4)?;
            c.pass(8);
            if kind == 0 {
                Ok(SerSelection::Nothing)
            } else {
                Ok(SerSelection::All)
            }
        },
        1 => parse_points(c),
        2 => parse_hyperslab(c),
        _ => Err(Error::from_text(with_number("unsupported selection type ", kind))),
    }
}

/// The dimensions of a regular hyperslab.
pub open spec fn slabs_encoded(v: Seq<Slab>) -> Seq<u8>
    decreases v.len(),
{
    if v.len() == 0 {
        Seq::empty()
    } else {
        let (start, stride, count, block) = v.last();
        slabs_encoded(v.drop_last()) + le_bytes(start as nat, 8) + le_bytes(
            if stride == 0 {
                1
            } else {
                stride as nat
            },
            8,
        ) + le_bytes(
            match count {
                Some(c) => c as nat,
                None => u64::MAX as nat,
            },
            8,
        ) + le_bytes(block as nat, 8)
    }
}

/// The stored form of a selection.
pub open spec fn selection_encoded(sel: SelectionView) -> Result<Seq<u8>, Seq<char>> {
    match sel {
        SelectionView::All => Ok(le_bytes(3, 4) + le_bytes(1, 4) + le_bytes(0, 4) + le_bytes(0, 4)),
        SelectionView::Nothing => Ok(
            le_bytes(0, 4) + le_bytes(1, 4) + le_bytes(0, 4) + le_bytes(0, 4),
        ),
        SelectionView::Regular(v) => Ok(
            le_bytes(2, 4) + le_bytes(2, 4) + seq![1u8] + le_bytes(0, 4) + le_bytes(v.len(), 4)
                + slabs_encoded(v),
        ),
        _ => Err("only ALL and regular hyperslab selections can be written"@),
    }
}

/// Writes a selection. Only whole dataspaces, empty selections and regular
/// hyperslabs can be written.
pub fn encode_selection(sel: &SerSelection) -> (r: Result<Vec<u8>, Error>)
    ensures
        same_bytes(r, selection_encoded(sel@)),
{
    let mut b = Buf::new();
    match sel {
        SerSelection::All => {
            b.u32(3);
            b.u32(1);
            b.u32(0);
            b.u32(0);
            assert(b@ =~= le_bytes(3, 4) + le_bytes(1, 4) + le_bytes(0, 4) + le_bytes(0, 4));
        },
        SerSelection::Nothing => {
            b.u32(0);
            b.u32(1);
            b.u32(0);
            b.u32(0);
            assert(b@ =~= le_bytes(0, 4) + le_bytes(1, 4) + le_bytes(0, 4) + le_bytes(0, 4));
        },
        SerSelection::Regular(slabs) => {
            let n: usize = slabs.len();
            b.u32(2);
            b.u32(2);
            b.u8(1);
            b.u32(0);
            push_le(&mut b.bytes, n as u64, 4);
            let ghost head = b@;
            let mut i: usize = 0;
            assert(slabs@.take(0) =~= Seq::empty());
            assert(b@ =~= head + slabs_encoded(slabs@.take(0)));
            while i < n
                invariant
                    i <= n == slabs@.len(),
                    b@ == head + slabs_encoded(slabs@.take(i as int)),
                decreases n - i,
            {
                let slab = &slabs[i];
                b.u64(slab.0);
                b.u64(
                    if slab.1 == 0 {
                        1
                    } else {
                        slab.1
                    },
                );
                b.u64(
                    match slab.2 {
                        Some(c) => c,
                        None => u64::MAX,
                    },
                );
                b.u64(slab.3);
                i += 1;
                proof {
                    assert(slabs@.take(i as int).drop_last() =~= slabs@.take(i - 1));
                    assert(b@ =~= head + slabs_encoded(slabs@.take(i as int)));
                }
            }
            assert(slabs@.take(n as int) =~= slabs@);
            assert(head =~= le_bytes(2, 4) + le_bytes(2, 4) + seq![1u8] + le_bytes(0, 4) + le_bytes(
                n as nat,
                4,
            ));
        },
        _ => {
            return Err(Error::new("only ALL and regular hyperslab selections can be written"));
        },
    }
    Ok(b.bytes)
}

/// One mapping of virtual elements to source elements.
#[derive(Debug)]
pub struct VdsMapping {
    pub source_file: String,
    pub source_dset: String,
    pub src_sel: SerSelection,
    pub virt_sel: SerSelection,
}

/// The view of a [`VdsMapping`].
pub struct MappingView {
    pub source_file: Seq<char>,
    pub source_dset: Seq<char>,
    pub src_sel: SelectionView,
    pub virt_sel: SelectionView,
}

impl View for VdsMapping {
    type V = MappingView;

    open spec fn view(&self) -> MappingView {
        MappingView {
            source_file: self.source_file@,
            source_dset: self.source_dset@,
            src_sel: self.src_sel@,
            virt_sel: self.virt_sel@,
        }
    }
}

/// The views of mappings.
pub open spec fn mapping_views(v: Seq<VdsMapping>) -> Seq<MappingView> {
    v.map_values(|m: VdsMapping| m@)
}

/// A text up to its zero byte, and what follows it.
pub open spec fn text_taken(s: Seq<u8>) -> Result<(Seq<char>, Seq<u8>), Seq<char>> {
    match nul_at(s, 0) {
        None => Err(eof_text()),
        Some(k) => Ok((text_of(s.take(k)), s.skip(k + 1))),
    }
}

/// The flags of an entry.
pub open spec fn flags_taken(s: Seq<u8>, version: nat) -> Result<(nat, Seq<u8>), Seq<char>> {
    if version >= 1 {
        taken_uint(s, 1)
    } else {
        Ok((0, s))
    }
}

/// The source file of an entry: this file, that of an earlier entry, or one that is
/// named.
pub open spec fn file_taken(s: Seq<u8>, flags: nat, earlier: Seq<MappingView>) -> Result<
    (Seq<char>, Seq<u8>),
    Seq<char>,
> {
    if flags / 4 % 2 == 1 {
        Ok(("."@, s))
    } else if flags % 2 == 1 {
        match taken_uint(s, 8) {
            Err(e) => Err(e),
            Ok((k, r)) => if k < earlier.len() {
                Ok((earlier[k as int].source_file, r))
            } else {
                Err("bad shared source-file index"@)
            },
        }
    } else {
        text_taken(s)
    }
}

/// The source dataset of an entry.
pub open spec fn dset_taken(s: Seq<u8>, flags: nat, earlier: Seq<MappingView>) -> Result<
    (Seq<char>, Seq<u8>),
    Seq<char>,
> {
    if flags / 2 % 2 == 1 {
        match taken_uint(s, 8) {
            Err(e) => Err(e),
            Ok((k, r)) => if k < earlier.len() {
                Ok((earlier[k as int].source_dset, r))
            } else {
                Err("bad shared source-dataset index"@)
            },
        }
    } else {
        text_taken(s)
    }
}

/// One entry of the list.
pub open spec fn entry_taken(s: Seq<u8>, version: nat, earlier: Seq<MappingView>) -> Result<
    (MappingView, Seq<u8>),
    Seq<char>,
> {
    match flags_taken(s, version) {
        Err(e) => Err(e),
        Ok((flags, r)) => match file_taken(r, flags, earlier) {
            Err(e) => Err(e),
            Ok((source_file, r2)) => match dset_taken(r2, flags, earlier) {
                Err(e) => Err(e),
                Ok((source_dset, r3)) => match selection_parsed(r3) {
                    Err(e) => Err(e),
                    Ok((src_sel, r4)) => match selection_parsed(r4) {
                        Err(e) => Err(e),
                        Ok((virt_sel, r5)) => Ok(
                            (MappingView { source_file, source_dset, src_sel, virt_sel }, r5),
                        ),
                    },
                },
            },
        },
    }
}

/// `n` entries behind `acc`.
pub open spec fn entries_taken(s: Seq<u8>, version: nat, n: nat, acc: Seq<MappingView>) -> Result<
    Seq<MappingView>,
    Seq<char>,
>
    decreases n,
{
    if n == 0 {
        Ok(acc)
    } else {
        match entry_taken(s, version, acc) {
            Err(e) => Err(e),
            Ok((m, r)) => entries_taken(r, version, (n - 1) as nat, acc.push(m)),
        }
    }
}

/// The mappings in a stored list.
pub open spec fn vds_parsed(blob: Seq<u8>) -> Result<Seq<MappingView>, Seq<char>> {
    match taken_uint(blob, 1) {
        Err(e) => Err(e),
        Ok((version, r)) => if version > 1 {
            Err("unsupported VDS heap encoding version "@ + decimal(version))
        } else {
            match taken_uint(r, 8) {
                Err(e) => Err(e),
                Ok((n, r2)) => entries_taken(r2, version, n, Seq::empty()),
            }
        },
    }
}

fn read_cstr(c: &mut Cursor) -> (r: Result<String, Error>)
    ensures
        final(c).data@ == old(c).data@,
        match (r, text_taken(old(c).rest())) {
            (Ok(v), Ok((text, rest))) => v@ == text && final(c).rest() == rest,
            (Err(e), Err(m)) => e@ == m,
            _ => false,
        },
{
    let ghost s = c.rest();
    let mut text: Vec<u8> = Vec::new();
    let mut more: bool = true;
    assert(s.take(0) =~= text@);
    assert(s.skip(0) =~= s);
    while more
        invariant
            c.data@ == old(c).data@,
            old(c).within() ==> c.within(),
            s == old(c).rest(),
            text@.len() <= s.len(),
            text@ == s.take(text@.len() as int),
            nul_at(s, 0) == nul_at(s, text@.len() as int),
            more ==> c.rest() == s.skip(text@.len() as int),
            !more ==> nul_at(s, 0) == Some(text@.len() as int) && text@.len() < s.len() && c.rest()
                == s.skip(text@.len() as int + 1),
        decreases s.len() - text@.len() + (if more {
            1int
        } else {
            0
        }),
    {
        let b: u64 = c.next_uint(1)?;
        let ghost k = text@.len() as int;
        proof {
            assert(s.skip(k).take(1) =~= seq![s[k]]);
            crate::format::lemma_le_small(s.skip(k).take(1));
            assert(s.skip(k).skip(1) =~= s.skip(k + 1));
        }
        if b == 0 {
            more = false;
        } else {
            text.push(b as u8);
            assert(text@ =~= s.take(k + 1));
        }
    }
    Ok(from_utf8_lossy(text.as_slice()))
}

/// Whether a text was read as `s` says.
pub open spec fn text_read_as(
    r: Result<String, Error>,
    after: Seq<u8>,
    s: Result<(Seq<char>, Seq<u8>), Seq<char>>,
) -> bool {
    match (r, s) {
        (Ok(v), Ok((w, rest))) => v@ == w && after == rest,
        (Err(e), Err(m)) => e@ == m,
        _ => false,
    }
}

fn read_file(c: &mut Cursor, flags: u64, earlier: &Vec<VdsMapping>) -> (r: Result<String, Error>)
    ensures
        final(c).data@ == old(c).data@,
        text_read_as(
            r,
            final(c).rest(),
            file_taken(old(c).rest(), flags as nat, mapping_views(earlier@)),
        ),
{
    if flags / 4 % 2 == 1 {
        return Ok(String::from_str("."));
    }
    if flags % 2 == 1 {
        let k: u64 = c.next_uint(8)?;
        let n: usize = earlier.len();
        if k >= n as u64 {
            return Err(Error::new("bad shared source-file index"));
        }
        assert(mapping_views(earlier@)[k as int] == earlier@[k as int]@);
        return Ok(earlier[k as usize].source_file.clone());
    }
    read_cstr(c)
}

fn read_dset(c: &mut Cursor, flags: u64, earlier: &Vec<VdsMapping>) -> (r: Result<String, Error>)
    ensures
        final(c).data@ == old(c).data@,
        text_read_as(
            r,
            final(c).rest(),
            dset_taken(old(c).rest(), flags as nat, mapping_views(earlier@)),
        ),
{
    if flags / 2 % 2 == 1 {
        let k: u64 = c.next_uint(8)?;
        let n: usize = earlier.len();
        if k >= n as u64 {
            return Err(Error::new("bad shared source-dataset index"));
        }
        assert(mapping_views(earlier@)[k as int] == earlier@[k as int]@);
        return Ok(earlier[k as usize].source_dset.clone());
    }
    read_cstr(c)
}

fn read_entry(c: &mut Cursor, version: u64, earlier: &Vec<VdsMapping>) -> (r: Result<
    VdsMapping,
    Error,
>)
    ensures
        final(c).data@ == old(c).data@,
        match (r, entry_taken(old(c).rest(), version as nat, mapping_views(earlier@))) {
            (Ok(v), Ok((w, rest))) => v@ == w && final(c).rest() == rest,
            (Err(e), Err(m)) => e@ == m,
            _ => false,
        },
{
    let flags: u64 = if version >= 1 {
        c.next_uint(1)?
    } else {
        0
    };
    let source_file = read_file(c, flags, earlier)?;
    let source_dset = read_dset(c, flags, earlier)?;
    let src_sel = parse_selection(c)?;
    let virt_sel = parse_selection(c)?;
    Ok(VdsMapping { source_file, source_dset, src_sel, virt_sel })
}

/// Reads a list of mappings.
pub fn parse_vds_blob(blob: &[u8]) -> (r: Result<Vec<VdsMapping>, Error>)
    ensures
        match (r, vds_parsed(blob@)) {
            (Ok(v), Ok(w)) => mapping_views(v@) == w,
            (Err(e), Err(m)) => e@ == m,
            _ => false,
        },
{
    let mut c = Cursor::new(blob);
    assert(c.rest() =~= blob@);
    let version: u64 = c.next_uint(1)?;
    if version > 1 {
        return Err(
            Error::from_text(with_number("unsupported VDS heap encoding version ", version)),
        );
    }
    let n: u64 = c.next_uint(8)?;
    let ghost list = entries_taken(c.rest(), version as nat, n as nat, Seq::empty());
    let mut out: Vec<VdsMapping> = Vec::new();
    let mut i: u64 = 0;
    assert(mapping_views(out@) =~= Seq::empty());
    while i < n
        invariant
            i <= n,
            list == vds_parsed(blob@),
            list == entries_taken(
                c.rest(),
                version as nat,
                (n - i) as nat,
                mapping_views(out@),
            ),
        decreases n - i,
    {
        let ghost before = out@;
        let m = read_entry(&mut c, version, &out)?;
        out.push(m);
        assert(mapping_views(out@) =~= mapping_views(before).push(m@));
        i += 1;
    }
    Ok(out)
}

/// The entry of a mapping: the names and the selections.
pub open spec fn entry_encoded(m: MappingView) -> Result<Seq<u8>, Seq<char>> {
    match selection_encoded(m.src_sel) {
        Err(e) => Err(e),
        Ok(a) => match selection_encoded(m.virt_sel) {
            Err(e) => Err(e),
            Ok(b) => Ok(
                encode_utf8(m.source_file) + seq![0u8] + encode_utf8(m.source_dset) + seq![0u8] + a
                    + b,
            ),
        },
    }
}

/// The entries of the mappings from `v[i]` on, behind `acc`.
pub open spec fn entries_encoded(v: Seq<MappingView>, i: int, acc: Seq<u8>) -> Result<
    Seq<u8>,
    Seq<char>,
>
    decreases v.len() - i,
{
    if i < 0 || i >= v.len() {
        Ok(acc)
    } else {
        match entry_encoded(v[i]) {
            Err(e) => Err(e),
            Ok(b) => entries_encoded(v, i + 1, acc + b),
        }
    }
}

/// The stored form of a list of mappings: a version, the number of entries, the
/// entries and a checksum.
pub open spec fn vds_encoded(v: Seq<MappingView>) -> Result<Seq<u8>, Seq<char>> {
    match entries_encoded(v, 0, seq![0u8] + le_bytes(v.len(), 8)) {
        Err(e) => Err(e),
        Ok(b) => Ok(b + le_bytes(lookup3(b) as nat, 4)),
    }
}

/// Writes a list of mappings.
pub fn encode_vds_blob(mappings: &[VdsMapping]) -> (r: Result<Vec<u8>, Error>)
    ensures
        same_bytes(r, vds_encoded(mapping_views(mappings@))),
{
    let ghost views = mapping_views(mappings@);
    let n: usize = mappings.len();
    let mut b = Buf::new();
    b.u8(0);
    b.u64(n as u64);
    assert(b@ =~= seq![0u8] + le_bytes(n as nat, 8));
    let ghost whole = entries_encoded(views, 0, b@);
    let mut i: usize = 0;
    while i < n
        invariant
            i <= n == mappings@.len(),
            views == mapping_views(mappings@),
            whole == entries_encoded(views, 0, seq![0u8] + le_bytes(n as nat, 8)),
            whole == entries_encoded(views, i as int, b@),
        decreases n - i,
    {
        let ghost before = b@;
        let m = &mappings[i];
        assert(views[i as int] == m@);
        let src = encode_selection(&m.src_sel)?;
        let virt = encode_selection(&m.virt_sel)?;
        b.raw(m.source_file.as_str().as_bytes());
        b.u8(0);
        b.raw(m.source_dset.as_str().as_bytes());
        b.u8(0);
        b.raw(src.as_slice());
        b.raw(virt.as_slice());
        assert(b@ =~= before + entry_encoded(m@)->Ok_0);
        i += 1;
    }
    let sum: u32 = checksum(b.bytes.as_slice());
    b.u32(sum);
    Ok(b.bytes)
}

} // verus!
