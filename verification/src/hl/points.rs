//! Selections of points, and the elements that a selection stands for.

use vstd::prelude::*;

use crate::error::Error;
use crate::format::datatype::nats;
use crate::format::vds::{
    axis_views, countable, element_count, grid, grid_numbers, lemma_grid_bound, linear,
    point_number, same_numbers, stride_of, strides_of,
};
use crate::hl::extents::Ix;
use crate::hl::hyperslab::{rank_error, rank_text, RawHyperslab, RawSlice};
use crate::text::{decimal, join, with_number};

verus! {

/// Points of an array: rows of `ndim` coordinates each.
#[derive(Debug)]
pub struct Points {
    pub ndim: usize,
    pub rows: Vec<Vec<Ix>>,
}

/// The view of [`Points`].
#[verifier::ext_equal]
pub struct PointsView {
    pub ndim: nat,
    pub rows: Seq<Seq<usize>>,
}

/// Rows as sequences.
pub open spec fn row_views(rows: Seq<Vec<usize>>) -> Seq<Seq<usize>> {
    rows.map_values(|r: Vec<usize>| r@)
}

impl View for Points {
    type V = PointsView;

    open spec fn view(&self) -> PointsView {
        PointsView { ndim: self.ndim as nat, rows: row_views(self.rows@) }
    }
}

impl PointsView {
    /// Whether each point has `ndim` coordinates.
    pub open spec fn sound(self) -> bool {
        forall|i: int| 0 <= i < self.rows.len() ==> (#[trigger] self.rows[i]).len() == self.ndim
    }

    /// Whether there are neither points nor dimensions.
    pub open spec fn empty(self) -> bool {
        self.rows.len() == 0 && self.ndim == 0
    }
}

/// The first point from `j` on whose coordinate `axis` is not below `dim`.
pub open spec fn point_out(rows: Seq<Seq<usize>>, axis: int, dim: usize, j: int) -> Option<nat>
    decreases rows.len() - j,
{
    if j < 0 || j >= rows.len() {
        None
    } else if rows[j][axis] >= dim {
        Some(j as nat)
    } else {
        point_out(rows, axis, dim, j + 1)
    }
}

/// That an index is out of bounds.
pub open spec fn index_text(n: nat, axis: nat, dim: nat) -> Seq<char> {
    "Index "@ + decimal(n) + " out of bounds for axis "@ + decimal(axis) + " with size "@ + decimal(
        dim,
    )
}

/// Checks the coordinates of points from dimension `i` on.
pub open spec fn axes_checked(rows: Seq<Seq<usize>>, shape: Seq<usize>, i: int) -> Result<
    (),
    Seq<char>,
>
    decreases shape.len() - i,
{
    if i < 0 || i >= shape.len() {
        Ok(())
    } else {
        match point_out(rows, i, shape[i], 0) {
            Some(j) => Err(index_text(rows[j as int][i] as nat, i as nat, shape[i] as nat)),
            None => axes_checked(rows, shape, i + 1),
        }
    }
}

/// Checks that points lie within an array.
pub open spec fn coords_checked(p: PointsView, shape: Seq<usize>) -> Result<(), Seq<char>> {
    if p.empty() {
        Ok(())
    } else if p.ndim != shape.len() {
        Err(rank_text(p.ndim, shape.len()))
    } else {
        axes_checked(p.rows, shape, 0)
    }
}

impl Points {
    /// Whether there are neither points nor dimensions.
    pub fn is_empty(&self) -> (r: bool)
        ensures
            r == self@.empty(),
    {
        self.rows.is_empty() && self.ndim == 0
    }

    fn check_axis(&self, axis: usize, dim: usize) -> (r: Option<usize>)
        requires
            self@.sound(),
            axis < self.ndim,
        ensures
            r is Some <==> point_out(self@.rows, axis as int, dim, 0) is Some,
            r matches Some(j) ==> point_out(self@.rows, axis as int, dim, 0) == Some(j as nat)
                && j < self.rows@.len(),
    {
        let n: usize = self.rows.len();
        let mut j: usize = 0;
        while j < n
            invariant
                j <= n == self.rows@.len(),
                axis < self.ndim,
                self@.sound(),
                point_out(self@.rows, axis as int, dim, 0) == point_out(
                    self@.rows,
                    axis as int,
                    dim,
                    j as int,
                ),
            decreases n - j,
        {
            assert(self@.rows[j as int] == self.rows@[j as int]@);
            if self.rows[j][axis] >= dim {
                return Some(j);
            }
            j += 1;
        }
        None
    }

    /// Checks that the points lie within an array.
    pub fn check_coords(&self, shape: &[Ix]) -> (r: Result<(), Error>)
        requires
            self@.sound(),
        ensures
            match (r, coords_checked(self@, shape@)) {
                (Ok(_), Ok(_)) => true,
                (Err(e), Err(m)) => e@ == m,
                _ => false,
            },
    {
        if self.is_empty() {
            return Ok(());
        }
        let n: usize = shape.len();
        if self.ndim != n {
            return Err(rank_error(self.ndim, n));
        }
        let mut i: usize = 0;
        while i < n
            invariant
                i <= n == shape@.len() == self.ndim,
                self@.sound(),
                !self@.empty(),
                coords_checked(self@, shape@) == axes_checked(self@.rows, shape@, i as int),
            decreases n - i,
        {
            if let Some(j) = self.check_axis(i, shape[i]) {
                assert(self@.rows[j as int] == self.rows@[j as int]@);
                let d: usize = self.rows[j][i];
                return Err(
                    Error::from_text(
                        with_number(
                            join(
                                with_number(
                                    join(
                                        with_number("Index ", d as u64).as_str(),
                                        " out of bounds for axis ",
                                    ).as_str(),
                                    i as u64,
                                ).as_str(),
                                " with size ",
                            ).as_str(),
                            shape[i] as u64,
                        ),
                    ),
                );
            }
            i += 1;
        }
        Ok(())
    }
}

impl Clone for Points {
    fn clone(&self) -> (r: Self)
        ensures
            r@ == self@,
    {
        let mut rows: Vec<Vec<Ix>> = Vec::new();
        let n: usize = self.rows.len();
        let mut i: usize = 0;
        assert(row_views(rows@) =~= row_views(self.rows@).take(0));
        while i < n
            invariant
                i <= n == self.rows@.len(),
                rows@.len() == i,
                row_views(rows@) =~= row_views(self.rows@).take(i as int),
            decreases n - i,
        {
            let row = vstd::slice::slice_to_vec(self.rows[i].as_slice());
            let ghost before = rows@;
            rows.push(row);
            i += 1;
            assert(row_views(rows@) =~= row_views(before).push(row@));
            assert(row_views(self.rows@)[i - 1] == self.rows@[i - 1]@);
        }
        assert(row_views(rows@) =~= row_views(self.rows@));
        Points { ndim: self.ndim, rows }
    }
}

/// What a selection selects of an array of some shape.
#[derive(Debug)]
pub enum RawSelection {
    Nothing,
    All,
    Points(Points),
    RegularHyperslab(RawHyperslab),
    ComplexHyperslab,
}

/// The view of [`RawSelection`].
pub enum RawView {
    Nothing,
    All,
    Points(PointsView),
    Regular(Seq<RawSlice>),
    Complex,
}

impl View for RawSelection {
    type V = RawView;

    open spec fn view(&self) -> RawView {
        match *self {
            RawSelection::Nothing => RawView::Nothing,
            RawSelection::All => RawView::All,
            RawSelection::Points(p) => RawView::Points(p@),
            RawSelection::RegularHyperslab(h) => RawView::Regular(h@),
            RawSelection::ComplexHyperslab => RawView::Complex,
        }
    }
}

impl RawView {
    /// Whether the points have as many coordinates as they say.
    pub open spec fn sound(self) -> bool {
        self matches RawView::Points(p) ==> p.sound()
    }
}

impl Clone for RawSelection {
    fn clone(&self) -> (r: Self)
        ensures
            r@ == self@,
    {
        match self {
            RawSelection::Nothing => RawSelection::Nothing,
            RawSelection::All => RawSelection::All,
            RawSelection::Points(p) => RawSelection::Points(p.clone()),
            RawSelection::RegularHyperslab(h) => RawSelection::RegularHyperslab(h.clone()),
            RawSelection::ComplexHyperslab => RawSelection::ComplexHyperslab,
        }
    }
}

/// How many blocks a slice has in a dimension: as many whole ones as fit where it
/// does not say.
pub open spec fn block_count(s: RawSlice, dim: nat) -> nat {
    match s.count {
        Some(c) => c as nat,
        None => if s.block == 0 || s.step == 0 || dim < s.start + s.block {
            0
        } else {
            ((dim - s.start - s.block) / s.step as int + 1) as nat
        },
    }
}

/// The coordinate number `k` of a slice.
pub open spec fn coordinate(s: RawSlice, k: nat) -> nat {
    s.start as nat + (k / s.block as nat) * s.step as nat + k % s.block as nat
}

/// The first of the coordinates from `k` to `n` of a slice that is not below `dim`.
pub open spec fn coordinate_out(s: RawSlice, dim: nat, k: nat, n: nat) -> Option<nat>
    decreases n - k,
{
    if k >= n {
        None
    } else if coordinate(s, k) >= dim {
        Some(k)
    } else {
        coordinate_out(s, dim, k + 1, n)
    }
}

/// That a coordinate is out of bounds.
pub open spec fn coordinate_text(c: nat, dim: nat) -> Seq<char> {
    if c > u64::MAX {
        "selection out of range"@
    } else {
        "selection out of bounds: "@ + decimal(c) + " >= "@ + decimal(dim) + " in axis"@
    }
}

/// The coordinates that a slice selects of a dimension.
pub open spec fn slice_axis(s: RawSlice, dim: nat) -> Result<Seq<nat>, Seq<char>> {
    let n = block_count(s, dim) * s.block as nat;
    match coordinate_out(s, dim, 0, n) {
        Some(k) => Err(coordinate_text(coordinate(s, k), dim)),
        None => Ok(Seq::new(n, |k: int| coordinate(s, k as nat))),
    }
}

/// The coordinates that the slices from `i` on select, behind `acc`.
pub open spec fn slice_axes(h: Seq<RawSlice>, dims: Seq<u64>, i: int, acc: Seq<Seq<nat>>) -> Result<
    Seq<Seq<nat>>,
    Seq<char>,
>
    decreases h.len() - i,
{
    if i < 0 || i >= h.len() {
        Ok(acc)
    } else {
        match slice_axis(h[i], dims[i] as nat) {
            Err(e) => Err(e),
            Ok(a) => slice_axes(h, dims, i + 1, acc.push(a)),
        }
    }
}

/// Numbers with 64 bits.
pub open spec fn wide(v: Seq<usize>) -> Seq<u64> {
    v.map_values(|x: usize| x as u64)
}

/// The row-major numbers of the elements that a selection selects, in its order.
pub open spec fn indices(sel: RawView, shape: Seq<usize>) -> Result<Seq<nat>, Seq<char>> {
    let dims = wide(shape);
    if !countable(dims) {
        Err("dataspace too large"@)
    } else {
        match sel {
            RawView::Nothing => Ok(Seq::empty()),
            RawView::All => Ok(Seq::new(element_count(dims), |i: int| i as nat)),
            RawView::Points(p) => match coords_checked(p, shape) {
                Err(e) => Err(e),
                Ok(_) => Ok(
                    Seq::new(
                        p.rows.len(),
                        |i: int| linear(dims, wide(p.rows[i]), dims.len() as int),
                    ),
                ),
            },
            RawView::Regular(h) => if h.len() != shape.len() {
                Err("selection rank mismatch"@)
            } else {
                match slice_axes(h, dims, 0, Seq::empty()) {
                    Err(e) => Err(e),
                    Ok(axes) => Ok(grid(axes, dims, 0)),
                }
            },
            RawView::Complex => Err("Complex hyperslabs are not supported"@),
        }
    }
}

/// Numbers with 64 bits.
pub fn widen(v: &[usize]) -> (r: Vec<u64>)
    ensures
        r@ == wide(v@),
{
    let mut r: Vec<u64> = Vec::new();
    let n: usize = v.len();
    let mut i: usize = 0;
    while i < n
        invariant
            i <= n == v@.len(),
            r@ =~= wide(v@).take(i as int),
        decreases n - i,
    {
        r.push(v[i] as u64);
        i += 1;
    }
    assert(r@ =~= wide(v@));
    r
}

fn coordinate_error(c: u64, dim: u64) -> (r: Error)
    ensures
        r@ == coordinate_text(c as nat, dim as nat),
{
    Error::from_text(
        join(
            with_number(
                join(with_number("selection out of bounds: ", c).as_str(), " >= ").as_str(),
                dim,
            ).as_str(),
            " in axis",
        ),
    )
}

/// Where a coordinate lies: in block `i`, at `j`.
proof fn lemma_coordinate(s: RawSlice, i: nat, j: nat)
    requires
        j < s.block,
    ensures
        coordinate(s, i * s.block as nat + j) == s.start + i * s.step + j,
{
    let b = s.block as int;
    vstd::arithmetic::div_mod::lemma_fundamental_div_mod_converse(
        i * b + j,
        b,
        i as int,
        j as int,
    );
}

/// The blocks of a slice.
fn count_blocks(s: RawSlice, dim: u64) -> (r: u64)
    ensures
        r == block_count(s, dim as nat),
{
    match s.count {
        Some(c) => c as u64,
        None => {
            if s.block == 0 || s.step == 0 || (dim as u128) < s.start as u128 + s.block as u128 {
                0
            } else {
                let room: u64 = dim - s.start as u64 - s.block as u64;
                proof {
                    vstd::arithmetic::div_mod::lemma_div_is_ordered_by_denominator(
                        room as int,
                        1,
                        s.step as int,
                    );
                    assert(room as int / 1 == room);
                }
                room / s.step as u64 + 1
            }
        },
    }
}

/// The coordinates that a slice selects of a dimension.
fn axis_of(s: RawSlice, dim: u64) -> (r: Result<Vec<u64>, Error>)
    ensures
        same_numbers(r, slice_axis(s, dim as nat)),
{
    let count: u64 = count_blocks(s, dim);
    let block: u64 = s.block as u64;
    let ghost n = count as nat * block as nat;
    let ghost d = dim as nat;
    let ghost all = Seq::new(n, |k: int| coordinate(s, k as nat));
    let mut out: Vec<u64> = Vec::new();
    assert(nats(out@) =~= all.take(0));
    if block == 0 {
        assert(n == 0) by (nonlinear_arith)
            requires
                n == count as nat * block as nat,
                block == 0,
        ;
        assert(nats(out@) =~= all);
        return Ok(out);
    }
    let mut i: u64 = 0;
    let mut base: u64 = s.start as u64;
    proof {
        assert(0 * s.step as nat == 0) by (nonlinear_arith);
        assert(0 * block as nat == 0) by (nonlinear_arith);
    }
    while i < count
        invariant
            0 < block == s.block,
            i <= count,
            n == count as nat * block as nat,
            d == dim as nat,
            all == Seq::new(n, |k: int| coordinate(s, k as nat)),
            out@.len() == i as nat * block as nat,
            i as nat * block as nat <= n,
            nats(out@) == all.take((i as nat * block as nat) as int),
            i < count ==> base == s.start + i as nat * s.step as nat,
            coordinate_out(s, d, 0, n) == coordinate_out(s, d, i as nat * block as nat, n),
            block_count(s, d) == count,
        decreases count - i,
    {
        let ghost done = i as nat * block as nat;
        proof {
            assert((i as nat + 1) * block as nat == done + block as nat) by (nonlinear_arith)
                requires
                    done == i as nat * block as nat,
            ;
            assert((i as nat + 1) * block as nat <= count as nat * block as nat)
                by (nonlinear_arith)
                requires
                    i as nat + 1 <= count as nat,
            ;
        }
        let mut j: u64 = 0;
        while j < block
            invariant
                i < count,
                j <= block == s.block,
                n == count as nat * block as nat,
                d == dim as nat,
                done == i as nat * block as nat,
                done + block <= n,
                all == Seq::new(n, |k: int| coordinate(s, k as nat)),
                j > 0 ==> base + j <= dim,
                out@.len() == done + j,
                nats(out@) == all.take(done + j as int),
                base == s.start + i as nat * s.step as nat,
                coordinate_out(s, d, 0, n) == coordinate_out(s, d, done + j as nat, n),
                block_count(s, d) == count,
            decreases block - j,
        {
            proof {
                lemma_coordinate(s, i as nat, j as nat);
            }
            let c: u64 = base + j;
            if c >= dim {
                return Err(coordinate_error(c, dim));
            }
            proof {
                assert(nats(out@.push(c)) =~= nats(out@).push(c as nat));
                assert(all[done + j as int] == c);
            }
            out.push(c);
            j += 1;
            assert(nats(out@) =~= all.take(done + j as int));
        }
        i += 1;
        if i < count {
            proof {
                assert(i as nat * s.step as nat == (i - 1) as nat * s.step as nat + s.step as nat)
                    by (nonlinear_arith)
                    requires
                        i >= 1,
                ;
                lemma_coordinate(s, i as nat, 0);
                assert((i as nat + 1) * block as nat <= count as nat * block as nat)
                    by (nonlinear_arith)
                    requires
                        i as nat + 1 <= count as nat,
                ;
                assert((i as nat + 1) * block as nat == i as nat * block as nat + block as nat)
                    by (nonlinear_arith);
            }
            match base.checked_add(s.step as u64) {
                None => {
                    return Err(Error::new("selection out of range"));
                },
                Some(b) => {
                    base = b;
                },
            }
        }
    }
    assert(all.take(n as int) =~= all);
    Ok(out)
}

/// All coordinates of a slice lie within the dimension.
proof fn lemma_coordinates_in(s: RawSlice, dim: nat, k: nat, n: nat, m: nat)
    requires
        coordinate_out(s, dim, k, n) is None,
        k <= m < n,
    ensures
        coordinate(s, m) < dim,
    decreases m - k,
{
    if k < m {
        lemma_coordinates_in(s, dim, k + 1, n, m);
    }
}

/// The coordinates of all slices lie within their dimensions.
proof fn lemma_axes_in(h: Seq<RawSlice>, dims: Seq<u64>, i: int, acc: Seq<Seq<nat>>)
    requires
        0 <= i <= h.len() == dims.len(),
        acc.len() == i,
        forall|j: int, m: int|
            0 <= j < i && 0 <= m < acc[j].len() ==> (#[trigger] acc[j][m]) < dims[j],
        slice_axes(h, dims, i, acc) is Ok,
    ensures
        slice_axes(h, dims, i, acc)->Ok_0.len() == h.len(),
        forall|j: int, m: int|
            0 <= j < h.len() && 0 <= m < slice_axes(h, dims, i, acc)->Ok_0[j].len()
                ==> (#[trigger] slice_axes(h, dims, i, acc)->Ok_0[j][m]) < dims[j],
    decreases h.len() - i,
{
    if i < h.len() {
        let a = slice_axis(h[i], dims[i] as nat)->Ok_0;
        let n = block_count(h[i], dims[i] as nat) * h[i].block as nat;
        let next = acc.push(a);
        assert forall|j: int, m: int| 0 <= j < i + 1 && 0 <= m < next[j].len() implies (
        #[trigger] next[j][m]) < dims[j] by {
            if j == i {
                lemma_coordinates_in(h[i], dims[i] as nat, 0, n, m as nat);
            } else {
                assert(next[j] == acc[j]);
                assert(acc[j][m] < dims[j]);
            }
        }
        lemma_axes_in(h, dims, i + 1, next);
    }
}

/// A point within an array has a number below the count of elements.
proof fn lemma_linear_in(dims: Seq<u64>, p: Seq<u64>, k: int)
    requires
        0 <= k <= dims.len() == p.len(),
        forall|i: int| 0 <= i < p.len() ==> #[trigger] p[i] < dims[i],
        dims.len() > 0,
    ensures
        linear(dims, p, k) + (if k == dims.len() {
            1
        } else {
            stride_of(dims, k) * dims[k] as nat
        }) <= element_count(dims),
    decreases k,
{
    if k > 0 {
        lemma_linear_in(dims, p, k - 1);
        let st = stride_of(dims, k - 1);
        let (x, d) = (p[k - 1] as nat, dims[k - 1] as nat);
        assert(p[k - 1] < dims[k - 1]);
        assert(x * st + st <= st * d) by (nonlinear_arith)
            requires
                x + 1 <= d,
        ;
        if k < dims.len() {
            assert(st == stride_of(dims, k) * dims[k] as nat);
        } else {
            assert(st == 1);
        }
    }
}

/// Points that pass the check lie within the array.
proof fn lemma_points_in(rows: Seq<Seq<usize>>, shape: Seq<usize>, i: int, j: int, a: int)
    requires
        axes_checked(rows, shape, i) is Ok,
        0 <= i <= a < shape.len(),
        0 <= j < rows.len(),
    ensures
        rows[j][a] < shape[a],
    decreases a - i,
{
    if i < a {
        lemma_points_in(rows, shape, i + 1, j, a);
    } else {
        lemma_point_in(rows, a, shape[a], 0, j);
    }
}

proof fn lemma_point_in(rows: Seq<Seq<usize>>, axis: int, dim: usize, j: int, k: int)
    requires
        point_out(rows, axis, dim, j) is None,
        0 <= j <= k < rows.len(),
    ensures
        rows[k][axis] < dim,
    decreases k - j,
{
    if j < k {
        lemma_point_in(rows, axis, dim, j + 1, k);
    }
}

/// A point that passes the check has a number in range.
proof fn lemma_point_number(p: PointsView, shape: Seq<usize>, j: int)
    requires
        p.sound(),
        coords_checked(p, shape) is Ok,
        countable(wide(shape)),
        0 <= j < p.rows.len(),
    ensures
        p.rows[j].len() == shape.len(),
        linear(wide(shape), wide(p.rows[j]), shape.len() as int) <= u64::MAX,
{
    let (dims, row) = (wide(shape), wide(p.rows[j]));
    if dims.len() > 0 {
        assert forall|i: int| 0 <= i < row.len() implies #[trigger] row[i] < dims[i] by {
            lemma_points_in(p.rows, shape, 0, j, i);
        }
        lemma_linear_in(dims, row, dims.len() as int);
    }
}

impl RawSelection {
    /// The row-major numbers of the selected elements within an array of the given
    /// shape, in the order of the selection.
    pub fn linear_indices(&self, shape: &[Ix]) -> (r: Result<Vec<u64>, Error>)
        requires
            self@.sound(),
        ensures
            same_numbers(r, indices(self@, shape@)),
    {
        let dims: Vec<u64> = widen(shape);
        let (strides, total) = match strides_of(dims.as_slice()) {
            Some(p) => p,
            None => return Err(Error::new("dataspace too large")),
        };
        match self {
            RawSelection::Nothing => {
                let out: Vec<u64> = Vec::new();
                assert(nats(out@) =~= Seq::empty());
                Ok(out)
            },
            RawSelection::All => {
                let ghost all = Seq::new(total as nat, |i: int| i as nat);
                let mut out: Vec<u64> = Vec::new();
                let mut i: u64 = 0;
                assert(nats(out@) =~= all.take(0));
                while i < total
                    invariant
                        i <= total,
                        all == Seq::new(total as nat, |i: int| i as nat),
                        nats(out@) == all.take(i as int),
                    decreases total - i,
                {
                    assert(nats(out@.push(i)) =~= nats(out@).push(i as nat));
                    out.push(i);
                    i += 1;
                    assert(nats(out@) =~= all.take(i as int));
                }
                assert(all.take(total as int) =~= all);
                Ok(out)
            },
            RawSelection::Points(points) => {
                points.check_coords(shape)?;
                let n: usize = points.rows.len();
                let ghost p = points@;
                let ghost all = Seq::new(
                    p.rows.len(),
                    |i: int| linear(dims@, wide(p.rows[i]), dims@.len() as int),
                );
                let mut out: Vec<u64> = Vec::new();
                let mut i: usize = 0;
                assert(nats(out@) =~= all.take(0));
                while i < n
                    invariant
                        i <= n == points.rows@.len(),
                        p == points@,
                        p.sound(),
                        dims@ == wide(shape@),
                        countable(dims@),
                        strides@.len() == dims@.len(),
                        forall|i: int|
                            0 <= i < strides@.len() ==> #[trigger] strides@[i] == stride_of(
                                dims@,
                                i,
                            ),
                        coords_checked(p, shape@) is Ok,
                        all == Seq::new(
                            p.rows.len(),
                            |i: int| linear(dims@, wide(p.rows[i]), dims@.len() as int),
                        ),
                        nats(out@) == all.take(i as int),
                    decreases n - i,
                {
                    assert(p.rows[i as int] == points.rows@[i as int]@);
                    proof {
                        lemma_point_number(p, shape@, i as int);
                    }
                    let row: Vec<u64> = widen(points.rows[i].as_slice());
                    match point_number(&row, &strides, Ghost(dims@)) {
                        None => {
                            return Err(Error::new("selection out of range"));
                        },
                        Some(v) => {
                            assert(nats(out@.push(v)) =~= nats(out@).push(v as nat));
                            out.push(v);
                        },
                    }
                    i += 1;
                    assert(nats(out@) =~= all.take(i as int));
                }
                assert(all.take(n as int) =~= all);
                Ok(out)
            },
            RawSelection::RegularHyperslab(hyper) => {
                let n: usize = hyper.dims.len();
                if n != shape.len() {
                    return Err(Error::new("selection rank mismatch"));
                }
                let ghost whole = slice_axes(hyper@, dims@, 0, Seq::empty());
                let mut axes: Vec<Vec<u64>> = Vec::new();
                let mut i: usize = 0;
                assert(axis_views(axes@) =~= Seq::empty());
                while i < n
                    invariant
                        i <= n == hyper.dims@.len() == dims@.len(),
                        axes@.len() == i,
                        whole == slice_axes(hyper@, dims@, 0, Seq::empty()),
                        whole == slice_axes(hyper@, dims@, i as int, axis_views(axes@)),
                        dims@ == wide(shape@),
                        countable(dims@),
                        n == shape@.len(),
                        self@ == RawView::Regular(hyper@),
                    decreases n - i,
                {
                    match axis_of(hyper.dims[i], dims[i]) {
                        Err(e) => {
                            return Err(e);
                        },
                        Ok(a) => {
                            let ghost before = axes@;
                            axes.push(a);
                            assert(axis_views(axes@) =~= axis_views(before).push(nats(a@)));
                        },
                    }
                    i += 1;
                }
                proof {
                    lemma_axes_in(hyper@, dims@, 0, Seq::empty());
                    lemma_grid_bound(axis_views(axes@), dims@, 0);
                    let g = grid(axis_views(axes@), dims@, 0);
                    assert forall|i: int| 0 <= i < g.len() implies #[trigger] g[i]
                        <= u64::MAX by {}
                }
                match grid_numbers(&axes, &strides, Ghost(dims@)) {
                    Some(v) => Ok(v),
                    None => Err(Error::new("selection out of range")),
                }
            },
            RawSelection::ComplexHyperslab => Err(
                Error::new("Complex hyperslabs are not supported"),
            ),
        }
    }
}

} // verus!
