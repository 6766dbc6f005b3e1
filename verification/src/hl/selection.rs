//! Selections of the elements of an array.

use vstd::prelude::*;

use crate::error::Error;
use crate::hl::extents::Ix;
use crate::hl::hyperslab::{
    blocks_before, hyperslab_raw, last_index, less_one, raw_slice, raw_slices, slab_all, slab_none,
    slab_text, slice_back, slices_back, Hyperslab, RawSlice, SliceOrIndex,
};
use crate::hl::points::{block_count, coords_checked, Points, PointsView, RawSelection, RawView};

verus! {

/// A selection for reading and writing.
#[derive(Debug)]
pub enum Selection {
    All,
    Points(Points),
    Hyperslab(Hyperslab),
}

/// The view of [`Selection`].
pub enum SelectionView {
    All,
    Points(PointsView),
    Hyperslab(Seq<SliceOrIndex>),
}

impl View for Selection {
    type V = SelectionView;

    open spec fn view(&self) -> SelectionView {
        match *self {
            Selection::All => SelectionView::All,
            Selection::Points(p) => SelectionView::Points(p@),
            Selection::Hyperslab(h) => SelectionView::Hyperslab(h@),
        }
    }
}

impl SelectionView {
    /// Whether the points have as many coordinates as they say.
    pub open spec fn sound(self) -> bool {
        self matches SelectionView::Points(p) ==> p.sound()
    }

    /// What the selection selects of an array.
    pub open spec fn raw(self, shape: Seq<usize>) -> Result<RawView, Seq<char>> {
        match self {
            SelectionView::All => Ok(RawView::All),
            SelectionView::Points(p) => match coords_checked(p, shape) {
                Err(e) => Err(e),
                Ok(_) => if p.rows.len() == 0 {
                    Ok(RawView::Nothing)
                } else {
                    Ok(RawView::Points(p))
                },
            },
            SelectionView::Hyperslab(h) => match hyperslab_raw(h, shape) {
                Err(e) => Err(e),
                Ok(s) => if slab_none(s) {
                    Ok(RawView::Nothing)
                } else if slab_all(s, shape) {
                    Ok(RawView::All)
                } else {
                    Ok(RawView::Regular(s))
                },
            },
        }
    }

    /// The number of dimensions that the selection asks of an array.
    pub open spec fn ndim_in(self) -> Option<nat> {
        match self {
            SelectionView::All => None,
            SelectionView::Points(p) => if p.empty() {
                None
            } else {
                Some(p.ndim)
            },
            SelectionView::Hyperslab(h) => Some(h.len()),
        }
    }

    /// The number of dimensions of what is selected.
    pub open spec fn ndim_out(self) -> Option<nat> {
        match self {
            SelectionView::All => None,
            SelectionView::Points(p) => Some(
                if p.empty() {
                    0
                } else {
                    1
                },
            ),
            SelectionView::Hyperslab(h) => Some(slice_total(h)),
        }
    }

    /// The shape of what is selected.
    pub open spec fn shape_out(self, shape: Seq<usize>) -> Result<Seq<usize>, Seq<char>> {
        match self {
            SelectionView::All => Ok(shape),
            SelectionView::Points(p) => match coords_checked(p, shape) {
                Err(e) => Err(e),
                Ok(_) => Ok(
                    if p.empty() {
                        Seq::empty()
                    } else {
                        seq![p.rows.len() as usize]
                    },
                ),
            },
            SelectionView::Hyperslab(h) => match hyperslab_raw(h, shape) {
                Err(e) => Err(e),
                Ok(s) => slab_shape(s, h, 0, Seq::empty()),
            },
        }
    }
}

/// How many of some selectors are slices.
pub open spec fn slice_total(h: Seq<SliceOrIndex>) -> nat
    decreases h.len(),
{
    if h.len() == 0 {
        0
    } else {
        slice_total(h.drop_last()) + (if h.last() is Index {
            0nat
        } else {
            1nat
        })
    }
}

/// The sizes that the slices from `i` on select, behind `acc`. An index takes its
/// dimension away.
pub open spec fn slab_shape(
    s: Seq<RawSlice>,
    h: Seq<SliceOrIndex>,
    i: int,
    acc: Seq<usize>,
) -> Result<Seq<usize>, Seq<char>>
    decreases s.len() - i,
{
    if i < 0 || i >= s.len() {
        Ok(acc)
    } else {
        match s[i].count {
            None => Err("Unable to get the shape for unlimited hyperslab"@),
            Some(count) => if h[i] is Index {
                slab_shape(s, h, i + 1, acc)
            } else if count * s[i].block > usize::MAX {
                Err("selection too large"@)
            } else {
                slab_shape(s, h, i + 1, acc.push((count * s[i].block) as usize))
            },
        }
    }
}

/// Whether a shape came out as `s` says.
pub open spec fn same_shape(r: Result<Vec<Ix>, Error>, s: Result<Seq<usize>, Seq<char>>) -> bool {
    match (r, s) {
        (Ok(v), Ok(w)) => v@ == w,
        (Err(e), Err(m)) => e@ == m,
        _ => false,
    }
}

/// Whether a selection came out as `s` says.
pub open spec fn same_selection(r: Result<RawSelection, Error>, s: Result<RawView, Seq<char>>) -> bool {
    match (r, s) {
        (Ok(v), Ok(w)) => v@ == w,
        (Err(e), Err(m)) => e@ == m,
        _ => false,
    }
}

/// The selection of what `v` says.
pub open spec fn selection_back(v: RawView) -> Result<SelectionView, Seq<char>> {
    match v {
        RawView::Nothing => Ok(SelectionView::Points(PointsView { ndim: 0, rows: Seq::empty() })),
        RawView::All => Ok(SelectionView::All),
        RawView::Points(p) => Ok(SelectionView::Points(p)),
        RawView::Regular(h) => match slices_back(h, 0, Seq::empty()) {
            Err(e) => Err(e),
            Ok(s) => Ok(SelectionView::Hyperslab(s)),
        },
        RawView::Complex => Err("Cannot convert complex hyperslabs"@),
    }
}

/// What `ndarray` prints for a matrix of the given number of columns, row by row.
pub uninterp spec fn matrix_text(ndim: nat, rows: Seq<Seq<usize>>) -> Seq<char>;

/// Prints points as `ndarray` does: its `Display` of an array with one row for each
/// point. The text depends on the coordinates and the number of columns alone.
#[verifier::external_body]
fn matrix_string(points: &Points) -> (r: String)
    requires
        points@.sound(),
    ensures
        r@ == matrix_text(points@.ndim, points@.rows),
{
    match ndarray::Array2::from_shape_vec((points.rows.len(), points.ndim), points.rows.concat()) {
        Ok(a) => format!("{}", a),
        Err(e) => format!("{}", e),
    }
}

impl Clone for Selection {
    fn clone(&self) -> (r: Self)
        ensures
            r@ == self@,
    {
        match self {
            Selection::All => Selection::All,
            Selection::Points(p) => Selection::Points(p.clone()),
            Selection::Hyperslab(h) => Selection::Hyperslab(h.clone()),
        }
    }
}

/// Points of an array of one dimension; none where the list is empty.
pub open spec fn line_view(points: Seq<usize>) -> PointsView {
    PointsView {
        ndim: if points.len() == 0 {
            0
        } else {
            1
        },
        rows: points.map_values(|x: usize| seq![x]),
    }
}

impl Selection {
    pub fn new<T: Into<Self>>(selection: T) -> (r: Self)
        ensures
            call_ensures(T::into, (selection,), r),
    {
        selection.into()
    }

    pub fn try_new<T: TryInto<Self>>(selection: T) -> (r: Result<Self, T::Error>)
        ensures
            call_ensures(T::try_into, (selection,), r),
    {
        selection.try_into()
    }

    /// What this selects of an array of the given shape.
    pub fn into_raw(self, shape: &[Ix]) -> (r: Result<RawSelection, Error>)
        requires
            self@.sound(),
        ensures
            same_selection(r, self@.raw(shape@)),
            r matches Ok(v) ==> v@.sound(),
    {
        match self {
            Selection::All => Ok(RawSelection::All),
            Selection::Points(points) => {
                points.check_coords(shape)?;
                if points.rows.len() == 0 {
                    Ok(RawSelection::Nothing)
                } else {
                    Ok(RawSelection::Points(points))
                }
            },
            Selection::Hyperslab(hyper) => {
                let raw = hyper.into_raw(shape)?;
                if raw.is_none() {
                    Ok(RawSelection::Nothing)
                } else if raw.is_all(shape) {
                    Ok(RawSelection::All)
                } else {
                    Ok(RawSelection::RegularHyperslab(raw))
                }
            },
        }
    }

    /// The selection of what `selection` says.
    pub fn from_raw(selection: RawSelection) -> (r: Result<Self, Error>)
        ensures
            match (r, selection_back(selection@)) {
                (Ok(v), Ok(w)) => v@ == w,
                (Err(e), Err(m)) => e@ == m,
                _ => false,
            },
    {
        match selection {
            RawSelection::Nothing => {
                let p = Points { ndim: 0, rows: Vec::new() };
                assert(p@ =~= (PointsView { ndim: 0, rows: Seq::empty() }));
                Ok(Selection::Points(p))
            },
            RawSelection::All => Ok(Selection::All),
            RawSelection::Points(points) => Ok(Selection::Points(points)),
            RawSelection::RegularHyperslab(hyper) => Ok(
                Selection::Hyperslab(Hyperslab::from_raw(hyper)?),
            ),
            RawSelection::ComplexHyperslab => Err(Error::new("Cannot convert complex hyperslabs")),
        }
    }

    pub fn in_ndim(&self) -> (r: Option<usize>)
        ensures
            r is Some <==> self@.ndim_in() is Some,
            r matches Some(n) ==> self@.ndim_in() == Some(n as nat),
    {
        match self {
            Selection::All => None,
            Selection::Points(points) => if points.is_empty() {
                None
            } else {
                Some(points.ndim)
            },
            Selection::Hyperslab(hyper) => Some(hyper.dims.len()),
        }
    }

    pub fn out_ndim(&self) -> (r: Option<usize>)
        ensures
            r is Some <==> self@.ndim_out() is Some,
            r matches Some(n) ==> self@.ndim_out() == Some(n as nat),
    {
        match self {
            Selection::All => None,
            Selection::Points(points) => if points.is_empty() {
                Some(0)
            } else {
                Some(1)
            },
            Selection::Hyperslab(hyper) => {
                let n: usize = hyper.dims.len();
                let mut total: usize = 0;
                let mut i: usize = 0;
                assert(hyper@.take(0) =~= Seq::empty());
                while i < n
                    invariant
                        i <= n == hyper.dims@.len(),
                        total <= i,
                        total == slice_total(hyper@.take(i as int)),
                    decreases n - i,
                {
                    assert(hyper@.take(i + 1).drop_last() =~= hyper@.take(i as int));
                    if hyper.dims[i].is_slice() {
                        total += 1;
                    }
                    i += 1;
                }
                assert(hyper@.take(n as int) =~= hyper@);
                Some(total)
            },
        }
    }

    /// The shape of what this selects of an array of the given shape.
    pub fn out_shape(&self, in_shape: &[Ix]) -> (r: Result<Vec<Ix>, Error>)
        requires
            self@.sound(),
        ensures
            same_shape(r, self@.shape_out(in_shape@)),
    {
        match self {
            Selection::All => Ok(vstd::slice::slice_to_vec(in_shape)),
            Selection::Points(points) => {
                points.check_coords(in_shape)?;
                let mut out: Vec<Ix> = Vec::new();
                if !points.is_empty() {
                    out.push(points.rows.len());
                }
                assert(out@ =~= self@.shape_out(in_shape@)->Ok_0);
                Ok(out)
            },
            Selection::Hyperslab(hyper) => {
                let raw = hyper.clone().into_raw(in_shape)?;
                let n: usize = raw.dims.len();
                proof {
                    lemma_raw_len(hyper@, in_shape@, 0, Seq::empty());
                }
                let ghost whole = slab_shape(raw@, hyper@, 0, Seq::empty());
                let mut out: Vec<Ix> = Vec::new();
                let mut i: usize = 0;
                while i < n
                    invariant
                        i <= n == raw.dims@.len() == hyper.dims@.len(),
                        self@ == SelectionView::Hyperslab(hyper@),
                        hyperslab_raw(hyper@, in_shape@) == Ok::<Seq<RawSlice>, Seq<char>>(raw@),
                        whole == slab_shape(raw@, hyper@, 0, Seq::empty()),
                        whole == slab_shape(raw@, hyper@, i as int, out@),
                    decreases n - i,
                {
                    let s = raw.dims[i];
                    match s.count {
                        None => {
                            return Err(
                                Error::new("Unable to get the shape for unlimited hyperslab"),
                            );
                        },
                        Some(count) => {
                            if hyper.dims[i].is_slice() {
                                match count.checked_mul(s.block) {
                                    None => {
                                        return Err(Error::new("selection too large"));
                                    },
                                    Some(p) => {
                                        out.push(p);
                                    },
                                }
                            }
                        },
                    }
                    i += 1;
                }
                Ok(out)
            },
        }
    }

    pub fn is_all(&self) -> (r: bool)
        ensures
            r == (self@ is All),
    {
        matches!(self, Selection::All)
    }

    pub fn is_points(&self) -> (r: bool)
        ensures
            r == (self@ matches SelectionView::Points(p) && !p.empty()),
    {
        match self {
            Selection::Points(points) => !points.is_empty(),
            _ => false,
        }
    }

    pub fn is_none(&self) -> (r: bool)
        ensures
            r == (self@ matches SelectionView::Points(p) && p.empty()),
    {
        match self {
            Selection::Points(points) => points.is_empty(),
            _ => false,
        }
    }

    pub fn is_hyperslab(&self) -> (r: bool)
        ensures
            r == (self@ is Hyperslab),
    {
        matches!(self, Selection::Hyperslab(_))
    }

    /// Points of an array of one dimension.
    pub fn from_line(points: &[Ix]) -> (r: Self)
        ensures
            r@ == SelectionView::Points(line_view(points@)),
    {
        let n: usize = points.len();
        let mut rows: Vec<Vec<Ix>> = Vec::new();
        let mut i: usize = 0;
        let ghost all = line_view(points@).rows;
        assert(crate::hl::points::row_views(rows@) =~= all.take(0));
        while i < n
            invariant
                i <= n == points@.len(),
                all == line_view(points@).rows,
                rows@.len() == i,
                crate::hl::points::row_views(rows@) == all.take(i as int),
            decreases n - i,
        {
            let mut row: Vec<Ix> = Vec::new();
            row.push(points[i]);
            let ghost before = rows@;
            rows.push(row);
            i += 1;
            assert(row@ =~= all[i - 1]);
            assert(crate::hl::points::row_views(rows@) =~= crate::hl::points::row_views(
                before,
            ).push(row@));
            assert(crate::hl::points::row_views(rows@) =~= all.take(i as int));
        }
        let ndim: usize = if n == 0 {
            0
        } else {
            1
        };
        let p = Points { ndim, rows };
        assert(p@ =~= line_view(points@));
        Selection::Points(p)
    }

    /// The selection as text.
    pub fn to_text(&self) -> (r: String)
        requires
            self@.sound(),
        ensures
            r@ == match self@ {
                SelectionView::All => ".."@,
                SelectionView::Points(p) => if p.empty() {
                    "[]"@
                } else {
                    matrix_text(p.ndim, p.rows)
                },
                SelectionView::Hyperslab(h) => slab_text(h),
            },
    {
        match self {
            Selection::All => "..".to_string(),
            Selection::Points(points) => if points.is_empty() {
                "[]".to_string()
            } else {
                matrix_string(points)
            },
            Selection::Hyperslab(hyper) => hyper.to_text(),
        }
    }
}

impl From<Hyperslab> for Selection {
    fn from(hyper: Hyperslab) -> Self {
        Selection::Hyperslab(hyper)
    }
}

impl vstd::std_specs::convert::FromSpecImpl<Hyperslab> for Selection {
    open spec fn obeys_from_spec() -> bool {
        true
    }

    open spec fn from_spec(v: Hyperslab) -> Self {
        Selection::Hyperslab(v)
    }
}

impl From<Points> for Selection {
    fn from(points: Points) -> Self {
        Selection::Points(points)
    }
}

impl vstd::std_specs::convert::FromSpecImpl<Points> for Selection {
    open spec fn obeys_from_spec() -> bool {
        true
    }

    open spec fn from_spec(v: Points) -> Self {
        Selection::Points(v)
    }
}

/// A hyperslab has one slice for each of its selectors, each with a count.
pub proof fn lemma_raw_len(h: Seq<SliceOrIndex>, shape: Seq<usize>, i: int, acc: Seq<RawSlice>)
    requires
        0 <= i <= h.len(),
        acc.len() == i,
        raw_slices(h, shape, i, acc) is Ok,
    ensures
        raw_slices(h, shape, i, acc)->Ok_0.len() == h.len(),
        forall|j: int|
            0 <= j < i ==> #[trigger] raw_slices(h, shape, i, acc)->Ok_0[j] == acc[j],
        forall|j: int|
            i <= j < h.len() ==> raw_slice(j as nat, h[j], shape[j]) == Ok::<RawSlice, Seq<char>>(
                #[trigger] raw_slices(h, shape, i, acc)->Ok_0[j],
            ),
    decreases h.len() - i,
{
    if i < h.len() {
        let s = raw_slice(i as nat, h[i], shape[i])->Ok_0;
        lemma_raw_len(h, shape, i + 1, acc.push(s));
        let all = raw_slices(h, shape, i, acc)->Ok_0;
        assert forall|j: int| 0 <= j < i implies #[trigger] all[j] == acc[j] by {
            assert(acc.push(s)[j] == acc[j]);
        }
        assert(all[i] == acc.push(s)[i]);
    }
}

/// What a selector other than one with a count selects lies within the dimension:
/// a block before the count ends at or before the dimension's last index.
pub proof fn law_slice_within(axis: nat, s: SliceOrIndex, dim: Ix, i: nat, j: nat)
    requires
        raw_slice(axis, s, dim) is Ok,
        !(s is SliceCount),
        i < block_count(raw_slice(axis, s, dim)->Ok_0, dim as nat),
        j < raw_slice(axis, s, dim)->Ok_0.block,
    ensures
        ({
            let r = raw_slice(axis, s, dim)->Ok_0;
            r.start + i * r.step + j < dim
        }),
{
    let r = raw_slice(axis, s, dim)->Ok_0;
    if !(s is Index) {
        let end = match s {
            SliceOrIndex::SliceTo { start, step, end, block } => end as nat,
            _ => dim as nat,
        };
        let first = (r.start + less_one(r.block as nat)) as int;
        let step = r.step as int;
        let n = blocks_before(r.start as nat, r.step as nat, end, r.block as nat);
        assert(n <= usize::MAX) by {
            if first < end {
                vstd::arithmetic::div_mod::lemma_div_is_ordered_by_denominator(
                    end - first - 1,
                    1,
                    step,
                );
            }
        }
        let q = (end - first - 1) / step;
        vstd::arithmetic::div_mod::lemma_fundamental_div_mod(end - first - 1, step);
        assert(i * step <= q * step) by (nonlinear_arith)
            requires
                i <= q,
                step >= 1,
        ;
        assert(step * q == q * step) by (nonlinear_arith);
    }
}

/// A slice with a count comes back from its selector, wherever its last index is not
/// behind the dimension.
pub proof fn law_slice_round_trip(axis: nat, r: RawSlice, dim: Ix)
    requires
        r.count is Some,
        r.step >= 1,
        r.start <= dim,
        last_index(r.start as nat, r.step as nat, r.count->0 as nat, r.block as nat) <= dim,
    ensures
        raw_slice(axis, slice_back(r), dim) == Ok::<RawSlice, Seq<char>>(r),
{
}

} // verus!
