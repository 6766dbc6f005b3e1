//! Hyperslabs: selections of an array by a selector for each dimension.

use std::ops::Range;

use vstd::prelude::*;

use crate::error::Error;
use crate::hl::extents::Ix;
use crate::text::{decimal, decimal_string, join, with_number};

verus! {

/// A hyperslab in one dimension: blocks of `block` coordinates, `step` apart.
#[derive(Clone, Copy, Debug, PartialEq, Eq)]
pub struct RawSlice {
    pub start: Ix,
    pub step: Ix,
    pub count: Option<Ix>,
    pub block: Ix,
}

impl RawSlice {
    pub fn new(start: Ix, step: Ix, count: Option<Ix>, block: Ix) -> (r: Self)
        ensures
            r == (RawSlice { start, step, count, block }),
    {
        RawSlice { start, step, count, block }
    }
}

/// A selector of one dimension.
#[derive(Clone, Copy, Debug)]
pub enum SliceOrIndex {
    /// A single index.
    Index(Ix),
    /// Up to the given index.
    SliceTo { start: Ix, step: Ix, end: Ix, block: Ix },
    /// The given count of elements.
    SliceCount { start: Ix, step: Ix, count: Ix, block: Ix },
    /// An unlimited hyperslab.
    Unlimited { start: Ix, step: Ix, block: Ix },
}

/// One less, but not less than none.
pub open spec fn less_one(n: nat) -> nat {
    if n == 0 {
        0
    } else {
        (n - 1) as nat
    }
}

/// How many blocks from `start` on, `step` apart, end before `end`.
pub open spec fn blocks_before(start: nat, step: nat, end: nat, block: nat) -> nat {
    let first = start + less_one(block);
    if first >= end || step == 0 {
        0
    } else {
        ((end - first - 1) / step as int + 1) as nat
    }
}

impl SliceOrIndex {
    /// The number of blocks; none for an unlimited selector.
    pub open spec fn blocks(self) -> Option<nat> {
        match self {
            SliceOrIndex::Index(_) => Some(1),
            SliceOrIndex::SliceTo { start, step, end, block } => Some(
                blocks_before(start as nat, step as nat, end as nat, block as nat),
            ),
            SliceOrIndex::SliceCount { count, .. } => Some(count as nat),
            SliceOrIndex::Unlimited { .. } => None,
        }
    }

    /// The selector without an end.
    pub open spec fn unbounded(self) -> Result<SliceOrIndex, Seq<char>> {
        match self {
            SliceOrIndex::Index(_) => Err("Cannot make index selection unlimited"@),
            SliceOrIndex::SliceTo { start, step, end, block } => Ok(
                SliceOrIndex::Unlimited { start, step, block },
            ),
            SliceOrIndex::SliceCount { start, step, count, block } => Ok(
                SliceOrIndex::Unlimited { start, step, block },
            ),
            SliceOrIndex::Unlimited { start, step, block } => Ok(
                SliceOrIndex::Unlimited { start, step, block },
            ),
        }
    }

    /// The selector with blocks of another size.
    pub open spec fn blocked(self, size: Ix) -> Result<SliceOrIndex, Seq<char>> {
        match self {
            SliceOrIndex::Index(_) => Err("Cannot set blocksize for index selection"@),
            SliceOrIndex::SliceTo { start, step, end, block } => Ok(
                SliceOrIndex::SliceTo { start, step, end, block: size },
            ),
            SliceOrIndex::SliceCount { start, step, count, block } => Ok(
                SliceOrIndex::SliceCount { start, step, count, block: size },
            ),
            SliceOrIndex::Unlimited { start, step, block } => Ok(
                SliceOrIndex::Unlimited { start, step, block: size },
            ),
        }
    }

    /// The selector as text.
    pub open spec fn text(self) -> Seq<char> {
        match self {
            SliceOrIndex::Index(index) => decimal(index as nat),
            SliceOrIndex::SliceTo { start, step, end, block } => from_text(start) + (".."@ + decimal(
                end as nat,
            )) + pace_text(step, block),
            SliceOrIndex::SliceCount { start, step, count, block } => from_text(start) + ("+"@
                + decimal(count as nat)) + pace_text(step, block),
            SliceOrIndex::Unlimited { start, step, block } => from_text(start) + "..\u{221e}"@
                + pace_text(step, block),
        }
    }
}

/// Where a selector starts, unless at the first index.
pub open spec fn from_text(start: Ix) -> Seq<char> {
    if start != 0 {
        decimal(start as nat)
    } else {
        ""@
    }
}

/// The step and the block of a selector, unless they are one.
pub open spec fn pace_text(step: Ix, block: Ix) -> Seq<char> {
    let a = if step != 1 {
        ";"@ + decimal(step as nat)
    } else {
        ""@
    };
    let b = if block != 1 {
        "(Bx"@ + decimal(block as nat) + ")"@
    } else {
        ""@
    };
    a + b
}

/// Whether a selector came out as `s` says.
pub open spec fn same_slice(r: Result<SliceOrIndex, Error>, s: Result<SliceOrIndex, Seq<char>>) -> bool {
    match (r, s) {
        (Ok(v), Ok(w)) => v == w,
        (Err(e), Err(m)) => e@ == m,
        _ => false,
    }
}

/// Whether two selectors select the same: by their fields, and a slice with an end
/// as the one with its count.
pub open spec fn same_selector(a: SliceOrIndex, b: SliceOrIndex) -> bool {
    match (a, b) {
        (
            SliceOrIndex::SliceTo { start, step, end, block },
            SliceOrIndex::SliceCount { start: start1, step: step1, count, block: block1 },
        ) => start == start1 && step == step1 && block == block1 && step != 0 && a.blocks() == Some(
            count as nat,
        ),
        (
            SliceOrIndex::SliceCount { start, step, count, block },
            SliceOrIndex::SliceTo { start: start1, step: step1, end, block: block1 },
        ) => start == start1 && step == step1 && block == block1 && step != 0 && b.blocks() == Some(
            count as nat,
        ),
        _ => a == b,
    }
}

/// The count of blocks before an end.
fn count_before(start: Ix, step: Ix, end: Ix, block: Ix) -> (r: usize)
    ensures
        r == blocks_before(start as nat, step as nat, end as nat, block as nat),
{
    let less: usize = if block == 0 {
        0
    } else {
        block - 1
    };
    match start.checked_add(less) {
        None => 0,
        Some(first) => {
            if first >= end || step == 0 {
                0
            } else {
                let room: usize = end - first - 1;
                proof {
                    vstd::arithmetic::div_mod::lemma_div_is_ordered_by_denominator(
                        room as int,
                        1,
                        step as int,
                    );
                    assert(room as int / 1 == room);
                }
                room / step + 1
            }
        },
    }
}

/// A text for where a selector starts.
fn start_string(start: Ix) -> (r: String)
    ensures
        r@ == from_text(start),
{
    if start != 0 {
        decimal_string(start as u64)
    } else {
        proof {
            reveal_strlit("");
        }
        let r = join("", "");
        assert(r@ =~= ""@);
        r
    }
}

fn pace_string(step: Ix, block: Ix) -> (r: String)
    ensures
        r@ == pace_text(step, block),
{
    proof {
        reveal_strlit("");
    }
    let a = if step != 1 {
        with_number(";", step as u64)
    } else {
        join("", "")
    };
    let b = if block != 1 {
        join(with_number("(Bx", block as u64).as_str(), ")")
    } else {
        join("", "")
    };
    let r = join(a.as_str(), b.as_str());
    assert(r@ =~= pace_text(step, block));
    r
}

impl SliceOrIndex {
    pub fn to_unlimited(self) -> (r: Result<Self, Error>)
        ensures
            same_slice(r, self.unbounded()),
    {
        match self {
            SliceOrIndex::Index(_) => Err(Error::new("Cannot make index selection unlimited")),
            SliceOrIndex::SliceTo { start, step, end: _, block } => Ok(
                SliceOrIndex::Unlimited { start, step, block },
            ),
            SliceOrIndex::SliceCount { start, step, count: _, block } => Ok(
                SliceOrIndex::Unlimited { start, step, block },
            ),
            SliceOrIndex::Unlimited { start, step, block } => Ok(
                SliceOrIndex::Unlimited { start, step, block },
            ),
        }
    }

    pub fn is_index(self) -> (r: bool)
        ensures
            r == (self is Index),
    {
        matches!(self, SliceOrIndex::Index(_))
    }

    pub fn is_slice(self) -> (r: bool)
        ensures
            r == !(self is Index),
    {
        !matches!(self, SliceOrIndex::Index(_))
    }

    pub fn is_unlimited(self) -> (r: bool)
        ensures
            r == (self is Unlimited),
    {
        matches!(self, SliceOrIndex::Unlimited { .. })
    }

    /// The selector with blocks of the size `blocksize`.
    pub fn set_blocksize(self, blocksize: Ix) -> (r: Result<Self, Error>)
        ensures
            same_slice(r, self.blocked(blocksize)),
    {
        match self {
            SliceOrIndex::Index(_) => Err(Error::new("Cannot set blocksize for index selection")),
            SliceOrIndex::SliceTo { start, step, end, block: _ } => Ok(
                SliceOrIndex::SliceTo { start, step, end, block: blocksize },
            ),
            SliceOrIndex::SliceCount { start, step, count, block: _ } => Ok(
                SliceOrIndex::SliceCount { start, step, count, block: blocksize },
            ),
            SliceOrIndex::Unlimited { start, step, block: _ } => Ok(
                SliceOrIndex::Unlimited { start, step, block: blocksize },
            ),
        }
    }

    /// The number of blocks.
    pub fn count(self) -> (r: Option<usize>)
        ensures
            r is Some <==> self.blocks() is Some,
            r matches Some(n) ==> self.blocks() == Some(n as nat),
    {
        match self {
            SliceOrIndex::Index(_) => Some(1),
            SliceOrIndex::SliceTo { start, step, end, block } => Some(
                count_before(start, step, end, block),
            ),
            SliceOrIndex::SliceCount { count, .. } => Some(count),
            SliceOrIndex::Unlimited { .. } => None,
        }
    }

    /// Whether this selects the same as `other`.
    pub fn selects_as(self, other: Self) -> (r: bool)
        ensures
            r == same_selector(self, other),
    {
        match (self, other) {
            (SliceOrIndex::Index(a), SliceOrIndex::Index(b)) => a == b,
            (
                SliceOrIndex::SliceTo { start, step, end, block },
                SliceOrIndex::SliceTo { start: start1, step: step1, end: end1, block: block1 },
            ) => start == start1 && step == step1 && end == end1 && block == block1,
            (
                SliceOrIndex::SliceCount { start, step, count, block },
                SliceOrIndex::SliceCount { start: start1, step: step1, count: count1, block: block1 },
            ) => start == start1 && step == step1 && count == count1 && block == block1,
            (
                SliceOrIndex::Unlimited { start, step, block },
                SliceOrIndex::Unlimited { start: start1, step: step1, block: block1 },
            ) => start == start1 && step == step1 && block == block1,
            (
                SliceOrIndex::SliceTo { start, step, end, block },
                SliceOrIndex::SliceCount { start: start1, step: step1, count, block: block1 },
            ) => start == start1 && step == step1 && block == block1 && step != 0 && count_before(
                start,
                step,
                end,
                block,
            ) == count,
            (
                SliceOrIndex::SliceCount { start, step, count, block },
                SliceOrIndex::SliceTo { start: start1, step: step1, end, block: block1 },
            ) => start == start1 && step == step1 && block == block1 && step != 0 && count_before(
                start,
                step,
                end,
                block,
            ) == count,
            _ => false,
        }
    }

    /// The whole dimension.
    pub fn full() -> (r: Self)
        ensures
            r == (SliceOrIndex::Unlimited { start: 0, step: 1, block: 1 }),
    {
        SliceOrIndex::Unlimited { start: 0, step: 1, block: 1 }
    }

    /// From `start` on.
    pub fn from_start(start: usize) -> (r: Self)
        ensures
            r == (SliceOrIndex::Unlimited { start, step: 1, block: 1 }),
    {
        SliceOrIndex::Unlimited { start, step: 1, block: 1 }
    }

    /// The indices from `start` to `end`, with `end` itself.
    pub fn through(start: usize, end: usize) -> (r: Self)
        requires
            end < usize::MAX,
        ensures
            r == (SliceOrIndex::SliceTo { start, step: 1, end: (end + 1) as usize, block: 1 }),
    {
        SliceOrIndex::SliceTo { start, step: 1, end: end + 1, block: 1 }
    }

    /// The selector as text.
    pub fn to_text(self) -> (r: String)
        ensures
            r@ == self.text(),
    {
        match self {
            SliceOrIndex::Index(index) => decimal_string(index as u64),
            SliceOrIndex::SliceTo { start, step, end, block } => join(
                join(start_string(start).as_str(), with_number("..", end as u64).as_str()).as_str(),
                pace_string(step, block).as_str(),
            ),
            SliceOrIndex::SliceCount { start, step, count, block } => join(
                join(start_string(start).as_str(), with_number("+", count as u64).as_str()).as_str(),
                pace_string(step, block).as_str(),
            ),
            SliceOrIndex::Unlimited { start, step, block } => join(
                join(start_string(start).as_str(), "..\u{221e}").as_str(),
                pace_string(step, block).as_str(),
            ),
        }
    }
}

impl PartialEq for SliceOrIndex {
    fn eq(&self, other: &Self) -> (r: bool) {
        self.selects_as(*other)
    }
}

impl vstd::std_specs::cmp::PartialEqSpecImpl for SliceOrIndex {
    open spec fn obeys_eq_spec() -> bool {
        true
    }

    open spec fn eq_spec(&self, other: &Self) -> bool {
        same_selector(*self, *other)
    }
}

impl From<usize> for SliceOrIndex {
    fn from(val: usize) -> Self {
        SliceOrIndex::Index(val)
    }
}

impl vstd::std_specs::convert::FromSpecImpl<usize> for SliceOrIndex {
    open spec fn obeys_from_spec() -> bool {
        true
    }

    open spec fn from_spec(v: usize) -> Self {
        SliceOrIndex::Index(v)
    }
}

impl From<Range<usize>> for SliceOrIndex {
    fn from(val: Range<usize>) -> Self {
        SliceOrIndex::SliceTo { start: val.start, step: 1, end: val.end, block: 1 }
    }
}

impl vstd::std_specs::convert::FromSpecImpl<Range<usize>> for SliceOrIndex {
    open spec fn obeys_from_spec() -> bool {
        true
    }

    open spec fn from_spec(v: Range<usize>) -> Self {
        SliceOrIndex::SliceTo { start: v.start, step: 1, end: v.end, block: 1 }
    }
}

/// An element of the slicing of an array, with signed numbers.
#[derive(Clone, Copy, Debug)]
pub enum SliceElem {
    Slice { start: isize, end: Option<isize>, step: isize },
    Index(isize),
    NewAxis,
}

/// The selector that an element of a slicing stands for.
pub open spec fn elem_selector(e: SliceElem) -> Result<SliceOrIndex, Seq<char>> {
    match e {
        SliceElem::Index(i) => if i < 0 {
            Err("Index must be non-negative"@)
        } else {
            Ok(SliceOrIndex::Index(i as usize))
        },
        SliceElem::Slice { start, end, step } => if start < 0 {
            Err("Index must be non-negative"@)
        } else if step < 0 {
            Err("Step must be non-negative"@)
        } else {
            match end {
                None => Ok(
                    SliceOrIndex::Unlimited { start: start as usize, step: step as usize, block: 1 },
                ),
                Some(n) => if n < 0 {
                    Err("End must be non-negative"@)
                } else {
                    Ok(
                        SliceOrIndex::SliceTo {
                            start: start as usize,
                            step: step as usize,
                            end: n as usize,
                            block: 1,
                        },
                    )
                },
            }
        },
        SliceElem::NewAxis => Err("ndarray NewAxis can not be mapped to hdf5"@),
    }
}

impl SliceOrIndex {
    /// The selector of an element of a slicing.
    pub fn from_elem(e: SliceElem) -> (r: Result<Self, Error>)
        ensures
            same_slice(r, elem_selector(e)),
    {
        match e {
            SliceElem::Index(i) => if i < 0 {
                Err(Error::new("Index must be non-negative"))
            } else {
                Ok(SliceOrIndex::Index(i as usize))
            },
            SliceElem::Slice { start, end, step } => {
                if start < 0 {
                    return Err(Error::new("Index must be non-negative"));
                }
                if step < 0 {
                    return Err(Error::new("Step must be non-negative"));
                }
                match end {
                    None => Ok(
                        SliceOrIndex::Unlimited {
                            start: start as usize,
                            step: step as usize,
                            block: 1,
                        },
                    ),
                    Some(n) => if n < 0 {
                        Err(Error::new("End must be non-negative"))
                    } else {
                        Ok(
                            SliceOrIndex::SliceTo {
                                start: start as usize,
                                step: step as usize,
                                end: n as usize,
                                block: 1,
                            },
                        )
                    },
                }
            },
            SliceElem::NewAxis => Err(Error::new("ndarray NewAxis can not be mapped to hdf5")),
        }
    }
}

/// That a number is out of bounds.
pub open spec fn bounds(axis: nat, dim: nat) -> Seq<char> {
    " out of bounds for axis "@ + decimal(axis) + " with size "@ + decimal(dim)
}

fn bounds_string(axis: usize, dim: usize) -> (r: String)
    ensures
        r@ == bounds(axis as nat, dim as nat),
{
    with_number(
        join(with_number(" out of bounds for axis ", axis as u64).as_str(), " with size ").as_str(),
        dim as u64,
    )
}

/// That a number named `what` is out of bounds.
pub open spec fn outside(what: Seq<char>, n: nat, axis: nat, dim: nat) -> Seq<char> {
    what + decimal(n) + bounds(axis, dim)
}

fn outside_error(what: &str, n: usize, axis: usize, dim: usize) -> (r: Error)
    ensures
        r@ == outside(what@, n as nat, axis as nat, dim as nat),
{
    Error::from_text(join(with_number(what, n as u64).as_str(), bounds_string(axis, dim).as_str()))
}

/// That a step is none.
pub open spec fn no_stride(step: nat, axis: nat) -> Seq<char> {
    "Slice stride "@ + decimal(step) + " < 1 for axis "@ + decimal(axis)
}

/// What a slice up to an end selects of a dimension.
pub open spec fn range_raw(axis: nat, start: Ix, step: Ix, end: Ix, block: Ix, dim: Ix) -> Result<
    RawSlice,
    Seq<char>,
> {
    if step < 1 {
        Err(no_stride(step as nat, axis))
    } else if start > dim {
        Err(outside("Slice start "@, start as nat, axis, dim as nat))
    } else if end > dim {
        Err(outside("Slice end "@, end as nat, axis, dim as nat))
    } else {
        Ok(
            RawSlice {
                start,
                step,
                count: Some(
                    blocks_before(start as nat, step as nat, end as nat, block as nat) as usize,
                ),
                block,
            },
        )
    }
}

/// The last index of the last block.
pub open spec fn last_index(start: nat, step: nat, count: nat, block: nat) -> nat {
    start + less_one(block) + step * less_one(count)
}

/// What a selector selects of a dimension of the size `dim`.
pub open spec fn raw_slice(axis: nat, s: SliceOrIndex, dim: Ix) -> Result<RawSlice, Seq<char>> {
    match s {
        SliceOrIndex::Index(index) => if index < dim {
            Ok(RawSlice { start: index, step: 1, count: Some(1), block: 1 })
        } else {
            Err(outside("Index "@, index as nat, axis, dim as nat))
        },
        SliceOrIndex::SliceTo { start, step, end, block } => range_raw(
            axis,
            start,
            step,
            end,
            block,
            dim,
        ),
        SliceOrIndex::SliceCount { start, step, count, block } => {
            let last = last_index(start as nat, step as nat, count as nat, block as nat);
            if step < 1 {
                Err(no_stride(step as nat, axis))
            } else if start > dim {
                Err(outside("Slice start "@, start as nat, axis, dim as nat))
            } else if last > usize::MAX {
                Err("Slice end"@ + bounds(axis, dim as nat))
            } else if last > dim {
                Err(outside("Slice end "@, last, axis, dim as nat))
            } else {
                Ok(RawSlice { start, step, count: Some(count), block })
            }
        },
        SliceOrIndex::Unlimited { start, step, block } => range_raw(
            axis,
            start,
            step,
            dim,
            block,
            dim,
        ),
    }
}

/// Whether a slice came out as `s` says.
pub open spec fn same_raw(r: Result<RawSlice, Error>, s: Result<RawSlice, Seq<char>>) -> bool {
    match (r, s) {
        (Ok(v), Ok(w)) => v == w,
        (Err(e), Err(m)) => e@ == m,
        _ => false,
    }
}

fn stride_error(step: usize, axis: usize) -> (r: Error)
    ensures
        r@ == no_stride(step as nat, axis as nat),
{
    Error::from_text(
        with_number(
            join(with_number("Slice stride ", step as u64).as_str(), " < 1 for axis ").as_str(),
            axis as u64,
        ),
    )
}

fn range_to_raw(axis: usize, start: Ix, step: Ix, end: Ix, block: Ix, dim: Ix) -> (r: Result<
    RawSlice,
    Error,
>)
    ensures
        same_raw(r, range_raw(axis as nat, start, step, end, block, dim)),
{
    if step < 1 {
        return Err(stride_error(step, axis));
    }
    if start > dim {
        return Err(outside_error("Slice start ", start, axis, dim));
    }
    if end > dim {
        return Err(outside_error("Slice end ", end, axis, dim));
    }
    let count: usize = count_before(start, step, end, block);
    Ok(RawSlice { start, step, count: Some(count), block })
}

/// The last index of the last block, where it is in range.
fn last_of(start: Ix, step: Ix, count: Ix, block: Ix) -> (r: Option<usize>)
    ensures
        r is Some <==> last_index(start as nat, step as nat, count as nat, block as nat)
            <= usize::MAX,
        r matches Some(n) ==> n == last_index(
            start as nat,
            step as nat,
            count as nat,
            block as nat,
        ),
{
    let less: usize = if block == 0 {
        0
    } else {
        block - 1
    };
    let fewer: usize = if count == 0 {
        0
    } else {
        count - 1
    };
    assert(step as int * fewer as int >= 0) by (nonlinear_arith)
        requires
            step >= 0,
            fewer >= 0,
    ;
    match step.checked_mul(fewer) {
        None => None,
        Some(p) => match start.checked_add(less) {
            None => None,
            Some(q) => q.checked_add(p),
        },
    }
}

/// Turns a selector into a slice of a dimension of the size `dim`.
fn slice_info_to_raw(axis: usize, slice: SliceOrIndex, dim: Ix) -> (r: Result<RawSlice, Error>)
    ensures
        same_raw(r, raw_slice(axis as nat, slice, dim)),
{
    match slice {
        SliceOrIndex::Index(index) => if index < dim {
            Ok(RawSlice { start: index, step: 1, count: Some(1), block: 1 })
        } else {
            Err(outside_error("Index ", index, axis, dim))
        },
        SliceOrIndex::SliceTo { start, step, end, block } => range_to_raw(
            axis,
            start,
            step,
            end,
            block,
            dim,
        ),
        SliceOrIndex::SliceCount { start, step, count, block } => {
            if step < 1 {
                return Err(stride_error(step, axis));
            }
            if start > dim {
                return Err(outside_error("Slice start ", start, axis, dim));
            }
            match last_of(start, step, count, block) {
                None => Err(
                    Error::from_text(join("Slice end", bounds_string(axis, dim).as_str())),
                ),
                Some(last) => if last > dim {
                    Err(outside_error("Slice end ", last, axis, dim))
                } else {
                    Ok(RawSlice { start, step, count: Some(count), block })
                },
            }
        },
        SliceOrIndex::Unlimited { start, step, block } => range_to_raw(
            axis,
            start,
            step,
            dim,
            block,
            dim,
        ),
    }
}

/// A regular hyperslab: one slice for each dimension.
#[derive(Debug)]
pub struct RawHyperslab {
    pub dims: Vec<RawSlice>,
}

impl View for RawHyperslab {
    type V = Seq<RawSlice>;

    open spec fn view(&self) -> Seq<RawSlice> {
        self.dims@
    }
}

/// Whether a dimension of a hyperslab selects no block.
pub open spec fn slab_none(h: Seq<RawSlice>) -> bool {
    exists|i: int| 0 <= i < h.len() && (#[trigger] h[i]).count == Some(0usize)
}

/// Whether a slice covers a dimension of the size `dim`.
pub open spec fn covers(s: RawSlice, dim: Ix) -> bool {
    s.start == 0 && s.step == s.block && (s.count matches Some(c) && c * s.block == dim)
}

/// Whether a hyperslab covers an array.
pub open spec fn slab_all(h: Seq<RawSlice>, shape: Seq<usize>) -> bool {
    forall|i: int| 0 <= i < h.len() && i < shape.len() ==> covers(#[trigger] h[i], shape[i])
}

impl RawHyperslab {
    /// Whether nothing is selected.
    pub fn is_none(&self) -> (r: bool)
        ensures
            r == slab_none(self@),
    {
        let n: usize = self.dims.len();
        let mut i: usize = 0;
        while i < n
            invariant
                i <= n == self.dims@.len(),
                forall|j: int| 0 <= j < i ==> (#[trigger] self@[j]).count != Some(0usize),
            decreases n - i,
        {
            if let Some(c) = self.dims[i].count {
                if c == 0 {
                    assert(self@[i as int].count == Some(0usize));
                    return true;
                }
            }
            i += 1;
        }
        false
    }

    /// Whether the whole of an array is selected.
    pub fn is_all(&self, shape: &[Ix]) -> (r: bool)
        ensures
            r == slab_all(self@, shape@),
    {
        let n: usize = self.dims.len();
        let mut i: usize = 0;
        while i < n && i < shape.len()
            invariant
                i <= n == self.dims@.len(),
                i <= shape@.len(),
                forall|j: int| 0 <= j < i ==> covers(#[trigger] self@[j], shape@[j]),
            decreases n - i,
        {
            let s = self.dims[i];
            let count: usize = match s.count {
                Some(c) => c,
                None => {
                    assert(!covers(self@[i as int], shape@[i as int]));
                    return false;
                },
            };
            if s.start != 0 || s.step != s.block {
                assert(!covers(self@[i as int], shape@[i as int]));
                return false;
            }
            match count.checked_mul(s.block) {
                None => {
                    assert(!covers(self@[i as int], shape@[i as int]));
                    return false;
                },
                Some(p) => if p != shape[i] {
                    assert(!covers(self@[i as int], shape@[i as int]));
                    return false;
                },
            }
            i += 1;
        }
        true
    }
}

impl Clone for RawHyperslab {
    fn clone(&self) -> (r: Self)
        ensures
            r@ == self@,
    {
        let mut dims: Vec<RawSlice> = Vec::new();
        let n: usize = self.dims.len();
        let mut i: usize = 0;
        while i < n
            invariant
                i <= n == self.dims@.len(),
                dims@ =~= self.dims@.take(i as int),
            decreases n - i,
        {
            dims.push(self.dims[i]);
            i += 1;
        }
        assert(dims@ =~= self.dims@);
        RawHyperslab { dims }
    }
}

impl From<Vec<RawSlice>> for RawHyperslab {
    fn from(dims: Vec<RawSlice>) -> Self {
        RawHyperslab { dims }
    }
}

impl vstd::std_specs::convert::FromSpecImpl<Vec<RawSlice>> for RawHyperslab {
    open spec fn obeys_from_spec() -> bool {
        true
    }

    open spec fn from_spec(v: Vec<RawSlice>) -> Self {
        RawHyperslab { dims: v }
    }
}

/// A selection of an array by one selector for each dimension.
#[derive(Debug)]
pub struct Hyperslab {
    pub dims: Vec<SliceOrIndex>,
}

impl View for Hyperslab {
    type V = Seq<SliceOrIndex>;

    open spec fn view(&self) -> Seq<SliceOrIndex> {
        self.dims@
    }
}

/// The first unlimited selector from `i` on.
pub open spec fn unlimited_from(h: Seq<SliceOrIndex>, i: int) -> Option<nat>
    decreases h.len() - i,
{
    if i < 0 || i >= h.len() {
        None
    } else if h[i] is Unlimited {
        Some(i as nat)
    } else {
        unlimited_from(h, i + 1)
    }
}

/// What the selectors from `i` on select of an array, behind `acc`.
pub open spec fn raw_slices(
    h: Seq<SliceOrIndex>,
    shape: Seq<usize>,
    i: int,
    acc: Seq<RawSlice>,
) -> Result<Seq<RawSlice>, Seq<char>>
    decreases h.len() - i,
{
    if i < 0 || i >= h.len() {
        Ok(acc)
    } else {
        match raw_slice(i as nat, h[i], shape[i]) {
            Err(e) => Err(e),
            Ok(s) => raw_slices(h, shape, i + 1, acc.push(s)),
        }
    }
}

/// That a selection has another number of dimensions than an array.
pub open spec fn rank_text(a: nat, b: nat) -> Seq<char> {
    "Slice ndim ("@ + decimal(a) + ") != shape ndim ("@ + decimal(b) + ")"@
}

pub(crate) fn rank_error(a: usize, b: usize) -> (r: Error)
    ensures
        r@ == rank_text(a as nat, b as nat),
{
    Error::from_text(
        join(
            with_number(
                join(with_number("Slice ndim (", a as u64).as_str(), ") != shape ndim (").as_str(),
                b as u64,
            ).as_str(),
            ")",
        ),
    )
}

/// What a hyperslab selects of an array.
pub open spec fn hyperslab_raw(h: Seq<SliceOrIndex>, shape: Seq<usize>) -> Result<
    Seq<RawSlice>,
    Seq<char>,
> {
    if h.len() != shape.len() {
        Err(rank_text(h.len(), shape.len()))
    } else {
        raw_slices(h, shape, 0, Seq::empty())
    }
}

/// The selector for a slice of a dimension.
pub open spec fn slice_back(s: RawSlice) -> SliceOrIndex {
    match s.count {
        Some(count) => SliceOrIndex::SliceCount {
            start: s.start,
            step: s.step,
            count,
            block: s.block,
        },
        None => SliceOrIndex::Unlimited { start: s.start, step: s.step, block: s.block },
    }
}

/// The selectors for the slices from `i` on, behind `acc`.
pub open spec fn slices_back(h: Seq<RawSlice>, i: int, acc: Seq<SliceOrIndex>) -> Result<
    Seq<SliceOrIndex>,
    Seq<char>,
>
    decreases h.len() - i,
{
    if i < 0 || i >= h.len() {
        Ok(acc)
    } else if h[i].step < h[i].block {
        Err("Blocks can not overlap (axis: "@ + decimal(i as nat) + ")"@)
    } else {
        slices_back(h, i + 1, acc.push(slice_back(h[i])))
    }
}

/// Whether slices came out as `s` says.
pub open spec fn same_slab(r: Result<RawHyperslab, Error>, s: Result<Seq<RawSlice>, Seq<char>>) -> bool {
    match (r, s) {
        (Ok(v), Ok(w)) => v@ == w,
        (Err(e), Err(m)) => e@ == m,
        _ => false,
    }
}

/// Whether selectors came out as `s` says.
pub open spec fn same_hyperslab(
    r: Result<Hyperslab, Error>,
    s: Result<Seq<SliceOrIndex>, Seq<char>>,
) -> bool {
    match (r, s) {
        (Ok(v), Ok(w)) => v@ == w,
        (Err(e), Err(m)) => e@ == m,
        _ => false,
    }
}

/// A hyperslab with another selector at `axis`.
pub open spec fn replaced(
    h: Seq<SliceOrIndex>,
    axis: nat,
    s: Result<SliceOrIndex, Seq<char>>,
    wrong: Seq<char>,
) -> Result<Seq<SliceOrIndex>, Seq<char>> {
    if axis >= h.len() {
        Err(wrong + decimal(axis))
    } else {
        match s {
            Err(e) => Err(e),
            Ok(v) => Ok(h.update(axis as int, v)),
        }
    }
}

impl Clone for Hyperslab {
    fn clone(&self) -> (r: Self)
        ensures
            r@ == self@,
    {
        let mut dims: Vec<SliceOrIndex> = Vec::new();
        let n: usize = self.dims.len();
        let mut i: usize = 0;
        while i < n
            invariant
                i <= n == self.dims@.len(),
                dims@ =~= self.dims@.take(i as int),
            decreases n - i,
        {
            dims.push(self.dims[i]);
            i += 1;
        }
        assert(dims@ =~= self.dims@);
        Hyperslab { dims }
    }
}

impl Hyperslab {
    pub fn new<T: Into<Self>>(hyper: T) -> (r: Self)
        ensures
            call_ensures(T::into, (hyper,), r),
    {
        hyper.into()
    }

    pub fn try_new<T: TryInto<Self>>(hyper: T) -> (r: Result<Self, T::Error>)
        ensures
            call_ensures(T::try_into, (hyper,), r),
    {
        hyper.try_into()
    }

    pub fn is_unlimited(&self) -> (r: bool)
        ensures
            r == (unlimited_from(self@, 0) is Some),
    {
        self.unlimited_axis().is_some()
    }

    /// The first dimension whose selector is unlimited.
    pub fn unlimited_axis(&self) -> (r: Option<usize>)
        ensures
            r is Some <==> unlimited_from(self@, 0) is Some,
            r matches Some(n) ==> unlimited_from(self@, 0) == Some(n as nat),
    {
        let n: usize = self.dims.len();
        let mut i: usize = 0;
        while i < n
            invariant
                i <= n == self.dims@.len(),
                unlimited_from(self@, 0) == unlimited_from(self@, i as int),
            decreases n - i,
        {
            if self.dims[i].is_unlimited() {
                return Some(i);
            }
            i += 1;
        }
        None
    }

    pub fn set_unlimited(&self, axis: usize) -> (r: Result<Self, Error>)
        ensures
            same_hyperslab(
                r,
                replaced(
                    self@,
                    axis as nat,
                    self@[axis as int].unbounded(),
                    "Invalid axis for making hyperslab unlimited: "@,
                ),
            ),
    {
        if axis < self.dims.len() {
            let mut hyper = self.clone();
            let s = self.dims[axis].to_unlimited()?;
            hyper.dims.set(axis, s);
            Ok(hyper)
        } else {
            Err(
                Error::from_text(
                    with_number("Invalid axis for making hyperslab unlimited: ", axis as u64),
                ),
            )
        }
    }

    pub fn set_block(&self, axis: usize, blocksize: Ix) -> (r: Result<Self, Error>)
        ensures
            same_hyperslab(
                r,
                replaced(
                    self@,
                    axis as nat,
                    self@[axis as int].blocked(blocksize),
                    "Invalid axis for changing the slice to block-like: "@,
                ),
            ),
    {
        if axis < self.dims.len() {
            let mut hyper = self.clone();
            let s = self.dims[axis].set_blocksize(blocksize)?;
            hyper.dims.set(axis, s);
            Ok(hyper)
        } else {
            Err(
                Error::from_text(
                    with_number("Invalid axis for changing the slice to block-like: ", axis as u64),
                ),
            )
        }
    }

    /// The slices that this selects of an array of the given shape.
    pub fn into_raw(self, shape: &[Ix]) -> (r: Result<RawHyperslab, Error>)
        ensures
            same_slab(r, hyperslab_raw(self@, shape@)),
    {
        let n: usize = self.dims.len();
        if n != shape.len() {
            return Err(rank_error(n, shape.len()));
        }
        let ghost whole = raw_slices(self@, shape@, 0, Seq::empty());
        let mut dims: Vec<RawSlice> = Vec::new();
        let mut i: usize = 0;
        while i < n
            invariant
                i <= n == self.dims@.len() == shape@.len(),
                whole == raw_slices(self@, shape@, 0, Seq::empty()),
                whole == raw_slices(self@, shape@, i as int, dims@),
            decreases n - i,
        {
            match slice_info_to_raw(i, self.dims[i], shape[i]) {
                Ok(s) => {
                    dims.push(s);
                },
                Err(e) => {
                    return Err(e);
                },
            }
            i += 1;
        }
        Ok(RawHyperslab { dims })
    }

    /// The selectors for some slices.
    pub fn from_raw(hyper: RawHyperslab) -> (r: Result<Self, Error>)
        ensures
            same_hyperslab(r, slices_back(hyper@, 0, Seq::empty())),
    {
        let n: usize = hyper.dims.len();
        let ghost whole = slices_back(hyper@, 0, Seq::empty());
        let mut dims: Vec<SliceOrIndex> = Vec::new();
        let mut i: usize = 0;
        while i < n
            invariant
                i <= n == hyper.dims@.len(),
                whole == slices_back(hyper@, 0, Seq::empty()),
                whole == slices_back(hyper@, i as int, dims@),
            decreases n - i,
        {
            let s = hyper.dims[i];
            if s.step < s.block {
                return Err(
                    Error::from_text(
                        join(with_number("Blocks can not overlap (axis: ", i as u64).as_str(), ")"),
                    ),
                );
            }
            dims.push(
                match s.count {
                    Some(count) => SliceOrIndex::SliceCount {
                        start: s.start,
                        step: s.step,
                        count,
                        block: s.block,
                    },
                    None => SliceOrIndex::Unlimited {
                        start: s.start,
                        step: s.step,
                        block: s.block,
                    },
                },
            );
            i += 1;
        }
        Ok(Hyperslab { dims })
    }
}

impl From<Vec<SliceOrIndex>> for Hyperslab {
    fn from(dims: Vec<SliceOrIndex>) -> Self {
        Hyperslab { dims }
    }
}

impl vstd::std_specs::convert::FromSpecImpl<Vec<SliceOrIndex>> for Hyperslab {
    open spec fn obeys_from_spec() -> bool {
        true
    }

    open spec fn from_spec(v: Vec<SliceOrIndex>) -> Self {
        Hyperslab { dims: v }
    }
}

impl From<SliceOrIndex> for Hyperslab {
    fn from(slice: SliceOrIndex) -> (r: Self)
        ensures
            r@ == seq![slice],
    {
        let mut dims: Vec<SliceOrIndex> = Vec::new();
        dims.push(slice);
        Hyperslab { dims }
    }
}

impl vstd::std_specs::convert::FromSpecImpl<SliceOrIndex> for Hyperslab {
    open spec fn obeys_from_spec() -> bool {
        false
    }

    open spec fn from_spec(v: SliceOrIndex) -> Self {
        arbitrary()
    }
}

/// The texts of selectors, with commas between them.
pub open spec fn slab_texts(h: Seq<SliceOrIndex>) -> Seq<char>
    decreases h.len(),
{
    if h.len() == 0 {
        ""@
    } else if h.len() == 1 {
        h[0].text()
    } else {
        slab_texts(h.drop_last()) + ", "@ + h.last().text()
    }
}

/// A hyperslab as text.
pub open spec fn slab_text(h: Seq<SliceOrIndex>) -> Seq<char> {
    "("@ + slab_texts(h) + (if h.len() == 1 {
        ",)"@
    } else {
        ")"@
    })
}

impl Hyperslab {
    /// The hyperslab as text.
    pub fn to_text(&self) -> (r: String)
        ensures
            r@ == slab_text(self@),
    {
        let n: usize = self.dims.len();
        let mut inner = join("", "");
        proof {
            reveal_strlit("");
            assert(inner@ =~= ""@);
            assert(self@.take(0) =~= Seq::empty());
        }
        let mut i: usize = 0;
        while i < n
            invariant
                i <= n == self.dims@.len(),
                inner@ == slab_texts(self@.take(i as int)),
            decreases n - i,
        {
            proof {
                assert(self@.take(i + 1).drop_last() =~= self@.take(i as int));
            }
            let t = self.dims[i].to_text();
            if i == 0 {
                inner = t;
            } else {
                inner = join(join(inner.as_str(), ", ").as_str(), t.as_str());
            }
            i += 1;
        }
        assert(self@.take(n as int) =~= self@);
        let close = if n == 1 {
            ",)"
        } else {
            ")"
        };
        join(join("(", inner.as_str()).as_str(), close)
    }
}

} // verus!
