//! The superblock and the messages of object headers.

use vstd::prelude::*;

use crate::error::Error;
use crate::format::datatype::nul_at;
use crate::format::filters::{filter_views, FilterView, RawFilter};
use crate::format::vds::{numbers_taken, read_numbers};
use crate::format::{dropped, le_at, taken_bytes, taken_uint, uint_of, Cursor, UNDEF};
use crate::text::{decimal, from_utf8_lossy, text_of, with_number};

verus! {

/// The text of bytes up to their first zero byte.
pub open spec fn c_text(b: Seq<u8>) -> Seq<char> {
    match nul_at(b, 0) {
        Some(k) => text_of(b.take(k)),
        None => text_of(b),
    }
}

/// The text of bytes up to their first zero byte.
pub fn cstr(bytes: &[u8]) -> (r: String)
    ensures
        r@ == c_text(bytes@),
{
    let n: usize = bytes.len();
    let mut i: usize = 0;
    while i < n
        invariant
            i <= n == bytes@.len(),
            nul_at(bytes@, 0) == nul_at(bytes@, i as int),
        decreases n - i,
    {
        if bytes[i] == 0 {
            let head = vstd::slice::slice_subrange(bytes, 0, i);
            assert(head@ =~= bytes@.take(i as int));
            return from_utf8_lossy(head);
        }
        i += 1;
    }
    from_utf8_lossy(bytes)
}

/// A dataspace: dimensions, maximal dimensions (none where they are unlimited), and
/// whether it is scalar or null.
#[derive(Debug)]
pub struct Space {
    pub dims: Vec<u64>,
    pub maxdims: Vec<Option<u64>>,
    pub is_scalar: bool,
    pub is_null: bool,
}

/// The view of a [`Space`].
#[verifier::ext_equal]
pub struct SpaceView {
    pub dims: Seq<u64>,
    pub maxdims: Seq<Option<u64>>,
    pub is_scalar: bool,
    pub is_null: bool,
}

impl View for Space {
    type V = SpaceView;

    open spec fn view(&self) -> SpaceView {
        SpaceView {
            dims: self.dims@,
            maxdims: self.maxdims@,
            is_scalar: self.is_scalar,
            is_null: self.is_null,
        }
    }
}

/// Maximal dimensions from their stored numbers.
pub open spec fn limits(v: Seq<u64>) -> Seq<Option<u64>> {
    v.map_values(
        |x: u64|
            if x == UNDEF {
                None
            } else {
                Some(x)
            },
    )
}

/// Dimensions as their own limits.
pub open spec fn own_limits(v: Seq<u64>) -> Seq<Option<u64>> {
    v.map_values(|x: u64| Some(x))
}

/// The dimensions and, where `limited`, the maximal dimensions of a dataspace.
pub open spec fn extents_taken(s: Seq<u8>, rank: nat, limited: bool) -> Result<
    (Seq<u64>, Seq<Option<u64>>, Seq<u8>),
    Seq<char>,
> {
    match numbers_taken(s, 8, rank, Seq::empty()) {
        Err(e) => Err(e),
        Ok((dims, r)) => if limited {
            match numbers_taken(r, 8, rank, Seq::empty()) {
                Err(e) => Err(e),
                Ok((max, r2)) => Ok((dims, limits(max), r2)),
            }
        } else {
            Ok((dims, own_limits(dims), r))
        },
    }
}

/// The dataspace message that starts with `s`, and what follows it.
pub open spec fn dataspace_parsed(s: Seq<u8>) -> Result<(SpaceView, Seq<u8>), Seq<char>> {
    match taken_uint(s, 1) {
        Err(e) => Err(e),
        Ok((version, r)) => if version != 1 && version != 2 {
            Err("unsupported dataspace version "@ + decimal(version))
        } else {
            match taken_bytes(
                r,
                if version == 1 {
                    2
                } else {
                    3
                },
            ) {
                Err(e) => Err(e),
                Ok((head, r2)) => {
                    let r3 = if version == 1 {
                        dropped(r2, 5)
                    } else {
                        r2
                    };
                    match extents_taken(r3, head[0] as nat, head[1] % 2 == 1) {
                        Err(e) => Err(e),
                        Ok((dims, maxdims, rest)) => Ok(
                            (
                                SpaceView {
                                    dims,
                                    maxdims,
                                    is_scalar: if version == 1 {
                                        head[0] == 0
                                    } else {
                                        head[2] == 0
                                    },
                                    is_null: version == 2 && head[2] == 2,
                                },
                                rest,
                            ),
                        ),
                    }
                },
            }
        },
    }
}

fn read_extents(c: &mut Cursor, rank: usize, limited: bool) -> (r: Result<
    (Vec<u64>, Vec<Option<u64>>),
    Error,
>)
    ensures
        final(c).data@ == old(c).data@,
        old(c).within() ==> final(c).within(),
        match (r, extents_taken(old(c).rest(), rank as nat, limited)) {
            (Ok((d, m)), Ok((dims, max, rest))) => d@ == dims && m@ == max && final(c).rest()
                == rest,
            (Err(e), Err(m)) => e@ == m,
            _ => false,
        },
        r matches Ok((d, m)) ==> d@.len() == rank && m@.len() == rank,
{
    let dims = read_numbers(c, 8, rank)?;
    let mut maxdims: Vec<Option<u64>> = Vec::new();
    let mut i: usize = 0;
    if limited {
        let max = read_numbers(c, 8, rank)?;
        assert(limits(max@).take(0) =~= Seq::empty());
        while i < rank
            invariant
                i <= rank == max@.len(),
                maxdims@ == limits(max@).take(i as int),
            decreases rank - i,
        {
            maxdims.push(
                if max[i] == UNDEF {
                    None
                } else {
                    Some(max[i])
                },
            );
            i += 1;
            assert(maxdims@ =~= limits(max@).take(i as int));
        }
        assert(limits(max@).take(rank as int) =~= limits(max@));
    } else {
        assert(own_limits(dims@).take(0) =~= Seq::empty());
        while i < rank
            invariant
                i <= rank == dims@.len(),
                maxdims@ == own_limits(dims@).take(i as int),
            decreases rank - i,
        {
            maxdims.push(Some(dims[i]));
            i += 1;
            assert(maxdims@ =~= own_limits(dims@).take(i as int));
        }
        assert(own_limits(dims@).take(rank as int) =~= own_limits(dims@));
    }
    Ok((dims, maxdims))
}

/// Reads a dataspace message.
pub fn parse_dataspace(c: &mut Cursor) -> (r: Result<Space, Error>)
    ensures
        final(c).data@ == old(c).data@,
        r is Ok ==> final(c).pos + final(c).rest().len() == final(c).data@.len(),
        match (r, dataspace_parsed(old(c).rest())) {
            (Ok(v), Ok((w, rest))) => v@ == w && final(c).rest() == rest,
            (Err(e), Err(m)) => e@ == m,
            _ => false,
        },
        r matches Ok(v) ==> v.dims@.len() <= 255 && v.maxdims@.len() == v.dims@.len(),
{
    let version: u64 = c.next_uint(1)?;
    if version != 1 && version != 2 {
        return Err(Error::from_text(with_number("unsupported dataspace version ", version)));
    }
    let head = c.next_bytes(
        if version == 1 {
            2
        } else {
            3
        },
    )?;
    if version == 1 {
        c.pass(5);
    }
    let (dims, maxdims) = read_extents(c, head[0] as usize, head[1] % 2 == 1)?;
    if version == 1 {
        Ok(Space { dims, maxdims, is_scalar: head[0] == 0, is_null: false })
    } else {
        Ok(Space { dims, maxdims, is_scalar: head[2] == 0, is_null: head[2] == 2 })
    }
}

/// How the chunks of a dataset are indexed.
#[derive(Clone, Copy, Debug, PartialEq, Eq, Structural)]
pub enum ChunkIndex {
    /// Version 1 B-tree.
    BtreeV1 { addr: u64 },
    /// A single chunk that covers the whole dataset.
    Single { addr: u64, filtered_size: Option<u32>, filter_mask: u32 },
    /// Unfiltered chunks one behind the other.
    Implicit { addr: u64 },
    /// Fixed array.
    FixedArray { header_addr: u64 },
    /// Extensible array.
    ExtArray { header_addr: u64 },
    /// Version 2 B-tree.
    BtreeV2 { header_addr: u64 },
}

/// Where the data of a dataset are.
#[derive(Debug)]
pub enum RawLayout {
    Compact(Vec<u8>),
    Contiguous { addr: u64, size: u64 },
    Chunked { index: ChunkIndex, chunk_dims: Vec<u64> },
    Virtual { gh_addr: u64, gh_idx: u32 },
}

/// The view of a [`RawLayout`].
pub enum LayoutView {
    Compact(Seq<u8>),
    Contiguous { addr: u64, size: u64 },
    Chunked { index: ChunkIndex, chunk_dims: Seq<u64> },
    Virtual { gh_addr: u64, gh_idx: u32 },
}

impl View for RawLayout {
    type V = LayoutView;

    open spec fn view(&self) -> LayoutView {
        match *self {
            RawLayout::Compact(b) => LayoutView::Compact(b@),
            RawLayout::Contiguous { addr, size } => LayoutView::Contiguous { addr, size },
            RawLayout::Chunked { index, chunk_dims } => LayoutView::Chunked {
                index,
                chunk_dims: chunk_dims@,
            },
            RawLayout::Virtual { gh_addr, gh_idx } => LayoutView::Virtual { gh_addr, gh_idx },
        }
    }
}

/// A layout that was read, and what follows it.
pub type LayoutTaken = Result<(LayoutView, Seq<u8>), Seq<char>>;

/// The bytes behind a length of `width` bytes, as a compact layout.
pub open spec fn compact_taken(s: Seq<u8>, width: nat) -> LayoutTaken {
    match taken_uint(s, width) {
        Err(e) => Err(e),
        Ok((n, r)) => match taken_bytes(r, n) {
            Err(e) => Err(e),
            Ok((b, r2)) => Ok((LayoutView::Compact(b), r2)),
        },
    }
}

/// An address and a size.
pub open spec fn contiguous_taken(s: Seq<u8>) -> LayoutTaken {
    match numbers_taken(s, 8, 2, Seq::empty()) {
        Err(e) => Err(e),
        Ok((v, r)) => Ok((LayoutView::Contiguous { addr: v[0], size: v[1] }, r)),
    }
}

/// An index address and chunk dimensions of 4 bytes.
pub open spec fn btree_chunks_taken(s: Seq<u8>, rank: nat) -> LayoutTaken {
    match taken_uint(s, 8) {
        Err(e) => Err(e),
        Ok((addr, r)) => match numbers_taken(r, 4, rank, Seq::empty()) {
            Err(e) => Err(e),
            Ok((chunk_dims, r2)) => Ok(
                (
                    LayoutView::Chunked {
                        index: ChunkIndex::BtreeV1 { addr: addr as u64 },
                        chunk_dims,
                    },
                    r2,
                ),
            ),
        },
    }
}

/// A layout of version 1 or 2.
pub open spec fn early_layout(s: Seq<u8>) -> LayoutTaken {
    match taken_bytes(s, 2) {
        Err(e) => Err(e),
        Ok((head, r)) => {
            let rank = head[0] as nat;
            let body = dropped(r, 5);
            if head[1] == 0 {
                match numbers_taken(body, 4, rank, Seq::empty()) {
                    Err(e) => Err(e),
                    Ok((v, r2)) => compact_taken(r2, 4),
                }
            } else if head[1] == 1 {
                match taken_uint(body, 8) {
                    Err(e) => Err(e),
                    Ok((addr, r2)) => match numbers_taken(r2, 4, rank, Seq::empty()) {
                        Err(e) => Err(e),
                        Ok((v, r3)) => Ok(
                            (LayoutView::Contiguous { addr: addr as u64, size: u64::MAX }, r3),
                        ),
                    },
                }
            } else if head[1] == 2 {
                btree_chunks_taken(body, rank)
            } else {
                Err("unknown layout class"@)
            }
        },
    }
}

/// A layout of version 3.
pub open spec fn middle_layout(s: Seq<u8>) -> LayoutTaken {
    match taken_uint(s, 1) {
        Err(e) => Err(e),
        Ok((class, r)) => if class == 0 {
            compact_taken(r, 2)
        } else if class == 1 {
            contiguous_taken(r)
        } else if class == 2 {
            match taken_uint(r, 1) {
                Err(e) => Err(e),
                Ok((n, r2)) => btree_chunks_taken(r2, n),
            }
        } else {
            Err("unknown layout class"@)
        },
    }
}

/// The index of a chunked layout. A filtered single chunk has its stored size and its
/// filter mask before the address.
pub open spec fn index_taken(s: Seq<u8>, flags: u8) -> Result<(ChunkIndex, Seq<u8>), Seq<char>> {
    match taken_uint(s, 1) {
        Err(e) => Err(e),
        Ok((kind, r)) => if kind == 1 {
            if flags / 2 % 2 == 1 {
                match taken_bytes(r, 20) {
                    Err(e) => Err(e),
                    Ok((b, r2)) => Ok(
                        (
                            ChunkIndex::Single {
                                addr: le_at(b, 12, 8) as u64,
                                filtered_size: Some((le_at(b, 0, 8) % 0x1_0000_0000) as u32),
                                filter_mask: le_at(b, 8, 4) as u32,
                            },
                            r2,
                        ),
                    ),
                }
            } else {
                match taken_uint(r, 8) {
                    Err(e) => Err(e),
                    Ok((addr, r2)) => Ok(
                        (
                            ChunkIndex::Single {
                                addr: addr as u64,
                                filtered_size: None,
                                filter_mask: 0,
                            },
                            r2,
                        ),
                    ),
                }
            }
        } else if 2 <= kind <= 5 {
            let skipped = if kind == 2 {
                0int
            } else if kind == 3 {
                1
            } else if kind == 4 {
                5
            } else {
                6
            };
            match taken_uint(dropped(r, skipped), 8) {
                Err(e) => Err(e),
                Ok((a, r2)) => Ok(
                    (
                        if kind == 2 {
                            ChunkIndex::Implicit { addr: a as u64 }
                        } else if kind == 3 {
                            ChunkIndex::FixedArray { header_addr: a as u64 }
                        } else if kind == 4 {
                            ChunkIndex::ExtArray { header_addr: a as u64 }
                        } else {
                            ChunkIndex::BtreeV2 { header_addr: a as u64 }
                        },
                        r2,
                    ),
                ),
            }
        } else {
            Err("unknown chunk index type "@ + decimal(kind))
        },
    }
}

/// A layout of version 4 or 5.
pub open spec fn late_layout(s: Seq<u8>) -> LayoutTaken {
    match taken_uint(s, 1) {
        Err(e) => Err(e),
        Ok((class, r)) => if class == 0 {
            compact_taken(r, 2)
        } else if class == 1 {
            contiguous_taken(r)
        } else if class == 2 {
            match taken_bytes(r, 3) {
                Err(e) => Err(e),
                Ok((head, r2)) => match numbers_taken(
                    r2,
                    head[2] as nat,
                    head[1] as nat,
                    Seq::empty(),
                ) {
                    Err(e) => Err(e),
                    Ok((chunk_dims, r3)) => match index_taken(r3, head[0]) {
                        Err(e) => Err(e),
                        Ok((index, r4)) => Ok((LayoutView::Chunked { index, chunk_dims }, r4)),
                    },
                },
            }
        } else if class == 3 {
            match taken_bytes(r, 12) {
                Err(e) => Err(e),
                Ok((b, r2)) => Ok(
                    (
                        LayoutView::Virtual {
                            gh_addr: le_at(b, 0, 8) as u64,
                            gh_idx: le_at(b, 8, 4) as u32,
                        },
                        r2,
                    ),
                ),
            }
        } else {
            Err("unknown layout class"@)
        },
    }
}

/// The layout message that `s` starts with, and what follows it.
pub open spec fn layout_taken(s: Seq<u8>) -> LayoutTaken {
    match taken_uint(s, 1) {
        Err(e) => Err(e),
        Ok((version, r)) => if version == 1 || version == 2 {
            early_layout(r)
        } else if version == 3 {
            middle_layout(r)
        } else if version == 4 || version == 5 {
            late_layout(r)
        } else {
            Err("unsupported layout version "@ + decimal(version))
        },
    }
}

/// The layout message that `s` starts with.
pub open spec fn layout_parsed(s: Seq<u8>) -> Result<LayoutView, Seq<char>> {
    match layout_taken(s) {
        Err(e) => Err(e),
        Ok((layout, r)) => Ok(layout),
    }
}

/// Whether a layout was read as `s` says, with `after` still to be read.
pub open spec fn layout_read_as(r: Result<RawLayout, Error>, after: Seq<u8>, s: LayoutTaken) -> bool {
    match (r, s) {
        (Ok(v), Ok((w, rest))) => v@ == w && after == rest,
        (Err(e), Err(m)) => e@ == m,
        _ => false,
    }
}

fn read_compact(c: &mut Cursor, width: usize) -> (r: Result<RawLayout, Error>)
    requires
        width == 2 || width == 4,
    ensures
        final(c).data@ == old(c).data@,
        old(c).within() ==> final(c).within(),
        layout_read_as(r, final(c).rest(), compact_taken(old(c).rest(), width as nat)),
{
    let ghost s = c.rest();
    let n: u64 = c.next_uint(width)?;
    proof {
        crate::format::lemma_le_bound(s.take(width as int));
        reveal_with_fuel(crate::format::pow256, 5);
    }
    let b = c.next_bytes(n as usize)?;
    Ok(RawLayout::Compact(vstd::slice::slice_to_vec(b)))
}

fn read_contiguous(c: &mut Cursor) -> (r: Result<RawLayout, Error>)
    ensures
        final(c).data@ == old(c).data@,
        old(c).within() ==> final(c).within(),
        layout_read_as(r, final(c).rest(), contiguous_taken(old(c).rest())),
{
    let v = read_numbers(c, 8, 2)?;
    Ok(RawLayout::Contiguous { addr: v[0], size: v[1] })
}

fn read_btree_chunks(c: &mut Cursor, rank: usize) -> (r: Result<RawLayout, Error>)
    ensures
        final(c).data@ == old(c).data@,
        old(c).within() ==> final(c).within(),
        layout_read_as(r, final(c).rest(), btree_chunks_taken(old(c).rest(), rank as nat)),
{
    let addr: u64 = c.next_uint(8)?;
    let chunk_dims = read_numbers(c, 4, rank)?;
    Ok(RawLayout::Chunked { index: ChunkIndex::BtreeV1 { addr }, chunk_dims })
}

fn parse_early_layout(c: &mut Cursor) -> (r: Result<RawLayout, Error>)
    ensures
        final(c).data@ == old(c).data@,
        old(c).within() ==> final(c).within(),
        layout_read_as(r, final(c).rest(), early_layout(old(c).rest())),
{
    let head = c.next_bytes(2)?;
    let rank: usize = head[0] as usize;
    c.pass(5);
    if head[1] == 0 {
        let _dims = read_numbers(c, 4, rank)?;
        read_compact(c, 4)
    } else if head[1] == 1 {
        let addr: u64 = c.next_uint(8)?;
        let _dims = read_numbers(c, 4, rank)?;
        Ok(RawLayout::Contiguous { addr, size: u64::MAX })
    } else if head[1] == 2 {
        read_btree_chunks(c, rank)
    } else {
        Err(Error::new("unknown layout class"))
    }
}

fn parse_middle_layout(c: &mut Cursor) -> (r: Result<RawLayout, Error>)
    ensures
        final(c).data@ == old(c).data@,
        old(c).within() ==> final(c).within(),
        layout_read_as(r, final(c).rest(), middle_layout(old(c).rest())),
{
    let class: u64 = c.next_uint(1)?;
    if class == 0 {
        read_compact(c, 2)
    } else if class == 1 {
        read_contiguous(c)
    } else if class == 2 {
        let ghost s = c.rest();
        let n: u64 = c.next_uint(1)?;
        proof {
            crate::format::lemma_le_bound(s.take(1));
            reveal_with_fuel(crate::format::pow256, 2);
        }
        read_btree_chunks(c, n as usize)
    } else {
        Err(Error::new("unknown layout class"))
    }
}

fn parse_index(c: &mut Cursor, flags: u8) -> (r: Result<ChunkIndex, Error>)
    ensures
        final(c).data@ == old(c).data@,
        old(c).within() ==> final(c).within(),
        match (r, index_taken(old(c).rest(), flags)) {
            (Ok(v), Ok((w, rest))) => v == w && final(c).rest() == rest,
            (Err(e), Err(m)) => e@ == m,
            _ => false,
        },
{
    let kind: u64 = c.next_uint(1)?;
    if kind == 1 {
        if flags / 2 % 2 == 1 {
            let b = c.next_bytes(20)?;
            let size: u64 = uint_of(vstd::slice::slice_subrange(b, 0, 8));
            let mask: u64 = uint_of(vstd::slice::slice_subrange(b, 8, 12));
            let addr: u64 = uint_of(vstd::slice::slice_subrange(b, 12, 20));
            proof {
                crate::format::lemma_le_bound(b@.subrange(8, 12));
                reveal_with_fuel(crate::format::pow256, 5);
            }
            Ok(
                ChunkIndex::Single {
                    addr,
                    filtered_size: Some((size % 0x1_0000_0000) as u32),
                    filter_mask: mask as u32,
                },
            )
        } else {
            let addr: u64 = c.next_uint(8)?;
            Ok(ChunkIndex::Single { addr, filtered_size: None, filter_mask: 0 })
        }
    } else if kind >= 2 && kind <= 5 {
        let skipped: usize = if kind == 2 {
            0
        } else if kind == 3 {
            1
        } else if kind == 4 {
            5
        } else {
            6
        };
        c.pass(skipped);
        let a: u64 = c.next_uint(8)?;
        if kind == 2 {
            Ok(ChunkIndex::Implicit { addr: a })
        } else if kind == 3 {
            Ok(ChunkIndex::FixedArray { header_addr: a })
        } else if kind == 4 {
            Ok(ChunkIndex::ExtArray { header_addr: a })
        } else {
            Ok(ChunkIndex::BtreeV2 { header_addr: a })
        }
    } else {
        Err(Error::from_text(with_number("unknown chunk index type ", kind)))
    }
}

fn parse_late_layout(c: &mut Cursor) -> (r: Result<RawLayout, Error>)
    ensures
        final(c).data@ == old(c).data@,
        old(c).within() ==> final(c).within(),
        layout_read_as(r, final(c).rest(), late_layout(old(c).rest())),
{
    let class: u64 = c.next_uint(1)?;
    if class == 0 {
        read_compact(c, 2)
    } else if class == 1 {
        read_contiguous(c)
    } else if class == 2 {
        let head = c.next_bytes(3)?;
        let chunk_dims = read_numbers(c, head[2] as usize, head[1] as usize)?;
        let index = parse_index(c, head[0])?;
        Ok(RawLayout::Chunked { index, chunk_dims })
    } else if class == 3 {
        let b = c.next_bytes(12)?;
        let gh_addr: u64 = uint_of(vstd::slice::slice_subrange(b, 0, 8));
        let idx: u64 = uint_of(vstd::slice::slice_subrange(b, 8, 12));
        proof {
            crate::format::lemma_le_bound(b@.subrange(8, 12));
            reveal_with_fuel(crate::format::pow256, 5);
        }
        Ok(RawLayout::Virtual { gh_addr, gh_idx: idx as u32 })
    } else {
        Err(Error::new("unknown layout class"))
    }
}

/// Reads a layout message.
pub fn parse_layout(c: &mut Cursor) -> (r: Result<RawLayout, Error>)
    ensures
        final(c).data@ == old(c).data@,
        layout_read_as(r, final(c).rest(), layout_taken(old(c).rest())),
        r is Ok ==> final(c).pos + final(c).rest().len() == final(c).data@.len(),
{
    let version: u64 = c.next_uint(1)?;
    if version == 1 || version == 2 {
        parse_early_layout(c)
    } else if version == 3 {
        parse_middle_layout(c)
    } else if version == 4 || version == 5 {
        parse_late_layout(c)
    } else {
        Err(Error::from_text(with_number("unsupported layout version ", version)))
    }
}

/// Numbers of 4 bytes.
pub open spec fn words_of(v: Seq<u64>) -> Seq<u32> {
    v.map_values(|x: u64| x as u32)
}

/// The head of a filter: its id, the length of its name and the number of its
/// client-data words. Only version 1 and registered filters have a name.
pub open spec fn filter_head(s: Seq<u8>, version: nat) -> Result<
    (nat, nat, nat, Seq<u8>),
    Seq<char>,
> {
    match taken_uint(s, 2) {
        Err(e) => Err(e),
        Ok((id, r)) => {
            let named = if version == 1 || id >= 256 {
                taken_uint(r, 2)
            } else {
                Ok((0, r))
            };
            match named {
                Err(e) => Err(e),
                Ok((len, r2)) => match taken_bytes(r2, 4) {
                    Err(e) => Err(e),
                    Ok((b, r3)) => Ok((id, len, le_at(b, 2, 2), r3)),
                },
            }
        },
    }
}

/// One filter of a pipeline, and what follows it.
pub open spec fn filter_taken(s: Seq<u8>, version: nat) -> Result<(FilterView, Seq<u8>), Seq<char>> {
    match filter_head(s, version) {
        Err(e) => Err(e),
        Ok((id, len, n, r)) => match taken_bytes(r, len) {
            Err(e) => Err(e),
            Ok((name, r2)) => match numbers_taken(r2, 4, n, Seq::empty()) {
                Err(e) => Err(e),
                Ok((v, r3)) => Ok(
                    (
                        FilterView {
                            id: id as u16,
                            cdata: words_of(v),
                            name: if len > 0 {
                                c_text(name)
                            } else {
                                Seq::empty()
                            },
                        },
                        if version == 1 && n % 2 == 1 {
                            dropped(r3, 4)
                        } else {
                            r3
                        },
                    ),
                ),
            },
        },
    }
}

pub open spec fn filters_taken(s: Seq<u8>, version: nat, n: nat, acc: Seq<FilterView>) -> Result<
    (Seq<FilterView>, Seq<u8>),
    Seq<char>,
>
    decreases n,
{
    if n == 0 {
        Ok((acc, s))
    } else {
        match filter_taken(s, version) {
            Err(e) => Err(e),
            Ok((f, r)) => filters_taken(r, version, (n - 1) as nat, acc.push(f)),
        }
    }
}

/// The filter pipeline message that starts with `s`, and what follows it.
pub open spec fn pipeline_parsed(s: Seq<u8>) -> Result<(Seq<FilterView>, Seq<u8>), Seq<char>> {
    match taken_bytes(s, 2) {
        Err(e) => Err(e),
        Ok((head, r)) => filters_taken(
            if head[0] == 1 {
                dropped(r, 6)
            } else {
                r
            },
            head[0] as nat,
            head[1] as nat,
            Seq::empty(),
        ),
    }
}

fn parse_filter(c: &mut Cursor, version: u8) -> (r: Result<RawFilter, Error>)
    ensures
        final(c).data@ == old(c).data@,
        old(c).within() ==> final(c).within(),
        match (r, filter_taken(old(c).rest(), version as nat)) {
            (Ok(v), Ok((w, rest))) => v@ == w && final(c).rest() == rest,
            (Err(e), Err(m)) => e@ == m,
            _ => false,
        },
{
    let ghost s = c.rest();
    let id: u64 = c.next_uint(2)?;
    let ghost r1 = c.rest();
    let len: u64 = if version == 1 || id >= 256 {
        c.next_uint(2)?
    } else {
        0
    };
    let b = c.next_bytes(4)?;
    let n: u64 = uint_of(vstd::slice::slice_subrange(b, 2, 4));
    proof {
        crate::format::lemma_le_bound(s.take(2));
        crate::format::lemma_le_bound(r1.take(2));
        crate::format::lemma_le_bound(b@.subrange(2, 4));
        reveal_with_fuel(crate::format::pow256, 3);
    }
    let raw = c.next_bytes(len as usize)?;
    let name = if len > 0 {
        cstr(raw)
    } else {
        String::new()
    };
    let words = read_numbers(c, 4, n as usize)?;
    let mut cdata: Vec<u32> = Vec::new();
    let mut i: usize = 0;
    let count: usize = words.len();
    assert(words_of(words@).take(0) =~= Seq::empty());
    while i < count
        invariant
            i <= count == words@.len(),
            cdata@ == words_of(words@).take(i as int),
        decreases count - i,
    {
        cdata.push(words[i] as u32);
        i += 1;
        assert(cdata@ =~= words_of(words@).take(i as int));
    }
    assert(words_of(words@).take(count as int) =~= words_of(words@));
    if version == 1 && n % 2 == 1 {
        c.pass(4);
    }
    let f = RawFilter { id: id as u16, cdata, name };
    proof {
        let w = filter_taken(s, version as nat)->Ok_0.0;
        assert(f@.name =~= w.name);
    }
    Ok(f)
}

/// Reads a filter pipeline message.
pub fn parse_filter_pipeline(c: &mut Cursor) -> (r: Result<Vec<RawFilter>, Error>)
    ensures
        final(c).data@ == old(c).data@,
        r is Ok ==> final(c).pos + final(c).rest().len() == final(c).data@.len(),
        match (r, pipeline_parsed(old(c).rest())) {
            (Ok(v), Ok((w, rest))) => filter_views(v@) == w && final(c).rest() == rest,
            (Err(e), Err(m)) => e@ == m,
            _ => false,
        },
        r matches Ok(v) ==> v@.len() <= 255,
{
    let ghost whole = pipeline_parsed(c.rest());
    let head = c.next_bytes(2)?;
    let (version, n): (u8, u8) = (head[0], head[1]);
    if version == 1 {
        c.pass(6);
    }
    let mut out: Vec<RawFilter> = Vec::new();
    let mut i: u8 = 0;
    assert(filter_views(out@) =~= Seq::empty());
    while i < n
        invariant
            i <= n,
            out@.len() == i,
            c.data@ == old(c).data@,
            old(c).within() ==> c.within(),
            whole == pipeline_parsed(old(c).rest()),
            whole == filters_taken(
                c.rest(),
                version as nat,
                (n - i) as nat,
                filter_views(out@),
            ),
        decreases n - i,
    {
        let ghost before = out@;
        let f = parse_filter(c, version)?;
        out.push(f);
        assert(filter_views(out@) =~= filter_views(before).push(f@));
        i += 1;
    }
    Ok(out)
}

} // verus!
