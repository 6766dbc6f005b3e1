//! Fractal heaps: objects in direct blocks, which a doubling table of indirect
//! blocks refers to.

use vstd::prelude::*;

use crate::error::{same_bytes, Error};
use crate::format::bits::{
    lemma_pow2_monotone, lemma_pow2_positive, lemma_pow2_sum, lemma_pow2_values, pow2,
};
use crate::format::filters::{
    clone_filters, filter_views, pipeline_back, reverse_from, reverse_masked, FilterView, RawFilter,
    Reversed, ReversedView,
};
use crate::format::gheap::{cursor_at, is_signature, rest_at};
use crate::format::messages::{parse_filter_pipeline, pipeline_parsed};
use crate::format::scaleoffset::{FloatBlock, Unscaled, UnscaledView};
use crate::format::v2::{
    btree_read, field, lemma_field_bound, lemma_log2, lemma_log2_bound, lemma_one_byte,
    lemma_tail_fields, lemma_trailing, limit_enc_size, limit_width, log2_floor, log2_gen, log2_of2,
    power2, read_v2btree, record_views, trailing,
};
use crate::format::{dropped, eof_text, le_at, taken_bytes, taken_sized, taken_uint, Cursor, UNDEF};
use crate::text::{decimal, with_number};

verus! {

// The doubling table: its first two rows hold blocks of `2^a` bytes, each further row
// blocks of twice the size; a row has `2^b` blocks.

/// The size of the blocks of a row.
pub open spec fn row_size(a: nat, row: nat) -> nat {
    if row == 0 {
        pow2(a)
    } else {
        pow2((a + row - 1) as nat)
    }
}

/// The size of the rows before `row`.
pub open spec fn rows_before(a: nat, b: nat, row: nat) -> nat
    decreases row,
{
    if row == 0 {
        0
    } else {
        rows_before(a, b, (row - 1) as nat) + row_size(a, (row - 1) as nat) * pow2(b)
    }
}

/// The offset of a block from the start of its table.
pub open spec fn block_offset(a: nat, b: nat, row: nat, col: nat) -> nat {
    rows_before(a, b, row) + row_size(a, row) * col
}

/// The row and column of the block with the offset `off`.
pub open spec fn table_place(a: nat, b: nat, off: nat) -> (nat, nat) {
    if off < pow2(a + b) {
        (0, off / pow2(a))
    } else {
        let h = log2_floor(off);
        ((h - (a + b) + 1) as nat, ((off - pow2(h)) / pow2((h - b) as nat) as int) as nat)
    }
}

pub proof fn lemma_rows_before(a: nat, b: nat, row: nat)
    ensures
        row == 0 ==> rows_before(a, b, row) == 0,
        row >= 1 ==> rows_before(a, b, row) == pow2((a + b + row - 1) as nat),
    decreases row,
{
    if row >= 1 {
        lemma_rows_before(a, b, (row - 1) as nat);
        if row == 1 {
            lemma_pow2_sum(a, b);
        } else {
            lemma_pow2_sum((a + row - 2) as nat, b);
            assert(a + row - 2 + b == a + b + row - 2);
            reveal_with_fuel(pow2, 2);
        }
    }
}

/// The block that the table gives for an offset holds it: the offset is not before
/// the block and not behind its end.
pub proof fn law_block_holds_offset(a: nat, b: nat, off: nat)
    ensures
        table_place(a, b, off).1 < pow2(b),
        block_offset(a, b, table_place(a, b, off).0, table_place(a, b, off).1) <= off,
        off < block_offset(a, b, table_place(a, b, off).0, table_place(a, b, off).1) + row_size(
            a,
            table_place(a, b, off).0,
        ),
        off >= pow2(a + b) ==> log2_floor(off) >= a + b,
{
    let (row, col) = table_place(a, b, off);
    lemma_rows_before(a, b, row);
    if off < pow2(a + b) {
        lemma_pow2_sum(a, b);
        lemma_pow2_positive(a);
        let (s, w) = (pow2(a), pow2(b));
        assert(s * (off / s) <= off < s * (off / s) + s && off / s < w) by (nonlinear_arith)
            requires
                s > 0,
                off < s * w,
        ;
    } else {
        lemma_pow2_positive(a + b);
        lemma_log2(off);
        let h = log2_floor(off);
        if h < a + b {
            lemma_pow2_monotone(h + 1, a + b);
        }
        assert(a + b + row - 1 == h);
        assert(row_size(a, row) == pow2((h - b) as nat));
        lemma_pow2_sum((h - b) as nat, b);
        lemma_pow2_positive((h - b) as nat);
        reveal_with_fuel(pow2, 2);
        let (s, w) = (pow2((h - b) as nat) as int, pow2(b) as int);
        let x = off - pow2(h);
        assert(s * (x / s) <= x < s * (x / s) + s && 0 <= x / s < w) by (nonlinear_arith)
            requires
                s > 0,
                0 <= x < s * w,
        ;
    }
}

/// What a heap header says.
pub struct HeapInfo {
    pub id_len: nat,
    pub width: nat,
    pub start: nat,
    pub max_direct: nat,
    pub root: u64,
    pub cur_rows: nat,
    pub off_size: nat,
    pub len_size: nat,
    pub stored: nat,
    pub mask: u32,
    pub filters: Seq<FilterView>,
    pub huge_addr: u64,
    /// The bytes of direct blocks whose floating-point elements were scaled back, by
    /// the addresses of the blocks.
    pub given: Seq<(u64, Seq<u8>)>,
}

impl HeapInfo {
    /// Whether sizes and width are powers of two, as a doubling table needs.
    pub open spec fn doubling(self) -> bool {
        &&& self.start > 0 && self.start == pow2(trailing(self.start))
        &&& self.width > 0 && self.width == pow2(trailing(self.width))
        &&& self.max_direct > 0 && self.max_direct == pow2(trailing(self.max_direct))
        &&& self.start <= self.max_direct
    }

    /// The number of rows that hold direct blocks.
    pub open spec fn direct_rows(self) -> nat {
        (trailing(self.max_direct) - trailing(self.start) + 2) as nat
    }

    /// The size of a reference to a direct block.
    pub open spec fn stride(self) -> nat {
        if self.filters.len() == 0 {
            8
        } else {
            20
        }
    }

    /// Whether the identifiers of huge objects give their places.
    pub open spec fn huge_direct(self) -> bool {
        self.id_len >= 17
    }

    /// The width of the identifiers of huge objects otherwise.
    pub open spec fn huge_size(self) -> nat {
        if self.id_len == 0 {
            0
        } else if self.id_len - 1 < 8 {
            (self.id_len - 1) as nat
        } else {
            8
        }
    }
}

/// The heap header that starts with `s`.
pub open spec fn heap_parsed(s: Seq<u8>) -> Result<HeapInfo, Seq<char>> {
    if s.len() < 4 {
        Err(eof_text())
    } else if s.take(4) != seq![70u8, 82u8, 72u8, 80u8] {
        Err("bad FRHP signature"@)
    } else if s.len() < 5 {
        Err(eof_text())
    } else if s[4] != 0 {
        Err("unsupported fractal heap version "@ + decimal(s[4] as nat))
    } else if s.len() < 142 {
        Err(eof_text())
    } else {
        let max_direct = le_at(s, 120, 8);
        let by_block = limit_width(max_direct);
        let by_object = limit_width(le_at(s, 10, 4));
        let info = HeapInfo {
            id_len: le_at(s, 5, 2),
            width: le_at(s, 110, 2),
            start: le_at(s, 112, 8),
            max_direct,
            root: le_at(s, 132, 8) as u64,
            cur_rows: le_at(s, 140, 2),
            off_size: (le_at(s, 128, 2) + 7) / 8,
            len_size: if by_block < by_object {
                by_block
            } else {
                by_object
            },
            stored: 0,
            mask: 0,
            filters: Seq::empty(),
            huge_addr: le_at(s, 22, 8) as u64,
            given: Seq::empty(),
        };
        if le_at(s, 7, 2) == 0 {
            Ok(info)
        } else if s.len() < 154 {
            Err(eof_text())
        } else {
            match pipeline_parsed(s.skip(154)) {
                Err(e) => Err(e),
                Ok((filters, rest)) => Ok(
                    HeapInfo {
                        stored: le_at(s, 142, 8),
                        mask: le_at(s, 150, 4) as u32,
                        filters,
                        ..info
                    },
                ),
            }
        }
    }
}

/// A direct block: its place, its offset in the heap, and for filtered heaps its
/// stored size and the mask of the filters that were skipped.
pub struct BlockView {
    pub addr: u64,
    pub off: nat,
    pub stored: nat,
    pub mask: u32,
}

/// The direct block that holds the offset `off`, from the indirect block at `addr` on,
/// which has `nrows` rows.
pub open spec fn located(
    data: Seq<u8>,
    base: u64,
    h: HeapInfo,
    addr: u64,
    nrows: nat,
    off: nat,
) -> Result<BlockView, Seq<char>>
    decreases nrows,
{
    match taken_bytes(rest_at(data, base + addr), 4) {
        Err(e) => Err(e),
        Ok((sig, r)) => if sig != seq![70u8, 72u8, 73u8, 66u8] {
            Err("bad FHIB signature"@)
        } else {
            match taken_bytes(r, 9) {
                Err(e) => Err(e),
                Ok((head, r2)) => match taken_sized(r2, h.off_size) {
                    Err(e) => Err(e),
                    Ok((block_off, entries)) => if off < block_off {
                        Err("fractal heap offset before its block"@)
                    } else {
                        let (a, b) = (trailing(h.start), trailing(h.width));
                        let (row, col) = table_place(a, b, (off - block_off) as nat);
                        let entry = row * h.width + col;
                        let ndirect = h.direct_rows() * h.width;
                        if row >= nrows {
                            Err("fractal heap offset beyond indirect block rows"@)
                        } else if row < h.direct_rows() {
                            match taken_bytes(
                                dropped(entries, (entry * h.stride()) as int),
                                h.stride(),
                            ) {
                                Err(e) => Err(e),
                                Ok((e, rest)) => if le_at(e, 0, 8) == UNDEF {
                                    Err("fractal heap direct block not allocated"@)
                                } else {
                                    Ok(
                                        BlockView {
                                            addr: le_at(e, 0, 8) as u64,
                                            off: block_off + block_offset(a, b, row, col),
                                            stored: if h.filters.len() == 0 {
                                                0
                                            } else {
                                                le_at(e, 8, 8)
                                            },
                                            mask: if h.filters.len() == 0 {
                                                0
                                            } else {
                                                le_at(e, 16, 4) as u32
                                            },
                                        },
                                    )
                                },
                            }
                        } else {
                            match taken_uint(
                                dropped(entries, ndirect * h.stride() + (entry - ndirect) * 8),
                                8,
                            ) {
                                Err(e) => Err(e),
                                Ok((child, rest)) => if child == UNDEF {
                                    Err("fractal heap indirect block not allocated"@)
                                } else if row <= b {
                                    Err("bad fractal heap geometry"@)
                                } else {
                                    located(data, base, h, child as u64, (row - b) as nat, off)
                                },
                            }
                        }
                    },
                },
            }
        },
    }
}

/// The direct block that holds the offset `off`.
pub open spec fn block_of(data: Seq<u8>, base: u64, h: HeapInfo, off: nat) -> Result<
    BlockView,
    Seq<char>,
> {
    if h.cur_rows == 0 {
        Ok(BlockView { addr: h.root, off: 0, stored: h.stored, mask: h.mask })
    } else if !h.doubling() {
        Err("bad fractal heap geometry"@)
    } else {
        located(data, base, h, h.root, h.cur_rows, off)
    }
}

/// `len` bytes from `start` on.
pub open spec fn part(s: Seq<u8>, start: int, len: int, error: Seq<char>) -> Result<
    Seq<u8>,
    Seq<char>,
> {
    if start + len > s.len() {
        Err(error)
    } else {
        Ok(s.subrange(start, start + len))
    }
}

/// The bytes that are given for the direct block at `addr`.
pub open spec fn block_given(given: Seq<(u64, Seq<u8>)>, addr: u64) -> Option<Seq<u8>>
    decreases given.len(),
{
    if given.len() == 0 {
        None
    } else if given[0].0 == addr {
        Some(given[0].1)
    } else {
        block_given(given.skip(1), addr)
    }
}

/// The bytes of a filtered direct block. Where its filters stop at floating-point
/// elements, they are those given for it.
pub open spec fn block_bytes(data: Seq<u8>, base: u64, h: HeapInfo, block: BlockView) -> Result<
    Seq<u8>,
    Seq<char>,
> {
    match part(
        data,
        base + block.addr,
        block.stored as int,
        "fractal heap block out of bounds"@,
    ) {
        Err(e) => Err(e),
        Ok(s) => if h.filters.len() > 32 {
            Err("too many filters"@)
        } else {
            match pipeline_back(h.filters, h.filters.len() as int, 1, s, block.mask) {
                Err(e) => Err(e),
                Ok(ReversedView::Bytes(b)) => Ok(b),
                Ok(ReversedView::Float { .. }) => match block_given(h.given, block.addr) {
                    Some(b) => Ok(b),
                    None => Err("floating-point scaling of a fractal heap block"@),
                },
            }
        },
    }
}

/// The managed object with `len` bytes from the offset `off` on.
pub open spec fn managed(data: Seq<u8>, base: u64, h: HeapInfo, off: nat, len: nat) -> Result<
    Seq<u8>,
    Seq<char>,
> {
    match block_of(data, base, h, off) {
        Err(e) => Err(e),
        Ok(block) => if h.filters.len() == 0 {
            part(
                data,
                base + block.addr + (off - block.off),
                len as int,
                "fractal heap object out of bounds"@,
            )
        } else {
            match block_bytes(data, base, h, block) {
                Err(e) => Err(e),
                Ok(b) => part(b, off - block.off, len as int, "fractal heap object out of bounds"@),
            }
        },
    }
}

/// The place and size of the huge object with an identifier, from the record `i` on.
pub open spec fn huge_found(records: Seq<Seq<u8>>, i: int, id: nat) -> Result<
    (nat, nat),
    Seq<char>,
>
    decreases records.len() - i,
{
    if i < 0 || i >= records.len() {
        Err("huge object id not found in btree"@)
    } else if records[i].len() < 24 {
        Err(eof_text())
    } else if le_at(records[i], 16, 8) == id {
        Ok((le_at(records[i], 0, 8), le_at(records[i], 8, 8)))
    } else {
        huge_found(records, i + 1, id)
    }
}

/// The place and size of the huge object that the identifier behind the first byte
/// names.
pub open spec fn huge_place(data: Seq<u8>, base: u64, h: HeapInfo, rest: Seq<u8>) -> Result<
    (nat, nat),
    Seq<char>,
> {
    if h.huge_direct() {
        match taken_bytes(rest, 16) {
            Err(e) => Err(e),
            Ok((b, r)) => Ok((le_at(b, 0, 8), le_at(b, 8, 8))),
        }
    } else {
        match taken_sized(rest, h.huge_size()) {
            Err(e) => Err(e),
            Ok((id, r)) => if h.huge_addr == UNDEF {
                Err("huge object btree missing"@)
            } else {
                match btree_read(data, base, h.huge_addr) {
                    Err(e) => Err(e),
                    Ok((kind, records)) => if kind != 1 {
                        Err("unsupported huge-object btree type "@ + decimal(kind as nat))
                    } else {
                        huge_found(records, 0, id)
                    },
                }
            },
        }
    }
}

/// The object with an identifier.
pub open spec fn heap_item(data: Seq<u8>, base: u64, h: HeapInfo, id: Seq<u8>) -> Result<
    Seq<u8>,
    Seq<char>,
> {
    if id.len() == 0 {
        Err("empty heap id"@)
    } else {
        let kind = id[0] as nat / 16 % 4;
        let rest = id.skip(1);
        if kind == 0 {
            match taken_sized(rest, h.off_size) {
                Err(e) => Err(e),
                Ok((off, r)) => match taken_sized(r, h.len_size) {
                    Err(e) => Err(e),
                    Ok((len, r2)) => managed(data, base, h, off, len),
                },
            }
        } else if kind == 2 {
            part(id, 1, id[0] % 16 + 1, "tiny heap object exceeds id length"@)
        } else if kind == 1 {
            match huge_place(data, base, h, rest) {
                Err(e) => Err(e),
                Ok((addr, len)) => part(
                    data,
                    (base + addr) as int,
                    len as int,
                    "huge object out of bounds"@,
                ),
            }
        } else {
            Err("unknown fractal heap id type"@)
        }
    }
}

/// A direct block whose floating-point elements have to be scaled back before an object
/// can be read from it: the elements go on through the filters before `next`.
#[derive(Debug)]
pub struct HeapFloat {
    pub addr: u64,
    pub mask: u32,
    pub filters: Vec<RawFilter>,
    pub next: usize,
    pub block: FloatBlock,
}

/// The view of a [`HeapFloat`].
pub struct HeapFloatView {
    pub addr: u64,
    pub mask: u32,
    pub filters: Seq<FilterView>,
    pub next: int,
    pub block: UnscaledView,
}

impl View for HeapFloat {
    type V = HeapFloatView;

    open spec fn view(&self) -> HeapFloatView {
        HeapFloatView {
            addr: self.addr,
            mask: self.mask,
            filters: filter_views(self.filters@),
            next: self.next as int,
            block: Unscaled::Float(self.block)@,
        }
    }
}

/// What the scaled elements of a heap block become: the bytes of the block, or elements
/// that have to be scaled again.
pub open spec fn block_resumed(w: HeapFloatView, scaled: Seq<u8>) -> Result<
    ReversedView,
    Seq<char>,
> {
    if w.next > w.filters.len() || w.next > 32 {
        Err("too many filters"@)
    } else {
        pipeline_back(w.filters, w.next, 1, scaled, w.mask)
    }
}

/// How far a heap block was read.
#[derive(Debug)]
pub enum HeapStep {
    /// Its bytes.
    Done(Vec<u8>),
    /// Elements that have to be scaled again.
    Float(HeapFloat),
}

impl HeapFloat {
    /// Goes on with the scaled elements of the block.
    pub fn resume(self, scaled: &[u8]) -> (r: Result<HeapStep, Error>)
        ensures
            match (r, block_resumed(self@, scaled@)) {
                (Ok(HeapStep::Done(v)), Ok(ReversedView::Bytes(b))) => v@ == b,
                (Ok(HeapStep::Float(w)), Ok(ReversedView::Float { next, block })) => w@ == (
                HeapFloatView { next, block, ..self@ }),
                (Err(e), Err(m)) => e@ == m,
                _ => false,
            },
    {
        if self.next > self.filters.len() || self.next > 32 {
            return Err(Error::new("too many filters"));
        }
        match reverse_from(self.filters.as_slice(), self.next, 1, scaled, self.mask)? {
            Reversed::Bytes(b) => Ok(HeapStep::Done(b)),
            Reversed::Float { next, block } => Ok(
                HeapStep::Float(
                    HeapFloat {
                        addr: self.addr,
                        mask: self.mask,
                        filters: self.filters,
                        next,
                        block,
                    },
                ),
            ),
        }
    }
}

/// Whether a block was found as `s` says.
pub open spec fn float_as(r: Option<HeapFloat>, s: Option<HeapFloatView>) -> bool {
    match (r, s) {
        (Some(v), Some(w)) => v@ == w,
        (None, None) => true,
        _ => false,
    }
}

/// The direct block that has to be scaled back before the object with an identifier can
/// be read, if it has to be.
pub open spec fn heap_pending(data: Seq<u8>, base: u64, h: HeapInfo, id: Seq<u8>) -> Option<
    HeapFloatView,
> {
    if id.len() == 0 || id[0] as nat / 16 % 4 != 0 || h.filters.len() == 0 || h.filters.len() > 32 {
        None
    } else {
        match taken_sized(id.skip(1), h.off_size) {
            Err(e) => None,
            Ok((off, r)) => match block_of(data, base, h, off) {
                Err(e) => None,
                Ok(found) => match part(
                    data,
                    base + found.addr,
                    found.stored as int,
                    "fractal heap block out of bounds"@,
                ) {
                    Err(e) => None,
                    Ok(s) => match pipeline_back(
                        h.filters,
                        h.filters.len() as int,
                        1,
                        s,
                        found.mask,
                    ) {
                        Ok(ReversedView::Float { next, block }) => if block_given(
                            h.given,
                            found.addr,
                        ) is None {
                            Some(
                                HeapFloatView {
                                    addr: found.addr,
                                    mask: found.mask,
                                    filters: h.filters,
                                    next,
                                    block,
                                },
                            )
                        } else {
                            None
                        },
                        _ => None,
                    },
                },
            },
        }
    }
}

/// The views of given blocks.
pub open spec fn given_views(given: Option<&Vec<(u64, Vec<u8>)>>) -> Seq<(u64, Seq<u8>)> {
    match given {
        None => Seq::empty(),
        Some(v) => v@.map_values(|p: (u64, Vec<u8>)| (p.0, p.1@)),
    }
}

/// The heap at an address, with blocks that are given.
pub open spec fn heap_at(data: Seq<u8>, base: u64, addr: u64, given: Seq<(u64, Seq<u8>)>) -> Result<
    HeapInfo,
    Seq<char>,
> {
    match heap_parsed(rest_at(data, base + addr)) {
        Err(e) => Err(e),
        Ok(h) => Ok(HeapInfo { given, ..h }),
    }
}

/// A fractal heap of a file image.
#[derive(Debug)]
pub struct FractalHeap<'a> {
    pub data: &'a [u8],
    pub base: u64,
    pub id_len: usize,
    pub table_width: u64,
    pub start_block_size: u64,
    pub max_direct_size: u64,
    pub root_addr: u64,
    pub cur_rows: u64,
    pub heap_off_size: usize,
    pub heap_len_size: usize,
    pub root_filtered_size: u64,
    pub root_filter_mask: u32,
    pub filters: Vec<RawFilter>,
    pub huge_bt2_addr: u64,
    pub given: Option<&'a Vec<(u64, Vec<u8>)>>,
}

impl<'a> View for FractalHeap<'a> {
    type V = HeapInfo;

    open spec fn view(&self) -> HeapInfo {
        HeapInfo {
            id_len: self.id_len as nat,
            width: self.table_width as nat,
            start: self.start_block_size as nat,
            max_direct: self.max_direct_size as nat,
            root: self.root_addr,
            cur_rows: self.cur_rows as nat,
            off_size: self.heap_off_size as nat,
            len_size: self.heap_len_size as nat,
            stored: self.root_filtered_size as nat,
            mask: self.root_filter_mask,
            filters: filter_views(self.filters@),
            huge_addr: self.huge_bt2_addr,
            given: given_views(self.given),
        }
    }
}

fn is_power(x: u64) -> (r: bool)
    ensures
        r == (x > 0 && x as nat == pow2(trailing(x as nat))),
{
    if x == 0 {
        return false;
    }
    proof {
        lemma_pow2_values();
        lemma_trailing(x as nat, 64);
    }
    power2(log2_of2(x)) == x
}

fn copy_part(s: &[u8], start: u128, len: u64, error: &str) -> (r: Result<Vec<u8>, Error>)
    requires
        start <= 0x4_0000_0000_0000_0000,
    ensures
        same_bytes(r, part(s@, start as int, len as int, error@)),
{
    if start + len as u128 > s.len() as u128 {
        return Err(Error::new(error));
    }
    let (from, n): (usize, usize) = (start as usize, len as usize);
    Ok(vstd::slice::slice_to_vec(vstd::slice::slice_subrange(s, from, from + n)))
}

/// A direct block that was found.
struct Block {
    addr: u64,
    off: u64,
    stored: u64,
    mask: u32,
}

spec fn block_view(b: Block) -> BlockView {
    BlockView { addr: b.addr, off: b.off as nat, stored: b.stored as nat, mask: b.mask }
}

spec fn block_as(r: Result<Block, Error>, s: Result<BlockView, Seq<char>>) -> bool {
    match (r, s) {
        (Ok(v), Ok(w)) => block_view(v) == w,
        (Err(e), Err(m)) => e@ == m,
        _ => false,
    }
}

impl<'a> FractalHeap<'a> {
    /// Whether the widths are those that a header can give.
    pub open spec fn wf(self) -> bool {
        &&& self.table_width <= 0xffff
        &&& 1 <= self.heap_len_size <= 8
    }

    /// Reads the header at an address.
    pub fn parse(data: &'a [u8], base: u64, addr: u64) -> (r: Result<Self, Error>)
        ensures
            match (r, heap_parsed(rest_at(data@, base + addr))) {
                (Ok(h), Ok(info)) => h@ == info && h.data@ == data@ && h.base == base && h.wf(),
                (Err(e), Err(m)) => e@ == m,
                _ => false,
            },
    {
        let mut c = cursor_at(data, base, addr);
        let ghost s = c.rest();
        let sig = c.next_bytes(4)?;
        if !is_signature(sig, 70, 82, 72, 80) {
            return Err(Error::new("bad FRHP signature"));
        }
        let version: u64 = c.next_uint(1)?;
        proof {
            lemma_one_byte(s, 4);
        }
        if version != 0 {
            return Err(
                Error::from_text(with_number("unsupported fractal heap version ", version)),
            );
        }
        let h = c.next_bytes(137)?;
        proof {
            assert(s.skip(4).skip(1) =~= s.skip(5));
            lemma_tail_fields(s, 5, 137);
            lemma_field_bound(h@, 0, 2);
            lemma_field_bound(h@, 105, 2);
            lemma_field_bound(h@, 123, 2);
            lemma_field_bound(h@, 135, 2);
        }
        let id_len: usize = field(h, 0, 2) as usize;
        let filter_len: u64 = field(h, 2, 2);
        let max_managed: u64 = field(h, 5, 4);
        let huge_bt2_addr: u64 = field(h, 17, 8);
        let table_width: u64 = field(h, 105, 2);
        let start_block_size: u64 = field(h, 107, 8);
        let max_direct_size: u64 = field(h, 115, 8);
        let max_heap_bits: u64 = field(h, 123, 2);
        let root_addr: u64 = field(h, 127, 8);
        let cur_rows: u64 = field(h, 135, 2);
        let by_block: usize = limit_enc_size(max_direct_size);
        let by_object: usize = limit_enc_size(max_managed);
        let mut heap = FractalHeap {
            data,
            base,
            id_len,
            table_width,
            start_block_size,
            max_direct_size,
            root_addr,
            cur_rows,
            heap_off_size: ((max_heap_bits + 7) / 8) as usize,
            heap_len_size: if by_block < by_object {
                by_block
            } else {
                by_object
            },
            root_filtered_size: 0,
            root_filter_mask: 0,
            filters: Vec::new(),
            huge_bt2_addr,
            given: None,
        };
        assert(filter_views(heap.filters@) =~= Seq::<FilterView>::empty());
        if filter_len == 0 {
            return Ok(heap);
        }
        let f = c.next_bytes(12)?;
        proof {
            assert(s.skip(5).skip(137) =~= s.skip(142));
            lemma_tail_fields(s, 142, 12);
            lemma_field_bound(f@, 8, 4);
            assert(s.skip(142).skip(12) =~= s.skip(154));
        }
        heap.root_filtered_size = field(f, 0, 8);
        heap.root_filter_mask = field(f, 8, 4) as u32;
        heap.filters = parse_filter_pipeline(&mut c)?;
        Ok(heap)
    }
}

impl<'a> FractalHeap<'a> {
    /// Reads the header at an address, for a heap with blocks that are given.
    pub fn open(
        data: &'a [u8],
        base: u64,
        addr: u64,
        given: Option<&'a Vec<(u64, Vec<u8>)>>,
    ) -> (r: Result<Self, Error>)
        ensures
            match (r, heap_at(data@, base, addr, given_views(given))) {
                (Ok(h), Ok(info)) => h@ == info && h.data@ == data@ && h.base == base && h.wf(),
                (Err(e), Err(m)) => e@ == m,
                _ => false,
            },
    {
        let mut heap = FractalHeap::parse(data, base, addr)?;
        heap.given = given;
        Ok(heap)
    }
}

/// The row and column of the block with the offset `off`.
fn dtable_lookup(a: u32, b: u32, off: u64) -> (r: (u64, u64))
    requires
        a <= 63,
        b <= 15,
    ensures
        (r.0 as nat, r.1 as nat) == table_place(a as nat, b as nat, off as nat),
        r.0 <= 64,
        r.1 < pow2(b as nat),
{
    proof {
        law_block_holds_offset(a as nat, b as nat, off as nat);
        lemma_pow2_values();
        if off >= 1 {
            lemma_log2_bound(off as nat, 64);
        }
    }
    if a + b >= 64 || off < power2(a + b) {
        proof {
            if a + b >= 64 {
                lemma_pow2_monotone(64, (a + b) as nat);
            }
        }
        return (0, off / power2(a));
    }
    let h: u32 = log2_gen(off);
    proof {
        lemma_pow2_positive((a + b) as nat);
        lemma_log2(off as nat);
    }
    ((h - (a + b) + 1) as u64, (off - power2(h)) / power2(h - b))
}

/// The offset of a block from the start of its table.
fn row_col_offset(a: u32, b: u32, row: u64, col: u64) -> (r: u64)
    requires
        a <= 63,
        b <= 15,
        row <= 64,
        block_offset(a as nat, b as nat, row as nat, col as nat) <= u64::MAX,
    ensures
        r == block_offset(a as nat, b as nat, row as nat, col as nat),
{
    proof {
        lemma_rows_before(a as nat, b as nat, row as nat);
        lemma_pow2_values();
        if row >= 1 && a + b + row - 1 >= 64 {
            lemma_pow2_monotone(64, (a + b + row - 1) as nat);
        }
        assert(row_size(a as nat, row as nat) * col >= 0) by (nonlinear_arith);
    }
    if row == 0 {
        return power2(a) * col;
    }
    power2(a + b + row as u32 - 1) + power2(a + row as u32 - 1) * col
}

impl<'a> FractalHeap<'a> {
    fn is_doubling(&self) -> (r: bool)
        ensures
            r == self@.doubling(),
    {
        is_power(self.start_block_size) && is_power(self.table_width) && is_power(
            self.max_direct_size,
        ) && self.start_block_size <= self.max_direct_size
    }

    fn locate_in_iblock(&self, addr: u64, nrows: u64, off: u64) -> (r: Result<Block, Error>)
        requires
            self.wf(),
            self@.doubling(),
        ensures
            block_as(r, located(self.data@, self.base, self@, addr, nrows as nat, off as nat)),
            r matches Ok(b) ==> b.off <= off,
        decreases nrows,
    {
        let ghost h = self@;
        let mut c = cursor_at(self.data, self.base, addr);
        let sig = c.next_bytes(4)?;
        if !is_signature(sig, 70, 72, 73, 66) {
            return Err(Error::new("bad FHIB signature"));
        }
        let _head = c.next_bytes(9)?;
        let block_off: u64 = c.next_sized(self.heap_off_size)?;
        if off < block_off {
            return Err(Error::new("fractal heap offset before its block"));
        }
        proof {
            lemma_pow2_values();
            lemma_trailing(h.start, 64);
            lemma_trailing(h.width, 16);
            lemma_trailing(h.max_direct, 64);
            if trailing(h.start) > trailing(h.max_direct) {
                lemma_pow2_less(trailing(h.max_direct), trailing(h.start));
            }
        }
        let a: u32 = log2_of2(self.start_block_size);
        let b: u32 = log2_of2(self.table_width);
        let m: u32 = log2_of2(self.max_direct_size);
        let (row, col): (u64, u64) = dtable_lookup(a, b, off - block_off);
        proof {
            law_block_holds_offset(a as nat, b as nat, (off - block_off) as nat);
        }
        if row >= nrows {
            return Err(Error::new("fractal heap offset beyond indirect block rows"));
        }
        let direct_rows: u64 = (m - a + 2) as u64;
        let width: u64 = self.table_width;
        assert(row * width <= 64 * 0xffff && direct_rows * width <= 65 * 0xffff) by (nonlinear_arith)
            requires
                0 <= row <= 64,
                0 <= width <= 0xffff,
                0 <= direct_rows <= 65,
        ;
        let entry: u64 = row * width + col;
        let stride: u64 = if self.filters.len() == 0 {
            8
        } else {
            20
        };
        if row < direct_rows {
            assert(entry * stride <= 65 * 0xffff * 20) by (nonlinear_arith)
                requires
                    0 <= entry <= 65 * 0xffff,
                    0 <= stride <= 20,
            ;
            c.pass((entry * stride) as usize);
            let e = c.next_bytes(stride as usize)?;
            proof {
                lemma_field_bound(e@, 0, 8);
                if stride == 20 {
                    lemma_field_bound(e@, 8, 8);
                    lemma_field_bound(e@, 16, 4);
                }
            }
            let found: u64 = field(e, 0, 8);
            if found == UNDEF {
                return Err(Error::new("fractal heap direct block not allocated"));
            }
            let (stored, mask): (u64, u32) = if self.filters.len() == 0 {
                (0, 0)
            } else {
                (field(e, 8, 8), field(e, 16, 4) as u32)
            };
            Ok(Block { addr: found, off: block_off + row_col_offset(a, b, row, col), stored, mask })
        } else {
            let ndirect: u64 = direct_rows * width;
            assert(row * width >= direct_rows * width) by (nonlinear_arith)
                requires
                    row >= direct_rows,
                    width >= 0,
            ;
            assert(ndirect * stride <= 65 * 0xffff * 20) by (nonlinear_arith)
                requires
                    0 <= ndirect <= 65 * 0xffff,
                    0 <= stride <= 20,
            ;
            c.pass((ndirect * stride + (entry - ndirect) * 8) as usize);
            let child: u64 = c.next_uint(8)?;
            if child == UNDEF {
                return Err(Error::new("fractal heap indirect block not allocated"));
            }
            if row <= b as u64 {
                return Err(Error::new("bad fractal heap geometry"));
            }
            self.locate_in_iblock(child, row - b as u64, off)
        }
    }

    fn locate_dblock(&self, off: u64) -> (r: Result<Block, Error>)
        requires
            self.wf(),
        ensures
            block_as(r, block_of(self.data@, self.base, self@, off as nat)),
            r matches Ok(b) ==> b.off <= off,
    {
        if self.cur_rows == 0 {
            return Ok(
                Block {
                    addr: self.root_addr,
                    off: 0,
                    stored: self.root_filtered_size,
                    mask: self.root_filter_mask,
                },
            );
        }
        if !self.is_doubling() {
            return Err(Error::new("bad fractal heap geometry"));
        }
        self.locate_in_iblock(self.root_addr, self.cur_rows, off)
    }

    /// Reads a filtered direct block.
    fn dblock_bytes(&self, block: &Block) -> (r: Result<Vec<u8>, Error>)
        ensures
            same_bytes(r, block_bytes(self.data@, self.base, self@, block_view(*block))),
    {
        let stored = copy_part(
            self.data,
            self.base as u128 + block.addr as u128,
            block.stored,
            "fractal heap block out of bounds",
        )?;
        if self.filters.len() > 32 {
            return Err(Error::new("too many filters"));
        }
        match reverse_masked(self.filters.as_slice(), 1, stored.as_slice(), block.mask)? {
            Reversed::Bytes(b) => Ok(b),
            Reversed::Float { next: _, block: _ } => match self.given_block(block.addr) {
                Some(b) => Ok(b),
                None => Err(Error::new("floating-point scaling of a fractal heap block")),
            },
        }
    }

    /// The bytes that are given for the direct block at `addr`.
    fn given_block(&self, addr: u64) -> (r: Option<Vec<u8>>)
        ensures
            match (r, block_given(self@.given, addr)) {
                (Some(v), Some(w)) => v@ == w,
                (None, None) => true,
                _ => false,
            },
    {
        let blocks = match self.given {
            None => {
                return None;
            },
            Some(v) => v,
        };
        let ghost views = self@.given;
        let n: usize = blocks.len();
        let mut i: usize = 0;
        assert(views.skip(0) =~= views);
        while i < n
            invariant
                i <= n == blocks@.len(),
                views == given_views(Some(blocks)),
                views == self@.given,
                block_given(views, addr) == block_given(views.skip(i as int), addr),
            decreases n - i,
        {
            assert(views.skip(i as int)[0] == views[i as int]);
            assert(views.skip(i as int).skip(1) =~= views.skip(i + 1));
            if blocks[i].0 == addr {
                return Some(vstd::slice::slice_to_vec(blocks[i].1.as_slice()));
            }
            i += 1;
        }
        None
    }

    /// The direct block that has to be scaled back before the object with an identifier
    /// can be read.
    pub fn pending(&self, id: &[u8]) -> (r: Option<HeapFloat>)
        requires
            self.wf(),
        ensures
            float_as(r, heap_pending(self.data@, self.base, self@, id@)),
    {
        if id.len() == 0 || id[0] / 16 % 4 != 0 || self.filters.len() == 0 || self.filters.len()
            > 32 {
            return None;
        }
        let rest = vstd::slice::slice_subrange(id, 1, id.len());
        assert(rest@ =~= id@.skip(1));
        let mut c = Cursor::new(rest);
        assert(c.rest() =~= rest@);
        let off: u64 = match c.next_sized(self.heap_off_size) {
            Ok(v) => v,
            Err(_) => {
                return None;
            },
        };
        let found = match self.locate_dblock(off) {
            Ok(b) => b,
            Err(_) => {
                return None;
            },
        };
        let stored = match copy_part(
            self.data,
            self.base as u128 + found.addr as u128,
            found.stored,
            "fractal heap block out of bounds",
        ) {
            Ok(b) => b,
            Err(_) => {
                return None;
            },
        };
        match reverse_masked(self.filters.as_slice(), 1, stored.as_slice(), found.mask) {
            Ok(Reversed::Float { next, block }) => {
                if self.given_block(found.addr).is_some() {
                    return None;
                }
                Some(
                    HeapFloat {
                        addr: found.addr,
                        mask: found.mask,
                        filters: clone_filters(self.filters.as_slice()),
                        next,
                        block,
                    },
                )
            },
            _ => None,
        }
    }

    fn get_managed(&self, off: u64, len: u64) -> (r: Result<Vec<u8>, Error>)
        requires
            self.wf(),
        ensures
            same_bytes(r, managed(self.data@, self.base, self@, off as nat, len as nat)),
    {
        let block = self.locate_dblock(off)?;
        let within: u64 = off - block.off;
        if self.filters.len() == 0 {
            return copy_part(
                self.data,
                self.base as u128 + block.addr as u128 + within as u128,
                len,
                "fractal heap object out of bounds",
            );
        }
        let bytes = self.dblock_bytes(&block)?;
        copy_part(bytes.as_slice(), within as u128, len, "fractal heap object out of bounds")
    }

    fn huge_object_place(&self, id: &[u8]) -> (r: Result<(u64, u64), Error>)
        ensures
            match (r, huge_place(self.data@, self.base, self@, id@)) {
                (Ok((a, b)), Ok((x, y))) => a == x && b == y,
                (Err(e), Err(m)) => e@ == m,
                _ => false,
            },
    {
        let mut c = Cursor::new(id);
        assert(c.rest() =~= id@);
        if self.id_len >= 17 {
            let b = c.next_bytes(16)?;
            return Ok((field(b, 0, 8), field(b, 8, 8)));
        }
        let size: usize = if self.id_len == 0 {
            0
        } else if self.id_len - 1 < 8 {
            self.id_len - 1
        } else {
            8
        };
        let want: u64 = c.next_sized(size)?;
        if self.huge_bt2_addr == UNDEF {
            return Err(Error::new("huge object btree missing"));
        }
        let tree = read_v2btree(self.data, self.base, self.huge_bt2_addr)?;
        if tree.btree_type != 1 {
            return Err(
                Error::from_text(
                    with_number("unsupported huge-object btree type ", tree.btree_type as u64),
                ),
            );
        }
        find_huge(&tree.records, want)
    }

    /// Fetches the object with an identifier.
    pub fn get(&self, id: &[u8]) -> (r: Result<Vec<u8>, Error>)
        requires
            self.wf(),
        ensures
            same_bytes(r, heap_item(self.data@, self.base, self@, id@)),
    {
        if id.len() == 0 {
            return Err(Error::new("empty heap id"));
        }
        let kind: u8 = id[0] / 16 % 4;
        let rest = vstd::slice::slice_subrange(id, 1, id.len());
        assert(rest@ =~= id@.skip(1));
        if kind == 0 {
            let mut c = Cursor::new(rest);
            assert(c.rest() =~= rest@);
            let off: u64 = c.next_sized(self.heap_off_size)?;
            let len: u64 = c.next_sized(self.heap_len_size)?;
            self.get_managed(off, len)
        } else if kind == 2 {
            copy_part(id, 1, (id[0] % 16 + 1) as u64, "tiny heap object exceeds id length")
        } else if kind == 1 {
            let (addr, len): (u64, u64) = self.huge_object_place(rest)?;
            copy_part(
                self.data,
                self.base as u128 + addr as u128,
                len,
                "huge object out of bounds",
            )
        } else {
            Err(Error::new("unknown fractal heap id type"))
        }
    }
}

proof fn lemma_pow2_less(a: nat, b: nat)
    requires
        a < b,
    ensures
        pow2(a) < pow2(b),
{
    lemma_pow2_positive(a);
    lemma_pow2_monotone(a + 1, b);
}

fn find_huge(records: &Vec<Vec<u8>>, want: u64) -> (r: Result<(u64, u64), Error>)
    ensures
        match (r, huge_found(record_views(records@), 0, want as nat)) {
            (Ok((a, b)), Ok((x, y))) => a == x && b == y,
            (Err(e), Err(m)) => e@ == m,
            _ => false,
        },
{
    let ghost views = record_views(records@);
    let n: usize = records.len();
    let mut i: usize = 0;
    while i < n
        invariant
            i <= n == records@.len(),
            views == record_views(records@),
            huge_found(views, 0, want as nat) == huge_found(views, i as int, want as nat),
        decreases n - i,
    {
        let rec = records[i].as_slice();
        assert(rec@ == views[i as int]);
        if rec.len() < 24 {
            return Err(Error::new("unexpected end of file"));
        }
        if field(rec, 16, 8) == want {
            return Ok((field(rec, 0, 8), field(rec, 8, 8)));
        }
        i += 1;
    }
    Err(Error::new("huge object id not found in btree"))
}

} // verus!
