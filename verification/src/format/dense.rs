//! Writing of dense storage: fractal heaps and the version 2 B-trees that index them.

use vstd::prelude::*;

use crate::error::Error;
use crate::format::bits::{lemma_pow2_values, pow2};
use crate::format::checksum::{checksum, lookup3};
use crate::format::fheap::{block_offset, lemma_rows_before, row_size, rows_before};
use crate::format::tree::{
    append, appended, end_of, extends, fill_to, filled_to, lemma_appended, lemma_extends, pad_image,
    padded,
};
use crate::format::{
    le_bytes, lemma_le_bytes_len, lemma_le_bytes_residue, lemma_pow256, patched, push_le, zeroes,
    Buf, UNDEF,
};

verus! {

/// Some byte strings.
pub open spec fn views_of(v: Seq<Vec<u8>>) -> Seq<Seq<u8>> {
    v.map_values(|x: Vec<u8>| x@)
}

/// Byte strings one behind the other.
pub open spec fn concat(v: Seq<Seq<u8>>) -> Seq<u8>
    decreases v.len(),
{
    if v.len() == 0 {
        Seq::empty()
    } else {
        concat(v.drop_last()) + v.last()
    }
}

/// Bytes with their checksum behind them.
pub open spec fn summed(s: Seq<u8>) -> Seq<u8> {
    s + le_bytes(lookup3(s) as nat, 4)
}

pub(crate) fn push_sum(b: &mut Buf)
    ensures
        final(b)@ == summed(old(b)@),
{
    let sum: u32 = checksum(b.bytes.as_slice());
    b.u32(sum);
}

pub(crate) fn push_all(b: &mut Buf, v: &Vec<Vec<u8>>)
    ensures
        final(b)@ == old(b)@ + concat(views_of(v@)),
{
    let ghost start = b@;
    let ghost views = views_of(v@);
    let mut i: usize = 0;
    assert(views.take(0) =~= Seq::empty());
    assert(start + concat(views.take(0)) =~= start);
    while i < v.len()
        invariant
            i <= v@.len(),
            views == views_of(v@),
            b@ == start + concat(views.take(i as int)),
        decreases v@.len() - i,
    {
        b.raw(v[i].as_slice());
        proof {
            assert(views.take(i + 1).drop_last() =~= views.take(i as int));
            assert(b@ =~= start + concat(views.take(i + 1)));
        }
        i += 1;
    }
    assert(views.take(v@.len() as int) =~= views);
}

// Version 2 B-trees.

/// The size of the only node of a tree.
pub open spec fn leaf_size(count: nat, size: nat) -> nat {
    let used = 10 + count * size;
    if used > 512 {
        used
    } else {
        512
    }
}

/// A leaf with records.
pub open spec fn leaf_message(kind: u8, size: nat, records: Seq<Seq<u8>>) -> Seq<u8> {
    filled_to(
        summed(seq![66u8, 84u8, 76u8, 70u8, 0u8, kind] + concat(records)),
        leaf_size(records.len(), size),
    )
}

/// The header of a tree that has only a leaf.
pub open spec fn tree_header(kind: u8, size: nat, count: nat, leaf: u64) -> Seq<u8> {
    summed(
        seq![66u8, 84u8, 72u8, 68u8, 0u8, kind] + le_bytes(leaf_size(count, size), 4) + le_bytes(
            size,
            2,
        ) + le_bytes(0, 2) + seq![100u8, 40u8] + le_bytes(leaf as nat, 8) + le_bytes(count, 2)
            + le_bytes(count, 8),
    )
}

/// An image with a tree behind it, and the address of its header.
pub open spec fn leaf_written(s: Seq<u8>, kind: u8, size: nat, records: Seq<Seq<u8>>) -> (
    Seq<u8>,
    u64,
) {
    let s1 = appended(s, leaf_message(kind, size, records));
    (appended(s1, tree_header(kind, size, records.len(), end_of(s))), end_of(s1))
}

/// Whether all records have the same size.
pub open spec fn same_size(records: Seq<Seq<u8>>, size: nat) -> bool {
    forall|i: int| 0 <= i < records.len() ==> (#[trigger] records[i]).len() == size
}

pub proof fn lemma_concat_len(records: Seq<Seq<u8>>, size: nat)
    requires
        same_size(records, size),
    ensures
        concat(records).len() == records.len() * size,
    decreases records.len(),
{
    if records.len() > 0 {
        lemma_concat_len(records.drop_last(), size);
        let n = records.len();
        assert((n - 1) * size + size == n * size) by (nonlinear_arith);
    } else {
        assert(0 * size == 0) by (nonlinear_arith);
    }
}

/// Writes a tree of one leaf that holds `records` of `size` bytes.
pub fn write_v2btree_leaf(buf: &mut Vec<u8>, kind: u8, size: usize, records: &Vec<Vec<u8>>) -> (r:
    u64)
    requires
        same_size(views_of(records@), size as nat),
    ensures
        (final(buf)@, r) == leaf_written(old(buf)@, kind, size as nat, views_of(records@)),
        extends(final(buf)@, old(buf)@),
{
    let count: usize = records.len();
    let mut leaf = Buf::new();
    leaf.u8(66);
    leaf.u8(84);
    leaf.u8(76);
    leaf.u8(70);
    leaf.u8(0);
    leaf.u8(kind);
    push_all(&mut leaf, records);
    assert(leaf@ =~= seq![66u8, 84u8, 76u8, 70u8, 0u8, kind] + concat(views_of(records@)));
    push_sum(&mut leaf);
    proof {
        lemma_concat_len(views_of(records@), size as nat);
        lemma_le_bytes_len(
            lookup3(seq![66u8, 84u8, 76u8, 70u8, 0u8, kind] + concat(views_of(records@))) as nat,
            4,
        );
    }
    let used: usize = leaf.len();
    let node: usize = if used > 512 {
        used
    } else {
        512
    };
    fill_to(&mut leaf, node);
    let ghost s = buf@;
    let addr: u64 = append(buf, leaf.bytes.as_slice());
    let ghost s1 = buf@;
    let mut h = Buf::new();
    h.u8(66);
    h.u8(84);
    h.u8(72);
    h.u8(68);
    h.u8(0);
    h.u8(kind);
    push_le(&mut h.bytes, node as u64, 4);
    push_le(&mut h.bytes, size as u64, 2);
    h.u16(0);
    h.u8(100);
    h.u8(40);
    h.u64(addr);
    push_le(&mut h.bytes, count as u64, 2);
    h.u64(count as u64);
    assert(h@ =~= seq![66u8, 84u8, 72u8, 68u8, 0u8, kind] + le_bytes(
        leaf_size(count as nat, size as nat),
        4,
    ) + le_bytes(size as nat, 2) + le_bytes(0, 2) + seq![100u8, 40u8] + le_bytes(addr as nat, 8)
        + le_bytes(count as nat, 2) + le_bytes(count as nat, 8));
    push_sum(&mut h);
    proof {
        lemma_appended(s, leaf@);
        lemma_appended(s1, h@);
        lemma_extends(s, s1, appended(s1, h@));
    }
    append(buf, h.bytes.as_slice())
}

// Fractal heaps.

/// A direct block that is being filled.
#[verifier::ext_equal]
pub struct BlockView {
    pub off: nat,
    pub size: nat,
    /// Its bytes behind the prefix.
    pub data: Seq<u8>,
}

/// A direct block that is being filled.
pub struct DirectBlock {
    pub off: u64,
    pub size: u64,
    pub data: Vec<u8>,
}

impl View for DirectBlock {
    type V = BlockView;

    open spec fn view(&self) -> BlockView {
        BlockView { off: self.off as nat, size: self.size as nat, data: self.data@ }
    }
}

/// The views of blocks.
pub open spec fn block_views(v: Seq<DirectBlock>) -> Seq<BlockView> {
    v.map_values(|b: DirectBlock| b@)
}

/// The size of the prefix of a direct block, where offsets have `off_size` bytes.
pub open spec fn block_prefix(off_size: nat) -> nat {
    13 + off_size
}

/// The number of direct blocks: those of the rows with blocks of 64 KiB at most.
pub const BLOCK_LIMIT: usize = 32;

/// The largest object that is stored in a block.
pub const MANAGED_LIMIT: usize = 4096;

/// The block that comes behind some blocks: blocks stand in rows of 4, those of the
/// first two rows have 1024 bytes, those of each further row twice as many.
pub open spec fn fresh_block(slot: nat) -> BlockView {
    BlockView {
        off: block_offset(10, 2, slot / 4, slot % 4),
        size: row_size(10, slot / 4),
        data: Seq::empty(),
    }
}

/// Blocks whose last one has room for `len` bytes: new ones are opened as needed.
pub open spec fn room_made(blocks: Seq<BlockView>, off_size: nat, len: nat) -> Result<
    Seq<BlockView>,
    Seq<char>,
>
    decreases 32 - blocks.len(),
{
    if blocks.len() > 0 && block_prefix(off_size) + blocks.last().data.len() + len
        <= blocks.last().size {
        Ok(blocks)
    } else if blocks.len() >= 32 {
        Err("dense storage exceeds direct-block capacity"@)
    } else {
        room_made(blocks.push(fresh_block(blocks.len())), off_size, len)
    }
}

/// The contents of a heap that is being built: blocks, the objects that are too large
/// for one, and the ids of all objects in their order.
#[verifier::ext_equal]
pub struct PlanView {
    pub blocks: Seq<BlockView>,
    pub huge: Seq<Seq<u8>>,
    pub ids: Seq<Seq<u8>>,
}

/// The id of an object in a block.
pub open spec fn managed_id(off: nat, len: nat, off_size: nat, id_len: nat) -> Seq<u8> {
    filled_to(seq![0u8] + le_bytes(off, off_size) + le_bytes(len, 2), id_len)
}

/// The number of bytes of the number of a large object.
pub open spec fn huge_width(id_len: nat) -> nat {
    if id_len < 9 {
        (id_len - 1) as nat
    } else {
        8
    }
}

/// The id of a large object.
pub open spec fn huge_id(number: nat, id_len: nat) -> Seq<u8> {
    filled_to(seq![16u8] + le_bytes(number, huge_width(id_len)), id_len)
}

/// A heap with one more object.
pub open spec fn planned_one(p: PlanView, obj: Seq<u8>, off_size: nat, id_len: nat) -> Result<
    PlanView,
    Seq<char>,
> {
    if obj.len() > 4096 {
        Ok(
            PlanView {
                blocks: p.blocks,
                huge: p.huge.push(obj),
                ids: p.ids.push(huge_id(p.huge.len() + 1, id_len)),
            },
        )
    } else {
        match room_made(p.blocks, off_size, obj.len()) {
            Err(e) => Err(e),
            Ok(blocks) => {
                let b = blocks.last();
                let at = b.off + block_prefix(off_size) + b.data.len();
                Ok(
                    PlanView {
                        blocks: blocks.update(
                            blocks.len() - 1,
                            BlockView { off: b.off, size: b.size, data: b.data + obj },
                        ),
                        huge: p.huge,
                        ids: p.ids.push(managed_id(at, obj.len(), off_size, id_len)),
                    },
                )
            },
        }
    }
}

/// A heap without objects.
pub open spec fn no_plan() -> PlanView {
    PlanView { blocks: Seq::empty(), huge: Seq::empty(), ids: Seq::empty() }
}

/// A heap with objects.
pub open spec fn planned(objects: Seq<Seq<u8>>, off_size: nat, id_len: nat) -> Result<
    PlanView,
    Seq<char>,
>
    decreases objects.len(),
{
    if objects.len() == 0 {
        Ok(no_plan())
    } else {
        match planned(objects.drop_last(), off_size, id_len) {
            Err(e) => Err(e),
            Ok(p) => planned_one(p, objects.last(), off_size, id_len),
        }
    }
}

/// The contents of a heap that is being built.
pub struct HeapPlan {
    pub blocks: Vec<DirectBlock>,
    pub huge: Vec<Vec<u8>>,
    pub ids: Vec<Vec<u8>>,
}

impl View for HeapPlan {
    type V = PlanView;

    open spec fn view(&self) -> PlanView {
        PlanView {
            blocks: block_views(self.blocks@),
            huge: views_of(self.huge@),
            ids: views_of(self.ids@),
        }
    }
}

/// Whether blocks stand where the table puts them and hold no more than they can.
pub open spec fn blocks_fit(blocks: Seq<BlockView>, off_size: nat) -> bool {
    &&& blocks.len() <= 32
    &&& forall|i: int|
        0 <= i < blocks.len() ==> {
            &&& (#[trigger] blocks[i]).off == fresh_block(i as nat).off
            &&& blocks[i].size == fresh_block(i as nat).size
            &&& block_prefix(off_size) + blocks[i].data.len() <= blocks[i].size
        }
}

pub(crate) proof fn lemma_slot(slot: nat)
    requires
        slot < 32,
    ensures
        fresh_block(slot).size <= 65536,
        fresh_block(slot).size >= 1024,
        fresh_block(slot).off + fresh_block(slot).size <= 524288,
{
    let row = slot / 4;
    lemma_rows_before(10, 2, row);
    lemma_pow2_values();
    reveal_with_fuel(pow2, 21);
    assert(row_size(10, row) * (slot % 4) <= row_size(10, row) * 3) by (nonlinear_arith)
        requires
            slot % 4 <= 3,
    ;
}

/// The offset and the size of the block number `slot`.
fn slot_place(slot: usize) -> (r: (u64, u64))
    requires
        slot < 32,
    ensures
        r.0 == fresh_block(slot as nat).off,
        r.1 == fresh_block(slot as nat).size,
{
    let row: usize = slot / 4;
    let mut before: u64 = 0;
    let mut size: u64 = 1024;
    let mut i: usize = 0;
    proof {
        lemma_pow2_values();
        reveal_with_fuel(pow2, 21);
    }
    while i < row
        invariant
            i <= row < 8,
            before == rows_before(10, 2, i as nat),
            size == row_size(10, i as nat),
            size <= 1024 * 128,
            i <= 1 ==> size == 1024,
            before <= 1024 * 1024,
        decreases row - i,
    {
        proof {
            lemma_rows_before(10, 2, i as nat);
            lemma_rows_before(10, 2, (i + 1) as nat);
            lemma_pow2_values();
            reveal_with_fuel(pow2, 21);
            assert(pow2(2) == 4);
        }
        before = before + size * 4;
        if i > 0 {
            size = size * 2;
        }
        i += 1;
    }
    let col: u64 = (slot % 4) as u64;
    proof {
        lemma_slot(slot as nat);
        assert(size * col <= size * 3) by (nonlinear_arith)
            requires
                col <= 3,
        ;
    }
    (before + size * col, size)
}

impl HeapPlan {
    /// Opens blocks until the last one has room for `len` bytes.
    fn make_room(&mut self, off_size: usize, len: usize) -> (r: Result<(), Error>)
        requires
            off_size <= 8,
            len <= 4096,
            blocks_fit(old(self)@.blocks, off_size as nat),
        ensures
            match (r, room_made(old(self)@.blocks, off_size as nat, len as nat)) {
                (Ok(_), Ok(x)) => final(self)@ == (PlanView { blocks: x, ..old(self)@ })
                    && blocks_fit(x, off_size as nat) && x.len() > 0 && block_prefix(
                    off_size as nat,
                ) + x.last().data.len() + len <= x.last().size,
                (Err(e), Err(x)) => e@ == x,
                _ => false,
            },
    {
        let ghost start = self@;
        let mut last: usize = self.blocks.len();
        proof {
            if last > 0 {
                assert(start.blocks[last - 1] == self.blocks@[last - 1]@);
                lemma_slot((last - 1) as nat);
            }
        }
        let mut done: bool = last > 0 && self.blocks[last - 1].size as usize >= 13 + off_size
            + self.blocks[last - 1].data.len() + len;
        while !done
            invariant
                off_size <= 8,
                len <= 4096,
                start == old(self)@,
                last == self.blocks@.len(),
                blocks_fit(self@.blocks, off_size as nat),
                self@ == (PlanView { blocks: self@.blocks, ..start }),
                room_made(start.blocks, off_size as nat, len as nat) == room_made(
                    self@.blocks,
                    off_size as nat,
                    len as nat,
                ),
                done == (last > 0 && block_prefix(off_size as nat) + self@.blocks.last().data.len()
                    + len <= self@.blocks.last().size),
            decreases 33 - last + (if done {
                    0int
                } else {
                    1
                }),
        {
            if last >= 32 {
                return Err(Error::new("dense storage exceeds direct-block capacity"));
            }
            let (off, size) = slot_place(last);
            proof {
                lemma_slot(last as nat);
            }
            let ghost before = self@.blocks;
            self.blocks.push(DirectBlock { off, size, data: Vec::new() });
            proof {
                assert(self.blocks@.last()@ =~= fresh_block(last as nat));
                assert(self@.blocks =~= before.push(fresh_block(last as nat)));
                assert(self@ =~= (PlanView { blocks: self@.blocks, ..start }));
            }
            last += 1;
            done = size as usize >= 13 + off_size + len;
        }
        Ok(())
    }

    /// Adds an object.
    fn insert(&mut self, obj: &Vec<u8>, off_size: usize, id_len: usize) -> (r: Result<(), Error>)
        requires
            off_size <= 8,
            9 >= id_len >= 2,
            blocks_fit(old(self)@.blocks, off_size as nat),
        ensures
            match (r, planned_one(old(self)@, obj@, off_size as nat, id_len as nat)) {
                (Ok(_), Ok(x)) => final(self)@ == x && blocks_fit(x.blocks, off_size as nat),
                (Err(e), Err(x)) => e@ == x,
                _ => false,
            },
    {
        let ghost start = self@;
        let mut id = Buf::new();
        if obj.len() > MANAGED_LIMIT {
            id.u8(16);
            let width: usize = if id_len < 9 {
                id_len - 1
            } else {
                8
            };
            let number: u64 = self.huge.len() as u64;
            let mut b: Vec<u8> = Vec::new();
            b.extend_from_slice(obj.as_slice());
            assert(b@ =~= obj@);
            self.huge.push(b);
            let number: u64 = self.huge.len() as u64;
            push_le(&mut id.bytes, number, width);
            assert(id@ =~= seq![16u8] + le_bytes(number as nat, width as nat));
            fill_to(&mut id, id_len);
            self.ids.push(id.bytes);
            proof {
                assert(self@.huge =~= start.huge.push(obj@));
                assert(self@.ids =~= start.ids.push(
                    huge_id(start.huge.len() + 1, id_len as nat),
                ));
            }
            return Ok(());
        }
        self.make_room(off_size, obj.len())?;
        let ghost mid = self@;
        let last: usize = self.blocks.len() - 1;
        proof {
            lemma_slot(last as nat);
            assert(mid.blocks[last as int] == self.blocks@[last as int]@);
        }
        let at: u64 = self.blocks[last].off + 13 + off_size as u64 + self.blocks[last].data.len()
            as u64;
        let ghost was = self.blocks@[last as int]@;
        self.blocks[last].data.extend_from_slice(obj.as_slice());
        id.u8(0);
        push_le(&mut id.bytes, at, off_size);
        push_le(&mut id.bytes, obj.len() as u64, 2);
        assert(id@ =~= seq![0u8] + le_bytes(at as nat, off_size as nat) + le_bytes(obj@.len(), 2));
        fill_to(&mut id, id_len);
        self.ids.push(id.bytes);
        proof {
            let now = BlockView { off: was.off, size: was.size, data: was.data + obj@ };
            assert(self.blocks@[last as int]@ =~= now);
            assert(self@.blocks =~= mid.blocks.update(last as int, now));
            assert(self@.ids =~= start.ids.push(
                managed_id(at as nat, obj@.len(), off_size as nat, id_len as nat),
            ));
            assert(self@.huge =~= start.huge);
        }
        Ok(())
    }
}

fn plan_heap(objects: &Vec<Vec<u8>>, off_size: usize, id_len: usize) -> (r: Result<
    HeapPlan,
    Error,
>)
    requires
        off_size <= 8,
        9 >= id_len >= 2,
    ensures
        match (r, planned(views_of(objects@), off_size as nat, id_len as nat)) {
            (Ok(p), Ok(x)) => p@ == x && blocks_fit(x.blocks, off_size as nat),
            (Err(e), Err(x)) => e@ == x,
            _ => false,
        },
{
    let ghost views = views_of(objects@);
    let mut p = HeapPlan { blocks: Vec::new(), huge: Vec::new(), ids: Vec::new() };
    let mut i: usize = 0;
    assert(p@ =~= no_plan());
    assert(views.take(0) =~= Seq::empty());
    while i < objects.len()
        invariant
            off_size <= 8,
            9 >= id_len >= 2,
            i <= objects@.len(),
            views == views_of(objects@),
            planned(views.take(i as int), off_size as nat, id_len as nat) == Ok::<
                PlanView,
                Seq<char>,
            >(p@),
            blocks_fit(p@.blocks, off_size as nat),
        decreases objects@.len() - i,
    {
        proof {
            assert(views.take(i + 1).drop_last() =~= views.take(i as int));
            assert(views.take(i + 1).last() == objects@[i as int]@);
        }
        let r = p.insert(&objects[i], off_size, id_len);
        match r {
            Ok(_) => {},
            Err(e) => {
                proof {
                    lemma_planned_error(views, (i + 1) as nat, off_size as nat, id_len as nat);
                }
                return Err(e);
            },
        }
        i += 1;
    }
    assert(views.take(views.len() as int) =~= views);
    Ok(p)
}

proof fn lemma_planned_error(views: Seq<Seq<u8>>, i: nat, off_size: nat, id_len: nat)
    requires
        i <= views.len(),
        planned(views.take(i as int), off_size, id_len) is Err,
    ensures
        planned(views, off_size, id_len) == planned(views.take(i as int), off_size, id_len),
    decreases views.len() - i,
{
    if i < views.len() {
        assert(views.take((i + 1) as int).drop_last() =~= views.take(i as int));
        lemma_planned_error(views, i + 1, off_size, id_len);
    } else {
        assert(views.take(i as int) =~= views);
    }
}

/// A direct block of the heap whose header stands at `heap`.
pub open spec fn block_message(b: BlockView, heap: u64, off_size: nat) -> Seq<u8> {
    filled_to(
        seq![70u8, 72u8, 68u8, 66u8, 0u8] + le_bytes(heap as nat, 8) + le_bytes(b.off, off_size)
            + b.data,
        b.size,
    )
}

/// An image with blocks behind it, and their addresses.
pub open spec fn blocks_written(s: Seq<u8>, blocks: Seq<BlockView>, heap: u64, off_size: nat) -> (
    Seq<u8>,
    Seq<u64>,
)
    decreases blocks.len(),
{
    if blocks.len() == 0 {
        (s, Seq::empty())
    } else {
        let (s1, addrs) = blocks_written(s, blocks.drop_last(), heap, off_size);
        (appended(s1, block_message(blocks.last(), heap, off_size)), addrs.push(end_of(s1)))
    }
}

fn push_block(buf: &mut Vec<u8>, b: &DirectBlock, heap: u64, off_size: usize) -> (r: u64)
    requires
        off_size <= 8,
        b.size <= 65536,
    ensures
        final(buf)@ == appended(old(buf)@, block_message(b@, heap, off_size as nat)),
        r == end_of(old(buf)@),
{
    let mut d = Buf::new();
    d.u8(70);
    d.u8(72);
    d.u8(68);
    d.u8(66);
    d.u8(0);
    d.u64(heap);
    push_le(&mut d.bytes, b.off, off_size);
    d.raw(b.data.as_slice());
    assert(d@ =~= seq![70u8, 72u8, 68u8, 66u8, 0u8] + le_bytes(heap as nat, 8) + le_bytes(
        b.off as nat,
        off_size as nat,
    ) + b.data@);
    fill_to(&mut d, b.size as usize);
    append(buf, d.bytes.as_slice())
}

fn write_blocks(buf: &mut Vec<u8>, blocks: &Vec<DirectBlock>, heap: u64, off_size: usize) -> (r:
    Vec<u64>)
    requires
        off_size <= 8,
        blocks_fit(block_views(blocks@), off_size as nat),
    ensures
        (final(buf)@, r@) == blocks_written(
            old(buf)@,
            block_views(blocks@),
            heap,
            off_size as nat,
        ),
        r@.len() == blocks@.len(),
        extends(final(buf)@, old(buf)@),
{
    let ghost s = buf@;
    let ghost views = block_views(blocks@);
    let mut addrs: Vec<u64> = Vec::new();
    let mut i: usize = 0;
    assert(s.take(s.len() as int) =~= s);
    assert(views.take(0) =~= Seq::empty());
    while i < blocks.len()
        invariant
            off_size <= 8,
            i <= blocks@.len(),
            views == block_views(blocks@),
            blocks_fit(views, off_size as nat),
            addrs@.len() == i,
            extends(buf@, s),
            (buf@, addrs@) == blocks_written(s, views.take(i as int), heap, off_size as nat),
        decreases blocks@.len() - i,
    {
        proof {
            assert(views[i as int] == blocks@[i as int]@);
            lemma_slot(i as nat);
            assert(views.take(i + 1).drop_last() =~= views.take(i as int));
        }
        let ghost was = buf@;
        let a: u64 = push_block(buf, &blocks[i], heap, off_size);
        proof {
            lemma_appended(was, block_message(blocks@[i as int]@, heap, off_size as nat));
            lemma_extends(s, was, buf@);
        }
        addrs.push(a);
        i += 1;
    }
    assert(views.take(views.len() as int) =~= views);
    addrs
}

/// The addresses that an indirect block lists: those of `rows` rows, of which the first
/// ones are there.
pub open spec fn listed(addrs: Seq<u64>, n: nat) -> Seq<u8>
    decreases n,
{
    if n == 0 {
        Seq::empty()
    } else {
        listed(addrs, (n - 1) as nat) + le_bytes(
            (if n - 1 < addrs.len() {
                addrs[n - 1]
            } else {
                UNDEF
            }) as nat,
            8,
        )
    }
}

/// The number of rows of an indirect block.
pub open spec fn rows_of(n: nat) -> nat {
    (n + 3) / 4
}

/// The indirect block that refers to some direct ones.
pub open spec fn table_message(addrs: Seq<u64>, heap: u64, off_size: nat) -> Seq<u8> {
    summed(
        seq![70u8, 72u8, 73u8, 66u8, 0u8] + le_bytes(heap as nat, 8) + zeroes(off_size) + listed(
            addrs,
            rows_of(addrs.len()) * 4,
        ),
    )
}

fn table_block(addrs: &Vec<u64>, heap: u64, off_size: usize) -> (r: Buf)
    requires
        addrs@.len() <= 32,
    ensures
        r@ == table_message(addrs@, heap, off_size as nat),
{
    let mut b = Buf::new();
    b.u8(70);
    b.u8(72);
    b.u8(73);
    b.u8(66);
    b.u8(0);
    b.u64(heap);
    b.zeros(off_size);
    let n: usize = (addrs.len() + 3) / 4 * 4;
    let ghost start = b@;
    assert(start =~= seq![70u8, 72u8, 73u8, 66u8, 0u8] + le_bytes(heap as nat, 8) + zeroes(
        off_size as nat,
    ));
    assert(start + listed(addrs@, 0) =~= start);
    let mut i: usize = 0;
    while i < n
        invariant
            i <= n,
            b@ == start + listed(addrs@, i as nat),
        decreases n - i,
    {
        let a: u64 = if i < addrs.len() {
            addrs[i]
        } else {
            UNDEF
        };
        b.u64(a);
        assert(b@ =~= start + listed(addrs@, (i + 1) as nat));
        i += 1;
    }
    push_sum(&mut b);
    b
}

/// The size of all blocks.
pub open spec fn total_size(blocks: Seq<BlockView>) -> nat
    decreases blocks.len(),
{
    if blocks.len() == 0 {
        0
    } else {
        total_size(blocks.drop_last()) + blocks.last().size
    }
}

fn sum_sizes(blocks: &Vec<DirectBlock>, Ghost(off_size): Ghost<nat>) -> (r: u64)
    requires
        blocks_fit(block_views(blocks@), off_size),
    ensures
        r == total_size(block_views(blocks@)),
{
    let ghost views = block_views(blocks@);
    let mut sum: u64 = 0;
    let mut i: usize = 0;
    assert(views.take(0) =~= Seq::empty());
    while i < blocks.len()
        invariant
            i <= blocks@.len(),
            views == block_views(blocks@),
            blocks_fit(views, off_size),
            sum == total_size(views.take(i as int)),
            sum <= i * 65536,
        decreases blocks@.len() - i,
    {
        proof {
            assert(views[i as int] == blocks@[i as int]@);
            lemma_slot(i as nat);
            assert(views.take(i + 1).drop_last() =~= views.take(i as int));
        }
        sum = sum + blocks[i].size;
        i += 1;
    }
    assert(views.take(views.len() as int) =~= views);
    sum
}

/// An image with large objects behind it, and the records that say where they are.
pub open spec fn huge_written(s: Seq<u8>, huge: Seq<Seq<u8>>) -> (Seq<u8>, Seq<Seq<u8>>)
    decreases huge.len(),
{
    if huge.len() == 0 {
        (s, Seq::empty())
    } else {
        let (s1, records) = huge_written(s, huge.drop_last());
        (
            appended(s1, huge.last()),
            records.push(
                le_bytes(end_of(s1) as nat, 8) + le_bytes(huge.last().len(), 8) + le_bytes(
                    huge.len(),
                    8,
                ),
            ),
        )
    }
}

fn write_huge(buf: &mut Vec<u8>, huge: &Vec<Vec<u8>>) -> (r: Vec<Vec<u8>>)
    ensures
        (final(buf)@, views_of(r@)) == huge_written(old(buf)@, views_of(huge@)),
        same_size(views_of(r@), 24),
        extends(final(buf)@, old(buf)@),
{
    let ghost s = buf@;
    let ghost views = views_of(huge@);
    let mut records: Vec<Vec<u8>> = Vec::new();
    let mut i: usize = 0;
    assert(views.take(0) =~= Seq::empty());
    assert(s.take(s.len() as int) =~= s);
    assert(views_of(records@) =~= Seq::empty());
    while i < huge.len()
        invariant
            i <= huge@.len(),
            views == views_of(huge@),
            same_size(views_of(records@), 24),
            extends(buf@, s),
            (buf@, views_of(records@)) == huge_written(s, views.take(i as int)),
        decreases huge@.len() - i,
    {
        proof {
            assert(views.take(i + 1).drop_last() =~= views.take(i as int));
        }
        let ghost before = views_of(records@);
        let ghost was = buf@;
        let a: u64 = append(buf, huge[i].as_slice());
        proof {
            lemma_appended(was, huge@[i as int]@);
            lemma_extends(s, was, buf@);
        }
        let mut rec = Buf::new();
        rec.u64(a);
        rec.u64(huge[i].len() as u64);
        i += 1;
        rec.u64(i as u64);
        records.push(rec.bytes);
        proof {
            assert(views_of(records@) =~= before.push(rec@));
            lemma_le_bytes_len(a as nat, 8);
            lemma_le_bytes_len(views[i - 1].len(), 8);
            lemma_le_bytes_len(i as nat, 8);
        }
        assert(rec@ =~= le_bytes(a as nat, 8) + le_bytes(views[i - 1].len(), 8) + le_bytes(
            i as nat,
            8,
        ));
    }
    assert(views.take(views.len() as int) =~= views);
    records
}

/// The number of bytes of byte strings.
pub open spec fn total_len(v: Seq<Seq<u8>>) -> nat
    decreases v.len(),
{
    if v.len() == 0 {
        0
    } else {
        total_len(v.drop_last()) + v.last().len()
    }
}

/// What the header of a heap says of its contents.
pub struct HeapTotals {
    pub huge_tree: u64,
    pub size: u64,
    pub managed: u64,
    pub huge_bytes: nat,
    pub huge_count: nat,
    pub root: u64,
    pub rows: nat,
}

/// The header of a heap.
pub open spec fn heap_header(t: HeapTotals, id_len: nat, bits: nat) -> Seq<u8> {
    summed(
        seq![70u8, 82u8, 72u8, 80u8, 0u8] + le_bytes(id_len, 2) + zeroes(3) + le_bytes(4096, 4)
            + heap_counts(t) + le_bytes(4, 2) + le_bytes(1024, 8) + le_bytes(65536, 8) + le_bytes(
            bits,
            2,
        ) + le_bytes(1, 2) + le_bytes(t.root as nat, 8) + le_bytes(t.rows, 2),
    )
}

/// The number of bytes of an offset in a heap with `bits` bits.
pub open spec fn offset_size(bits: nat) -> nat {
    (bits + 7) / 8
}

/// The root block of a heap: none, the only direct block, or an indirect block; and its
/// number of rows.
pub open spec fn root_written(s: Seq<u8>, addrs: Seq<u64>, heap: u64, off_size: nat) -> (
    Seq<u8>,
    u64,
    nat,
) {
    if addrs.len() == 0 {
        (s, UNDEF, 0)
    } else if addrs.len() == 1 {
        (s, addrs[0], 0)
    } else {
        (appended(s, table_message(addrs, heap, off_size)), end_of(s), rows_of(addrs.len()))
    }
}

/// An image with a heap behind it whose contents are laid out, and the address of its
/// header.
pub open spec fn plan_written(s: Seq<u8>, p: PlanView, count: nat, id_len: nat, bits: nat) -> (
    Seq<u8>,
    u64,
) {
    let heap = end_of(s);
    let off_size = offset_size(bits);
    let (s1, addrs) = blocks_written(padded(s) + zeroes(146), p.blocks, heap, off_size);
    let (s2, root, rows) = root_written(s1, addrs, heap, off_size);
    let (s3, records) = huge_written(s2, p.huge);
    let (s4, tree) = if p.huge.len() == 0 {
        (s3, UNDEF)
    } else {
        leaf_written(s3, 1, 24, records)
    };
    let totals = HeapTotals {
        huge_tree: tree,
        size: total_size(p.blocks) as u64,
        managed: (count - p.huge.len()) as u64,
        huge_bytes: total_len(p.huge),
        huge_count: p.huge.len(),
        root,
        rows,
    };
    (patched(s4, padded(s).len() as int, heap_header(totals, id_len, bits)), heap)
}

/// An image with a heap that holds objects behind it, the address of its header and the
/// ids of the objects.
#[verifier::opaque]
pub open spec fn heap_written(s: Seq<u8>, objects: Seq<Seq<u8>>, id_len: nat, bits: nat) -> Result<
    (Seq<u8>, u64, Seq<Seq<u8>>),
    Seq<char>,
> {
    match planned(objects, offset_size(bits), id_len) {
        Err(e) => Err(e),
        Ok(p) => {
            let (s1, heap) = plan_written(s, p, objects.len(), id_len, bits);
            Ok((s1, heap, p.ids))
        },
    }
}

/// The number of bytes of byte strings, less a multiple of 2^64.
fn sum_lens(v: &Vec<Vec<u8>>) -> (r: u64)
    ensures
        le_bytes(r as nat, 8) == le_bytes(total_len(views_of(v@)), 8),
{
    let ghost views = views_of(v@);
    let mut sum: u128 = 0;
    let mut i: usize = 0;
    let count: usize = v.len();
    assert(views.take(0) =~= Seq::empty());
    while i < v.len()
        invariant
            i <= v@.len() == count,
            views == views_of(v@),
            sum == total_len(views.take(i as int)),
            sum <= i * usize::MAX,
        decreases v@.len() - i,
    {
        let n: usize = v[i].len();
        proof {
            assert(views.take(i + 1).drop_last() =~= views.take(i as int));
            assert(i * usize::MAX + usize::MAX == (i + 1) * usize::MAX) by (nonlinear_arith);
            assert((i + 1) * usize::MAX <= usize::MAX * usize::MAX) by (nonlinear_arith)
                requires
                    i + 1 <= usize::MAX,
            ;
            assert(usize::MAX * usize::MAX <= 0xffff_ffff_ffff_ffff * 0xffff_ffff_ffff_ffff)
                by (nonlinear_arith)
                requires
                    usize::MAX <= 0xffff_ffff_ffff_ffff,
            ;
        }
        sum = sum + n as u128;
        i += 1;
    }
    let r: u64 = (sum % 0x1_0000_0000_0000_0000) as u64;
    proof {
        assert(views.take(views.len() as int) =~= views);
        lemma_pow256();
        lemma_le_bytes_residue(sum as nat, 8, 8);
    }
    r
}

/// Writes what a heap that is laid out holds, but for its header.
pub(crate) fn write_contents(buf: &mut Vec<u8>, p: &HeapPlan, heap: u64, off_size: usize) -> (r: (
    u64,
    u64,
    u64,
))
    requires
        off_size <= 8,
        blocks_fit(p@.blocks, off_size as nat),
    ensures
        ({
            let (s1, addrs) = blocks_written(old(buf)@, p@.blocks, heap, off_size as nat);
            let (s2, root, rows) = root_written(s1, addrs, heap, off_size as nat);
            let (s3, records) = huge_written(s2, p@.huge);
            let (s4, tree) = if p@.huge.len() == 0 {
                (s3, UNDEF)
            } else {
                leaf_written(s3, 1, 24, records)
            };
            final(buf)@ == s4 && r.0 == root && r.1 == rows && r.2 == tree
        }),
        extends(final(buf)@, old(buf)@),
{
    let ghost s = buf@;
    let addrs: Vec<u64> = write_blocks(buf, &p.blocks, heap, off_size);
    let ghost s1 = buf@;
    let mut root: u64 = UNDEF;
    let mut rows: u64 = 0;
    if addrs.len() == 1 {
        root = addrs[0];
    } else if addrs.len() > 1 {
        let b: Buf = table_block(&addrs, heap, off_size);
        root = append(buf, b.bytes.as_slice());
        rows = ((addrs.len() + 3) / 4) as u64;
    }
    let ghost s2 = buf@;
    proof {
        assert(s1.take(s1.len() as int) =~= s1);
        lemma_appended(s1, table_message(addrs@, heap, off_size as nat));
        lemma_extends(s, s1, s2);
    }
    let records: Vec<Vec<u8>> = write_huge(buf, &p.huge);
    let ghost s3 = buf@;
    proof {
        lemma_extends(s, s2, s3);
    }
    let mut tree: u64 = UNDEF;
    if p.huge.len() > 0 {
        tree = write_v2btree_leaf(buf, 1, 24, &records);
        proof {
            lemma_extends(s, s3, buf@);
        }
    }
    (root, rows, tree)
}

/// Overwrites bytes of an image.
pub(crate) fn overwrite(buf: &mut Vec<u8>, at: usize, v: &[u8])
    requires
        at + v@.len() <= old(buf)@.len(),
    ensures
        final(buf)@ == patched(old(buf)@, at as int, v@),
{
    let ghost s = buf@;
    let n: usize = buf.len();
    let mut i: usize = 0;
    assert(buf@ =~= patched(s, at as int, v@.take(0)));
    while i < v.len()
        invariant
            i <= v@.len(),
            at + v@.len() <= s.len() == n == buf@.len(),
            buf@ == patched(s, at as int, v@.take(i as int)),
        decreases v@.len() - i,
    {
        buf.set(at + i, v[i]);
        i += 1;
        assert(buf@ =~= patched(s, at as int, v@.take(i as int)));
    }
    assert(v@.take(v@.len() as int) =~= v@);
}

/// The executable form of [`HeapTotals`].
struct Totals {
    huge_tree: u64,
    size: u64,
    managed: u64,
    huge_bytes: u64,
    huge_count: u64,
    root: u64,
    rows: u64,
}

impl Totals {
    spec fn totals(&self) -> HeapTotals {
        HeapTotals {
            huge_tree: self.huge_tree,
            size: self.size,
            managed: self.managed,
            huge_bytes: self.huge_bytes as nat,
            huge_count: self.huge_count as nat,
            root: self.root,
            rows: self.rows as nat,
        }
    }
}

/// The part of a header that says how much the heap holds.
pub open spec fn heap_counts(t: HeapTotals) -> Seq<u8> {
    le_bytes(t.huge_count + 1, 8) + le_bytes(t.huge_tree as nat, 8) + le_bytes(0, 8) + le_bytes(
        UNDEF as nat,
        8,
    ) + le_bytes(t.size as nat, 8) + le_bytes(t.size as nat, 8) + le_bytes(t.size as nat, 8)
        + le_bytes(t.managed as nat, 8) + le_bytes(t.huge_bytes, 8) + le_bytes(t.huge_count, 8)
        + zeroes(16)
}

fn counts_of(t: &Totals) -> (r: Buf)
    ensures
        r@ == heap_counts(t.totals()),
        r@.len() == 96,
{
    let mut h = Buf::new();
    let next: u64 = t.huge_count.wrapping_add(1);
    h.u64(next);
    h.u64(t.huge_tree);
    h.u64(0);
    h.u64(UNDEF);
    h.u64(t.size);
    h.u64(t.size);
    h.u64(t.size);
    h.u64(t.managed);
    h.u64(t.huge_bytes);
    h.u64(t.huge_count);
    h.zeros(16);
    proof {
        lemma_pow256();
        lemma_le_bytes_residue((t.huge_count + 1) as nat, 8, 8);
        assert(le_bytes(next as nat, 8) == le_bytes((t.huge_count + 1) as nat, 8));
        lemma_le_bytes_len(next as nat, 8);
        lemma_le_bytes_len(t.huge_tree as nat, 8);
        lemma_le_bytes_len(0, 8);
        lemma_le_bytes_len(UNDEF as nat, 8);
        lemma_le_bytes_len(t.size as nat, 8);
        lemma_le_bytes_len(t.managed as nat, 8);
        lemma_le_bytes_len(t.huge_bytes as nat, 8);
        lemma_le_bytes_len(t.huge_count as nat, 8);
        assert(h@ =~= heap_counts(t.totals()));
    }
    h
}

fn header_of(t: &Totals, id_len: usize, bits: usize) -> (r: Buf)
    ensures
        r@ == heap_header(t.totals(), id_len as nat, bits as nat),
        r@.len() == 146,
{
    let mut h = Buf::new();
    h.u8(70);
    h.u8(82);
    h.u8(72);
    h.u8(80);
    h.u8(0);
    push_le(&mut h.bytes, id_len as u64, 2);
    h.zeros(3);
    h.u32(4096);
    let ghost first = h@;
    let counts: Buf = counts_of(t);
    h.raw(counts.bytes.as_slice());
    let ghost second = h@;
    h.u16(4);
    h.u64(1024);
    h.u64(65536);
    push_le(&mut h.bytes, bits as u64, 2);
    h.u16(1);
    h.u64(t.root);
    push_le(&mut h.bytes, t.rows, 2);
    let ghost plain = h@;
    push_sum(&mut h);
    proof {
        lemma_le_bytes_len(id_len as nat, 2);
        lemma_le_bytes_len(4096, 4);
        assert(first =~= seq![70u8, 82u8, 72u8, 80u8, 0u8] + le_bytes(id_len as nat, 2) + zeroes(3)
            + le_bytes(4096, 4));
        assert(second =~= first + heap_counts(t.totals()));
        lemma_le_bytes_len(4, 2);
        lemma_le_bytes_len(1024, 8);
        lemma_le_bytes_len(65536, 8);
        lemma_le_bytes_len(bits as nat, 2);
        lemma_le_bytes_len(1, 2);
        lemma_le_bytes_len(t.root as nat, 8);
        lemma_le_bytes_len(t.rows as nat, 2);
        assert(plain =~= second + le_bytes(4, 2) + le_bytes(1024, 8) + le_bytes(65536, 8)
            + le_bytes(bits as nat, 2) + le_bytes(1, 2) + le_bytes(t.root as nat, 8) + le_bytes(
            t.rows as nat,
            2,
        ));
        lemma_le_bytes_len(lookup3(plain) as nat, 4);
    }
    h
}

proof fn lemma_plan_sizes(objects: Seq<Seq<u8>>, off_size: nat, id_len: nat)
    ensures
        match planned(objects, off_size, id_len) {
            Ok(p) => p.huge.len() <= objects.len() && p.ids.len() == objects.len(),
            Err(_) => true,
        },
    decreases objects.len(),
{
    if objects.len() > 0 {
        lemma_plan_sizes(objects.drop_last(), off_size, id_len);
    }
}

/// The ids of a heap have the length of ids.
pub proof fn lemma_ids_size(objects: Seq<Seq<u8>>, off_size: nat, id_len: nat)
    requires
        3 + off_size <= id_len <= 9,
    ensures
        planned(objects, off_size, id_len) matches Ok(p) ==> same_size(p.ids, id_len),
    decreases objects.len(),
{
    if objects.len() > 0 {
        lemma_ids_size(objects.drop_last(), off_size, id_len);
        match planned(objects.drop_last(), off_size, id_len) {
            Err(_) => {},
            Ok(p) => {
                let obj = objects.last();
                lemma_le_bytes_len(p.huge.len() + 1, huge_width(id_len));
                lemma_le_bytes_len(obj.len(), 2);
                match room_made(p.blocks, off_size, obj.len()) {
                    Err(_) => {},
                    Ok(blocks) => {
                        let b = blocks.last();
                        lemma_le_bytes_len(
                            b.off + block_prefix(off_size) + b.data.len(),
                            off_size,
                        );
                    },
                }
            },
        }
    }
}

/// Writes a fractal heap that holds `objects`, with ids of `id_len` bytes and offsets of
/// `bits` bits, and returns the address of its header and the ids.
pub fn write_fractal_heap(buf: &mut Vec<u8>, objects: &Vec<Vec<u8>>, id_len: usize, bits: usize)
    -> (r: Result<(u64, Vec<Vec<u8>>), Error>)
    requires
        bits <= 64,
        9 >= id_len >= 3 + offset_size(bits as nat),
    ensures
        match (r, heap_written(old(buf)@, views_of(objects@), id_len as nat, bits as nat)) {
            (Ok(x), Ok(y)) => final(buf)@ == y.0 && x.0 == y.1 && views_of(x.1@) == y.2
                && x.1@.len() == objects@.len() && extends(final(buf)@, old(buf)@) && same_size(
                y.2,
                id_len as nat,
            ),
            (Err(e), Err(y)) => e@ == y,
            _ => false,
        },
{
    let ghost s = buf@;
    reveal(heap_written);
    let off_size: usize = (bits + 7) / 8;
    let plan: HeapPlan = plan_heap(objects, off_size, id_len)?;
    pad_image(buf);
    let at: usize = buf.len();
    let heap: u64 = at as u64;
    let mut room = Buf::new();
    room.zeros(146);
    buf.extend_from_slice(room.bytes.as_slice());
    let ghost s0 = buf@;
    assert(s0 =~= padded(s) + zeroes(146));
    let (root, rows, tree) = write_contents(buf, &plan, heap, off_size);
    let ghost s4 = buf@;
    proof {
        lemma_plan_sizes(views_of(objects@), off_size as nat, id_len as nat);
        lemma_ids_size(views_of(objects@), off_size as nat, id_len as nat);
        assert(views_of(plan.ids@).len() == plan.ids@.len());
        assert(views_of(plan.huge@).len() == plan.huge@.len());
    }
    let size: u64 = sum_sizes(&plan.blocks, Ghost(off_size as nat));
    let bytes: u64 = sum_lens(&plan.huge);
    let t = Totals {
        huge_tree: tree,
        size,
        managed: (objects.len() - plan.huge.len()) as u64,
        huge_bytes: bytes,
        huge_count: plan.huge.len() as u64,
        root,
        rows,
    };
    let h: Buf = header_of(&t, id_len, bits);
    overwrite(buf, at, h.bytes.as_slice());
    proof {
        let totals = HeapTotals { huge_bytes: total_len(plan@.huge), ..t.totals() };
        assert(heap_counts(totals) == heap_counts(t.totals()));
        assert(heap_header(totals, id_len as nat, bits as nat) == h@);
        assert(extends(buf@, s)) by {
            assert(s4.take(s0.len() as int) == s0);
            assert forall|i: int| 0 <= i < s.len() implies buf@[i] == s[i] by {
                assert(s4.take(s0.len() as int)[i] == s0[i]);
            }
            assert(buf@.take(s.len() as int) =~= s);
        }
    }
    Ok((heap, plan.ids))
}

} // verus!
