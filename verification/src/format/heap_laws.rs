//! Global heaps, version 2 B-trees and fractal heaps are read as they are written.

use vstd::prelude::*;

use crate::format::bits::{lemma_pow2_monotone, lemma_pow2_sum, pow2};
use crate::format::checksum::lookup3;
use crate::format::dense::{
    block_message, block_prefix, blocks_fit, blocks_written, concat, fresh_block, heap_counts,
    heap_header, heap_written, huge_id, huge_width, huge_written, leaf_message, leaf_size,
    leaf_written, lemma_concat_len, lemma_slot, listed, managed_id, offset_size, plan_written,
    planned, planned_one, room_made, root_written, rows_of, same_size, table_message, total_len,
    total_size, tree_header, BlockView, HeapTotals, PlanView,
};
use crate::format::fheap::{
    block_of, heap_at, heap_item, heap_parsed, huge_found, lemma_rows_before, managed, part,
    row_size, table_place, HeapInfo,
};
use crate::format::gheap::{
    collection_parsed, gcol_signature, heap_object, item_bytes, items_taken, pad8, rest_at,
    ItemView,
};
use crate::format::object_laws::{keeps, lemma_appended_stands, lemma_keeps};
use crate::format::stands::{
    lemma_stands, lemma_stands_both, lemma_stands_number, lemma_stands_part, stands,
};
use crate::format::tree::{
    appended, collection_message, end_of, extends, item_message, item_messages, lemma_appended,
    lemma_extends, padded, pages,
};
use crate::format::v2::{
    btree_read, lemma_log2, level, limit_width, log2_floor, records_taken, subtree, trailing,
    TreeInfo,
};
use crate::format::{
    dropped, law_le_round_trip, le_at, le_bytes, lemma_le_bytes_len, lemma_pow256, patched, pow256,
    taken_bytes, taken_sized, zeroes, UNDEF,
};

verus! {

// Collections of the global heap.

/// The items of a collection that holds some payloads.
pub open spec fn items_of(store: Seq<Seq<u8>>) -> Seq<ItemView> {
    Seq::new(store.len(), |i: int| ItemView { index: (i + 1) as nat, bytes: store[i] })
}

/// The parts of an item.
proof fn lemma_item(index: nat, obj: Seq<u8>, s: Seq<u8>)
    requires
        index <= 0xffff,
        obj.len() <= u64::MAX,
        s.len() >= item_message(index, obj).len(),
        s.take(item_message(index, obj).len() as int) == item_message(index, obj),
    ensures
        item_message(index, obj).len() == 16 + obj.len() + pad8(obj.len() as int),
        0 <= pad8(obj.len() as int) < 8,
        le_at(s.take(16), 0, 2) == index,
        le_at(s.take(16), 8, 8) == obj.len(),
        s.skip(16).take(obj.len() as int) == obj,
{
    let m = item_message(index, obj);
    lemma_le_bytes_len(index, 2);
    lemma_le_bytes_len(1, 2);
    lemma_le_bytes_len(obj.len(), 8);
    lemma_pow256();
    law_le_round_trip(index, 2);
    law_le_round_trip(obj.len(), 8);
    assert forall|i: int| 0 <= i < m.len() implies s[i] == m[i] by {
        assert(s.take(m.len() as int)[i] == m[i]);
    }
    assert(s.take(16).subrange(0, 2) =~= le_bytes(index, 2));
    assert(s.take(16).subrange(8, 16) =~= le_bytes(obj.len(), 8));
    assert(s.skip(16).take(obj.len() as int) =~= obj);
}

/// The items at the start of bytes are read one by one.
#[verifier::rlimit(60)]
#[verifier::spinoff_prover]
proof fn lemma_items(store: Seq<Seq<u8>>, s: Seq<u8>, left: int)
    requires
        store.len() <= 0xffff,
        s.len() >= item_messages(store).len() + 16,
        s.len() <= u64::MAX,
        s.take(item_messages(store).len() as int) == item_messages(store),
        left >= item_messages(store).len() + 16,
    ensures
        items_taken(s, left, Seq::empty()) == items_taken(
            s.skip(item_messages(store).len() as int),
            left - item_messages(store).len(),
            items_of(store),
        ),
    decreases store.len(),
{
    let all = item_messages(store);
    if store.len() == 0 {
        assert(s.skip(0) =~= s);
        assert(items_of(store) =~= Seq::empty());
    } else {
        let init = store.drop_last();
        let head = item_messages(init);
        let obj = store.last();
        let m = item_message(store.len(), obj);
        assert(all =~= head + m);
        assert(s.take(head.len() as int) =~= all.take(head.len() as int));
        assert(all.take(head.len() as int) =~= head);
        lemma_items(init, s, left);
        let rest = s.skip(head.len() as int);
        assert(rest.take(m.len() as int) =~= all.skip(head.len() as int));
        assert(all.skip(head.len() as int) =~= m);
        lemma_le_bytes_len(obj.len(), 8);
        assert(m.len() >= obj.len());
        lemma_item(store.len(), obj, rest);
        let pad = pad8(obj.len() as int);
        let r2 = rest.skip(16).skip(obj.len() as int);
        assert(dropped(r2, pad) =~= s.skip(all.len() as int));
        assert(items_of(store) =~= items_of(init).push(
            ItemView { index: store.len(), bytes: obj },
        ));
    }
}

proof fn lemma_item_bytes(store: Seq<Seq<u8>>, i: int)
    requires
        0 <= i < store.len(),
    ensures
        item_bytes(items_of(store), (i + 1) as nat) == store[i],
    decreases store.len(),
{
    let items = items_of(store);
    if i < store.len() - 1 {
        lemma_item_bytes(store.drop_last(), i);
        assert(items.drop_last() =~= items_of(store.drop_last()));
    }
}

/// The parts of a collection.
proof fn lemma_collection(s: Seq<u8>, store: Seq<Seq<u8>>)
    requires
        stands(s, 0, collection_message(store)),
        s.len() <= u64::MAX,
    ensures
        ({
            let n = item_messages(store).len() as int;
            let total = pages((n + 32) as nat);
            &&& n + 32 <= total <= s.len()
            &&& s.take(4) == gcol_signature()
            &&& le_at(s, 8, 8) == total
            &&& stands(s, 16, item_messages(store))
            &&& stands(s, 16 + n, zeroes(8))
        }),
{
    let items = item_messages(store);
    let total = pages(items.len() + 32);
    let h0 = seq![71u8, 67u8, 79u8, 76u8, 1u8, 0u8, 0u8, 0u8];
    let h1 = h0 + le_bytes(total, 8);
    let h2 = h1 + items;
    let h3 = h2 + zeroes(8);
    let h4 = h3 + le_bytes((total - 16 - items.len()) as nat, 8);
    let fill = zeroes((total - 32 - items.len()) as nat);
    lemma_le_bytes_len(total, 8);
    lemma_le_bytes_len((total - 16 - items.len()) as nat, 8);
    assert(collection_message(store) == h4 + fill);
    lemma_stands_both(s, 0, h4, fill);
    lemma_stands_both(s, 0, h3, le_bytes((total - 16 - items.len()) as nat, 8));
    lemma_stands_both(s, 0, h2, zeroes(8));
    lemma_stands_both(s, 0, h1, items);
    lemma_stands_both(s, 0, h0, le_bytes(total, 8));
    lemma_pow256();
    lemma_stands_number(s, 8, total, 8);
    lemma_stands(s, 0, h0);
    assert(s.take(4) =~= gcol_signature()) by {
        assert(h0[0] == s[0] && h0[1] == s[1] && h0[2] == s[2] && h0[3] == s[3]);
    }
}

/// The items of a collection are read.
proof fn lemma_collection_items(data: Seq<u8>, base: u64, addr: u64, store: Seq<Seq<u8>>)
    requires
        stands(data, base + addr, collection_message(store)),
        data.len() <= u64::MAX,
        store.len() <= 0xffff,
    ensures
        collection_parsed(rest_at(data, base + addr)) == Ok::<Seq<ItemView>, Seq<char>>(
            items_of(store),
        ),
{
    let items = item_messages(store);
    let n = items.len() as int;
    let total = pages(items.len() + 32);
    let s = rest_at(data, base + addr);
    lemma_stands_rest(data, base + addr, collection_message(store));
    lemma_collection(s, store);
    assert(dropped(s.skip(4).skip(1), 3) =~= s.skip(8));
    assert(s.skip(8).take(8) =~= s.subrange(8, 16));
    let r3 = s.skip(8).skip(8);
    assert(r3.take(n) =~= s.subrange(16, 16 + n));
    lemma_items(store, r3, total - 16);
    let tail = r3.skip(n);
    assert(tail.take(16).subrange(0, 2) =~= zeroes(8).subrange(0, 2)) by {
        lemma_stands(s, 16 + n, zeroes(8));
        assert(zeroes(8)[0] == s[16 + n + 0] && zeroes(8)[1] == s[16 + n + 1]);
    }
    crate::format::fixup::lemma_zero_bytes(2);
    assert(zeroes(8).subrange(0, 2) =~= zeroes(2));
    lemma_pow256();
    law_le_round_trip(0, 2);
    assert(collection_parsed(s) == items_taken(r3, total - 16, Seq::empty()));
}

/// A collection that was written is read: the object number `i + 1` is the payload
/// number `i`.
pub proof fn law_collection_read(
    data: Seq<u8>,
    base: u64,
    addr: u64,
    store: Seq<Seq<u8>>,
    i: int,
)
    requires
        stands(data, base + addr, collection_message(store)),
        data.len() <= u64::MAX,
        store.len() <= 0xffff,
        0 <= i < store.len(),
    ensures
        heap_object(data, base, addr, (i + 1) as u64) == Ok::<Seq<u8>, Seq<char>>(store[i]),
{
    lemma_collection_items(data, base, addr, store);
    lemma_item_bytes(store, i);
}

proof fn lemma_no_item(store: Seq<Seq<u8>>, idx: nat)
    requires
        idx > store.len(),
    ensures
        item_bytes(items_of(store), idx) == Seq::<u8>::empty(),
    decreases store.len(),
{
    let items = items_of(store);
    if store.len() > 0 {
        lemma_no_item(store.drop_last(), idx);
        assert(items.drop_last() =~= items_of(store.drop_last()));
    }
}

/// A number beyond those of a collection gives nothing.
pub proof fn lemma_beyond(data: Seq<u8>, base: u64, addr: u64, store: Seq<Seq<u8>>, idx: u64)
    requires
        stands(data, base + addr, collection_message(store)),
        data.len() <= u64::MAX,
        store.len() <= 0xffff,
        idx > store.len(),
    ensures
        heap_object(data, base, addr, idx) == Ok::<Seq<u8>, Seq<char>>(Seq::empty()),
{
    lemma_collection_items(data, base, addr, store);
    lemma_no_item(store, idx as nat);
}

// Version 2 B-trees of one leaf.

/// Records that stand one behind the other are read one by one.
proof fn lemma_records(records: Seq<Seq<u8>>, size: nat, k: nat, s: Seq<u8>)
    requires
        same_size(records, size),
        k <= records.len(),
        s.len() >= concat(records.skip(k as int)).len(),
        s.take(concat(records.skip(k as int)).len() as int) == concat(records.skip(k as int)),
    ensures
        records_taken(s, size, (records.len() - k) as nat, records.take(k as int)) matches Ok(x)
            && x.0 == records,
    decreases records.len() - k,
{
    let rest = records.skip(k as int);
    if k == records.len() {
        assert(records.take(k as int) =~= records);
    } else {
        lemma_concat_front(rest);
        assert(rest.skip(1) =~= records.skip((k + 1) as int));
        assert(rest[0] == records[k as int]);
        let whole = concat(rest);
        assert(s.take(size as int) =~= s.take(whole.len() as int).take(size as int));
        assert(whole.take(size as int) =~= records[k as int]);
        let tail = concat(records.skip((k + 1) as int));
        assert(s.skip(size as int).take(tail.len() as int) =~= whole.skip(size as int));
        assert(whole.skip(size as int) =~= tail);
        lemma_records(records, size, k + 1, s.skip(size as int));
        assert(records.take(k as int).push(records[k as int]) =~= records.take((k + 1) as int));
    }
}

/// The first of some byte strings stands before the others.
proof fn lemma_concat_front(v: Seq<Seq<u8>>)
    requires
        v.len() > 0,
    ensures
        concat(v) == v[0] + concat(v.skip(1)),
    decreases v.len(),
{
    if v.len() == 1 {
        assert(v.drop_last() =~= Seq::empty());
        assert(v.skip(1) =~= Seq::empty());
        assert(concat(v) =~= v[0] + concat(v.skip(1)));
    } else {
        lemma_concat_front(v.drop_last());
        assert(v.drop_last().skip(1) =~= v.skip(1).drop_last());
        assert(v.skip(1).last() == v.last());
        assert(concat(v) =~= v[0] + concat(v.skip(1)));
    }
}

/// The fields of the header of a tree.
proof fn lemma_tree_header(s: Seq<u8>, kind: u8, size: nat, count: nat, leaf: u64)
    requires
        stands(s, 0, tree_header(kind, size, count, leaf)),
        size <= 0xffff,
        count <= 0xffff,
        leaf_size(count, size) < 0x1_0000_0000,
    ensures
        s.len() >= 38,
        s.take(4) == seq![66u8, 84u8, 72u8, 68u8],
        s[4] == 0,
        s[5] == kind,
        le_at(s, 6, 4) == leaf_size(count, size),
        le_at(s, 10, 2) == size,
        le_at(s, 12, 2) == 0,
        le_at(s, 16, 8) == leaf,
        le_at(s, 24, 2) == count,
{
    let node = leaf_size(count, size);
    let h0 = seq![66u8, 84u8, 72u8, 68u8, 0u8, kind];
    let h1 = h0 + le_bytes(node, 4);
    let h2 = h1 + le_bytes(size, 2);
    let h3 = h2 + le_bytes(0, 2);
    let h4 = h3 + seq![100u8, 40u8];
    let h5 = h4 + le_bytes(leaf as nat, 8);
    let h6 = h5 + le_bytes(count, 2);
    let h7 = h6 + le_bytes(count, 8);
    lemma_le_bytes_len(node, 4);
    lemma_le_bytes_len(size, 2);
    lemma_le_bytes_len(0, 2);
    lemma_le_bytes_len(leaf as nat, 8);
    lemma_le_bytes_len(count, 2);
    lemma_le_bytes_len(count, 8);
    lemma_le_bytes_len(lookup3(h7) as nat, 4);
    lemma_pow256();
    lemma_stands(s, 0, tree_header(kind, size, count, leaf));
    lemma_stands_both(s, 0, h7, le_bytes(lookup3(h7) as nat, 4));
    lemma_stands_both(s, 0, h6, le_bytes(count, 8));
    lemma_stands_both(s, 0, h5, le_bytes(count, 2));
    lemma_stands_both(s, 0, h4, le_bytes(leaf as nat, 8));
    lemma_stands_both(s, 0, h3, seq![100u8, 40u8]);
    lemma_stands_both(s, 0, h2, le_bytes(0, 2));
    lemma_stands_both(s, 0, h1, le_bytes(size, 2));
    lemma_stands_both(s, 0, h0, le_bytes(node, 4));
    lemma_stands_number(s, 24, count, 2);
    lemma_stands_number(s, 16, leaf as nat, 8);
    lemma_stands_number(s, 12, 0, 2);
    lemma_stands_number(s, 10, size, 2);
    lemma_stands_number(s, 6, node, 4);
    lemma_stands(s, 0, h0);
    assert(h0[4] == s[4] && h0[5] == s[5]);
    assert(s.take(4) =~= seq![66u8, 84u8, 72u8, 68u8]) by {
        assert(h0[0] == s[0] && h0[1] == s[1] && h0[2] == s[2] && h0[3] == s[3]);
    }
}

/// What stands at a place stands at the start of what follows it.
proof fn lemma_stands_rest(data: Seq<u8>, pos: int, s: Seq<u8>)
    requires
        stands(data, pos, s),
    ensures
        stands(rest_at(data, pos), 0, s),
{
    lemma_stands(data, pos, s);
    assert(rest_at(data, pos).subrange(0, s.len() as int) =~= rest_at(data, pos).take(
        s.len() as int,
    ));
}

/// The records of a leaf that stands at an address.
proof fn lemma_leaf(t: TreeInfo, addr: u64, records: Seq<Seq<u8>>)
    requires
        stands(t.data, t.base + addr, leaf_message(t.btree_type, t.rec, records)),
        same_size(records, t.rec),
        records.len() <= u64::MAX,
    ensures
        subtree(t, addr, records.len() as u64, 0, Seq::empty()) == Ok::<Seq<Seq<u8>>, Seq<char>>(
            records,
        ),
{
    let h = seq![66u8, 84u8, 76u8, 70u8, 0u8, t.btree_type];
    let body = h + concat(records);
    let sum = le_bytes(lookup3(body) as nat, 4);
    let m = leaf_message(t.btree_type, t.rec, records);
    let s = rest_at(t.data, t.base + addr);
    lemma_stands_rest(t.data, t.base + addr, m);
    lemma_le_bytes_len(lookup3(body) as nat, 4);
    assert(m.subrange(0, body.len() as int) =~= body);
    lemma_stands_part(s, 0, m, 0, body.len() as int);
    lemma_stands_both(s, 0, h, concat(records));
    lemma_stands(s, 0, h);
    assert(s.take(4) =~= seq![66u8, 84u8, 76u8, 70u8]) by {
        assert(h[0] == s[0] && h[1] == s[1] && h[2] == s[2] && h[3] == s[3]);
    }
    assert(s.skip(4).take(2)[1] == t.btree_type) by {
        assert(h[5] == s[5]);
    }
    let r2 = s.skip(4).skip(2);
    assert(records.skip(0) =~= records);
    assert(r2.take(concat(records).len() as int) =~= s.subrange(6, (6 + concat(records).len()) as int));
    assert(records.take(0) =~= Seq::empty());
    lemma_records(records, t.rec, 0, r2);
    assert(Seq::<Seq<u8>>::empty() + records =~= records);
}

/// A tree of one leaf that was written is read from any file that holds the image.
pub proof fn law_leaf_read(
    data: Seq<u8>,
    base: u64,
    s: Seq<u8>,
    kind: u8,
    size: nat,
    records: Seq<Seq<u8>>,
    from: nat,
)
    requires
        ({
            let (out, addr) = leaf_written(s, kind, size, records);
            &&& keeps(data, base, out, from)
            &&& out.len() < u64::MAX
        }),
        from <= s.len(),
        same_size(records, size),
        0 < size <= 0xffff,
        records.len() <= 0xffff,
    ensures
        btree_read(data, base, leaf_written(s, kind, size, records).1) == Ok::<
            (u8, Seq<Seq<u8>>),
            Seq<char>,
        >((kind, records)),
{
    let leaf = leaf_message(kind, size, records);
    let s1 = appended(s, leaf);
    let head = tree_header(kind, size, records.len(), end_of(s));
    let out = appended(s1, head);
    let addr = end_of(s1);
    lemma_appended(s, leaf);
    lemma_appended(s1, head);
    lemma_appended_stands(s, leaf);
    lemma_appended_stands(s1, head);
    lemma_extends_stands(out, s1, padded(s).len() as int, leaf);
    lemma_keeps(data, base, out, from, padded(s).len() as int, leaf);
    lemma_keeps(data, base, out, from, padded(s1).len() as int, head);
    lemma_concat_len(records, size);
    assert(records.len() * size <= 0xffff * 0xffff) by (nonlinear_arith)
        requires
            records.len() <= 0xffff,
            size <= 0xffff,
    ;
    let rest = rest_at(data, base + addr);
    lemma_stands_rest(data, base + addr, head);
    lemma_tree_header(rest, kind, size, records.len(), end_of(s));
    let node = leaf_size(records.len(), size);
    let t = TreeInfo { data, base, btree_type: kind, node, rec: size };
    assert(level(node, size, 0) is Ok);
    lemma_leaf(t, end_of(s), records);
    if records.len() == 0 {
        assert(records =~= Seq::empty());
    }
}

/// What stands in an image stands in one that starts with it.
pub proof fn lemma_extends_stands(out: Seq<u8>, s: Seq<u8>, at: int, b: Seq<u8>)
    requires
        extends(out, s),
        stands(s, at, b),
    ensures
        stands(out, at, b),
{
    assert(out.subrange(at, at + b.len()) =~= out.take(s.len() as int).subrange(at, at + b.len()));
}

/// A tree that is written leaves the image before it as it is.
pub proof fn lemma_leaf_extends(s: Seq<u8>, kind: u8, size: nat, records: Seq<Seq<u8>>)
    ensures
        extends(leaf_written(s, kind, size, records).0, s),
{
    let s1 = appended(s, leaf_message(kind, size, records));
    lemma_appended(s, leaf_message(kind, size, records));
    let head = tree_header(kind, size, records.len(), end_of(s));
    lemma_appended(s1, head);
    lemma_extends(s, s1, appended(s1, head));
}

// Fractal heaps.

/// Where an object stands in a heap that is being built: the number of a large object,
/// or the number of a block and a place behind its prefix.
pub open spec fn placed(
    p: PlanView,
    off_size: nat,
    id_len: nat,
    id: Seq<u8>,
    obj: Seq<u8>,
    b: int,
    at: int,
) -> bool {
    if obj.len() > 4096 {
        0 <= b < p.huge.len() && p.huge[b] == obj && id == huge_id((b + 1) as nat, id_len)
    } else {
        &&& 0 <= b < p.blocks.len()
        &&& 0 <= at
        &&& at + obj.len() <= p.blocks[b].data.len()
        &&& p.blocks[b].data.subrange(at, at + obj.len()) == obj
        &&& id == managed_id(
            (p.blocks[b].off + block_prefix(off_size) + at) as nat,
            obj.len(),
            off_size,
            id_len,
        )
    }
}

/// Opening blocks leaves those before as they are.
proof fn lemma_room(blocks: Seq<BlockView>, off_size: nat, len: nat)
    requires
        blocks_fit(blocks, off_size),
        off_size <= 8,
    ensures
        room_made(blocks, off_size, len) matches Ok(out) ==> {
            &&& blocks_fit(out, off_size)
            &&& blocks.len() <= out.len()
            &&& out.len() > 0
            &&& out.take(blocks.len() as int) == blocks
            &&& block_prefix(off_size) + out.last().data.len() + len <= out.last().size
        },
    decreases 32 - blocks.len(),
{
    if blocks.len() > 0 && block_prefix(off_size) + blocks.last().data.len() + len
        <= blocks.last().size {
        assert(blocks.take(blocks.len() as int) =~= blocks);
    } else if blocks.len() < 32 {
        let more = blocks.push(fresh_block(blocks.len()));
        lemma_slot(blocks.len());
        assert(blocks_fit(more, off_size)) by {
            assert forall|i: int| 0 <= i < more.len() implies {
                &&& (#[trigger] more[i]).off == fresh_block(i as nat).off
                &&& more[i].size == fresh_block(i as nat).size
                &&& block_prefix(off_size) + more[i].data.len() <= more[i].size
            } by {
                if i < blocks.len() {
                    assert(more[i] == blocks[i]);
                }
            }
        }
        lemma_room(more, off_size, len);
        if let Ok(out) = room_made(more, off_size, len) {
            assert(out.take(blocks.len() as int) =~= out.take(more.len() as int).take(
                blocks.len() as int,
            ));
            assert(more.take(blocks.len() as int) =~= blocks);
        }
    }
}

/// What is placed stays where it is when another object comes in.
proof fn lemma_placed_one(
    p: PlanView,
    q: PlanView,
    next: Seq<u8>,
    off_size: nat,
    id_len: nat,
)
    requires
        planned_one(p, next, off_size, id_len) == Ok::<PlanView, Seq<char>>(q),
        blocks_fit(p.blocks, off_size),
        off_size <= 8,
    ensures
        blocks_fit(q.blocks, off_size),
        q.ids.len() == p.ids.len() + 1,
        q.ids.take(p.ids.len() as int) == p.ids,
        q.huge.len() <= p.huge.len() + 1,
        exists|b: int, at: int| placed(q, off_size, id_len, q.ids.last(), next, b, at),
        forall|id: Seq<u8>, obj: Seq<u8>, b: int, at: int|
            placed(p, off_size, id_len, id, obj, b, at) ==> #[trigger] placed(
                q,
                off_size,
                id_len,
                id,
                obj,
                b,
                at,
            ),
{
    lemma_room(p.blocks, off_size, next.len());
    assert(q.ids.take(p.ids.len() as int) =~= p.ids);
    if next.len() > 4096 {
        assert(placed(q, off_size, id_len, q.ids.last(), next, p.huge.len() as int, 0));
    } else {
        let out = room_made(p.blocks, off_size, next.len())->Ok_0;
        let last = out.len() - 1;
        let at = out.last().data.len() as int;
        assert forall|i: int| 0 <= i < p.blocks.len() implies #[trigger] out[i] == p.blocks[i] by {
            assert(out.take(p.blocks.len() as int)[i] == p.blocks[i]);
        }
        assert(q.blocks[last].data.subrange(at, at + next.len()) =~= next);
        assert(placed(q, off_size, id_len, q.ids.last(), next, last, at));
        assert(blocks_fit(q.blocks, off_size)) by {
            assert forall|i: int| 0 <= i < q.blocks.len() implies {
                &&& (#[trigger] q.blocks[i]).off == fresh_block(i as nat).off
                &&& q.blocks[i].size == fresh_block(i as nat).size
                &&& block_prefix(off_size) + q.blocks[i].data.len() <= q.blocks[i].size
            } by {
                assert(out[i].off == fresh_block(i as nat).off);
            }
        }
        assert forall|id: Seq<u8>, obj: Seq<u8>, b: int, k: int|
            placed(p, off_size, id_len, id, obj, b, k) implies #[trigger] placed(
            q,
            off_size,
            id_len,
            id,
            obj,
            b,
            k,
        ) by {
            if obj.len() <= 4096 {
                assert(out[b] == p.blocks[b]);
                if b == last {
                    assert(q.blocks[b].data.subrange(k, k + obj.len()) =~= p.blocks[b].data.subrange(
                        k,
                        k + obj.len(),
                    ));
                }
            }
        }
    }
}

/// Every object has its place.
proof fn lemma_placed(objects: Seq<Seq<u8>>, off_size: nat, id_len: nat, p: PlanView, i: int) -> (r:
    (int, int))
    requires
        planned(objects, off_size, id_len) == Ok::<PlanView, Seq<char>>(p),
        off_size <= 8,
        0 <= i < objects.len(),
    ensures
        placed(p, off_size, id_len, p.ids[i], objects[i], r.0, r.1),
    decreases objects.len(),
{
    let init = objects.drop_last();
    let q = planned(init, off_size, id_len)->Ok_0;
    lemma_plan(init, off_size, id_len, q);
    lemma_placed_one(q, p, objects.last(), off_size, id_len);
    if i < init.len() {
        let (b, at) = lemma_placed(init, off_size, id_len, q, i);
        assert(p.ids.take(q.ids.len() as int)[i] == q.ids[i]);
        assert(placed(p, off_size, id_len, q.ids[i], init[i], b, at));
        (b, at)
    } else {
        let (b, at) = choose|b: int, at: int|
            placed(p, off_size, id_len, p.ids.last(), objects.last(), b, at);
        (b, at)
    }
}

pub(crate) proof fn lemma_plan(objects: Seq<Seq<u8>>, off_size: nat, id_len: nat, p: PlanView)
    requires
        planned(objects, off_size, id_len) == Ok::<PlanView, Seq<char>>(p),
        off_size <= 8,
    ensures
        blocks_fit(p.blocks, off_size),
        p.ids.len() == objects.len(),
        p.huge.len() <= objects.len(),
    decreases objects.len(),
{
    if objects.len() > 0 {
        let q = planned(objects.drop_last(), off_size, id_len)->Ok_0;
        lemma_plan(objects.drop_last(), off_size, id_len, q);
        lemma_placed_one(q, p, objects.last(), off_size, id_len);
    }
}

/// Blocks stand at their addresses.
proof fn lemma_blocks(s: Seq<u8>, blocks: Seq<BlockView>, heap: u64, off_size: nat, i: int)
    ensures
        extends(blocks_written(s, blocks, heap, off_size).0, s),
        blocks_written(s, blocks, heap, off_size).1.len() == blocks.len(),
        0 <= i < blocks.len() && blocks_written(s, blocks, heap, off_size).0.len() <= u64::MAX ==> {
            let (out, addrs) = blocks_written(s, blocks, heap, off_size);
            &&& stands(out, addrs[i] as int, block_message(blocks[i], heap, off_size))
            &&& addrs[i] >= s.len()
        },
    decreases blocks.len(),
{
    if blocks.len() == 0 {
        assert(s.take(s.len() as int) =~= s);
    } else {
        let init = blocks.drop_last();
        let (s1, addrs) = blocks_written(s, init, heap, off_size);
        let m = block_message(blocks.last(), heap, off_size);
        lemma_appended(s1, m);
        lemma_blocks(s, init, heap, off_size, i);
        lemma_appended_stands(s1, m);
        lemma_extends(s, s1, appended(s1, m));
        if 0 <= i < init.len() && appended(s1, m).len() <= u64::MAX {
            assert(blocks[i] == init[i]);
            lemma_extends_stands(
                appended(s1, m),
                s1,
                addrs[i] as int,
                block_message(blocks[i], heap, off_size),
            );
        }
    }
}

/// Large objects stand at their addresses, which their records give.
proof fn lemma_huge(s: Seq<u8>, huge: Seq<Seq<u8>>, i: int)
    ensures
        extends(huge_written(s, huge).0, s),
        huge_written(s, huge).1.len() == huge.len(),
        same_size(huge_written(s, huge).1, 24),
        0 <= i < huge.len() && huge.len() <= 0xffff && huge_written(s, huge).0.len() <= u64::MAX ==> {
            let (out, records) = huge_written(s, huge);
            &&& stands(out, le_at(records[i], 0, 8) as int, huge[i])
            &&& le_at(records[i], 0, 8) >= s.len()
            &&& le_at(records[i], 8, 8) == huge[i].len()
            &&& le_at(records[i], 16, 8) == i + 1
        },
    decreases huge.len(),
{
    if huge.len() == 0 {
        assert(s.take(s.len() as int) =~= s);
    } else {
        let init = huge.drop_last();
        let (s1, records) = huge_written(s, init);
        let obj = huge.last();
        lemma_appended(s1, obj);
        lemma_huge(s, init, i);
        lemma_appended_stands(s1, obj);
        lemma_extends(s, s1, appended(s1, obj));
        let rec = huge_written(s, huge).1.last();
        let a = end_of(s1) as nat;
        lemma_le_bytes_len(a, 8);
        lemma_le_bytes_len(obj.len(), 8);
        lemma_le_bytes_len(huge.len(), 8);
        assert(same_size(records.push(rec), 24)) by {
            assert forall|k: int| 0 <= k < records.len() + 1 implies (#[trigger] records.push(
                rec,
            )[k]).len() == 24 by {
                if k < records.len() {
                    assert(records[k].len() == 24);
                }
            }
        }
        let small = huge.len() <= 0xffff && appended(s1, obj).len() <= u64::MAX;
        if 0 <= i < init.len() && small {
            assert(huge[i] == init[i]);
            assert(records.push(rec)[i] == records[i]);
            lemma_extends_stands(
                appended(s1, obj),
                s1,
                le_at(records[i], 0, 8) as int,
                huge[i],
            );
        } else if i == init.len() && small {
            lemma_pow256();
            law_le_round_trip(a, 8);
            law_le_round_trip(obj.len(), 8);
            law_le_round_trip(huge.len(), 8);
            assert(rec.subrange(0, 8) =~= le_bytes(a, 8));
            assert(rec.subrange(8, 16) =~= le_bytes(obj.len(), 8));
            assert(rec.subrange(16, 24) =~= le_bytes(huge.len(), 8));
        }
    }
}

/// The header of a heap whose contents are laid out.
pub open spec fn header_of(huge_tree: u64, root: u64, rows: nat, id_len: nat, bits: nat) -> HeapInfo {
    HeapInfo {
        id_len,
        width: 4,
        start: 1024,
        max_direct: 65536,
        root,
        cur_rows: rows,
        off_size: offset_size(bits),
        len_size: 2,
        stored: 0,
        mask: 0,
        filters: Seq::empty(),
        huge_addr: huge_tree,
        given: Seq::empty(),
    }
}

proof fn lemma_widths()
    ensures
        limit_width(65536) == 3,
        limit_width(4096) == 2,
        trailing(1024) == 10,
        trailing(4) == 2,
        trailing(65536) == 16,
        pow2(10) == 1024,
        pow2(2) == 4,
        pow2(16) == 65536,
{
    reveal_with_fuel(log2_floor, 18);
    reveal_with_fuel(trailing, 18);
    reveal_with_fuel(pow2, 18);
}

/// The counts of a heap header: of what they hold only the place of the tree of large
/// objects is read.
proof fn lemma_counts(s: Seq<u8>, pos: int, t: HeapTotals)
    requires
        stands(s, pos, heap_counts(t)),
    ensures
        heap_counts(t).len() == 96,
        stands(s, pos + 8, le_bytes(t.huge_tree as nat, 8)),
{
    let c0 = le_bytes(t.huge_count + 1, 8);
    let c1 = c0 + le_bytes(t.huge_tree as nat, 8);
    lemma_le_bytes_len(t.huge_count + 1, 8);
    lemma_le_bytes_len(t.huge_tree as nat, 8);
    lemma_le_bytes_len(0, 8);
    lemma_le_bytes_len(UNDEF as nat, 8);
    lemma_le_bytes_len(t.size as nat, 8);
    lemma_le_bytes_len(t.managed as nat, 8);
    lemma_le_bytes_len(t.huge_bytes, 8);
    lemma_le_bytes_len(t.huge_count, 8);
    let all = heap_counts(t);
    assert(all.subrange(8, 16) =~= le_bytes(t.huge_tree as nat, 8));
    lemma_stands_part(s, pos, all, 8, 16);
}

/// The header of a heap is read.
proof fn lemma_heap_header(s: Seq<u8>, t: HeapTotals, id_len: nat, bits: nat)
    requires
        stands(s, 0, heap_header(t, id_len, bits)),
        id_len <= 0xffff,
        bits <= 0xffff,
        t.rows <= 0xffff,
    ensures
        heap_parsed(s) == Ok::<HeapInfo, Seq<char>>(
            header_of(t.huge_tree, t.root, t.rows, id_len, bits),
        ),
        heap_header(t, id_len, bits).len() == 146,
{
    let a0 = seq![70u8, 82u8, 72u8, 80u8, 0u8];
    let a1 = a0 + le_bytes(id_len, 2);
    let a2 = a1 + zeroes(3);
    let a3 = a2 + le_bytes(4096, 4);
    let a4 = a3 + heap_counts(t);
    let a5 = a4 + le_bytes(4, 2);
    let a6 = a5 + le_bytes(1024, 8);
    let a7 = a6 + le_bytes(65536, 8);
    let a8 = a7 + le_bytes(bits, 2);
    let a9 = a8 + le_bytes(1, 2);
    let a10 = a9 + le_bytes(t.root as nat, 8);
    let a11 = a10 + le_bytes(t.rows, 2);
    let sum = le_bytes(lookup3(a11) as nat, 4);
    lemma_le_bytes_len(id_len, 2);
    lemma_le_bytes_len(4096, 4);
    lemma_le_bytes_len(4, 2);
    lemma_le_bytes_len(1024, 8);
    lemma_le_bytes_len(65536, 8);
    lemma_le_bytes_len(bits, 2);
    lemma_le_bytes_len(1, 2);
    lemma_le_bytes_len(t.root as nat, 8);
    lemma_le_bytes_len(t.rows, 2);
    lemma_le_bytes_len(lookup3(a11) as nat, 4);
    lemma_pow256();
    lemma_stands_both(s, 0, a11, sum);
    lemma_stands_both(s, 0, a10, le_bytes(t.rows, 2));
    lemma_stands_both(s, 0, a9, le_bytes(t.root as nat, 8));
    lemma_stands_both(s, 0, a8, le_bytes(1, 2));
    lemma_stands_both(s, 0, a7, le_bytes(bits, 2));
    lemma_stands_both(s, 0, a6, le_bytes(65536, 8));
    lemma_stands_both(s, 0, a5, le_bytes(1024, 8));
    lemma_stands_both(s, 0, a4, le_bytes(4, 2));
    lemma_stands_both(s, 0, a3, heap_counts(t));
    lemma_stands_both(s, 0, a2, le_bytes(4096, 4));
    lemma_stands_both(s, 0, a1, zeroes(3));
    lemma_stands_both(s, 0, a0, le_bytes(id_len, 2));
    lemma_counts(s, 14, t);
    lemma_stands_number(s, 5, id_len, 2);
    lemma_stands_number(s, 10, 4096, 4);
    lemma_stands_number(s, 22, t.huge_tree as nat, 8);
    lemma_stands_number(s, 110, 4, 2);
    lemma_stands_number(s, 112, 1024, 8);
    lemma_stands_number(s, 120, 65536, 8);
    lemma_stands_number(s, 128, bits, 2);
    lemma_stands_number(s, 132, t.root as nat, 8);
    lemma_stands_number(s, 140, t.rows, 2);
    crate::format::fixup::lemma_zero_bytes(2);
    assert(zeroes(3).subrange(0, 2) =~= zeroes(2));
    lemma_stands_part(s, 7, zeroes(3), 0, 2);
    lemma_stands_number(s, 7, 0, 2);
    lemma_stands(s, 0, a0);
    assert(a0[4] == s[4]);
    assert(s.take(4) =~= seq![70u8, 82u8, 72u8, 80u8]) by {
        assert(a0[0] == s[0] && a0[1] == s[1] && a0[2] == s[2] && a0[3] == s[3]);
    }
    lemma_widths();
}

/// The table gives for an offset the block in which it lies.
proof fn lemma_table_place(slot: nat, off: nat)
    requires
        slot < 32,
        fresh_block(slot).off <= off < fresh_block(slot).off + fresh_block(slot).size,
    ensures
        table_place(10, 2, off) == (slot / 4, slot % 4),
{
    let (row, col) = (slot / 4, slot % 4);
    lemma_rows_before(10, 2, row);
    lemma_widths();
    lemma_pow2_sum(10, 2);
    let size = row_size(10, row);
    assert(size * col + size == size * (col + 1) && size * (col + 1) <= size * 4)
        by (nonlinear_arith)
        requires
            col <= 3,
    ;
    if row == 0 {
        assert(off < pow2(12));
        assert(off / 1024 == col) by (nonlinear_arith)
            requires
                1024 * col <= off < 1024 * (col + 1),
        ;
    } else {
        let h = (11 + row) as nat;
        lemma_pow2_sum((10 + row - 1) as nat, 2);
        reveal_with_fuel(pow2, 2);
        assert(pow2(h) <= off < pow2((h + 1) as nat));
        lemma_log2(off);
        let g = log2_floor(off);
        if g < h {
            lemma_pow2_monotone(g + 1, h);
        } else if g > h {
            lemma_pow2_monotone((h + 1) as nat, g);
        }
        lemma_pow2_monotone(12, h);
        let x = off - pow2(h);
        assert(x / size as int == col) by (nonlinear_arith)
            requires
                size * col <= x < size * (col + 1),
                size > 0,
        ;
    }
}

/// The addresses that an indirect block lists.
proof fn lemma_listed(addrs: Seq<u64>, n: nat, k: int)
    ensures
        listed(addrs, n).len() == 8 * n,
        0 <= k < n && k < addrs.len() ==> listed(addrs, n).subrange(8 * k, 8 * k + 8) == le_bytes(
            addrs[k] as nat,
            8,
        ),
    decreases n,
{
    if n > 0 {
        lemma_listed(addrs, (n - 1) as nat, k);
        let v = (if n - 1 < addrs.len() {
            addrs[n - 1]
        } else {
            UNDEF
        }) as nat;
        lemma_le_bytes_len(v, 8);
        let before = listed(addrs, (n - 1) as nat);
        let all = listed(addrs, n);
        if 0 <= k < n - 1 {
            assert(all.subrange(8 * k, 8 * k + 8) =~= before.subrange(8 * k, 8 * k + 8));
        } else if k == n - 1 {
            assert(all.subrange(8 * k, 8 * k + 8) =~= le_bytes(v, 8));
        }
    }
}

/// The parts of an indirect block.
proof fn lemma_table(s: Seq<u8>, w: nat, heap: u64, addrs: Seq<u64>, slot: nat)
    requires
        stands(s, 0, table_message(addrs, heap, w)),
        w <= 8,
        slot < addrs.len(),
    ensures
        s.len() >= 13 + w,
        s.take(4) == seq![70u8, 72u8, 73u8, 66u8],
        taken_sized(s.skip(4).skip(9), w) == Ok::<(nat, Seq<u8>), Seq<char>>(
            (0, s.skip(13 + w as int)),
        ),
        taken_bytes(dropped(s.skip(13 + w as int), 8 * slot as int), 8) matches Ok(x) && le_at(
            x.0,
            0,
            8,
        ) == addrs[slot as int],
{
    let n = (rows_of(addrs.len()) * 4) as nat;
    let t0 = seq![70u8, 72u8, 73u8, 66u8, 0u8];
    let t1 = t0 + le_bytes(heap as nat, 8);
    let t2 = t1 + zeroes(w);
    let list = listed(addrs, n);
    let t3 = t2 + list;
    lemma_le_bytes_len(heap as nat, 8);
    lemma_stands_both(s, 0, t3, le_bytes(lookup3(t3) as nat, 4));
    lemma_stands_both(s, 0, t2, list);
    lemma_stands_both(s, 0, t1, zeroes(w));
    lemma_stands_both(s, 0, t0, le_bytes(heap as nat, 8));
    lemma_stands(s, 0, t0);
    assert(s.take(4) =~= seq![70u8, 72u8, 73u8, 66u8]) by {
        assert(t0[0] == s[0] && t0[1] == s[1] && t0[2] == s[2] && t0[3] == s[3]);
    }
    let r2 = s.skip(4).skip(9);
    assert(r2.take(w as int) =~= s.subrange(13, 13 + w as int));
    assert(r2.skip(w as int) =~= s.skip(13 + w as int));
    assert(w == 0 ==> r2 =~= s.skip(13 + w as int));
    crate::format::fixup::lemma_zero_bytes(w);
    crate::format::lemma_pow256_positive(w);
    law_le_round_trip(0, w);
    lemma_listed(addrs, n, slot as int);
    let at = 8 * slot as int;
    lemma_stands_part(s, 13 + w as int, list, at, at + 8);
    let e = dropped(s.skip(13 + w as int), at).take(8);
    assert(e =~= s.subrange(13 + w as int + at, 13 + w as int + at + 8));
    assert(e.subrange(0, 8) =~= e);
    lemma_pow256();
    law_le_round_trip(addrs[slot as int] as nat, 8);
}

/// The block with an offset is found through the indirect block.
proof fn lemma_located(
    data: Seq<u8>,
    base: u64,
    h: HeapInfo,
    heap: u64,
    addrs: Seq<u64>,
    slot: nat,
    off: nat,
)
    requires
        stands(data, base + h.root, table_message(addrs, heap, h.off_size)),
        h.width == 4,
        h.start == 1024,
        h.max_direct == 65536,
        h.filters.len() == 0,
        h.cur_rows == rows_of(addrs.len()),
        h.off_size <= 8,
        slot < addrs.len() <= 32,
        addrs[slot as int] != UNDEF,
        fresh_block(slot).off <= off < fresh_block(slot).off + fresh_block(slot).size,
    ensures
        block_of(data, base, h, off) == Ok::<crate::format::fheap::BlockView, Seq<char>>(
            crate::format::fheap::BlockView {
                addr: addrs[slot as int],
                off: fresh_block(slot).off,
                stored: 0,
                mask: 0,
            },
        ),
{
    let s = rest_at(data, base + h.root);
    lemma_stands_rest(data, base + h.root, table_message(addrs, heap, h.off_size));
    lemma_table(s, h.off_size, heap, addrs, slot);
    lemma_table_place(slot, off);
    lemma_widths();
    assert(slot / 4 * 4 + slot % 4 == slot);
    assert(h.doubling());
    assert(h.direct_rows() == 8);
    assert(h.stride() == 8);
    assert(slot / 4 * h.width + slot % 4 == slot);
    assert(slot * h.stride() == 8 * slot);
}

/// The record of a large object is found.
proof fn lemma_huge_found(records: Seq<Seq<u8>>, i: int, k: int)
    requires
        0 <= i <= k < records.len(),
        same_size(records, 24),
        forall|j: int| 0 <= j <= k ==> le_at(#[trigger] records[j], 16, 8) == j + 1,
    ensures
        huge_found(records, i, (k + 1) as nat) == Ok::<(nat, nat), Seq<char>>(
            (le_at(records[k], 0, 8), le_at(records[k], 8, 8)),
        ),
    decreases k - i,
{
    assert(records[i].len() == 24);
    assert(le_at(records[i], 16, 8) == i + 1);
    if i < k {
        lemma_huge_found(records, i + 1, k);
    }
}

/// The parts of the identifier of an object in a block.
proof fn lemma_managed_id(off: nat, len: nat, w: nat, id_len: nat)
    requires
        off < pow256(w),
        len < 0x1_0000,
        0 < w <= 8,
        3 + w <= id_len,
    ensures
        ({
            let id = managed_id(off, len, w, id_len);
            &&& id.len() > 0
            &&& id[0] == 0
            &&& taken_sized(id.skip(1), w) matches Ok(x) && x.0 == off && (taken_sized(x.1, 2)
                matches Ok(y) && y.0 == len)
        }),
{
    let id = managed_id(off, len, w, id_len);
    let all = seq![0u8] + le_bytes(off, w) + le_bytes(len, 2);
    lemma_le_bytes_len(off, w);
    lemma_le_bytes_len(len, 2);
    lemma_pow256();
    law_le_round_trip(off, w);
    law_le_round_trip(len, 2);
    assert(id.take(all.len() as int) =~= all);
    assert(id.skip(1).take(w as int) =~= le_bytes(off, w));
    assert(id.skip(1).skip(w as int).take(2) =~= le_bytes(len, 2));
}

/// The number of a large object.
proof fn lemma_huge_id(number: nat, id_len: nat)
    requires
        number < pow256(huge_width(id_len)),
        2 <= id_len <= 9,
    ensures
        ({
            let id = huge_id(number, id_len);
            &&& id.len() > 0
            &&& id[0] == 16
            &&& taken_sized(id.skip(1), huge_width(id_len)) matches Ok(x) && x.0 == number
        }),
{
    let w = huge_width(id_len);
    let id = huge_id(number, id_len);
    lemma_le_bytes_len(number, w);
    law_le_round_trip(number, w);
    assert(id.skip(1).take(w as int) =~= le_bytes(number, w));
}

/// What stands behind bytes that are replaced stays.
proof fn lemma_patched_stands(s: Seq<u8>, at: int, v: Seq<u8>, pos: int, b: Seq<u8>)
    requires
        0 <= at,
        at + v.len() <= pos,
        stands(s, pos, b),
    ensures
        stands(patched(s, at, v), pos, b),
{
    let t = patched(s, at, v);
    assert(t.subrange(pos, pos + b.len()) =~= s.subrange(pos, pos + b.len()));
}

/// The parts of a heap that is written: the image with its direct blocks and their
/// addresses, its root with the number of rows, its large objects with their records,
/// and the tree over these.
pub struct HeapParts {
    pub start: Seq<u8>,
    pub s1: Seq<u8>,
    pub addrs: Seq<u64>,
    pub s2: Seq<u8>,
    pub root: u64,
    pub rows: nat,
    pub s3: Seq<u8>,
    pub records: Seq<Seq<u8>>,
    pub s4: Seq<u8>,
    pub tree: u64,
}

/// The parts of a heap.
pub open spec fn heap_parts(s: Seq<u8>, p: PlanView, bits: nat) -> HeapParts {
    let heap = end_of(s);
    let w = offset_size(bits);
    let start = padded(s) + zeroes(146);
    let (s1, addrs) = blocks_written(start, p.blocks, heap, w);
    let (s2, root, rows) = root_written(s1, addrs, heap, w);
    let (s3, records) = huge_written(s2, p.huge);
    let (s4, tree) = if p.huge.len() == 0 {
        (s3, UNDEF)
    } else {
        leaf_written(s3, 1, 24, records)
    };
    HeapParts { start, s1, addrs, s2, root, rows, s3, records, s4, tree }
}

/// What a heap header says of contents that are laid out.
pub open spec fn totals_of(x: HeapParts, p: PlanView, count: nat) -> HeapTotals {
    HeapTotals {
        huge_tree: x.tree,
        size: total_size(p.blocks) as u64,
        managed: (count - p.huge.len()) as u64,
        huge_bytes: total_len(p.huge),
        huge_count: p.huge.len(),
        root: x.root,
        rows: x.rows,
    }
}

/// The parts of a heap stand one behind the other.
proof fn lemma_parts(s: Seq<u8>, p: PlanView, bits: nat)
    ensures
        ({
            let x = heap_parts(s, p, bits);
            &&& extends(x.s1, x.start)
            &&& extends(x.s2, x.s1)
            &&& extends(x.s3, x.s2)
            &&& extends(x.s4, x.s3)
            &&& x.addrs.len() == p.blocks.len()
            &&& x.rows <= rows_of(p.blocks.len())
        }),
{
    let heap = end_of(s);
    let w = offset_size(bits);
    let x = heap_parts(s, p, bits);
    if p.huge.len() == 0 {
        assert(x.s3.take(x.s3.len() as int) =~= x.s3);
    } else {
        lemma_leaf_extends(x.s3, 1, 24, x.records);
    }
    lemma_huge(x.s2, p.huge, 0);
    if x.addrs.len() <= 1 {
        assert(x.s1.take(x.s1.len() as int) =~= x.s1);
    } else {
        lemma_appended(x.s1, table_message(x.addrs, heap, w));
    }
    lemma_blocks(x.start, p.blocks, heap, w, 0);
}

/// A part of a heap stands in a file that holds the image.
proof fn lemma_part_kept(
    data: Seq<u8>,
    base: u64,
    s: Seq<u8>,
    p: PlanView,
    count: nat,
    id_len: nat,
    bits: nat,
    from: nat,
    part_of: Seq<u8>,
    pos: int,
    b: Seq<u8>,
)
    requires
        keeps(data, base, plan_written(s, p, count, id_len, bits).0, from),
        plan_written(s, p, count, id_len, bits).0.len() < u64::MAX,
        from <= padded(s).len(),
        id_len <= 9,
        bits <= 64,
        p.huge.len() <= 0xffff,
        extends(heap_parts(s, p, bits).s4, part_of),
        stands(part_of, pos, b),
        pos >= padded(s).len() + 146,
        heap_header(totals_of(heap_parts(s, p, bits), p, count), id_len, bits).len() == 146,
    ensures
        stands(data, base + pos, b),
{
    let x = heap_parts(s, p, bits);
    let at = padded(s).len() as int;
    let head = heap_header(totals_of(x, p, count), id_len, bits);
    let out = plan_written(s, p, count, id_len, bits).0;
    assert(out == patched(x.s4, at, head));
    lemma_extends_stands(x.s4, part_of, pos, b);
    lemma_patched_stands(x.s4, at, head, pos, b);
    lemma_keeps(data, base, out, from, pos, b);
}

proof fn lemma_header_len(t: HeapTotals, id_len: nat, bits: nat)
    ensures
        heap_header(t, id_len, bits).len() == 146,
{
    let head = heap_header(t, id_len, bits);
    lemma_le_bytes_len(id_len, 2);
    lemma_le_bytes_len(4096, 4);
    lemma_le_bytes_len(4, 2);
    lemma_le_bytes_len(1024, 8);
    lemma_le_bytes_len(65536, 8);
    lemma_le_bytes_len(bits, 2);
    lemma_le_bytes_len(1, 2);
    lemma_le_bytes_len(t.root as nat, 8);
    lemma_le_bytes_len(t.rows, 2);
    let body = seq![70u8, 82u8, 72u8, 80u8, 0u8] + le_bytes(id_len, 2) + zeroes(3) + le_bytes(
        4096,
        4,
    ) + heap_counts(t) + le_bytes(4, 2) + le_bytes(1024, 8) + le_bytes(65536, 8) + le_bytes(bits, 2)
        + le_bytes(1, 2) + le_bytes(t.root as nat, 8) + le_bytes(t.rows, 2);
    lemma_le_bytes_len(lookup3(body) as nat, 4);
    let c = heap_counts(t);
    assert(c.subrange(0, c.len() as int) =~= c);
    lemma_counts(c, 0, t);
}

/// A heap that is written leaves the image before it as it is.
pub proof fn lemma_heap_extends(s: Seq<u8>, objects: Seq<Seq<u8>>, id_len: nat, bits: nat)
    requires
        heap_written(s, objects, id_len, bits) is Ok,
    ensures
        extends(heap_written(s, objects, id_len, bits)->Ok_0.0, s),
{
    reveal(heap_written);
    let p = planned(objects, offset_size(bits), id_len)->Ok_0;
    let x = heap_parts(s, p, bits);
    let at = padded(s).len() as int;
    let t = totals_of(x, p, objects.len());
    let head = heap_header(t, id_len, bits);
    lemma_header_len(t, id_len, bits);
    let out = plan_written(s, p, objects.len(), id_len, bits).0;
    assert(out == patched(x.s4, at, head));
    lemma_plan_len(s, p, objects.len(), id_len, bits);
    lemma_parts(s, p, bits);
    lemma_extends(x.start, x.s1, x.s2);
    lemma_extends(x.start, x.s2, x.s3);
    lemma_extends(x.start, x.s3, x.s4);
    assert(x.start.take(s.len() as int) =~= s);
    assert(out.take(s.len() as int) =~= x.s4.take(x.start.len() as int).take(s.len() as int));
}

/// The header takes the place that was kept for it.
proof fn lemma_plan_len(s: Seq<u8>, p: PlanView, count: nat, id_len: nat, bits: nat)
    ensures
        heap_parts(s, p, bits).s4.len() >= padded(s).len() + 146,
        plan_written(s, p, count, id_len, bits).0.len() == heap_parts(s, p, bits).s4.len(),
{
    let x = heap_parts(s, p, bits);
    let heap = end_of(s);
    let w = offset_size(bits);
    lemma_header_len(totals_of(x, p, count), id_len, bits);
    lemma_blocks_len(x.start, p.blocks, heap, w);
    if x.addrs.len() > 1 {
        lemma_appended(x.s1, table_message(x.addrs, heap, w));
    }
    lemma_huge_len(x.s2, p.huge);
    if p.huge.len() > 0 {
        lemma_leaf_extends(x.s3, 1, 24, x.records);
    }
}

proof fn lemma_blocks_len(s: Seq<u8>, blocks: Seq<BlockView>, heap: u64, off_size: nat)
    ensures
        blocks_written(s, blocks, heap, off_size).0.len() >= s.len(),
    decreases blocks.len(),
{
    if blocks.len() > 0 {
        let init = blocks.drop_last();
        lemma_blocks_len(s, init, heap, off_size);
        lemma_appended(
            blocks_written(s, init, heap, off_size).0,
            block_message(blocks.last(), heap, off_size),
        );
    }
}

proof fn lemma_huge_len(s: Seq<u8>, huge: Seq<Seq<u8>>)
    ensures
        huge_written(s, huge).0.len() >= s.len(),
    decreases huge.len(),
{
    if huge.len() > 0 {
        lemma_huge_len(s, huge.drop_last());
        lemma_appended(huge_written(s, huge.drop_last()).0, huge.last());
    }
}

/// The header of a heap in a file that holds the image.
proof fn lemma_heap_info(
    data: Seq<u8>,
    base: u64,
    s: Seq<u8>,
    p: PlanView,
    count: nat,
    id_len: nat,
    bits: nat,
    from: nat,
)
    requires
        keeps(data, base, plan_written(s, p, count, id_len, bits).0, from),
        plan_written(s, p, count, id_len, bits).0.len() < u64::MAX,
        from <= padded(s).len(),
        id_len <= 9,
        bits <= 64,
        p.huge.len() <= 0xffff,
        p.blocks.len() <= 32,
    ensures
        ({
            let x = heap_parts(s, p, bits);
            heap_parsed(rest_at(data, base + end_of(s))) == Ok::<HeapInfo, Seq<char>>(
                header_of(x.tree, x.root, x.rows, id_len, bits),
            )
        }),
{
    let x = heap_parts(s, p, bits);
    let t = totals_of(x, p, count);
    let head = heap_header(t, id_len, bits);
    let at = padded(s).len() as int;
    let out = plan_written(s, p, count, id_len, bits).0;
    lemma_plan_len(s, p, count, id_len, bits);
    lemma_header_len(t, id_len, bits);
    lemma_parts(s, p, bits);
    assert(out == patched(x.s4, at, head));
    assert(out.subrange(at, at + 146) =~= head);
    lemma_keeps(data, base, out, from, at, head);
    assert(end_of(s) == at);
    lemma_stands_rest(data, base + at, head);
    lemma_heap_header(rest_at(data, base + at), t, id_len, bits);
}

/// The part of a direct block that holds an object.
proof fn lemma_block_part(b: BlockView, heap: u64, w: nat, at: int, len: nat)
    requires
        0 <= at,
        at + len <= b.data.len(),
    ensures
        block_message(b, heap, w).len() >= block_prefix(w) + b.data.len(),
        block_message(b, heap, w).subrange(block_prefix(w) + at, block_prefix(w) + at + len)
            == b.data.subrange(at, at + len),
{
    lemma_le_bytes_len(heap as nat, 8);
    lemma_le_bytes_len(b.off, w);
    let body = seq![70u8, 72u8, 68u8, 66u8, 0u8] + le_bytes(heap as nat, 8) + le_bytes(b.off, w)
        + b.data;
    assert(body.len() == block_prefix(w) + b.data.len());
    let m = block_message(b, heap, w);
    assert(m.take(body.len() as int) =~= body);
    assert(m.subrange(block_prefix(w) + at, block_prefix(w) + at + len) =~= b.data.subrange(
        at,
        at + len,
    ));
}

/// The blocks of a heap stand in a file that holds the image.
proof fn lemma_block_kept(
    data: Seq<u8>,
    base: u64,
    s: Seq<u8>,
    p: PlanView,
    count: nat,
    id_len: nat,
    bits: nat,
    from: nat,
    b: int,
)
    requires
        keeps(data, base, plan_written(s, p, count, id_len, bits).0, from),
        plan_written(s, p, count, id_len, bits).0.len() < u64::MAX,
        from <= padded(s).len(),
        id_len <= 9,
        bits <= 64,
        p.huge.len() <= 0xffff,
        0 <= b < p.blocks.len(),
    ensures
        ({
            let x = heap_parts(s, p, bits);
            let w = offset_size(bits);
            &&& x.addrs.len() == p.blocks.len()
            &&& x.addrs[b] != UNDEF
            &&& stands(data, base + x.addrs[b], block_message(p.blocks[b], end_of(s), w))
            &&& p.blocks.len() == 1 ==> x.root == x.addrs[0] && x.rows == 0
            &&& p.blocks.len() > 1 ==> x.rows == rows_of(x.addrs.len()) && stands(
                data,
                base + x.root,
                table_message(x.addrs, end_of(s), w),
            )
        }),
{
    let x = heap_parts(s, p, bits);
    let heap = end_of(s);
    let w = offset_size(bits);
    lemma_plan_len(s, p, count, id_len, bits);
    lemma_header_len(totals_of(x, p, count), id_len, bits);
    lemma_parts(s, p, bits);
    lemma_extends(x.s1, x.s2, x.s3);
    lemma_extends(x.s1, x.s3, x.s4);
    lemma_extends(x.s2, x.s3, x.s4);
    lemma_blocks(x.start, p.blocks, heap, w, b);
    let block = block_message(p.blocks[b], heap, w);
    lemma_part_kept(data, base, s, p, count, id_len, bits, from, x.s1, x.addrs[b] as int, block);
    if p.blocks.len() > 1 {
        let table = table_message(x.addrs, heap, w);
        lemma_appended_stands(x.s1, table);
        lemma_appended(x.s1, table);
        lemma_part_kept(data, base, s, p, count, id_len, bits, from, x.s2, x.root as int, table);
    }
}

/// An object in a block is read.
proof fn lemma_managed_read(
    data: Seq<u8>,
    base: u64,
    h: HeapInfo,
    heap: u64,
    addrs: Seq<u64>,
    block: BlockView,
    b: nat,
    at: int,
    len: nat,
)
    requires
        h.width == 4,
        h.start == 1024,
        h.max_direct == 65536,
        h.filters.len() == 0,
        h.off_size <= 8,
        b < addrs.len() <= 32,
        addrs[b as int] != UNDEF,
        stands(data, base + addrs[b as int], block_message(block, heap, h.off_size)),
        addrs.len() == 1 ==> h.root == addrs[0] && h.cur_rows == 0,
        addrs.len() > 1 ==> h.cur_rows == rows_of(addrs.len()) && stands(
            data,
            base + h.root,
            table_message(addrs, heap, h.off_size),
        ),
        block.off == fresh_block(b).off,
        block.size == fresh_block(b).size,
        block_prefix(h.off_size) + block.data.len() <= block.size,
        0 <= at,
        at + len <= block.data.len(),
        at < block.data.len() || block_prefix(h.off_size) + at < block.size,
    ensures
        managed(data, base, h, (block.off + block_prefix(h.off_size) + at) as nat, len) == Ok::<
            Seq<u8>,
            Seq<char>,
        >(block.data.subrange(at, at + len)),
{
    let w = h.off_size;
    let off = (block.off + block_prefix(w) + at) as nat;
    let m = block_message(block, heap, w);
    let start = block_prefix(w) + at;
    lemma_block_part(block, heap, w, at, len);
    lemma_stands_part(data, base + addrs[b as int], m, start, start + len);
    if addrs.len() == 1 {
        lemma_rows_before(10, 2, 0);
        assert(fresh_block(0).off == 0) by {
            assert(row_size(10, 0) * 0 == 0) by (nonlinear_arith);
        }
    } else {
        lemma_located(data, base, h, heap, addrs, b, off);
    }
}

/// A large object is read.
proof fn lemma_huge_read(
    data: Seq<u8>,
    base: u64,
    s: Seq<u8>,
    p: PlanView,
    count: nat,
    id_len: nat,
    bits: nat,
    from: nat,
    h: HeapInfo,
    k: int,
)
    requires
        keeps(data, base, plan_written(s, p, count, id_len, bits).0, from),
        plan_written(s, p, count, id_len, bits).0.len() < u64::MAX,
        from <= padded(s).len(),
        3 <= id_len <= 9,
        bits <= 64,
        p.huge.len() <= 0xffff,
        ({
            let x = heap_parts(s, p, bits);
            h == HeapInfo { given: h.given, ..header_of(x.tree, x.root, x.rows, id_len, bits) }
        }),
        0 <= k < p.huge.len(),
    ensures
        heap_item(data, base, h, huge_id((k + 1) as nat, id_len)) == Ok::<Seq<u8>, Seq<char>>(
            p.huge[k],
        ),
{
    let x = heap_parts(s, p, bits);
    let heap = end_of(s);
    let t = totals_of(x, p, count);
    lemma_plan_len(s, p, count, id_len, bits);
    lemma_header_len(t, id_len, bits);
    lemma_parts(s, p, bits);
    lemma_extends(x.start, x.s1, x.s2);
    lemma_extends(x.start, x.s2, x.s3);
    lemma_huge(x.s2, p.huge, k);
    let place = le_at(x.records[k], 0, 8) as int;
    lemma_part_kept(data, base, s, p, count, id_len, bits, from, x.s3, place, p.huge[k]);
    // the tree
    let out = plan_written(s, p, count, id_len, bits).0;
    let at = padded(s).len() as int;
    let head = heap_header(t, id_len, bits);
    assert(out == patched(x.s4, at, head));
    let mark = (at + 146) as nat;
    assert(keeps(data, base, x.s4, mark)) by {
        assert forall|i: int| mark <= i < x.s4.len() implies #[trigger] x.s4[i] == data[base + i] by {
            assert(out[i] == x.s4[i]);
            assert(out[i] == data[base + i]);
        }
    }
    law_leaf_read(data, base, x.s3, 1, 24, x.records, mark);
    let s1 = appended(x.s3, leaf_message(1, 24, x.records));
    lemma_appended(x.s3, leaf_message(1, 24, x.records));
    lemma_appended(s1, tree_header(1, 24, x.records.len(), end_of(x.s3)));
    assert(x.tree != UNDEF);
    assert forall|j: int| 0 <= j <= k implies le_at(#[trigger] x.records[j], 16, 8) == j + 1 by {
        lemma_huge(x.s2, p.huge, j);
    }
    lemma_huge_found(x.records, 0, k);
    assert((k + 1) < pow256(huge_width(id_len))) by {
        lemma_pow256();
    }
    lemma_huge_id((k + 1) as nat, id_len);
    assert(h.huge_size() == huge_width(id_len));
}

/// The identifier of an object in a block leads to it.
proof fn lemma_item_found(
    data: Seq<u8>,
    base: u64,
    h: HeapInfo,
    off: nat,
    obj: Seq<u8>,
    id_len: nat,
)
    requires
        managed(data, base, h, off, obj.len()) == Ok::<Seq<u8>, Seq<char>>(obj),
        off < pow256(h.off_size),
        obj.len() <= 4096,
        0 < h.off_size <= 8,
        h.len_size == 2,
        3 + h.off_size <= id_len,
    ensures
        heap_item(data, base, h, managed_id(off, obj.len(), h.off_size, id_len)) == Ok::<
            Seq<u8>,
            Seq<char>,
        >(obj),
{
    lemma_managed_id(off, obj.len(), h.off_size, id_len);
}

/// An object in a block is read by its identifier.
proof fn lemma_block_read(
    data: Seq<u8>,
    base: u64,
    h: HeapInfo,
    heap: u64,
    addrs: Seq<u64>,
    blocks: Seq<BlockView>,
    id_len: nat,
    b: int,
    at: int,
    obj: Seq<u8>,
)
    requires
        h.width == 4,
        h.start == 1024,
        h.max_direct == 65536,
        h.filters.len() == 0,
        h.len_size == 2,
        3 <= h.off_size <= 8,
        3 + h.off_size <= id_len,
        blocks_fit(blocks, h.off_size),
        0 <= b < blocks.len() == addrs.len(),
        addrs[b] != UNDEF,
        stands(data, base + addrs[b], block_message(blocks[b], heap, h.off_size)),
        addrs.len() == 1 ==> h.root == addrs[0] && h.cur_rows == 0,
        addrs.len() > 1 ==> h.cur_rows == rows_of(addrs.len()) && stands(
            data,
            base + h.root,
            table_message(addrs, heap, h.off_size),
        ),
        obj.len() <= 4096,
        0 <= at,
        at + obj.len() <= blocks[b].data.len(),
        blocks[b].data.subrange(at, at + obj.len()) == obj,
        obj.len() > 0 || block_prefix(h.off_size) + at < blocks[b].size,
    ensures
        heap_item(
            data,
            base,
            h,
            managed_id(
                (blocks[b].off + block_prefix(h.off_size) + at) as nat,
                obj.len(),
                h.off_size,
                id_len,
            ),
        ) == Ok::<Seq<u8>, Seq<char>>(obj),
{
    let w = h.off_size;
    let off = (blocks[b].off + block_prefix(w) + at) as nat;
    lemma_slot(b as nat);
    assert(blocks[b].off == fresh_block(b as nat).off);
    assert(blocks[b].size == fresh_block(b as nat).size);
    assert(off < pow256(w)) by {
        lemma_pow256();
        lemma_pow256_more(3, w);
    }
    lemma_managed_read(data, base, h, heap, addrs, blocks[b], b as nat, at, obj.len());
    lemma_item_found(data, base, h, off, obj, id_len);
}

/// An object is read by its identifier.
proof fn lemma_object_read(
    data: Seq<u8>,
    base: u64,
    s: Seq<u8>,
    p: PlanView,
    count: nat,
    id_len: nat,
    bits: nat,
    from: nat,
    h: HeapInfo,
    id: Seq<u8>,
    obj: Seq<u8>,
    b: int,
    at: int,
)
    requires
        keeps(data, base, plan_written(s, p, count, id_len, bits).0, from),
        plan_written(s, p, count, id_len, bits).0.len() < u64::MAX,
        from <= padded(s).len(),
        17 <= bits <= 64,
        3 + offset_size(bits) <= id_len <= 9,
        p.huge.len() <= 0xffff,
        blocks_fit(p.blocks, offset_size(bits)),
        ({
            let x = heap_parts(s, p, bits);
            h == HeapInfo { given: h.given, ..header_of(x.tree, x.root, x.rows, id_len, bits) }
        }),
        placed(p, offset_size(bits), id_len, id, obj, b, at),
        obj.len() > 0,
    ensures
        heap_item(data, base, h, id) == Ok::<Seq<u8>, Seq<char>>(obj),
{
    if obj.len() > 4096 {
        lemma_huge_read(data, base, s, p, count, id_len, bits, from, h, b);
    } else {
        let x = heap_parts(s, p, bits);
        lemma_block_kept(data, base, s, p, count, id_len, bits, from, b);
        lemma_block_read(data, base, h, end_of(s), x.addrs, p.blocks, id_len, b, at, obj);
    }
}

/// Whether all objects go to the blocks of a heap.
pub open spec fn all_managed(objects: Seq<Seq<u8>>) -> bool {
    forall|k: int| 0 <= k < objects.len() ==> (#[trigger] objects[k]).len() <= 4096
}

proof fn lemma_none_huge(objects: Seq<Seq<u8>>, w: nat, id_len: nat)
    requires
        all_managed(objects),
        planned(objects, w, id_len) is Ok,
    ensures
        planned(objects, w, id_len)->Ok_0.huge.len() == 0,
    decreases objects.len(),
{
    if objects.len() > 0 {
        let init = objects.drop_last();
        assert(all_managed(init)) by {
            assert forall|k: int| 0 <= k < init.len() implies (#[trigger] init[k]).len() <= 4096 by {
                assert(init[k] == objects[k]);
            }
        }
        assert(objects[objects.len() - 1].len() <= 4096);
        lemma_none_huge(init, w, id_len);
    }
}

/// A fractal heap that was written is read from any file that holds the image: every
/// identifier gives its object. An empty object may stand at the end of the last block,
/// where no block holds its offset.
#[verifier::spinoff_prover]
pub proof fn law_heap_read(
    data: Seq<u8>,
    base: u64,
    s: Seq<u8>,
    objects: Seq<Seq<u8>>,
    id_len: nat,
    bits: nat,
    from: nat,
    given: Seq<(u64, Seq<u8>)>,
    i: int,
)
    requires
        heap_written(s, objects, id_len, bits) matches Ok(x) && keeps(data, base, x.0, from)
            && x.0.len() < u64::MAX,
        from <= s.len(),
        17 <= bits <= 64,
        3 + offset_size(bits) <= id_len <= 9,
        objects.len() <= 0xffff || all_managed(objects),
        0 <= i < objects.len(),
        objects[i].len() > 0,
    ensures
        ({
            let (out, addr, ids) = heap_written(s, objects, id_len, bits)->Ok_0;
            heap_at(data, base, addr, given) matches Ok(h) && heap_item(data, base, h, ids[i])
                == Ok::<Seq<u8>, Seq<char>>(objects[i])
        }),
{
    reveal(heap_written);
    let w = offset_size(bits);
    let p = planned(objects, w, id_len)->Ok_0;
    let n = objects.len();
    lemma_plan(objects, w, id_len, p);
    if all_managed(objects) {
        lemma_none_huge(objects, w, id_len);
    }
    let (b, at) = lemma_placed(objects, w, id_len, p, i);
    lemma_heap_info(data, base, s, p, n, id_len, bits, from);
    let x = heap_parts(s, p, bits);
    let h = HeapInfo { given, ..header_of(x.tree, x.root, x.rows, id_len, bits) };
    lemma_object_read(data, base, s, p, n, id_len, bits, from, h, p.ids[i], objects[i], b, at);
}

proof fn lemma_pow256_more(a: nat, b: nat)
    requires
        a <= b,
    ensures
        pow256(a) <= pow256(b),
    decreases b,
{
    if a < b {
        lemma_pow256_more(a, (b - 1) as nat);
    }
}

/// The header of a heap stands within the image.
pub proof fn lemma_heap_place(s: Seq<u8>, objects: Seq<Seq<u8>>, id_len: nat, bits: nat)
    requires
        heap_written(s, objects, id_len, bits) matches Ok(x) && x.0.len() < u64::MAX,
    ensures
        heap_written(s, objects, id_len, bits)->Ok_0.1 == padded(s).len(),
        padded(s).len() < heap_written(s, objects, id_len, bits)->Ok_0.0.len(),
{
    reveal(heap_written);
    let p = planned(objects, offset_size(bits), id_len)->Ok_0;
    lemma_plan_len(s, p, objects.len(), id_len, bits);
}

/// The header of a tree stands within the image.
pub proof fn lemma_leaf_place(s: Seq<u8>, kind: u8, size: nat, records: Seq<Seq<u8>>)
    requires
        leaf_written(s, kind, size, records).0.len() < u64::MAX,
    ensures
        leaf_written(s, kind, size, records).1 < leaf_written(s, kind, size, records).0.len(),
{
    let s1 = appended(s, leaf_message(kind, size, records));
    lemma_appended(s1, tree_header(kind, size, records.len(), end_of(s)));
}

} // verus!
