//! Where the nodes of version 2 B-trees and the blocks of fractal heaps hold what.

use vstd::prelude::*;

use crate::format::bits::pow2;
use crate::format::elements::lemma_pow256_pow2;
use crate::format::fheap::{
    block_offset, heap_item, huge_found, law_block_holds_offset, located, row_size, rows_before,
    table_place, HeapInfo,
};
use crate::format::gheap::{item_bytes, rest_at, ItemView};
use crate::format::group::order_place;
use crate::format::object::RawLinkView;
use crate::format::v2::{
    children_taken, children_walked, lemma_log2, level, limit_width, log2_floor, node_read,
    pointer_width, records_taken, subtree, trailing, LevelView, TreeInfo,
};
use crate::format::{
    dropped, law_le_round_trip, le_at, le_bytes, lemma_le_bound, lemma_pow256, pow256,
    taken_uint, UNDEF,
};

verus! {

// Nodes.

/// The numbers up to a limit fit in as many bytes as are given to them, and in no fewer.
pub proof fn law_limit_width(limit: nat)
    requires
        limit > 0,
    ensures
        limit < pow256(limit_width(limit)),
        pow256((limit_width(limit) - 1) as nat) <= limit,
{
    lemma_log2(limit);
    let g = log2_floor(limit);
    let w = limit_width(limit);
    lemma_pow256_pow2(w);
    lemma_pow256_pow2((w - 1) as nat);
    crate::format::bits::lemma_pow2_monotone(g + 1, 8 * w);
    crate::format::bits::lemma_pow2_monotone(8 * (w - 1) as nat, g);
}

/// A leaf holds as many records as fit in its bytes, behind the ten that every node has.
pub proof fn law_leaf_room(node: nat, rec: nat)
    requires
        level(node, rec, 0) is Ok,
    ensures
        ({
            let m = level(node, rec, 0)->Ok_0.max;
            &&& 10 + m * rec <= node < 10 + (m + 1) * rec
            &&& level(node, rec, 0)->Ok_0.total == m
        }),
{
    let (x, r) = (node - 10, rec as int);
    let m = x / r;
    assert(0 <= m && m * r <= x < (m + 1) * r) by (nonlinear_arith)
        requires
            m == x / r,
            r > 0,
            x >= 0,
    ;
}

/// An inner node holds as many records as fit, with one pointer to a child more than
/// records; its subtree holds these and what its children hold.
pub proof fn law_node_room(node: nat, rec: nat, d: nat)
    requires
        d > 0,
        level(node, rec, d) is Ok,
    ensures
        ({
            let below = level(node, rec, (d - 1) as nat)->Ok_0;
            let m = level(node, rec, d)->Ok_0.max;
            let w = pointer_width(below, d);
            &&& 10 + m * rec + (m + 1) * w <= node < 10 + (m + 1) * rec + (m + 2) * w
            &&& level(node, rec, d)->Ok_0.total == m + (m + 1) * below.total
        }),
{
    let below = level(node, rec, (d - 1) as nat)->Ok_0;
    let w = pointer_width(below, d) as int;
    let (x, r) = (node - (10 + w), rec + w);
    let m = x / r;
    assert(0 <= m && m * r <= x < (m + 1) * r) by (nonlinear_arith)
        requires
            m == x / r,
            r > 0,
            x >= 0,
    ;
    let c = rec as int;
    assert(m * (c + w) == m * c + m * w) by (nonlinear_arith);
    assert((m + 1) * (c + w) == (m + 1) * c + (m + 1) * w) by (nonlinear_arith);
    assert((m + 1) * w == m * w + w && (m + 2) * w == (m + 1) * w + w) by (nonlinear_arith);
}

proof fn lemma_records(
    data: Seq<u8>,
    p: int,
    rec: nat,
    n: nat,
    acc: Seq<Seq<u8>>,
)
    requires
        0 <= p,
        p + n * rec <= data.len(),
    ensures
        records_taken(data.skip(p), rec, n, acc) matches Ok((v, rest)) && v.len() == acc.len() + n
            && rest == data.skip(p + n * rec) && (forall|i: int|
            0 <= i < acc.len() ==> #[trigger] v[i] == acc[i]) && forall|i: int|
            0 <= i < n ==> #[trigger] v[acc.len() + i] == data.subrange(
                p + i * rec,
                p + i * rec + rec,
            ),
    decreases n,
{
    if n == 0 {
        assert(0 * rec == 0) by (nonlinear_arith);
    } else {
        let m = (n - 1) as nat;
        assert(n * rec == rec + m * rec && m * rec >= 0) by (nonlinear_arith)
            requires
                n == m + 1,
        ;
        let s = data.skip(p);
        let r = s.take(rec as int);
        assert(r =~= data.subrange(p, p + rec));
        assert(s.skip(rec as int) =~= data.skip(p + rec));
        lemma_records(data, p + rec, rec, m, acc.push(r));
        let v = records_taken(s, rec, n, acc)->Ok_0.0;
        assert(v[acc.len() as int] == acc.push(r)[acc.len() as int]);
        assert forall|i: int| 0 <= i < acc.len() implies #[trigger] v[i] == acc[i] by {
            assert(acc.push(r)[i] == acc[i]);
        }
        assert forall|i: int| 0 <= i < n implies #[trigger] v[acc.len() + i] == data.subrange(
            p + i * rec,
            p + i * rec + rec,
        ) by {
            if i == 0 {
                assert(0 * rec == 0) by (nonlinear_arith);
            } else {
                let j = i - 1;
                assert(i * rec == rec + j * rec) by (nonlinear_arith)
                    requires
                        i == j + 1,
                ;
                assert(v[acc.push(r).len() + j] == data.subrange(
                    p + rec + j * rec,
                    p + rec + j * rec + rec,
                ));
            }
        }
    }
}

proof fn lemma_children(
    data: Seq<u8>,
    p: int,
    width: nat,
    skipped: nat,
    n: nat,
    acc: Seq<(u64, u64)>,
)
    requires
        0 <= p,
        width <= 8,
        p + n * (8 + width + skipped) <= data.len(),
    ensures
        children_taken(data.skip(p), width, skipped, n, acc) matches Ok(v) && v.len() == acc.len()
            + n && (forall|i: int| 0 <= i < acc.len() ==> #[trigger] v[i] == acc[i]) && forall|i: int|
            0 <= i < n ==> (#[trigger] v[acc.len() + i]).0 == le_at(
                data,
                p + i * (8 + width + skipped),
                8,
            ) && v[acc.len() + i].1 == le_at(
                data,
                p + i * (8 + width + skipped) + 8,
                width as int,
            ),
    decreases n,
{
    let w = (8 + width + skipped) as int;
    if n > 0 {
        let m = (n - 1) as nat;
        assert(n * w == w + m * w && m * w >= 0) by (nonlinear_arith)
            requires
                n == m + 1,
                w >= 0,
        ;
        let s = data.skip(p);
        let b = s.take(w);
        assert(b.subrange(0, 8) =~= data.subrange(p, p + 8));
        assert(b.subrange(8, 8 + width as int) =~= data.subrange(p + 8, p + 8 + width));
        lemma_pow256();
        lemma_le_bound(data.subrange(p, p + 8));
        lemma_le_bound(data.subrange(p + 8, p + 8 + width));
        lemma_pow256_up(width, 8);
        let x = (le_at(b, 0, 8) as u64, le_at(b, 8, width as int) as u64);
        assert(s.skip(w) =~= data.skip(p + w));
        lemma_children(data, p + w, width, skipped, m, acc.push(x));
        let v = children_taken(s, width, skipped, n, acc)->Ok_0;
        assert(v[acc.len() as int] == acc.push(x)[acc.len() as int]);
        assert forall|i: int| 0 <= i < acc.len() implies #[trigger] v[i] == acc[i] by {
            assert(acc.push(x)[i] == acc[i]);
        }
        assert forall|i: int| 0 <= i < n implies (#[trigger] v[acc.len() + i]).0 == le_at(
            data,
            p + i * w,
            8,
        ) && v[acc.len() + i].1 == le_at(data, p + i * w + 8, width as int) by {
            if i == 0 {
                assert(0 * w == 0) by (nonlinear_arith);
            } else {
                let j = i - 1;
                assert(i * w == w + j * w) by (nonlinear_arith)
                    requires
                        i == j + 1,
                ;
                assert(v[acc.push(x).len() + j].0 == le_at(data, p + w + j * w, 8));
            }
        }
    }
}

proof fn lemma_pow256_up(a: nat, b: nat)
    requires
        a <= b,
    ensures
        pow256(a) <= pow256(b),
    decreases b - a,
{
    if a < b {
        lemma_pow256_up(a, (b - 1) as nat);
    }
}

/// The records of a node stand one behind the other behind its first six bytes; in an
/// inner node the pointers to its children follow them, each the address of a child and
/// the number of its records.
pub proof fn law_node_places(t: TreeInfo, addr: u64, nrec: u64, depth: nat, below: LevelView)
    requires
        ({
            let p = t.base + addr + 6;
            let w = pointer_width(below, depth);
            &&& p + nrec * t.rec + (if depth == 0 {
                0
            } else {
                (nrec + 1) * w
            }) <= t.data.len()
            &&& t.data.subrange(p - 6, p - 2) == (if depth == 0 {
                seq![66u8, 84u8, 76u8, 70u8]
            } else {
                seq![66u8, 84u8, 73u8, 78u8]
            })
            &&& t.data[p - 1] == t.btree_type
            &&& depth > 0 ==> level(t.node, t.rec, (depth - 1) as nat) == Ok::<
                LevelView,
                Seq<char>,
            >(below)
            &&& depth > 0 ==> limit_width(below.max) <= 8
        }),
    ensures
        ({
            let p = t.base + addr + 6;
            let q = p + nrec * t.rec;
            let w = pointer_width(below, depth) as int;
            &&& node_read(t, addr, nrec, depth) is Ok
            &&& ({
                let (recs, children) = node_read(t, addr, nrec, depth)->Ok_0;
                &&& recs.len() == nrec
                &&& forall|i: int|
                    0 <= i < nrec ==> #[trigger] recs[i] == t.data.subrange(
                        p + i * t.rec,
                        p + i * t.rec + t.rec,
                    )
                &&& depth == 0 ==> children.len() == 0
                &&& depth > 0 ==> children.len() == nrec + 1
                &&& depth > 0 ==> forall|i: int|
                    0 <= i <= nrec ==> (#[trigger] children[i]).0 == le_at(t.data, q + i * w, 8)
                        && children[i].1 == le_at(
                        t.data,
                        q + i * w + 8,
                        limit_width(below.max) as int,
                    )
            })
        }),
{
    let p = t.base + addr + 6;
    let s = rest_at(t.data, t.base + addr);
    let w = pointer_width(below, depth);
    assert(nrec * t.rec >= 0) by (nonlinear_arith);
    assert((nrec + 1) * w >= 0) by (nonlinear_arith);
    assert(s.take(4) =~= t.data.subrange(p - 6, p - 2));
    let r = s.skip(4);
    assert(r.take(2)[1] == t.data[p - 1]);
    assert(r.skip(2) =~= t.data.skip(p));
    lemma_records(t.data, p, t.rec, nrec as nat, Seq::empty());
    let (recs, rest) = records_taken(t.data.skip(p), t.rec, nrec as nat, Seq::empty())->Ok_0;
    assert forall|i: int| 0 <= i < nrec implies #[trigger] recs[i] == t.data.subrange(
        p + i * t.rec,
        p + i * t.rec + t.rec,
    ) by {
        assert(recs[0 + i] == t.data.subrange(p + i * t.rec, p + i * t.rec + t.rec));
    }
    if depth > 0 {
        let q = p + nrec * t.rec;
        let skipped = if depth > 1 {
            limit_width(below.total)
        } else {
            0
        };
        lemma_children(
            t.data,
            q,
            limit_width(below.max),
            skipped,
            nrec as nat + 1,
            Seq::empty(),
        );
        let v = children_taken(
            t.data.skip(q),
            limit_width(below.max),
            skipped,
            nrec as nat + 1,
            Seq::empty(),
        )->Ok_0;
        assert forall|i: int| 0 <= i <= nrec implies (#[trigger] v[i]).0 == le_at(
            t.data,
            q + i * w,
            8,
        ) && v[i].1 == le_at(t.data, q + i * w + 8, limit_width(below.max) as int) by {
            assert(v[0 + i].0 == le_at(t.data, q + i * (8 + limit_width(below.max) + skipped), 8));
        }
    }
}

/// Records between the lists of the children: what the first child holds, the first
/// record, and so on up to the last child.
pub open spec fn in_order(parts: Seq<Seq<Seq<u8>>>, recs: Seq<Seq<u8>>) -> Seq<Seq<u8>>
    decreases parts.len(),
{
    if parts.len() == 0 {
        Seq::empty()
    } else if recs.len() == 0 {
        parts[0]
    } else {
        parts[0] + seq![recs[0]] + in_order(parts.skip(1), recs.skip(1))
    }
}

proof fn lemma_subtree_acc(t: TreeInfo, addr: u64, nrec: u64, depth: nat, acc: Seq<Seq<u8>>)
    requires
        subtree(t, addr, nrec, depth, Seq::empty()) is Ok,
    ensures
        subtree(t, addr, nrec, depth, acc) == Ok::<Seq<Seq<u8>>, Seq<char>>(
            acc + subtree(t, addr, nrec, depth, Seq::empty())->Ok_0,
        ),
    decreases depth, 0nat,
{
    let none = Seq::<Seq<u8>>::empty();
    let (recs, children) = node_read(t, addr, nrec, depth)->Ok_0;
    if depth == 0 {
        assert(acc + (none + recs) =~= acc + recs);
    } else {
        lemma_walk_acc(t, recs, children, 0, (depth - 1) as nat, none, acc);
        assert(acc + none =~= acc);
    }
}

proof fn lemma_walk_acc(
    t: TreeInfo,
    recs: Seq<Seq<u8>>,
    children: Seq<(u64, u64)>,
    i: int,
    depth: nat,
    a: Seq<Seq<u8>>,
    acc: Seq<Seq<u8>>,
)
    requires
        0 <= i,
        children_walked(t, recs, children, i, depth, a) is Ok,
    ensures
        children_walked(t, recs, children, i, depth, acc + a) == Ok::<Seq<Seq<u8>>, Seq<char>>(
            acc + children_walked(t, recs, children, i, depth, a)->Ok_0,
        ),
    decreases depth, (children.len() - i + 1) as nat,
{
    if i < children.len() {
        let (x, y) = children[i];
        lemma_subtree_needs(t, x, y, depth, a);
        lemma_subtree_acc(t, x, y, depth, a);
        lemma_subtree_acc(t, x, y, depth, acc + a);
        let sub = subtree(t, x, y, depth, Seq::empty())->Ok_0;
        let v = a + sub;
        assert(acc + a + sub =~= acc + v);
        let next = if i < recs.len() {
            v.push(recs[i])
        } else {
            v
        };
        assert(i < recs.len() ==> (acc + v).push(recs[i]) =~= acc + v.push(recs[i]));
        lemma_walk_acc(t, recs, children, i + 1, depth, next, acc);
    }
}

/// Whether a subtree can be read does not depend on what was read before it.
proof fn lemma_subtree_needs(t: TreeInfo, addr: u64, nrec: u64, depth: nat, acc: Seq<Seq<u8>>)
    requires
        subtree(t, addr, nrec, depth, acc) is Ok,
    ensures
        subtree(t, addr, nrec, depth, Seq::empty()) is Ok,
    decreases depth, 0nat,
{
    if depth > 0 {
        let (recs, children) = node_read(t, addr, nrec, depth)->Ok_0;
        lemma_walk_needs(t, recs, children, 0, (depth - 1) as nat, acc, Seq::empty());
    }
}

proof fn lemma_walk_needs(
    t: TreeInfo,
    recs: Seq<Seq<u8>>,
    children: Seq<(u64, u64)>,
    i: int,
    depth: nat,
    acc: Seq<Seq<u8>>,
    other: Seq<Seq<u8>>,
)
    requires
        0 <= i,
        children_walked(t, recs, children, i, depth, acc) is Ok,
    ensures
        children_walked(t, recs, children, i, depth, other) is Ok,
    decreases depth, (children.len() - i + 1) as nat,
{
    if i < children.len() {
        let (x, y) = children[i];
        lemma_subtree_needs(t, x, y, depth, acc);
        lemma_subtree_acc(t, x, y, depth, acc);
        lemma_subtree_acc(t, x, y, depth, other);
        let sub = subtree(t, x, y, depth, Seq::empty())->Ok_0;
        let (v, w) = (acc + sub, other + sub);
        let (next, more) = if i < recs.len() {
            (v.push(recs[i]), w.push(recs[i]))
        } else {
            (v, w)
        };
        lemma_walk_needs(t, recs, children, i + 1, depth, next, more);
    }
}

/// A subtree lists its records in order: those of a child come before the record of the
/// node that follows it, and those of the next child behind that record.
pub proof fn law_subtree_in_order(
    t: TreeInfo,
    addr: u64,
    nrec: u64,
    depth: nat,
    recs: Seq<Seq<u8>>,
    children: Seq<(u64, u64)>,
    parts: Seq<Seq<Seq<u8>>>,
)
    requires
        depth > 0,
        node_read(t, addr, nrec, depth) == Ok::<(Seq<Seq<u8>>, Seq<(u64, u64)>), Seq<char>>(
            (recs, children),
        ),
        children.len() == recs.len() + 1,
        parts.len() == children.len(),
        forall|i: int|
            0 <= i < children.len() ==> subtree(
                t,
                (#[trigger] children[i]).0,
                children[i].1,
                (depth - 1) as nat,
                Seq::empty(),
            ) == Ok::<Seq<Seq<u8>>, Seq<char>>(parts[i]),
    ensures
        subtree(t, addr, nrec, depth, Seq::empty()) == Ok::<Seq<Seq<u8>>, Seq<char>>(
            in_order(parts, recs),
        ),
{
    let none = Seq::<Seq<u8>>::empty();
    lemma_walk_order(t, recs, children, parts, 0, (depth - 1) as nat, none);
    assert(parts.skip(0) =~= parts && recs.skip(0) =~= recs);
    assert(none + in_order(parts, recs) =~= in_order(parts, recs));
}

proof fn lemma_walk_order(
    t: TreeInfo,
    recs: Seq<Seq<u8>>,
    children: Seq<(u64, u64)>,
    parts: Seq<Seq<Seq<u8>>>,
    i: int,
    depth: nat,
    acc: Seq<Seq<u8>>,
)
    requires
        0 <= i <= children.len(),
        children.len() == recs.len() + 1,
        parts.len() == children.len(),
        forall|j: int|
            0 <= j < children.len() ==> subtree(
                t,
                (#[trigger] children[j]).0,
                children[j].1,
                depth,
                Seq::empty(),
            ) == Ok::<Seq<Seq<u8>>, Seq<char>>(parts[j]),
    ensures
        children_walked(t, recs, children, i, depth, acc) == Ok::<Seq<Seq<u8>>, Seq<char>>(
            acc + in_order(
                parts.skip(i),
                if i <= recs.len() {
                    recs.skip(i)
                } else {
                    Seq::empty()
                },
            ),
        ),
    decreases children.len() - i,
{
    if i < children.len() {
        lemma_subtree_acc(t, children[i].0, children[i].1, depth, acc);
        let v = acc + parts[i];
        let next = if i < recs.len() {
            v.push(recs[i])
        } else {
            v
        };
        lemma_walk_order(t, recs, children, parts, i + 1, depth, next);
        assert(parts.skip(i)[0] == parts[i]);
        assert(parts.skip(i).skip(1) =~= parts.skip(i + 1));
        if i < recs.len() {
            assert(recs.skip(i)[0] == recs[i]);
            assert(recs.skip(i).skip(1) =~= recs.skip(i + 1));
            let more = in_order(parts.skip(i + 1), recs.skip(i + 1));
            assert(next + more =~= acc + (parts[i] + seq![recs[i]] + more));
        } else {
            assert(parts.skip(i + 1).len() == 0);
            assert(next + Seq::<Seq<u8>>::empty() =~= acc + parts[i]);
        }
    } else {
        assert(parts.skip(i).len() == 0);
        assert(acc + Seq::<Seq<u8>>::empty() =~= acc);
    }
}

// Heaps.

/// A tiny object stands in its identifier.
pub proof fn law_tiny_object(
    data: Seq<u8>,
    base: u64,
    h: HeapInfo,
    object: Seq<u8>,
    rest: Seq<u8>,
)
    requires
        1 <= object.len() <= 16,
    ensures
        heap_item(data, base, h, seq![(32 + object.len() - 1) as u8] + object + rest) == Ok::<
            Seq<u8>,
            Seq<char>,
        >(object),
{
    let id = seq![(32 + object.len() - 1) as u8] + object + rest;
    assert(id[0] == 31 + object.len());
    assert(id.subrange(1, 1 + object.len() as int) =~= object);
}

/// A huge object stands where its identifier says, where that gives its place and size.
pub proof fn law_huge_object(
    data: Seq<u8>,
    base: u64,
    h: HeapInfo,
    addr: u64,
    len: u64,
    rest: Seq<u8>,
)
    requires
        h.id_len >= 17,
        base + addr + len <= data.len(),
    ensures
        heap_item(
            data,
            base,
            h,
            seq![16u8] + le_bytes(addr as nat, 8) + le_bytes(len as nat, 8) + rest,
        ) == Ok::<Seq<u8>, Seq<char>>(data.subrange(base + addr, base + addr + len)),
{
    let id = seq![16u8] + le_bytes(addr as nat, 8) + le_bytes(len as nat, 8) + rest;
    lemma_pow256();
    law_le_round_trip(addr as nat, 8);
    law_le_round_trip(len as nat, 8);
    let b = id.skip(1).take(16);
    assert(b.subrange(0, 8) =~= le_bytes(addr as nat, 8));
    assert(b.subrange(8, 16) =~= le_bytes(len as nat, 8));
}

/// The record of a huge object is found by its identifier: it gives the place and the size
/// of the object before it.
pub proof fn law_huge_record(records: Seq<Seq<u8>>, i: int, k: int)
    requires
        0 <= i <= k < records.len(),
        forall|j: int| i <= j <= k ==> (#[trigger] records[j]).len() >= 24,
        forall|j: int| i <= j < k ==> le_at(#[trigger] records[j], 16, 8) != le_at(records[k], 16, 8),
    ensures
        huge_found(records, i, le_at(records[k], 16, 8)) == Ok::<(nat, nat), Seq<char>>(
            (le_at(records[k], 0, 8), le_at(records[k], 8, 8)),
        ),
    decreases k - i,
{
    assert(records[i].len() >= 24);
    if i < k {
        assert(le_at(records[i], 16, 8) != le_at(records[k], 16, 8));
        law_huge_record(records, i + 1, k);
    }
}

proof fn lemma_offset_rises(a: nat, b: nat, r: nat, c: nat, s: nat, d: nat)
    requires
        c < pow2(b),
        r < s || r == s && c < d,
    ensures
        block_offset(a, b, r, c) + row_size(a, r) <= block_offset(a, b, s, d),
    decreases s - r,
{
    let w = row_size(a, r);
    assert(w * c + w <= w * pow2(b)) by (nonlinear_arith)
        requires
            c + 1 <= pow2(b),
    ;
    if r == s {
        assert(w * c + w <= w * d) by (nonlinear_arith)
            requires
                c + 1 <= d,
        ;
    } else {
        lemma_rows_rise(a, b, r + 1, s);
        assert(row_size(a, s) * d >= 0) by (nonlinear_arith);
    }
}

proof fn lemma_rows_rise(a: nat, b: nat, r: nat, s: nat)
    requires
        r <= s,
    ensures
        rows_before(a, b, r) <= rows_before(a, b, s),
    decreases s - r,
{
    if r < s {
        lemma_rows_rise(a, b, r, (s - 1) as nat);
        assert(row_size(a, (s - 1) as nat) * pow2(b) >= 0) by (nonlinear_arith);
    }
}

/// Each offset within a block of the doubling table leads to that block.
pub proof fn law_table_place(a: nat, b: nat, row: nat, col: nat, p: nat)
    requires
        col < pow2(b),
        p < row_size(a, row),
    ensures
        table_place(a, b, block_offset(a, b, row, col) + p) == (row, col),
{
    let off = block_offset(a, b, row, col) + p;
    law_block_holds_offset(a, b, off);
    let (r, c) = table_place(a, b, off);
    if r < row || r == row && c < col {
        lemma_offset_rises(a, b, r, c, row, col);
    } else if row < r || row == r && col < c {
        lemma_offset_rises(a, b, row, col, r, c);
    }
}

/// Whether an indirect block stands at an address, with the offset `block_off`.
pub open spec fn indirect_at(data: Seq<u8>, base: u64, h: HeapInfo, addr: u64, block_off: nat) -> bool {
    let p = base + addr;
    &&& 0 < h.off_size <= 8
    &&& p + 13 + h.off_size <= data.len()
    &&& data.subrange(p, p + 4) == seq![70u8, 72u8, 73u8, 66u8]
    &&& le_at(data, p + 13, h.off_size as int) == block_off
}

proof fn lemma_indirect(data: Seq<u8>, base: u64, h: HeapInfo, addr: u64, block_off: nat)
    requires
        indirect_at(data, base, h, addr, block_off),
    ensures
        ({
            let s = rest_at(data, base + addr);
            &&& s.len() >= 13 + h.off_size
            &&& s.take(4) == seq![70u8, 72u8, 73u8, 66u8]
            &&& taken_uint(s.skip(4).skip(9), h.off_size) == Ok::<(nat, Seq<u8>), Seq<char>>(
                (block_off, data.skip(base + addr + 13 + h.off_size)),
            )
        }),
{
    let p = base + addr;
    let s = rest_at(data, p);
    let w = h.off_size as int;
    assert(s.take(4) =~= data.subrange(p, p + 4));
    let r = s.skip(4).skip(9);
    assert(r.take(w) =~= data.subrange(p + 13, p + 13 + w));
    assert(r.skip(w) =~= data.skip(p + 13 + w));
}

/// The entries of an indirect block refer to the direct blocks row by row; each holds the
/// offsets that the table gives it.
pub proof fn law_direct_entry(
    data: Seq<u8>,
    base: u64,
    h: HeapInfo,
    addr: u64,
    nrows: nat,
    block_off: nat,
    row: nat,
    col: nat,
    p: nat,
)
    requires
        indirect_at(data, base, h, addr, block_off),
        h.doubling(),
        row < nrows,
        row < h.direct_rows(),
        col < h.width,
        p < row_size(trailing(h.start), row),
        ({
            let at = base + addr + 13 + h.off_size + (row * h.width + col) * h.stride();
            at + h.stride() <= data.len() && le_at(data, at, 8) != UNDEF
        }),
    ensures
        ({
            let (a, b) = (trailing(h.start), trailing(h.width));
            let at = base + addr + 13 + h.off_size + (row * h.width + col) * h.stride();
            let first = block_off + block_offset(a, b, row, col);
            located(data, base, h, addr, nrows, first + p) matches Ok(x) && x.addr == le_at(
                data,
                at,
                8,
            ) && x.off == first && (h.filters.len() > 0 ==> x.stored == le_at(data, at + 8, 8)
                && x.mask == le_at(data, at + 16, 4))
        }),
{
    let (a, b) = (trailing(h.start), trailing(h.width));
    law_table_place(a, b, row, col, p);
    lemma_indirect(data, base, h, addr, block_off);
    let from = base + addr + 13 + h.off_size;
    let off = (row * h.width + col) * h.stride();
    assert(off >= 0) by (nonlinear_arith)
        requires
            off == (row * h.width + col) * h.stride(),
    ;
    let s = dropped(data.skip(from), off as int);
    assert(s =~= data.skip(from + off));
    let e = s.take(h.stride() as int);
    assert(e.subrange(0, 8) =~= data.subrange(from + off, from + off + 8));
    lemma_pow256();
    lemma_le_bound(data.subrange(from + off, from + off + 8));
    if h.filters.len() > 0 {
        assert(e.subrange(8, 16) =~= data.subrange(from + off + 8, from + off + 16));
        assert(e.subrange(16, 20) =~= data.subrange(from + off + 16, from + off + 20));
        lemma_le_bound(data.subrange(from + off + 16, from + off + 20));
    }
}

/// Behind the rows of direct blocks an indirect block refers to further indirect blocks:
/// an offset is looked for in the one of its row and column.
pub proof fn law_indirect_entry(
    data: Seq<u8>,
    base: u64,
    h: HeapInfo,
    addr: u64,
    nrows: nat,
    block_off: nat,
    row: nat,
    col: nat,
    p: nat,
    child: u64,
)
    requires
        indirect_at(data, base, h, addr, block_off),
        h.doubling(),
        h.direct_rows() <= row < nrows,
        trailing(h.width) < row,
        col < h.width,
        p < row_size(trailing(h.start), row),
        child != UNDEF,
        ({
            let at = base + addr + 13 + h.off_size + h.direct_rows() * h.width * h.stride() + 8 * (row
                * h.width + col - h.direct_rows() * h.width);
            at + 8 <= data.len() && le_at(data, at, 8) == child
        }),
    ensures
        ({
            let (a, b) = (trailing(h.start), trailing(h.width));
            let off = block_off + block_offset(a, b, row, col) + p;
            located(data, base, h, addr, nrows, off) == located(
                data,
                base,
                h,
                child,
                (row - b) as nat,
                off,
            )
        }),
{
    let (a, b) = (trailing(h.start), trailing(h.width));
    law_table_place(a, b, row, col, p);
    lemma_indirect(data, base, h, addr, block_off);
    let from = base + addr + 13 + h.off_size;
    let direct = h.direct_rows() * h.width;
    assert(direct <= row * h.width && direct * h.stride() >= 0) by (nonlinear_arith)
        requires
            direct == h.direct_rows() * h.width,
            h.direct_rows() <= row,
    ;
    let off = direct * h.stride() + (row * h.width + col - direct) * 8;
    let s = dropped(data.skip(from), off);
    assert(s =~= data.skip(from + off));
    assert(s.take(8) =~= data.subrange(from + off, from + off + 8));
}

// Items and links.

/// An item of a collection is found by its index, where no later one has the same.
pub proof fn law_item_found(items: Seq<ItemView>, i: int)
    requires
        0 <= i < items.len(),
        forall|j: int| i < j < items.len() ==> (#[trigger] items[j]).index != items[i].index,
    ensures
        item_bytes(items, items[i].index as nat) == items[i].bytes,
    decreases items.len(),
{
    if i < items.len() - 1 {
        assert(items.last() == items[items.len() - 1]);
        let head = items.drop_last();
        assert forall|j: int| i < j < head.len() implies (#[trigger] head[j]).index
            != head[i].index by {
            assert(head[j] == items[j]);
        }
        law_item_found(head, i);
    }
}

/// A link goes behind those links of a list by creation order that are not later, and
/// before those that are.
pub proof fn law_link_place(links: Seq<RawLinkView>, order: i64)
    requires
        forall|i: int, j: int|
            0 <= i < j < links.len() ==> (#[trigger] links[i]).creation_order <= (
            #[trigger] links[j]).creation_order,
    ensures
        0 <= order_place(links, order) <= links.len(),
        forall|i: int|
            0 <= i < order_place(links, order) ==> (#[trigger] links[i]).creation_order <= order,
        forall|i: int|
            order_place(links, order) <= i < links.len() ==> (#[trigger] links[i]).creation_order
                > order,
    decreases links.len(),
{
    if links.len() > 0 {
        let head = links.drop_last();
        if links.last().creation_order > order {
            assert forall|i: int, j: int| 0 <= i < j < head.len() implies (
            #[trigger] head[i]).creation_order <= (#[trigger] head[j]).creation_order by {
                assert(links[i].creation_order <= links[j].creation_order);
            }
            law_link_place(head, order);
            assert forall|i: int| 0 <= i < order_place(links, order) implies (
            #[trigger] links[i]).creation_order <= order by {
                assert(head[i] == links[i]);
            }
            assert forall|i: int|
                order_place(links, order) <= i < links.len() implies (
            #[trigger] links[i]).creation_order > order by {
                if i < head.len() {
                    assert(head[i] == links[i]);
                }
            }
        } else {
            assert forall|i: int| 0 <= i < links.len() implies (#[trigger] links[i]).creation_order
                <= order by {
                if i < links.len() - 1 {
                    assert(links[i].creation_order <= links[links.len() - 1].creation_order);
                }
            }
        }
    }
}

} // verus!
