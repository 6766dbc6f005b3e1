//! Trees of chunks are read as they are written.

use vstd::prelude::*;

use crate::format::bits::pow2;
use crate::format::chunk_index::{entries_chunks, offsets_at, tree_chunks};
use crate::format::chunk_write::chunk_shape;
use crate::format::gheap::rest_at;
use crate::format::object_laws::{keeps, lemma_keeps};
use crate::format::stands::{lemma_stands, lemma_stands_both, lemma_stands_part, stands};
use crate::format::tree::{
    child_messages, extends, lemma_count_shrinks, lemma_extends, lemma_node_range, level_children,
    level_node, level_nodes, node_addr, node_children, node_count, node_message, padded,
    tree_written, ChildView, TreeShape,
};
use crate::format::{
    law_le_round_trip, le_at, le_bytes, lemma_le_bytes_len, lemma_pow256, zeroes, UNDEF,
};
use crate::model::ChunkView;

verus! {

/// Lists one behind the other.
pub open spec fn flat<T>(v: Seq<Seq<T>>) -> Seq<T>
    decreases v.len(),
{
    if v.len() == 0 {
        Seq::empty()
    } else {
        v[0] + flat(v.skip(1))
    }
}

pub(crate) proof fn lemma_flat_add<T>(a: Seq<Seq<T>>, b: Seq<Seq<T>>)
    ensures
        flat(a + b) == flat(a) + flat(b),
    decreases a.len(),
{
    if a.len() == 0 {
        assert(a + b =~= b);
        assert(flat(a) + flat(b) =~= flat(b));
    } else {
        lemma_flat_add(a.skip(1), b);
        assert((a + b).skip(1) =~= a.skip(1) + b);
        assert(a[0] + (flat(a.skip(1)) + flat(b)) =~= (a[0] + flat(a.skip(1))) + flat(b));
    }
}

/// The bytes of an entry of a node.
pub open spec fn entry_bytes(c: ChildView) -> Seq<u8> {
    c.first + le_bytes(c.addr as nat, 8)
}

/// Whether the child of a node on some level is read as a list of chunks: the child of a
/// leaf by its entry, any other one by the node that it is.
pub open spec fn child_reads(
    data: Seq<u8>,
    base: u64,
    rank: nat,
    level: nat,
    c: ChildView,
    list: Seq<ChunkView>,
) -> bool {
    &&& c.first.len() == 16 + 8 * rank
    &&& level == 0 ==> list == seq![
        ChunkView {
            offsets: offsets_at(entry_bytes(c), 8, rank),
            size: le_at(entry_bytes(c), 0, 4),
            mask: le_at(entry_bytes(c), 4, 4) as u32,
            addr: c.addr,
        },
    ]
    &&& level > 0 ==> forall|depth: nat, acc: Seq<ChunkView>|
        depth >= level ==> #[trigger] tree_chunks(data, base, c.addr, rank, depth, acc) == Ok::<
            Seq<ChunkView>,
            Seq<char>,
        >(acc + list)
}

/// Whether the children of a level are read as lists of chunks.
pub open spec fn children_read(
    data: Seq<u8>,
    base: u64,
    rank: nat,
    level: nat,
    cs: Seq<ChildView>,
    lists: Seq<Seq<ChunkView>>,
) -> bool {
    &&& cs.len() == lists.len()
    &&& forall|i: int|
        0 <= i < cs.len() ==> child_reads(data, base, rank, level, #[trigger] cs[i], lists[i])
}

pub(crate) proof fn lemma_child_front(cs: Seq<ChildView>)
    requires
        cs.len() > 0,
    ensures
        child_messages(cs) == entry_bytes(cs[0]) + child_messages(cs.skip(1)),
    decreases cs.len(),
{
    if cs.len() > 1 {
        lemma_child_front(cs.drop_last());
        assert(cs.drop_last().skip(1) =~= cs.skip(1).drop_last());
        assert(cs.skip(1).last() == cs.last());
        assert(child_messages(cs) =~= entry_bytes(cs[0]) + child_messages(cs.skip(1)));
    } else {
        assert(cs.drop_last() =~= Seq::empty());
        assert(cs.skip(1) =~= Seq::empty());
        assert(child_messages(cs) =~= entry_bytes(cs[0]) + child_messages(cs.skip(1)));
    }
}

/// The entries of a node are read.
proof fn lemma_entries(
    data: Seq<u8>,
    base: u64,
    pos: int,
    rank: nat,
    level: nat,
    cs: Seq<ChildView>,
    lists: Seq<Seq<ChunkView>>,
    depth: nat,
    acc: Seq<ChunkView>,
)
    requires
        stands(data, pos, child_messages(cs)),
        children_read(data, base, rank, level, cs, lists),
        depth >= level,
    ensures
        entries_chunks(data, base, data.skip(pos), rank, level == 0, cs.len(), depth, acc) == Ok::<
            Seq<ChunkView>,
            Seq<char>,
        >(acc + flat(lists)),
    decreases cs.len(),
{
    if cs.len() == 0 {
        assert(acc + flat(lists) =~= acc);
    } else {
        let c = cs[0];
        let b = entry_bytes(c);
        let rest = child_messages(cs.skip(1));
        lemma_child_front(cs);
        assert(child_reads(data, base, rank, level, c, lists[0]));
        lemma_le_bytes_len(c.addr as nat, 8);
        lemma_stands_both(data, pos, b, rest);
        let s = data.skip(pos);
        assert(b.len() == 24 + 8 * rank);
        assert(s.take(b.len() as int) =~= data.subrange(pos, pos + b.len()));
        assert(s.skip(b.len() as int) =~= data.skip(pos + b.len()));
        lemma_pow256();
        law_le_round_trip(c.addr as nat, 8);
        assert(b.subrange((16 + 8 * rank) as int, (24 + 8 * rank) as int) =~= le_bytes(
            c.addr as nat,
            8,
        ));
        assert(children_read(data, base, rank, level, cs.skip(1), lists.skip(1))) by {
            assert forall|i: int| 0 <= i < cs.skip(1).len() implies child_reads(
                data,
                base,
                rank,
                level,
                #[trigger] cs.skip(1)[i],
                lists.skip(1)[i],
            ) by {
                assert(child_reads(data, base, rank, level, cs[i + 1], lists[i + 1]));
            }
        }
        let next = acc + lists[0];
        lemma_entries(
            data,
            base,
            pos + b.len(),
            rank,
            level,
            cs.skip(1),
            lists.skip(1),
            depth,
            next,
        );
        assert(next + flat(lists.skip(1)) =~= acc + flat(lists));
        if level == 0 {
            assert(acc.push(lists[0][0]) =~= next);
        } else {
            assert(tree_chunks(data, base, c.addr, rank, depth, acc) == Ok::<
                Seq<ChunkView>,
                Seq<char>,
            >(next));
        }
    }
}

/// The head of a node.
pub open spec fn node_head(kind: u8, level: nat, n: nat, left: u64, right: u64) -> Seq<u8> {
    seq![84u8, 82u8, 69u8, 69u8, kind] + le_bytes(level, 1) + le_bytes(n, 2) + le_bytes(
        left as nat,
        8,
    ) + le_bytes(right as nat, 8)
}

pub(crate) proof fn lemma_node_head(
    t: TreeShape,
    level: nat,
    left: u64,
    right: u64,
    cs: Seq<ChildView>,
    data: Seq<u8>,
    pos: int,
)
    requires
        stands(data, pos, node_message(t, level, left, right, cs)),
    ensures
        stands(data, pos, node_head(t.kind, level, cs.len(), left, right)),
        stands(data, pos + 24, child_messages(cs)),
        node_head(t.kind, level, cs.len(), left, right).len() == 24,
{
    let h = node_head(t.kind, level, cs.len(), left, right);
    let last = if cs.len() == 0 {
        t.empty
    } else {
        cs.last().last
    };
    lemma_le_bytes_len(level, 1);
    lemma_le_bytes_len(cs.len(), 2);
    lemma_le_bytes_len(left as nat, 8);
    lemma_le_bytes_len(right as nat, 8);
    let m = h + child_messages(cs) + last;
    let all = node_message(t, level, left, right, cs);
    let tail = if m.len() < t.node_size() {
        zeroes((t.node_size() - m.len()) as nat)
    } else {
        Seq::empty()
    };
    assert(all =~= m + tail);
    lemma_stands_both(data, pos, m, tail);
    lemma_stands_both(data, pos, h + child_messages(cs), last);
    lemma_stands_both(data, pos, h, child_messages(cs));
}

/// What is read of the head of a node.
pub(crate) proof fn lemma_head_read(
    data: Seq<u8>,
    pos: int,
    kind: u8,
    level: nat,
    n: nat,
    left: u64,
    right: u64,
)
    requires
        stands(data, pos, node_head(kind, level, n, left, right)),
        level < 256,
        n < 0x1_0000,
    ensures
        ({
            let s = data.skip(pos);
            let r = s.skip(4);
            let h = r.take(20);
            &&& s.len() >= 24
            &&& s.take(4) == seq![84u8, 82u8, 69u8, 69u8]
            &&& r[0] == kind
            &&& (h[1] == 0) == (level == 0)
            &&& le_at(h, 2, 2) == n
            &&& r.skip(20) == data.skip(pos + 24)
        }),
{
    let head = node_head(kind, level, n, left, right);
    lemma_pow256();
    lemma_le_bytes_len(level, 1);
    lemma_le_bytes_len(n, 2);
    lemma_le_bytes_len(left as nat, 8);
    lemma_le_bytes_len(right as nat, 8);
    lemma_stands(data, pos, head);
    let s = data.skip(pos);
    let r = s.skip(4);
    let h = r.take(20);
    assert(s.take(4) =~= head.take(4)) by {
        assert forall|i: int| 0 <= i < 4 implies s[i] == head[i] by {
            assert(head[i] == data[pos + i]);
        }
    }
    assert(head.take(4) =~= seq![84u8, 82u8, 69u8, 69u8]);
    assert(head[4] == data[pos + 4]);
    assert(head[5] == data[pos + 5]);
    reveal_with_fuel(le_bytes, 2);
    assert(head[5] == level);
    law_le_round_trip(n, 2);
    lemma_stands_part(data, pos, head, 6, 8);
    assert(head.subrange(6, 8) =~= le_bytes(n, 2));
    assert(h.subrange(2, 4) =~= data.subrange(pos + 6, pos + 8));
    assert(r.skip(20) =~= data.skip(pos + 24));
}

/// A node that stands in a file is read.
proof fn lemma_node(
    data: Seq<u8>,
    base: u64,
    addr: u64,
    rank: nat,
    t: TreeShape,
    level: nat,
    left: u64,
    right: u64,
    cs: Seq<ChildView>,
    lists: Seq<Seq<ChunkView>>,
    depth: nat,
    acc: Seq<ChunkView>,
)
    requires
        t.kind == 1,
        stands(data, base + addr, node_message(t, level, left, right, cs)),
        children_read(data, base, rank, level, cs, lists),
        level < 256,
        cs.len() < 0x1_0000,
        addr != UNDEF,
        depth >= level + 1,
    ensures
        tree_chunks(data, base, addr, rank, depth, acc) == Ok::<Seq<ChunkView>, Seq<char>>(
            acc + flat(lists),
        ),
{
    let pos = base + addr;
    lemma_node_head(t, level, left, right, cs, data, pos);
    lemma_head_read(data, pos, 1, level, cs.len(), left, right);
    lemma_entries(data, base, pos + 24, rank, level, cs, lists, (depth - 1) as nat, acc);
    assert(rest_at(data, pos) == data.skip(pos));
}

/// Whether the keys of children have their size.
pub open spec fn keys_fit(t: TreeShape, cs: Seq<ChildView>) -> bool {
    forall|i: int|
        0 <= i < cs.len() ==> (#[trigger] cs[i]).first.len() == t.key && cs[i].last.len() == t.key
}

pub(crate) proof fn lemma_children_len(t: TreeShape, cs: Seq<ChildView>)
    requires
        keys_fit(t, cs),
    ensures
        child_messages(cs).len() == cs.len() * (t.key + 8),
    decreases cs.len(),
{
    if cs.len() > 0 {
        let init = cs.drop_last();
        assert(keys_fit(t, init)) by {
            assert forall|i: int| 0 <= i < init.len() implies (#[trigger] init[i]).first.len()
                == t.key && init[i].last.len() == t.key by {
                assert(init[i] == cs[i]);
            }
        }
        lemma_children_len(t, init);
        assert(cs.last() == cs[cs.len() - 1]);
        lemma_le_bytes_len(cs.last().addr as nat, 8);
        let n = cs.len();
        assert((n - 1) * (t.key + 8) + (t.key + 8) == n * (t.key + 8)) by (nonlinear_arith);
    } else {
        assert(0 * (t.key + 8) == 0) by (nonlinear_arith);
    }
}

proof fn lemma_node_len(t: TreeShape, level: nat, left: u64, right: u64, cs: Seq<ChildView>)
    requires
        keys_fit(t, cs),
        0 < cs.len() <= t.cap,
    ensures
        node_message(t, level, left, right, cs).len() == t.node_size(),
{
    lemma_children_len(t, cs);
    lemma_le_bytes_len(level, 1);
    lemma_le_bytes_len(cs.len(), 2);
    lemma_le_bytes_len(left as nat, 8);
    lemma_le_bytes_len(right as nat, 8);
    assert(cs.last() == cs[cs.len() - 1]);
    assert(cs.len() * (t.key + 8) <= t.cap * (t.key + 8)) by (nonlinear_arith)
        requires
            cs.len() <= t.cap,
    ;
}

/// The children of a node are some of those of its level.
pub(crate) proof fn lemma_part(t: TreeShape, cs: Seq<ChildView>, i: nat)
    requires
        keys_fit(t, cs),
        2 <= t.cap,
        cs.len() > 0,
        i < node_count(t, cs.len()),
    ensures
        0 < node_children(t, cs, i).len() <= t.cap,
        i * t.cap < cs.len(),
        keys_fit(t, node_children(t, cs, i)),
{
    lemma_node_range(cs.len(), t.cap, i);
    let part = node_children(t, cs, i);
    assert forall|k: int| 0 <= k < part.len() implies (#[trigger] part[k]).first.len() == t.key
        && part[k].last.len() == t.key by {
        assert(part[k] == cs[i * t.cap + k]);
    }
}

pub(crate) proof fn lemma_level_len(
    t: TreeShape,
    level: nat,
    cs: Seq<ChildView>,
    start: nat,
    i: nat,
    n: nat,
)
    requires
        keys_fit(t, cs),
        2 <= t.cap,
        cs.len() > 0,
        i <= node_count(t, cs.len()),
    ensures
        level_nodes(t, level, cs, start, i, n).len() == i * t.node_size(),
    decreases i,
{
    if i > 0 {
        let j = (i - 1) as nat;
        lemma_level_len(t, level, cs, start, j, n);
        lemma_part(t, cs, j);
        let x = level_node(t, level, cs, start, j, n);
        lemma_node_len(
            t,
            level,
            if j == 0 {
                UNDEF
            } else {
                node_addr(t, start, (j - 1) as nat)
            },
            if j + 1 >= n {
                UNDEF
            } else {
                node_addr(t, start, j + 1)
            },
            node_children(t, cs, j),
        );
        let z = t.node_size();
        assert((i - 1) * z + z == i * z) by (nonlinear_arith);
    } else {
        assert(0 * t.node_size() == 0) by (nonlinear_arith);
    }
}

/// A node stands at its place in its level.
pub(crate) proof fn lemma_level_part(
    t: TreeShape,
    level: nat,
    cs: Seq<ChildView>,
    start: nat,
    i: nat,
    j: nat,
    n: nat,
)
    requires
        keys_fit(t, cs),
        2 <= t.cap,
        cs.len() > 0,
        i < j <= node_count(t, cs.len()),
    ensures
        stands(
            level_nodes(t, level, cs, start, j, n),
            (i * t.node_size()) as int,
            level_node(t, level, cs, start, i, n),
        ),
    decreases j,
{
    let k = (j - 1) as nat;
    let before = level_nodes(t, level, cs, start, k, n);
    let all = level_nodes(t, level, cs, start, j, n);
    let x = level_node(t, level, cs, start, i, n);
    lemma_level_len(t, level, cs, start, k, n);
    let at = (i * t.node_size()) as int;
    assert(at >= 0) by (nonlinear_arith)
        requires
            at == i * t.node_size(),
    ;
    if i < k {
        lemma_level_part(t, level, cs, start, i, k, n);
        assert(all.subrange(at, at + x.len()) =~= before.subrange(at, at + x.len()));
    } else {
        assert(all.subrange(at, at + x.len()) =~= x);
    }
}

/// The lists of the nodes of a level.
pub open spec fn grouped<T>(lists: Seq<Seq<T>>, cap: nat, n: nat) -> Seq<Seq<T>> {
    Seq::new(
        n,
        |i: int|
            flat(
                lists.subrange(
                    i * cap,
                    if (i + 1) * cap < lists.len() {
                        (i + 1) * cap
                    } else {
                        lists.len() as int
                    },
                ),
            ),
    )
}

/// Lists that are grouped hold what they held.
pub(crate) proof fn lemma_grouped<T>(lists: Seq<Seq<T>>, cap: nat, n: nat)
    requires
        cap >= 1,
        n >= 1,
        (n - 1) * cap < lists.len(),
    ensures
        flat(grouped(lists, cap, n)) == flat(
            lists.take(
                if n * cap < lists.len() {
                    (n * cap) as int
                } else {
                    lists.len() as int
                },
            ),
        ),
    decreases n,
{
    let g = grouped(lists, cap, n);
    let from = (n - 1) * cap;
    let to = if n * cap < lists.len() {
        (n * cap) as int
    } else {
        lists.len() as int
    };
    let last = lists.subrange(from, to);
    assert(from >= 0) by (nonlinear_arith)
        requires
            from == (n - 1) * cap,
            n >= 1,
    ;
    assert(n * cap == from + cap) by (nonlinear_arith)
        requires
            from == (n - 1) * cap,
    ;
    assert(g.last() == flat(last));
    let init = g.drop_last();
    assert(g =~= init + seq![flat(last)]);
    lemma_flat_add(init, seq![flat(last)]);
    assert(seq![flat(last)].skip(1) =~= Seq::empty());
    reveal_with_fuel(flat, 2);
    assert(flat(seq![flat(last)]) =~= flat(last));
    assert(init =~= grouped(lists, cap, (n - 1) as nat));
    assert(lists.take(to) =~= lists.take(from) + last);
    lemma_flat_add(lists.take(from), last);
    if n > 1 {
        assert((n - 2) * cap < lists.len()) by (nonlinear_arith)
            requires
                (n - 1) * cap < lists.len(),
                n >= 1,
                cap >= 1,
        ;
        lemma_grouped(lists, cap, (n - 1) as nat);
    } else {
        assert(from == 0);
        assert(init =~= Seq::empty());
        assert(lists.take(0) =~= Seq::empty());
    }
}

/// The nodes of a level that stands in a file are read.
proof fn lemma_level(
    data: Seq<u8>,
    base: u64,
    rank: nat,
    t: TreeShape,
    level: nat,
    cs: Seq<ChildView>,
    lists: Seq<Seq<ChunkView>>,
    start: nat,
)
    requires
        t == chunk_shape(rank),
        keys_fit(t, cs),
        cs.len() > 0,
        level < 255,
        children_read(data, base, rank, level, cs, lists),
        start + node_count(t, cs.len()) * t.node_size() < u64::MAX,
        stands(
            data,
            base + start,
            level_nodes(
                t,
                level,
                cs,
                start,
                node_count(t, cs.len()),
                node_count(t, cs.len()),
            ),
        ),
    ensures
        children_read(
            data,
            base,
            rank,
            level + 1,
            level_children(t, cs, start),
            grouped(lists, t.cap, node_count(t, cs.len())),
        ),
        keys_fit(t, level_children(t, cs, start)),
        flat(grouped(lists, t.cap, node_count(t, cs.len()))) == flat(lists),
{
    let n = node_count(t, cs.len());
    let size = t.node_size();
    let up = level_children(t, cs, start);
    let groups = grouped(lists, t.cap, n);
    assert forall|i: int| 0 <= i < up.len() implies child_reads(
        data,
        base,
        rank,
        level + 1,
        #[trigger] up[i],
        groups[i],
    ) && up[i].last.len() == t.key by {
        let k = i as nat;
        lemma_part(t, cs, k);
        let part = node_children(t, cs, k);
        let from = k * t.cap;
        let plists = lists.subrange(from as int, (from + part.len()) as int);
        assert((k + 1) * t.cap == k * t.cap + t.cap) by (nonlinear_arith);
        assert(groups[i] == flat(plists));
        assert(children_read(data, base, rank, level, part, plists)) by {
            assert forall|j: int| 0 <= j < part.len() implies child_reads(
                data,
                base,
                rank,
                level,
                #[trigger] part[j],
                plists[j],
            ) by {
                assert(child_reads(data, base, rank, level, cs[from + j], lists[from + j]));
            }
        }
        lemma_level_part(t, level, cs, start, k, n, n);
        let node = level_node(t, level, cs, start, k, n);
        let at = k * size;
        lemma_level_len(t, level, cs, start, n, n);
        lemma_stands_within(
            data,
            base + start,
            level_nodes(t, level, cs, start, n, n),
            at as int,
            node,
        );
        assert(k * size + size <= n * size) by (nonlinear_arith)
            requires
                k + 1 <= n,
        ;
        let addr = node_addr(t, start, k);
        assert(addr == start + at);
        assert(up[i].addr == addr);
        assert(part.first() == part[0] && part.last() == part[part.len() - 1]);
        let left = if k == 0 {
            UNDEF
        } else {
            node_addr(t, start, (k - 1) as nat)
        };
        let right = if k + 1 >= n {
            UNDEF
        } else {
            node_addr(t, start, k + 1)
        };
        assert forall|depth: nat, acc: Seq<ChunkView>| depth >= level + 1 implies #[trigger]
            tree_chunks(data, base, up[i].addr, rank, depth, acc) == Ok::<
                Seq<ChunkView>,
                Seq<char>,
            >(acc + groups[i]) by {
            lemma_node(
                data,
                base,
                addr,
                rank,
                t,
                level,
                left,
                right,
                part,
                plists,
                depth,
                acc,
            );
        }
    }
    lemma_node_range(cs.len(), t.cap, (n - 1) as nat);
    lemma_grouped(lists, t.cap, n);
    lemma_all_nodes(t, cs.len());
    assert(lists.take(lists.len() as int) =~= lists);
}

pub(crate) proof fn lemma_all_nodes(t: TreeShape, n: nat)
    requires
        t.cap >= 2,
        n > 0,
    ensures
        node_count(t, n) * t.cap >= n,
{
    let q = (n - 1) as nat / t.cap;
    assert((q + 1) * t.cap >= n) by (nonlinear_arith)
        requires
            q == (n - 1) as nat / t.cap,
            t.cap >= 2,
            n > 0,
    ;
}

pub(crate) proof fn lemma_stands_within(data: Seq<u8>, pos: int, s: Seq<u8>, at: int, part: Seq<u8>)
    requires
        stands(data, pos, s),
        stands(s, at, part),
    ensures
        stands(data, pos + at, part),
{
    lemma_stands_part(data, pos, s, at, at + part.len());
}

/// A tree stands behind the image before it.
pub(crate) proof fn lemma_tree_extends(s: Seq<u8>, t: TreeShape, level: nat, cs: Seq<ChildView>)
    ensures
        tree_written(s, t, level, cs) matches Ok(x) ==> extends(
            x.0,
            padded(s) + level_nodes(
                t,
                level,
                cs,
                padded(s).len(),
                node_count(t, cs.len()),
                node_count(t, cs.len()),
            ),
        ) && extends(x.0, s),
    decreases cs.len(),
{
    let n = node_count(t, cs.len());
    let start = padded(s).len();
    let s1 = padded(s) + level_nodes(t, level, cs, start, n, n);
    assert(s1.take(s1.len() as int) =~= s1);
    assert(s1.take(s.len() as int) =~= s);
    if start + n * t.node_size() <= u64::MAX && n > 1 && n < cs.len() {
        let up = level_children(t, cs, start);
        lemma_tree_extends(s1, t, level + 1, up);
        if let Ok(x) = tree_written(s1, t, level + 1, up) {
            lemma_extends(s1, s1, x.0);
            lemma_extends(s, s1, x.0);
        }
    }
}

pub(crate) proof fn lemma_keeps_less(t: Seq<u8>, base: u64, whole: Seq<u8>, s: Seq<u8>, from: nat)
    requires
        keeps(t, base, whole, from),
        extends(whole, s),
    ensures
        keeps(t, base, s, from),
{
    assert forall|i: int| from <= i < s.len() implies #[trigger] s[i] == t[base + i] by {
        assert(whole.take(s.len() as int)[i] == s[i]);
        assert(whole[i] == t[base + i]);
    }
}

/// A tree of chunks is read as it is written, from any file that holds the image: the
/// lists of its children come back in their order.
pub proof fn law_tree_read(
    data: Seq<u8>,
    base: u64,
    rank: nat,
    s: Seq<u8>,
    level: nat,
    cs: Seq<ChildView>,
    lists: Seq<Seq<ChunkView>>,
    out: Seq<u8>,
    root: u64,
    depth: nat,
)
    requires
        tree_written(s, chunk_shape(rank), level, cs) == Ok::<(Seq<u8>, u64), Seq<char>>(
            (out, root),
        ),
        keeps(data, base, out, s.len()),
        out.len() < u64::MAX,
        s.len() >= 96,
        cs.len() > 0,
        level <= 64,
        cs.len() <= pow2((64 - level) as nat),
        keys_fit(chunk_shape(rank), cs),
        children_read(data, base, rank, level, cs, lists),
        depth >= level + cs.len() + 1,
    ensures
        tree_chunks(data, base, root, rank, depth, Seq::empty()) == Ok::<
            Seq<ChunkView>,
            Seq<char>,
        >(flat(lists)),
    decreases cs.len(),
{
    let t = chunk_shape(rank);
    let n = node_count(t, cs.len());
    let start = padded(s).len();
    let nodes = level_nodes(t, level, cs, start, n, n);
    let s1 = padded(s) + nodes;
    lemma_count_shrinks(t, cs.len());
    lemma_tree_extends(s, t, level, cs);
    lemma_keeps_less(data, base, out, s1, s.len());
    lemma_level_len(t, level, cs, start, n, n);
    assert(stands(s1, start as int, nodes)) by {
        assert(s1.subrange(start as int, (start + nodes.len()) as int) =~= nodes);
    }
    lemma_keeps(data, base, s1, s.len(), start as int, nodes);
    lemma_level(data, base, rank, t, level, cs, lists, start);
    let up = level_children(t, cs, start);
    let groups = grouped(lists, t.cap, n);
    if n <= 1 || n >= cs.len() {
        assert(n == 1);
        assert(0 * t.node_size() == 0) by (nonlinear_arith);
        assert(up[0].addr == root);
        assert(child_reads(data, base, rank, level + 1, up[0], groups[0]));
        let none = Seq::<ChunkView>::empty();
        assert(tree_chunks(data, base, up[0].addr, rank, depth, none) == Ok::<
            Seq<ChunkView>,
            Seq<char>,
        >(none + groups[0]));
        reveal_with_fuel(flat, 2);
        assert(groups.skip(1) =~= Seq::empty());
        assert(groups[0] + Seq::<ChunkView>::empty() =~= groups[0]);
        assert(none + groups[0] =~= groups[0]);
    } else {
        assert(level < 64) by {
            if level == 64 {
                assert(pow2(0) == 1);
            }
        }
        reveal_with_fuel(pow2, 2);
        assert(pow2((64 - level) as nat) == 2 * pow2((63 - level) as nat));
        assert(2 * n <= cs.len() + 1);
        assert(n <= pow2((64 - (level + 1)) as nat));
        law_tree_read(
            data,
            base,
            rank,
            s1,
            level + 1,
            up,
            groups,
            out,
            root,
            depth,
        );
    }
}

/// A tree takes more bytes than it has children.
pub(crate) proof fn lemma_room(
    s: Seq<u8>,
    t: TreeShape,
    level: nat,
    cs: Seq<ChildView>,
    out: Seq<u8>,
)
    requires
        tree_written(s, t, level, cs) matches Ok(x) && x.0 == out,
        keys_fit(t, cs),
        cs.len() > 0,
        t.cap >= 2,
        s.len() >= 96,
    ensures
        out.len() >= cs.len() + 96,
{
    let n = node_count(t, cs.len());
    let start = padded(s).len();
    lemma_tree_extends(s, t, level, cs);
    lemma_level_len(t, level, cs, start, n, n);
    lemma_all_nodes(t, cs.len());
    let size = t.node_size();
    assert(t.cap * (t.key + 8) >= t.cap) by (nonlinear_arith);
    assert(n * size >= n * t.cap) by (nonlinear_arith)
        requires
            size >= t.cap,
    ;
}

} // verus!
