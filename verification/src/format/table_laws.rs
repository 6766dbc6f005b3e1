//! Symbol tables are read as they are written.

use vstd::prelude::*;

use vstd::utf8::encode_utf8;

use crate::format::bits::pow2;
use crate::format::chunk_read_laws::{lemma_pow64, lemma_singles, singles};
use crate::format::datatype_laws::{lemma_nul, plain_name};
use crate::format::fheap::part;
use crate::format::gheap::rest_at;
use crate::format::group::{
    entries_walked, heap_text, local_heap, node_symbols, nodes_symbols, symbol, symbols_taken,
    table_symbols, tree_leaves, MemberLink,
};
use crate::format::group_write::{
    group_shape, hard_entry, link_entered, links_entered, name_key, node_entries, node_total,
    nodes_written, soft_entry, table_written, Ref, TableView,
};
use crate::format::object::RawTargetView;
use crate::format::object_laws::{keeps, lemma_keeps};
use crate::format::stands::{lemma_stands, lemma_stands_both, stands};
use crate::format::tree::{
    appended, child_messages, end_of, entry_message, entry_messages, extends, heap_header,
    heap_segment, heap_written, lemma_count_shrinks, lemma_extends, lemma_node_range,
    level_children, level_node, level_nodes, node_addr, node_children, node_count, node_message,
    padded, symbol_node, text_added, text_place, tree_written, ChildView, HeapTexts, SymbolEntry,
};
use crate::format::tree_laws::{
    flat, grouped, keys_fit, lemma_all_nodes, lemma_child_front, lemma_children_len, lemma_grouped,
    lemma_head_read, lemma_keeps_less, lemma_level_len, lemma_level_part, lemma_node_head,
    lemma_part, lemma_room, lemma_stands_within, lemma_tree_extends, node_head,
};
use crate::format::{law_le_round_trip, le_bytes, lemma_le_bytes_len, lemma_pow256, zeroes, UNDEF};
use crate::model::{LinkView, TargetView};
use crate::text::law_text_of_utf8;

verus! {

// Trees.

/// Whether the child of a node on some level leads to leaves: the child of the lowest
/// level is one, any other one is a node above some.
pub open spec fn child_leads(
    data: Seq<u8>,
    base: u64,
    level: nat,
    c: ChildView,
    list: Seq<u64>,
) -> bool {
    &&& level == 0 ==> list == seq![c.addr]
    &&& level > 0 ==> forall|depth: nat, acc: Seq<u64>|
        depth >= level ==> #[trigger] tree_leaves(data, base, c.addr, depth, acc) == Ok::<
            Seq<u64>,
            Seq<char>,
        >(acc + list)
}

/// Whether the children of a level lead to leaves.
pub open spec fn children_lead(
    data: Seq<u8>,
    base: u64,
    level: nat,
    cs: Seq<ChildView>,
    lists: Seq<Seq<u64>>,
) -> bool {
    &&& cs.len() == lists.len()
    &&& forall|i: int|
        0 <= i < cs.len() ==> child_leads(data, base, level, #[trigger] cs[i], lists[i])
}

/// The entries of a node are read. The key before the first one has been read.
proof fn lemma_group_entries(
    data: Seq<u8>,
    base: u64,
    pos: int,
    level: nat,
    cs: Seq<ChildView>,
    lists: Seq<Seq<u64>>,
    depth: nat,
    acc: Seq<u64>,
)
    requires
        cs.len() > 0,
        keys_fit(group_shape(), cs),
        stands(data, pos, child_messages(cs) + cs.last().last),
        children_lead(data, base, level, cs, lists),
        depth >= level,
    ensures
        entries_walked(data, base, data.skip(pos + 8), level == 0, cs.len(), depth, acc) == Ok::<
            Seq<u64>,
            Seq<char>,
        >(acc + flat(lists)),
    decreases cs.len(),
{
    let c = cs[0];
    let a = le_bytes(c.addr as nat, 8);
    let rest = child_messages(cs.skip(1)) + cs.last().last;
    lemma_child_front(cs);
    lemma_le_bytes_len(c.addr as nat, 8);
    assert(c.first.len() == 8 && cs[cs.len() - 1].last.len() == 8);
    assert(child_messages(cs) + cs.last().last =~= c.first + (a + rest));
    lemma_stands_both(data, pos, c.first, a + rest);
    lemma_stands_both(data, pos + 8, a, rest);
    let more = cs.skip(1);
    assert(keys_fit(group_shape(), more)) by {
        assert forall|i: int| 0 <= i < more.len() implies (#[trigger] more[i]).first.len() == 8
            && more[i].last.len() == 8 by {
            assert(more[i] == cs[i + 1]);
        }
    }
    lemma_children_len(group_shape(), more);
    assert(more.len() * 16 >= 0);
    assert(rest.len() >= 8);
    assert(data.len() >= pos + 24);
    let s = data.skip(pos + 8);
    let b = s.take(16);
    assert(b.subrange(0, 8) =~= data.subrange(pos + 8, pos + 16));
    lemma_pow256();
    law_le_round_trip(c.addr as nat, 8);
    assert(s.skip(16) =~= data.skip(pos + 24));
    assert(child_leads(data, base, level, c, lists[0]));
    let next = acc + lists[0];
    let tail = lists.skip(1);
    assert(next + flat(tail) =~= acc + flat(lists));
    if level == 0 {
        assert(acc.push(c.addr) =~= next);
    } else {
        assert(tree_leaves(data, base, c.addr, depth, acc) == Ok::<Seq<u64>, Seq<char>>(next));
    }
    if more.len() > 0 {
        assert(more.last() == cs.last());
        assert(children_lead(data, base, level, more, tail)) by {
            assert forall|i: int| 0 <= i < more.len() implies child_leads(
                data,
                base,
                level,
                #[trigger] more[i],
                tail[i],
            ) by {
                assert(child_leads(data, base, level, cs[i + 1], lists[i + 1]));
            }
        }
        lemma_group_entries(data, base, pos + 16, level, more, tail, depth, next);
    } else {
        assert(tail =~= Seq::empty());
        assert(next + flat(tail) =~= next);
    }
}

/// A node that stands in a file is read.
proof fn lemma_group_node(
    data: Seq<u8>,
    base: u64,
    addr: u64,
    level: nat,
    left: u64,
    right: u64,
    cs: Seq<ChildView>,
    lists: Seq<Seq<u64>>,
    depth: nat,
    acc: Seq<u64>,
)
    requires
        stands(data, base + addr, node_message(group_shape(), level, left, right, cs)),
        keys_fit(group_shape(), cs),
        children_lead(data, base, level, cs, lists),
        level < 256,
        cs.len() <= 32,
        addr != UNDEF,
        depth >= level + 1,
    ensures
        tree_leaves(data, base, addr, depth, acc) == Ok::<Seq<u64>, Seq<char>>(acc + flat(lists)),
{
    let t = group_shape();
    let pos = base + addr;
    lemma_node_head(t, level, left, right, cs, data, pos);
    lemma_head_read(data, pos, 0, level, cs.len(), left, right);
    let h = node_head(0, level, cs.len(), left, right);
    let last = if cs.len() == 0 {
        t.empty
    } else {
        cs.last().last
    };
    let body = child_messages(cs) + last;
    let m = h + body;
    let all = node_message(t, level, left, right, cs);
    let tail = if m.len() < t.node_size() {
        zeroes((t.node_size() - m.len()) as nat)
    } else {
        Seq::empty()
    };
    assert(h + child_messages(cs) + last =~= m);
    assert(all =~= m + tail);
    lemma_stands_both(data, pos, m, tail);
    lemma_stands_both(data, pos, h, body);
    lemma_children_len(t, cs);
    if cs.len() > 0 {
        assert(cs[cs.len() - 1].last.len() == 8);
    }
    assert(cs.len() * 16 >= 0);
    assert(body.len() >= 8);
    assert(data.len() >= pos + 32);
    let s = rest_at(data, pos);
    assert(s == data.skip(pos));
    let r = s.skip(4);
    let head = r.take(28);
    assert(head.subrange(2, 4) =~= r.take(20).subrange(2, 4));
    assert(head[1] == r.take(20)[1] && head[0] == r[0]);
    assert(r.skip(28) =~= data.skip(pos + 32));
    if cs.len() > 0 {
        lemma_group_entries(data, base, pos + 24, level, cs, lists, (depth - 1) as nat, acc);
    } else {
        assert(lists =~= Seq::empty());
        assert(acc + flat(lists) =~= acc);
    }
}

/// The nodes of a level that stands in a file are read.
proof fn lemma_group_level(
    data: Seq<u8>,
    base: u64,
    level: nat,
    cs: Seq<ChildView>,
    lists: Seq<Seq<u64>>,
    start: nat,
)
    requires
        keys_fit(group_shape(), cs),
        cs.len() > 0,
        level < 255,
        children_lead(data, base, level, cs, lists),
        start + node_count(group_shape(), cs.len()) * group_shape().node_size() < u64::MAX,
        stands(
            data,
            base + start,
            level_nodes(
                group_shape(),
                level,
                cs,
                start,
                node_count(group_shape(), cs.len()),
                node_count(group_shape(), cs.len()),
            ),
        ),
    ensures
        children_lead(
            data,
            base,
            level + 1,
            level_children(group_shape(), cs, start),
            grouped(lists, 32, node_count(group_shape(), cs.len())),
        ),
        keys_fit(group_shape(), level_children(group_shape(), cs, start)),
        flat(grouped(lists, 32, node_count(group_shape(), cs.len()))) == flat(lists),
{
    let t = group_shape();
    let n = node_count(t, cs.len());
    let size = t.node_size();
    let up = level_children(t, cs, start);
    let groups = grouped(lists, 32, n);
    assert forall|i: int| 0 <= i < up.len() implies child_leads(
        data,
        base,
        level + 1,
        #[trigger] up[i],
        groups[i],
    ) && up[i].first.len() == 8 && up[i].last.len() == 8 by {
        let k = i as nat;
        lemma_part(t, cs, k);
        let part = node_children(t, cs, k);
        let from = k * t.cap;
        let plists = lists.subrange(from as int, (from + part.len()) as int);
        assert((k + 1) * t.cap == k * t.cap + t.cap) by (nonlinear_arith);
        assert(groups[i] == flat(plists));
        assert(children_lead(data, base, level, part, plists)) by {
            assert forall|j: int| 0 <= j < part.len() implies child_leads(
                data,
                base,
                level,
                #[trigger] part[j],
                plists[j],
            ) by {
                assert(child_leads(data, base, level, cs[from + j], lists[from + j]));
            }
        }
        lemma_level_part(t, level, cs, start, k, n, n);
        let node = level_node(t, level, cs, start, k, n);
        let at = k * size;
        lemma_level_len(t, level, cs, start, n, n);
        lemma_stands_within(
            data,
            base + start,
            level_nodes(t, level, cs, start, n, n),
            at as int,
            node,
        );
        assert(k * size + size <= n * size) by (nonlinear_arith)
            requires
                k + 1 <= n,
        ;
        let addr = node_addr(t, start, k);
        assert(addr == start + at);
        assert(up[i].addr == addr);
        assert(part.first() == part[0] && part.last() == part[part.len() - 1]);
        let left = if k == 0 {
            UNDEF
        } else {
            node_addr(t, start, (k - 1) as nat)
        };
        let right = if k + 1 >= n {
            UNDEF
        } else {
            node_addr(t, start, k + 1)
        };
        assert forall|depth: nat, acc: Seq<u64>| depth >= level + 1 implies #[trigger] tree_leaves(
            data,
            base,
            up[i].addr,
            depth,
            acc,
        ) == Ok::<Seq<u64>, Seq<char>>(acc + groups[i]) by {
            lemma_group_node(data, base, addr, level, left, right, part, plists, depth, acc);
        }
    }
    lemma_node_range(cs.len(), t.cap, (n - 1) as nat);
    lemma_grouped(lists, t.cap, n);
    lemma_all_nodes(t, cs.len());
    assert(lists.take(lists.len() as int) =~= lists);
}

/// The tree of a group is read as it is written, from any file that holds the image: its
/// leaves come back in their order.
pub proof fn law_group_tree_read(
    data: Seq<u8>,
    base: u64,
    s: Seq<u8>,
    level: nat,
    cs: Seq<ChildView>,
    lists: Seq<Seq<u64>>,
    out: Seq<u8>,
    root: u64,
    depth: nat,
)
    requires
        tree_written(s, group_shape(), level, cs) == Ok::<(Seq<u8>, u64), Seq<char>>((out, root)),
        keeps(data, base, out, s.len()),
        out.len() < u64::MAX,
        s.len() >= 96,
        level <= 64,
        cs.len() > 0 || level == 0,
        cs.len() <= pow2((64 - level) as nat),
        keys_fit(group_shape(), cs),
        children_lead(data, base, level, cs, lists),
        depth >= level + cs.len() + 1,
    ensures
        tree_leaves(data, base, root, depth, Seq::empty()) == Ok::<Seq<u64>, Seq<char>>(
            flat(lists),
        ),
    decreases cs.len(),
{
    let t = group_shape();
    let n = node_count(t, cs.len());
    let start = padded(s).len();
    let nodes = level_nodes(t, level, cs, start, n, n);
    let s1 = padded(s) + nodes;
    lemma_tree_extends(s, t, level, cs);
    lemma_keeps_less(data, base, out, s1, s.len());
    assert(stands(s1, start as int, nodes)) by {
        assert(s1.subrange(start as int, (start + nodes.len()) as int) =~= nodes);
    }
    lemma_keeps(data, base, s1, s.len(), start as int, nodes);
    let none = Seq::<u64>::empty();
    if cs.len() == 0 {
        reveal_with_fuel(level_nodes, 2);
        let empty = node_children(t, cs, 0);
        assert(empty =~= Seq::empty());
        assert(nodes =~= level_node(t, level, cs, start, 0, n));
        assert(keys_fit(t, empty));
        assert(child_messages(empty) =~= Seq::empty());
        lemma_le_bytes_len(level, 1);
        lemma_le_bytes_len(0, 2);
        lemma_le_bytes_len(UNDEF as nat, 8);
        assert(nodes.len() >= 1);
        assert(start < u64::MAX);
        lemma_group_node(data, base, root, level, UNDEF, UNDEF, empty, lists, depth, none);
        assert(none + flat(lists) =~= flat(lists));
    } else {
        lemma_count_shrinks(t, cs.len());
        lemma_level_len(t, level, cs, start, n, n);
        lemma_group_level(data, base, level, cs, lists, start);
        let up = level_children(t, cs, start);
        let groups = grouped(lists, t.cap, n);
        if n <= 1 || n >= cs.len() {
            assert(n == 1);
            assert(0 * t.node_size() == 0) by (nonlinear_arith);
            assert(up[0].addr == root);
            assert(child_leads(data, base, level + 1, up[0], groups[0]));
            assert(tree_leaves(data, base, up[0].addr, depth, none) == Ok::<Seq<u64>, Seq<char>>(
                none + groups[0],
            ));
            reveal_with_fuel(flat, 2);
            assert(groups.skip(1) =~= Seq::empty());
            assert(groups[0] + Seq::<u64>::empty() =~= groups[0]);
            assert(none + groups[0] =~= groups[0]);
        } else {
            assert(level < 64) by {
                if level == 64 {
                    assert(pow2(0) == 1);
                }
            }
            reveal_with_fuel(pow2, 2);
            assert(pow2((64 - level) as nat) == 2 * pow2((63 - level) as nat));
            assert(2 * n <= cs.len() + 1);
            law_group_tree_read(data, base, s1, level + 1, up, groups, out, root, depth);
        }
    }
}

// Local heaps.

/// Whether a text, which ends before a zero byte, stands at a place of a heap.
pub open spec fn text_stands(data: Seq<u8>, off: nat, text: Seq<char>) -> bool {
    let b = encode_utf8(text);
    &&& off + b.len() < data.len()
    &&& stands(data, off as int, b)
    &&& data[(off + b.len()) as int] == 0
}

/// Whether the texts of a heap stand where they are said to.
pub open spec fn texts_stand(h: HeapTexts) -> bool {
    forall|k: int|
        0 <= k < h.places.len() ==> text_stands(
            h.data,
            (#[trigger] h.places[k]).1 as nat,
            h.places[k].0,
        )
}

/// A text stands in a heap that grew.
proof fn lemma_text_kept(data: Seq<u8>, more: Seq<u8>, off: nat, text: Seq<char>)
    requires
        text_stands(data, off, text),
        extends(more, data),
    ensures
        text_stands(more, off, text),
{
    let b = encode_utf8(text);
    assert(more.subrange(off as int, (off + b.len()) as int) =~= more.take(
        data.len() as int,
    ).subrange(off as int, (off + b.len()) as int));
    assert(more.take(data.len() as int)[(off + b.len()) as int] == more[(off + b.len()) as int]);
}

proof fn lemma_text_place(places: Seq<(Seq<char>, u64)>, text: Seq<char>)
    ensures
        text_place(places, text) matches Some(off) ==> exists|k: int|
            0 <= k < places.len() && #[trigger] places[k] == (text, off),
    decreases places.len(),
{
    if places.len() > 0 {
        if places.last().0 == text {
            assert(places[places.len() - 1] == (text, places.last().1));
        } else {
            let init = places.drop_last();
            lemma_text_place(init, text);
            if let Some(off) = text_place(init, text) {
                let k = choose|k: int| 0 <= k < init.len() && #[trigger] init[k] == (text, off);
                assert(places[k] == (text, off));
            }
        }
    }
}

/// A text that was added stands in the heap, and so do the others.
proof fn lemma_text_added(h: HeapTexts, text: Seq<char>)
    requires
        texts_stand(h),
        text_added(h, text).0.data.len() < u64::MAX,
    ensures
        texts_stand(text_added(h, text).0),
        extends(text_added(h, text).0.data, h.data),
        text_stands(text_added(h, text).0.data, text_added(h, text).1 as nat, text),
{
    let (g, off) = text_added(h, text);
    lemma_text_place(h.places, text);
    if let Some(o) = text_place(h.places, text) {
        let k = choose|k: int| 0 <= k < h.places.len() && #[trigger] h.places[k] == (text, o);
        assert(text_stands(h.data, h.places[k].1 as nat, h.places[k].0));
        assert(h.data.take(h.data.len() as int) =~= h.data);
    } else {
        let b = encode_utf8(text);
        assert(g.data.take(h.data.len() as int) =~= h.data);
        assert(g.data.subrange(h.data.len() as int, (h.data.len() + b.len()) as int) =~= b);
        assert(g.data[(h.data.len() + b.len()) as int] == 0);
        assert forall|k: int| 0 <= k < g.places.len() implies text_stands(
            g.data,
            (#[trigger] g.places[k]).1 as nat,
            g.places[k].0,
        ) by {
            if k < h.places.len() {
                assert(g.places[k] == h.places[k]);
                lemma_text_kept(h.data, g.data, h.places[k].1 as nat, h.places[k].0);
            }
        }
    }
}

/// A text is read from a heap.
proof fn lemma_heap_text(heap: Seq<u8>, off: nat, text: Seq<char>)
    requires
        text_stands(heap, off, text),
        plain_name(text),
    ensures
        heap_text(heap, off) == Ok::<Seq<char>, Seq<char>>(text),
{
    let b = encode_utf8(text);
    let s = heap.skip(off as int);
    lemma_stands(heap, off as int, b);
    assert forall|i: int| 0 <= i < b.len() implies #[trigger] s[i] != 0 by {
        assert(b[i] == heap[off + i]);
    }
    lemma_nul(s, b.len() as int, 0);
    assert(s.take(b.len() as int) =~= b) by {
        assert forall|i: int| 0 <= i < b.len() implies s[i] == b[i] by {
            assert(b[i] == heap[off + i]);
        }
    }
    law_text_of_utf8(text);
}

/// The data segment of a local heap is read as it is written.
pub proof fn law_local_heap_read(
    data: Seq<u8>,
    base: u64,
    s: Seq<u8>,
    texts: Seq<u8>,
    out: Seq<u8>,
    heap: u64,
)
    requires
        heap_written(s, texts) == (out, heap),
        keeps(data, base, out, s.len()),
        s.len() >= 96,
        out.len() < u64::MAX,
    ensures
        local_heap(data, base, heap) == Ok::<Seq<u8>, Seq<char>>(heap_segment(texts)),
{
    let seg = heap_segment(texts);
    let s1 = appended(s, seg);
    let head = heap_header(texts, end_of(s));
    let at = padded(s).len();
    let place = padded(s1).len();
    assert(out == padded(s1) + head);
    lemma_le_bytes_len(seg.len(), 8);
    lemma_le_bytes_len(texts.len(), 8);
    lemma_le_bytes_len(end_of(s) as nat, 8);
    lemma_le_bytes_len(1, 8);
    lemma_le_bytes_len(16, 8);
    assert(stands(out, place as int, head)) by {
        assert(out.subrange(place as int, (place + head.len()) as int) =~= head);
    }
    assert(stands(out, at as int, seg)) by {
        assert(out.subrange(at as int, (at + seg.len()) as int) =~= seg);
    }
    lemma_keeps(data, base, out, s.len(), place as int, head);
    lemma_keeps(data, base, out, s.len(), at as int, seg);
    let pos = base + heap;
    assert(heap == place);
    let r = rest_at(data, pos);
    lemma_stands(data, pos, head);
    assert(r.take(32) == head);
    assert(r.take(4) =~= head.take(4));
    assert(head.take(4) =~= seq![72u8, 69u8, 65u8, 80u8]);
    let b = r.skip(4).take(28);
    assert(b =~= head.skip(4));
    lemma_pow256();
    law_le_round_trip(seg.len(), 8);
    law_le_round_trip(end_of(s) as nat, 8);
    assert(b.subrange(4, 12) =~= le_bytes(seg.len(), 8));
    assert(b.subrange(20, 28) =~= le_bytes(end_of(s) as nat, 8));
}

// Symbol nodes.

/// The member that a link is read as.
pub open spec fn member_of(l: LinkView, r: Ref) -> MemberLink {
    MemberLink {
        name: l.name,
        target: match l.target {
            TargetView::Soft(path) => RawTargetView::Soft(path),
            _ => RawTargetView::Hard(r.oh_addr),
        },
        creation_order: None,
        utf8: false,
    }
}

/// The members that links are read as.
pub open spec fn members_of(links: Seq<LinkView>, refs: Seq<Ref>) -> Seq<MemberLink> {
    Seq::new(links.len(), |i: int| member_of(links[i], refs[i]))
}

/// Whether links can be told by their entries: names and paths hold no zero bytes, and
/// no link is an external one.
pub open spec fn table_plain(links: Seq<LinkView>, refs: Seq<Ref>) -> bool {
    &&& refs.len() >= links.len()
    &&& forall|i: int|
        0 <= i < links.len() ==> plain_name((#[trigger] links[i]).name) && refs[i].cache_type < 2
            && match links[i].target {
            TargetView::Soft(path) => plain_name(path),
            TargetView::Hard(_) => true,
            TargetView::External { .. } => false,
        }
}

/// Whether an entry of a symbol table stands for a link, with its texts in a heap.
pub open spec fn entry_names(data: Seq<u8>, e: SymbolEntry, l: LinkView, r: Ref) -> bool {
    &&& text_stands(data, e.name_off as nat, l.name)
    &&& match l.target {
        TargetView::Soft(path) => e.cache_type == 2 && e.first < 0x1_0000_0000 && text_stands(
            data,
            e.first as nat,
            path,
        ),
        _ => e == hard_entry(e.name_off, r),
    }
}

/// A link that was entered stands in the table.
proof fn lemma_link_entered(t: TableView, l: LinkView, r: Ref)
    requires
        texts_stand(t.texts),
        link_entered(t, l, r).texts.data.len() < 0x1_0000_0000,
    ensures
        texts_stand(link_entered(t, l, r).texts),
        extends(link_entered(t, l, r).texts.data, t.texts.data),
        link_entered(t, l, r).entries.len() == t.entries.len() + 1,
        link_entered(t, l, r).entries.drop_last() == t.entries,
        entry_names(
            link_entered(t, l, r).texts.data,
            link_entered(t, l, r).entries.last(),
            l,
            r,
        ),
{
    let (texts, name_off) = text_added(t.texts, l.name);
    let g = link_entered(t, l, r);
    assert(g.entries.drop_last() =~= t.entries);
    match l.target {
        TargetView::Soft(path) => {
            let (more, value_off) = text_added(texts, path);
            assert(g.texts == more);
            assert(more.data.len() >= texts.data.len());
            lemma_text_added(t.texts, l.name);
            lemma_text_added(texts, path);
            lemma_text_kept(texts.data, more.data, name_off as nat, l.name);
            lemma_extends(t.texts.data, texts.data, more.data);
            assert(value_off < 0x1_0000_0000);
            assert(g.entries.last() == soft_entry(name_off, value_off));
        },
        _ => {
            lemma_text_added(t.texts, l.name);
            assert(g.entries.last() == hard_entry(name_off, r));
        },
    }
}

/// The entries of a symbol table stand for its links.
proof fn lemma_entered(links: Seq<LinkView>, refs: Seq<Ref>)
    requires
        links_entered(links, refs).texts.data.len() < 0x1_0000_0000,
    ensures
        texts_stand(links_entered(links, refs).texts),
        links_entered(links, refs).entries.len() == links.len(),
        forall|i: int|
            0 <= i < links.len() ==> entry_names(
                links_entered(links, refs).texts.data,
                #[trigger] links_entered(links, refs).entries[i],
                links[i],
                refs[i],
            ),
    decreases links.len(),
{
    if links.len() > 0 {
        let t = links_entered(links, refs);
        let init = links.drop_last();
        let before = links_entered(init, refs);
        let l = links.last();
        let r = refs[links.len() - 1];
        assert(before.texts.data.len() <= t.texts.data.len()) by {
            lemma_grows(before, l, r);
        }
        lemma_entered(init, refs);
        lemma_link_entered(before, l, r);
        assert forall|i: int| 0 <= i < links.len() implies entry_names(
            t.texts.data,
            #[trigger] t.entries[i],
            links[i],
            refs[i],
        ) by {
            if i < links.len() - 1 {
                let e = before.entries[i];
                assert(t.entries.drop_last()[i] == t.entries[i]);
                assert(init[i] == links[i]);
                assert(entry_names(before.texts.data, e, init[i], refs[i]));
                lemma_text_kept(before.texts.data, t.texts.data, e.name_off as nat, links[i].name);
                match links[i].target {
                    TargetView::Soft(path) => {
                        lemma_text_kept(before.texts.data, t.texts.data, e.first as nat, path);
                    },
                    _ => {},
                }
            }
        }
    }
}

proof fn lemma_grows(t: TableView, l: LinkView, r: Ref)
    ensures
        t.texts.data.len() <= link_entered(t, l, r).texts.data.len(),
{
    let (texts, name_off) = text_added(t.texts, l.name);
    match l.target {
        TargetView::Soft(path) => {
            assert(link_entered(t, l, r).texts == text_added(texts, path).0);
        },
        _ => {},
    }
}

proof fn lemma_le_front(v: nat, n: nat, k: nat)
    requires
        k <= n,
    ensures
        le_bytes(v, n).take(k as int) == le_bytes(v, k),
    decreases k,
{
    lemma_le_bytes_len(v, n);
    lemma_le_bytes_len(v, k);
    if k > 0 {
        lemma_le_front(v / 256, (n - 1) as nat, (k - 1) as nat);
        let a = le_bytes(v / 256, (n - 1) as nat);
        lemma_le_bytes_len(v / 256, (n - 1) as nat);
        assert((seq![(v % 256) as u8] + a).take(k as int) =~= seq![(v % 256) as u8] + a.take(
            k - 1,
        ));
    } else {
        assert(le_bytes(v, n).take(0) =~= Seq::empty());
    }
}

/// An entry is read as the link that it stands for.
proof fn lemma_symbol(heap: Seq<u8>, e: SymbolEntry, l: LinkView, r: Ref)
    requires
        entry_names(heap, e, l, r),
        plain_name(l.name),
        r.cache_type < 2,
        match l.target {
            TargetView::Soft(path) => plain_name(path),
            TargetView::Hard(_) => true,
            TargetView::External { .. } => false,
        },
    ensures
        entry_message(e).len() == 40,
        symbol(heap, entry_message(e)) == Ok::<MemberLink, Seq<char>>(member_of(l, r)),
{
    let m = entry_message(e);
    lemma_pow256();
    lemma_le_bytes_len(e.name_off as nat, 8);
    lemma_le_bytes_len(e.oh_addr as nat, 8);
    lemma_le_bytes_len(e.cache_type as nat, 4);
    lemma_le_bytes_len(e.first as nat, 8);
    lemma_le_bytes_len(e.second as nat, 8);
    assert(m.subrange(0, 8) =~= le_bytes(e.name_off as nat, 8));
    assert(m.subrange(8, 16) =~= le_bytes(e.oh_addr as nat, 8));
    assert(m.subrange(16, 20) =~= le_bytes(e.cache_type as nat, 4));
    assert(m.subrange(24, 28) =~= le_bytes(e.first as nat, 8).take(4));
    lemma_le_front(e.first as nat, 8, 4);
    law_le_round_trip(e.name_off as nat, 8);
    law_le_round_trip(e.oh_addr as nat, 8);
    law_le_round_trip(e.cache_type as nat, 4);
    lemma_heap_text(heap, e.name_off as nat, l.name);
    match l.target {
        TargetView::Soft(path) => {
            law_le_round_trip(e.first as nat, 4);
            lemma_heap_text(heap, e.first as nat, path);
        },
        _ => {},
    }
}

proof fn lemma_entry_front(es: Seq<SymbolEntry>)
    requires
        es.len() > 0,
    ensures
        entry_messages(es) == entry_message(es[0]) + entry_messages(es.skip(1)),
    decreases es.len(),
{
    if es.len() > 1 {
        lemma_entry_front(es.drop_last());
        assert(es.drop_last().skip(1) =~= es.skip(1).drop_last());
        assert(es.skip(1).last() == es.last());
        assert(entry_messages(es) =~= entry_message(es[0]) + entry_messages(es.skip(1)));
    } else {
        assert(es.drop_last() =~= Seq::empty());
        assert(es.skip(1) =~= Seq::empty());
        assert(entry_messages(es) =~= entry_message(es[0]) + entry_messages(es.skip(1)));
    }
}

/// Whether entries are read as members.
pub open spec fn entries_name(heap: Seq<u8>, es: Seq<SymbolEntry>, ms: Seq<MemberLink>) -> bool {
    &&& es.len() == ms.len()
    &&& forall|i: int|
        0 <= i < es.len() ==> entry_message(#[trigger] es[i]).len() == 40 && symbol(
            heap,
            entry_message(es[i]),
        ) == Ok::<MemberLink, Seq<char>>(ms[i])
}

/// The entries of a symbol node are read.
proof fn lemma_symbols(
    data: Seq<u8>,
    pos: int,
    heap: Seq<u8>,
    es: Seq<SymbolEntry>,
    ms: Seq<MemberLink>,
    acc: Seq<MemberLink>,
)
    requires
        stands(data, pos, entry_messages(es)),
        entries_name(heap, es, ms),
    ensures
        symbols_taken(heap, data.skip(pos), es.len(), acc) == Ok::<Seq<MemberLink>, Seq<char>>(
            acc + ms,
        ),
    decreases es.len(),
{
    if es.len() == 0 {
        assert(acc + ms =~= acc);
    } else {
        let e = entry_message(es[0]);
        let more = es.skip(1);
        lemma_entry_front(es);
        lemma_stands_both(data, pos, e, entry_messages(more));
        let s = data.skip(pos);
        assert(e.len() == 40 && symbol(heap, e) == Ok::<MemberLink, Seq<char>>(ms[0]));
        assert(s.take(40) =~= data.subrange(pos, pos + 40));
        assert(s.skip(40) =~= data.skip(pos + 40));
        assert(entries_name(heap, more, ms.skip(1))) by {
            assert forall|i: int| 0 <= i < more.len() implies entry_message(
                #[trigger] more[i],
            ).len() == 40 && symbol(heap, entry_message(more[i])) == Ok::<MemberLink, Seq<char>>(
                ms.skip(1)[i],
            ) by {
                assert(more[i] == es[i + 1]);
            }
        }
        lemma_symbols(data, pos + 40, heap, more, ms.skip(1), acc.push(ms[0]));
        assert(acc.push(ms[0]) + ms.skip(1) =~= acc + ms);
    }
}

/// A symbol node is read.
proof fn lemma_symbol_node(
    data: Seq<u8>,
    base: u64,
    heap: Seq<u8>,
    addr: u64,
    es: Seq<SymbolEntry>,
    ms: Seq<MemberLink>,
    acc: Seq<MemberLink>,
)
    requires
        stands(data, base + addr, symbol_node(es)),
        entries_name(heap, es, ms),
        es.len() < 0x1_0000,
    ensures
        node_symbols(data, base, heap, addr, acc) == Ok::<Seq<MemberLink>, Seq<char>>(acc + ms),
{
    let pos = base + addr;
    let head = seq![83u8, 78u8, 79u8, 68u8, 1u8, 0u8] + le_bytes(es.len(), 2);
    let m = head + entry_messages(es);
    lemma_le_bytes_len(es.len(), 2);
    let all = symbol_node(es);
    let tail = if m.len() < 328 {
        zeroes((328 - m.len()) as nat)
    } else {
        Seq::empty()
    };
    assert(all =~= m + tail);
    lemma_stands_both(data, pos, m, tail);
    lemma_stands_both(data, pos, head, entry_messages(es));
    lemma_stands(data, pos, head);
    let r = rest_at(data, pos);
    assert(r == data.skip(pos));
    assert(r.take(8) == head);
    assert(r.take(4) =~= head.take(4));
    assert(head.take(4) =~= seq![83u8, 78u8, 79u8, 68u8]);
    let h = r.skip(4).take(4);
    assert(h =~= head.skip(4));
    lemma_pow256();
    law_le_round_trip(es.len(), 2);
    assert(h.subrange(2, 4) =~= le_bytes(es.len(), 2));
    assert(r.skip(4).skip(4) =~= data.skip(pos + 8));
    lemma_symbols(data, pos + 8, heap, es, ms, acc);
}

// Tables.

/// What stands in an image stands in one that continues it.
proof fn lemma_stands_on(s: Seq<u8>, more: Seq<u8>, at: int, b: Seq<u8>)
    requires
        stands(s, at, b),
        extends(more, s),
    ensures
        stands(more, at, b),
{
    assert(more.subrange(at, at + b.len()) =~= more.take(s.len() as int).subrange(
        at,
        at + b.len(),
    ));
}

/// Symbol nodes stand behind the image before them.
pub(crate) proof fn lemma_nodes_extend(s: Seq<u8>, es: Seq<SymbolEntry>, n: nat)
    ensures
        extends(nodes_written(s, es, n).0, s),
    decreases n,
{
    let out = nodes_written(s, es, n).0;
    if n == 0 {
        assert(out.take(s.len() as int) =~= s);
    } else {
        let m = (n - 1) as nat;
        let s1 = nodes_written(s, es, m).0;
        lemma_nodes_extend(s, es, m);
        crate::format::tree::lemma_appended(s1, symbol_node(node_entries(es, m)));
        lemma_extends(s, s1, out);
    }
}

/// Symbol nodes stand where they were written.
proof fn lemma_nodes_written(s: Seq<u8>, es: Seq<SymbolEntry>, n: nat)
    requires
        nodes_written(s, es, n).0.len() < u64::MAX,
        s.len() >= 96,
    ensures
        extends(nodes_written(s, es, n).0, s),
        nodes_written(s, es, n).1.len() == n,
        keys_fit(group_shape(), nodes_written(s, es, n).1),
        forall|i: int|
            0 <= i < n ==> (#[trigger] nodes_written(s, es, n).1[i]).addr >= s.len() && stands(
                nodes_written(s, es, n).0,
                nodes_written(s, es, n).1[i].addr as int,
                symbol_node(node_entries(es, i as nat)),
            ),
    decreases n,
{
    let (out, cs) = nodes_written(s, es, n);
    if n == 0 {
        assert(out.take(s.len() as int) =~= s);
    } else {
        let m = (n - 1) as nat;
        let (s1, before) = nodes_written(s, es, m);
        let node = symbol_node(node_entries(es, m));
        crate::format::tree::lemma_appended(s1, node);
        crate::format::object_laws::lemma_appended_stands(s1, node);
        lemma_nodes_written(s, es, m);
        lemma_extends(s, s1, out);
        let c = cs.last();
        assert(cs == before.push(c));
        lemma_name_key(es, m);
        lemma_name_key(es, n);
        assert forall|i: int| 0 <= i < n implies (#[trigger] cs[i]).addr >= s.len() && stands(
            out,
            cs[i].addr as int,
            symbol_node(node_entries(es, i as nat)),
        ) by {
            if i < m {
                assert(cs[i] == before[i]);
                lemma_stands_on(s1, out, before[i].addr as int, symbol_node(node_entries(es, i as nat)));
            }
        }
        assert forall|i: int| 0 <= i < cs.len() implies (#[trigger] cs[i]).first.len() == 8
            && cs[i].last.len() == 8 by {
            if i < m {
                assert(cs[i] == before[i]);
            }
        }
    }
}

proof fn lemma_name_key(es: Seq<SymbolEntry>, i: nat)
    ensures
        name_key(es, i).len() == 8,
{
    let v = (if i == 0 {
        0
    } else if 8 * i <= es.len() {
        es[8 * i - 1].name_off
    } else {
        es.last().name_off
    }) as nat;
    lemma_le_bytes_len(v, 8);
}

/// The symbol nodes of a table are read one after the other.
proof fn lemma_all_symbols(
    data: Seq<u8>,
    base: u64,
    heap: Seq<u8>,
    nodes: Seq<u64>,
    i: nat,
    es: Seq<SymbolEntry>,
    ms: Seq<MemberLink>,
)
    requires
        entries_name(heap, es, ms),
        nodes.len() == node_total(es.len()),
        i <= nodes.len(),
        forall|k: int|
            0 <= k < nodes.len() ==> stands(
                data,
                base + #[trigger] nodes[k],
                symbol_node(node_entries(es, k as nat)),
            ),
    ensures
        nodes_symbols(
            data,
            base,
            heap,
            nodes,
            i as int,
            ms.take(
                if 8 * i < ms.len() {
                    8 * i as int
                } else {
                    ms.len() as int
                },
            ),
        ) == Ok::<Seq<MemberLink>, Seq<char>>(ms),
    decreases nodes.len() - i,
{
    let from = if 8 * i < ms.len() {
        8 * i as int
    } else {
        ms.len() as int
    };
    if i < nodes.len() {
        let part = node_entries(es, i);
        let to = if 8 * i + 8 < ms.len() {
            8 * i as int + 8
        } else {
            ms.len() as int
        };
        assert(from == 8 * i);
        let some = ms.subrange(from, to);
        assert(entries_name(heap, part, some)) by {
            assert forall|k: int| 0 <= k < part.len() implies entry_message(
                #[trigger] part[k],
            ).len() == 40 && symbol(heap, entry_message(part[k])) == Ok::<MemberLink, Seq<char>>(
                some[k],
            ) by {
                assert(part[k] == es[from + k]);
            }
        }
        lemma_symbol_node(data, base, heap, nodes[i as int], part, some, ms.take(from));
        assert(ms.take(from) + some =~= ms.take(to));
        lemma_all_symbols(data, base, heap, nodes, i + 1, es, ms);
    } else {
        assert(ms.take(from) =~= ms);
    }
}

/// The entries of a symbol table are read as its links.
proof fn lemma_table_named(links: Seq<LinkView>, refs: Seq<Ref>)
    requires
        table_plain(links, refs),
        links_entered(links, refs).texts.data.len() < 0x1_0000_0000,
    ensures
        entries_name(
            heap_segment(links_entered(links, refs).texts.data),
            links_entered(links, refs).entries,
            members_of(links, refs),
        ),
{
    let t = links_entered(links, refs);
    let es = t.entries;
    let ms = members_of(links, refs);
    let seg = heap_segment(t.texts.data);
    lemma_entered(links, refs);
    assert(seg.take(t.texts.data.len() as int) =~= t.texts.data);
    assert forall|i: int| 0 <= i < es.len() implies entry_message(#[trigger] es[i]).len() == 40
        && symbol(seg, entry_message(es[i])) == Ok::<MemberLink, Seq<char>>(ms[i]) by {
        let e = es[i];
        let l = links[i];
        assert(entry_names(t.texts.data, e, l, refs[i]));
        lemma_text_kept(t.texts.data, seg, e.name_off as nat, l.name);
        match l.target {
            TargetView::Soft(path) => {
                lemma_text_kept(t.texts.data, seg, e.first as nat, path);
            },
            _ => {},
        }
        lemma_symbol(seg, e, l, refs[i]);
    }
}

/// The nodes of a symbol table are found through its tree.
proof fn lemma_table_nodes(
    data: Seq<u8>,
    base: u64,
    s: Seq<u8>,
    es: Seq<SymbolEntry>,
    k: nat,
    out: Seq<u8>,
    tree: u64,
)
    requires
        tree_written(nodes_written(s, es, k).0, group_shape(), 0, nodes_written(s, es, k).1)
            == Ok::<(Seq<u8>, u64), Seq<char>>((out, tree)),
        keeps(data, base, out, s.len()),
        s.len() >= 96,
        out.len() < u64::MAX,
    ensures
        extends(out, s),
        tree_leaves(data, base, tree, data.len(), Seq::empty()) matches Ok(nodes) && nodes.len()
            == k && forall|i: int|
            0 <= i < k ==> stands(
                data,
                base + #[trigger] nodes[i],
                symbol_node(node_entries(es, i as nat)),
            ),
{
    let (s2, cs) = nodes_written(s, es, k);
    lemma_tree_extends(s2, group_shape(), 0, cs);
    lemma_keeps_less(data, base, out, s2, s.len());
    lemma_nodes_written(s, es, k);
    lemma_extends(s, s2, out);
    let nodes = Seq::new(k, |i: int| cs[i].addr);
    let lists = singles(nodes);
    assert(children_lead(data, base, 0, cs, lists)) by {
        assert forall|i: int| 0 <= i < cs.len() implies child_leads(
            data,
            base,
            0,
            #[trigger] cs[i],
            lists[i],
        ) by {
            assert(lists[i] =~= seq![cs[i].addr]);
        }
    }
    lemma_singles(nodes);
    if cs.len() > 0 {
        lemma_room(s2, group_shape(), 0, cs, out);
    }
    lemma_pow64();
    law_group_tree_read(data, base, s2, 0, cs, lists, out, tree, data.len());
    assert forall|i: int| 0 <= i < k implies stands(
        data,
        base + #[trigger] nodes[i],
        symbol_node(node_entries(es, i as nat)),
    ) by {
        assert(nodes[i] == cs[i].addr);
        lemma_keeps(
            data,
            base,
            s2,
            s.len(),
            cs[i].addr as int,
            symbol_node(node_entries(es, i as nat)),
        );
    }
}

/// A symbol table is read as it is written, from any file that holds the image: its
/// links come back in their order, each with its name and where it leads.
pub proof fn law_table_read(
    data: Seq<u8>,
    base: u64,
    s: Seq<u8>,
    links: Seq<LinkView>,
    refs: Seq<Ref>,
    out: Seq<u8>,
    tree: u64,
    heap: u64,
)
    requires
        table_written(s, links, refs) == Ok::<(Seq<u8>, u64, u64), Seq<char>>((out, tree, heap)),
        keeps(data, base, out, s.len()),
        s.len() >= 96,
        out.len() < u64::MAX,
        table_plain(links, refs),
        links_entered(links, refs).texts.data.len() < 0x1_0000_0000,
    ensures
        table_symbols(data, base, tree, heap) == Ok::<Seq<MemberLink>, Seq<char>>(
            members_of(links, refs),
        ),
{
    let t = links_entered(links, refs);
    let s1 = heap_written(s, t.texts.data).0;
    lemma_table_parts(s, links, refs, out, tree, heap, t, s1);
    lemma_table_named(links, refs);
    lemma_entries_read(data, base, s, s1, t, members_of(links, refs), out, tree, heap);
}

pub(crate) proof fn lemma_table_parts(
    s: Seq<u8>,
    links: Seq<LinkView>,
    refs: Seq<Ref>,
    out: Seq<u8>,
    tree: u64,
    heap: u64,
    t: TableView,
    s1: Seq<u8>,
)
    requires
        table_written(s, links, refs) == Ok::<(Seq<u8>, u64, u64), Seq<char>>((out, tree, heap)),
        t == links_entered(links, refs),
        s1 == heap_written(s, t.texts.data).0,
    ensures
        heap_written(s, t.texts.data).1 == heap,
        ({
            let x = nodes_written(s1, t.entries, node_total(t.entries.len()));
            let r = tree_written(x.0, group_shape(), 0, x.1);
            r is Ok && r->Ok_0.0 == out && r->Ok_0.1 == tree
        }),
{
    reveal(table_written);
}

/// A heap and the nodes of its entries are read.
proof fn lemma_entries_read(
    data: Seq<u8>,
    base: u64,
    s: Seq<u8>,
    s1: Seq<u8>,
    t: TableView,
    ms: Seq<MemberLink>,
    out: Seq<u8>,
    tree: u64,
    heap: u64,
)
    requires
        heap_written(s, t.texts.data).0 == s1,
        heap_written(s, t.texts.data).1 == heap,
        ({
            let x = nodes_written(s1, t.entries, node_total(t.entries.len()));
            let r = tree_written(x.0, group_shape(), 0, x.1);
            r is Ok && r->Ok_0.0 == out && r->Ok_0.1 == tree
        }),
        entries_name(heap_segment(t.texts.data), t.entries, ms),
        keeps(data, base, out, s.len()),
        s.len() >= 96,
        out.len() < u64::MAX,
    ensures
        table_symbols(data, base, tree, heap) == Ok::<Seq<MemberLink>, Seq<char>>(ms),
{
    let k = node_total(t.entries.len());
    let seg = heap_segment(t.texts.data);
    lemma_heap_extends(s, t.texts.data);
    lemma_table_nodes(data, base, s1, t.entries, k, out, tree);
    lemma_keeps_less(data, base, out, s1, s.len());
    law_local_heap_read(data, base, s, t.texts.data, s1, heap);
    let nodes = tree_leaves(data, base, tree, data.len(), Seq::empty())->Ok_0;
    lemma_all_symbols(data, base, seg, nodes, 0, t.entries, ms);
    assert(ms.take(0) =~= Seq::empty());
}

pub(crate) proof fn lemma_heap_extends(s: Seq<u8>, texts: Seq<u8>)
    ensures
        extends(heap_written(s, texts).0, s),
{
    let seg = heap_segment(texts);
    let head = heap_header(texts, end_of(s));
    crate::format::tree::lemma_appended(s, seg);
    crate::format::tree::lemma_appended(appended(s, seg), head);
    lemma_extends(s, appended(s, seg), appended(appended(s, seg), head));
}

} // verus!
