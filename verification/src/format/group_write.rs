//! Writing of groups: symbol tables, or links in messages or in dense storage.

use vstd::prelude::*;
use vstd::utf8::encode_utf8;

use crate::error::Error;
use crate::format::attr_write::{
    bare, by_hash, lemma_by_hash_sized, records_sized, HashList,
};
use crate::format::checksum::{checksum, lookup3};
use crate::format::dense::{
    heap_written, leaf_written, same_size, views_of, write_fractal_heap, write_v2btree_leaf,
};
use crate::format::encode::{encode_link_message, link_message};
use crate::format::tree::{
    appended, child_views, end_of, extends, lemma_appended, lemma_extends, no_texts, symbol_node,
    text_added, tree_written, write_btree, write_local_heap, write_snod, Child, ChildView,
    HeapBuilder, HeapTexts, SymbolEntry, TreeForm, TreeShape,
};
use crate::format::{le_bytes, lemma_le_bytes_len, push_le, zeroes, Buf, UNDEF};
use crate::model::{link_views, Link, LinkTarget, LinkView, TargetView};

verus! {

/// Where an object was written: its header, and the tree and the heap of a symbol table.
#[derive(Clone, Copy)]
pub struct Ref {
    pub oh_addr: u64,
    pub cache_type: u32,
    pub btree: u64,
    pub heap: u64,
}

/// An object without a symbol table.
pub open spec fn bare_ref(addr: u64) -> Ref {
    Ref { oh_addr: addr, cache_type: 0, btree: UNDEF, heap: UNDEF }
}

// Order of names.

/// Whether bytes come before other ones.
pub open spec fn bytes_before(a: Seq<u8>, b: Seq<u8>) -> bool
    decreases b.len(),
{
    if b.len() == 0 {
        false
    } else if a.len() == 0 {
        true
    } else if a[0] != b[0] {
        a[0] < b[0]
    } else {
        bytes_before(a.skip(1), b.skip(1))
    }
}

/// Whether bytes come before other ones.
pub fn comes_before(a: &[u8], b: &[u8]) -> (r: bool)
    ensures
        r == bytes_before(a@, b@),
{
    let mut i: usize = 0;
    assert(a@.skip(0) =~= a@);
    assert(b@.skip(0) =~= b@);
    while i < a.len() && i < b.len()
        invariant
            i <= a@.len(),
            i <= b@.len(),
            bytes_before(a@, b@) == bytes_before(a@.skip(i as int), b@.skip(i as int)),
        decreases b@.len() - i,
    {
        if a[i] != b[i] {
            return a[i] < b[i];
        }
        proof {
            assert(a@.skip(i as int).skip(1) =~= a@.skip(i + 1));
            assert(b@.skip(i as int).skip(1) =~= b@.skip(i + 1));
        }
        i += 1;
    }
    i < b.len()
}

/// The place of a name in a list: behind the names that it does not come before.
pub open spec fn name_place(list: Seq<LinkView>, name: Seq<char>) -> nat
    decreases list.len(),
{
    if list.len() == 0 || !bytes_before(encode_utf8(name), encode_utf8(list.last().name)) {
        list.len()
    } else {
        name_place(list.drop_last(), name)
    }
}

/// Links in the order of their names.
pub open spec fn by_name(list: Seq<LinkView>) -> Seq<LinkView>
    decreases list.len(),
{
    if list.len() == 0 {
        list
    } else {
        let before = by_name(list.drop_last());
        before.insert(name_place(before, list.last().name) as int, list.last())
    }
}

/// The links with some numbers.
pub open spec fn picked(links: Seq<LinkView>, order: Seq<usize>) -> Seq<LinkView> {
    Seq::new(order.len(), |i: int| links[order[i] as int])
}

/// Whether all numbers are those of links.
pub open spec fn numbers_fit(order: Seq<usize>, n: nat) -> bool {
    forall|i: int| 0 <= i < order.len() ==> (#[trigger] order[i]) < n
}

fn place_name(links: &Vec<Link>, order: &mut Vec<usize>, new: usize)
    requires
        numbers_fit(old(order)@, links@.len()),
        new < links@.len(),
    ensures
        numbers_fit(final(order)@, links@.len()),
        final(order)@.len() == old(order)@.len() + 1,
        ({
            let list = picked(link_views(links@), old(order)@);
            let l = link_views(links@)[new as int];
            picked(link_views(links@), final(order)@) == list.insert(
                name_place(list, l.name) as int,
                l,
            )
        }),
{
    let ghost views = link_views(links@);
    let ghost list = picked(views, order@);
    let ghost l = views[new as int];
    let name = links[new].name.as_str().as_bytes();
    let mut i: usize = order.len();
    assert(list.take(i as int) =~= list);
    let mut go: bool = true;
    while go && i > 0
        invariant
            i <= order@.len(),
            *order == *old(order),
            numbers_fit(order@, links@.len()),
            views == link_views(links@),
            list == picked(views, order@),
            l == views[new as int],
            new < links@.len(),
            name@ == encode_utf8(l.name),
            name_place(list, l.name) == name_place(list.take(i as int), l.name),
            !go ==> name_place(list, l.name) == i,
        decreases i + (if go {
                1int
            } else {
                0
            }),
    {
        let ghost upto = list.take(i as int);
        proof {
            assert(upto.drop_last() =~= list.take(i - 1));
            assert(upto.last() == views[order@[i - 1] as int]);
        }
        if comes_before(name, links[order[i - 1]].name.as_str().as_bytes()) {
            i -= 1;
        } else {
            go = false;
        }
    }
    assert(name_place(list, l.name) == i);
    order.insert(i, new);
    assert(picked(views, order@) =~= list.insert(i as int, l));
    assert forall|k: int| 0 <= k < order@.len() implies (#[trigger] order@[k]) < links@.len() by {
        if k < i {
            assert(order@[k] == old(order)@[k]);
        } else if k > i {
            assert(order@[k] == old(order)@[k - 1]);
        }
    }
}

/// The numbers of links in the order of their names.
pub fn order_by_name(links: &Vec<Link>) -> (r: Vec<usize>)
    ensures
        numbers_fit(r@, links@.len()),
        r@.len() == links@.len(),
        picked(link_views(links@), r@) == by_name(link_views(links@)),
{
    let ghost views = link_views(links@);
    let mut order: Vec<usize> = Vec::new();
    let mut i: usize = 0;
    assert(picked(views, order@) =~= by_name(views.take(0)));
    while i < links.len()
        invariant
            i <= links@.len(),
            views == link_views(links@),
            numbers_fit(order@, links@.len()),
            order@.len() == i,
            picked(views, order@) == by_name(views.take(i as int)),
        decreases links@.len() - i,
    {
        place_name(links, &mut order, i);
        proof {
            assert(views.take(i + 1).drop_last() =~= views.take(i as int));
            assert(views.take(i + 1).last() == views[i as int]);
        }
        i += 1;
    }
    assert(views.take(views.len() as int) =~= views);
    order
}

proof fn lemma_name_place(list: Seq<LinkView>, name: Seq<char>)
    ensures
        name_place(list, name) <= list.len(),
    decreases list.len(),
{
    if list.len() > 0 {
        lemma_name_place(list.drop_last(), name);
    }
}

/// Ordering links by their names keeps them: each link is in the ordered list as often
/// as it was.
pub proof fn law_by_name_keeps(list: Seq<LinkView>)
    ensures
        by_name(list).len() == list.len(),
        by_name(list).to_multiset() == list.to_multiset(),
    decreases list.len(),
{
    broadcast use vstd::seq_lib::group_to_multiset_ensures;

    if list.len() > 0 {
        law_by_name_keeps(list.drop_last());
        let before = by_name(list.drop_last());
        lemma_name_place(before, list.last().name);
        let at = name_place(before, list.last().name) as int;
        vstd::seq_lib::to_multiset_insert(before, at, list.last());
        assert(list =~= list.drop_last().push(list.last()));
    }
}

// Symbol tables.

/// The entry of a link to a written object.
pub open spec fn hard_entry(name_off: u64, r: Ref) -> SymbolEntry {
    SymbolEntry {
        name_off,
        oh_addr: r.oh_addr,
        cache_type: r.cache_type,
        first: if r.cache_type == 1 {
            r.btree
        } else {
            0
        },
        second: if r.cache_type == 1 {
            r.heap
        } else {
            0
        },
    }
}

/// The entry of a link to a path.
pub open spec fn soft_entry(name_off: u64, value_off: u64) -> SymbolEntry {
    SymbolEntry {
        name_off,
        oh_addr: UNDEF,
        cache_type: 2,
        first: (value_off % 0x1_0000_0000) as u64,
        second: 0,
    }
}

/// The texts and the entries of a symbol table.
#[verifier::ext_equal]
pub struct TableView {
    pub texts: HeapTexts,
    pub entries: Seq<SymbolEntry>,
}

/// A symbol table with one more link, which leads to `r` if it is a hard one.
pub open spec fn link_entered(t: TableView, l: LinkView, r: Ref) -> TableView {
    let (texts, name_off) = text_added(t.texts, l.name);
    match l.target {
        TargetView::Soft(path) => {
            let (more, value_off) = text_added(texts, path);
            TableView { texts: more, entries: t.entries.push(soft_entry(name_off, value_off)) }
        },
        _ => TableView { texts, entries: t.entries.push(hard_entry(name_off, r)) },
    }
}

/// The symbol table of links that lead to `refs`.
pub open spec fn links_entered(links: Seq<LinkView>, refs: Seq<Ref>) -> TableView
    decreases links.len(),
{
    if links.len() == 0 {
        TableView { texts: no_texts(), entries: Seq::empty() }
    } else {
        link_entered(
            links_entered(links.drop_last(), refs),
            links.last(),
            refs[links.len() - 1],
        )
    }
}

/// The symbol table of links.
struct TableOut {
    heap: HeapBuilder,
    entries: Vec<SymbolEntry>,
}

impl TableOut {
    spec fn table(&self) -> TableView {
        TableView { texts: self.heap@, entries: self.entries@ }
    }

    fn enter(&mut self, l: &Link, r: Ref)
        ensures
            final(self).table() == link_entered(old(self).table(), l@, r),
    {
        let ghost before = self.table();
        let name_off: u64 = self.heap.insert(l.name.as_str());
        match &l.target {
            LinkTarget::Soft(path) => {
                let value_off: u64 = self.heap.insert(path.as_str());
                self.entries.push(
                    SymbolEntry {
                        name_off,
                        oh_addr: UNDEF,
                        cache_type: 2,
                        first: value_off % 0x1_0000_0000,
                        second: 0,
                    },
                );
            },
            _ => {
                let (first, second) = if r.cache_type == 1 {
                    (r.btree, r.heap)
                } else {
                    (0, 0)
                };
                self.entries.push(
                    SymbolEntry {
                        name_off,
                        oh_addr: r.oh_addr,
                        cache_type: r.cache_type,
                        first,
                        second,
                    },
                );
            },
        }
        assert(self.table() =~= link_entered(before, l@, r));
    }
}

fn enter_links(links: &Vec<Link>, order: &Vec<usize>, refs: &Vec<Ref>) -> (r: TableOut)
    requires
        numbers_fit(order@, links@.len()),
        refs@.len() == order@.len(),
    ensures
        r.table() == links_entered(picked(link_views(links@), order@), refs@),
{
    let ghost list = picked(link_views(links@), order@);
    let mut t = TableOut { heap: HeapBuilder::new(), entries: Vec::new() };
    let mut i: usize = 0;
    assert(list.take(0) =~= Seq::empty());
    assert(t.table() =~= links_entered(list.take(0), refs@));
    while i < order.len()
        invariant
            i <= order@.len() == refs@.len(),
            numbers_fit(order@, links@.len()),
            list == picked(link_views(links@), order@),
            t.table() == links_entered(list.take(i as int), refs@),
        decreases order@.len() - i,
    {
        proof {
            assert(order@[i as int] < links@.len());
            assert(list.take(i + 1).drop_last() =~= list.take(i as int));
            assert(list.take(i + 1).last() == links@[order@[i as int] as int]@);
        }
        t.enter(&links[order[i]], refs[i]);
        i += 1;
    }
    assert(list.take(list.len() as int) =~= list);
    t
}

/// The entries of the symbol node number `i`.
pub open spec fn node_entries(es: Seq<SymbolEntry>, i: nat) -> Seq<SymbolEntry> {
    es.subrange(
        8 * i as int,
        if 8 * i + 8 < es.len() {
            (8 * i + 8) as int
        } else {
            es.len() as int
        },
    )
}

/// The number of symbol nodes.
pub open spec fn node_total(n: nat) -> nat {
    (n + 7) / 8
}

/// The key before the symbol node number `i`: the place of the last name before it.
pub open spec fn name_key(es: Seq<SymbolEntry>, i: nat) -> Seq<u8> {
    le_bytes(
        (if i == 0 {
            0
        } else if 8 * i <= es.len() {
            es[8 * i - 1].name_off
        } else {
            es.last().name_off
        }) as nat,
        8,
    )
}

/// An image with the first `n` symbol nodes behind it, and the nodes as children of a
/// tree.
pub open spec fn nodes_written(s: Seq<u8>, es: Seq<SymbolEntry>, n: nat) -> (
    Seq<u8>,
    Seq<ChildView>,
)
    decreases n,
{
    if n == 0 {
        (s, Seq::empty())
    } else {
        let (s1, cs) = nodes_written(s, es, (n - 1) as nat);
        (
            appended(s1, symbol_node(node_entries(es, (n - 1) as nat))),
            cs.push(
                ChildView {
                    first: name_key(es, (n - 1) as nat),
                    addr: end_of(s1),
                    last: name_key(es, n),
                },
            ),
        )
    }
}

/// The shape of the tree of a group.
pub open spec fn group_shape() -> TreeShape {
    TreeShape { kind: 0, key: 8, cap: 32, empty: zeroes(8) }
}

fn key_bytes(v: u64) -> (r: Vec<u8>)
    ensures
        r@ == le_bytes(v as nat, 8),
{
    let mut out: Vec<u8> = Vec::new();
    push_le(&mut out, v, 8);
    assert(out@ =~= le_bytes(v as nat, 8));
    out
}

fn write_nodes(buf: &mut Vec<u8>, es: &Vec<SymbolEntry>) -> (r: Vec<Child>)
    ensures
        (final(buf)@, child_views(r@)) == nodes_written(old(buf)@, es@, node_total(es@.len())),
        extends(final(buf)@, old(buf)@),
{
    let ghost s = buf@;
    let len: usize = es.len();
    let n: usize = len / 8 + (if len % 8 == 0 {
        0usize
    } else {
        1usize
    });
    assert(n == node_total(es@.len()));
    let mut cs: Vec<Child> = Vec::new();
    let mut i: usize = 0;
    let mut key: u64 = 0;
    assert(child_views(cs@) =~= Seq::empty());
    assert(s.take(s.len() as int) =~= s);
    while i < n
        invariant
            i <= n == node_total(es@.len()),
            len == es@.len(),
            extends(buf@, s),
            le_bytes(key as nat, 8) == name_key(es@, i as nat),
            (buf@, child_views(cs@)) == nodes_written(s, es@, i as nat),
        decreases n - i,
    {
        let from: usize = 8 * i;
        let to: usize = if len - from > 8 {
            from + 8
        } else {
            len
        };
        let ghost was = buf@;
        let ghost before = child_views(cs@);
        let addr: u64 = write_snod(buf, es, from, to);
        let next: u64 = es[to - 1].name_off;
        let c = Child { first: key_bytes(key), addr, last: key_bytes(next) };
        proof {
            lemma_appended(was, symbol_node(node_entries(es@, i as nat)));
            lemma_extends(s, was, buf@);
            assert(es@.subrange(from as int, to as int) == node_entries(es@, i as nat));
            assert(name_key(es@, (i + 1) as nat) == le_bytes(next as nat, 8));
        }
        let ghost cv = c@;
        cs.push(c);
        assert(child_views(cs@) =~= before.push(cv));
        key = next;
        i += 1;
    }
    cs
}

/// An image with the symbol table of links behind it, and the addresses of its tree and
/// heap.
#[verifier::opaque]
pub open spec fn table_written(s: Seq<u8>, links: Seq<LinkView>, refs: Seq<Ref>) -> Result<
    (Seq<u8>, u64, u64),
    Seq<char>,
> {
    let t = links_entered(links, refs);
    let (s1, heap) = crate::format::tree::heap_written(s, t.texts.data);
    let (s2, cs) = nodes_written(s1, t.entries, node_total(t.entries.len()));
    match tree_written(s2, group_shape(), 0, cs) {
        Err(e) => Err(e),
        Ok((s3, tree)) => Ok((s3, tree, heap)),
    }
}

/// Writes the symbol table of links that lead to `refs`.
pub fn write_table(buf: &mut Vec<u8>, links: &Vec<Link>, order: &Vec<usize>, refs: &Vec<Ref>) -> (r:
    Result<(u64, u64), Error>)
    requires
        numbers_fit(order@, links@.len()),
        refs@.len() == order@.len(),
    ensures
        match (r, table_written(old(buf)@, picked(link_views(links@), order@), refs@)) {
            (Ok(x), Ok(y)) => final(buf)@ == y.0 && x.0 == y.1 && x.1 == y.2 && extends(
                final(buf)@,
                old(buf)@,
            ),
            (Err(e), Err(y)) => e@ == y,
            _ => false,
        },
{
    reveal(table_written);
    let t: TableOut = enter_links(links, order, refs);
    let ghost s = buf@;
    let heap: u64 = write_local_heap(buf, &t.heap);
    let ghost s1 = buf@;
    let cs: Vec<Child> = write_nodes(buf, &t.entries);
    let ghost s2 = buf@;
    let mut zero = Buf::new();
    zero.zeros(8);
    let form = TreeForm { kind: 0, key: 8, cap: 32, empty: zero.bytes };
    assert(form@ =~= group_shape());
    let tree: u64 = write_btree(buf, &form, &cs)?;
    proof {
        lemma_extends(s, s1, s2);
        lemma_extends(s, s2, buf@);
    }
    Ok((tree, heap))
}

// Links in messages or in dense storage.

/// Whether a group has an external link, which no symbol table can hold.
pub open spec fn has_external(links: Seq<LinkView>) -> bool {
    exists|i: int| 0 <= i < links.len() && (#[trigger] links[i]).target is External
}

/// Whether a group has an external link.
pub fn any_external(links: &Vec<Link>) -> (r: bool)
    ensures
        r == has_external(link_views(links@)),
{
    let ghost views = link_views(links@);
    let mut i: usize = 0;
    while i < links.len()
        invariant
            i <= links@.len(),
            views == link_views(links@),
            forall|k: int| 0 <= k < i ==> !((#[trigger] views[k]).target is External),
        decreases links@.len() - i,
    {
        assert(views[i as int] == links@[i as int]@);
        match &links[i].target {
            LinkTarget::External { .. } => {
                assert(views[i as int].target is External);
                return true;
            },
            _ => {},
        }
        i += 1;
    }
    false
}

/// The messages of links that lead to `refs`.
pub open spec fn link_bodies(links: Seq<LinkView>, refs: Seq<Ref>) -> Seq<Seq<u8>> {
    Seq::new(links.len(), |i: int| link_message(links[i], refs[i].oh_addr))
}

/// The messages of links that lead to `refs`.
pub fn encode_links(links: &Vec<Link>, order: &Vec<usize>, refs: &Vec<Ref>) -> (r: Vec<Vec<u8>>)
    requires
        numbers_fit(order@, links@.len()),
        refs@.len() == order@.len(),
    ensures
        views_of(r@) == link_bodies(picked(link_views(links@), order@), refs@),
        r@.len() == order@.len(),
{
    let ghost want = link_bodies(picked(link_views(links@), order@), refs@);
    let mut out: Vec<Vec<u8>> = Vec::new();
    let mut i: usize = 0;
    while i < order.len()
        invariant
            i <= order@.len() == refs@.len(),
            numbers_fit(order@, links@.len()),
            want == link_bodies(picked(link_views(links@), order@), refs@),
            out@.len() == i,
            forall|k: int| 0 <= k < i ==> (#[trigger] out@[k])@ == want[k],
        decreases order@.len() - i,
    {
        assert(order@[i as int] < links@.len());
        let body = match encode_link_message(&links[order[i]], Some(refs[i].oh_addr)) {
            Ok(b) => b,
            Err(_) => Vec::new(),
        };
        assert(body@ == want[i as int]);
        out.push(body);
        i += 1;
    }
    assert(views_of(out@) =~= want);
    out
}

/// The records of dense links with the hashes of their names.
pub open spec fn link_records(links: Seq<LinkView>, ids: Seq<Seq<u8>>) -> Seq<(u32, Seq<u8>)> {
    Seq::new(
        links.len(),
        |i: int|
            {
                let hash = lookup3(encode_utf8(links[i].name));
                (hash, le_bytes(hash as nat, 4) + ids[i])
            },
    )
}

/// An image with links in dense storage behind it, and the addresses of the heap and of
/// the tree over their names.
#[verifier::opaque]
pub open spec fn dense_links_written(s: Seq<u8>, links: Seq<LinkView>, refs: Seq<Ref>) -> Result<
    (Seq<u8>, u64, u64),
    Seq<char>,
> {
    match heap_written(s, link_bodies(links, refs), 7, 32) {
        Err(e) => Err(e),
        Ok((s1, heap, ids)) => {
            let (s2, tree) = leaf_written(s1, 5, 11, bare(by_hash(link_records(links, ids))));
            Ok((s2, heap, tree))
        },
    }
}

/// Writes links that lead to `refs` in dense storage.
pub fn write_dense_links(buf: &mut Vec<u8>, links: &Vec<Link>, order: &Vec<usize>, refs: &Vec<Ref>)
    -> (r: Result<(u64, u64), Error>)
    requires
        numbers_fit(order@, links@.len()),
        refs@.len() == order@.len(),
    ensures
        match (r, dense_links_written(old(buf)@, picked(link_views(links@), order@), refs@)) {
            (Ok(x), Ok(y)) => final(buf)@ == y.0 && x.0 == y.1 && x.1 == y.2 && extends(
                final(buf)@,
                old(buf)@,
            ),
            (Err(e), Err(y)) => e@ == y,
            _ => false,
        },
{
    let ghost s = buf@;
    let ghost list = picked(link_views(links@), order@);
    reveal(dense_links_written);
    let objects: Vec<Vec<u8>> = encode_links(links, order, refs);
    let (heap, ids) = write_fractal_heap(buf, &objects, 7, 32)?;
    let ghost s1 = buf@;
    let ghost id_list = views_of(ids@);
    let ghost want = link_records(list, id_list);
    let mut hashed = HashList::new();
    let mut i: usize = 0;
    assert(want.take(0) =~= Seq::empty());
    while i < order.len()
        invariant
            i <= order@.len() == ids@.len(),
            numbers_fit(order@, links@.len()),
            list == picked(link_views(links@), order@),
            id_list == views_of(ids@),
            same_size(id_list, 7),
            want == link_records(list, id_list),
            hashed.wf(),
            hashed@ == by_hash(want.take(i as int)),
            records_sized(want.take(i as int), 11),
        decreases order@.len() - i,
    {
        assert(order@[i as int] < links@.len());
        let hash: u32 = checksum(links[order[i]].name.as_str().as_bytes());
        let mut rec = Buf::new();
        rec.u32(hash);
        rec.raw(ids[i].as_slice());
        proof {
            assert(id_list[i as int] == ids@[i as int]@);
            lemma_le_bytes_len(hash as nat, 4);
            assert(list[i as int].name == links@[order@[i as int] as int].name@);
            assert(rec@ =~= want[i as int].1);
            assert(want.take(i + 1).drop_last() =~= want.take(i as int));
            assert(want.take(i + 1).last() == (hash, rec@));
            let next = want.take(i + 1);
            assert forall|k: int| 0 <= k < next.len() implies (#[trigger] next[k]).1.len()
                == 11 by {
                if k < i {
                    assert(next[k] == want.take(i as int)[k]);
                }
            }
        }
        hashed.insert(hash, rec.bytes);
        i += 1;
    }
    proof {
        assert(want.take(want.len() as int) =~= want);
        lemma_by_hash_sized(want, 11);
        assert(views_of(hashed.records@) =~= bare(hashed@));
    }
    let tree: u64 = write_v2btree_leaf(buf, 5, 11, &hashed.records);
    proof {
        lemma_extends(s, s1, buf@);
    }
    Ok((heap, tree))
}

} // verus!
