//! The members of groups: symbol tables, dense links and dense attributes.

use vstd::prelude::*;

use crate::error::{same_bytes, Error};
use crate::format::attribute::{attr_parsed, parse_attribute};
use crate::format::fheap::{
    float_as, given_views, heap_at, heap_item, heap_pending, part, FractalHeap, HeapFloat,
    HeapFloatView, HeapInfo,
};
use crate::format::gheap::{cursor_at, is_signature, rest_at, GlobalHeap};
use crate::format::messages::{c_text, cstr};
use crate::format::object::{
    link_parsed, parse_link_message, raw_link_views, RawLink, RawLinkView, RawTarget, RawTargetView,
};
use crate::format::v2::{btree_read, field, lemma_field_bound, read_v2btree, record_views};
use crate::format::{eof_text, le_at, taken_bytes, Cursor, UNDEF};
use crate::model::{attr_views, AttrData, AttrView};

verus! {

// Local heaps.

/// The data segment of the local heap at an address.
pub open spec fn local_heap(data: Seq<u8>, base: u64, addr: u64) -> Result<Seq<u8>, Seq<char>> {
    match taken_bytes(rest_at(data, base + addr), 4) {
        Err(e) => Err(e),
        Ok((sig, r)) => if sig != seq![72u8, 69u8, 65u8, 80u8] {
            Err("bad HEAP signature"@)
        } else {
            match taken_bytes(r, 28) {
                Err(e) => Err(e),
                Ok((b, rest)) => part(
                    data,
                    (base + le_at(b, 20, 8)) as int,
                    le_at(b, 4, 8) as int,
                    "local heap out of bounds"@,
                ),
            }
        },
    }
}

/// The text at an offset of a local heap.
pub open spec fn heap_text(heap: Seq<u8>, off: nat) -> Result<Seq<char>, Seq<char>> {
    if off >= heap.len() {
        Err("heap string offset out of bounds"@)
    } else {
        Ok(c_text(heap.skip(off as int)))
    }
}

/// Reads the data segment of a local heap.
pub fn parse_local_heap(data: &[u8], base: u64, addr: u64) -> (r: Result<Vec<u8>, Error>)
    ensures
        same_bytes(r, local_heap(data@, base, addr)),
{
    let mut c = cursor_at(data, base, addr);
    let sig = c.next_bytes(4)?;
    if !is_signature(sig, 72, 69, 65, 80) {
        return Err(Error::new("bad HEAP signature"));
    }
    let b = c.next_bytes(28)?;
    let size: u64 = field(b, 4, 8);
    let start: u128 = base as u128 + field(b, 20, 8) as u128;
    let n: usize = data.len();
    if start + size as u128 > n as u128 {
        return Err(Error::new("local heap out of bounds"));
    }
    let from: usize = start as usize;
    Ok(
        vstd::slice::slice_to_vec(
            vstd::slice::slice_subrange(data, from, from + size as usize),
        ),
    )
}

/// Reads the text at an offset of a local heap.
pub fn read_heap_string(heap: &[u8], offset: u64) -> (r: Result<String, Error>)
    ensures
        match (r, heap_text(heap@, offset as nat)) {
            (Ok(a), Ok(b)) => a@ == b,
            (Err(e), Err(m)) => e@ == m,
            _ => false,
        },
{
    let n: usize = heap.len();
    if offset >= n as u64 {
        return Err(Error::new("heap string offset out of bounds"));
    }
    let s = vstd::slice::slice_subrange(heap, offset as usize, n);
    assert(s@ =~= heap@.skip(offset as int));
    Ok(cstr(s))
}

// The B-tree of a symbol table.

/// The leaves of the B-tree node at an address, behind `acc`. The tree is at most
/// `depth` levels high.
pub open spec fn tree_leaves(data: Seq<u8>, base: u64, addr: u64, depth: nat, acc: Seq<u64>) -> Result<
    Seq<u64>,
    Seq<char>,
>
    decreases depth, 0nat,
{
    if addr == UNDEF {
        Ok(acc)
    } else if depth == 0 {
        Err("group B-tree nested too deeply"@)
    } else {
        match taken_bytes(rest_at(data, base + addr), 4) {
            Err(e) => Err(e),
            Ok((sig, r)) => if sig != seq![84u8, 82u8, 69u8, 69u8] {
                Err("bad TREE signature"@)
            } else if r.len() < 1 {
                Err(eof_text())
            } else if r[0] != 0 {
                Err("expected group B-tree node"@)
            } else {
                match taken_bytes(r, 28) {
                    Err(e) => Err(e),
                    Ok((h, rest)) => entries_walked(
                        data,
                        base,
                        rest,
                        h[1] == 0,
                        le_at(h, 2, 2),
                        (depth - 1) as nat,
                        acc,
                    ),
                }
            },
        }
    }
}

/// The same for the `n` entries of a node that start with `s`.
pub open spec fn entries_walked(
    data: Seq<u8>,
    base: u64,
    s: Seq<u8>,
    leaf: bool,
    n: nat,
    depth: nat,
    acc: Seq<u64>,
) -> Result<Seq<u64>, Seq<char>>
    decreases depth, n + 1,
{
    if n == 0 {
        Ok(acc)
    } else {
        match taken_bytes(s, 16) {
            Err(e) => Err(e),
            Ok((b, rest)) => {
                let child = le_at(b, 0, 8) as u64;
                if leaf {
                    entries_walked(
                        data,
                        base,
                        rest,
                        leaf,
                        (n - 1) as nat,
                        depth,
                        acc.push(child),
                    )
                } else {
                    match tree_leaves(data, base, child, depth, acc) {
                        Err(e) => Err(e),
                        Ok(v) => entries_walked(data, base, rest, leaf, (n - 1) as nat, depth, v),
                    }
                }
            },
        }
    }
}

fn walk_group_btree(data: &[u8], base: u64, addr: u64, depth: usize, acc: Vec<u64>) -> (r: Result<
    Vec<u64>,
    Error,
>)
    ensures
        match (r, tree_leaves(data@, base, addr, depth as nat, acc@)) {
            (Ok(a), Ok(b)) => a@ == b,
            (Err(e), Err(m)) => e@ == m,
            _ => false,
        },
    decreases depth,
{
    if addr == UNDEF {
        return Ok(acc);
    }
    if depth == 0 {
        return Err(Error::new("group B-tree nested too deeply"));
    }
    let mut c = cursor_at(data, base, addr);
    let sig = c.next_bytes(4)?;
    if !is_signature(sig, 84, 82, 69, 69) {
        return Err(Error::new("bad TREE signature"));
    }
    let ghost body = c.rest();
    let kind: u64 = {
        let mut k = Cursor::at(c.data, c.pos);
        assert(k.rest() =~= body);
        k.next_uint(1)?
    };
    proof {
        crate::format::v2::lemma_one_byte(body, 0);
        assert(body.skip(0) =~= body);
    }
    if kind != 0 {
        return Err(Error::new("expected group B-tree node"));
    }
    let h = c.next_bytes(28)?;
    let leaf: bool = h[1] == 0;
    proof {
        lemma_field_bound(h@, 2, 2);
    }
    let n: u64 = field(h, 2, 2);
    let mut out = acc;
    let mut i: u64 = 0;
    let ghost whole = tree_leaves(data@, base, addr, depth as nat, acc@);
    while i < n
        invariant
            i <= n,
            depth > 0,
            whole == tree_leaves(data@, base, addr, depth as nat, acc@),
            whole == entries_walked(
                data@,
                base,
                c.rest(),
                leaf,
                (n - i) as nat,
                (depth - 1) as nat,
                out@,
            ),
        decreases n - i,
    {
        let b = c.next_bytes(16)?;
        let child: u64 = field(b, 0, 8);
        if leaf {
            out.push(child);
        } else {
            out = walk_group_btree(data, base, child, depth - 1, out)?;
        }
        i += 1;
    }
    Ok(out)
}

// Members.

/// A member of a group. Those of symbol tables have no stored creation order.
#[derive(Debug)]
pub struct Member {
    pub name: String,
    pub target: RawTarget,
    pub creation_order: Option<i64>,
    pub utf8: bool,
}

/// The view of a [`Member`].
pub struct MemberLink {
    pub name: Seq<char>,
    pub target: RawTargetView,
    pub creation_order: Option<i64>,
    pub utf8: bool,
}

impl View for Member {
    type V = MemberLink;

    open spec fn view(&self) -> MemberLink {
        MemberLink {
            name: self.name@,
            target: self.target@,
            creation_order: self.creation_order,
            utf8: self.utf8,
        }
    }
}

/// The views of members.
pub open spec fn member_links(v: Seq<Member>) -> Seq<MemberLink> {
    v.map_values(|m: Member| m@)
}

/// The member that a stored link is.
pub open spec fn link_member(l: RawLinkView) -> MemberLink {
    MemberLink {
        name: l.name,
        target: l.target,
        creation_order: Some(l.creation_order),
        utf8: l.utf8,
    }
}

/// The members that stored links are.
pub open spec fn link_members(v: Seq<RawLinkView>) -> Seq<MemberLink> {
    v.map_values(|l: RawLinkView| link_member(l))
}

/// Whether reading members came out as `s` says.
pub open spec fn members_as(
    r: Result<Vec<Member>, Error>,
    s: Result<Seq<MemberLink>, Seq<char>>,
) -> bool {
    match (r, s) {
        (Ok(a), Ok(b)) => member_links(a@) == b,
        (Err(e), Err(m)) => e@ == m,
        _ => false,
    }
}

/// The member that an entry of a symbol table is: an object, or a soft link whose
/// path stands in the heap.
pub open spec fn symbol(heap: Seq<u8>, entry: Seq<u8>) -> Result<MemberLink, Seq<char>> {
    match heap_text(heap, le_at(entry, 0, 8)) {
        Err(e) => Err(e),
        Ok(name) => if le_at(entry, 16, 4) == 2 {
            match heap_text(heap, le_at(entry, 24, 4)) {
                Err(e) => Err(e),
                Ok(path) => Ok(
                    MemberLink {
                        name,
                        target: RawTargetView::Soft(path),
                        creation_order: None,
                        utf8: false,
                    },
                ),
            }
        } else {
            Ok(
                MemberLink {
                    name,
                    target: RawTargetView::Hard(le_at(entry, 8, 8) as u64),
                    creation_order: None,
                    utf8: false,
                },
            )
        },
    }
}

/// The members of the `n` entries that start with `s`, behind `acc`.
pub open spec fn symbols_taken(heap: Seq<u8>, s: Seq<u8>, n: nat, acc: Seq<MemberLink>) -> Result<
    Seq<MemberLink>,
    Seq<char>,
>
    decreases n,
{
    if n == 0 {
        Ok(acc)
    } else {
        match taken_bytes(s, 40) {
            Err(e) => Err(e),
            Ok((entry, r)) => match symbol(heap, entry) {
                Err(e) => Err(e),
                Ok(m) => symbols_taken(heap, r, (n - 1) as nat, acc.push(m)),
            },
        }
    }
}

/// The members of the symbol node at an address, behind `acc`.
pub open spec fn node_symbols(
    data: Seq<u8>,
    base: u64,
    heap: Seq<u8>,
    addr: u64,
    acc: Seq<MemberLink>,
) -> Result<Seq<MemberLink>, Seq<char>> {
    match taken_bytes(rest_at(data, base + addr), 4) {
        Err(e) => Err(e),
        Ok((sig, r)) => if sig != seq![83u8, 78u8, 79u8, 68u8] {
            Err("bad SNOD signature"@)
        } else {
            match taken_bytes(r, 4) {
                Err(e) => Err(e),
                Ok((h, rest)) => symbols_taken(heap, rest, le_at(h, 2, 2), acc),
            }
        },
    }
}

/// The members of the symbol nodes from the number `i` on, behind `acc`.
pub open spec fn nodes_symbols(
    data: Seq<u8>,
    base: u64,
    heap: Seq<u8>,
    nodes: Seq<u64>,
    i: int,
    acc: Seq<MemberLink>,
) -> Result<Seq<MemberLink>, Seq<char>>
    decreases nodes.len() - i,
{
    if i < 0 || i >= nodes.len() {
        Ok(acc)
    } else {
        match node_symbols(data, base, heap, nodes[i], acc) {
            Err(e) => Err(e),
            Ok(v) => nodes_symbols(data, base, heap, nodes, i + 1, v),
        }
    }
}

/// The members of the symbol table with a B-tree and a heap.
pub open spec fn table_symbols(data: Seq<u8>, base: u64, btree: u64, heap: u64) -> Result<
    Seq<MemberLink>,
    Seq<char>,
> {
    match local_heap(data, base, heap) {
        Err(e) => Err(e),
        Ok(h) => match tree_leaves(data, base, btree, data.len(), Seq::empty()) {
            Err(e) => Err(e),
            Ok(nodes) => nodes_symbols(data, base, h, nodes, 0, Seq::empty()),
        },
    }
}

fn read_symbol(heap: &[u8], entry: &[u8]) -> (r: Result<Member, Error>)
    requires
        entry@.len() == 40,
    ensures
        match (r, symbol(heap@, entry@)) {
            (Ok(a), Ok(b)) => a@ == b,
            (Err(e), Err(m)) => e@ == m,
            _ => false,
        },
{
    let name = read_heap_string(heap, field(entry, 0, 8))?;
    if field(entry, 16, 4) == 2 {
        let path = read_heap_string(heap, field(entry, 24, 4))?;
        Ok(Member { name, target: RawTarget::Soft(path), creation_order: None, utf8: false })
    } else {
        Ok(
            Member {
                name,
                target: RawTarget::Hard(field(entry, 8, 8)),
                creation_order: None,
                utf8: false,
            },
        )
    }
}

fn read_node(data: &[u8], base: u64, heap: &[u8], addr: u64, acc: Vec<Member>) -> (r: Result<
    Vec<Member>,
    Error,
>)
    ensures
        members_as(r, node_symbols(data@, base, heap@, addr, member_links(acc@))),
{
    let mut c = cursor_at(data, base, addr);
    let sig = c.next_bytes(4)?;
    if !is_signature(sig, 83, 78, 79, 68) {
        return Err(Error::new("bad SNOD signature"));
    }
    let h = c.next_bytes(4)?;
    proof {
        lemma_field_bound(h@, 2, 2);
    }
    let n: u64 = field(h, 2, 2);
    let mut out = acc;
    let ghost whole = node_symbols(data@, base, heap@, addr, member_links(acc@));
    let mut i: u64 = 0;
    while i < n
        invariant
            i <= n,
            whole == node_symbols(data@, base, heap@, addr, member_links(acc@)),
            whole == symbols_taken(heap@, c.rest(), (n - i) as nat, member_links(out@)),
        decreases n - i,
    {
        let entry = c.next_bytes(40)?;
        let m = read_symbol(heap, entry)?;
        let ghost before = out@;
        out.push(m);
        assert(member_links(out@) =~= member_links(before).push(m@));
        i += 1;
    }
    Ok(out)
}

/// Reads the members of a symbol table.
pub fn parse_symbol_table(data: &[u8], base: u64, btree: u64, heap: u64) -> (r: Result<
    Vec<Member>,
    Error,
>)
    ensures
        members_as(r, table_symbols(data@, base, btree, heap)),
{
    let texts = parse_local_heap(data, base, heap)?;
    let nodes = walk_group_btree(data, base, btree, data.len(), Vec::new())?;
    let n: usize = nodes.len();
    let mut out: Vec<Member> = Vec::new();
    let mut i: usize = 0;
    assert(member_links(out@) =~= Seq::<MemberLink>::empty());
    let ghost whole = table_symbols(data@, base, btree, heap);
    while i < n
        invariant
            i <= n == nodes@.len(),
            whole == table_symbols(data@, base, btree, heap),
            whole == nodes_symbols(
                data@,
                base,
                texts@,
                nodes@,
                i as int,
                member_links(out@),
            ),
        decreases n - i,
    {
        out = read_node(data, base, texts.as_slice(), nodes[i], out)?;
        i += 1;
    }
    Ok(out)
}

// Dense storage.

/// Where a link goes in links that stand in creation order: behind those with the
/// same order.
pub open spec fn order_place(links: Seq<RawLinkView>, order: i64) -> int
    decreases links.len(),
{
    if links.len() == 0 {
        0
    } else if links.last().creation_order <= order {
        links.len() as int
    } else {
        order_place(links.drop_last(), order)
    }
}

/// Links in creation order; those with the same order keep theirs.
pub open spec fn by_order(links: Seq<RawLinkView>) -> Seq<RawLinkView>
    decreases links.len(),
{
    if links.len() == 0 {
        links
    } else {
        let v = by_order(links.drop_last());
        v.insert(order_place(v, links.last().creation_order), links.last())
    }
}

proof fn lemma_order_place(links: Seq<RawLinkView>, order: i64)
    ensures
        0 <= order_place(links, order) <= links.len(),
        order_place(links, order) > 0 ==> links[order_place(links, order) - 1].creation_order
            <= order,
        forall|i: int|
            order_place(links, order) <= i < links.len() ==> (#[trigger] links[i]).creation_order
                > order,
    decreases links.len(),
{
    if links.len() > 0 && links.last().creation_order > order {
        lemma_order_place(links.drop_last(), order);
        assert forall|i: int|
            order_place(links, order) <= i < links.len() implies (#[trigger] links[i]).creation_order
            > order by {
            if i < links.len() - 1 {
                assert(links.drop_last()[i] == links[i]);
            }
        }
    }
}

/// Whether links stand in creation order.
pub open spec fn in_order(links: Seq<RawLinkView>) -> bool {
    forall|i: int, j: int|
        0 <= i < j < links.len() ==> (#[trigger] links[i]).creation_order <= (
        #[trigger] links[j]).creation_order
}

/// The links that were put in creation order are the same links, in that order.
pub proof fn law_by_order(links: Seq<RawLinkView>)
    ensures
        in_order(by_order(links)),
        by_order(links).to_multiset() == links.to_multiset(),
        by_order(links).len() == links.len(),
    decreases links.len(),
{
    if links.len() > 0 {
        law_by_order(links.drop_last());
        let v = by_order(links.drop_last());
        let x = links.last();
        let k = order_place(v, x.creation_order);
        lemma_order_place(v, x.creation_order);
        let w = v.insert(k, x);
        assert forall|i: int, j: int| 0 <= i < j < w.len() implies (#[trigger] w[i]).creation_order
            <= (#[trigger] w[j]).creation_order by {
            if i < k {
                assert(w[i] == v[i]);
                if i < k - 1 {
                    assert(v[i].creation_order <= v[k - 1].creation_order);
                }
            } else if i > k {
                assert(w[i] == v[i - 1]);
            }
            if j < k {
                assert(w[j] == v[j]);
            } else if j > k {
                assert(w[j] == v[j - 1]);
            }
        }
        vstd::seq_lib::to_multiset_insert(v, k, x);
        assert(links =~= links.drop_last().push(x));
        vstd::seq_lib::to_multiset_build(links.drop_last(), x);
    }
}

/// The links that the records from the number `i` on name, behind `acc`. A record
/// holds a hash and a heap identifier.
pub open spec fn record_links(
    data: Seq<u8>,
    base: u64,
    h: HeapInfo,
    records: Seq<Seq<u8>>,
    i: int,
    acc: Seq<RawLinkView>,
) -> Result<Seq<RawLinkView>, Seq<char>>
    decreases records.len() - i,
{
    if i < 0 || i >= records.len() {
        Ok(acc)
    } else if records[i].len() < 4 {
        record_links(data, base, h, records, i + 1, acc)
    } else {
        match heap_item(data, base, h, records[i].skip(4)) {
            Err(e) => Err(e),
            Ok(msg) => match link_parsed(msg) {
                Err(e) => Err(e),
                Ok(None) => record_links(data, base, h, records, i + 1, acc),
                Ok(Some(l)) => record_links(data, base, h, records, i + 1, acc.push(l)),
            },
        }
    }
}

/// The dense links with a heap and a name index, in creation order.
pub open spec fn dense_links(
    data: Seq<u8>,
    base: u64,
    given: Seq<(u64, Seq<u8>)>,
    heap: u64,
    index: u64,
) -> Result<Seq<RawLinkView>, Seq<char>> {
    match heap_at(data, base, heap, given) {
        Err(e) => Err(e),
        Ok(h) => match btree_read(data, base, index) {
            Err(e) => Err(e),
            Ok((kind, records)) => if kind != 5 {
                Err("dense link index has unexpected btree type"@)
            } else {
                match record_links(data, base, h, records, 0, Seq::empty()) {
                    Err(e) => Err(e),
                    Ok(links) => Ok(by_order(links)),
                }
            },
        },
    }
}

/// The attributes that the records from the number `i` on name, behind `acc`. A record
/// holds a heap identifier and the flags of the message.
pub open spec fn record_attrs(
    data: Seq<u8>,
    base: u64,
    h: HeapInfo,
    records: Seq<Seq<u8>>,
    i: int,
    acc: Seq<AttrView>,
) -> Result<Seq<AttrView>, Seq<char>>
    decreases records.len() - i,
{
    if i < 0 || i >= records.len() {
        Ok(acc)
    } else if records[i].len() < 9 {
        record_attrs(data, base, h, records, i + 1, acc)
    } else if records[i][8] % 4 != 0 {
        Err("shared attribute messages are not supported"@)
    } else {
        match heap_item(data, base, h, records[i].take(8)) {
            Err(e) => Err(e),
            Ok(msg) => match attr_parsed(data, base, msg) {
                Err(e) => Err(e),
                Ok(None) => record_attrs(data, base, h, records, i + 1, acc),
                Ok(Some(a)) => record_attrs(data, base, h, records, i + 1, acc.push(a)),
            },
        }
    }
}

/// The attributes `acc` and the dense attributes with a heap and a name index.
pub open spec fn dense_attrs(
    data: Seq<u8>,
    base: u64,
    given: Seq<(u64, Seq<u8>)>,
    heap: u64,
    index: u64,
    acc: Seq<AttrView>,
) -> Result<Seq<AttrView>, Seq<char>> {
    match heap_at(data, base, heap, given) {
        Err(e) => Err(e),
        Ok(h) => match btree_read(data, base, index) {
            Err(e) => Err(e),
            Ok((kind, records)) => if kind != 8 {
                Err("dense attribute index has unexpected btree type"@)
            } else {
                record_attrs(data, base, h, records, 0, acc)
            },
        },
    }
}

/// Puts a link where it goes in creation order.
fn insert_link(out: &mut Vec<RawLink>, l: RawLink)
    ensures
        raw_link_views(final(out)@) == raw_link_views(old(out)@).insert(
            order_place(raw_link_views(old(out)@), l.creation_order),
            l@,
        ),
{
    let ghost v = raw_link_views(out@);
    let mut k: usize = out.len();
    assert(v.take(k as int) =~= v);
    while k > 0 && out[k - 1].creation_order > l.creation_order
        invariant
            k <= out@.len(),
            out@ == old(out)@,
            v == raw_link_views(out@),
            order_place(v, l.creation_order) == order_place(v.take(k as int), l.creation_order),
        decreases k,
    {
        assert(v.take(k as int).drop_last() =~= v.take(k - 1));
        assert(v[k - 1] == out@[k - 1]@);
        k -= 1;
    }
    assert(k == order_place(v, l.creation_order)) by {
        if k > 0 {
            assert(v[k - 1] == out@[k - 1]@);
            assert(v.take(k as int).last() == v[k - 1]);
        }
    }
    out.insert(k, l);
    assert(raw_link_views(out@) =~= v.insert(k as int, l@));
}

/// Reads dense links.
pub fn load_dense_links(
    data: &[u8],
    base: u64,
    given: Option<&Vec<(u64, Vec<u8>)>>,
    fheap: u64,
    name_bt2: u64,
) -> (r: Result<Vec<RawLink>, Error>)
    ensures
        match (r, dense_links(data@, base, given_views(given), fheap, name_bt2)) {
            (Ok(a), Ok(b)) => raw_link_views(a@) == b,
            (Err(e), Err(m)) => e@ == m,
            _ => false,
        },
{
    let heap = FractalHeap::open(data, base, fheap, given)?;
    let tree = read_v2btree(data, base, name_bt2)?;
    if tree.btree_type != 5 {
        return Err(Error::new("dense link index has unexpected btree type"));
    }
    let ghost views = record_views(tree.records@);
    let n: usize = tree.records.len();
    let mut out: Vec<RawLink> = Vec::new();
    let ghost mut acc = Seq::<RawLinkView>::empty();
    assert(raw_link_views(out@) =~= by_order(acc));
    let ghost whole = record_links(data@, base, heap@, views, 0, acc);
    let mut i: usize = 0;
    while i < n
        invariant
            i <= n == tree.records@.len(),
            heap.wf(),
            heap.data@ == data@,
            heap.base == base,
            views == record_views(tree.records@),
            dense_links(data@, base, given_views(given), fheap, name_bt2) == (match whole {
                Err(e) => Err(e),
                Ok(links) => Ok(by_order(links)),
            }),
            whole == record_links(data@, base, heap@, views, i as int, acc),
            raw_link_views(out@) == by_order(acc),
        decreases n - i,
    {
        let rec = tree.records[i].as_slice();
        assert(rec@ == views[i as int]);
        if rec.len() >= 4 {
            let id = vstd::slice::slice_subrange(rec, 4, rec.len());
            assert(id@ =~= rec@.skip(4));
            let msg = heap.get(id)?;
            if let Some(l) = parse_link_message(msg.as_slice())? {
                assert(acc.push(l@).drop_last() =~= acc);
                insert_link(&mut out, l);
                proof {
                    acc = acc.push(l@);
                }
            }
        }
        i += 1;
    }
    Ok(out)
}

/// Reads dense attributes behind `attrs`.
pub fn load_dense_attrs(
    heap: &mut GlobalHeap,
    given: Option<&Vec<(u64, Vec<u8>)>>,
    fheap: u64,
    name_bt2: u64,
    attrs: Vec<AttrData>,
) -> (r: Result<Vec<AttrData>, Error>)
    requires
        old(heap).wf(),
        forall|i: int| 0 <= i < attrs@.len() ==> (#[trigger] attrs@[i]).dtype@.sized(),
    ensures
        final(heap).wf(),
        final(heap).data@ == old(heap).data@,
        final(heap).base == old(heap).base,
        match (
            r,
            dense_attrs(
                old(heap).data@,
                old(heap).base,
                given_views(given),
                fheap,
                name_bt2,
                attr_views(attrs@),
            ),
        ) {
            (Ok(a), Ok(b)) => attr_views(a@) == b && forall|i: int|
                0 <= i < a@.len() ==> (#[trigger] a@[i]).dtype@.sized(),
            (Err(e), Err(m)) => e@ == m,
            _ => false,
        },
{
    let (data, base): (&[u8], u64) = (heap.data, heap.base);
    let store = FractalHeap::open(data, base, fheap, given)?;
    let tree = read_v2btree(data, base, name_bt2)?;
    if tree.btree_type != 8 {
        return Err(Error::new("dense attribute index has unexpected btree type"));
    }
    let ghost views = record_views(tree.records@);
    let n: usize = tree.records.len();
    let mut out = attrs;
    let ghost whole = dense_attrs(
        data@,
        base,
        given_views(given),
        fheap,
        name_bt2,
        attr_views(attrs@),
    );
    let mut i: usize = 0;
    while i < n
        invariant
            i <= n == tree.records@.len(),
            store.wf(),
            store.data@ == data@,
            store.base == base,
            heap.wf(),
            heap.data@ == data@,
            data@ == old(heap).data@,
            heap.base == base == old(heap).base,
            views == record_views(tree.records@),
            forall|i: int| 0 <= i < out@.len() ==> (#[trigger] out@[i]).dtype@.sized(),
            whole == dense_attrs(
        data@,
        base,
        given_views(given),
        fheap,
        name_bt2,
        attr_views(attrs@),
    ),
            whole == record_attrs(data@, base, store@, views, i as int, attr_views(out@)),
        decreases n - i,
    {
        let rec = tree.records[i].as_slice();
        assert(rec@ == views[i as int]);
        if rec.len() >= 9 {
            if rec[8] % 4 != 0 {
                return Err(Error::new("shared attribute messages are not supported"));
            }
            let id = vstd::slice::slice_subrange(rec, 0, 8);
            assert(id@ =~= rec@.take(8));
            let msg = store.get(id)?;
            if let Some(a) = parse_attribute(heap, msg.as_slice())? {
                let ghost before = out@;
                out.push(a);
                assert(attr_views(out@) =~= attr_views(before).push(a@));
            }
        }
        i += 1;
    }
    Ok(out)
}

// Blocks that have to be scaled back.

/// The heap identifier in a record of a name index.
pub open spec fn record_id(record: Seq<u8>, links: bool) -> Option<Seq<u8>> {
    if links {
        if record.len() < 4 {
            None
        } else {
            Some(record.skip(4))
        }
    } else if record.len() < 9 {
        None
    } else {
        Some(record.take(8))
    }
}

/// The first direct block that has to be scaled back for the records from the number `i`
/// on.
pub open spec fn records_float(
    data: Seq<u8>,
    base: u64,
    h: HeapInfo,
    records: Seq<Seq<u8>>,
    i: int,
    links: bool,
) -> Option<HeapFloatView>
    decreases records.len() - i,
{
    if i < 0 || i >= records.len() {
        None
    } else {
        let found = match record_id(records[i], links) {
            None => None,
            Some(id) => heap_pending(data, base, h, id),
        };
        if found is Some {
            found
        } else {
            records_float(data, base, h, records, i + 1, links)
        }
    }
}

/// The first direct block that has to be scaled back before dense links or attributes
/// can be read.
pub open spec fn dense_float(
    data: Seq<u8>,
    base: u64,
    given: Seq<(u64, Seq<u8>)>,
    heap: u64,
    index: u64,
    links: bool,
) -> Option<HeapFloatView> {
    match (heap_at(data, base, heap, given), btree_read(data, base, index)) {
        (Ok(h), Ok((kind, records))) => records_float(data, base, h, records, 0, links),
        _ => None,
    }
}

/// Finds the first direct block that has to be scaled back before dense links or
/// attributes can be read.
pub fn find_dense_float(
    data: &[u8],
    base: u64,
    given: Option<&Vec<(u64, Vec<u8>)>>,
    fheap: u64,
    name_bt2: u64,
    links: bool,
) -> (r: Option<HeapFloat>)
    ensures
        float_as(r, dense_float(data@, base, given_views(given), fheap, name_bt2, links)),
{
    let heap = match FractalHeap::open(data, base, fheap, given) {
        Ok(h) => h,
        Err(_) => {
            return None;
        },
    };
    let tree = match read_v2btree(data, base, name_bt2) {
        Ok(t) => t,
        Err(_) => {
            return None;
        },
    };
    let ghost views = record_views(tree.records@);
    let ghost whole = records_float(data@, base, heap@, views, 0, links);
    let n: usize = tree.records.len();
    let mut i: usize = 0;
    while i < n
        invariant
            i <= n == tree.records@.len(),
            heap.wf(),
            heap.data@ == data@,
            heap.base == base,
            views == record_views(tree.records@),
            whole == dense_float(data@, base, given_views(given), fheap, name_bt2, links),
            whole == records_float(data@, base, heap@, views, i as int, links),
        decreases n - i,
    {
        let rec = tree.records[i].as_slice();
        assert(rec@ == views[i as int]);
        let len: usize = rec.len();
        let found: Option<HeapFloat> = if links {
            if len < 4 {
                None
            } else {
                let id = vstd::slice::slice_subrange(rec, 4, len);
                assert(id@ =~= rec@.skip(4));
                heap.pending(id)
            }
        } else if len < 9 {
            None
        } else {
            let id = vstd::slice::slice_subrange(rec, 0, 8);
            assert(id@ =~= rec@.take(8));
            heap.pending(id)
        };
        if found.is_some() {
            return found;
        }
        i += 1;
    }
    None
}

} // verus!
