//! Writing of blocks at the end of a file image: heaps, symbol nodes and B-trees.

use vstd::prelude::*;
use vstd::utf8::encode_utf8;

use crate::error::Error;
use crate::format::convert::{payloads, VlenStore};
use crate::format::gheap::pad8;
use crate::format::{le_bytes, lemma_le_bytes_len, push_le, zeroes, Buf, UNDEF};
use crate::text::same_text;

verus! {

// Appending.

/// An image filled up with zeroes to a multiple of 8 bytes.
pub open spec fn padded(s: Seq<u8>) -> Seq<u8> {
    s + zeroes(pad8(s.len() as int) as nat)
}

/// An image with a block behind it, at a multiple of 8 bytes.
pub open spec fn appended(s: Seq<u8>, b: Seq<u8>) -> Seq<u8> {
    padded(s) + b
}

/// The address of that block.
pub open spec fn end_of(s: Seq<u8>) -> u64 {
    padded(s).len() as u64
}

/// Whether an image starts with another one.
pub open spec fn extends(t: Seq<u8>, s: Seq<u8>) -> bool {
    s.len() <= t.len() && t.take(s.len() as int) == s
}

pub proof fn lemma_extends(a: Seq<u8>, b: Seq<u8>, c: Seq<u8>)
    requires
        extends(b, a),
        extends(c, b),
    ensures
        extends(c, a),
{
    assert(c.take(a.len() as int) =~= c.take(b.len() as int).take(a.len() as int));
}

pub proof fn lemma_appended(s: Seq<u8>, b: Seq<u8>)
    ensures
        extends(appended(s, b), s),
        extends(appended(s, b), padded(s)),
        appended(s, b).len() == padded(s).len() + b.len(),
        padded(s).len() % 8 == 0,
        padded(s).len() >= s.len(),
{
    assert(appended(s, b).take(s.len() as int) =~= s);
    assert(appended(s, b).take(padded(s).len() as int) =~= padded(s));
}

/// Fills an image up to a multiple of 8 bytes.
pub fn pad_image(buf: &mut Vec<u8>)
    ensures
        final(buf)@ == padded(old(buf)@),
        final(buf)@.len() % 8 == 0,
{
    let ghost s = buf@;
    let rest: usize = buf.len() % 8;
    let count: usize = if rest == 0 {
        0
    } else {
        8 - rest
    };
    assert(count == pad8(s.len() as int));
    let mut n: usize = 0;
    assert(s + zeroes(0) =~= s);
    while n < count
        invariant
            buf@ == s + zeroes(n as nat),
            n <= count,
        decreases count - n,
    {
        buf.push(0);
        n += 1;
        assert(buf@ =~= s + zeroes(n as nat));
    }
}

/// Puts a block behind an image.
pub fn append(buf: &mut Vec<u8>, bytes: &[u8]) -> (r: u64)
    ensures
        final(buf)@ == appended(old(buf)@, bytes@),
        r == end_of(old(buf)@),
        r == padded(old(buf)@).len(),
{
    pad_image(buf);
    let addr: u64 = buf.len() as u64;
    buf.extend_from_slice(bytes);
    assert(buf@ =~= appended(old(buf)@, bytes@));
    addr
}

/// Whether something was written as a specification says: the image and the address
/// agree, or the error does.
pub open spec fn written_as(
    r: Result<u64, Error>,
    buf: Seq<u8>,
    expected: Result<(Seq<u8>, u64), Seq<char>>,
) -> bool {
    match (r, expected) {
        (Ok(a), Ok(x)) => buf == x.0 && a == x.1,
        (Err(e), Err(x)) => e@ == x,
        _ => false,
    }
}

/// Bytes filled up with zeroes to a size, where they are shorter.
pub open spec fn filled_to(s: Seq<u8>, n: nat) -> Seq<u8> {
    if s.len() < n {
        s + zeroes((n - s.len()) as nat)
    } else {
        s
    }
}

pub(crate) fn fill_to(b: &mut Buf, n: usize)
    ensures
        final(b)@ == filled_to(old(b)@, n as nat),
{
    let k: usize = b.len();
    if k < n {
        b.zeros(n - k);
    }
}

// Global heaps.

/// The items of a collection, numbered from 1.
pub open spec fn item_messages(store: Seq<Seq<u8>>) -> Seq<u8>
    decreases store.len(),
{
    if store.len() == 0 {
        Seq::empty()
    } else {
        item_messages(store.drop_last()) + item_message(store.len(), store.last())
    }
}

/// The item with a number.
pub open spec fn item_message(index: nat, obj: Seq<u8>) -> Seq<u8> {
    le_bytes(index, 2) + le_bytes(1, 2) + zeroes(4) + le_bytes(obj.len(), 8) + obj + zeroes(
        pad8(obj.len() as int) as nat,
    )
}

/// `n` rounded up to a multiple of 4096.
pub open spec fn pages(n: nat) -> nat {
    (n + 4095) / 4096 * 4096
}

/// A collection that holds some payloads.
pub open spec fn collection_message(store: Seq<Seq<u8>>) -> Seq<u8> {
    let items = item_messages(store);
    let total = pages(items.len() + 32);
    seq![71u8, 67u8, 79u8, 76u8, 1u8, 0u8, 0u8, 0u8] + le_bytes(total, 8) + items + zeroes(8)
        + le_bytes((total - 16 - items.len()) as nat, 8) + zeroes(
        (total - 32 - items.len()) as nat,
    )
}

fn push_item(b: &mut Buf, index: u64, obj: &[u8])
    requires
        old(b)@.len() % 8 == 0,
    ensures
        final(b)@ == old(b)@ + item_message(index as nat, obj@),
        final(b)@.len() % 8 == 0,
{
    let ghost before = b@;
    push_le(&mut b.bytes, index, 2);
    b.u16(1);
    b.zeros(4);
    push_le(&mut b.bytes, obj.len() as u64, 8);
    b.raw(obj);
    proof {
        lemma_le_bytes_len(index as nat, 2);
        lemma_le_bytes_len(1, 2);
        lemma_le_bytes_len(obj@.len(), 8);
        assert(b@.len() == before.len() + 16 + obj@.len());
    }
    pad_image(&mut b.bytes);
    assert(b@ =~= before + item_message(index as nat, obj@));
}

fn push_items(b: &mut Buf, store: &VlenStore)
    requires
        old(b)@.len() % 8 == 0,
    ensures
        final(b)@ == old(b)@ + item_messages(payloads(store@)),
        final(b)@.len() % 8 == 0,
{
    let ghost views = payloads(store@);
    let ghost start = b@;
    let n: usize = store.len();
    let mut i: usize = 0;
    assert(views.take(0) =~= Seq::empty());
    assert(start + item_messages(views.take(0)) =~= start);
    while i < n
        invariant
            i <= n == store@.len(),
            views == payloads(store@),
            b@ == start + item_messages(views.take(i as int)),
            b@.len() % 8 == 0,
        decreases n - i,
    {
        let obj = store[i].as_slice();
        assert(obj@ == views[i as int]);
        push_item(b, i as u64 + 1, obj);
        proof {
            assert(views.take(i + 1).drop_last() =~= views.take(i as int));
            assert(b@ =~= start + item_messages(views.take(i + 1)));
        }
        i += 1;
    }
    assert(views.take(n as int) =~= views);
}

fn encode_gheap(store: &VlenStore) -> (r: Vec<u8>)
    ensures
        r@ == collection_message(payloads(store@)),
{
    let ghost items = item_messages(payloads(store@));
    let mut b = Buf::new();
    b.u8(71);
    b.u8(67);
    b.u8(79);
    b.u8(76);
    b.u8(1);
    b.zeros(3);
    let ghost head = seq![71u8, 67u8, 79u8, 76u8, 1u8, 0u8, 0u8, 0u8];
    assert(b@ =~= head);
    b.u64(0);
    proof {
        lemma_le_bytes_len(0, 8);
    }
    push_items(&mut b, store);
    let free_at: usize = b.len();
    b.zeros(8);
    b.u64(0);
    let ghost body = b@;
    let used: usize = b.len() % 4096;
    b.zeros((4096 - used) % 4096);
    let total: usize = b.len();
    assert(total == pages(items.len() + 32));
    let ghost full = b@;
    b.patch_u64(8, total as u64);
    proof {
        lemma_le_bytes_len(total as nat, 8);
        assert(b@.len() == total);
    }
    b.patch_u64(free_at + 8, (total - free_at) as u64);
    proof {
        lemma_le_bytes_len((total - free_at) as nat, 8);
        assert(b@ =~= collection_message(payloads(store@)));
    }
    b.bytes
}

/// Writes a collection that holds some payloads.
pub fn write_gheap(buf: &mut Vec<u8>, store: &VlenStore) -> (r: u64)
    ensures
        final(buf)@ == appended(old(buf)@, collection_message(payloads(store@))),
        r == end_of(old(buf)@),
{
    let b = encode_gheap(store);
    append(buf, b.as_slice())
}

// Local heaps.

/// The data segment of a local heap that is being built, and where each text stands.
#[verifier::ext_equal]
pub struct HeapTexts {
    pub data: Seq<u8>,
    pub places: Seq<(Seq<char>, u64)>,
}

/// A heap without texts: its first bytes stand for the empty text.
pub open spec fn no_texts() -> HeapTexts {
    HeapTexts { data: zeroes(8), places: Seq::empty() }
}

/// Where a text stands.
pub open spec fn text_place(places: Seq<(Seq<char>, u64)>, text: Seq<char>) -> Option<u64>
    decreases places.len(),
{
    if places.len() == 0 {
        None
    } else if places.last().0 == text {
        Some(places.last().1)
    } else {
        text_place(places.drop_last(), text)
    }
}

/// A heap with a text, which is stored only once, and its place.
pub open spec fn text_added(h: HeapTexts, text: Seq<char>) -> (HeapTexts, u64) {
    match text_place(h.places, text) {
        Some(off) => (h, off),
        None => (
            HeapTexts {
                data: padded(h.data + encode_utf8(text) + seq![0u8]),
                places: h.places.push((text, h.data.len() as u64)),
            },
            h.data.len() as u64,
        ),
    }
}

/// A builder of the data segment of a local heap.
pub struct HeapBuilder {
    pub data: Vec<u8>,
    pub offsets: Vec<(String, u64)>,
}

/// The views of places.
pub open spec fn place_views(v: Seq<(String, u64)>) -> Seq<(Seq<char>, u64)> {
    v.map_values(|p: (String, u64)| (p.0@, p.1))
}

impl View for HeapBuilder {
    type V = HeapTexts;

    open spec fn view(&self) -> HeapTexts {
        HeapTexts { data: self.data@, places: place_views(self.offsets@) }
    }
}

impl HeapBuilder {
    pub fn new() -> (r: Self)
        ensures
            r@ == no_texts(),
    {
        let r = HeapBuilder { data: vec![0u8; 8], offsets: Vec::new() };
        assert(r@ =~= no_texts());
        r
    }

    /// Adds a text where it is not there yet, and returns its place.
    pub fn insert(&mut self, text: &str) -> (r: u64)
        ensures
            (final(self)@, r) == text_added(old(self)@, text@),
    {
        let ghost views = self@.places;
        let mut i: usize = self.offsets.len();
        assert(views.take(i as int) =~= views);
        while i > 0
            invariant
                i <= self.offsets@.len(),
                self@ == old(self)@,
                views == place_views(self.offsets@),
                text_place(views, text@) == text_place(views.take(i as int), text@),
            decreases i,
        {
            assert(views.take(i as int).last() == (self.offsets@[i - 1].0@, self.offsets@[i - 1].1));
            assert(views.take(i as int).drop_last() =~= views.take(i - 1));
            if same_text(&self.offsets[i - 1].0, text) {
                return self.offsets[i - 1].1;
            }
            i -= 1;
        }
        let off: u64 = self.data.len() as u64;
        let ghost before = self.offsets@;
        self.data.extend_from_slice(text.as_bytes());
        self.data.push(0);
        assert(self.data@ =~= old(self)@.data + encode_utf8(text@) + seq![0u8]);
        pad_image(&mut self.data);
        self.offsets.push((String::from_str(text), off));
        assert(place_views(self.offsets@) =~= place_views(before).push((text@, off)));
        off
    }
}

/// The data segment of a local heap: its texts and a free block.
pub open spec fn heap_segment(texts: Seq<u8>) -> Seq<u8> {
    texts + le_bytes(1, 8) + le_bytes(16, 8)
}

/// The header of a local heap whose segment stands at `addr`.
pub open spec fn heap_header(texts: Seq<u8>, addr: u64) -> Seq<u8> {
    seq![72u8, 69u8, 65u8, 80u8, 0u8, 0u8, 0u8, 0u8] + le_bytes(heap_segment(texts).len(), 8)
        + le_bytes(texts.len(), 8) + le_bytes(addr as nat, 8)
}

/// An image with a local heap behind it, and the address of its header.
pub open spec fn heap_written(s: Seq<u8>, texts: Seq<u8>) -> (Seq<u8>, u64) {
    let s1 = appended(s, heap_segment(texts));
    (appended(s1, heap_header(texts, end_of(s))), end_of(s1))
}

/// Writes a local heap.
pub fn write_local_heap(buf: &mut Vec<u8>, heap: &HeapBuilder) -> (r: u64)
    ensures
        (final(buf)@, r) == heap_written(old(buf)@, heap@.data),
        extends(final(buf)@, old(buf)@),
{
    let ghost s = buf@;
    let mut seg = Buf::new();
    seg.raw(heap.data.as_slice());
    seg.u64(1);
    seg.u64(16);
    assert(seg@ =~= heap_segment(heap@.data));
    let size: usize = seg.len();
    let addr: u64 = append(buf, seg.bytes.as_slice());
    let ghost s1 = buf@;
    let mut h = Buf::new();
    h.u8(72);
    h.u8(69);
    h.u8(65);
    h.u8(80);
    h.zeros(4);
    h.u64(size as u64);
    h.u64(heap.data.len() as u64);
    h.u64(addr);
    assert(h@ =~= heap_header(heap@.data, addr));
    proof {
        lemma_appended(s, seg@);
        lemma_appended(s1, h@);
        lemma_extends(s, s1, appended(s1, h@));
    }
    append(buf, h.bytes.as_slice())
}

// Symbol nodes.

/// An entry of a symbol node.
pub struct SymbolEntry {
    pub name_off: u64,
    pub oh_addr: u64,
    pub cache_type: u32,
    /// The scratch pad: two numbers.
    pub first: u64,
    pub second: u64,
}

/// The bytes of an entry.
pub open spec fn entry_message(e: SymbolEntry) -> Seq<u8> {
    le_bytes(e.name_off as nat, 8) + le_bytes(e.oh_addr as nat, 8) + le_bytes(
        e.cache_type as nat,
        4,
    ) + zeroes(4) + le_bytes(e.first as nat, 8) + le_bytes(e.second as nat, 8)
}

/// The bytes of entries.
pub open spec fn entry_messages(es: Seq<SymbolEntry>) -> Seq<u8>
    decreases es.len(),
{
    if es.len() == 0 {
        Seq::empty()
    } else {
        entry_messages(es.drop_last()) + entry_message(es.last())
    }
}

/// The number of entries of a symbol node.
pub const NODE_ENTRIES: usize = 8;

/// A symbol node, which has room for 8 entries.
pub open spec fn symbol_node(es: Seq<SymbolEntry>) -> Seq<u8> {
    filled_to(
        seq![83u8, 78u8, 79u8, 68u8, 1u8, 0u8] + le_bytes(es.len(), 2) + entry_messages(es),
        328,
    )
}

fn push_entry(b: &mut Buf, e: &SymbolEntry)
    ensures
        final(b)@ == old(b)@ + entry_message(*e),
{
    let ghost before = b@;
    b.u64(e.name_off);
    b.u64(e.oh_addr);
    b.u32(e.cache_type);
    b.zeros(4);
    b.u64(e.first);
    b.u64(e.second);
    assert(b@ =~= before + entry_message(*e));
}

/// Writes the symbol node with the entries from `from` up to `to`.
pub fn write_snod(buf: &mut Vec<u8>, es: &Vec<SymbolEntry>, from: usize, to: usize) -> (r: u64)
    requires
        from <= to <= es@.len(),
    ensures
        final(buf)@ == appended(
            old(buf)@,
            symbol_node(es@.subrange(from as int, to as int)),
        ),
        r == end_of(old(buf)@),
{
    let ghost part = es@.subrange(from as int, to as int);
    let mut b = Buf::new();
    b.u8(83);
    b.u8(78);
    b.u8(79);
    b.u8(68);
    b.u8(1);
    b.u8(0);
    push_le(&mut b.bytes, (to - from) as u64, 2);
    let ghost start = b@;
    assert(start =~= seq![83u8, 78u8, 79u8, 68u8, 1u8, 0u8] + le_bytes(part.len(), 2));
    let mut i: usize = from;
    assert(part.take(0) =~= Seq::empty());
    assert(start + entry_messages(part.take(0)) =~= start);
    while i < to
        invariant
            from <= i <= to <= es@.len(),
            part == es@.subrange(from as int, to as int),
            b@ == start + entry_messages(part.take(i - from)),
        decreases to - i,
    {
        push_entry(&mut b, &es[i]);
        proof {
            assert(part.take(i + 1 - from).drop_last() =~= part.take(i - from));
            assert(part.take(i + 1 - from).last() == es@[i as int]);
            assert(b@ =~= start + entry_messages(part.take(i + 1 - from)));
        }
        i += 1;
    }
    assert(part.take(to - from) =~= part);
    fill_to(&mut b, 328);
    append(buf, b.bytes.as_slice())
}

// Version 1 B-trees.

/// A child of a node: the keys before and behind it, and its address.
pub struct Child {
    pub first: Vec<u8>,
    pub addr: u64,
    pub last: Vec<u8>,
}

/// The view of a [`Child`].
#[verifier::ext_equal]
pub struct ChildView {
    pub first: Seq<u8>,
    pub addr: u64,
    pub last: Seq<u8>,
}

impl View for Child {
    type V = ChildView;

    open spec fn view(&self) -> ChildView {
        ChildView { first: self.first@, addr: self.addr, last: self.last@ }
    }
}

/// The views of children.
pub open spec fn child_views(v: Seq<Child>) -> Seq<ChildView> {
    v.map_values(|c: Child| c@)
}

/// The shape of a tree: the type of its nodes, the size of a key, the number of
/// children of a node, and the key of a node without children.
pub struct TreeShape {
    pub kind: u8,
    pub key: nat,
    pub cap: nat,
    pub empty: Seq<u8>,
}

impl TreeShape {
    /// The size of a node.
    pub open spec fn node_size(self) -> nat {
        24 + self.cap * (self.key + 8) + self.key
    }
}

/// The keys and addresses of children.
pub open spec fn child_messages(cs: Seq<ChildView>) -> Seq<u8>
    decreases cs.len(),
{
    if cs.len() == 0 {
        Seq::empty()
    } else {
        child_messages(cs.drop_last()) + cs.last().first + le_bytes(cs.last().addr as nat, 8)
    }
}

/// A node with its siblings and children.
pub open spec fn node_message(
    t: TreeShape,
    level: nat,
    left: u64,
    right: u64,
    cs: Seq<ChildView>,
) -> Seq<u8> {
    filled_to(
        seq![84u8, 82u8, 69u8, 69u8, t.kind] + le_bytes(level, 1) + le_bytes(cs.len(), 2)
            + le_bytes(left as nat, 8) + le_bytes(right as nat, 8) + child_messages(cs) + (
        if cs.len() == 0 {
            t.empty
        } else {
            cs.last().last
        }),
        t.node_size(),
    )
}

/// The children of the node number `i` of a level.
pub open spec fn node_children(t: TreeShape, cs: Seq<ChildView>, i: nat) -> Seq<ChildView> {
    let from = i * t.cap;
    let to = if from + t.cap < cs.len() {
        from + t.cap
    } else {
        cs.len()
    };
    cs.subrange(from as int, to as int)
}

/// The number of nodes of a level, at least one.
pub open spec fn node_count(t: TreeShape, n: nat) -> nat {
    if n == 0 || t.cap == 0 {
        1
    } else {
        ((n - 1) as nat / t.cap + 1) as nat
    }
}

/// The address of the node number `i` of a level that starts at `start`.
pub open spec fn node_addr(t: TreeShape, start: nat, i: nat) -> u64 {
    (start + i * t.node_size()) as u64
}

/// The node number `i` of a level of `n` nodes.
pub open spec fn level_node(
    t: TreeShape,
    level: nat,
    cs: Seq<ChildView>,
    start: nat,
    i: nat,
    n: nat,
) -> Seq<u8> {
    node_message(
        t,
        level,
        if i == 0 {
            UNDEF
        } else {
            node_addr(t, start, (i - 1) as nat)
        },
        if i + 1 >= n {
            UNDEF
        } else {
            node_addr(t, start, i + 1)
        },
        node_children(t, cs, i),
    )
}

/// The first `i` nodes of a level of `n` nodes.
pub open spec fn level_nodes(
    t: TreeShape,
    level: nat,
    cs: Seq<ChildView>,
    start: nat,
    i: nat,
    n: nat,
) -> Seq<u8>
    decreases i,
{
    if i == 0 {
        Seq::empty()
    } else {
        level_nodes(t, level, cs, start, (i - 1) as nat, n) + level_node(
            t,
            level,
            cs,
            start,
            (i - 1) as nat,
            n,
        )
    }
}

/// The nodes of a level as children of the next one.
pub open spec fn level_children(t: TreeShape, cs: Seq<ChildView>, start: nat) -> Seq<ChildView> {
    Seq::new(
        node_count(t, cs.len()),
        |i: int|
            {
                let part = node_children(t, cs, i as nat);
                ChildView {
                    first: part.first().first,
                    addr: node_addr(t, start, i as nat),
                    last: part.last().last,
                }
            },
    )
}

/// An image with a tree over some children behind it, level by level, and the address
/// of its root.
pub open spec fn tree_written(s: Seq<u8>, t: TreeShape, level: nat, cs: Seq<ChildView>) -> Result<
    (Seq<u8>, u64),
    Seq<char>,
>
    decreases cs.len(),
{
    let n = node_count(t, cs.len());
    let start = padded(s).len();
    if start + n * t.node_size() > u64::MAX {
        Err("file image too large"@)
    } else {
        let s1 = padded(s) + level_nodes(t, level, cs, start, n, n);
        if n <= 1 || n >= cs.len() {
            Ok((s1, start as u64))
        } else {
            tree_written(s1, t, level + 1, level_children(t, cs, start))
        }
    }
}

/// The executable form of a [`TreeShape`].
pub struct TreeForm {
    pub kind: u8,
    pub key: usize,
    pub cap: usize,
    pub empty: Vec<u8>,
}

impl View for TreeForm {
    type V = TreeShape;

    open spec fn view(&self) -> TreeShape {
        TreeShape {
            kind: self.kind,
            key: self.key as nat,
            cap: self.cap as nat,
            empty: self.empty@,
        }
    }
}

impl TreeForm {
    /// Whether a node has a sensible size.
    pub open spec fn wf(&self) -> bool {
        2 <= self.cap <= 64 && self.key <= 4096
    }

    fn node_size(&self) -> (r: usize)
        requires
            self.wf(),
        ensures
            r == self@.node_size(),
            r <= 300000,
    {
        assert(self.cap * (self.key + 8) <= 64 * 4104) by (nonlinear_arith)
            requires
                self.cap <= 64,
                self.key <= 4096,
        ;
        24 + self.cap * (self.key + 8) + self.key
    }
}

/// Writes the children from `from` up to `to` of a node.
fn push_children(b: &mut Buf, cs: &Vec<Child>, from: usize, to: usize)
    requires
        from <= to <= cs@.len(),
    ensures
        final(b)@ == old(b)@ + child_messages(
            child_views(cs@).subrange(from as int, to as int),
        ),
{
    let ghost part = child_views(cs@).subrange(from as int, to as int);
    let ghost start = b@;
    let mut i: usize = from;
    assert(part.take(0) =~= Seq::empty());
    assert(start + child_messages(part.take(0)) =~= start);
    while i < to
        invariant
            from <= i <= to <= cs@.len(),
            part == child_views(cs@).subrange(from as int, to as int),
            b@ == start + child_messages(part.take(i - from)),
        decreases to - i,
    {
        b.raw(cs[i].first.as_slice());
        b.u64(cs[i].addr);
        proof {
            assert(part.take(i + 1 - from).drop_last() =~= part.take(i - from));
            assert(part.take(i + 1 - from).last() == cs@[i as int]@);
            assert(b@ =~= start + child_messages(part.take(i + 1 - from)));
        }
        i += 1;
    }
    assert(part.take(to - from) =~= part);
}

/// Writes one node behind an image.
fn push_node(
    buf: &mut Vec<u8>,
    t: &TreeForm,
    level: u64,
    left: u64,
    right: u64,
    cs: &Vec<Child>,
    from: usize,
    to: usize,
)
    requires
        t.wf(),
        from <= to <= cs@.len(),
    ensures
        final(buf)@ == old(buf)@ + node_message(
            t@,
            level as nat,
            left,
            right,
            child_views(cs@).subrange(from as int, to as int),
        ),
{
    let ghost part = child_views(cs@).subrange(from as int, to as int);
    let mut b = Buf::new();
    b.u8(84);
    b.u8(82);
    b.u8(69);
    b.u8(69);
    b.u8(t.kind);
    push_le(&mut b.bytes, level, 1);
    push_le(&mut b.bytes, (to - from) as u64, 2);
    b.u64(left);
    b.u64(right);
    push_children(&mut b, cs, from, to);
    if from == to {
        b.raw(t.empty.as_slice());
    } else {
        b.raw(cs[to - 1].last.as_slice());
        assert(part.last() == cs@[to - 1]@);
    }
    assert(b@ =~= seq![84u8, 82u8, 69u8, 69u8, t@.kind] + le_bytes(level as nat, 1) + le_bytes(
        part.len(),
        2,
    ) + le_bytes(left as nat, 8) + le_bytes(right as nat, 8) + child_messages(part) + (
    if part.len() == 0 {
        t@.empty
    } else {
        part.last().last
    }));
    let size: usize = t.node_size();
    fill_to(&mut b, size);
    buf.extend_from_slice(b.bytes.as_slice());
}

pub proof fn lemma_node_range(n: nat, cap: nat, i: nat)
    requires
        2 <= cap,
        i < (if n == 0 {
            1
        } else {
            ((n - 1) as nat / cap + 1) as nat
        }),
    ensures
        i * cap <= n,
        n > 0 ==> i * cap < n,
{
    if n > 0 {
        assert(i * cap <= (n - 1) as nat / cap * cap) by (nonlinear_arith)
            requires
                i <= (n - 1) as nat / cap,
        ;
        assert((n - 1) as nat / cap * cap <= n - 1) by (nonlinear_arith)
            requires
                n >= 1,
                cap >= 2,
        ;
    } else {
        assert(i == 0);
    }
}

fn copy_key(v: &Vec<u8>) -> (r: Vec<u8>)
    ensures
        r@ == v@,
{
    let mut out: Vec<u8> = Vec::new();
    out.extend_from_slice(v.as_slice());
    assert(out@ =~= v@);
    out
}

/// Writes a level of a tree, whose first node stands at `start`, behind an image, and
/// returns its nodes as children of the next one.
fn write_level(buf: &mut Vec<u8>, t: &TreeForm, level: u64, cs: &Vec<Child>, start: u64, n: usize)
    -> (r: Vec<Child>)
    requires
        t.wf(),
        n == node_count(t@, cs@.len()),
        start + n * t@.node_size() <= u64::MAX,
    ensures
        final(buf)@ == old(buf)@ + level_nodes(
            t@,
            level as nat,
            child_views(cs@),
            start as nat,
            n as nat,
            n as nat,
        ),
        cs@.len() > 0 ==> child_views(r@) == level_children(t@, child_views(cs@), start as nat),
{
    let ghost views = child_views(cs@);
    let ghost before = buf@;
    let size: u64 = t.node_size() as u64;
    let mut out: Vec<Child> = Vec::new();
    let mut i: usize = 0;
    let mut addr: u64 = start;
    let count: usize = cs.len();
    assert(before + level_nodes(t@, level as nat, views, start as nat, 0, n as nat) =~= before);
    while i < n
        invariant
            t.wf(),
            i <= n,
            n == node_count(t@, cs@.len()),
            count == cs@.len(),
            views == child_views(cs@),
            size == t@.node_size(),
            size <= 300000,
            addr == start + i * size,
            start + n * t@.node_size() <= u64::MAX,
            buf@ == before + level_nodes(
                t@,
                level as nat,
                views,
                start as nat,
                i as nat,
                n as nat,
            ),
            cs@.len() > 0 ==> out@.len() == i,
            cs@.len() > 0 ==> forall|j: int|
                0 <= j < i ==> (#[trigger] out@[j])@ == level_children(t@, views, start as nat)[j],
        decreases n - i,
    {
        proof {
            lemma_node_range(cs@.len(), t@.cap, i as nat);
            assert(0 <= i * t.cap <= cs@.len());
            assert((i + 1) * size <= n * size) by (nonlinear_arith)
                requires
                    i + 1 <= n,
            ;
            assert((i + 1) * size == i * size + size) by (nonlinear_arith);
            if i > 0 {
                assert((i - 1) * size == i * size - size) by (nonlinear_arith);
            }
        }
        let from: usize = i * t.cap;
        let to: usize = if cs.len() - from > t.cap {
            from + t.cap
        } else {
            cs.len()
        };
        let left: u64 = if i == 0 {
            UNDEF
        } else {
            addr - size
        };
        let right: u64 = if i + 1 >= n {
            UNDEF
        } else {
            addr + size
        };
        push_node(buf, t, level, left, right, cs, from, to);
        proof {
            assert(views.subrange(from as int, to as int) == node_children(t@, views, i as nat));
            assert(buf@ =~= before + level_nodes(
                t@,
                level as nat,
                views,
                start as nat,
                (i + 1) as nat,
                n as nat,
            ));
        }
        if from < to {
            let c = Child {
                first: copy_key(&cs[from].first),
                addr,
                last: copy_key(&cs[to - 1].last),
            };
            let ghost part = node_children(t@, views, i as nat);
            assert(part.first() == cs@[from as int]@);
            assert(part.last() == cs@[to - 1]@);
            assert(c@ == level_children(t@, views, start as nat)[i as int]);
            out.push(c);
        }
        addr = addr + size;
        i += 1;
    }
    proof {
        if cs@.len() > 0 {
            assert(child_views(out@) =~= level_children(t@, views, start as nat));
        }
    }
    out
}

pub proof fn lemma_count_shrinks(t: TreeShape, n: nat)
    requires
        t.cap >= 2,
        n >= 1,
    ensures
        node_count(t, n) <= n,
        node_count(t, n) > 1 ==> node_count(t, n) < n,
        2 * node_count(t, n) <= n + 1,
{
    assert((n - 1) as nat / t.cap <= (n - 1) as nat / 2) by (nonlinear_arith)
        requires
            t.cap >= 2,
            n >= 1,
    ;
}

/// Writes a tree over children, level by level from `level` on, and returns the address
/// of its root.
fn write_tree(buf: &mut Vec<u8>, t: &TreeForm, cs: &Vec<Child>, level: u64) -> (r: Result<
    u64,
    Error,
>)
    requires
        t.wf(),
        level + cs@.len() <= u64::MAX,
    ensures
        written_as(r, final(buf)@, tree_written(old(buf)@, t@, level as nat, child_views(cs@))),
        r is Ok ==> extends(final(buf)@, old(buf)@),
    decreases cs@.len(),
{
    let ghost s = buf@;
    let n: usize = if cs.len() == 0 {
        1
    } else {
        (cs.len() - 1) / t.cap + 1
    };
    let size: usize = t.node_size();
    pad_image(buf);
    let start: u64 = buf.len() as u64;
    proof {
        assert(n * size <= usize::MAX * 300000) by (nonlinear_arith)
            requires
                n <= usize::MAX,
                size <= 300000,
        ;
    }
    let need: u128 = start as u128 + n as u128 * size as u128;
    if need > u64::MAX as u128 {
        return Err(Error::new("file image too large"));
    }
    let next: Vec<Child> = write_level(buf, t, level, cs, start, n);
    proof {
        if cs@.len() > 0 {
            lemma_count_shrinks(t@, cs@.len());
        }
        assert(buf@.take(s.len() as int) =~= s);
    }
    let ghost mid = buf@;
    if n <= 1 {
        assert(buf@ == padded(s) + level_nodes(
            t@,
            level as nat,
            child_views(cs@),
            start as nat,
            n as nat,
            n as nat,
        ));
        return Ok(start);
    }
    assert(child_views(next@).len() == next@.len());
    assert(level_children(t@, child_views(cs@), start as nat).len() == n);
    let r = write_tree(buf, t, &next, level + 1);
    proof {
        if r is Ok {
            lemma_extends(s, mid, buf@);
        }
    }
    r
}

/// Writes a B-tree over children and returns the address of its root.
pub fn write_btree(buf: &mut Vec<u8>, t: &TreeForm, cs: &Vec<Child>) -> (r: Result<u64, Error>)
    requires
        t.wf(),
    ensures
        written_as(r, final(buf)@, tree_written(old(buf)@, t@, 0, child_views(cs@))),
        r is Ok ==> extends(final(buf)@, old(buf)@),
{
    let n: usize = cs.len();
    write_tree(buf, t, cs, 0)
}

} // verus!
