//! The global heap, and the variable-length elements that refer to it.

use vstd::prelude::*;

use crate::error::Error;
use crate::format::convert::{
    disk_size, lemma_payloads_push, model_slot, payloads, place, slot, VlenStore,
};
use crate::format::{dropped, le_at, patched, taken_bytes, taken_uint, uint_of, Cursor, UNDEF};
use crate::types::{
    field_views, lemma_field_views, lemma_fields_sized, CompoundField, FieldView, TypeDescriptor,
    TypeView,
};

verus! {

/// What stands at a place of a file image, up to the end of the image.
pub open spec fn rest_at(data: Seq<u8>, pos: int) -> Seq<u8> {
    if 0 <= pos <= data.len() {
        data.skip(pos)
    } else {
        Seq::empty()
    }
}

/// A reader at an address that is relative to `base`. An address beyond the image
/// leaves nothing to read.
pub fn cursor_at<'a>(data: &'a [u8], base: u64, addr: u64) -> (r: Cursor<'a>)
    ensures
        r.data@ == data@,
        r.rest() == rest_at(data@, base + addr),
{
    let n: usize = data.len();
    let place: u128 = base as u128 + addr as u128;
    let pos: usize = if place <= n as u128 {
        place as usize
    } else {
        n
    };
    let c = Cursor::at(data, pos);
    assert(c.rest() =~= rest_at(data@, base + addr));
    c
}

/// The bytes that pad `n` to a multiple of 8.
pub open spec fn pad8(n: int) -> int {
    (8 - n % 8) % 8
}

/// An item of a collection.
#[derive(Debug)]
pub struct HeapItem {
    pub index: u64,
    pub bytes: Vec<u8>,
}

/// The view of a [`HeapItem`].
pub struct ItemView {
    pub index: nat,
    pub bytes: Seq<u8>,
}

/// The views of items.
pub open spec fn item_views(v: Seq<HeapItem>) -> Seq<ItemView> {
    v.map_values(|i: HeapItem| ItemView { index: i.index as nat, bytes: i.bytes@ })
}

/// The items in the last `left` bytes of a collection, behind `acc`. A free-space
/// item ends the list.
pub open spec fn items_taken(s: Seq<u8>, left: int, acc: Seq<ItemView>) -> Result<
    Seq<ItemView>,
    Seq<char>,
>
    decreases s.len(),
{
    if left < 16 {
        Ok(acc)
    } else {
        match taken_bytes(s, 16) {
            Err(e) => Err(e),
            Ok((head, r)) => {
                let index = le_at(head, 0, 2);
                let size = le_at(head, 8, 8);
                if index == 0 {
                    Ok(acc)
                } else {
                    match taken_bytes(r, size) {
                        Err(e) => Err(e),
                        Ok((bytes, r2)) => {
                            let pad = pad8(size as int);
                            items_taken(
                                dropped(r2, pad),
                                left - 16 - size - pad,
                                acc.push(ItemView { index, bytes }),
                            )
                        },
                    }
                }
            },
        }
    }
}

/// The items of the collection that starts with `s`.
pub open spec fn collection_parsed(s: Seq<u8>) -> Result<Seq<ItemView>, Seq<char>> {
    match taken_bytes(s, 4) {
        Err(e) => Err(e),
        Ok((sig, r)) => if sig != gcol_signature() {
            Err("bad GCOL signature"@)
        } else {
            match taken_uint(r, 1) {
                Err(e) => Err(e),
                Ok((version, r2)) => match taken_uint(dropped(r2, 3), 8) {
                    Err(e) => Err(e),
                    Ok((size, r3)) => items_taken(r3, size - 16, Seq::empty()),
                },
            }
        },
    }
}

pub open spec fn gcol_signature() -> Seq<u8> {
    seq![71u8, 67u8, 79u8, 76u8]
}

/// The last item of an index; none is empty.
pub open spec fn item_bytes(items: Seq<ItemView>, index: nat) -> Seq<u8>
    decreases items.len(),
{
    if items.len() == 0 {
        Seq::empty()
    } else if items.last().index == index {
        items.last().bytes
    } else {
        item_bytes(items.drop_last(), index)
    }
}

/// The object `idx` of the collection at `addr`.
pub open spec fn heap_object(data: Seq<u8>, base: u64, addr: u64, idx: u64) -> Result<
    Seq<u8>,
    Seq<char>,
> {
    match collection_parsed(rest_at(data, base + addr)) {
        Err(e) => Err(e),
        Ok(items) => Ok(item_bytes(items, idx as nat)),
    }
}

/// Whether bytes are the given four.
pub(crate) fn is_signature(s: &[u8], a: u8, b: u8, c: u8, d: u8) -> (r: bool)
    requires
        s@.len() == 4,
    ensures
        r == (s@ == seq![a, b, c, d]),
{
    let r: bool = s[0] == a && s[1] == b && s[2] == c && s[3] == d;
    assert(r == (s@ =~= seq![a, b, c, d]));
    r
}

fn parse_items(c: &mut Cursor, start: i128) -> (r: Result<Vec<HeapItem>, Error>)
    requires
        start <= 0x1_0000_0000_0000_0000,
    ensures
        match (r, items_taken(old(c).rest(), start as int, Seq::empty())) {
            (Ok(v), Ok(w)) => item_views(v@) == w,
            (Err(e), Err(m)) => e@ == m,
            _ => false,
        },
{
    let ghost whole = items_taken(c.rest(), start as int, Seq::empty());
    let mut out: Vec<HeapItem> = Vec::new();
    let mut left: i128 = start;
    assert(item_views(out@) =~= Seq::empty());
    while left >= 16
        invariant
            left <= 0x1_0000_0000_0000_0000,
            whole == items_taken(c.rest(), left as int, item_views(out@)),
            whole == items_taken(old(c).rest(), start as int, Seq::empty()),
        decreases c.rest().len(),
    {
        let ghost s = c.rest();
        let head = c.next_bytes(16)?;
        let index: u64 = uint_of(vstd::slice::slice_subrange(head, 0, 2));
        let size: u64 = uint_of(vstd::slice::slice_subrange(head, 8, 16));
        if index == 0 {
            return Ok(out);
        }
        let total: usize = c.data.len();
        if size > total as u64 {
            return Err(Error::new("unexpected end of file"));
        }
        let bytes = c.next_bytes(size as usize)?;
        let pad: u64 = (8 - size % 8) % 8;
        c.pass(pad as usize);
        let ghost before = out@;
        let item = HeapItem { index, bytes: vstd::slice::slice_to_vec(bytes) };
        out.push(item);
        assert(item_views(out@) =~= item_views(before).push(
            ItemView { index: index as nat, bytes: bytes@ },
        ));
        left = left - 16 - size as i128 - pad as i128;
    }
    Ok(out)
}

/// Reads the collection at an address.
pub fn parse_gheap_collection(data: &[u8], base: u64, addr: u64) -> (r: Result<
    Vec<HeapItem>,
    Error,
>)
    ensures
        match (r, collection_parsed(rest_at(data@, base + addr))) {
            (Ok(v), Ok(w)) => item_views(v@) == w,
            (Err(e), Err(m)) => e@ == m,
            _ => false,
        },
{
    let mut c = cursor_at(data, base, addr);
    let sig = c.next_bytes(4)?;
    if !is_signature(sig, 71, 67, 79, 76) {
        return Err(Error::new("bad GCOL signature"));
    }
    let _version: u64 = c.next_uint(1)?;
    c.pass(3);
    let size: u64 = c.next_uint(8)?;
    parse_items(&mut c, size as i128 - 16)
}

/// A file image with the collection that was read last.
pub struct GlobalHeap<'a> {
    pub data: &'a [u8],
    pub base: u64,
    pub cache: Option<(u64, Vec<HeapItem>)>,
}

impl<'a> GlobalHeap<'a> {
    /// Whether what is kept is what the image holds.
    pub open spec fn wf(self) -> bool {
        match self.cache {
            None => true,
            Some((addr, items)) => collection_parsed(rest_at(self.data@, self.base + addr)) == Ok::<
                Seq<ItemView>,
                Seq<char>,
            >(item_views(items@)),
        }
    }

    pub fn new(data: &'a [u8], base: u64) -> (r: Self)
        ensures
            r.wf(),
            r.data@ == data@,
            r.base == base,
    {
        GlobalHeap { data, base, cache: None }
    }

    /// Reads the object `idx` of the collection at `addr`.
    pub fn read_gheap_object(&mut self, addr: u64, idx: u32) -> (r: Result<Vec<u8>, Error>)
        requires
            old(self).wf(),
        ensures
            final(self).wf(),
            final(self).data@ == old(self).data@,
            final(self).base == old(self).base,
            crate::error::same_bytes(
                r,
                heap_object(old(self).data@, old(self).base, addr, idx as u64),
            ),
    {
        if let Some((kept, items)) = &self.cache {
            if *kept == addr {
                return Ok(find_item(items, idx as u64));
            }
        }
        let items = parse_gheap_collection(self.data, self.base, addr)?;
        let bytes = find_item(&items, idx as u64);
        self.cache = Some((addr, items));
        Ok(bytes)
    }
}

fn find_item(items: &Vec<HeapItem>, index: u64) -> (r: Vec<u8>)
    ensures
        r@ == item_bytes(item_views(items@), index as nat),
{
    let ghost views = item_views(items@);
    let mut i: usize = items.len();
    assert(views.take(i as int) =~= views);
    while i > 0
        invariant
            i <= items@.len(),
            views == item_views(items@),
            item_bytes(views, index as nat) == item_bytes(views.take(i as int), index as nat),
        decreases i,
    {
        i -= 1;
        proof {
            assert(views.take(i + 1).drop_last() =~= views.take(i as int));
            assert(views.take(i + 1).last() == views[i as int]);
        }
        if items[i].index == index {
            return vstd::slice::slice_to_vec(items[i].bytes.as_slice());
        }
    }
    Vec::new()
}

/// An element and its side store.
pub type Loaded = Result<(Seq<u8>, Seq<Seq<u8>>), Seq<char>>;

/// The payload that a heap reference stands for.
pub open spec fn reference_bytes(data: Seq<u8>, base: u64, elem: Seq<u8>) -> Result<
    Seq<u8>,
    Seq<char>,
> {
    let addr = le_at(elem, 4, 8) as u64;
    let idx = le_at(elem, 12, 4) as u64;
    if addr == 0 || addr == UNDEF || idx == 0 {
        Ok(Seq::empty())
    } else {
        heap_object(data, base, addr, idx)
    }
}

/// An element with its heap references turned into slots for the payloads that are
/// appended to `store`.
pub open spec fn vlen_loaded(
    data: Seq<u8>,
    base: u64,
    t: TypeView,
    elem: Seq<u8>,
    store: Seq<Seq<u8>>,
) -> Loaded
    decreases t, 0nat,
{
    if t is VarLenAscii || t is VarLenUnicode || t is VarLenArray {
        let len = le_at(elem, 0, 4);
        match reference_bytes(data, base, elem) {
            Err(e) => Err(e),
            Ok(bytes) => if bytes.len() == 0 && len == 0 {
                Ok((slot(len, 0), store))
            } else {
                Ok((slot(len, store.len() + 1), store.push(bytes)))
            },
        }
    } else {
        match t {
            TypeView::Compound { fields, size } => vlen_fields_loaded(
                data,
                base,
                fields,
                0,
                elem,
                store,
            ),
            TypeView::FixedArray(b, n) => vlen_cells_loaded(data, base, *b, n, elem, store),
            _ => Ok((elem, store)),
        }
    }
}

/// The same for the fields `fields[j]` on of a compound, as far as they lie within
/// it.
pub open spec fn vlen_fields_loaded(
    data: Seq<u8>,
    base: u64,
    fields: Seq<FieldView>,
    j: int,
    elem: Seq<u8>,
    store: Seq<Seq<u8>>,
) -> Loaded
    decreases fields, (fields.len() - j) as nat,
{
    if j < 0 || j >= fields.len() {
        Ok((elem, store))
    } else {
        let from = fields[j].offset as int;
        let size = fields[j].ty.disk_size() as int;
        if from + size <= elem.len() {
            match vlen_loaded(
                data,
                base,
                fields[j].ty,
                elem.subrange(from, from + size),
                store,
            ) {
                Err(e) => Err(e),
                Ok((part, after)) => vlen_fields_loaded(
                    data,
                    base,
                    fields,
                    j + 1,
                    patched(elem, from, part),
                    after,
                ),
            }
        } else {
            vlen_fields_loaded(data, base, fields, j + 1, elem, store)
        }
    }
}

/// The same for the first `n` elements of an array.
pub open spec fn vlen_cells_loaded(
    data: Seq<u8>,
    base: u64,
    b: TypeView,
    n: nat,
    elem: Seq<u8>,
    store: Seq<Seq<u8>>,
) -> Loaded
    decreases b, n + 1,
{
    if n == 0 {
        Ok((elem, store))
    } else {
        let size = b.disk_size() as int;
        match vlen_loaded(data, base, b, elem.take(size), store) {
            Err(e) => Err(e),
            Ok((cell, after)) => match vlen_cells_loaded(
                data,
                base,
                b,
                (n - 1) as nat,
                elem.skip(size),
                after,
            ) {
                Err(e) => Err(e),
                Ok((rest, last)) => Ok((cell + rest, last)),
            },
        }
    }
}

/// Whether loading came out as `s` says, with the store `after`.
pub open spec fn loaded_as(r: Result<Vec<u8>, Error>, after: Seq<Seq<u8>>, s: Loaded) -> bool {
    match (r, s) {
        (Ok(v), Ok((w, st))) => v@ == w && after == st,
        (Err(e), Err(m)) => e@ == m,
        _ => false,
    }
}

fn load_reference(heap: &mut GlobalHeap, elem: &Vec<u8>, store: &mut VlenStore) -> (r: Result<
    Vec<u8>,
    Error,
>)
    requires
        old(heap).wf(),
        elem@.len() == 16,
    ensures
        final(heap).wf(),
        final(heap).data@ == old(heap).data@,
        final(heap).base == old(heap).base,
        loaded_as(
            r,
            payloads(final(store)@),
            vlen_loaded(
                old(heap).data@,
                old(heap).base,
                TypeView::VarLenAscii,
                elem@,
                payloads(old(store)@),
            ),
        ),
        r matches Ok(v) ==> v@.len() == 16,
{
    let s = elem.as_slice();
    let len: u64 = uint_of(vstd::slice::slice_subrange(s, 0, 4));
    let addr: u64 = uint_of(vstd::slice::slice_subrange(s, 4, 12));
    let idx: u64 = uint_of(vstd::slice::slice_subrange(s, 12, 16));
    proof {
        crate::format::lemma_le_bound(elem@.subrange(12, 16));
        reveal_with_fuel(crate::format::pow256, 5);
    }
    let bytes: Vec<u8> = if addr == 0 || addr == UNDEF || idx == 0 {
        Vec::new()
    } else {
        heap.read_gheap_object(addr, idx as u32)?
    };
    if bytes.len() == 0 && len == 0 {
        return Ok(model_slot(len, 0));
    }
    proof {
        lemma_payloads_push(store@, bytes);
    }
    store.push(bytes);
    let id: usize = store.len();
    Ok(model_slot(len, id as u64))
}

fn load_fields(
    heap: &mut GlobalHeap,
    fields: &Vec<CompoundField>,
    elem: Vec<u8>,
    store: &mut VlenStore,
) -> (r: Result<Vec<u8>, Error>)
    requires
        old(heap).wf(),
        crate::types::fields_sized(field_views(fields@)),
    ensures
        final(heap).wf(),
        final(heap).data@ == old(heap).data@,
        final(heap).base == old(heap).base,
        loaded_as(
            r,
            payloads(final(store)@),
            vlen_fields_loaded(
                old(heap).data@,
                old(heap).base,
                field_views(fields@),
                0,
                elem@,
                payloads(old(store)@),
            ),
        ),
        r matches Ok(v) ==> v@.len() == elem@.len(),
    decreases fields@, 1nat,
{
    let ghost views = field_views(fields@);
    proof {
        lemma_field_views(fields@);
    }
    let ghost whole = vlen_fields_loaded(heap.data@, heap.base, views, 0, elem@, payloads(store@));
    let n: usize = fields.len();
    let total: usize = elem.len();
    let mut cur: Vec<u8> = elem;
    let mut j: usize = 0;
    while j < n
        invariant
            j <= n == fields@.len() == views.len(),
            views == field_views(fields@),
            crate::types::fields_sized(views),
            forall|k: int| 0 <= k < n ==> #[trigger] views[k] == fields@[k].model(),
            heap.wf(),
            heap.data@ == old(heap).data@,
            heap.base == old(heap).base,
            cur@.len() == total == elem@.len(),
            whole == vlen_fields_loaded(
                old(heap).data@,
                old(heap).base,
                views,
                0,
                elem@,
                payloads(old(store)@),
            ),
            whole == vlen_fields_loaded(
                heap.data@,
                heap.base,
                views,
                j as int,
                cur@,
                payloads(store@),
            ),
        decreases n - j,
    {
        let f = &fields[j];
        proof {
            assert(views[j as int] == f.model());
            lemma_fields_sized(views, j as int);
        }
        let size: usize = disk_size(&f.ty);
        if f.offset <= total && size <= total - f.offset {
            let part = vstd::slice::slice_to_vec(
                vstd::slice::slice_subrange(cur.as_slice(), f.offset, f.offset + size),
            );
            proof {
                assert(decreases_to!(fields@ => fields@[j as int]));
                assert(decreases_to!(fields@[j as int] => fields@[j as int].ty));
            }
            let loaded = load_vlen_elem(heap, &f.ty, part, store)?;
            cur = place(&cur, f.offset, &loaded);
        }
        j += 1;
    }
    Ok(cur)
}

/// What loading the elements before gives together with what the rest gives.
spec fn followed(out: Seq<u8>, s: Loaded) -> Loaded {
    match s {
        Err(e) => Err(e),
        Ok((rest, last)) => Ok((out + rest, last)),
    }
}

pub(crate) fn load_cells(
    heap: &mut GlobalHeap,
    b: &TypeDescriptor,
    n: usize,
    elem: Vec<u8>,
    store: &mut VlenStore,
) -> (r: Result<Vec<u8>, Error>)
    requires
        old(heap).wf(),
        b@.sized(),
        elem@.len() == b@.disk_size() * n,
    ensures
        final(heap).wf(),
        final(heap).data@ == old(heap).data@,
        final(heap).base == old(heap).base,
        loaded_as(
            r,
            payloads(final(store)@),
            vlen_cells_loaded(
                old(heap).data@,
                old(heap).base,
                b@,
                n as nat,
                elem@,
                payloads(old(store)@),
            ),
        ),
        r matches Ok(v) ==> v@.len() == elem@.len(),
    decreases b, 1nat,
{
    let size: usize = disk_size(b);
    let total: usize = elem.len();
    let ghost whole = vlen_cells_loaded(
        heap.data@,
        heap.base,
        b@,
        n as nat,
        elem@,
        payloads(store@),
    );
    let mut out: Vec<u8> = Vec::new();
    let mut i: usize = 0;
    assert(elem@.skip(0) =~= elem@);
    assert(size * 0 == 0) by (nonlinear_arith);
    assert(followed(out@, whole) == whole) by {
        if let Ok((rest, last)) = whole {
            assert(out@ + rest =~= rest);
        }
    }
    while i < n
        invariant
            i <= n,
            b@.sized(),
            size == b@.disk_size(),
            total == elem@.len() == size * n,
            out@.len() == size * i,
            heap.wf(),
            heap.data@ == old(heap).data@,
            heap.base == old(heap).base,
            whole == vlen_cells_loaded(
                old(heap).data@,
                old(heap).base,
                b@,
                n as nat,
                elem@,
                payloads(old(store)@),
            ),
            whole == followed(
                out@,
                vlen_cells_loaded(
                    heap.data@,
                    heap.base,
                    b@,
                    (n - i) as nat,
                    elem@.skip(out@.len() as int),
                    payloads(store@),
                ),
            ),
        decreases n - i,
    {
        let at: usize = out.len();
        proof {
            assert(size * i + size <= size * n && size * (i + 1) == size * i + size)
                by (nonlinear_arith)
                requires
                    i + 1 <= n,
                    size >= 0,
            ;
        }
        let part = vstd::slice::slice_to_vec(
            vstd::slice::slice_subrange(elem.as_slice(), at, at + size),
        );
        let ghost rest = elem@.skip(at as int);
        proof {
            assert(part@ =~= rest.take(size as int));
            assert(rest.skip(size as int) =~= elem@.skip(at + size));
        }
        let ghost before = out@;
        let mut cell = load_vlen_elem(heap, b, part, store)?;
        let ghost c = cell@;
        out.append(&mut cell);
        i += 1;
        proof {
            let tail = vlen_cells_loaded(
                heap.data@,
                heap.base,
                b@,
                (n - i) as nat,
                elem@.skip(out@.len() as int),
                payloads(store@),
            );
            if let Ok((r2, last)) = tail {
                assert(before + (c + r2) =~= (before + c) + r2);
            }
        }
    }
    assert(elem@.skip(out@.len() as int) =~= Seq::empty());
    assert(out@ + Seq::<u8>::empty() =~= out@);
    Ok(out)
}

/// Turns the heap references of an element into slots for payloads that are appended
/// to `store`.
pub fn load_vlen_elem(
    heap: &mut GlobalHeap,
    dtype: &TypeDescriptor,
    elem: Vec<u8>,
    store: &mut VlenStore,
) -> (r: Result<Vec<u8>, Error>)
    requires
        old(heap).wf(),
        dtype@.sized(),
        elem@.len() == dtype@.disk_size(),
    ensures
        final(heap).wf(),
        final(heap).data@ == old(heap).data@,
        final(heap).base == old(heap).base,
        loaded_as(
            r,
            payloads(final(store)@),
            vlen_loaded(
                old(heap).data@,
                old(heap).base,
                dtype@,
                elem@,
                payloads(old(store)@),
            ),
        ),
        r matches Ok(v) ==> v@.len() == elem@.len(),
    decreases dtype, 0nat,
{
    match dtype {
        TypeDescriptor::VarLenAscii | TypeDescriptor::VarLenUnicode => {
            load_reference(heap, &elem, store)
        },
        TypeDescriptor::VarLenArray(b) => load_reference(heap, &elem, store),
        TypeDescriptor::Compound(c) => {
            assert(decreases_to!(dtype => c.fields@)) by {
                assert(decreases_to!(c.fields => c.fields@));
                assert(decreases_to!(*c => c.fields));
                assert(decreases_to!(*dtype => dtype->Compound_0));
            }
            load_fields(heap, &c.fields, elem, store)
        },
        TypeDescriptor::FixedArray(b, n) => load_cells(heap, b, *n, elem, store),
        _ => Ok(elem),
    }
}

} // verus!
