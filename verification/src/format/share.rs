//! Shared messages: bodies that several headers refer to are written once, in a heap.

use vstd::prelude::*;

use crate::error::Error;
use crate::format::attr_write::{
    bare, by_hash, lemma_by_hash_sized, records_sized, HashList,
};
use crate::format::checksum::{checksum, lookup3};
use crate::format::dense::{
    concat, heap_written, overwrite, push_all, push_sum, same_size, summed, views_of,
    write_fractal_heap,
};
use crate::format::header::MSG_SHMESG_TABLE;
use crate::format::header_write::{
    header_written, out_views, patch_views, patches_fit, plain, plain_message, write_object_header,
    OutMessage, OutView, Patch, PatchView,
};
use crate::format::tree::{
    append, appended, end_of, extends, fill_to, filled_to, lemma_appended, lemma_extends,
};
use crate::format::{le_bytes, lemma_le_bytes_len, patched, push_le, Buf, UNDEF};

verus! {

/// The bodies that are shared under one index.
#[verifier::ext_equal]
pub struct StoreView {
    pub flags: u16,
    pub min_size: u32,
    pub objects: Seq<Seq<u8>>,
    /// How often each body is referred to.
    pub refs: Seq<u32>,
}

/// The bodies that are shared under one index.
pub struct SharedStore {
    pub flags: u16,
    pub min_size: u32,
    pub objects: Vec<Vec<u8>>,
    pub refs: Vec<u32>,
}

impl View for SharedStore {
    type V = StoreView;

    open spec fn view(&self) -> StoreView {
        StoreView {
            flags: self.flags,
            min_size: self.min_size,
            objects: views_of(self.objects@),
            refs: self.refs@,
        }
    }
}

/// The views of stores.
pub open spec fn store_views(v: Seq<SharedStore>) -> Seq<StoreView> {
    v.map_values(|s: SharedStore| s@)
}

/// Whether each body has a count.
pub open spec fn stores_wf(v: Seq<StoreView>) -> bool {
    forall|i: int| 0 <= i < v.len() ==> (#[trigger] v[i]).refs.len() == v[i].objects.len()
}

/// Stores without bodies.
pub open spec fn new_stores(indexes: Seq<(u16, u32)>) -> Seq<StoreView> {
    indexes.map_values(
        |x: (u16, u32)|
            StoreView { flags: x.0, min_size: x.1, objects: Seq::empty(), refs: Seq::empty() },
    )
}

/// Whether an index is for messages of a type.
pub open spec fn for_kind(flags: u16, kind: u16) -> bool {
    (flags >> (kind % 16)) % 2 == 1
}

/// The first index, from `i` on, for messages of a type with `len` bytes.
pub open spec fn store_for(v: Seq<StoreView>, kind: u16, len: nat, i: nat) -> Option<nat>
    decreases v.len() - i,
{
    if i >= v.len() {
        None
    } else if for_kind(v[i as int].flags, kind) && len >= v[i as int].min_size {
        Some(i)
    } else {
        store_for(v, kind, len, i + 1)
    }
}

/// The number of a body in a list, counted from `i` on; the length if it is not there.
pub open spec fn object_at(objects: Seq<Seq<u8>>, body: Seq<u8>, i: nat) -> nat
    decreases objects.len() - i,
{
    if i >= objects.len() || objects[i as int] == body {
        i
    } else {
        object_at(objects, body, i + 1)
    }
}

/// One more reference.
pub open spec fn one_more(n: u32) -> u32 {
    if n == u32::MAX {
        0
    } else {
        (n + 1) as u32
    }
}

/// A store with one more reference to a body, and the number of the body.
pub open spec fn store_added(s: StoreView, body: Seq<u8>) -> (StoreView, nat) {
    let at = object_at(s.objects, body, 0);
    if at < s.objects.len() {
        (StoreView { refs: s.refs.update(at as int, one_more(s.refs[at as int])), ..s }, at)
    } else {
        (StoreView { objects: s.objects.push(body), refs: s.refs.push(1), ..s }, at)
    }
}

/// A message, shared if an index is for it and it is not too large, and the stores with
/// its body.
pub open spec fn shared(v: Seq<StoreView>, kind: u16, body: Seq<u8>) -> (Seq<StoreView>, OutView) {
    match store_for(v, kind, body.len(), 0) {
        None => (v, plain_message(kind, body)),
        Some(ix) => if body.len() > 4096 {
            (v, plain_message(kind, body))
        } else {
            let (s, item) = store_added(v[ix as int], body);
            (
                v.update(ix as int, s),
                OutView {
                    kind,
                    flags: 2,
                    body: seq![3u8, 1u8] + le_bytes(ix, 4) + le_bytes(item, 4),
                    shared: Some((ix, item)),
                },
            )
        },
    }
}

/// Whether a place refers to a body that is there.
pub open spec fn patches_known(ps: Seq<PatchView>, v: Seq<StoreView>) -> bool {
    forall|i: int|
        0 <= i < ps.len() ==> (#[trigger] ps[i]).index < v.len() && ps[i].item
            < v[ps[i].index as int].objects.len()
}

/// Whether a message refers to a body that is there.
pub open spec fn message_known(m: OutView, v: Seq<StoreView>) -> bool {
    match m.shared {
        None => true,
        Some((ix, item)) => ix < v.len() && item < v[ix as int].objects.len() && m.body.len() == 10,
    }
}

/// Whether stores hold the bodies of other ones, under the same numbers.
pub open spec fn stores_grow(now: Seq<StoreView>, before: Seq<StoreView>) -> bool {
    &&& now.len() == before.len()
    &&& forall|i: int|
        0 <= i < now.len() ==> (#[trigger] now[i]).objects.len() >= before[i].objects.len()
}

proof fn lemma_object_at(objects: Seq<Seq<u8>>, body: Seq<u8>, i: nat)
    requires
        i <= objects.len(),
    ensures
        i <= object_at(objects, body, i) <= objects.len(),
    decreases objects.len() - i,
{
    if i < objects.len() && objects[i as int] != body {
        lemma_object_at(objects, body, i + 1);
    }
}

fn equal_bytes(a: &Vec<u8>, b: &Vec<u8>) -> (r: bool)
    ensures
        r == (a@ == b@),
{
    if a.len() != b.len() {
        return false;
    }
    let mut i: usize = 0;
    while i < a.len()
        invariant
            i <= a@.len() == b@.len(),
            forall|k: int| 0 <= k < i ==> a@[k] == b@[k],
        decreases a@.len() - i,
    {
        if a[i] != b[i] {
            assert(a@[i as int] != b@[i as int]);
            return false;
        }
        i += 1;
    }
    assert(a@ =~= b@);
    true
}

impl SharedStore {
    fn insert(&mut self, body: &Vec<u8>) -> (r: usize)
        requires
            old(self).refs@.len() == old(self).objects@.len(),
        ensures
            (final(self)@, r as nat) == store_added(old(self)@, body@),
            final(self).refs@.len() == final(self).objects@.len(),
            final(self).objects@.len() >= old(self).objects@.len(),
            r < final(self).objects@.len(),
    {
        let ghost views = views_of(self.objects@);
        let mut i: usize = 0;
        while i < self.objects.len()
            invariant
                i <= self.objects@.len(),
                self.refs@.len() == self.objects@.len(),
                *self == *old(self),
                views == views_of(self.objects@),
                object_at(views, body@, 0) == object_at(views, body@, i as nat),
            decreases self.objects@.len() - i,
        {
            assert(views[i as int] == self.objects@[i as int]@);
            if equal_bytes(&self.objects[i], body) {
                let n: u32 = self.refs[i];
                let next: u32 = if n == 0xffff_ffff {
                    0
                } else {
                    n + 1
                };
                self.refs.set(i, next);
                assert(self@ =~= store_added(old(self)@, body@).0);
                return i;
            }
            i += 1;
        }
        let mut copy: Vec<u8> = Vec::new();
        copy.extend_from_slice(body.as_slice());
        assert(copy@ =~= body@);
        self.objects.push(copy);
        self.refs.push(1);
        assert(self@.objects =~= views.push(body@));
        assert(self@ =~= store_added(old(self)@, body@).0);
        i
    }
}

/// Shares a message if an index is for it.
pub fn maybe_share(stores: &mut Vec<SharedStore>, kind: u16, body: Vec<u8>) -> (r: OutMessage)
    requires
        stores_wf(store_views(old(stores)@)),
    ensures
        (store_views(final(stores)@), r@) == shared(store_views(old(stores)@), kind, body@),
        stores_wf(store_views(final(stores)@)),
        stores_grow(store_views(final(stores)@), store_views(old(stores)@)),
        message_known(r@, store_views(final(stores)@)),
{
    let ghost views = store_views(stores@);
    let n: usize = body.len();
    let mut i: usize = 0;
    while i < stores.len()
        invariant
            i <= stores@.len(),
            n == body@.len(),
            views == store_views(stores@),
            *stores == *old(stores),
            stores_wf(views),
            store_for(views, kind, body@.len(), 0) == store_for(
                views,
                kind,
                body@.len(),
                i as nat,
            ),
        decreases stores@.len() - i,
    {
        assert(views[i as int] == stores@[i as int]@);
        let shift: u16 = kind % 16;
        if (stores[i].flags >> shift) % 2 == 1 && n as u64 >= stores[i].min_size as u64 {
            if n > 4096 {
                return plain(kind, body);
            }
            let item: usize = stores[i].insert(&body);
            let ghost now = store_views(stores@);
            let mut b = Buf::new();
            b.u8(3);
            b.u8(1);
            push_le(&mut b.bytes, i as u64, 4);
            push_le(&mut b.bytes, item as u64, 4);
            proof {
                lemma_le_bytes_len(i as nat, 4);
                lemma_le_bytes_len(item as nat, 4);
                assert(b@ =~= seq![3u8, 1u8] + le_bytes(i as nat, 4) + le_bytes(item as nat, 4));
                assert(now =~= views.update(i as int, stores@[i as int]@));
            }
            return OutMessage { kind, flags: 2, body: b.bytes, shared: Some((i, item)) };
        }
        i += 1;
    }
    plain(kind, body)
}

// Tables.

/// An image with a heap for each index behind it, the addresses of the heaps and the ids
/// of the bodies; an index without bodies has no heap.
pub open spec fn heaps_written(s: Seq<u8>, v: Seq<StoreView>) -> Result<
    (Seq<u8>, Seq<u64>, Seq<Seq<Seq<u8>>>),
    Seq<char>,
>
    decreases v.len(),
{
    if v.len() == 0 {
        Ok((s, Seq::empty(), Seq::empty()))
    } else {
        match heaps_written(s, v.drop_last()) {
            Err(e) => Err(e),
            Ok((s1, addrs, ids)) => if v.last().objects.len() == 0 {
                Ok((s1, addrs.push(UNDEF), ids.push(Seq::empty())))
            } else {
                match heap_written(s1, v.last().objects, 8, 40) {
                    Err(e) => Err(e),
                    Ok((s2, heap, own)) => Ok((s2, addrs.push(heap), ids.push(own))),
                }
            },
        }
    }
}

/// An image with the ids of shared messages in their places.
pub open spec fn ids_placed(s: Seq<u8>, ps: Seq<PatchView>, ids: Seq<Seq<Seq<u8>>>) -> Seq<u8>
    decreases ps.len(),
{
    if ps.len() == 0 {
        s
    } else {
        let p = ps.last();
        patched(
            ids_placed(s, ps.drop_last(), ids),
            p.pos as int,
            ids[p.index as int][p.item as int],
        )
    }
}

/// The records of an index with the hashes of the bodies.
pub open spec fn index_records(v: StoreView, ids: Seq<Seq<u8>>) -> Seq<(u32, Seq<u8>)> {
    Seq::new(
        v.objects.len(),
        |i: int|
            {
                let hash = lookup3(v.objects[i]);
                (
                    hash,
                    seq![0u8] + le_bytes(hash as nat, 4) + le_bytes(v.refs[i] as nat, 4) + ids[i],
                )
            },
    )
}

/// The larger of two numbers.
pub open spec fn larger(a: nat, b: nat) -> nat {
    if a < b {
        b
    } else {
        a
    }
}

/// The list of an index: its records in the order of their hashes, with room for 512.
pub open spec fn list_message(v: StoreView, ids: Seq<Seq<u8>>) -> Seq<u8> {
    filled_to(
        summed(seq![83u8, 77u8, 76u8, 73u8] + concat(bare(by_hash(index_records(v, ids))))),
        8 + larger(512, v.objects.len()) * 17,
    )
}

/// An image with the lists of the indexes behind it, and their addresses.
pub open spec fn lists_written(s: Seq<u8>, v: Seq<StoreView>, ids: Seq<Seq<Seq<u8>>>) -> (
    Seq<u8>,
    Seq<u64>,
)
    decreases v.len(),
{
    if v.len() == 0 {
        (s, Seq::empty())
    } else {
        let (s1, addrs) = lists_written(s, v.drop_last(), ids);
        (
            appended(s1, list_message(v.last(), ids[v.len() - 1])),
            addrs.push(end_of(s1)),
        )
    }
}

/// What the table says of an index.
pub open spec fn index_message(v: StoreView, list: u64, heap: u64) -> Seq<u8> {
    seq![0u8, 1u8] + le_bytes(v.flags as nat, 2) + le_bytes(v.min_size as nat, 4) + le_bytes(
        larger(512, v.objects.len() % 65536),
        2,
    ) + le_bytes(40, 2) + le_bytes(v.objects.len(), 2) + le_bytes(list as nat, 8) + le_bytes(
        heap as nat,
        8,
    )
}

/// What the table says of the first `n` indexes.
pub open spec fn index_messages(
    v: Seq<StoreView>,
    lists: Seq<u64>,
    heaps: Seq<u64>,
    n: nat,
) -> Seq<u8>
    decreases n,
{
    if n == 0 {
        Seq::empty()
    } else {
        index_messages(v, lists, heaps, (n - 1) as nat) + index_message(
            v[n - 1],
            lists[n - 1],
            heaps[n - 1],
        )
    }
}

/// The table of the indexes.
pub open spec fn table_message(v: Seq<StoreView>, lists: Seq<u64>, heaps: Seq<u64>) -> Seq<u8> {
    summed(seq![83u8, 77u8, 84u8, 66u8] + index_messages(v, lists, heaps, v.len()))
}


/// The message that says where the table is.
pub open spec fn table_place_message(table: u64, n: nat) -> Seq<u8> {
    seq![0u8] + le_bytes(table as nat, 8) + le_bytes(n, 1)
}

/// An image with the tables of shared messages behind it and their ids in place, and the
/// address of the header that says where they are; none where nothing is shared.
#[verifier::opaque]
pub open spec fn tables_written(s: Seq<u8>, v: Seq<StoreView>, ps: Seq<PatchView>) -> Result<
    (Seq<u8>, Option<u64>),
    Seq<char>,
> {
    if v.len() == 0 {
        Ok((s, None))
    } else {
        match heaps_written(s, v) {
            Err(e) => Err(e),
            Ok((s1, heaps, ids)) => {
                let (s2, lists) = lists_written(ids_placed(s1, ps, ids), v, ids);
                let s3 = appended(s2, table_message(v, lists, heaps));
                match header_written(
                    s3,
                    seq![plain_message(MSG_SHMESG_TABLE, table_place_message(end_of(s2), v.len()))],
                    false,
                ) {
                    Err(e) => Err(e),
                    Ok((s4, addr, _)) => Ok((s4, Some(addr))),
                }
            },
        }
    }
}

/// The views of lists of ids.
pub open spec fn id_views(v: Seq<Vec<Vec<u8>>>) -> Seq<Seq<Seq<u8>>> {
    v.map_values(|x: Vec<Vec<u8>>| views_of(x@))
}

/// Whether each body has an id of 8 bytes.
pub open spec fn ids_fit(ids: Seq<Seq<Seq<u8>>>, v: Seq<StoreView>) -> bool {
    &&& ids.len() == v.len()
    &&& forall|i: int|
        0 <= i < v.len() ==> (#[trigger] ids[i]).len() == v[i].objects.len() && same_size(ids[i], 8)
}

fn write_heaps(buf: &mut Vec<u8>, stores: &Vec<SharedStore>) -> (r: Result<
    (Vec<u64>, Vec<Vec<Vec<u8>>>),
    Error,
>)
    ensures
        match (r, heaps_written(old(buf)@, store_views(stores@))) {
            (Ok(x), Ok(y)) => {
                &&& final(buf)@ == y.0
                &&& x.0@ == y.1
                &&& id_views(x.1@) == y.2
                &&& x.0@.len() == stores@.len()
                &&& ids_fit(y.2, store_views(stores@))
                &&& extends(final(buf)@, old(buf)@)
            },
            (Err(e), Err(y)) => e@ == y,
            _ => false,
        },
{
    let ghost s = buf@;
    let ghost views = store_views(stores@);
    let mut addrs: Vec<u64> = Vec::new();
    let mut ids: Vec<Vec<Vec<u8>>> = Vec::new();
    let mut i: usize = 0;
    assert(views.take(0) =~= Seq::empty());
    assert(id_views(ids@) =~= Seq::empty());
    assert(s.take(s.len() as int) =~= s);
    while i < stores.len()
        invariant
            i <= stores@.len(),
            views == store_views(stores@),
            s == old(buf)@,
            addrs@.len() == i,
            ids@.len() == i,
            extends(buf@, s),
            heaps_written(s, views.take(i as int)) == Ok::<
                (Seq<u8>, Seq<u64>, Seq<Seq<Seq<u8>>>),
                Seq<char>,
            >((buf@, addrs@, id_views(ids@))),
            ids_fit(id_views(ids@), views.take(i as int)),
        decreases stores@.len() - i,
    {
        proof {
            assert(views[i as int] == stores@[i as int]@);
            assert(views.take(i + 1).drop_last() =~= views.take(i as int));
            assert(views.take(i + 1).last() == views[i as int]);
        }
        let ghost before = id_views(ids@);
        let ghost was = buf@;
        let mut own: Vec<Vec<u8>> = Vec::new();
        let mut heap: u64 = UNDEF;
        assert(views_of(own@) =~= Seq::empty());
        if stores[i].objects.len() > 0 {
            match write_fractal_heap(buf, &stores[i].objects, 8, 40) {
                Err(e) => {
                    proof {
                        lemma_heaps_error(s, views, i + 1);
                    }
                    return Err(e);
                },
                Ok((a, list)) => {
                    heap = a;
                    own = list;
                },
            }
            proof {
                lemma_extends(s, was, buf@);
            }
        }
        let ghost mine = views_of(own@);
        addrs.push(heap);
        ids.push(own);
        proof {
            let now = id_views(ids@);
            assert(now =~= before.push(mine));
            let upto = views.take(i + 1);
            assert forall|k: int| 0 <= k < upto.len() implies (#[trigger] now[k]).len()
                == upto[k].objects.len() && same_size(now[k], 8) by {
                if k < i {
                    assert(now[k] == before[k]);
                    assert(upto[k] == views.take(i as int)[k]);
                }
            }
        }
        i += 1;
    }
    assert(views.take(views.len() as int) =~= views);
    Ok((addrs, ids))
}

proof fn lemma_heaps_error(s: Seq<u8>, v: Seq<StoreView>, i: int)
    requires
        0 <= i <= v.len(),
        heaps_written(s, v.take(i)) is Err,
    ensures
        heaps_written(s, v) == heaps_written(s, v.take(i)),
    decreases v.len() - i,
{
    if i < v.len() {
        assert(v.take(i + 1).drop_last() =~= v.take(i));
        lemma_heaps_error(s, v, i + 1);
    } else {
        assert(v.take(i) =~= v);
    }
}

fn place_ids(
    buf: &mut Vec<u8>,
    patches: &Vec<Patch>,
    ids: &Vec<Vec<Vec<u8>>>,
    Ghost(v): Ghost<Seq<StoreView>>,
)
    requires
        patches_fit(patch_views(patches@), old(buf)@.len()),
        patches_known(patch_views(patches@), v),
        ids_fit(id_views(ids@), v),
    ensures
        final(buf)@ == ids_placed(old(buf)@, patch_views(patches@), id_views(ids@)),
        final(buf)@.len() == old(buf)@.len(),
{
    let ghost s = buf@;
    let ghost ps = patch_views(patches@);
    let ghost lists = id_views(ids@);
    let mut i: usize = 0;
    assert(ps.take(0) =~= Seq::empty());
    while i < patches.len()
        invariant
            i <= patches@.len(),
            ps == patch_views(patches@),
            lists == id_views(ids@),
            patches_fit(ps, s.len()),
            patches_known(ps, v),
            ids_fit(lists, v),
            buf@.len() == s.len(),
            buf@ == ids_placed(s, ps.take(i as int), lists),
        decreases patches@.len() - i,
    {
        let p = &patches[i];
        proof {
            assert(ps[i as int] == p@);
            assert(ps.take(i + 1).drop_last() =~= ps.take(i as int));
            assert(ps.take(i + 1).last() == p@);
            assert(lists[p.index as int] == views_of(ids@[p.index as int]@));
            assert(lists[p.index as int][p.item as int]
                == ids@[p.index as int]@[p.item as int]@);
        }
        overwrite(buf, p.pos, ids[p.index][p.item].as_slice());
        i += 1;
    }
    assert(ps.take(ps.len() as int) =~= ps);
}

fn list_of(store: &SharedStore, ids: &Vec<Vec<u8>>) -> (r: Buf)
    requires
        store.refs@.len() == store.objects@.len(),
        ids@.len() == store.objects@.len(),
        same_size(views_of(ids@), 8),
    ensures
        r@ == list_message(store@, views_of(ids@)),
{
    let ghost want = index_records(store@, views_of(ids@));
    let mut list = HashList::new();
    let mut i: usize = 0;
    assert(want.take(0) =~= Seq::empty());
    while i < store.objects.len()
        invariant
            i <= store.objects@.len() == ids@.len(),
            store.refs@.len() == store.objects@.len(),
            same_size(views_of(ids@), 8),
            want == index_records(store@, views_of(ids@)),
            list.wf(),
            list@ == by_hash(want.take(i as int)),
            records_sized(want.take(i as int), 17),
        decreases store.objects@.len() - i,
    {
        let hash: u32 = checksum(store.objects[i].as_slice());
        let mut rec = Buf::new();
        rec.u8(0);
        rec.u32(hash);
        rec.u32(store.refs[i]);
        rec.raw(ids[i].as_slice());
        proof {
            assert(views_of(ids@)[i as int] == ids@[i as int]@);
            lemma_le_bytes_len(hash as nat, 4);
            lemma_le_bytes_len(store.refs@[i as int] as nat, 4);
            assert(rec@ =~= want[i as int].1);
            assert(want.take(i + 1).drop_last() =~= want.take(i as int));
            assert(want.take(i + 1).last() == (hash, rec@));
            let next = want.take(i + 1);
            assert forall|k: int| 0 <= k < next.len() implies (#[trigger] next[k]).1.len()
                == 17 by {
                if k < i {
                    assert(next[k] == want.take(i as int)[k]);
                }
            }
        }
        list.insert(hash, rec.bytes);
        i += 1;
    }
    proof {
        assert(want.take(want.len() as int) =~= want);
        lemma_by_hash_sized(want, 17);
        crate::format::dense::lemma_concat_len(bare(by_hash(want)), 17);
        assert(views_of(list.records@) =~= bare(list@));
    }
    let mut b = Buf::new();
    b.u8(83);
    b.u8(77);
    b.u8(76);
    b.u8(73);
    push_all(&mut b, &list.records);
    let ghost text = b@;
    assert(text =~= seq![83u8, 77u8, 76u8, 73u8] + concat(bare(by_hash(want))));
    push_sum(&mut b);
    proof {
        lemma_le_bytes_len(lookup3(text) as nat, 4);
    }
    let used: usize = b.len();
    let full: usize = if used > 8712 {
        used
    } else {
        8712
    };
    fill_to(&mut b, full);
    b
}

fn write_lists(buf: &mut Vec<u8>, stores: &Vec<SharedStore>, ids: &Vec<Vec<Vec<u8>>>) -> (r:
    Vec<u64>)
    requires
        stores_wf(store_views(stores@)),
        ids_fit(id_views(ids@), store_views(stores@)),
    ensures
        (final(buf)@, r@) == lists_written(old(buf)@, store_views(stores@), id_views(ids@)),
        r@.len() == stores@.len(),
        extends(final(buf)@, old(buf)@),
{
    let ghost s = buf@;
    let ghost views = store_views(stores@);
    let ghost lists = id_views(ids@);
    let mut addrs: Vec<u64> = Vec::new();
    let mut i: usize = 0;
    assert(views.take(0) =~= Seq::empty());
    assert(s.take(s.len() as int) =~= s);
    while i < stores.len()
        invariant
            i <= stores@.len() == ids@.len(),
            views == store_views(stores@),
            lists == id_views(ids@),
            stores_wf(views),
            ids_fit(lists, views),
            addrs@.len() == i,
            extends(buf@, s),
            (buf@, addrs@) == lists_written(s, views.take(i as int), lists),
        decreases stores@.len() - i,
    {
        proof {
            assert(views[i as int] == stores@[i as int]@);
            assert(lists[i as int] == views_of(ids@[i as int]@));
            assert(views.take(i + 1).drop_last() =~= views.take(i as int));
        }
        let b: Buf = list_of(&stores[i], &ids[i]);
        let ghost was = buf@;
        let a: u64 = append(buf, b.bytes.as_slice());
        proof {
            lemma_appended(was, b@);
            lemma_extends(s, was, buf@);
        }
        addrs.push(a);
        i += 1;
    }
    assert(views.take(views.len() as int) =~= views);
    addrs
}

fn push_index(b: &mut Buf, store: &SharedStore, list: u64, heap: u64)
    ensures
        final(b)@ == old(b)@ + index_message(store@, list, heap),
{
    let ghost before = b@;
    let n: usize = store.objects.len();
    let low: usize = n % 65536;
    b.u8(0);
    b.u8(1);
    b.u16(store.flags);
    b.u32(store.min_size);
    b.u16(if low > 512 {
        low as u16
    } else {
        512
    });
    b.u16(40);
    push_le(&mut b.bytes, n as u64, 2);
    b.u64(list);
    b.u64(heap);
    assert(b@ =~= before + index_message(store@, list, heap));
}

fn table_of(stores: &Vec<SharedStore>, lists: &Vec<u64>, heaps: &Vec<u64>) -> (r: Buf)
    requires
        lists@.len() == stores@.len(),
        heaps@.len() == stores@.len(),
    ensures
        r@ == table_message(store_views(stores@), lists@, heaps@),
{
    let ghost views = store_views(stores@);
    let mut b = Buf::new();
    b.u8(83);
    b.u8(77);
    b.u8(84);
    b.u8(66);
    let ghost start = b@;
    assert(start =~= seq![83u8, 77u8, 84u8, 66u8]);
    let mut i: usize = 0;
    assert(start + index_messages(views, lists@, heaps@, 0) =~= start);
    while i < stores.len()
        invariant
            i <= stores@.len() == lists@.len(),
            heaps@.len() == stores@.len(),
            views == store_views(stores@),
            b@ == start + index_messages(views, lists@, heaps@, i as nat),
        decreases stores@.len() - i,
    {
        push_index(&mut b, &stores[i], lists[i], heaps[i]);
        i += 1;
        assert(b@ =~= start + index_messages(views, lists@, heaps@, i as nat));
    }
    push_sum(&mut b);
    b
}

/// Writes the tables of shared messages and fills in the ids, and returns the address of
/// the header that says where they are.
pub fn write_sohm_tables(buf: &mut Vec<u8>, stores: &Vec<SharedStore>, patches: &Vec<Patch>) -> (r:
    Result<Option<u64>, Error>)
    requires
        stores_wf(store_views(stores@)),
        patches_fit(patch_views(patches@), old(buf)@.len()),
        patches_known(patch_views(patches@), store_views(stores@)),
    ensures
        match (r, tables_written(old(buf)@, store_views(stores@), patch_views(patches@))) {
            (Ok(x), Ok(y)) => final(buf)@ == y.0 && x == y.1 && final(buf)@.len()
                >= old(buf)@.len(),
            (Err(e), Err(y)) => e@ == y,
            _ => false,
        },
{
    reveal(tables_written);
    if stores.len() == 0 {
        return Ok(None);
    }
    let ghost v = store_views(stores@);
    let (heaps, ids) = write_heaps(buf, stores)?;
    place_ids(buf, patches, &ids, Ghost(v));
    let lists: Vec<u64> = write_lists(buf, stores, &ids);
    let ghost s2 = buf@;
    let b: Buf = table_of(stores, &lists, &heaps);
    let table: u64 = append(buf, b.bytes.as_slice());
    proof {
        lemma_appended(s2, b@);
    }
    let mut m = Buf::new();
    m.u8(0);
    m.u64(table);
    push_le(&mut m.bytes, stores.len() as u64, 1);
    assert(m@ =~= table_place_message(table, v.len()));
    let ms: Vec<OutMessage> = vec![plain(MSG_SHMESG_TABLE, m.bytes)];
    assert(out_views(ms@) =~= seq![
        plain_message(MSG_SHMESG_TABLE, table_place_message(table, v.len())),
    ]);
    let mut none: Vec<Patch> = Vec::new();
    let addr: u64 = write_object_header(buf, &ms, false, &mut none)?;
    Ok(Some(addr))
}

} // verus!
