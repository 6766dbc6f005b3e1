//! The tables of shared messages are read as they are written.

use vstd::prelude::*;

use crate::format::dense::same_size;
use crate::format::dense_laws::lemma_ids;
use crate::format::fheap::{heap_at, heap_item};
use crate::format::gheap::rest_at;
use crate::format::group_laws::lemma_first;
use crate::format::header::MSG_SHMESG_TABLE;
use crate::format::header_laws::law_old_header_read;
use crate::format::header_write::{old_header, old_messages, patches_fit, plain_message, PatchView};
use crate::format::heap_laws::{all_managed, law_heap_read, lemma_heap_extends, lemma_heap_place};
use crate::format::object::{
    covers, empty_header, header_parsed, index_heap, indexed_message, plain_applied, HeaderView,
    ImageView,
};
use crate::format::object_laws::{fill_of, keeps, lemma_appended_stands, lemma_keeps};
use crate::format::share::{
    for_kind, heaps_written, ids_fit, ids_placed, index_message, index_messages, list_message,
    lists_written, patches_known, store_for, table_message, table_place_message, tables_written,
    StoreView,
};
use crate::format::share_laws::{
    bodies_small, covered, keeps_but, lemma_same_stores, lemma_store_for, serves, shareable, spaced,
};
use crate::format::stands::{lemma_stands, lemma_stands_both, stands};
use crate::format::superblock::{
    index_table, indexes_at, indexes_of, indexes_taken, plain_image,
};
use crate::format::tree::{appended, end_of, extends, lemma_appended, lemma_extends, padded};
use crate::format::tree_laws::lemma_keeps_less;
use crate::format::{
    aligned8, law_le_round_trip, le_at, le_bytes, lemma_le_bytes_len, lemma_pow256, patched, UNDEF,
};

verus! {

// Heaps.

/// Heaps stand behind the image before them, and each body has an id.
pub(crate) proof fn lemma_heaps(s: Seq<u8>, v: Seq<StoreView>)
    requires
        heaps_written(s, v) is Ok,
    ensures
        ({
            let (out, addrs, ids) = heaps_written(s, v)->Ok_0;
            &&& extends(out, s)
            &&& addrs.len() == v.len()
            &&& ids_fit(ids, v)
        }),
    decreases v.len(),
{
    let (out, addrs, ids) = heaps_written(s, v)->Ok_0;
    if v.len() == 0 {
        assert(s.take(s.len() as int) =~= s);
    } else {
        let init = v.drop_last();
        lemma_heaps(s, init);
        let (s1, before, own) = heaps_written(s, init)->Ok_0;
        let objects = v.last().objects;
        if objects.len() > 0 {
            lemma_heap_extends(s1, objects, 8, 40);
            lemma_extends(s, s1, out);
            lemma_ids(s1, objects, 8, 40);
        }
        assert forall|i: int| 0 <= i < v.len() implies (#[trigger] ids[i]).len()
            == v[i].objects.len() && same_size(ids[i], 8) by {
            if i < init.len() {
                assert(ids[i] == own[i]);
                assert(init[i] == v[i]);
            }
        }
    }
}

/// The bodies of the stores are read from any file that holds their heaps.
pub proof fn law_heaps_read(
    t: Seq<u8>,
    base: u64,
    s: Seq<u8>,
    v: Seq<StoreView>,
    from: nat,
    given: Seq<(u64, Seq<u8>)>,
    ix: int,
    item: int,
)
    requires
        heaps_written(s, v) matches Ok(x) && keeps(t, base, x.0, from) && x.0.len() < u64::MAX,
        from <= s.len(),
        bodies_small(v),
        0 <= ix < v.len(),
        0 <= item < v[ix].objects.len(),
        v[ix].objects[item].len() > 0,
    ensures
        ({
            let (out, addrs, ids) = heaps_written(s, v)->Ok_0;
            &&& addrs[ix] != UNDEF
            &&& heap_at(t, base, addrs[ix], given) matches Ok(h) && heap_item(
                t,
                base,
                h,
                ids[ix][item],
            ) == Ok::<Seq<u8>, Seq<char>>(v[ix].objects[item])
        }),
    decreases v.len(),
{
    let (out, addrs, ids) = heaps_written(s, v)->Ok_0;
    let init = v.drop_last();
    lemma_heaps(s, v);
    lemma_heaps(s, init);
    let (s1, before, own) = heaps_written(s, init)->Ok_0;
    let last = v.last();
    if last.objects.len() > 0 {
        lemma_heap_extends(s1, last.objects, 8, 40);
    } else {
        assert(s1.take(s1.len() as int) =~= s1);
    }
    if ix == v.len() - 1 {
        assert(all_managed(last.objects)) by {
            assert forall|k: int| 0 <= k < last.objects.len() implies (
            #[trigger] last.objects[k]).len() <= 4096 by {
                assert(v[ix].objects[k].len() <= 4096);
            }
        }
        lemma_heap_place(s1, last.objects, 8, 40);
        law_heap_read(t, base, s1, last.objects, 8, 40, from, given, item);
    } else {
        assert(init[ix] == v[ix]);
        assert(bodies_small(init)) by {
            assert forall|i: int, k: int|
                0 <= i < init.len() && 0 <= k < init[i].objects.len() implies (
            #[trigger] init[i].objects[k]).len() <= 4096 by {
                assert(v[i].objects[k] == init[i].objects[k]);
            }
        }
        lemma_keeps_less(t, base, out, s1, from);
        law_heaps_read(t, base, s, init, from, given, ix, item);
        assert(addrs[ix] == before[ix]);
        assert(ids[ix] == own[ix]);
    }
}

// Ids.

/// Ids in their places leave the rest of an image as it is.
pub(crate) proof fn lemma_ids_placed(
    s: Seq<u8>,
    ps: Seq<PatchView>,
    ids: Seq<Seq<Seq<u8>>>,
    v: Seq<StoreView>,
)
    requires
        spaced(ps),
        patches_fit(ps, s.len()),
        patches_known(ps, v),
        ids_fit(ids, v),
    ensures
        ids_placed(s, ps, ids).len() == s.len(),
        forall|i: int|
            0 <= i < s.len() && !covered(ps, i) ==> #[trigger] ids_placed(s, ps, ids)[i] == s[i],
        forall|j: int|
            0 <= j < ps.len() ==> stands(
                ids_placed(s, ps, ids),
                (#[trigger] ps[j]).pos as int,
                ids[ps[j].index as int][ps[j].item as int],
            ),
    decreases ps.len(),
{
    let out = ids_placed(s, ps, ids);
    if ps.len() > 0 {
        let init = ps.drop_last();
        let p = ps.last();
        assert(p == ps[ps.len() - 1]);
        assert(spaced(init)) by {
            assert forall|j: int, k: int| 0 <= j < k < init.len() implies (
            #[trigger] init[j]).pos + 8 <= (#[trigger] init[k]).pos by {
                assert(ps[j] == init[j] && ps[k] == init[k]);
            }
        }
        assert forall|j: int| 0 <= j < init.len() implies (#[trigger] init[j]).pos + 8 <= s.len()
            && init[j].index < v.len() && init[j].item < v[init[j].index as int].objects.len() by {
            assert(ps[j] == init[j]);
        }
        lemma_ids_placed(s, init, ids, v);
        let mid = ids_placed(s, init, ids);
        let id = ids[p.index as int][p.item as int];
        assert(ids[p.index as int].len() == v[p.index as int].objects.len());
        assert(id.len() == 8);
        assert(out == patched(mid, p.pos as int, id));
        assert forall|i: int| 0 <= i < s.len() && !covered(ps, i) implies #[trigger] out[i] == s[i] by {
            assert(!covered(init, i)) by {
                if covered(init, i) {
                    let j = choose|j: int|
                        0 <= j < init.len() && (#[trigger] init[j]).pos <= i < init[j].pos + 8;
                    assert(ps[j] == init[j]);
                }
            }
            assert(!(p.pos <= i < p.pos + 8));
            assert(mid[i] == s[i]);
        }
        assert forall|j: int| 0 <= j < ps.len() implies stands(
            out,
            (#[trigger] ps[j]).pos as int,
            ids[ps[j].index as int][ps[j].item as int],
        ) by {
            let q = ps[j];
            let own = ids[q.index as int][q.item as int];
            if j < init.len() {
                assert(init[j] == q);
                assert(ids[q.index as int].len() == v[q.index as int].objects.len());
                assert(own.len() == 8);
                assert(q.pos + 8 <= p.pos);
                assert(out.subrange(q.pos as int, (q.pos + 8) as int) =~= mid.subrange(
                    q.pos as int,
                    (q.pos + 8) as int,
                ));
            } else {
                assert(out.subrange(q.pos as int, (q.pos + 8) as int) =~= own);
            }
        }
    }
}

// Tables.

proof fn lemma_lists(s: Seq<u8>, v: Seq<StoreView>, ids: Seq<Seq<Seq<u8>>>)
    ensures
        extends(lists_written(s, v, ids).0, s),
        lists_written(s, v, ids).1.len() == v.len(),
    decreases v.len(),
{
    if v.len() == 0 {
        assert(s.take(s.len() as int) =~= s);
    } else {
        let init = v.drop_last();
        lemma_lists(s, init, ids);
        let s1 = lists_written(s, init, ids).0;
        lemma_appended(s1, list_message(v.last(), ids[v.len() - 1]));
        lemma_extends(s, s1, lists_written(s, v, ids).0);
    }
}

/// What is read of an index.
proof fn lemma_index(v: StoreView, list: u64, heap: u64)
    ensures
        index_message(v, list, heap).len() == 30,
        le_at(index_message(v, list, heap), 2, 2) == v.flags,
        le_at(index_message(v, list, heap), 22, 8) == heap,
{
    let b = index_message(v, list, heap);
    let room = crate::format::share::larger(512, v.objects.len() % 65536);
    lemma_pow256();
    lemma_le_bytes_len(v.flags as nat, 2);
    lemma_le_bytes_len(v.min_size as nat, 4);
    lemma_le_bytes_len(room, 2);
    lemma_le_bytes_len(40, 2);
    lemma_le_bytes_len(v.objects.len(), 2);
    lemma_le_bytes_len(list as nat, 8);
    lemma_le_bytes_len(heap as nat, 8);
    law_le_round_trip(v.flags as nat, 2);
    law_le_round_trip(heap as nat, 8);
    assert(b.subrange(2, 4) =~= le_bytes(v.flags as nat, 2));
    assert(b.subrange(22, 30) =~= le_bytes(heap as nat, 8));
}

proof fn lemma_index_part(
    v: Seq<StoreView>,
    lists: Seq<u64>,
    heaps: Seq<u64>,
    n: nat,
    k: int,
)
    requires
        n <= v.len(),
    ensures
        index_messages(v, lists, heaps, n).len() == 30 * n,
        0 <= k < n ==> index_messages(v, lists, heaps, n).subrange(30 * k, 30 * k + 30)
            == index_message(v[k], lists[k], heaps[k]),
    decreases n,
{
    if n > 0 {
        let m = (n - 1) as nat;
        lemma_index_part(v, lists, heaps, m, k);
        lemma_index(v[m as int], lists[m as int], heaps[m as int]);
        let all = index_messages(v, lists, heaps, n);
        let before = index_messages(v, lists, heaps, m);
        if 0 <= k < m {
            assert(all.subrange(30 * k, 30 * k + 30) =~= before.subrange(30 * k, 30 * k + 30));
        } else if k == m {
            assert(all.subrange(30 * k, 30 * k + 30) =~= index_message(v[k], lists[k], heaps[k]));
        }
    }
}

/// The indexes as they are read: the message types of each, and its heap.
pub open spec fn indexes_back(v: Seq<StoreView>, heaps: Seq<u64>) -> Seq<(u16, u64)> {
    Seq::new(v.len(), |i: int| (v[i].flags, heaps[i]))
}

proof fn lemma_indexes_taken(
    s: Seq<u8>,
    v: Seq<StoreView>,
    lists: Seq<u64>,
    heaps: Seq<u64>,
    k: nat,
)
    requires
        k <= v.len(),
        s.len() >= 30 * (v.len() - k),
        s.take(30 * (v.len() - k)) == index_messages(v, lists, heaps, v.len()).skip(30 * k as int),
    ensures
        indexes_taken(s, (v.len() - k) as nat, indexes_back(v, heaps).take(k as int)) == Ok::<
            Seq<(u16, u64)>,
            Seq<char>,
        >(indexes_back(v, heaps)),
    decreases v.len() - k,
{
    let all = index_messages(v, lists, heaps, v.len());
    let back = indexes_back(v, heaps);
    if k == v.len() {
        assert(back.take(k as int) =~= back);
    } else {
        lemma_index_part(v, lists, heaps, v.len(), k as int);
        let m = index_message(v[k as int], lists[k as int], heaps[k as int]);
        lemma_index(v[k as int], lists[k as int], heaps[k as int]);
        let rest = s.take(30 * (v.len() - k));
        assert(s.take(30) =~= rest.take(30));
        assert(rest.take(30) =~= all.subrange(30 * k as int, (30 * k + 30) as int));
        assert(s.take(30) == m);
        let r = s.skip(30);
        assert(r.take(30 * (v.len() - (k + 1))) =~= rest.skip(30));
        assert(rest.skip(30) =~= all.skip(30 * (k + 1) as int));
        lemma_indexes_taken(r, v, lists, heaps, k + 1);
        assert(back.take(k as int).push((v[k as int].flags, heaps[k as int])) =~= back.take(
            (k + 1) as int,
        ));
        assert((v.len() - k - 1) as nat == (v.len() - (k + 1)) as nat);
    }
}

/// A table of indexes is read as it is written.
pub proof fn law_table_read(
    t: Seq<u8>,
    base: u64,
    table: u64,
    v: Seq<StoreView>,
    lists: Seq<u64>,
    heaps: Seq<u64>,
)
    requires
        stands(t, base + table, table_message(v, lists, heaps)),
        v.len() <= 255,
    ensures
        indexes_at(t, base, table, v.len() as u8) == Ok::<Seq<(u16, u64)>, Seq<char>>(
            indexes_back(v, heaps),
        ),
{
    let sig = seq![83u8, 77u8, 84u8, 66u8];
    let all = index_messages(v, lists, heaps, v.len());
    let pos = base + table;
    let sum = le_bytes(crate::format::checksum::lookup3(sig + all) as nat, 4);
    assert(table_message(v, lists, heaps) =~= sig + (all + sum));
    lemma_index_part(v, lists, heaps, v.len(), 0);
    lemma_stands_both(t, pos, sig, all + sum);
    lemma_stands_both(t, pos + 4, all, sum);
    lemma_stands(t, pos, sig);
    lemma_stands(t, pos + 4, all);
    let r = rest_at(t, pos);
    let s = r.skip(4);
    assert(s =~= rest_at(t, pos + 4));
    assert(s.take(30 * v.len() as int) =~= all.skip(0));
    assert(indexes_back(v, heaps).take(0) =~= Seq::empty());
    lemma_indexes_taken(s, v, lists, heaps, 0);
}

proof fn lemma_place_applied(img: ImageView, table: u64, n: nat, s: Seq<u8>)
    requires
        n <= 255,
    ensures
        plain_applied(img, MSG_SHMESG_TABLE, table_place_message(table, n) + s, empty_header())
            == Ok::<HeaderView, Seq<char>>(
            HeaderView { shmesg_table: Some((table, n as u8)), ..empty_header() },
        ),
{
    reveal(plain_applied);
    let body = table_place_message(table, n) + s;
    lemma_pow256();
    lemma_le_bytes_len(table as nat, 8);
    lemma_le_bytes_len(n, 1);
    law_le_round_trip(table as nat, 8);
    assert(body.subrange(1, 9) =~= le_bytes(table as nat, 8));
    reveal_with_fuel(le_bytes, 2);
    assert(body[9] == le_bytes(n, 1)[0]);
}

/// The header that says where the table is is read.
proof fn lemma_extension(t: Seq<u8>, base: u64, addr: u64, table: u64, n: nat)
    requires
        n <= 255,
        ({
            let ms = seq![plain_message(MSG_SHMESG_TABLE, table_place_message(table, n))];
            old_messages(ms) matches Ok(body) && stands(t, base + addr, old_header(1, body))
        }),
    ensures
        index_table(t, base, addr) == Some((table, n as u8)),
{
    let img = plain_image(t, base);
    let body = table_place_message(table, n);
    let m = plain_message(MSG_SHMESG_TABLE, body);
    let ms = seq![m];
    lemma_le_bytes_len(table as nat, 8);
    lemma_le_bytes_len(n, 1);
    assert(old_messages(ms)->Ok_0.len() <= 0xffff_ffff) by {
        reveal_with_fuel(old_messages, 2);
        assert(ms.drop_last() =~= Seq::empty());
        lemma_le_bytes_len(m.kind as nat, 2);
        lemma_le_bytes_len(aligned8(m.body.len() as int) as nat, 2);
    }
    law_old_header_read(t, base, addr, ms);
    let h = HeaderView { shmesg_table: Some((table, n as u8)), ..empty_header() };
    lemma_place_applied(img, table, n, fill_of(body, true));
    lemma_first(img, MSG_SHMESG_TABLE, body, true, h, t.len());
    assert(header_parsed(img, addr, t.len()) == Ok::<HeaderView, Seq<char>>(h));
}

// Indexes.

/// Whether the first index for a message type takes the messages that any index for it
/// takes. A message is looked up in the first index for its type.
pub open spec fn indexes_told(indexes: Seq<(u16, u32)>) -> bool {
    &&& indexes.len() <= 255
    &&& forall|i: int, j: int, kind: u16|
        #![trigger for_kind(indexes[i].0, kind), for_kind(indexes[j].0, kind)]
        0 <= i < j < indexes.len() && shareable(kind) && for_kind(indexes[i].0, kind) && for_kind(
            indexes[j].0,
            kind,
        ) ==> indexes[i].1 <= indexes[j].1
}

/// Whether stores are those of some indexes.
pub open spec fn stores_for(v: Seq<StoreView>, indexes: Seq<(u16, u32)>) -> bool {
    &&& v.len() == indexes.len()
    &&& forall|i: int|
        0 <= i < v.len() ==> (#[trigger] v[i]).flags == indexes[i].0 && v[i].min_size
            == indexes[i].1
}

proof fn lemma_covers(types: u16, kind: u16)
    requires
        shareable(kind),
    ensures
        covers(types, kind) == for_kind(types, kind),
{
    assert(types >> 1u16 == types / 2) by (bit_vector);
    assert(types >> 3u16 == types / 8) by (bit_vector);
    assert(types >> 5u16 == types / 32) by (bit_vector);
    reveal_with_fuel(crate::format::bits::pow2, 6);
}

/// No index before the one that a message went to is for it.
proof fn lemma_passed(v: Seq<StoreView>, kind: u16, len: nat, i: nat, ix: nat, k: nat)
    requires
        store_for(v, kind, len, i) == Some(ix),
        i <= k < ix,
    ensures
        !(for_kind(v[k as int].flags, kind) && len >= v[k as int].min_size),
    decreases v.len() - i,
{
    if i < k {
        lemma_passed(v, kind, len, i + 1, ix, k);
    }
}

proof fn lemma_index_heap(
    v: Seq<StoreView>,
    indexes: Seq<(u16, u32)>,
    heaps: Seq<u64>,
    kind: u16,
    len: nat,
    ix: nat,
    k: nat,
)
    requires
        stores_for(v, indexes),
        indexes_told(indexes),
        shareable(kind),
        store_for(v, kind, len, 0) == Some(ix),
        k <= ix < v.len(),
    ensures
        index_heap(indexes_back(v, heaps).skip(k as int), kind) == Some(heaps[ix as int]),
    decreases ix - k,
{
    let back = indexes_back(v, heaps);
    let s = back.skip(k as int);
    lemma_same_stores(v);
    lemma_store_for(v, v, kind, len, 0);
    assert(v[k as int].flags == indexes[k as int].0);
    assert(v[ix as int].flags == indexes[ix as int].0);
    assert(s[0] == (v[k as int].flags, heaps[k as int]));
    lemma_covers(v[k as int].flags, kind);
    if k < ix {
        lemma_passed(v, kind, len, 0, ix, k);
        assert(!for_kind(indexes[k as int].0, kind)) by {
            assert(for_kind(indexes[ix as int].0, kind));
            if for_kind(indexes[k as int].0, kind) {
                assert(indexes[k as int].1 <= indexes[ix as int].1);
            }
        }
        assert(s.skip(1) =~= back.skip((k + 1) as int));
        lemma_index_heap(v, indexes, heaps, kind, len, ix, k + 1);
    }
}

// All of it.

/// How tables were written.
pub(crate) proof fn lemma_tables(s: Seq<u8>, v: Seq<StoreView>, ps: Seq<PatchView>, out: Seq<u8>, ext: u64)
    requires
        tables_written(s, v, ps) == Ok::<(Seq<u8>, Option<u64>), Seq<char>>((out, Some(ext))),
        spaced(ps),
        patches_fit(ps, s.len()),
        patches_known(ps, v),
    ensures
        ({
            let (s1, heaps, ids) = heaps_written(s, v)->Ok_0;
            let (s2, lists) = lists_written(ids_placed(s1, ps, ids), v, ids);
            let table = table_message(v, lists, heaps);
            let s3 = appended(s2, table);
            let ms = seq![
                plain_message(MSG_SHMESG_TABLE, table_place_message(end_of(s2), v.len())),
            ];
            &&& heaps_written(s, v) is Ok
            &&& extends(s1, s)
            &&& ids_fit(ids, v)
            &&& ids_placed(s1, ps, ids).len() == s1.len()
            &&& extends(s2, ids_placed(s1, ps, ids))
            &&& old_messages(ms) is Ok
            &&& out == appended(s3, old_header(1, old_messages(ms)->Ok_0))
            &&& ext == end_of(s3)
            &&& extends(s3, s2)
            &&& extends(out, s3)
            &&& padded(s2).len() < s3.len() <= padded(s3).len() < out.len()
        }),
{
    reveal(tables_written);
    let (s1, heaps, ids) = heaps_written(s, v)->Ok_0;
    lemma_heaps(s, v);
    lemma_ids_placed(s1, ps, ids, v);
    let placed = ids_placed(s1, ps, ids);
    lemma_lists(placed, v, ids);
    let (s2, lists) = lists_written(placed, v, ids);
    let table = table_message(v, lists, heaps);
    lemma_appended(s2, table);
    let s3 = appended(s2, table);
    let ms = seq![plain_message(MSG_SHMESG_TABLE, table_place_message(end_of(s2), v.len()))];
    lemma_appended(s3, old_header(1, old_messages(ms)->Ok_0));
}

/// The tables of shared messages are read as they were written, from any file that holds
/// the image: the indexes come back with their heaps, and each body is found by its id,
/// which stands in the places of the messages that refer to it.
pub proof fn law_tables_read(
    t: Seq<u8>,
    base: u64,
    s: Seq<u8>,
    v: Seq<StoreView>,
    ps: Seq<PatchView>,
    indexes: Seq<(u16, u32)>,
    given: Seq<(u64, Seq<u8>)>,
    out: Seq<u8>,
    ext: u64,
) -> (r: (Seq<(u16, u64)>, Seq<Seq<Seq<u8>>>))
    requires
        tables_written(s, v, ps) == Ok::<(Seq<u8>, Option<u64>), Seq<char>>((out, Some(ext))),
        spaced(ps),
        patches_fit(ps, s.len()),
        patches_known(ps, v),
        bodies_small(v),
        v.len() > 0,
        stores_for(v, indexes),
        indexes_told(indexes),
        keeps(t, base, out, 96),
        s.len() >= 96,
        out.len() < u64::MAX,
    ensures
        ext < out.len(),
        indexes_of(t, base, ext) == Ok::<Seq<(u16, u64)>, Seq<char>>(r.0),
        keeps_but(t, base, s, 96, ps, r.1),
        serves(ImageView { data: t, base, sohm: r.0, given }, v, r.1),
{
    let (s1, heaps, ids) = heaps_written(s, v)->Ok_0;
    let placed = ids_placed(s1, ps, ids);
    let (s2, lists) = lists_written(placed, v, ids);
    let table = table_message(v, lists, heaps);
    let s3 = appended(s2, table);
    let body = table_place_message(end_of(s2), v.len());
    let ms = seq![plain_message(MSG_SHMESG_TABLE, body)];
    let head = old_header(1, old_messages(ms)->Ok_0);
    lemma_tables(s, v, ps, out, ext);
    lemma_heaps(s, v);
    lemma_appended_stands(s3, head);
    lemma_keeps(t, base, out, 96, padded(s3).len() as int, head);
    lemma_extension(t, base, ext, end_of(s2), v.len());
    lemma_keeps_less(t, base, out, s3, 96);
    lemma_appended_stands(s2, table);
    lemma_keeps(t, base, s3, 96, padded(s2).len() as int, table);
    law_table_read(t, base, end_of(s2), v, lists, heaps);
    lemma_keeps_less(t, base, s3, s2, 96);
    lemma_keeps_less(t, base, s2, placed, 96);
    lemma_placed_kept(t, base, s, s1, v, ps, ids);
    let sohm = indexes_back(v, heaps);
    let img = ImageView { data: t, base, sohm, given };
    assert forall|ix: int, item: int, kind: u16|
        #![trigger indexed_message(img, kind, ids[ix][item])]
        0 <= ix < v.len() && 0 <= item < v[ix].objects.len() && v[ix].objects[item].len() > 0
            && shareable(kind) && store_for(v, kind, v[ix].objects[item].len(), 0) == Some(
            ix as nat,
        ) implies ids[ix][item].len() == 8 && indexed_message(img, kind, ids[ix][item]) == Ok::<
        Seq<u8>,
        Seq<char>,
    >(v[ix].objects[item]) by {
        let len = v[ix].objects[item].len();
        lemma_index_heap(v, indexes, heaps, kind, len, ix as nat, 0);
        assert(sohm.skip(0) =~= sohm);
        law_heaps_read(t, base, s, v, s.len(), given, ix, item);
        assert(ids[ix].len() == v[ix].objects.len());
    }
    (sohm, ids)
}

/// A file that holds an image with ids in place holds it but for them, and what stands
/// behind it as it is.
proof fn lemma_placed_kept(
    t: Seq<u8>,
    base: u64,
    s: Seq<u8>,
    s1: Seq<u8>,
    v: Seq<StoreView>,
    ps: Seq<PatchView>,
    ids: Seq<Seq<Seq<u8>>>,
)
    requires
        extends(s1, s),
        spaced(ps),
        patches_fit(ps, s.len()),
        patches_known(ps, v),
        ids_fit(ids, v),
        keeps(t, base, ids_placed(s1, ps, ids), 96),
        s.len() >= 96,
    ensures
        keeps_but(t, base, s, 96, ps, ids),
        keeps(t, base, s1, s.len()),
{
    let placed = ids_placed(s1, ps, ids);
    assert(patches_fit(ps, s1.len()));
    lemma_ids_placed(s1, ps, ids, v);
    assert forall|i: int| 96 <= i < s.len() && !covered(ps, i) implies #[trigger] s[i] == t[base
        + i] by {
        assert(s1.take(s.len() as int)[i] == s[i]);
        assert(placed[i] == s1[i]);
    }
    assert forall|j: int| 0 <= j < ps.len() && 96 <= (#[trigger] ps[j]).pos implies stands(
        t,
        base + ps[j].pos,
        ids[ps[j].index as int][ps[j].item as int],
    ) by {
        lemma_keeps(
            t,
            base,
            placed,
            96,
            ps[j].pos as int,
            ids[ps[j].index as int][ps[j].item as int],
        );
    }
    assert forall|i: int| s.len() <= i < s1.len() implies #[trigger] s1[i] == t[base + i] by {
        assert(!covered(ps, i));
        assert(placed[i] == s1[i]);
    }
}

} // verus!
