//! Links and attributes in dense storage are read as they are written, in the order of
//! the hashes of their names.

use vstd::prelude::*;
use vstd::utf8::encode_utf8;

use crate::format::attr_laws::{
    attr_back, attr_body, attr_plain, attrs_plain, bodies_told, body_told, attr_stored,
    law_dense_attribute_read, lemma_attrs_encoded, lemma_attrs_extend,
};
use crate::format::attr_write::{
    attr_names, attr_records, attrs_encoded, bare, by_hash, dense_attrs_written, hash_place,
    lemma_by_hash_sized,
};
use crate::format::checksum::lookup3;
use crate::format::dense::{
    heap_written, leaf_written, lemma_ids_size, offset_size, planned, same_size,
};
use crate::format::fheap::{heap_at, heap_item, HeapInfo};
use crate::format::group::{
    by_order, dense_attrs, dense_links, order_place, record_attrs, record_links,
};
use crate::format::group_write::{dense_links_written, link_bodies, link_records, Ref};
use crate::format::heap_laws::{
    law_heap_read, law_leaf_read, lemma_heap_extends, lemma_leaf_extends,
};
use crate::format::link_laws::{law_link_message_read, link_plain, raw_link, raw_links};
use crate::format::object::RawLinkView;
use crate::format::object_laws::keeps;
use crate::format::tree::{extends, lemma_extends};
use crate::format::tree_laws::lemma_keeps_less;
use crate::format::lemma_le_bytes_len;
use crate::model::{AttrView, LinkView};

verus! {

// The order of hashes.

/// The place of a hash in a list: behind those that are not larger.
pub open spec fn hash_rank(v: Seq<u32>, hash: u32) -> nat
    decreases v.len(),
{
    if v.len() == 0 || v.last() <= hash {
        v.len()
    } else {
        hash_rank(v.drop_last(), hash)
    }
}

/// The numbers of hashes in the order of the hashes; equal ones keep their order.
pub open spec fn hash_order(v: Seq<u32>) -> Seq<int>
    decreases v.len(),
{
    if v.len() == 0 {
        Seq::empty()
    } else {
        let before = hash_order(v.drop_last());
        before.insert(
            hash_rank(before.map_values(|i: int| v[i]), v.last()) as int,
            v.len() - 1,
        )
    }
}

/// The hashes of names.
pub open spec fn name_hashes(names: Seq<Seq<char>>) -> Seq<u32> {
    names.map_values(|x: Seq<char>| lookup3(encode_utf8(x)))
}

/// Things with names, in the order of the hashes of the names.
pub open spec fn in_hash_order<T>(items: Seq<T>, names: Seq<Seq<char>>) -> Seq<T> {
    Seq::new(items.len(), |k: int| items[hash_order(name_hashes(names))[k]])
}

proof fn lemma_hash_rank(v: Seq<u32>, hash: u32)
    ensures
        hash_rank(v, hash) <= v.len(),
    decreases v.len(),
{
    if v.len() > 0 {
        lemma_hash_rank(v.drop_last(), hash);
    }
}

/// Every number occurs once in the order of hashes.
pub proof fn law_hash_order(v: Seq<u32>)
    ensures
        hash_order(v).len() == v.len(),
        forall|k: int| 0 <= k < v.len() ==> 0 <= #[trigger] hash_order(v)[k] < v.len(),
        forall|j: int, k: int|
            0 <= j < k < v.len() ==> #[trigger] hash_order(v)[j] != #[trigger] hash_order(v)[k],
    decreases v.len(),
{
    if v.len() > 0 {
        let init = v.drop_last();
        let before = hash_order(init);
        law_hash_order(init);
        let at = hash_rank(before.map_values(|i: int| v[i]), v.last()) as int;
        lemma_hash_rank(before.map_values(|i: int| v[i]), v.last());
        let out = hash_order(v);
        assert forall|k: int| 0 <= k < v.len() implies 0 <= #[trigger] out[k] < v.len() by {
            if k < at {
                assert(out[k] == before[k]);
            } else if k > at {
                assert(out[k] == before[k - 1]);
            }
        }
        assert forall|j: int, k: int| 0 <= j < k < v.len() implies #[trigger] out[j]
            != #[trigger] out[k] by {
            if j < at {
                assert(out[j] == before[j]);
            } else if j > at {
                assert(out[j] == before[j - 1]);
            }
            if k < at {
                assert(out[k] == before[k]);
            } else if k > at {
                assert(out[k] == before[k - 1]);
            }
        }
    }
}

proof fn lemma_ranks(list: Seq<(u32, Seq<u8>)>, v: Seq<u32>, hash: u32)
    requires
        v.len() == list.len(),
        forall|i: int| 0 <= i < list.len() ==> #[trigger] v[i] == list[i].0,
    ensures
        hash_place(list, hash) == hash_rank(v, hash),
    decreases list.len(),
{
    if list.len() > 0 {
        assert(v[v.len() - 1] == list[list.len() - 1].0);
        assert forall|i: int| 0 <= i < list.drop_last().len() implies #[trigger] v.drop_last()[i]
            == list.drop_last()[i].0 by {
            assert(v[i] == list[i].0);
        }
        lemma_ranks(list.drop_last(), v.drop_last(), hash);
    }
}

/// Records are kept in the order of their hashes.
proof fn lemma_by_hash(list: Seq<(u32, Seq<u8>)>, v: Seq<u32>)
    requires
        v.len() == list.len(),
        forall|i: int| 0 <= i < list.len() ==> #[trigger] v[i] == list[i].0,
    ensures
        by_hash(list) == Seq::new(list.len(), |k: int| list[hash_order(v)[k]]),
    decreases list.len(),
{
    law_hash_order(v);
    let want = Seq::new(list.len(), |k: int| list[hash_order(v)[k]]);
    if list.len() == 0 {
        assert(by_hash(list) =~= want);
    } else {
        let init = list.drop_last();
        let vi = v.drop_last();
        assert forall|i: int| 0 <= i < init.len() implies #[trigger] vi[i] == init[i].0 by {
            assert(v[i] == list[i].0);
        }
        lemma_by_hash(init, vi);
        law_hash_order(vi);
        let o = hash_order(vi);
        let before = by_hash(init);
        let ranks = o.map_values(|i: int| v[i]);
        assert forall|i: int| 0 <= i < before.len() implies #[trigger] ranks[i]
            == before[i].0 by {
            assert(0 <= o[i] < vi.len());
            assert(v[o[i]] == list[o[i]].0);
        }
        lemma_ranks(before, ranks, list.last().0);
        lemma_hash_rank(ranks, v.last());
        assert(v[v.len() - 1] == list[list.len() - 1].0);
        let at = hash_rank(ranks, v.last()) as int;
        let out = by_hash(list);
        assert forall|k: int| 0 <= k < list.len() implies #[trigger] out[k] == want[k] by {
            if k < at {
                assert(hash_order(v)[k] == o[k]);
                assert(0 <= o[k] < vi.len());
            } else if k > at {
                assert(hash_order(v)[k] == o[k - 1]);
                assert(0 <= o[k - 1] < vi.len());
            }
        }
        assert(out =~= want);
    }
}

// Attributes.

/// The records of dense attributes lead to them.
proof fn lemma_record_attrs(
    data: Seq<u8>,
    base: u64,
    h: HeapInfo,
    records: Seq<Seq<u8>>,
    i: int,
    out: Seq<AttrView>,
)
    requires
        0 <= i <= records.len(),
        out.len() == records.len(),
        forall|k: int|
            0 <= k < records.len() ==> {
                &&& (#[trigger] records[k]).len() == 17
                &&& records[k][8] == 0
                &&& heap_item(data, base, h, records[k].take(8)) matches Ok(msg)
                    && crate::format::attribute::attr_parsed(data, base, msg) == Ok::<
                    Option<AttrView>,
                    Seq<char>,
                >(Some(out[k]))
            },
    ensures
        record_attrs(data, base, h, records, i, out.take(i)) == Ok::<Seq<AttrView>, Seq<char>>(out),
    decreases records.len() - i,
{
    if i < records.len() {
        assert(records[i].len() == 17);
        assert(out.take(i).push(out[i]) =~= out.take(i + 1));
        lemma_record_attrs(data, base, h, records, i + 1, out);
    } else {
        assert(out.take(i) =~= out);
    }
}

/// Attributes in dense storage leave the image before them as it is.
pub proof fn lemma_dense_attrs_extend(s: Seq<u8>, attrs: Seq<AttrView>)
    requires
        dense_attrs_written(s, attrs) is Ok,
    ensures
        extends(dense_attrs_written(s, attrs)->Ok_0.0, s),
        ({
            let (s1, objects) = attrs_encoded(s, attrs, true);
            &&& extends(s1, s)
            &&& objects.len() == attrs.len()
            &&& heap_written(s1, objects, 8, 40) is Ok
            &&& extends(heap_written(s1, objects, 8, 40)->Ok_0.0, s1)
            &&& extends(
                dense_attrs_written(s, attrs)->Ok_0.0,
                heap_written(s1, objects, 8, 40)->Ok_0.0,
            )
        }),
{
    let (s1, objects) = attrs_encoded(s, attrs, true);
    lemma_attrs_extend(s, attrs, true);
    lemma_heap_extends(s1, objects, 8, 40);
    let (s2, heap, ids) = heap_written(s1, objects, 8, 40)->Ok_0;
    let records = bare(by_hash(attr_records(attr_names(attrs), ids)));
    lemma_leaf_extends(s2, 8, 17, records);
    let s3 = leaf_written(s2, 8, 17, records).0;
    lemma_extends(s1, s2, s3);
    lemma_extends(s, s1, s3);
}

/// The record of an attribute.
proof fn lemma_attr_record(names: Seq<Seq<char>>, ids: Seq<Seq<u8>>, i: int)
    requires
        0 <= i < names.len(),
        ids[i].len() == 8,
    ensures
        attr_records(names, ids)[i].1.len() == 17,
        attr_records(names, ids)[i].1[8] == 0,
        attr_records(names, ids)[i].1.take(8) == ids[i],
        attr_records(names, ids)[i].0 == name_hashes(names)[i],
{
    let rec = attr_records(names, ids)[i].1;
    let hash = lookup3(encode_utf8(names[i]));
    lemma_le_bytes_len(i as nat, 4);
    lemma_le_bytes_len(hash as nat, 4);
    assert(rec.take(8) =~= ids[i]);
}

/// The records of dense attributes, in the order of their hashes, lead to them.
#[verifier::rlimit(60)]
#[verifier::spinoff_prover]
proof fn lemma_attr_list(
    data: Seq<u8>,
    base: u64,
    h: HeapInfo,
    attrs: Seq<AttrView>,
    objects: Seq<Seq<u8>>,
    ids: Seq<Seq<u8>>,
)
    requires
        attrs_plain(attrs),
        bodies_told(data, base, attrs, objects, true),
        same_size(ids, 8),
        ids.len() == attrs.len(),
        forall|i: int|
            0 <= i < attrs.len() ==> heap_item(data, base, h, #[trigger] ids[i]) == Ok::<
                Seq<u8>,
                Seq<char>,
            >(objects[i]),
    ensures
        ({
            let records = bare(by_hash(attr_records(attr_names(attrs), ids)));
            &&& records.len() == attrs.len()
            &&& same_size(records, 17)
            &&& record_attrs(data, base, h, records, 0, Seq::empty()) == Ok::<
                Seq<AttrView>,
                Seq<char>,
            >(in_hash_order(attrs.map_values(|a: AttrView| attr_back(a)), attr_names(attrs)))
        }),
{
    let names = attr_names(attrs);
    let v = name_hashes(names);
    let back = attrs.map_values(|a: AttrView| attr_back(a));
    let want = in_hash_order(back, names);
    let records = bare(by_hash(attr_records(names, ids)));
    lemma_attr_order(names, ids);
    law_hash_order(v);
    assert forall|k: int| 0 <= k < records.len() implies {
        &&& (#[trigger] records[k]).len() == 17
        &&& records[k][8] == 0
        &&& heap_item(data, base, h, records[k].take(8)) matches Ok(msg)
            && crate::format::attribute::attr_parsed(data, base, msg) == Ok::<
            Option<AttrView>,
            Seq<char>,
        >(Some(want[k]))
    } by {
        let i = hash_order(v)[k];
        assert(0 <= i < v.len());
        lemma_object(data, base, attrs, objects, i);
        assert(records[k].take(8) == ids[i]);
        assert(heap_item(data, base, h, ids[i]) == Ok::<Seq<u8>, Seq<char>>(objects[i]));
        assert(want[k] == attr_back(attrs[i]));
    }
    lemma_record_attrs(data, base, h, records, 0, want);
    assert(want.take(0) =~= Seq::empty());
}

/// The records of dense attributes in their order.
proof fn lemma_attr_order(names: Seq<Seq<char>>, ids: Seq<Seq<u8>>)
    requires
        same_size(ids, 8),
        ids.len() == names.len(),
    ensures
        ({
            let records = bare(by_hash(attr_records(names, ids)));
            let order = hash_order(name_hashes(names));
            &&& records.len() == names.len()
            &&& same_size(records, 17)
            &&& order.len() == names.len()
            &&& forall|k: int|
                0 <= k < names.len() ==> (#[trigger] records[k])[8] == 0 && records[k].take(8)
                    == ids[order[k]]
        }),
{
    let list = attr_records(names, ids);
    let v = name_hashes(names);
    assert forall|i: int| 0 <= i < list.len() implies #[trigger] v[i] == list[i].0 by {
        assert(ids[i].len() == 8);
        lemma_attr_record(names, ids, i);
    }
    assert forall|i: int| 0 <= i < list.len() implies (#[trigger] list[i]).1.len() == 17 by {
        assert(ids[i].len() == 8);
        lemma_attr_record(names, ids, i);
    }
    lemma_by_hash(list, v);
    law_hash_order(v);
    lemma_by_hash_sized(list, 17);
    let records = bare(by_hash(list));
    assert forall|k: int| 0 <= k < names.len() implies (#[trigger] records[k])[8] == 0
        && records[k].take(8) == ids[hash_order(v)[k]] by {
        let i = hash_order(v)[k];
        assert(0 <= i < v.len());
        assert(ids[i].len() == 8);
        lemma_attr_record(names, ids, i);
    }
}

/// The objects of a heap are read by their identifiers.
proof fn lemma_all_read(
    data: Seq<u8>,
    base: u64,
    s: Seq<u8>,
    objects: Seq<Seq<u8>>,
    id_len: nat,
    bits: nat,
    from: nat,
    given: Seq<(u64, Seq<u8>)>,
) -> (h: HeapInfo)
    requires
        heap_written(s, objects, id_len, bits) matches Ok(x) && keeps(data, base, x.0, from)
            && x.0.len() < u64::MAX,
        from <= s.len(),
        17 <= bits <= 64,
        3 + offset_size(bits) <= id_len <= 9,
        0 < objects.len() <= 0xffff,
        forall|i: int| 0 <= i < objects.len() ==> (#[trigger] objects[i]).len() > 0,
    ensures
        ({
            let (out, addr, ids) = heap_written(s, objects, id_len, bits)->Ok_0;
            &&& heap_at(data, base, addr, given) == Ok::<HeapInfo, Seq<char>>(h)
            &&& ids.len() == objects.len()
            &&& same_size(ids, id_len)
            &&& forall|i: int|
                0 <= i < objects.len() ==> heap_item(data, base, h, #[trigger] ids[i]) == Ok::<
                    Seq<u8>,
                    Seq<char>,
                >(objects[i])
        }),
{
    let (out, addr, ids) = heap_written(s, objects, id_len, bits)->Ok_0;
    lemma_ids(s, objects, id_len, bits);
    assert(objects[0].len() > 0);
    law_heap_read(data, base, s, objects, id_len, bits, from, given, 0);
    let h = heap_at(data, base, addr, given)->Ok_0;
    assert forall|i: int| 0 <= i < objects.len() implies heap_item(data, base, h, #[trigger] ids[i])
        == Ok::<Seq<u8>, Seq<char>>(objects[i]) by {
        assert(objects[i].len() > 0);
        law_heap_read(data, base, s, objects, id_len, bits, from, given, i);
    }
    h
}

/// Attributes in dense storage are read as they were written, from any file that holds
/// the image.
pub proof fn law_dense_attrs_read(
    data: Seq<u8>,
    base: u64,
    given: Seq<(u64, Seq<u8>)>,
    s: Seq<u8>,
    attrs: Seq<AttrView>,
    out: Seq<u8>,
    heap: u64,
    tree: u64,
    from: nat,
)
    requires
        dense_attrs_written(s, attrs) == Ok::<(Seq<u8>, u64, u64), Seq<char>>((out, heap, tree)),
        keeps(data, base, out, from),
        out.len() < u64::MAX,
        data.len() <= u64::MAX,
        0 < from <= s.len(),
        attrs_plain(attrs),
        0 < attrs.len() <= 0xffff,
    ensures
        dense_attrs(data, base, given, heap, tree, Seq::empty()) == Ok::<
            Seq<AttrView>,
            Seq<char>,
        >(in_hash_order(attrs.map_values(|a: AttrView| attr_back(a)), attr_names(attrs))),
{
    let (s1, objects) = attrs_encoded(s, attrs, true);
    lemma_dense_attrs_extend(s, attrs);
    let (s2, addr, ids) = heap_written(s1, objects, 8, 40)->Ok_0;
    lemma_keeps_less(data, base, out, s2, from);
    lemma_keeps_less(data, base, s2, s1, from);
    lemma_attrs_encoded(data, base, s, attrs, true, from);
    assert forall|i: int| 0 <= i < objects.len() implies (#[trigger] objects[i]).len() > 0 by {
        lemma_object(data, base, attrs, objects, i);
    }
    let h = lemma_all_read(data, base, s1, objects, 8, 40, from, given);
    lemma_attr_list(data, base, h, attrs, objects, ids);
    let records = bare(by_hash(attr_records(attr_names(attrs), ids)));
    law_leaf_read(data, base, s2, 8, 17, records, from);
}

/// The identifiers of a heap have the length of identifiers.
pub(crate) proof fn lemma_ids(s: Seq<u8>, objects: Seq<Seq<u8>>, id_len: nat, bits: nat)
    requires
        heap_written(s, objects, id_len, bits) is Ok,
        3 + offset_size(bits) <= id_len <= 9,
    ensures
        same_size(heap_written(s, objects, id_len, bits)->Ok_0.2, id_len),
        heap_written(s, objects, id_len, bits)->Ok_0.2.len() == objects.len(),
{
    reveal(heap_written);
    lemma_ids_size(objects, offset_size(bits), id_len);
    crate::format::heap_laws::lemma_plan(
        objects,
        offset_size(bits),
        id_len,
        planned(objects, offset_size(bits), id_len)->Ok_0,
    );
}

/// The message of an attribute in dense storage.
proof fn lemma_object(
    data: Seq<u8>,
    base: u64,
    attrs: Seq<AttrView>,
    objects: Seq<Seq<u8>>,
    i: int,
)
    requires
        attrs_plain(attrs),
        bodies_told(data, base, attrs, objects, true),
        0 <= i < attrs.len(),
    ensures
        objects[i].len() > 0,
        crate::format::attribute::attr_parsed(data, base, objects[i]) == Ok::<
            Option<AttrView>,
            Seq<char>,
        >(Some(attr_back(attrs[i]))),
{
    let a = attrs[i];
    assert(body_told(data, base, attrs[i], objects[i], true));
    assert(attr_plain(attrs[i]));
    let stored = choose|stored: Seq<u8>|
        #![trigger attr_stored(data, base, a, stored)]
        attr_stored(data, base, a, stored) && objects[i] == attr_body(a, stored, true);
    law_dense_attribute_read(data, base, a, stored);
}

// Links.

/// The records of dense links lead to them.
proof fn lemma_record_links(
    data: Seq<u8>,
    base: u64,
    h: HeapInfo,
    records: Seq<Seq<u8>>,
    i: int,
    out: Seq<RawLinkView>,
)
    requires
        0 <= i <= records.len(),
        out.len() == records.len(),
        forall|k: int|
            0 <= k < records.len() ==> {
                &&& (#[trigger] records[k]).len() == 11
                &&& heap_item(data, base, h, records[k].skip(4)) matches Ok(msg)
                    && crate::format::object::link_parsed(msg) == Ok::<
                    Option<RawLinkView>,
                    Seq<char>,
                >(Some(out[k]))
            },
    ensures
        record_links(data, base, h, records, i, out.take(i)) == Ok::<
            Seq<RawLinkView>,
            Seq<char>,
        >(out),
    decreases records.len() - i,
{
    if i < records.len() {
        assert(records[i].len() == 11);
        assert(out.take(i).push(out[i]) =~= out.take(i + 1));
        lemma_record_links(data, base, h, records, i + 1, out);
    } else {
        assert(out.take(i) =~= out);
    }
}

/// Links without numbers keep their order.
proof fn lemma_unnumbered(links: Seq<RawLinkView>)
    requires
        forall|i: int| 0 <= i < links.len() ==> (#[trigger] links[i]).creation_order == 0,
    ensures
        by_order(links) == links,
    decreases links.len(),
{
    if links.len() > 0 {
        let init = links.drop_last();
        assert forall|i: int| 0 <= i < init.len() implies (#[trigger] init[i]).creation_order
            == 0 by {
            assert(init[i] == links[i]);
        }
        lemma_unnumbered(init);
        assert(links[links.len() - 1].creation_order == 0);
        if init.len() > 0 {
            assert(init[init.len() - 1].creation_order == 0);
        }
        assert(order_place(init, 0) == init.len());
        assert(init.insert(init.len() as int, links.last()) =~= links);
    }
}

/// The names of links.
pub open spec fn link_names(list: Seq<LinkView>) -> Seq<Seq<char>> {
    list.map_values(|l: LinkView| l.name)
}

/// Links in dense storage leave the image before them as it is.
pub proof fn lemma_dense_links_extend(s: Seq<u8>, list: Seq<LinkView>, refs: Seq<Ref>)
    requires
        dense_links_written(s, list, refs) is Ok,
    ensures
        extends(dense_links_written(s, list, refs)->Ok_0.0, s),
        heap_written(s, link_bodies(list, refs), 7, 32) is Ok,
        extends(heap_written(s, link_bodies(list, refs), 7, 32)->Ok_0.0, s),
        extends(
            dense_links_written(s, list, refs)->Ok_0.0,
            heap_written(s, link_bodies(list, refs), 7, 32)->Ok_0.0,
        ),
{
    reveal(dense_links_written);
    let objects = link_bodies(list, refs);
    lemma_heap_extends(s, objects, 7, 32);
    let (s1, heap, ids) = heap_written(s, objects, 7, 32)->Ok_0;
    let records = bare(by_hash(link_records(list, ids)));
    lemma_leaf_extends(s1, 5, 11, records);
    lemma_extends(s, s1, leaf_written(s1, 5, 11, records).0);
}

proof fn lemma_link_record(list: Seq<LinkView>, ids: Seq<Seq<u8>>, i: int)
    requires
        0 <= i < list.len(),
        ids[i].len() == 7,
    ensures
        link_records(list, ids)[i].1.len() == 11,
        link_records(list, ids)[i].1.skip(4) == ids[i],
        link_records(list, ids)[i].0 == name_hashes(link_names(list))[i],
{
    let rec = link_records(list, ids)[i].1;
    let hash = lookup3(encode_utf8(list[i].name));
    lemma_le_bytes_len(hash as nat, 4);
    assert(rec.skip(4) =~= ids[i]);
}

/// The records of dense links, in the order of their hashes, lead to them.
#[verifier::rlimit(60)]
#[verifier::spinoff_prover]
proof fn lemma_link_list(
    data: Seq<u8>,
    base: u64,
    h: HeapInfo,
    list: Seq<LinkView>,
    refs: Seq<Ref>,
    ids: Seq<Seq<u8>>,
)
    requires
        forall|i: int| 0 <= i < list.len() ==> link_plain(#[trigger] list[i]),
        same_size(ids, 7),
        ids.len() == list.len(),
        forall|i: int|
            0 <= i < list.len() ==> heap_item(data, base, h, #[trigger] ids[i]) == Ok::<
                Seq<u8>,
                Seq<char>,
            >(link_bodies(list, refs)[i]),
    ensures
        ({
            let records = bare(by_hash(link_records(list, ids)));
            &&& records.len() == list.len()
            &&& same_size(records, 11)
            &&& record_links(data, base, h, records, 0, Seq::empty()) == Ok::<
                Seq<RawLinkView>,
                Seq<char>,
            >(in_hash_order(raw_links(list, refs), link_names(list)))
        }),
{
    let v = name_hashes(link_names(list));
    let want = in_hash_order(raw_links(list, refs), link_names(list));
    let records = bare(by_hash(link_records(list, ids)));
    lemma_link_order(list, ids);
    law_hash_order(v);
    assert forall|k: int| 0 <= k < records.len() implies {
        &&& (#[trigger] records[k]).len() == 11
        &&& heap_item(data, base, h, records[k].skip(4)) matches Ok(msg)
            && crate::format::object::link_parsed(msg) == Ok::<Option<RawLinkView>, Seq<char>>(
            Some(want[k]),
        )
    } by {
        let i = hash_order(v)[k];
        assert(0 <= i < v.len());
        assert(link_plain(list[i]));
        lemma_link_object(list, refs, i);
        assert(records[k].skip(4) == ids[i]);
        assert(heap_item(data, base, h, ids[i]) == Ok::<Seq<u8>, Seq<char>>(
            link_bodies(list, refs)[i],
        ));
        assert(want[k] == raw_link(list[i], refs[i].oh_addr));
    }
    lemma_record_links(data, base, h, records, 0, want);
    assert(want.take(0) =~= Seq::empty());
}

/// The records of dense links in their order.
proof fn lemma_link_order(list: Seq<LinkView>, ids: Seq<Seq<u8>>)
    requires
        same_size(ids, 7),
        ids.len() == list.len(),
    ensures
        ({
            let records = bare(by_hash(link_records(list, ids)));
            let order = hash_order(name_hashes(link_names(list)));
            &&& records.len() == list.len()
            &&& same_size(records, 11)
            &&& order.len() == list.len()
            &&& forall|k: int|
                0 <= k < list.len() ==> (#[trigger] records[k]).skip(4) == ids[order[k]]
        }),
{
    let listed = link_records(list, ids);
    let v = name_hashes(link_names(list));
    assert forall|i: int| 0 <= i < listed.len() implies #[trigger] v[i] == listed[i].0 by {
        assert(ids[i].len() == 7);
        lemma_link_record(list, ids, i);
    }
    assert forall|i: int| 0 <= i < listed.len() implies (#[trigger] listed[i]).1.len() == 11 by {
        assert(ids[i].len() == 7);
        lemma_link_record(list, ids, i);
    }
    lemma_by_hash(listed, v);
    law_hash_order(v);
    lemma_by_hash_sized(listed, 11);
    let records = bare(by_hash(listed));
    assert forall|k: int| 0 <= k < list.len() implies (#[trigger] records[k]).skip(4)
        == ids[hash_order(v)[k]] by {
        let i = hash_order(v)[k];
        assert(0 <= i < v.len());
        assert(ids[i].len() == 7);
        lemma_link_record(list, ids, i);
    }
}

/// The message of a link in dense storage.
proof fn lemma_link_object(list: Seq<LinkView>, refs: Seq<Ref>, i: int)
    requires
        0 <= i < list.len(),
        link_plain(list[i]),
    ensures
        link_bodies(list, refs)[i].len() > 0,
        crate::format::object::link_parsed(link_bodies(list, refs)[i]) == Ok::<
            Option<RawLinkView>,
            Seq<char>,
        >(Some(raw_link(list[i], refs[i].oh_addr))),
{
    let body = link_bodies(list, refs)[i];
    law_link_message_read(list[i], refs[i].oh_addr, Seq::empty());
    assert(body + Seq::<u8>::empty() =~= body);
}

/// Links in dense storage are read as they were written, from any file that holds the
/// image.
pub proof fn law_dense_links_read(
    data: Seq<u8>,
    base: u64,
    given: Seq<(u64, Seq<u8>)>,
    s: Seq<u8>,
    list: Seq<LinkView>,
    refs: Seq<Ref>,
    out: Seq<u8>,
    heap: u64,
    tree: u64,
    from: nat,
)
    requires
        dense_links_written(s, list, refs) == Ok::<(Seq<u8>, u64, u64), Seq<char>>(
            (out, heap, tree),
        ),
        keeps(data, base, out, from),
        out.len() < u64::MAX,
        from <= s.len(),
        0 < list.len() <= 0xffff,
        forall|i: int| 0 <= i < list.len() ==> link_plain(#[trigger] list[i]),
    ensures
        dense_links(data, base, given, heap, tree) == Ok::<Seq<RawLinkView>, Seq<char>>(
            in_hash_order(raw_links(list, refs), link_names(list)),
        ),
{
    let objects = link_bodies(list, refs);
    lemma_dense_links_extend(s, list, refs);
    let (s1, addr, ids) = heap_written(s, objects, 7, 32)->Ok_0;
    lemma_keeps_less(data, base, out, s1, from);
    assert forall|i: int| 0 <= i < objects.len() implies (#[trigger] objects[i]).len() > 0 by {
        assert(link_plain(list[i]));
        lemma_link_object(list, refs, i);
    }
    let h = lemma_all_read(data, base, s, objects, 7, 32, from, given);
    lemma_link_list(data, base, h, list, refs, ids);
    let records = bare(by_hash(link_records(list, ids)));
    assert(leaf_written(s1, 5, 11, records) == (out, tree) && addr == heap) by {
        reveal(dense_links_written);
    }
    law_leaf_read(data, base, s1, 5, 11, records, from);
    let want = in_hash_order(raw_links(list, refs), link_names(list));
    let v = name_hashes(link_names(list));
    law_hash_order(v);
    assert forall|i: int| 0 <= i < want.len() implies (#[trigger] want[i]).creation_order == 0 by {
        assert(0 <= hash_order(v)[i] < v.len());
    }
    lemma_unnumbered(want);
}

} // verus!
