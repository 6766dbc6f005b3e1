//! Files are read as they are written.

use vstd::prelude::*;

use crate::format::dataset_laws::{
    comes_back, dataset_told, law_dataset_read, lemma_dataset_cells_extend, lemma_layout_extends,
    maps_back,
};
use crate::format::datatype::encoded;
use crate::format::datatype_laws::{plain_name, storable};
use crate::format::dense_laws::{
    hash_order, in_hash_order, law_hash_order, link_names, name_hashes,
};
use crate::format::elements::fitted;
use crate::format::group::{link_members, MemberLink};
use crate::format::group_laws::{
    law_named_type_read, law_table_group_read, lemma_header_grows, lemma_table_extends, table_fits,
    type_fits,
};
use crate::format::group_write::{has_external, links_entered, table_written, Ref};
use crate::format::header::{MSG_DATATYPE, MSG_SYMBOL_TABLE};
use crate::format::header_write::plain_message;
use crate::format::link_laws::{
    compact_fits, dense_fits, law_compact_group_read, law_dense_group_read, lemma_compact_grows,
    link_plain, raw_links, raw_target,
};
use crate::format::object::{ImageView, RawTargetView};
use crate::format::object_laws::{attrs_back, keeps, node_plain};
use crate::format::object_write::{
    dataset_cells, dataset_messages, dataset_writes, dataset_written, finished, layout_written,
    stored_as, ImageOut, Written,
};
use crate::format::reader::{file_indexes, object_read, RawKindView, RawObjectView};
use crate::format::index_laws::{indexes_told, law_tables_read, lemma_tables, stores_for};
use crate::format::share::{tables_written, StoreView};
use crate::format::share_laws::{
    grows, keeps_but, lemma_dataset_stores, lemma_finished_grows, lemma_grows, lemma_known_on,
    lemma_plain_grows, lemma_same_image, lemma_same_stores, lemma_settled_before,
    lemma_settled_plain, settled_in, sound,
};
use crate::format::superblock::{
    file_signature, signature_at, superblock_of, superblock_parsed, Superblock,
};
use crate::format::table_laws::{members_of, table_plain};
use crate::format::tree::{lemma_extends, padded};
use crate::format::writer::{
    blank, file_finished, file_writes, group_finished, lemma_group_unfold, lemma_leaf_unfold,
    lemma_links_unfold, links_write, new_superblock, object_writes, old_superblock, table_finished,
    table_info, write_order,
};
use crate::format::{law_le_round_trip, le_bytes, lemma_le_bytes_len, lemma_pow256, patched, UNDEF};
use crate::model::{
    DatasetView, FileView, GroupView, KindView, LinkView, NodeView, TargetView,
};
use crate::types::TypeView;

verus! {

// What grows.

/// A dataset stands behind the image before it.
proof fn lemma_dataset_grows(
    w: ImageOut,
    n: NodeView,
    d: DatasetView,
    chunks: Result<Seq<Seq<u8>>, Seq<char>>,
    w1: ImageOut,
    r: Ref,
)
    requires
        dataset_written(w, n, d, chunks) == Ok::<(ImageOut, Ref), Seq<char>>((w1, r)),
        sound(w),
    ensures
        grows(w1, w),
        sound(w1),
        w1.memo == w.memo,
        r.cache_type == 0,
        r.oh_addr < w1.buf.len(),
{
    let (s0, cells) = dataset_cells(w.buf, d);
    let (s1, body) = layout_written(s0, d, cells, chunks)->Ok_0;
    let (stores, ms) = dataset_messages(w.stores, d, body);
    let mid = ImageOut { buf: s1, stores, ..w };
    assert(finished(mid, n, ms) == Ok::<(ImageOut, u64), Seq<char>>((w1, r.oh_addr)));
    lemma_header_grows(mid, n, ms, w1, r.oh_addr);
    lemma_dataset_cells_extend(w.buf, d);
    lemma_layout_extends(s0, d, cells, chunks);
    lemma_extends(w.buf, s0, s1);
    lemma_dataset_stores(w.stores, d, body);
    lemma_known_on(w.patches, w.stores, stores);
    lemma_finished_grows(mid, n, ms, w1, r.oh_addr);
    assert(w.patches.take(w.patches.len() as int) =~= w.patches);
    lemma_grows(w, mid, w1);
}

/// A group with a symbol table stands behind the image before it.
proof fn lemma_table_grows(
    w: ImageOut,
    n: NodeView,
    list: Seq<LinkView>,
    refs: Seq<Ref>,
    w1: ImageOut,
    r: Ref,
)
    requires
        table_finished(w, n, list, refs) == Ok::<(ImageOut, Ref), Seq<char>>((w1, r)),
        sound(w),
    ensures
        grows(w1, w),
        sound(w1),
        w1.patches == w.patches,
        w1.memo == w.memo,
        r.cache_type == 1,
        r.oh_addr < w1.buf.len(),
        w1.buf.len() <= u64::MAX ==> r.oh_addr >= w.buf.len(),
{
    reveal(table_finished);
    let (s, tree, heap) = table_written(w.buf, list, refs)->Ok_0;
    lemma_table_extends(w.buf, list, refs, s, tree, heap);
    let mid = ImageOut { buf: s, ..w };
    let ms = seq![plain_message(MSG_SYMBOL_TABLE, table_info(tree, heap))];
    lemma_header_grows(mid, n, ms, w1, r.oh_addr);
    lemma_plain_grows(w, s, n, ms, w1, r.oh_addr);
}

/// A group stands behind the image before it.
proof fn lemma_group_grows(
    w: ImageOut,
    n: NodeView,
    links: Seq<LinkView>,
    refs: Seq<Ref>,
    w1: ImageOut,
    r: Ref,
)
    requires
        group_finished(w, n, links, refs) == Ok::<(ImageOut, Ref), Seq<char>>((w1, r)),
        sound(w),
    ensures
        grows(w1, w),
        sound(w1),
        w1.patches == w.patches,
        w1.memo == w.memo,
        r.cache_type < 2,
        r.oh_addr < w1.buf.len(),
        w1.buf.len() <= u64::MAX ==> r.oh_addr >= w.buf.len(),
{
    if has_external(links) {
        lemma_compact_grows(w, n, write_order(links), refs, w1, r);
    } else {
        lemma_table_grows(w, n, write_order(links), refs, w1, r);
    }
}

/// A named datatype stands behind the image before it.
proof fn lemma_type_grows(w: ImageOut, n: NodeView, t: TypeView, w1: ImageOut, addr: u64)
    requires
        finished(w, n, seq![plain_message(MSG_DATATYPE, encoded(t))]) == Ok::<
            (ImageOut, u64),
            Seq<char>,
        >((w1, addr)),
        sound(w),
    ensures
        grows(w1, w),
        sound(w1),
        w1.patches == w.patches,
        w1.memo == w.memo,
        addr < w1.buf.len(),
{
    let ms = seq![plain_message(MSG_DATATYPE, encoded(t))];
    lemma_header_grows(w, n, ms, w1, addr);
    assert(w.buf.take(w.buf.len() as int) =~= w.buf);
    lemma_plain_grows(w, w.buf, n, ms, w1, addr);
}

// Files that can be told from their images.

/// Whether links can be told from a symbol table: none leads to another file, names and
/// paths hold no zero bytes, and the heap with all of them is within the range of its
/// references.
pub open spec fn links_plain(list: Seq<LinkView>) -> bool {
    &&& forall|i: int|
        0 <= i < list.len() ==> plain_name((#[trigger] list[i]).name) && match list[i].target {
            TargetView::Soft(path) => plain_name(path),
            TargetView::Hard(_) => true,
            TargetView::External { .. } => false,
        }
    &&& forall|refs: Seq<Ref>|
        (#[trigger] links_entered(list, refs)).texts.data.len() < 0x1_0000_0000
}

/// Whether the links of a group can be told from what is written of it: its symbol table,
/// or where a link leads to another file, at most eight link messages or dense storage. A
/// tree over names counts its records in two bytes.
pub open spec fn group_told(n: NodeView, links: Seq<LinkView>) -> bool {
    let list = write_order(links);
    if has_external(links) {
        &&& forall|i: int| 0 <= i < list.len() ==> link_plain(#[trigger] list[i])
        &&& if list.len() > 8 {
            list.len() <= 0xffff && dense_fits(n)
        } else {
            compact_fits(n, list)
        }
    } else {
        table_fits(n) && links_plain(list)
    }
}

/// The order in which the links of a group are read: that in which they are written, but
/// for dense storage, where they come in the order of the hashes of their names.
pub open spec fn read_order(links: Seq<LinkView>) -> Seq<LinkView> {
    let list = write_order(links);
    if has_external(links) && list.len() > 8 {
        in_hash_order(list, link_names(list))
    } else {
        list
    }
}

/// Whether an object can be told from what is written of it.
pub open spec fn object_told(n: NodeView) -> bool {
    &&& node_plain(n)
    &&& match n.kind {
        KindView::Group(g) => group_told(n, g.links),
        KindView::Dataset(d) => dataset_told(n, d),
        KindView::NamedType(t) => storable(t) && t.sized() && type_fits(n, t),
        KindView::Unsupported(_) => true,
    }
}

/// Whether all objects of a file can be told from what is written of them, and its shared
/// messages from their indexes.
pub open spec fn file_told(f: FileView) -> bool {
    &&& indexes_told(f.sohm)
    &&& forall|i: nat|
        (#[trigger] f.object(i)) matches Some(n) ==> object_told(n)
}

/// Whether the references to written objects are those of objects within the image.
pub open spec fn memo_sound(f: FileView, w: ImageOut) -> bool {
    &&& w.memo.len() == f.objects.len()
    &&& forall|i: int|
        0 <= i < w.memo.len() ==> ((#[trigger] w.memo[i]) matches Some(x) ==> x.cache_type < 2
            && x.oh_addr < w.buf.len())
}

/// A dataset was written with some stored chunks.
proof fn lemma_dataset_unfold(w: ImageOut, n: NodeView, d: DatasetView, w1: ImageOut, r: Ref) -> (chunks:
    Result<Seq<Seq<u8>>, Seq<char>>)
    requires
        dataset_writes(w, n, d, None, Ok((w1, r))),
    ensures
        stored_as(d, dataset_cells(w.buf, d).1, None, chunks),
        dataset_written(w, n, d, chunks) == Ok::<(ImageOut, Ref), Seq<char>>((w1, r)),
{
    reveal(dataset_writes);
    let out: Written = Ok((w1, r));
    choose|chunks: Result<Seq<Seq<u8>>, Seq<char>>| #[trigger]
        stored_as(d, dataset_cells(w.buf, d).1, None, chunks) && out == dataset_written(
            w,
            n,
            d,
            chunks,
        )
}

/// What has been written stays when an object is written.
proof fn lemma_object_grows(
    f: FileView,
    w: ImageOut,
    id: nat,
    above: Seq<nat>,
    depth: nat,
    w1: ImageOut,
    r: Ref,
)
    requires
        object_writes(w, f, Seq::empty(), id, above, depth, Ok((w1, r))),
        file_told(f),
        sound(w),
        memo_sound(f, w),
    ensures
        grows(w1, w),
        sound(w1),
        memo_sound(f, w1),
        r.cache_type < 2,
        r.oh_addr < w1.buf.len(),
    decreases depth, 1nat, 0nat,
{
    let given = Seq::<Option<Seq<Seq<u8>>>>::empty();
    let leaf = lemma_leaf_unfold(w, f, given, id, above, depth, w1, r);
    if id < w.memo.len() && w.memo[id as int] is Some {
        lemma_same_image(w);
    } else {
        let n = f.object(id)->0;
        assert(object_told(n));
        match n.kind {
            KindView::Group(g) => {
                let list = write_order(g.links);
                let (wm, refs, wg) = lemma_group_unfold(
                    w,
                    f,
                    given,
                    id,
                    above,
                    depth,
                    n,
                    g,
                    w1,
                    r,
                );
                lemma_links_grow(f, w, list, above.push(id), (depth - 1) as nat, wm, refs);
                lemma_group_grows(wm, n, g.links, refs, wg, r);
                lemma_grows(w, wm, w1);
            },
            KindView::Dataset(d) => {
                let chunks = lemma_dataset_unfold(w, n, d, leaf, r);
                lemma_dataset_grows(w, n, d, chunks, leaf, r);
            },
            KindView::NamedType(t) => {
                lemma_type_grows(w, n, t, leaf, r.oh_addr);
            },
            KindView::Unsupported(_) => {},
        }
    }
}

/// Whether the references that links lead to are those of objects within an image.
pub open spec fn refs_sound(refs: Seq<Ref>, links: Seq<LinkView>, len: nat) -> bool {
    forall|i: int|
        0 <= i < refs.len() ==> (#[trigger] refs[i]).cache_type < 2 && (
        links[i].target is Hard ==> refs[i].oh_addr < len)
}

/// What has been written stays when the objects of links are written.
proof fn lemma_links_grow(
    f: FileView,
    w: ImageOut,
    links: Seq<LinkView>,
    above: Seq<nat>,
    depth: nat,
    w1: ImageOut,
    refs: Seq<Ref>,
)
    requires
        links_write(w, f, Seq::empty(), links, above, depth, Ok((w1, refs))),
        file_told(f),
        sound(w),
        memo_sound(f, w),
    ensures
        grows(w1, w),
        sound(w1),
        memo_sound(f, w1),
        refs.len() == links.len(),
        refs_sound(refs, links, w1.buf.len()),
    decreases depth, 2nat, links.len(),
{
    let given = Seq::<Option<Seq<Seq<u8>>>>::empty();
    if links.len() == 0 {
        reveal(links_write);
        lemma_same_image(w);
    } else {
        let (wa, before, x) = lemma_links_unfold(w, f, given, links, above, depth, w1, refs);
        lemma_links_grow(f, w, links.drop_last(), above, depth, wa, before);
        match links.last().target {
            TargetView::Hard(id) => {
                lemma_object_grows(f, wa, id, above, depth, w1, x);
                lemma_grows(w, wa, w1);
            },
            _ => {},
        }
        assert forall|i: int| 0 <= i < refs.len() implies (#[trigger] refs[i]).cache_type < 2 && (
        links[i].target is Hard ==> refs[i].oh_addr < w1.buf.len()) by {
            if i < before.len() {
                assert(refs[i] == before[i]);
                assert(links.drop_last()[i] == links[i]);
            }
        }
    }
}

// What stands in a file.

/// Whether an object stands in a file: what is read at its address agrees with it, and
/// so does what its hard links lead to, which stands before it, down to `depth` links
/// below it.
pub open spec fn holds(img: ImageView, addr: u64, f: FileView, id: nat, depth: nat) -> bool
    decreases depth,
{
    match (f.object(id), object_read(img, addr)) {
        (Some(n), Ok(o)) => {
            &&& o.attrs == attrs_back(n.attrs)
            &&& o.comment == n.comment
            &&& o.mtime == n.mtime
            &&& match (o.kind, n.kind) {
                (RawKindView::Group(ms), KindView::Group(g)) => {
                    let list = read_order(g.links);
                    &&& ms.len() == list.len()
                    &&& forall|i: int|
                        0 <= i < list.len() ==> (#[trigger] ms[i]).name == list[i].name && match (
                            ms[i].target,
                            list[i].target,
                        ) {
                            (RawTargetView::Soft(p), TargetView::Soft(q)) => p == q,
                            (
                                RawTargetView::External { file, path },
                                TargetView::External { file: other, path: there },
                            ) => file == other && path == there,
                            (RawTargetView::Hard(a), TargetView::Hard(x)) => a < addr && (depth > 0
                                ==> holds(img, a, f, x, (depth - 1) as nat)),
                            _ => false,
                        }
                },
                (RawKindView::Dataset(x), KindView::Dataset(d)) => comes_back(img.data, x, d)
                    && maps_back(img.data, img.base, o.mappings, d.layout),
                (RawKindView::NamedType(a), KindView::NamedType(b)) => a == b,
                _ => false,
            }
        },
        _ => false,
    }
}

/// Whether an object stands in a file with all that its links lead to.
pub open spec fn stands_whole(img: ImageView, addr: u64, f: FileView, id: nat) -> bool {
    forall|depth: nat| #[trigger] holds(img, addr, f, id, depth)
}

/// Whether the objects that were written stand in a file.
pub open spec fn memo_stands(img: ImageView, f: FileView, memo: Seq<Option<Ref>>) -> bool {
    forall|i: int|
        0 <= i < memo.len() ==> ((#[trigger] memo[i]) matches Some(x) ==> stands_whole(
            img,
            x.oh_addr,
            f,
            i as nat,
        ))
}

/// A dataset stands in a file.
proof fn lemma_dataset_stands(
    img: ImageView,
    f: FileView,
    id: nat,
    w: ImageOut,
    n: NodeView,
    d: DatasetView,
    v: Seq<StoreView>,
    ids: Seq<Seq<Seq<u8>>>,
    w1: ImageOut,
    r: Ref,
)
    requires
        f.object(id) == Some(n),
        n.kind == KindView::Dataset(d),
        object_told(n),
        dataset_writes(w, n, d, None, Ok((w1, r))),
        sound(w),
        w.buf.len() >= 96,
        w1.buf.len() < u64::MAX,
        img.data.len() <= u64::MAX,
        settled_in(img, w1, v, ids),
    ensures
        stands_whole(img, r.oh_addr, f, id),
{
    let chunks = lemma_dataset_unfold(w, n, d, w1, r);
    assert(chunks is Ok) by {
        reveal(stored_as);
    }
    law_dataset_read(img, w, n, d, chunks->Ok_0, v, ids, w1, r);
    assert forall|k: nat| #[trigger] holds(img, r.oh_addr, f, id, k) by {}
}

/// The members that a group is read with, names and where they lead, and the numbers of
/// the links that they are.
proof fn lemma_group_read(
    img: ImageView,
    w: ImageOut,
    n: NodeView,
    links: Seq<LinkView>,
    refs: Seq<Ref>,
    w1: ImageOut,
    r: Ref,
) -> (x: (Seq<MemberLink>, Seq<int>))
    requires
        group_told(n, links),
        node_plain(n),
        group_finished(w, n, links, refs) == Ok::<(ImageOut, Ref), Seq<char>>((w1, r)),
        w.buf.len() >= 96,
        w1.buf.len() < u64::MAX,
        img.data.len() <= u64::MAX,
        keeps(img.data, img.base, w1.buf, w.buf.len()),
        refs.len() == write_order(links).len(),
        refs_sound(refs, write_order(links), w.buf.len()),
    ensures
        object_read(img, r.oh_addr) == Ok::<RawObjectView, Seq<char>>(
            RawObjectView {
                kind: RawKindView::Group(x.0),
                attrs: attrs_back(n.attrs),
                comment: n.comment,
                mtime: n.mtime,
                mappings: None,
            },
        ),
        ({
            let (ms, order) = x;
            let list = write_order(links);
            &&& ms.len() == list.len()
            &&& order.len() == list.len()
            &&& read_order(links).len() == list.len()
            &&& forall|i: int|
                0 <= i < list.len() ==> 0 <= order[i] < list.len() && read_order(links)[i]
                    == list[order[i]] && (#[trigger] ms[i]).name == list[order[i]].name
                    && ms[i].target == raw_target(list[order[i]].target, refs[order[i]].oh_addr)
        }),
{
    let list = write_order(links);
    let plain = Seq::new(list.len(), |i: int| i);
    if has_external(links) {
        if list.len() > 8 {
            law_dense_group_read(img, w, n, list, refs, w1, r);
            let order = hash_order(name_hashes(link_names(list)));
            law_hash_order(name_hashes(link_names(list)));
            let ms = link_members(in_hash_order(raw_links(list, refs), link_names(list)));
            assert forall|i: int| 0 <= i < list.len() implies 0 <= order[i] < list.len()
                && read_order(links)[i] == list[order[i]] && (#[trigger] ms[i]).name
                == list[order[i]].name && ms[i].target == raw_target(
                list[order[i]].target,
                refs[order[i]].oh_addr,
            ) by {}
            (ms, order)
        } else {
            law_compact_group_read(img, w, n, list, refs, w1, r);
            (link_members(raw_links(list, refs)), plain)
        }
    } else {
        assert(table_plain(list, refs)) by {
            assert forall|i: int| 0 <= i < list.len() implies plain_name((#[trigger] list[i]).name)
                && refs[i].cache_type < 2 && match list[i].target {
                TargetView::Soft(path) => plain_name(path),
                TargetView::Hard(_) => true,
                TargetView::External { .. } => false,
            } by {
                assert(refs[i].cache_type < 2);
            }
        }
        assert(links_entered(list, refs).texts.data.len() < 0x1_0000_0000);
        law_table_group_read(img, w, n, list, refs, w1, r);
        let ms = members_of(list, refs);
        assert forall|i: int| 0 <= i < list.len() implies (#[trigger] ms[i]).name == list[i].name
            && ms[i].target == raw_target(list[i].target, refs[i].oh_addr) by {
            assert(plain_name(list[i].name));
            assert(refs[i].cache_type < 2);
        }
        (ms, plain)
    }
}

/// A group stands in a file that its links' objects stand in.
proof fn lemma_group_stands(
    img: ImageView,
    f: FileView,
    id: nat,
    w: ImageOut,
    n: NodeView,
    g: GroupView,
    refs: Seq<Ref>,
    w1: ImageOut,
    r: Ref,
)
    requires
        f.object(id) == Some(n),
        n.kind == KindView::Group(g),
        object_told(n),
        group_finished(w, n, g.links, refs) == Ok::<(ImageOut, Ref), Seq<char>>((w1, r)),
        w.buf.len() >= 96,
        w1.buf.len() < u64::MAX,
        img.data.len() <= u64::MAX,
        keeps(img.data, img.base, w1.buf, w.buf.len()),
        sound(w),
        links_stand(img, f, write_order(g.links), refs),
        refs_sound(refs, write_order(g.links), w.buf.len()),
    ensures
        stands_whole(img, r.oh_addr, f, id),
{
    let list = write_order(g.links);
    let read = read_order(g.links);
    lemma_group_grows(w, n, g.links, refs, w1, r);
    let (ms, order) = lemma_group_read(img, w, n, g.links, refs, w1, r);
    assert forall|depth: nat| #[trigger] holds(img, r.oh_addr, f, id, depth) by {
        assert forall|i: int| 0 <= i < read.len() implies (#[trigger] ms[i]).name == read[i].name
            && match (ms[i].target, read[i].target) {
            (RawTargetView::Soft(p), TargetView::Soft(q)) => p == q,
            (
                RawTargetView::External { file, path },
                TargetView::External { file: other, path: there },
            ) => file == other && path == there,
            (RawTargetView::Hard(a), TargetView::Hard(x)) => a < r.oh_addr && (depth > 0 ==> holds(
                img,
                a,
                f,
                x,
                (depth - 1) as nat,
            )),
            _ => false,
        } by {
            let k = order[i];
            assert(read[i] == list[k]);
            match list[k].target {
                TargetView::Hard(x) => {
                    assert(refs[k].cache_type < 2);
                    assert(stands_whole(img, refs[k].oh_addr, f, x));
                },
                _ => {},
            }
        }
    }
}

/// Whether the objects of links stand in a file.
pub open spec fn links_stand(
    img: ImageView,
    f: FileView,
    links: Seq<LinkView>,
    refs: Seq<Ref>,
) -> bool {
    &&& refs.len() == links.len()
    &&& forall|i: int|
        0 <= i < refs.len() ==> (#[trigger] refs[i]).cache_type < 2 && (
        links[i].target matches TargetView::Hard(x) ==> stands_whole(img, refs[i].oh_addr, f, x))
}

/// An object that was written stands in any file that holds the image, with all that its
/// links lead to.
proof fn lemma_object_stands(
    img: ImageView,
    f: FileView,
    w: ImageOut,
    id: nat,
    above: Seq<nat>,
    depth: nat,
    v: Seq<StoreView>,
    ids: Seq<Seq<Seq<u8>>>,
    w1: ImageOut,
    r: Ref,
)
    requires
        object_writes(w, f, Seq::empty(), id, above, depth, Ok((w1, r))),
        file_told(f),
        sound(w),
        memo_sound(f, w),
        w.buf.len() >= 96,
        w1.buf.len() < u64::MAX,
        img.data.len() <= u64::MAX,
        settled_in(img, w1, v, ids),
        memo_stands(img, f, w.memo),
    ensures
        stands_whole(img, r.oh_addr, f, id),
        memo_stands(img, f, w1.memo),
    decreases depth, 1nat, 0nat,
{
    let given = Seq::<Option<Seq<Seq<u8>>>>::empty();
    let leaf = lemma_leaf_unfold(w, f, given, id, above, depth, w1, r);
    if id < w.memo.len() && w.memo[id as int] is Some {
        assert(w.memo[id as int] == Some(r));
    } else {
        let n = f.object(id)->0;
        assert(object_told(n));
        match n.kind {
            KindView::Group(g) => {
                let list = write_order(g.links);
                let (wm, refs, wg) = lemma_group_unfold(
                    w,
                    f,
                    given,
                    id,
                    above,
                    depth,
                    n,
                    g,
                    w1,
                    r,
                );
                lemma_links_grow(f, w, list, above.push(id), (depth - 1) as nat, wm, refs);
                lemma_group_grows(wm, n, g.links, refs, wg, r);
                lemma_settled_before(img, wg, wm, v, ids);
                lemma_links_stand(
                    img,
                    f,
                    w,
                    list,
                    above.push(id),
                    (depth - 1) as nat,
                    v,
                    ids,
                    wm,
                    refs,
                );
                lemma_settled_plain(img, wg, wm, v, ids);
                lemma_group_stands(img, f, id, wm, n, g, refs, wg, r);
                assert(wg.memo == wm.memo);
            },
            KindView::Dataset(d) => {
                let chunks = lemma_dataset_unfold(w, n, d, leaf, r);
                lemma_dataset_grows(w, n, d, chunks, leaf, r);
                lemma_dataset_stands(img, f, id, w, n, d, v, ids, leaf, r);
            },
            KindView::NamedType(t) => {
                lemma_type_grows(w, n, t, leaf, r.oh_addr);
                lemma_settled_plain(img, leaf, w, v, ids);
                law_named_type_read(img, w, n, t, leaf, r);
                assert forall|k: nat| #[trigger] holds(img, r.oh_addr, f, id, k) by {}
            },
            KindView::Unsupported(_) => {},
        }
        assert(stands_whole(img, r.oh_addr, f, id));
        assert forall|i: int| 0 <= i < w1.memo.len() implies ((
        #[trigger] w1.memo[i]) matches Some(x) ==> stands_whole(
            img,
            x.oh_addr,
            f,
            i as nat,
        )) by {}
    }
}

/// The objects of links that were written stand in any file that holds the image.
proof fn lemma_links_stand(
    img: ImageView,
    f: FileView,
    w: ImageOut,
    links: Seq<LinkView>,
    above: Seq<nat>,
    depth: nat,
    v: Seq<StoreView>,
    ids: Seq<Seq<Seq<u8>>>,
    w1: ImageOut,
    refs: Seq<Ref>,
)
    requires
        links_write(w, f, Seq::empty(), links, above, depth, Ok((w1, refs))),
        file_told(f),
        sound(w),
        memo_sound(f, w),
        w.buf.len() >= 96,
        w1.buf.len() < u64::MAX,
        img.data.len() <= u64::MAX,
        settled_in(img, w1, v, ids),
        memo_stands(img, f, w.memo),
    ensures
        links_stand(img, f, links, refs),
        memo_stands(img, f, w1.memo),
    decreases depth, 2nat, links.len(),
{
    let given = Seq::<Option<Seq<Seq<u8>>>>::empty();
    lemma_links_grow(f, w, links, above, depth, w1, refs);
    if links.len() == 0 {
        reveal(links_write);
    } else {
        let init = links.drop_last();
        let (wa, before, x) = lemma_links_unfold(w, f, given, links, above, depth, w1, refs);
        lemma_links_grow(f, w, init, above, depth, wa, before);
        match links.last().target {
            TargetView::Hard(id) => {
                lemma_object_grows(f, wa, id, above, depth, w1, x);
                lemma_settled_before(img, w1, wa, v, ids);
                lemma_links_stand(img, f, w, init, above, depth, v, ids, wa, before);
                lemma_object_stands(img, f, wa, id, above, depth, v, ids, w1, x);
            },
            _ => {
                lemma_links_stand(img, f, w, init, above, depth, v, ids, wa, before);
            },
        }
        assert forall|i: int| 0 <= i < refs.len() implies (#[trigger] refs[i]).cache_type < 2 && (
        links[i].target matches TargetView::Hard(y) ==> stands_whole(
            img,
            refs[i].oh_addr,
            f,
            y,
        )) by {
            if i < before.len() {
                assert(refs[i] == before[i]);
                assert(init[i] == links[i]);
            }
        }
    }
}

// Whole files.

/// Whether a superblock behind a user block is found when it is looked for from `offset`
/// on: at none of the places before it is there a signature.
pub open spec fn block_passed(block: Seq<u8>, offset: int, base: int) -> bool
    decreases
            (if offset < base {
                base - offset
            } else {
                0
            }),
{
    offset == base || (0 <= offset < base && offset + 8 <= block.len() && block.subrange(
        offset,
        offset + 8,
    ) != file_signature() && block_passed(
        block,
        if offset == 0 {
            512
        } else {
            2 * offset
        },
        base,
    ))
}

/// Whether the superblock of a file is found behind its user block.
pub open spec fn block_told(f: FileView) -> bool {
    block_passed(fitted(f.userblock_data, f.userblock as nat), 0, f.userblock as int)
}

proof fn lemma_signature(out: Seq<u8>, block: Seq<u8>, image: Seq<u8>, offset: int)
    requires
        out == block + image,
        block_passed(block, offset, block.len() as int),
        image.len() >= 96,
        image.take(8) == file_signature(),
        0 <= offset <= block.len(),
    ensures
        signature_at(out, offset) == Some(block.len() as int),
    decreases block.len() - offset,
{
    if offset == block.len() {
        assert(out.subrange(offset, offset + 8) =~= image.take(8));
    } else {
        assert(out.subrange(offset, offset + 8) =~= block.subrange(offset, offset + 8));
        let next = if offset == 0 {
            512
        } else {
            2 * offset
        };
        assert(block_passed(block, next, block.len() as int));
        assert(next <= block.len());
        lemma_signature(out, block, image, next);
    }
}

/// The superblock of version 0 is read as it is written.
pub proof fn law_superblock_read(root: Ref, eof: nat, base: u64, rest: Seq<u8>)
    ensures
        old_superblock(root, eof, base).len() == 96,
        (old_superblock(root, eof, base) + rest).take(8) == file_signature(),
        superblock_parsed(old_superblock(root, eof, base) + rest) == Ok::<Superblock, Seq<char>>(
            Superblock { root: root.oh_addr, base, extension: UNDEF },
        ),
{
    let head = old_superblock(root, eof, base);
    let s = head + rest;
    lemma_pow256();
    lemma_le_bytes_len(4, 2);
    lemma_le_bytes_len(16, 2);
    lemma_le_bytes_len(base as nat, 8);
    lemma_le_bytes_len(UNDEF as nat, 8);
    lemma_le_bytes_len(eof, 8);
    lemma_le_bytes_len(root.oh_addr as nat, 8);
    lemma_le_bytes_len(1, 4);
    lemma_le_bytes_len(root.btree as nat, 8);
    lemma_le_bytes_len(root.heap as nat, 8);
    let a = file_signature() + seq![0u8, 0u8, 0u8, 0u8, 0u8, 8u8, 8u8, 0u8];
    assert(s.take(16) =~= a);
    assert(s.take(8) =~= file_signature());
    assert(s[8] == s.take(16)[8] && s[13] == s.take(16)[13] && s[14] == s.take(16)[14]);
    assert(s.subrange(24, 32) =~= le_bytes(base as nat, 8));
    assert(s.subrange(64, 72) =~= le_bytes(root.oh_addr as nat, 8));
    law_le_round_trip(base as nat, 8);
    law_le_round_trip(root.oh_addr as nat, 8);
}

/// The superblock of version 2 is read as it is written.
pub proof fn law_new_superblock_read(root: Ref, ext: u64, eof: nat, base: u64, rest: Seq<u8>)
    ensures
        new_superblock(root, ext, eof, base).len() == 48,
        (new_superblock(root, ext, eof, base) + rest).take(8) == file_signature(),
        superblock_parsed(new_superblock(root, ext, eof, base) + rest) == Ok::<
            Superblock,
            Seq<char>,
        >(Superblock { root: root.oh_addr, base, extension: ext }),
{
    let head = new_superblock(root, ext, eof, base);
    let s = head + rest;
    lemma_pow256();
    lemma_le_bytes_len(base as nat, 8);
    lemma_le_bytes_len(ext as nat, 8);
    lemma_le_bytes_len(eof, 8);
    lemma_le_bytes_len(root.oh_addr as nat, 8);
    let a = file_signature() + seq![2u8, 8u8, 8u8, 0u8];
    let text = a + le_bytes(base as nat, 8) + le_bytes(ext as nat, 8) + le_bytes(eof, 8) + le_bytes(
        root.oh_addr as nat,
        8,
    );
    lemma_le_bytes_len(crate::format::checksum::lookup3(text) as nat, 4);
    assert(s.take(12) =~= a);
    assert(s.take(8) =~= file_signature());
    assert(s[8] == s.take(12)[8] && s[9] == s.take(12)[9] && s[10] == s.take(12)[10]);
    assert(s.subrange(12, 20) =~= le_bytes(base as nat, 8));
    assert(s.subrange(20, 28) =~= le_bytes(ext as nat, 8));
    assert(s.subrange(36, 44) =~= le_bytes(root.oh_addr as nat, 8));
    law_le_round_trip(base as nat, 8);
    law_le_round_trip(ext as nat, 8);
    law_le_round_trip(root.oh_addr as nat, 8);
}

/// The image of a file in which its objects stand behind its superblock, with its indexes
/// of shared messages.
pub open spec fn whole_image(f: FileView, out: Seq<u8>) -> ImageView {
    ImageView {
        data: out,
        base: f.userblock,
        sohm: file_indexes(out, superblock_of(out)->Ok_0)->Ok_0,
        given: Seq::empty(),
    }
}

/// How a file was finished: its superblock stands before what was written.
proof fn lemma_file_finished(f: FileView, w: ImageOut, root: Ref, out: Seq<u8>) -> (r: (
    Seq<u8>,
    Option<u64>,
))
    requires
        file_finished(f, w, root) == Ok::<Seq<u8>, Seq<char>>(out),
        block_told(f),
        w.buf.len() >= 96,
        tables_written(w.buf, w.stores, w.patches) matches Ok(x) ==> x.0.len() >= 96,
    ensures
        tables_written(w.buf, w.stores, w.patches) == Ok::<(Seq<u8>, Option<u64>), Seq<char>>(r),
        r.0.len() <= out.len(),
        superblock_of(out) == Ok::<Superblock, Seq<char>>(
            Superblock {
                root: root.oh_addr,
                base: f.userblock,
                extension: match r.1 {
                    Some(x) => x,
                    None => UNDEF,
                },
            },
        ),
        keeps(out, f.userblock, r.0, 96),
        f.userblock < out.len(),
        out.take(f.userblock as int) == fitted(f.userblock_data, f.userblock as nat),
{
    let (s, extension) = tables_written(w.buf, w.stores, w.patches)->Ok_0;
    let whole = padded(s);
    let eof = (whole.len() + f.userblock) as nat;
    let head = match extension {
        Some(x) => new_superblock(root, x, eof, f.userblock),
        None => old_superblock(root, eof, f.userblock),
    };
    let image = patched(whole, 0, head);
    let block = if f.userblock == 0 {
        Seq::empty()
    } else {
        fitted(f.userblock_data, f.userblock as nat)
    };
    let rest = whole.subrange(head.len() as int, whole.len() as int);
    match extension {
        Some(x) => {
            law_new_superblock_read(root, x, eof, f.userblock, rest);
        },
        None => {
            law_superblock_read(root, eof, f.userblock, rest);
        },
    }
    assert(image =~= head + rest);
    assert(out =~= block + image);
    if f.userblock == 0 {
        assert(fitted(f.userblock_data, 0) =~= Seq::<u8>::empty());
    }
    assert(block.len() == f.userblock);
    lemma_signature(out, block, image, 0);
    assert(out.skip(f.userblock as int) =~= image);
    assert(out.take(f.userblock as int) =~= block);
    assert forall|i: int| 96 <= i < s.len() implies #[trigger] s[i] == out[f.userblock + i] by {
        assert(image[i] == whole[i]);
        assert(whole[i] == s[i]);
    }
    (s, extension)
}

/// The stores of a file that is blank.
proof fn lemma_blank(f: FileView)
    ensures
        sound(blank(f)),
        stores_for(blank(f).stores, f.sohm),
        memo_sound(f, blank(f)),
{
    let v = blank(f).stores;
    assert forall|i: int, k: int| 0 <= i < v.len() && 0 <= k < v[i].objects.len() implies (
    #[trigger] v[i].objects[k]).len() <= 4096 by {
        assert(v[i].objects.len() == 0);
    }
}

/// A file that was written is a file: its superblock is found and leads to the indexes of
/// its shared messages and to the root group, which is read there with all that its links
/// lead to.
pub proof fn law_file_stands(f: FileView, out: Seq<u8>)
    requires
        file_writes(f, Seq::empty(), Ok(out)),
        file_told(f),
        block_told(f),
        out.len() < u64::MAX,
    ensures
        superblock_of(out) matches Ok(sb) && sb.base == f.userblock && file_indexes(out, sb) is Ok
            && sb.root < out.len() && stands_whole(whole_image(f, out), sb.root, f, f.root),
        f.userblock < out.len(),
        out.take(f.userblock as int) == fitted(f.userblock_data, f.userblock as nat),
{
    let given = Seq::<Option<Seq<Seq<u8>>>>::empty();
    let (w, root) = lemma_file_unfold(f, given, out);
    let start = blank(f);
    lemma_blank(f);
    lemma_object_grows(f, start, f.root, Seq::empty(), f.objects.len(), w, root);
    let v = w.stores;
    assert(stores_for(v, f.sohm)) by {
        assert forall|i: int| 0 <= i < v.len() implies (#[trigger] v[i]).flags == f.sohm[i].0
            && v[i].min_size == f.sohm[i].1 by {
            assert(start.stores[i].flags == f.sohm[i].0);
        }
    }
    lemma_tables_grow(w);
    let (s, extension) = lemma_file_finished(f, w, root, out);
    let img = whole_image(f, out);
    lemma_same_stores(v);
    let ids = match extension {
        None => {
            reveal(tables_written);
            assert(v.len() == 0);
            assert(keeps_but(out, f.userblock, w.buf, 96, w.patches, Seq::empty())) by {
                assert(w.patches.len() == 0) by {
                    if w.patches.len() > 0 {
                        assert(w.patches[0].index < v.len());
                    }
                }
                assert forall|i: int| 96 <= i < w.buf.len() implies #[trigger] w.buf[i] == out[
                    f.userblock + i] by {}
            }
            Seq::empty()
        },
        Some(ext) => {
            let (sohm, ids) = law_tables_read(
                out,
                f.userblock,
                w.buf,
                v,
                w.patches,
                f.sohm,
                Seq::empty(),
                s,
                ext,
            );
            assert(img == (ImageView { data: out, base: f.userblock, sohm, given: Seq::empty() }));
            ids
        },
    };
    assert(settled_in(img, w, v, ids));
    assert(memo_stands(img, f, start.memo));
    lemma_object_stands(
        img,
        f,
        start,
        f.root,
        Seq::empty(),
        f.objects.len(),
        v,
        ids,
        w,
        root,
    );
}

/// The tables of shared messages stand behind the image before them.
proof fn lemma_tables_grow(w: ImageOut)
    requires
        sound(w),
    ensures
        tables_written(w.buf, w.stores, w.patches) matches Ok(x) ==> x.0.len() >= w.buf.len() && (
        x.1 is Some == (w.stores.len() > 0)),
{
    reveal(tables_written);
    if w.stores.len() > 0 {
        if let Ok((out, Some(ext))) = tables_written(w.buf, w.stores, w.patches) {
            lemma_tables(w.buf, w.stores, w.patches, out, ext);
        }
    }
}

/// A file was written behind its root group.
proof fn lemma_file_unfold(
    f: FileView,
    given: Seq<Option<Seq<Seq<u8>>>>,
    out: Seq<u8>,
) -> (r: (ImageOut, Ref))
    requires
        file_writes(f, given, Ok(out)),
    ensures
        object_writes(
            blank(f),
            f,
            given,
            f.root,
            Seq::empty(),
            f.objects.len(),
            Ok((r.0, r.1)),
        ),
        file_finished(f, r.0, r.1) == Ok::<Seq<u8>, Seq<char>>(out),
{
    reveal(file_writes);
    let whole: Result<Seq<u8>, Seq<char>> = Ok(out);
    let mid = choose|mid: Written| #[trigger]
        object_writes(
            blank(f),
            f,
            given,
            f.root,
            Seq::empty(),
            f.objects.len(),
            mid,
        ) && whole == match mid {
            Err(e) => Err(e),
            Ok((w, root)) => file_finished(f, w, root),
        };
    (mid->Ok_0.0, mid->Ok_0.1)
}

} // verus!
