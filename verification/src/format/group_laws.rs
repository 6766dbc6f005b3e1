//! Groups and named datatypes are read as they are written.

use vstd::prelude::*;

use crate::format::datatype::{encoded, OrderView};
use crate::format::datatype_laws::{law_datatype_round_trip, storable};
use crate::format::group::link_members;
use crate::format::group_write::{
    group_shape, links_entered, node_total, nodes_written, table_written, Ref,
};
use crate::format::header::{MSG_DATATYPE, MSG_SYMBOL_TABLE};
use crate::format::header_laws::messages_read;
use crate::format::header_write::{plain_message, OutView};
use crate::format::object::{all_applied, empty_header, plain_applied, HeaderView, ImageView};
use crate::format::object_laws::{
    attrs_back, attrs_dense, fill_of, header_fits, keeps, lemma_finished, lemma_header_back,
    lemma_plain_then, node_plain, whole_messages,
};
use crate::format::object_write::{finished, ImageOut};
use crate::format::reader::{object_read, RawKindView, RawObjectView};
use crate::format::table_laws::{
    law_table_read, lemma_heap_extends, lemma_nodes_extend, lemma_table_parts, members_of,
    table_plain,
};
use crate::format::tree::{extends, heap_written, lemma_extends};
use crate::format::tree_laws::{lemma_keeps_less, lemma_tree_extends};
use crate::format::writer::{bare_object, table_finished, table_info};
use crate::format::{law_le_round_trip, le_bytes, lemma_le_bytes_len, lemma_pow256};
use crate::model::{LinkView, NodeView};
use crate::types::TypeView;

verus! {

/// A header stands behind the image before it.
pub(crate) proof fn lemma_header_grows(
    w: ImageOut,
    n: NodeView,
    ms: Seq<OutView>,
    w1: ImageOut,
    addr: u64,
)
    requires
        finished(w, n, ms) == Ok::<(ImageOut, u64), Seq<char>>((w1, addr)),
    ensures
        extends(w1.buf, w.buf),
        w1.memo == w.memo,
        w1.stores == w.stores,
        addr < w1.buf.len(),
        w1.buf.len() <= u64::MAX ==> addr >= w.buf.len(),
{
    let (s, attrs) = lemma_finished(w, n, ms, w1, addr);
    lemma_extends(w.buf, s, w1.buf);
}

/// Whether the header of a group with a symbol table has room for what it holds.
pub open spec fn table_fits(n: NodeView) -> bool {
    forall|tree: u64, heap: u64|
        header_fits(
            whole_messages(
                seq![plain_message(MSG_SYMBOL_TABLE, #[trigger] table_info(tree, heap))],
                n,
            ),
        )
}

/// A symbol table stands behind the image before it.
pub(crate) proof fn lemma_table_extends(
    s: Seq<u8>,
    links: Seq<LinkView>,
    refs: Seq<Ref>,
    out: Seq<u8>,
    tree: u64,
    heap: u64,
)
    requires
        table_written(s, links, refs) == Ok::<(Seq<u8>, u64, u64), Seq<char>>((out, tree, heap)),
    ensures
        extends(out, s),
{
    let t = links_entered(links, refs);
    let s1 = heap_written(s, t.texts.data).0;
    lemma_table_parts(s, links, refs, out, tree, heap, t, s1);
    lemma_heap_extends(s, t.texts.data);
    let k = node_total(t.entries.len());
    let (s2, cs) = nodes_written(s1, t.entries, k);
    lemma_nodes_extend(s1, t.entries, k);
    lemma_tree_extends(s2, group_shape(), 0, cs);
    lemma_extends(s, s1, s2);
    lemma_extends(s, s2, out);
}

/// A group with a symbol table is read as it was written, from any file that holds the
/// image: its links come back with their names and where they lead.
pub proof fn law_table_group_read(
    img: ImageView,
    w: ImageOut,
    n: NodeView,
    list: Seq<LinkView>,
    refs: Seq<Ref>,
    w1: ImageOut,
    r: Ref,
)
    requires
        table_finished(w, n, list, refs) == Ok::<(ImageOut, Ref), Seq<char>>((w1, r)),
        w.buf.len() >= 96,
        w1.buf.len() < u64::MAX,
        img.data.len() <= u64::MAX,
        keeps(img.data, img.base, w1.buf, w.buf.len()),
        node_plain(n),
        table_fits(n),
        table_plain(list, refs),
        links_entered(list, refs).texts.data.len() < 0x1_0000_0000,
    ensures
        object_read(img, r.oh_addr) == Ok::<RawObjectView, Seq<char>>(
            RawObjectView {
                kind: RawKindView::Group(members_of(list, refs)),
                attrs: attrs_back(n.attrs),
                comment: n.comment,
                mtime: n.mtime,
                mappings: None,
            },
        ),
{
    let (s, tree, heap) = table_written(w.buf, list, refs)->Ok_0;
    let body = table_info(tree, heap);
    let mid = ImageOut { buf: s, ..w };
    let ms = seq![plain_message(MSG_SYMBOL_TABLE, body)];
    assert(table_written(w.buf, list, refs) == Ok::<(Seq<u8>, u64, u64), Seq<char>>(
        (s, tree, heap),
    ) && finished(mid, n, ms) == Ok::<(ImageOut, u64), Seq<char>>((w1, r.oh_addr))) by {
        reveal(table_finished);
    }
    lemma_table_extends(w.buf, list, refs, s, tree, heap);
    lemma_header_grows(mid, n, ms, w1, r.oh_addr);
    lemma_keeps_less(img.data, img.base, w1.buf, s, w.buf.len());
    law_table_read(img.data, img.base, w.buf, list, refs, s, tree, heap);
    let h = HeaderView { symbol_table: Some((tree, heap)), ..empty_header() };
    let depth = img.data.len();
    let fill = !attrs_dense(n.attrs);
    lemma_table_applied(img, tree, heap, fill_of(body, fill));
    lemma_first(img, MSG_SYMBOL_TABLE, body, fill, h, depth);
    assert(header_fits(whole_messages(ms, n)));
    lemma_header_back(img, mid, n, ms, w1, r.oh_addr, h, depth);
    let members = members_of(list, refs);
    assert(members + link_members(h.links) =~= members);
}

/// A header of one message is read.
pub(crate) proof fn lemma_first(
    img: ImageView,
    kind: u16,
    body: Seq<u8>,
    fill: bool,
    h: HeaderView,
    depth: nat,
)
    requires
        plain_applied(img, kind, body + fill_of(body, fill), empty_header()) == Ok::<
            HeaderView,
            Seq<char>,
        >(h),
    ensures
        all_applied(
            img,
            messages_read(seq![plain_message(kind, body)], fill),
            0,
            empty_header(),
            depth,
        ) == Ok::<HeaderView, Seq<char>>(h),
{
    let none = Seq::<OutView>::empty();
    assert(messages_read(none, fill) =~= Seq::empty());
    lemma_plain_then(img, none, kind, body, fill, empty_header(), h, depth);
    assert(none.push(plain_message(kind, body)) =~= seq![plain_message(kind, body)]);
}

proof fn lemma_table_applied(img: ImageView, tree: u64, heap: u64, s: Seq<u8>)
    ensures
        plain_applied(img, MSG_SYMBOL_TABLE, table_info(tree, heap) + s, empty_header()) == Ok::<
            HeaderView,
            Seq<char>,
        >(HeaderView { symbol_table: Some((tree, heap)), ..empty_header() }),
{
    reveal(plain_applied);
    let all = table_info(tree, heap) + s;
    lemma_pow256();
    lemma_le_bytes_len(tree as nat, 8);
    lemma_le_bytes_len(heap as nat, 8);
    law_le_round_trip(tree as nat, 8);
    law_le_round_trip(heap as nat, 8);
    assert(all.subrange(0, 8) =~= le_bytes(tree as nat, 8));
    assert(all.subrange(8, 16) =~= le_bytes(heap as nat, 8));
}

/// Whether the header of a named datatype has room for what it holds.
pub open spec fn type_fits(n: NodeView, t: TypeView) -> bool {
    header_fits(whole_messages(seq![plain_message(MSG_DATATYPE, encoded(t))], n))
}

proof fn lemma_named_applied(img: ImageView, t: TypeView, s: Seq<u8>)
    requires
        storable(t),
        t.sized(),
    ensures
        plain_applied(img, MSG_DATATYPE, encoded(t) + s, empty_header()) == Ok::<
            HeaderView,
            Seq<char>,
        >(HeaderView { dtype: Some((t, OrderView::Plain)), ..empty_header() }),
{
    reveal(plain_applied);
    law_datatype_round_trip(t, s);
}

/// A named datatype is read as it was written, from any file that holds the image.
pub proof fn law_named_type_read(
    img: ImageView,
    w: ImageOut,
    n: NodeView,
    t: TypeView,
    w1: ImageOut,
    r: Ref,
)
    requires
        bare_object(finished(w, n, seq![plain_message(MSG_DATATYPE, encoded(t))])) == Ok::<
            (ImageOut, Ref),
            Seq<char>,
        >((w1, r)),
        w.buf.len() >= 96,
        w1.buf.len() < u64::MAX,
        img.data.len() <= u64::MAX,
        keeps(img.data, img.base, w1.buf, w.buf.len()),
        node_plain(n),
        type_fits(n, t),
        storable(t),
        t.sized(),
    ensures
        object_read(img, r.oh_addr) == Ok::<RawObjectView, Seq<char>>(
            RawObjectView {
                kind: RawKindView::NamedType(t),
                attrs: attrs_back(n.attrs),
                comment: n.comment,
                mtime: n.mtime,
                mappings: None,
            },
        ),
{
    let body = encoded(t);
    let ms = seq![plain_message(MSG_DATATYPE, body)];
    let h = HeaderView { dtype: Some((t, OrderView::Plain)), ..empty_header() };
    let depth = img.data.len();
    let fill = !attrs_dense(n.attrs);
    lemma_named_applied(img, t, fill_of(body, fill));
    lemma_first(img, MSG_DATATYPE, body, fill, h, depth);
    lemma_header_back(img, w, n, ms, w1, r.oh_addr, h, depth);
}

} // verus!
