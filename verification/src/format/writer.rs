//! Writing of a whole file: objects one behind the other, each behind those that it
//! refers to.

use vstd::prelude::*;

use crate::error::{same_bytes, Error};
use crate::format::attr_write::attrs_sized;
use crate::format::datatype::{encode, encoded};
use crate::format::dense::{overwrite, push_sum, summed, views_of};
use crate::format::elements::{fit, fitted};
use crate::format::group_write::{
    any_external, bare_ref, by_name, dense_links_written, encode_links, has_external, link_bodies,
    numbers_fit, order_by_name, picked, table_written, write_dense_links, write_table, Ref,
};
use crate::format::header::{
    MSG_DATATYPE, MSG_GROUP_INFO, MSG_LINK, MSG_LINK_INFO, MSG_SYMBOL_TABLE,
};
use crate::format::header_write::{out_views, plain, plain_message, OutMessage, OutView};
use crate::format::object_write::{
    all_known, dataset_sound, dataset_writes, finished, given_view, object_as, ImageOut, Output,
    Written,
};
use crate::format::share::{
    new_stores, store_views, tables_written, write_sohm_tables, SharedStore, StoreView,
};
use crate::format::superblock::file_signature;
use crate::format::tree::{extends, lemma_extends, pad_image, padded};
use crate::format::{
    le_bytes, lemma_le_bytes_len, lemma_le_bytes_residue, lemma_pow256, patched, zeroes, Buf,
    SIGNATURE, UNDEF,
};
use crate::model::{
    attr_views, link_views, FileState, FileView, GroupView, KindView, Link, LinkTarget, LinkView,
    NodeView, ObjectKind, ObjectNode, TargetView,
};
use crate::text::join;

verus! {

// Groups.

/// The links of a group in the order in which their objects are written.
pub open spec fn write_order(links: Seq<LinkView>) -> Seq<LinkView> {
    if has_external(links) && links.len() > 8 {
        links
    } else {
        by_name(links)
    }
}

/// The message that says where dense links are.
pub open spec fn link_info(heap: u64, tree: u64) -> Seq<u8> {
    seq![0u8, 0u8] + le_bytes(heap as nat, 8) + le_bytes(tree as nat, 8)
}

/// The message that says where a symbol table is.
pub open spec fn table_info(tree: u64, heap: u64) -> Seq<u8> {
    le_bytes(tree as nat, 8) + le_bytes(heap as nat, 8)
}

/// The messages of a group without a symbol table.
pub open spec fn compact_messages(heap: u64, tree: u64, bodies: Seq<Seq<u8>>) -> Seq<OutView> {
    seq![
        plain_message(MSG_LINK_INFO, link_info(heap, tree)),
        plain_message(MSG_GROUP_INFO, seq![0u8, 0u8]),
    ] + bodies.map_values(|b: Seq<u8>| plain_message(MSG_LINK, b))
}

/// An object without a symbol table whose header was written.
pub open spec fn bare_object(r: Result<(ImageOut, u64), Seq<char>>) -> Written {
    match r {
        Err(e) => Err(e),
        Ok((w, addr)) => Ok((w, bare_ref(addr))),
    }
}

/// An image with a group without a symbol table behind it.
#[verifier::opaque]
pub open spec fn compact_finished(
    w: ImageOut,
    n: NodeView,
    list: Seq<LinkView>,
    refs: Seq<Ref>,
) -> Written {
    if list.len() > 8 {
        match dense_links_written(w.buf, list, refs) {
            Err(e) => Err(e),
            Ok((s, heap, tree)) => bare_object(
                finished(
                    ImageOut { buf: s, ..w },
                    n,
                    compact_messages(heap, tree, Seq::empty()),
                ),
            ),
        }
    } else {
        bare_object(finished(w, n, compact_messages(UNDEF, UNDEF, link_bodies(list, refs))))
    }
}

/// An image with a group with a symbol table behind it.
#[verifier::opaque]
pub open spec fn table_finished(
    w: ImageOut,
    n: NodeView,
    list: Seq<LinkView>,
    refs: Seq<Ref>,
) -> Written {
    match table_written(w.buf, list, refs) {
        Err(e) => Err(e),
        Ok((s, tree, heap)) => match finished(
            ImageOut { buf: s, ..w },
            n,
            seq![plain_message(MSG_SYMBOL_TABLE, table_info(tree, heap))],
        ) {
            Err(e) => Err(e),
            Ok((w1, addr)) => Ok((w1, Ref { oh_addr: addr, cache_type: 1, btree: tree, heap })),
        },
    }
}

/// An image with a group behind it, whose links, in the order in which they are written,
/// lead to `refs`.
pub open spec fn group_finished(
    w: ImageOut,
    n: NodeView,
    links: Seq<LinkView>,
    refs: Seq<Ref>,
) -> Written {
    if has_external(links) {
        compact_finished(w, n, write_order(links), refs)
    } else {
        table_finished(w, n, write_order(links), refs)
    }
}

// Objects.

/// The stored chunks that are given for an object.
pub open spec fn given_for(given: Seq<Option<Seq<Seq<u8>>>>, id: nat) -> Option<Seq<Seq<u8>>> {
    if id < given.len() {
        given[id as int]
    } else {
        None
    }
}

/// What is written is remembered.
pub open spec fn remembered(id: nat, w: Written) -> Written {
    match w {
        Err(e) => Err(e),
        Ok((out, r)) => Ok((ImageOut { memo: out.memo.update(id as int, Some(r)), ..out }, r)),
    }
}

/// A value that something may have given.
pub open spec fn outcome<T>(x: T) -> bool {
    true
}

/// Where the objects of links were written.
pub type LinksWritten = Result<(ImageOut, Seq<Ref>), Seq<char>>;

/// Whether `out` is what writing an object gives. Objects on the way from the root to
/// it are `above` it; there are at most `depth` more below.
#[verifier::opaque]
pub open spec fn object_writes(
    w: ImageOut,
    f: FileView,
    given: Seq<Option<Seq<Seq<u8>>>>,
    id: nat,
    above: Seq<nat>,
    depth: nat,
    out: Written,
) -> bool
    decreases depth, 1nat, 0nat,
{
    if id < w.memo.len() && w.memo[id as int] is Some {
        out == Ok::<(ImageOut, Ref), Seq<char>>((w, w.memo[id as int]->0))
    } else if above.contains(id) || depth == 0 {
        out == Err::<(ImageOut, Ref), Seq<char>>(
            "cyclic hard links are not supported by the writer"@,
        )
    } else {
        match f.object(id) {
            None => out == Err::<(ImageOut, Ref), Seq<char>>("no such object"@),
            Some(n) => match n.kind {
                KindView::Group(g) => exists|mid: LinksWritten| #[trigger]
                    outcome(mid) && links_write(
                        w,
                        f,
                        given,
                        write_order(g.links),
                        above.push(id),
                        (depth - 1) as nat,
                        mid,
                    ) && out == match mid {
                        Err(e) => Err(e),
                        Ok((w1, refs)) => remembered(id, group_finished(w1, n, g.links, refs)),
                    },
                KindView::Dataset(d) => exists|r: Written| #[trigger]
                    dataset_writes(w, n, d, given_for(given, id), r) && out == remembered(id, r),
                KindView::NamedType(t) => out == remembered(
                    id,
                    bare_object(
                        finished(w, n, seq![plain_message(MSG_DATATYPE, encoded(t))]),
                    ),
                ),
                KindView::Unsupported(reason) => out == Err::<(ImageOut, Ref), Seq<char>>(
                    "cannot write file: it contains an object unsupported by this build ("@
                        + reason + ")"@,
                ),
            },
        }
    }
}

/// Whether `out` is what writing the objects of links gives.
#[verifier::opaque]
pub open spec fn links_write(
    w: ImageOut,
    f: FileView,
    given: Seq<Option<Seq<Seq<u8>>>>,
    links: Seq<LinkView>,
    above: Seq<nat>,
    depth: nat,
    out: LinksWritten,
) -> bool
    decreases depth, 2nat, links.len(),
{
    if links.len() == 0 {
        out == Ok::<(ImageOut, Seq<Ref>), Seq<char>>((w, Seq::empty()))
    } else {
        exists|mid: LinksWritten| #[trigger]
            outcome(mid) && links_write(w, f, given, links.drop_last(), above, depth, mid)
                && match mid {
                Err(e) => out == Err::<(ImageOut, Seq<Ref>), Seq<char>>(e),
                Ok((w1, refs)) => match links.last().target {
                    TargetView::Hard(id) => exists|r: Written| #[trigger]
                        outcome(r) && object_writes(w1, f, given, id, above, depth, r) && out
                            == match r {
                            Err(e) => Err(e),
                            Ok((w2, x)) => Ok((w2, refs.push(x))),
                        },
                    _ => out == Ok::<(ImageOut, Seq<Ref>), Seq<char>>(
                        (w1, refs.push(bare_ref(0))),
                    ),
                },
            }
    }
}

proof fn lemma_links_error(
    w: ImageOut,
    f: FileView,
    given: Seq<Option<Seq<Seq<u8>>>>,
    links: Seq<LinkView>,
    above: Seq<nat>,
    depth: nat,
    i: int,
    e: Seq<char>,
)
    requires
        0 <= i <= links.len(),
        links_write(w, f, given, links.take(i), above, depth, Err(e)),
    ensures
        links_write(w, f, given, links, above, depth, Err(e)),
    decreases links.len() - i,
{
    if i < links.len() {
        let next = links.take(i + 1);
        assert(next.drop_last() =~= links.take(i));
        let mid: LinksWritten = Err(e);
        reveal(links_write);
        reveal(object_writes);
        assert(outcome(mid));
        assert(links_write(w, f, given, next, above, depth, Err(e)));
        lemma_links_error(w, f, given, links, above, depth, i + 1, e);
    } else {
        assert(links.take(i) =~= links);
    }
}

/// Writing the objects of links goes on with the next link.
proof fn lemma_links_step(
    w: ImageOut,
    f: FileView,
    given: Seq<Option<Seq<Seq<u8>>>>,
    links: Seq<LinkView>,
    above: Seq<nat>,
    depth: nat,
    w1: ImageOut,
    refs: Seq<Ref>,
    r: Written,
)
    requires
        links.len() > 0,
        links_write(w, f, given, links.drop_last(), above, depth, Ok((w1, refs))),
        match links.last().target {
            TargetView::Hard(id) => object_writes(w1, f, given, id, above, depth, r),
            _ => r == Ok::<(ImageOut, Ref), Seq<char>>((w1, bare_ref(0))),
        },
    ensures
        links_write(
            w,
            f,
            given,
            links,
            above,
            depth,
            match r {
                Err(e) => Err(e),
                Ok((w2, x)) => Ok((w2, refs.push(x))),
            },
        ),
{
    reveal(links_write);
    reveal(object_writes);
    let mid: LinksWritten = Ok((w1, refs));
    assert(outcome(mid));
    assert(outcome(r));
}

proof fn lemma_no_links(
    w: ImageOut,
    f: FileView,
    given: Seq<Option<Seq<Seq<u8>>>>,
    above: Seq<nat>,
    depth: nat,
)
    ensures
        links_write(w, f, given, Seq::empty(), above, depth, Ok((w, Seq::empty()))),
{
    reveal(links_write);
}

/// An object that is not written yet is a group, ...
proof fn lemma_group_writes(
    w: ImageOut,
    f: FileView,
    given: Seq<Option<Seq<Seq<u8>>>>,
    id: nat,
    above: Seq<nat>,
    depth: nat,
    n: NodeView,
    g: GroupView,
    mid: LinksWritten,
)
    requires
        id < w.memo.len(),
        w.memo[id as int] is None,
        !above.contains(id),
        depth > 0,
        f.object(id) == Some(n),
        n.kind == KindView::Group(g),
        links_write(
            w,
            f,
            given,
            write_order(g.links),
            above.push(id),
            (depth - 1) as nat,
            mid,
        ),
    ensures
        object_writes(
            w,
            f,
            given,
            id,
            above,
            depth,
            match mid {
                Err(e) => Err(e),
                Ok((w1, refs)) => remembered(id, group_finished(w1, n, g.links, refs)),
            },
        ),
{
    reveal(object_writes);
    reveal(links_write);
    assert(outcome(mid));
}

/// ... or something else.
proof fn lemma_leaf_writes(
    w: ImageOut,
    f: FileView,
    given: Seq<Option<Seq<Seq<u8>>>>,
    id: nat,
    above: Seq<nat>,
    depth: nat,
    n: NodeView,
    r: Written,
)
    requires
        id < w.memo.len(),
        w.memo[id as int] is None,
        !above.contains(id),
        depth > 0,
        f.object(id) == Some(n),
        match n.kind {
            KindView::Group(_) => false,
            KindView::Dataset(d) => dataset_writes(w, n, d, given_for(given, id), r),
            KindView::NamedType(t) => r == bare_object(
                finished(w, n, seq![plain_message(MSG_DATATYPE, encoded(t))]),
            ),
            KindView::Unsupported(reason) => r == Err::<(ImageOut, Ref), Seq<char>>(
                "cannot write file: it contains an object unsupported by this build ("@ + reason
                    + ")"@,
            ),
        },
    ensures
        object_writes(w, f, given, id, above, depth, remembered(id, r)),
{
    reveal(object_writes);
}

/// The objects of links were written one after the other.
pub(crate) proof fn lemma_links_unfold(
    w: ImageOut,
    f: FileView,
    given: Seq<Option<Seq<Seq<u8>>>>,
    links: Seq<LinkView>,
    above: Seq<nat>,
    depth: nat,
    w1: ImageOut,
    refs: Seq<Ref>,
) -> (r: (ImageOut, Seq<Ref>, Ref))
    requires
        links_write(w, f, given, links, above, depth, Ok((w1, refs))),
        links.len() > 0,
    ensures
        links_write(w, f, given, links.drop_last(), above, depth, Ok((r.0, r.1))),
        refs == r.1.push(r.2),
        match links.last().target {
            TargetView::Hard(id) => object_writes(
                r.0,
                f,
                given,
                id,
                above,
                depth,
                Ok((w1, r.2)),
            ),
            _ => w1 == r.0 && r.2 == bare_ref(0),
        },
{
    reveal(links_write);
    reveal(object_writes);
    let out: LinksWritten = Ok((w1, refs));
    let mid = choose|mid: LinksWritten| #[trigger]
        outcome(mid) && links_write(w, f, given, links.drop_last(), above, depth, mid)
            && match mid {
            Err(e) => out == Err::<(ImageOut, Seq<Ref>), Seq<char>>(e),
            Ok((w1, refs)) => match links.last().target {
                TargetView::Hard(id) => exists|r: Written| #[trigger]
                    outcome(r) && object_writes(w1, f, given, id, above, depth, r) && out
                        == match r {
                        Err(e) => Err(e),
                        Ok((w2, x)) => Ok((w2, refs.push(x))),
                    },
                _ => out == Ok::<(ImageOut, Seq<Ref>), Seq<char>>((w1, refs.push(bare_ref(0)))),
            },
        };
    let (wa, before) = mid->Ok_0;
    match links.last().target {
        TargetView::Hard(id) => {
            let r = choose|r: Written| #[trigger]
                outcome(r) && object_writes(wa, f, given, id, above, depth, r) && out == match r {
                    Err(e) => Err(e),
                    Ok((w2, x)) => Ok((w2, before.push(x))),
                };
            (wa, before, r->Ok_0.1)
        },
        _ => (wa, before, bare_ref(0)),
    }
}

/// A group was written behind the objects of its links.
pub(crate) proof fn lemma_group_unfold(
    w: ImageOut,
    f: FileView,
    given: Seq<Option<Seq<Seq<u8>>>>,
    id: nat,
    above: Seq<nat>,
    depth: nat,
    n: NodeView,
    g: GroupView,
    w1: ImageOut,
    x: Ref,
) -> (r: (ImageOut, Seq<Ref>, ImageOut))
    requires
        object_writes(w, f, given, id, above, depth, Ok((w1, x))),
        !(id < w.memo.len() && w.memo[id as int] is Some),
        f.object(id) == Some(n),
        n.kind == KindView::Group(g),
    ensures
        depth > 0,
        links_write(
            w,
            f,
            given,
            write_order(g.links),
            above.push(id),
            (depth - 1) as nat,
            Ok((r.0, r.1)),
        ),
        group_finished(r.0, n, g.links, r.1) == Ok::<(ImageOut, Ref), Seq<char>>((r.2, x)),
        w1 == (ImageOut { memo: r.2.memo.update(id as int, Some(x)), ..r.2 }),
{
    reveal(links_write);
    reveal(object_writes);
    let out: Written = Ok((w1, x));
    let mid = choose|mid: LinksWritten| #[trigger]
        outcome(mid) && links_write(
            w,
            f,
            given,
            write_order(g.links),
            above.push(id),
            (depth - 1) as nat,
            mid,
        ) && out == match mid {
            Err(e) => Err(e),
            Ok((w1, refs)) => remembered(id, group_finished(w1, n, g.links, refs)),
        };
    let (wm, refs) = mid->Ok_0;
    (wm, refs, group_finished(wm, n, g.links, refs)->Ok_0.0)
}

/// Another object was written, unless it had been before.
pub(crate) proof fn lemma_leaf_unfold(
    w: ImageOut,
    f: FileView,
    given: Seq<Option<Seq<Seq<u8>>>>,
    id: nat,
    above: Seq<nat>,
    depth: nat,
    w1: ImageOut,
    x: Ref,
) -> (r: ImageOut)
    requires
        object_writes(w, f, given, id, above, depth, Ok((w1, x))),
    ensures
        if id < w.memo.len() && w.memo[id as int] is Some {
            w1 == w && w.memo[id as int] == Some(x)
        } else {
            &&& f.object(id) is Some
            &&& match f.object(id)->0.kind {
                KindView::Group(_) => true,
                KindView::Dataset(d) => dataset_writes(
                    w,
                    f.object(id)->0,
                    d,
                    given_for(given, id),
                    Ok((r, x)),
                ) && w1 == (ImageOut { memo: r.memo.update(id as int, Some(x)), ..r }),
                KindView::NamedType(t) => bare_object(
                    finished(w, f.object(id)->0, seq![plain_message(MSG_DATATYPE, encoded(t))]),
                ) == Ok::<(ImageOut, Ref), Seq<char>>((r, x)) && w1 == (ImageOut {
                    memo: r.memo.update(id as int, Some(x)),
                    ..r
                }),
                KindView::Unsupported(_) => false,
            }
        },
{
    reveal(object_writes);
    let out: Written = Ok((w1, x));
    if id < w.memo.len() && w.memo[id as int] is Some {
        w
    } else {
        let n = f.object(id)->0;
        match n.kind {
            KindView::Dataset(d) => {
                let r = choose|r: Written| #[trigger]
                    dataset_writes(w, n, d, given_for(given, id), r) && out == remembered(id, r);
                r->Ok_0.0
            },
            KindView::NamedType(t) => bare_object(
                finished(w, n, seq![plain_message(MSG_DATATYPE, encoded(t))]),
            )->Ok_0.0,
            _ => w,
        }
    }
}

/// Whether the types in a file have sizes and its datasets no more dimensions than a
/// message can hold.
pub open spec fn storable(f: FileView) -> bool {
    forall|i: int|
        0 <= i < f.objects.len() ==> match #[trigger] f.objects[i] {
            Some(n) => attrs_sized(n.attrs) && match n.kind {
                KindView::Dataset(d) => dataset_sound(d),
                KindView::NamedType(t) => t.sized(),
                _ => true,
            },
            None => true,
        }
}

/// Whether a file can be written: types have sizes, and datasets no more dimensions than
/// a message can hold.
pub fn is_storable(state: &FileState) -> (r: bool)
    ensures
        r == storable(state@),
{
    let n: usize = state.objects.len();
    let mut i: usize = 0;
    while i < n
        invariant
            i <= n == state.objects@.len() == state@.objects.len(),
            forall|k: int|
                0 <= k < i ==> match #[trigger] state@.objects[k] {
                    Some(n) => attrs_sized(n.attrs) && match n.kind {
                        KindView::Dataset(d) => dataset_sound(d),
                        KindView::NamedType(t) => t.sized(),
                        _ => true,
                    },
                    None => true,
                },
        decreases n - i,
    {
        if let Some(node) = &state.objects[i] {
            assert(state@.objects[i as int] == Some(node@));
            let m: usize = node.attrs.len();
            let mut k: usize = 0;
            while k < m
                invariant
                    k <= m == node.attrs@.len(),
                    state@.objects[i as int] == Some(node@),
                    0 <= i < state@.objects.len(),
                    forall|j: int| 0 <= j < k ==> (#[trigger] node@.attrs[j]).dtype.sized(),
                decreases m - k,
            {
                assert(node@.attrs[k as int] == node.attrs@[k as int]@);
                if !node.attrs[k].dtype.is_sized() {
                    return false;
                }
                k += 1;
            }
            let good: bool = match &node.kind {
                ObjectKind::Dataset(d) => d.dtype.is_sized() && d.dims.len() <= 255,
                ObjectKind::NamedType(t) => t.is_sized(),
                _ => true,
            };
            if !good {
                return false;
            }
        }
        i += 1;
    }
    true
}

/// The numbers of objects.
pub open spec fn id_views(v: Seq<usize>) -> Seq<nat> {
    v.map_values(|x: usize| x as nat)
}

/// The views of given chunks.
pub open spec fn all_given(v: Seq<Option<Vec<Vec<u8>>>>) -> Seq<Option<Seq<Seq<u8>>>> {
    v.map_values(|g: Option<Vec<Vec<u8>>>| given_view(g))
}

fn holds(ids: &Vec<usize>, id: usize) -> (r: bool)
    ensures
        r == id_views(ids@).contains(id as nat),
{
    let ghost views = id_views(ids@);
    let mut i: usize = 0;
    while i < ids.len()
        invariant
            i <= ids@.len(),
            views == id_views(ids@),
            forall|k: int| 0 <= k < i ==> #[trigger] views[k] != id as nat,
        decreases ids@.len() - i,
    {
        if ids[i] == id {
            assert(views[i as int] == id as nat);
            return true;
        }
        i += 1;
    }
    false
}

fn numbers(n: usize) -> (r: Vec<usize>)
    ensures
        r@.len() == n,
        forall|i: int| 0 <= i < n ==> #[trigger] r@[i] == i,
{
    let mut out: Vec<usize> = Vec::new();
    let mut i: usize = 0;
    while i < n
        invariant
            i <= n,
            out@.len() == i,
            forall|k: int| 0 <= k < i ==> #[trigger] out@[k] == k,
        decreases n - i,
    {
        out.push(i);
        i += 1;
    }
    out
}

/// The numbers of links in the order in which their objects are written.
fn order_of(links: &Vec<Link>) -> (r: Vec<usize>)
    ensures
        numbers_fit(r@, links@.len()),
        r@.len() == links@.len(),
        picked(link_views(links@), r@) == write_order(link_views(links@)),
{
    let ghost views = link_views(links@);
    if links.len() > 8 && any_external(links) {
        let r = numbers(links.len());
        assert(picked(views, r@) =~= views);
        r
    } else {
        order_by_name(links)
    }
}

fn info_bytes(heap: u64, tree: u64) -> (r: Vec<u8>)
    ensures
        r@ == link_info(heap, tree),
{
    let mut b = Buf::new();
    b.u8(0);
    b.u8(0);
    b.u64(heap);
    b.u64(tree);
    assert(b@ =~= link_info(heap, tree));
    b.bytes
}

fn compact_out(heap: u64, tree: u64, bodies: Vec<Vec<u8>>) -> (r: Vec<OutMessage>)
    ensures
        out_views(r@) == compact_messages(heap, tree, views_of(bodies@)),
        forall|i: int| 0 <= i < out_views(r@).len() ==> (#[trigger] out_views(r@)[i]).shared is None,
{
    let ghost views = views_of(bodies@);
    let ghost want = compact_messages(heap, tree, views);
    let zero: Vec<u8> = vec![0, 0];
    assert(zero@ =~= seq![0u8, 0u8]);
    let mut ms: Vec<OutMessage> = vec![
        plain(MSG_LINK_INFO, info_bytes(heap, tree)),
        plain(MSG_GROUP_INFO, zero),
    ];
    let mut i: usize = 0;
    assert(out_views(ms@) =~= want.take(2));
    while i < bodies.len()
        invariant
            i <= bodies@.len(),
            views == views_of(bodies@),
            want == compact_messages(heap, tree, views),
            out_views(ms@) == want.take(2 + i),
        decreases bodies@.len() - i,
    {
        let ghost before = out_views(ms@);
        let body = vstd::slice::slice_to_vec(bodies[i].as_slice());
        ms.push(plain(MSG_LINK, body));
        proof {
            assert(views[i as int] == bodies@[i as int]@);
            assert(out_views(ms@) =~= before.push(want[2 + i]));
            assert(out_views(ms@) =~= want.take(2 + i + 1));
        }
        i += 1;
    }
    assert(want.take(want.len() as int) =~= want);
    ms
}

proof fn lemma_plain_known(ms: Seq<OutView>, v: Seq<StoreView>)
    requires
        forall|i: int| 0 <= i < ms.len() ==> (#[trigger] ms[i]).shared is None,
    ensures
        all_known(ms, v),
{
}

impl Output {
    /// What holds of an image before and after something is written.
    pub open spec fn grown(self, before: ImageOut) -> bool {
        self@.wf() && extends(self@.buf, before.buf) && self@.memo.len() == before.memo.len()
    }

    /// Writes a group without a symbol table.
    fn finish_compact(
        &mut self,
        n: &ObjectNode,
        links: &Vec<Link>,
        order: &Vec<usize>,
        refs: &Vec<Ref>,
    ) -> (r: Result<Ref, Error>)
        requires
            old(self)@.wf(),
            attrs_sized(attr_views(n.attrs@)),
            numbers_fit(order@, links@.len()),
            refs@.len() == order@.len(),
        ensures
            object_as(
                r,
                final(self)@,
                compact_finished(old(self)@, n@, picked(link_views(links@), order@), refs@),
            ),
            r is Ok ==> final(self).grown(old(self)@),
    {
        let ghost w = self@;
        reveal(compact_finished);
        assert(w.buf.take(w.buf.len() as int) =~= w.buf);
        let ms: Vec<OutMessage>;
        if order.len() > 8 {
            let (heap, tree) = write_dense_links(&mut self.buf, links, order, refs)?;
            let none: Vec<Vec<u8>> = Vec::new();
            assert(views_of(none@) =~= Seq::empty());
            ms = compact_out(heap, tree, none);
        } else {
            ms = compact_out(UNDEF, UNDEF, encode_links(links, order, refs));
        }
        let ghost w1 = self@;
        proof {
            lemma_plain_known(out_views(ms@), w1.stores);
        }
        let addr: u64 = self.finish(n, ms)?;
        proof {
            lemma_extends(w.buf, w1.buf, self@.buf);
        }
        Ok(Ref { oh_addr: addr, cache_type: 0, btree: UNDEF, heap: UNDEF })
    }

    /// Writes a group with a symbol table.
    fn finish_table(
        &mut self,
        n: &ObjectNode,
        links: &Vec<Link>,
        order: &Vec<usize>,
        refs: &Vec<Ref>,
    ) -> (r: Result<Ref, Error>)
        requires
            old(self)@.wf(),
            attrs_sized(attr_views(n.attrs@)),
            numbers_fit(order@, links@.len()),
            refs@.len() == order@.len(),
        ensures
            object_as(
                r,
                final(self)@,
                table_finished(old(self)@, n@, picked(link_views(links@), order@), refs@),
            ),
            r is Ok ==> final(self).grown(old(self)@),
    {
        let ghost w = self@;
        reveal(table_finished);
        let (tree, heap) = write_table(&mut self.buf, links, order, refs)?;
        let ghost w1 = self@;
        let mut b = Buf::new();
        b.u64(tree);
        b.u64(heap);
        assert(b@ =~= table_info(tree, heap));
        let ms: Vec<OutMessage> = vec![plain(MSG_SYMBOL_TABLE, b.bytes)];
        assert(out_views(ms@) =~= seq![
            plain_message(MSG_SYMBOL_TABLE, table_info(tree, heap)),
        ]);
        proof {
            lemma_plain_known(out_views(ms@), w1.stores);
        }
        let addr: u64 = self.finish(n, ms)?;
        proof {
            lemma_extends(w.buf, w1.buf, self@.buf);
        }
        Ok(Ref { oh_addr: addr, cache_type: 1, btree: tree, heap })
    }

    /// Writes the objects of links.
    fn write_links(
        &mut self,
        state: &FileState,
        given: &Vec<Option<Vec<Vec<u8>>>>,
        links: &Vec<Link>,
        order: &Vec<usize>,
        above: &Vec<usize>,
        depth: usize,
    ) -> (r: Result<Vec<Ref>, Error>)
        requires
            old(self)@.wf(),
            old(self)@.memo.len() == state.objects@.len(),
            storable(state@),
            numbers_fit(order@, links@.len()),
        ensures
            exists|out: LinksWritten| #[trigger]
                links_write(
                    old(self)@,
                    state@,
                    all_given(given@),
                    picked(link_views(links@), order@),
                    id_views(above@),
                    depth as nat,
                    out,
                ) && match (r, out) {
                    (Ok(x), Ok(y)) => final(self)@ == y.0 && x@ == y.1,
                    (Err(e), Err(y)) => e@ == y,
                    _ => false,
                },
            r matches Ok(x) ==> x@.len() == order@.len() && final(self).grown(old(self)@),
        decreases depth, 2nat, 0nat,
    {
        let ghost w = self@;
        let ghost f = state@;
        let ghost g = all_given(given@);
        let ghost list = picked(link_views(links@), order@);
        let ghost ab = id_views(above@);
        let mut refs: Vec<Ref> = Vec::new();
        let mut i: usize = 0;
        proof {
            assert(list.take(0) =~= Seq::empty());
            assert(w.buf.take(w.buf.len() as int) =~= w.buf);
            assert(refs@ =~= Seq::empty());
            lemma_no_links(w, f, g, ab, depth as nat);
        }
        while i < order.len()
            invariant
                i <= order@.len(),
                self@.wf(),
                self@.memo.len() == state.objects@.len(),
                w.memo.len() == self@.memo.len(),
                extends(self@.buf, w.buf),
                storable(state@),
                numbers_fit(order@, links@.len()),
                w == old(self)@,
                f == state@,
                g == all_given(given@),
                list == picked(link_views(links@), order@),
                ab == id_views(above@),
                refs@.len() == i,
                links_write(w, f, g, list.take(i as int), ab, depth as nat, Ok((self@, refs@))),
            decreases order@.len() - i,
        {
            let ghost w1 = self@;
            let ghost before = refs@;
            let ghost next = list.take(i + 1);
            proof {
                assert(order@[i as int] < links@.len());
                assert(next.drop_last() =~= list.take(i as int));
                assert(next.last() == links@[order@[i as int] as int]@);
            }
            match &links[order[i]].target {
                LinkTarget::Hard(id) => {
                    let r = self.write_object(state, given, *id, above, depth);
                    let ghost out = choose|out: Written| #[trigger]
                        object_writes(w1, f, g, *id as nat, ab, depth as nat, out) && object_as(
                            r,
                            self@,
                            out,
                        );
                    proof {
                        lemma_links_step(w, f, g, next, ab, depth as nat, w1, before, out);
                    }
                    match r {
                        Err(e) => {
                            proof {
                                lemma_links_error(w, f, g, list, ab, depth as nat, i + 1, e@);
                            }
                            return Err(e);
                        },
                        Ok(x) => {
                            refs.push(x);
                            proof {
                                lemma_extends(w.buf, w1.buf, self@.buf);
                            }
                        },
                    }
                },
                _ => {
                    let none = Ref { oh_addr: 0, cache_type: 0, btree: UNDEF, heap: UNDEF };
                    refs.push(none);
                    proof {
                        lemma_links_step(
                            w,
                            f,
                            g,
                            next,
                            ab,
                            depth as nat,
                            w1,
                            before,
                            Ok((w1, none)),
                        );
                    }
                },
            }
            i += 1;
        }
        assert(list.take(list.len() as int) =~= list);
        Ok(refs)
    }

    /// Writes an object, if it is not written yet.
    fn write_object(
        &mut self,
        state: &FileState,
        given: &Vec<Option<Vec<Vec<u8>>>>,
        id: usize,
        above: &Vec<usize>,
        depth: usize,
    ) -> (r: Result<Ref, Error>)
        requires
            old(self)@.wf(),
            old(self)@.memo.len() == state.objects@.len(),
            storable(state@),
        ensures
            exists|out: Written| #[trigger]
                object_writes(
                    old(self)@,
                    state@,
                    all_given(given@),
                    id as nat,
                    id_views(above@),
                    depth as nat,
                    out,
                ) && object_as(r, final(self)@, out),
            r is Ok ==> final(self).grown(old(self)@),
        decreases depth, 1nat, 0nat,
    {
        let ghost w = self@;
        let ghost f = state@;
        let ghost g = all_given(given@);
        let ghost ab = id_views(above@);
        assert(w.buf.take(w.buf.len() as int) =~= w.buf);
        if id < self.memo.len() {
            match self.memo[id] {
                Some(x) => {
                    proof {
                        reveal(object_writes);
                        assert(object_writes(w, f, g, id as nat, ab, depth as nat, Ok((w, x))));
                    }
                    return Ok(x);
                },
                None => {},
            }
        }
        if holds(above, id) || depth == 0 {
            let e = Error::new("cyclic hard links are not supported by the writer");
            reveal(object_writes);
            assert(object_writes(w, f, g, id as nat, ab, depth as nat, Err(e@)));
            return Err(e);
        }
        let n: &ObjectNode = match state.try_get(id) {
            None => {
                let e = Error::new("no such object");
                reveal(object_writes);
                assert(object_writes(w, f, g, id as nat, ab, depth as nat, Err(e@)));
                return Err(e);
            },
            Some(n) => n,
        };
        assert(f.objects[id as int] == Some(n@));
        match &n.kind {
            ObjectKind::Group(group) => {
                let order = order_of(&group.links);
                let mut inner: Vec<usize> = Vec::new();
                inner.extend_from_slice(above.as_slice());
                inner.push(id);
                assert(id_views(inner@) =~= ab.push(id as nat));
                let refs = self.write_links(
                    state,
                    given,
                    &group.links,
                    &order,
                    &inner,
                    depth - 1,
                );
                let ghost w1 = self@;
                let ghost mid = choose|mid: LinksWritten| #[trigger]
                    links_write(
                        w,
                        f,
                        g,
                        write_order(link_views(group.links@)),
                        ab.push(id as nat),
                        (depth - 1) as nat,
                        mid,
                    ) && match (refs, mid) {
                        (Ok(x), Ok(y)) => w1 == y.0 && x@ == y.1,
                        (Err(e), Err(y)) => e@ == y,
                        _ => false,
                    };
                proof {
                    lemma_group_writes(
                        w,
                        f,
                        g,
                        id as nat,
                        ab,
                        depth as nat,
                        n@,
                        group@,
                        mid,
                    );
                }
                match refs {
                    Err(e) => Err(e),
                    Ok(list) => {
                        let ghost out = group_finished(w1, n@, link_views(group.links@), list@);
                        let r = if any_external(&group.links) {
                            self.finish_compact(n, &group.links, &order, &list)?
                        } else {
                            self.finish_table(n, &group.links, &order, &list)?
                        };
                        proof {
                            lemma_extends(w.buf, w1.buf, self@.buf);
                        }
                        self.memo.set(id, Some(r));
                        assert(object_as(Ok(r), self@, remembered(id as nat, out)));
                        Ok(r)
                    },
                }
            },
            ObjectKind::Dataset(d) => {
                let none: Option<Vec<Vec<u8>>> = None;
                let supplied: &Option<Vec<Vec<u8>>> = if id < given.len() {
                    &given[id]
                } else {
                    &none
                };
                assert(given_view(*supplied) == given_for(g, id as nat));
                let r = self.write_dataset(n, d, supplied);
                let ghost out = choose|out: Written| #[trigger]
                    dataset_writes(w, n@, d@, given_for(g, id as nat), out) && object_as(
                        r,
                        self@,
                        out,
                    );
                proof {
                    lemma_leaf_writes(w, f, g, id as nat, ab, depth as nat, n@, out);
                }
                let x: Ref = r?;
                self.memo.set(id, Some(x));
                assert(object_as(Ok(x), self@, remembered(id as nat, out)));
                Ok(x)
            },
            ObjectKind::NamedType(t) => {
                let ms: Vec<OutMessage> = vec![plain(MSG_DATATYPE, encode(t))];
                assert(out_views(ms@) =~= seq![plain_message(MSG_DATATYPE, encoded(t@))]);
                proof {
                    lemma_plain_known(out_views(ms@), w.stores);
                }
                let ghost out = bare_object(
                    finished(w, n@, seq![plain_message(MSG_DATATYPE, encoded(t@))]),
                );
                proof {
                    lemma_leaf_writes(w, f, g, id as nat, ab, depth as nat, n@, out);
                }
                let addr: u64 = self.finish(n, ms)?;
                let x = Ref { oh_addr: addr, cache_type: 0, btree: UNDEF, heap: UNDEF };
                self.memo.set(id, Some(x));
                assert(object_as(Ok(x), self@, remembered(id as nat, out)));
                Ok(x)
            },
            ObjectKind::Unsupported(reason) => {
                let text = join(
                    "cannot write file: it contains an object unsupported by this build (",
                    reason.as_str(),
                );
                let e = Error::from_text(join(text.as_str(), ")"));
                proof {
                    lemma_leaf_writes(w, f, g, id as nat, ab, depth as nat, n@, Err(e@));
                }
                Err(e)
            },
        }
    }
}

// Files.

/// The superblock of version 0.
pub open spec fn old_superblock(root: Ref, eof: nat, base: u64) -> Seq<u8> {
    file_signature() + seq![0u8, 0u8, 0u8, 0u8, 0u8, 8u8, 8u8, 0u8] + le_bytes(4, 2) + le_bytes(
        16,
        2,
    ) + zeroes(4) + le_bytes(base as nat, 8) + le_bytes(UNDEF as nat, 8) + le_bytes(eof, 8)
        + le_bytes(UNDEF as nat, 8) + zeroes(8) + le_bytes(root.oh_addr as nat, 8) + le_bytes(1, 4)
        + zeroes(4) + le_bytes(root.btree as nat, 8) + le_bytes(root.heap as nat, 8)
}

/// The superblock of version 2, which refers to an extension.
pub open spec fn new_superblock(root: Ref, extension: u64, eof: nat, base: u64) -> Seq<u8> {
    summed(
        file_signature() + seq![2u8, 8u8, 8u8, 0u8] + le_bytes(base as nat, 8) + le_bytes(
            extension as nat,
            8,
        ) + le_bytes(eof, 8) + le_bytes(root.oh_addr as nat, 8),
    )
}

/// The image of a file whose objects are written.
pub open spec fn file_finished(f: FileView, w: ImageOut, root: Ref) -> Result<
    Seq<u8>,
    Seq<char>,
> {
    match tables_written(w.buf, w.stores, w.patches) {
        Err(e) => Err(e),
        Ok((s, extension)) => {
            let whole = padded(s);
            let eof = whole.len() + f.userblock;
            let head = match extension {
                Some(x) => new_superblock(root, x, eof as nat, f.userblock),
                None => old_superblock(root, eof as nat, f.userblock),
            };
            let image = patched(whole, 0, head);
            if f.userblock == 0 {
                Ok(image)
            } else if f.userblock > usize::MAX {
                Err("user block too large"@)
            } else {
                Ok(fitted(f.userblock_data, f.userblock as nat) + image)
            }
        },
    }
}

/// An image without objects: the place of the superblock.
pub open spec fn blank(f: FileView) -> ImageOut {
    ImageOut {
        buf: zeroes(96),
        memo: Seq::new(f.objects.len(), |i: int| None),
        stores: new_stores(f.sohm),
        patches: Seq::empty(),
    }
}

/// Whether `out` is what writing a file gives. Stored chunks are given for datasets
/// whose floating-point elements are to be scaled.
#[verifier::opaque]
pub open spec fn file_writes(
    f: FileView,
    given: Seq<Option<Seq<Seq<u8>>>>,
    out: Result<Seq<u8>, Seq<char>>,
) -> bool {
    exists|mid: Written| #[trigger]
        object_writes(
            blank(f),
            f,
            given,
            f.root,
            Seq::empty(),
            f.objects.len(),
            mid,
        ) && out == match mid {
            Err(e) => Err(e),
            Ok((w, root)) => file_finished(f, w, root),
        }
}

fn superblock(root: Ref, eof: u64, base: u64, Ghost(end): Ghost<nat>) -> (r: Buf)
    requires
        le_bytes(eof as nat, 8) == le_bytes(end, 8),
    ensures
        r@ == old_superblock(root, end, base),
        r@.len() == 96,
{
    let mut b = Buf::new();
    b.raw(SIGNATURE.as_slice());
    b.zeros(5);
    b.u8(8);
    b.u8(8);
    b.u8(0);
    let ghost first = b@;
    b.u16(4);
    b.u16(16);
    b.zeros(4);
    b.u64(base);
    b.u64(UNDEF);
    b.u64(eof);
    b.u64(UNDEF);
    let ghost second = b@;
    b.zeros(8);
    b.u64(root.oh_addr);
    b.u32(1);
    b.zeros(4);
    b.u64(root.btree);
    b.u64(root.heap);
    proof {
        assert(first =~= file_signature() + seq![0u8, 0u8, 0u8, 0u8, 0u8, 8u8, 8u8, 0u8]);
        lemma_le_bytes_len(4, 2);
        lemma_le_bytes_len(16, 2);
        lemma_le_bytes_len(base as nat, 8);
        lemma_le_bytes_len(UNDEF as nat, 8);
        lemma_le_bytes_len(end, 8);
        lemma_le_bytes_len(root.oh_addr as nat, 8);
        lemma_le_bytes_len(1, 4);
        lemma_le_bytes_len(root.btree as nat, 8);
        lemma_le_bytes_len(root.heap as nat, 8);
        assert(second =~= first + le_bytes(4, 2) + le_bytes(16, 2) + zeroes(4) + le_bytes(
            base as nat,
            8,
        ) + le_bytes(UNDEF as nat, 8) + le_bytes(end, 8) + le_bytes(UNDEF as nat, 8));
        assert(b@ =~= old_superblock(root, end, base));
    }
    b
}

fn extended_superblock(root: Ref, extension: u64, eof: u64, base: u64, Ghost(end): Ghost<nat>) -> (r:
    Buf)
    requires
        le_bytes(eof as nat, 8) == le_bytes(end, 8),
    ensures
        r@ == new_superblock(root, extension, end, base),
        r@.len() == 48,
{
    let mut b = Buf::new();
    b.raw(SIGNATURE.as_slice());
    b.u8(2);
    b.u8(8);
    b.u8(8);
    b.u8(0);
    b.u64(base);
    b.u64(extension);
    b.u64(eof);
    b.u64(root.oh_addr);
    let ghost text = b@;
    push_sum(&mut b);
    proof {
        lemma_le_bytes_len(base as nat, 8);
        lemma_le_bytes_len(extension as nat, 8);
        lemma_le_bytes_len(end, 8);
        lemma_le_bytes_len(root.oh_addr as nat, 8);
        assert(text =~= file_signature() + seq![2u8, 8u8, 8u8, 0u8] + le_bytes(base as nat, 8)
            + le_bytes(extension as nat, 8) + le_bytes(end, 8) + le_bytes(
            root.oh_addr as nat,
            8,
        ));
        lemma_le_bytes_len(crate::format::checksum::lookup3(text) as nat, 4);
    }
    b
}

fn finish_file(state: &FileState, out: Output, root: Ref) -> (r: Result<Vec<u8>, Error>)
    requires
        out@.wf(),
        out@.buf.len() >= 96,
    ensures
        same_bytes(r, file_finished(state@, out@, root)),
{
    let mut buf: Vec<u8> = out.buf;
    let extension: Option<u64> = write_sohm_tables(&mut buf, &out.stores, &out.patches)?;
    pad_image(&mut buf);
    let end: u64 = buf.len() as u64;
    let eof: u64 = state.userblock.wrapping_add(end);
    let ghost total = (buf@.len() + state.userblock) as nat;
    proof {
        lemma_pow256();
        lemma_le_bytes_residue(total, 8, 8);
    }
    let head: Buf = match extension {
        Some(x) => extended_superblock(root, x, eof, state.userblock, Ghost(total)),
        None => superblock(root, eof, state.userblock, Ghost(total)),
    };
    overwrite(&mut buf, 0, head.bytes.as_slice());
    if state.userblock == 0 {
        return Ok(buf);
    }
    if state.userblock > usize::MAX as u64 {
        return Err(Error::new("user block too large"));
    }
    let start = vstd::slice::slice_to_vec(state.userblock_data.as_slice());
    let mut image: Vec<u8> = fit(start, state.userblock as usize);
    image.append(&mut buf);
    Ok(image)
}

fn stores_of(indexes: &Vec<(u16, u32)>) -> (r: Vec<SharedStore>)
    ensures
        store_views(r@) == new_stores(indexes@),
{
    let ghost want = new_stores(indexes@);
    let mut out: Vec<SharedStore> = Vec::new();
    let mut i: usize = 0;
    while i < indexes.len()
        invariant
            i <= indexes@.len(),
            want == new_stores(indexes@),
            out@.len() == i,
            forall|k: int| 0 <= k < i ==> (#[trigger] out@[k])@ == want[k],
        decreases indexes@.len() - i,
    {
        let (flags, min_size) = indexes[i];
        let s = SharedStore { flags, min_size, objects: Vec::new(), refs: Vec::new() };
        assert(s@ =~= want[i as int]);
        out.push(s);
        i += 1;
    }
    assert(store_views(out@) =~= want);
    out
}

fn no_refs(n: usize) -> (r: Vec<Option<Ref>>)
    ensures
        r@ == Seq::new(n as nat, |i: int| None::<Ref>),
{
    let mut out: Vec<Option<Ref>> = Vec::new();
    let mut i: usize = 0;
    while i < n
        invariant
            i <= n,
            out@ == Seq::new(i as nat, |k: int| None::<Ref>),
        decreases n - i,
    {
        out.push(None);
        i += 1;
        assert(out@ =~= Seq::new(i as nat, |k: int| None::<Ref>));
    }
    out
}

/// Writes a file. Stored chunks are given, by the number of the object, for datasets
/// whose floating-point elements are to be scaled.
pub fn serialize(state: &FileState, given: &Vec<Option<Vec<Vec<u8>>>>) -> (r: Result<
    Vec<u8>,
    Error,
>)
    requires
        storable(state@),
    ensures
        exists|out: Result<Seq<u8>, Seq<char>>| #[trigger]
            file_writes(state@, all_given(given@), out) && same_bytes(r, out),
{
    let ghost f = state@;
    let ghost g = all_given(given@);
    let mut start = Buf::new();
    start.zeros(96);
    let mut out = Output {
        buf: start.bytes,
        memo: no_refs(state.objects.len()),
        stores: stores_of(&state.sohm),
        patches: Vec::new(),
    };
    assert(out@ =~= blank(f));
    let ghost w = out@;
    let none: Vec<usize> = Vec::new();
    assert(id_views(none@) =~= Seq::empty());
    let r = out.write_object(state, given, state.root, &none, state.objects.len());
    let ghost mid = choose|mid: Written| #[trigger]
        object_writes(w, f, g, f.root, Seq::empty(), f.objects.len(), mid) && object_as(
            r,
            out@,
            mid,
        );
    match r {
        Err(e) => {
            proof {
                reveal(file_writes);
                assert(file_writes(f, g, Err(e@)));
            }
            Err(e)
        },
        Ok(root) => {
            let ghost result = file_finished(f, out@, root);
            proof {
                reveal(file_writes);
                assert(file_writes(f, g, result));
            }
            finish_file(state, out, root)
        },
    }
}

} // verus!
