//! What operations on a file change and what they keep.

use vstd::prelude::*;

use crate::hl::attribute::{attr_created, lemma_attr_at};
use crate::hl::container::{conversion_checked, snapshot_of, stored, PlaceView};
use crate::hl::dataset::set_bits;
use crate::hl::datatype::{field_named, fields_path, path, Conversion};
use crate::hl::extents::ExtentsView;
use crate::hl::file::{opening, used_indexes, OpenMode, OpenStep};
use crate::hl::group::{
    hard_link_added, link_added, link_place, link_removed, linked, new_link, ordered,
    recounted_object, stepped, unlinked,
};
use crate::hl::location::{reached, ReachView, MAX_LINK_DEPTH};
use crate::hl::plist::file_create::SharedMessageIndex;
use crate::model::{
    attr_at, components, followed, hard_links, law_link_at, link_at, links_to, references,
    resolved, FileView, KindView, LinkView, NodeView, TargetView,
};
use crate::types::{FieldView, TypeView};

verus! {

// Containers.

/// What was stored in a container is what it holds afterwards; its type and shape stay.
pub proof fn law_stored_held(f: FileView, c: PlaceView, data: Seq<u8>, vlen: Seq<Seq<u8>>)
    requires
        stored(f, c, data, vlen).1 is Ok,
        snapshot_of(f, c) is Ok,
    ensures
        snapshot_of(stored(f, c, data, vlen).0, c) matches Ok(h) && h.data == data && h.vlen == vlen
            && h.dtype == snapshot_of(f, c)->Ok_0.dtype && h.dims == snapshot_of(f, c)->Ok_0.dims
            && h.is_scalar == snapshot_of(f, c)->Ok_0.is_scalar && h.is_null == snapshot_of(
            f,
            c,
        )->Ok_0.is_null,
{
    if let PlaceView::Attribute { owner, name } = c {
        let before = f.object(owner)->0.attrs;
        let k = attr_at(before, name)->0;
        lemma_attr_at(before, name);
        let g = stored(f, c, data, vlen).0;
        let after = g.object(owner)->0.attrs;
        lemma_attr_at(after, name);
        assert(after[k as int].name == name);
        match attr_at(after, name) {
            Some(j) => {
                if j < k {
                    assert(after[j as int] == before[j as int]);
                }
            },
            None => {},
        }
    }
}

/// Storing the data of a container changes no other object of the file, and what cannot be
/// stored changes nothing.
pub proof fn law_stored_others(
    f: FileView,
    c: PlaceView,
    data: Seq<u8>,
    vlen: Seq<Seq<u8>>,
    id: nat,
)
    requires
        match c {
            PlaceView::Dataset(x) => id != x,
            PlaceView::Attribute { owner, .. } => id != owner,
        },
    ensures
        stored(f, c, data, vlen).0.object(id) == f.object(id),
        stored(f, c, data, vlen).1 is Err ==> stored(f, c, data, vlen).0 == f,
{
}

/// An attribute that is made changes no other attribute of its object and no other object.
pub proof fn law_attr_created_others(
    f: FileView,
    owner: nat,
    name: Seq<char>,
    ty: TypeView,
    e: ExtentsView,
    id: nat,
    i: int,
)
    requires
        attr_created(f, owner, name, ty, e).1 is Ok,
        0 <= i < f.object(owner)->0.attrs.len(),
    ensures
        ({
            let g = attr_created(f, owner, name, ty, e).0;
            &&& g.object(owner)->0.attrs.len() == f.object(owner)->0.attrs.len() + 1
            &&& g.object(owner)->0.attrs[i] == f.object(owner)->0.attrs[i]
            &&& g.object(owner)->0.kind == f.object(owner)->0.kind
            &&& id != owner ==> g.object(id) == f.object(id)
        }),
{
}

// Conversions.

/// Where a conversion is allowed, so is it where worse ones are allowed too; where all are
/// allowed, whatever can be converted is; and elements of the same type always are.
pub proof fn law_conversion_allowed(src: TypeView, dst: TypeView)
    ensures
        conversion_checked(Conversion::NoOp, src, dst) is Ok ==> conversion_checked(
            Conversion::Hard,
            src,
            dst,
        ) is Ok,
        conversion_checked(Conversion::Hard, src, dst) is Ok ==> conversion_checked(
            Conversion::Soft,
            src,
            dst,
        ) is Ok,
        conversion_checked(Conversion::Soft, src, dst) is Ok <==> path(src, dst) is Some,
        conversion_checked(Conversion::NoOp, src, src) is Ok,
{
}

/// Whether a type is made of no others.
pub open spec fn simple(t: TypeView) -> bool {
    !(t is Compound || t is FixedArray || t is VarLenArray)
}

/// Between types that are made of no others a conversion leads both ways or none. Nothing
/// is to be done exactly where they are the same; numbers are converted to numbers, and
/// texts to texts.
pub proof fn law_simple_paths(a: TypeView, b: TypeView)
    requires
        simple(a),
        simple(b),
    ensures
        path(a, b) == path(b, a),
        path(a, b) == Some(Conversion::NoOp) <==> a == b,
        a != b && (a is Integer || a is Unsigned || a is Float) && (b is Integer || b is Unsigned
            || b is Float) ==> path(a, b) == Some(Conversion::Hard),
        a != b && (a is FixedAscii || a is FixedUnicode || a is VarLenAscii || a is VarLenUnicode)
            && (b is FixedAscii || b is FixedUnicode || b is VarLenAscii || b is VarLenUnicode)
            ==> path(a, b) == Some(Conversion::Soft),
        (a is Integer || a is Unsigned || a is Float) && (b is FixedAscii || b is FixedUnicode
            || b is VarLenAscii || b is VarLenUnicode) ==> path(a, b) is None,
{
}

/// Arrays are converted as their elements are, where they have as many.
pub proof fn law_array_paths(a: TypeView, b: TypeView, n: nat, m: nat)
    ensures
        ({
            let p = path(TypeView::FixedArray(Box::new(a), n), TypeView::FixedArray(Box::new(b), m));
            &&& n == m ==> p == path(a, b)
            &&& n != m ==> p is None
        }),
        path(TypeView::VarLenArray(Box::new(a)), TypeView::VarLenArray(Box::new(b))) == path(a, b),
{
}

/// A compound is converted where each field has one of its name to be converted from. The
/// conversion is no better than that of any field, and soft where a field moves; nothing is
/// to be done only where nothing is for any field.
pub proof fn law_fields_path(a: Seq<FieldView>, b: Seq<FieldView>, n: nat, i: int)
    requires
        n <= b.len(),
    ensures
        fields_path(a, b, n) is Some <==> forall|j: int|
            0 <= j < n ==> (field_named(a, (#[trigger] b[j]).name, 0) matches Some(k) && path(
                a[k as int].ty,
                b[j].ty,
            ) is Some),
        fields_path(a, b, n) is Some && 0 <= i < n ==> {
            let k = field_named(a, b[i].name, 0)->0 as int;
            &&& (fields_path(a, b, n)->0).rank() >= (path(a[k].ty, b[i].ty)->0).rank()
            &&& a[k].offset != b[i].offset ==> fields_path(a, b, n) == Some(Conversion::Soft)
        },
        fields_path(a, b, n) is Some && (forall|j: int|
            0 <= j < n ==> ({
                let k = field_named(a, (#[trigger] b[j]).name, 0)->0 as int;
                path(a[k].ty, b[j].ty) == Some(Conversion::NoOp) && a[k].offset == b[j].offset
            })) ==> fields_path(a, b, n) == Some(Conversion::NoOp),
    decreases n,
{
    if n > 0 {
        let m = (n - 1) as nat;
        law_fields_path(a, b, m, i);
        if fields_path(a, b, n) is Some {
            assert(fields_path(a, b, m) is Some);
            assert forall|j: int| 0 <= j < n implies (field_named(
                a,
                (#[trigger] b[j]).name,
                0,
            ) matches Some(k) && path(a[k as int].ty, b[j].ty) is Some) by {
                if j < m {
                    assert(field_named(a, b[j].name, 0) is Some);
                }
            }
        } else if fields_path(a, b, m) is Some {
            assert(!(field_named(a, b[m as int].name, 0) matches Some(k) && path(
                a[k as int].ty,
                b[m as int].ty,
            ) is Some));
        }
    }
}

/// The field of a name is the first that has it.
pub proof fn law_field_named(fields: Seq<FieldView>, name: Seq<char>, i: int)
    requires
        0 <= i <= fields.len(),
    ensures
        match field_named(fields, name, i) {
            Some(k) => i <= k < fields.len() && fields[k as int].name == name && forall|j: int|
                i <= j < k ==> (#[trigger] fields[j]).name != name,
            None => forall|j: int| i <= j < fields.len() ==> (#[trigger] fields[j]).name != name,
        },
    decreases fields.len() - i,
{
    if i < fields.len() && fields[i].name != name {
        law_field_named(fields, name, i + 1);
    }
}

// Files.

/// A file that has to be there is not made, one that must not be there is not read, and only
/// a file that is opened for reading cannot be written.
pub proof fn law_opening(mode: OpenMode, there: bool)
    ensures
        opening(mode, there) is Load ==> there,
        opening(mode, there) is NotFound <==> !there && (mode is Read || mode is ReadWrite),
        opening(mode, there) is AlreadyExists <==> there && mode is CreateExcl,
        opening(mode, there) is Make <==> mode is Create || (!there && (mode is CreateExcl
            || mode is Append)),
        opening(mode, there) matches OpenStep::Load { read_only } ==> (read_only <==> mode is Read),
{
}

/// A new file takes the indexes that hold messages at all, in their order.
pub proof fn law_used_indexes(v: Seq<SharedMessageIndex>, x: SharedMessageIndex)
    ensures
        used_indexes(Seq::empty()) == Seq::<(u16, u32)>::empty(),
        x.message_types.bits == 0 ==> used_indexes(v.push(x)) == used_indexes(v),
        x.message_types.bits != 0 ==> used_indexes(v.push(x)) == used_indexes(v).push(
            (x.message_types.bits as u16, x.min_message_size),
        ),
{
    assert(v.push(x).drop_last() =~= v);
}

// Links across files.

/// What is found in a file without leaving it is what its paths lead to.
pub proof fn law_found_is_led_to(
    f: FileView,
    cur: nat,
    parts: Seq<Seq<char>>,
    i: int,
    depth: nat,
    id: nat,
)
    requires
        depth <= MAX_LINK_DEPTH,
        reached(f, cur, parts, i, depth) == Ok::<ReachView, Seq<char>>(ReachView::Found(id)),
    ensures
        followed(f, cur, parts, i, (MAX_LINK_DEPTH - depth) as nat) == Some(id),
    decreases MAX_LINK_DEPTH + 1 - depth, parts.len() - i,
{
    if 0 <= i < parts.len() {
        let g = f.group(cur)->0;
        let k = link_at(g.links, parts[i])->0;
        match g.links[k as int].target {
            TargetView::Hard(next) => {
                law_found_is_led_to(f, next, parts, i + 1, depth, id);
            },
            TargetView::Soft(path) => {
                let r = reached(f, f.root, components(path, 0), 0, depth + 1);
                if let Ok(ReachView::Found(mid)) = r {
                    law_found_is_led_to(f, f.root, components(path, 0), 0, depth + 1, mid);
                    law_found_is_led_to(f, mid, parts, i + 1, depth, id);
                }
            },
            TargetView::External { .. } => {},
        }
    }
}

/// A walk leaves a file at an external link, for the file and the path that the link
/// names; what follows the link in the path waits.
pub proof fn law_external_leaves(
    f: FileView,
    cur: nat,
    parts: Seq<Seq<char>>,
    i: int,
    depth: nat,
)
    requires
        0 <= i < parts.len(),
        f.group(cur) is Some,
        link_at(f.group(cur)->0.links, parts[i]) is Some,
        f.group(cur)->0.links[link_at(
            f.group(cur)->0.links,
            parts[i],
        )->0 as int].target is External,
    ensures
        reached(f, cur, parts, i, depth) matches Ok(
            ReachView::Elsewhere { file, path, depth: d, frames },
        ) && d == depth + 1 && f.group(cur)->0.links[link_at(
            f.group(cur)->0.links,
            parts[i],
        )->0 as int].target == (TargetView::External { file, path }) && frames.len() == 1
            && frames[0].parts.skip(frames[0].done as int) == parts.skip(i + 1),
{
}

// Masks.

/// The filters that a mask skips are those whose bits are set, from the lowest on.
pub proof fn law_set_bits(mask: u32, n: nat, i: nat)
    requires
        n <= 32,
        i < 32,
    ensures
        set_bits(mask, n).contains(i as usize) <==> i < n && (mask >> (i as u32)) & 1 == 1,
        forall|a: int, b: int|
            0 <= a < b < set_bits(mask, n).len() ==> #[trigger] set_bits(mask, n)[a]
                < #[trigger] set_bits(mask, n)[b],
        forall|a: int| 0 <= a < set_bits(mask, n).len() ==> #[trigger] set_bits(mask, n)[a] < n,
    decreases n,
{
    if n > 0 {
        let m = (n - 1) as nat;
        law_set_bits(mask, m, i);
        let before = set_bits(mask, m);
        let all = set_bits(mask, n);
        if (mask >> (m as u32)) & 1 == 1 {
            assert(all == before.push(m as usize));
            if all.contains(i as usize) {
                let p = all.index_of(i as usize);
                if p < before.len() {
                    assert(before[p] == i as usize);
                }
            }
            if i < n && (mask >> (i as u32)) & 1 == 1 {
                if i < m {
                    let p = before.index_of(i as usize);
                    assert(all[p] == i as usize);
                } else {
                    assert(all[before.len() as int] == i as usize);
                }
            }
        }
    }
}

// Reference counts.

proof fn lemma_links_push(links: Seq<LinkView>, l: LinkView, id: nat)
    ensures
        links_to(links.push(l), id) == links_to(links, id) + (if l.target == TargetView::Hard(id) {
            1nat
        } else {
            0nat
        }),
{
    assert(links.push(l).drop_last() =~= links);
}

proof fn lemma_links_remove(links: Seq<LinkView>, k: int, id: nat)
    requires
        0 <= k < links.len(),
    ensures
        links_to(links, id) == links_to(links.remove(k), id) + (if links[k].target
            == TargetView::Hard(id) {
            1nat
        } else {
            0nat
        }),
    decreases links.len(),
{
    let rest = links.remove(k);
    if k == links.len() - 1 {
        assert(rest =~= links.drop_last());
    } else {
        let init = links.drop_last();
        lemma_links_remove(init, k, id);
        assert(rest.drop_last() =~= init.remove(k));
        assert(rest.last() == links.last());
    }
}

/// The hard links to an object in one node.
spec fn node_links(n: Option<NodeView>, id: nat) -> nat {
    match n {
        Some(x) => match x.kind {
            KindView::Group(g) => links_to(g.links, id),
            _ => 0,
        },
        None => 0,
    }
}

proof fn lemma_hard_links_update(
    objects: Seq<Option<NodeView>>,
    p: int,
    n: Option<NodeView>,
    id: nat,
)
    requires
        0 <= p < objects.len(),
    ensures
        hard_links(objects.update(p, n), id) == hard_links(objects, id) - node_links(objects[p], id)
            + node_links(n, id),
    decreases objects.len(),
{
    let after = objects.update(p, n);
    if p == objects.len() - 1 {
        assert(after.drop_last() =~= objects.drop_last());
    } else {
        lemma_hard_links_update(objects.drop_last(), p, n, id);
        assert(after.drop_last() =~= objects.drop_last().update(p, n));
        assert(after.last() == objects.last());
    }
}

/// A link that is added to a group is one more reference to what it leads to, and none to
/// anything else.
pub proof fn law_references_linked(f: FileView, parent: nat, l: LinkView, id: nat)
    requires
        f.group(parent) is Some,
    ensures
        references(linked(f, parent, l), id) == references(f, id) + (if l.target
            == TargetView::Hard(id) {
            1nat
        } else {
            0nat
        }),
{
    let g = f.group(parent)->0;
    lemma_links_push(g.links, l, id);
    let n = linked(f, parent, l).objects[parent as int];
    lemma_hard_links_update(f.objects, parent as int, n, id);
}

/// A link that is taken out of a group is one reference less to what it led to, and none
/// to anything else.
pub proof fn law_references_unlinked(f: FileView, parent: nat, k: nat, id: nat)
    requires
        f.group(parent) is Some,
        k < f.group(parent)->0.links.len(),
    ensures
        references(f, id) == references(unlinked(f, parent, k), id) + (if f.group(
            parent,
        )->0.links[k as int].target == TargetView::Hard(id) {
            1nat
        } else {
            0nat
        }),
{
    let g = f.group(parent)->0;
    lemma_links_remove(g.links, k as int, id);
    let n = unlinked(f, parent, k).objects[parent as int];
    lemma_hard_links_update(f.objects, parent as int, n, id);
}

/// Whether an object knows how often it is referred to.
pub open spec fn counted(f: FileView, id: nat) -> bool {
    f.object(id) matches Some(n) && n.refcount == references(f, id)
}

proof fn lemma_recounted(f: FileView, x: nat, more: bool, id: nat)
    requires
        x < f.objects.len(),
    ensures
        references(recounted_object(f, x, more), id) == references(f, id),
        id != x ==> recounted_object(f, x, more).object(id) == f.object(id),
{
    if let Some(n) = f.object(x) {
        let after = Some(NodeView { refcount: stepped(n.refcount, more), ..n });
        lemma_hard_links_update(f.objects, x as int, after, id);
    }
}

/// A hard link keeps the counts of references right.
pub proof fn law_hard_link_counted(
    f: FileView,
    start: nat,
    target: Seq<char>,
    path: Seq<char>,
    id: nat,
)
    requires
        hard_link_added(f, start, target, path).1 is Ok,
        counted(f, id),
        resolved(f, start, target)->0 < f.objects.len(),
        f.object(id)->0.refcount < u32::MAX,
    ensures
        counted(hard_link_added(f, start, target, path).0, id),
{
    let x = resolved(f, start, target)->0;
    let (g, r) = link_added(f, start, path, TargetView::Hard(x));
    let (parent, leaf) = link_place(f, start, path)->Ok_0;
    let l = new_link(f, leaf, TargetView::Hard(x));
    law_references_linked(ordered(f), parent, l, id);
    assert(references(ordered(f), id) == references(f, id));
    lemma_recounted(g, x, true, id);
    assert(g.object(id)->0.refcount == f.object(id)->0.refcount);
}

/// Taking a link out keeps the counts of references right.
pub proof fn law_unlink_counted(f: FileView, start: nat, name: Seq<char>, id: nat)
    requires
        link_removed(f, start, name).1 is Ok,
        counted(f, id),
        ({
            let k = link_at(f.group(start)->0.links, name)->0;
            f.group(start)->0.links[k as int].target matches TargetView::Hard(x) ==> x
                < f.objects.len()
        }),
    ensures
        counted(link_removed(f, start, name).0, id),
{
    let links = f.group(start)->0.links;
    let k = link_at(links, name)->0;
    law_link_at(links, name);
    let g = unlinked(f, start, k);
    law_references_unlinked(f, start, k, id);
    assert(g.object(id)->0.refcount == f.object(id)->0.refcount);
    if let TargetView::Hard(x) = links[k as int].target {
        lemma_recounted(g, x, false, id);
    }
}

} // verus!
