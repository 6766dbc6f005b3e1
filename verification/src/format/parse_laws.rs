//! A file that is parsed is the file that was written.

use vstd::prelude::*;

use crate::format::dataset_laws::{comes_back, maps_back};
use crate::format::elements::fitted;
use crate::format::file_laws::{
    block_told, file_told, holds, law_file_stands, read_order, stands_whole, whole_image,
};
use crate::format::group::MemberLink;
use crate::format::object::{ImageView, RawTargetView};
use crate::format::object_laws::attrs_back;
use crate::format::reader::{
    file_parsed, finished_node, members_added, numbered, object_added, object_read, opened,
    replaced, reserved, AssemblyView, RawKindView,
};
use crate::format::superblock::superblock_of;
use crate::format::writer::file_writes;
use crate::model::{
    recounted, FileView, GroupView, KindView, LayoutKind, LinkView, NodeView, TargetView,
};

verus! {

// What an assembly holds.

/// Whether a link of an assembly leads where a member that was read does.
pub open spec fn link_made(st: AssemblyView, m: MemberLink, l: LinkView) -> bool {
    &&& l.name == m.name
    &&& match (m.target, l.target) {
        (RawTargetView::Hard(a), TargetView::Hard(x)) => st.memo.contains_key(a) && st.memo[a]
            == x,
        (RawTargetView::Soft(p), TargetView::Soft(q)) => p == q,
        (
            RawTargetView::External { file, path },
            TargetView::External { file: other, path: there },
        ) => file == other && path == there,
        _ => false,
    }
}

/// Whether an object of an assembly is what was read at its address.
pub open spec fn made(img: ImageView, st: AssemblyView, addr: u64) -> bool {
    match (object_read(img, addr), st.file.object(st.memo[addr])) {
        (Ok(o), Some(n)) => {
            &&& n.attrs == o.attrs
            &&& n.comment == o.comment
            &&& n.mtime == o.mtime
            &&& match (o.kind, n.kind) {
                (RawKindView::Group(ms), KindView::Group(g)) => {
                    &&& g.links.len() == ms.len()
                    &&& forall|i: int|
                        0 <= i < ms.len() ==> link_made(st, #[trigger] ms[i], g.links[i])
                },
                (RawKindView::Dataset(x), KindView::Dataset(d)) => x == d && (
                o.mappings matches Some((a, i)) ==> st.pending.contains((st.memo[addr], a, i))),
                (RawKindView::NamedType(a), KindView::NamedType(b)) => a == b,
                _ => false,
            }
        },
        _ => false,
    }
}

/// Whether the objects of an assembly have numbers of their own, and all that are not
/// being made are what was read.
pub open spec fn assembled(img: ImageView, st: AssemblyView, busy: Set<u64>) -> bool {
    &&& forall|a: u64|
        st.memo.contains_key(a) ==> #[trigger] st.memo[a] < st.file.objects.len()
    &&& forall|a: u64, b: u64|
        st.memo.contains_key(a) && st.memo.contains_key(b) && a != b ==> #[trigger] st.memo[a]
            != #[trigger] st.memo[b]
    &&& forall|a: u64|
        st.memo.contains_key(a) && !busy.contains(a) ==> #[trigger] made(img, st, a)
}

/// Whether an assembly goes on from another one: what was there is there.
pub open spec fn goes_on(st: AssemblyView, next: AssemblyView) -> bool {
    &&& st.file.objects.len() <= next.file.objects.len()
    &&& st.file.userblock == next.file.userblock
    &&& st.file.userblock_data == next.file.userblock_data
    &&& forall|k: int|
        0 <= k < st.file.objects.len() ==> #[trigger] next.file.objects[k] == st.file.objects[k]
    &&& forall|a: u64|
        #[trigger] st.memo.contains_key(a) ==> next.memo.contains_key(a) && next.memo[a]
            == st.memo[a]
    &&& forall|p: (nat, u64, u32)|
        #[trigger] st.pending.contains(p) ==> next.pending.contains(p)
}

proof fn lemma_goes_on(a: AssemblyView, b: AssemblyView, c: AssemblyView)
    requires
        goes_on(a, b),
        goes_on(b, c),
    ensures
        goes_on(a, c),
{
    assert forall|k: int| 0 <= k < a.file.objects.len() implies #[trigger] c.file.objects[k]
        == a.file.objects[k] by {
        assert(b.file.objects[k] == a.file.objects[k]);
    }
    assert forall|x: u64| #[trigger] a.memo.contains_key(x) implies c.memo.contains_key(x)
        && c.memo[x] == a.memo[x] by {
        assert(b.memo.contains_key(x));
    }
}

/// A link that leads somewhere leads there when the assembly goes on.
proof fn lemma_link_stays(st: AssemblyView, next: AssemblyView, m: MemberLink, l: LinkView)
    requires
        link_made(st, m, l),
        goes_on(st, next),
    ensures
        link_made(next, m, l),
{
    match m.target {
        RawTargetView::Hard(a) => {
            assert(st.memo.contains_key(a));
        },
        _ => {},
    }
}

/// An object that was made stays when others are.
proof fn lemma_made_stays(img: ImageView, st: AssemblyView, next: AssemblyView, a: u64)
    requires
        made(img, st, a),
        st.memo.contains_key(a),
        next.memo.contains_key(a) && next.memo[a] == st.memo[a],
        next.file.object(st.memo[a]) == st.file.object(st.memo[a]),
        forall|x: u64|
            #[trigger] st.memo.contains_key(x) ==> next.memo.contains_key(x) && next.memo[x]
                == st.memo[x],
        forall|p: (nat, u64, u32)|
            #[trigger] st.pending.contains(p) ==> next.pending.contains(p),
    ensures
        made(img, next, a),
{
    let o = object_read(img, a)->Ok_0;
    let n = st.file.object(st.memo[a])->0;
    match (o.kind, n.kind) {
        (RawKindView::Group(ms), KindView::Group(g)) => {
            assert forall|i: int| 0 <= i < ms.len() implies link_made(
                next,
                #[trigger] ms[i],
                g.links[i],
            ) by {
                assert(link_made(st, ms[i], g.links[i]));
                match ms[i].target {
                    RawTargetView::Hard(x) => {
                        assert(st.memo.contains_key(x));
                    },
                    _ => {},
                }
            }
        },
        _ => {},
    }
}

/// A place for an object is reserved.
proof fn lemma_reserved(img: ImageView, st: AssemblyView, addr: u64, busy: Set<u64>)
    requires
        assembled(img, st, busy),
        !st.memo.contains_key(addr),
    ensures
        assembled(img, reserved(st, addr), busy.insert(addr)),
        goes_on(st, reserved(st, addr)),
        reserved(st, addr).memo[addr] == st.file.objects.len(),
        reserved(st, addr).memo.contains_key(addr),
{
    let next = reserved(st, addr);
    assert forall|a: u64|
        next.memo.contains_key(a) && !busy.insert(addr).contains(a) implies #[trigger] made(
        img,
        next,
        a,
    ) by {
        assert(st.memo.contains_key(a));
        assert(made(img, st, a));
        assert(st.memo[a] < st.file.objects.len());
        lemma_made_stays(img, st, next, a);
    }
    assert forall|a: u64| next.memo.contains_key(a) implies #[trigger] next.memo[a]
        < next.file.objects.len() by {
        if a != addr {
            assert(st.memo[a] < st.file.objects.len());
        }
    }
    assert forall|a: u64, b: u64|
        next.memo.contains_key(a) && next.memo.contains_key(b) && a != b implies
        #[trigger] next.memo[a] != #[trigger] next.memo[b] by {
        if a != addr {
            assert(st.memo[a] < st.file.objects.len());
        }
        if b != addr {
            assert(st.memo[b] < st.file.objects.len());
        }
    }
}

/// An object that was being made is put in its place.
proof fn lemma_replaced(
    img: ImageView,
    st: AssemblyView,
    addr: u64,
    busy: Set<u64>,
    node: NodeView,
)
    requires
        assembled(img, st, busy.insert(addr)),
        !busy.contains(addr),
        st.memo.contains_key(addr),
        made(img, replaced(st, st.memo[addr], node), addr),
    ensures
        assembled(img, replaced(st, st.memo[addr], node), busy),
{
    let id = st.memo[addr];
    let next = replaced(st, id, node);
    assert(st.memo[addr] < st.file.objects.len());
    assert forall|a: u64| next.memo.contains_key(a) && !busy.contains(a) implies #[trigger] made(
        img,
        next,
        a,
    ) by {
        if a != addr {
            assert(st.memo[a] != st.memo[addr]);
            assert(made(img, st, a));
            lemma_made_stays(img, st, next, a);
        }
    }
}

/// The object at an address is added with all that it leads to.
proof fn lemma_added(
    img: ImageView,
    f: FileView,
    st: AssemblyView,
    addr: u64,
    id: nat,
    depth: nat,
    busy: Set<u64>,
)
    requires
        stands_whole(img, addr, f, id),
        assembled(img, st, busy),
        forall|a: u64| #[trigger] busy.contains(a) ==> a > addr,
        depth > addr,
    ensures
        ({
            let (next, k) = object_added(img, st, addr, depth);
            &&& assembled(img, next, busy)
            &&& goes_on(st, next)
            &&& next.memo.contains_key(addr)
            &&& next.memo[addr] == k
        }),
    decreases depth, 0nat,
{
    if !st.memo.contains_key(addr) {
        let k = st.file.objects.len();
        let st1 = reserved(st, addr);
        let more = busy.insert(addr);
        lemma_reserved(img, st, addr, busy);
        assert(holds(img, addr, f, id, 1));
        let o = object_read(img, addr)->Ok_0;
        match o.kind {
            RawKindView::Group(ms) => {
                lemma_members(
                    img,
                    f,
                    st1,
                    addr,
                    id,
                    ms,
                    0,
                    Seq::empty(),
                    (depth - 1) as nat,
                    more,
                );
                let (st2, links) = members_added(
                    img,
                    st1,
                    ms,
                    0,
                    Seq::empty(),
                    (depth - 1) as nat,
                );
                let node = finished_node(
                    o,
                    KindView::Group(GroupView { links, track_order: false }),
                );
                let next = replaced(st2, k, node);
                assert(st1.memo.contains_key(addr));
                assert(st2.memo[addr] == k);
                assert forall|i: int| 0 <= i < ms.len() implies link_made(
                    next,
                    #[trigger] ms[i],
                    links[i],
                ) by {
                    assert(link_made(st2, ms[i], links[i]));
                }
                lemma_replaced(img, st2, addr, busy, node);
                lemma_goes_on(st, st1, st2);
            },
            RawKindView::Dataset(d) => {
                let node = finished_node(o, KindView::Dataset(d));
                let next = object_added(img, st, addr, depth).0;
                let more_pending = match o.mappings {
                    Some((a, i)) => st1.pending.push((k, a, i)),
                    None => st1.pending,
                };
                let st2 = AssemblyView { pending: more_pending, ..st1 };
                assert forall|p: (nat, u64, u32)| #[trigger] st1.pending.contains(p) implies
                    st2.pending.contains(p) by {
                    let j = choose|j: int| 0 <= j < st1.pending.len() && st1.pending[j] == p;
                    assert(st2.pending[j] == p);
                }
                if let Some((a, i)) = o.mappings {
                    assert(st2.pending[st1.pending.len() as int] == (k, a, i));
                }
                lemma_pending(img, st1, st2, more);
                lemma_replaced(img, st2, addr, busy, node);
                assert(next == replaced(st2, k, node));
            },
            RawKindView::NamedType(t) => {
                lemma_replaced(img, st1, addr, busy, finished_node(o, KindView::NamedType(t)));
            },
        }
    }
}

/// Mappings that have still to be read change nothing of the objects.
proof fn lemma_pending(img: ImageView, a: AssemblyView, b: AssemblyView, busy: Set<u64>)
    requires
        assembled(img, a, busy),
        a.file == b.file,
        a.memo == b.memo,
        forall|p: (nat, u64, u32)| #[trigger] a.pending.contains(p) ==> b.pending.contains(p),
    ensures
        assembled(img, b, busy),
{
    assert forall|x: u64| b.memo.contains_key(x) && !busy.contains(x) implies #[trigger] made(
        img,
        b,
        x,
    ) by {
        assert(made(img, a, x));
        lemma_made_stays(img, a, b, x);
    }
}

/// The members of a group are added, from the number `i` on.
proof fn lemma_members(
    img: ImageView,
    f: FileView,
    st: AssemblyView,
    addr: u64,
    id: nat,
    ms: Seq<MemberLink>,
    i: int,
    acc: Seq<LinkView>,
    depth: nat,
    busy: Set<u64>,
)
    requires
        stands_whole(img, addr, f, id),
        object_read(img, addr) matches Ok(o) && o.kind == RawKindView::Group(ms),
        assembled(img, st, busy),
        forall|a: u64| #[trigger] busy.contains(a) ==> a >= addr,
        depth >= addr,
        0 <= i <= ms.len(),
        acc.len() == i,
        forall|j: int| 0 <= j < i ==> link_made(st, #[trigger] ms[j], acc[j]),
    ensures
        ({
            let (next, links) = members_added(img, st, ms, i, acc, depth);
            &&& assembled(img, next, busy)
            &&& goes_on(st, next)
            &&& links.len() == ms.len()
            &&& forall|j: int| 0 <= j < ms.len() ==> link_made(next, #[trigger] ms[j], links[j])
        }),
    decreases depth, (ms.len() - i + 1) as nat,
{
    if i < ms.len() {
        let m = ms[i];
        assert(holds(img, addr, f, id, 1));
        let n = f.object(id)->0;
        let list = read_order(n.kind->Group_0.links);
        assert(ms[i].name == list[i].name);
        let (st2, target) = match m.target {
            RawTargetView::Hard(a) => {
                let (s, x) = object_added(img, st, a, depth);
                (s, TargetView::Hard(x))
            },
            RawTargetView::Soft(path) => (st, TargetView::Soft(path)),
            RawTargetView::External { file, path } => (st, TargetView::External { file, path }),
        };
        match m.target {
            RawTargetView::Hard(a) => {
                let x = list[i].target->Hard_0;
                assert(stands_whole(img, a, f, x)) by {
                    assert forall|k: nat| #[trigger] holds(img, a, f, x, k) by {
                        assert(holds(img, addr, f, id, k + 1));
                        assert(ms[i].name == list[i].name);
                    }
                }
                lemma_added(img, f, st, a, x, depth, busy);
            },
            _ => {},
        }
        let (st3, order) = numbered(st2, m.creation_order);
        lemma_numbered(img, st2, st3, busy);
        lemma_goes_on(st, st2, st3);
        let l = LinkView { name: m.name, target, creation_order: order, utf8: m.utf8 };
        assert(link_made(st3, m, l));
        let more = acc.push(l);
        assert forall|j: int| 0 <= j < i + 1 implies link_made(st3, #[trigger] ms[j], more[j]) by {
            if j < i {
                assert(link_made(st, ms[j], acc[j]));
                lemma_link_stays(st, st3, ms[j], acc[j]);
            }
        }
        lemma_members(img, f, st3, addr, id, ms, i + 1, more, depth, busy);
        let (next, links) = members_added(img, st3, ms, i + 1, more, depth);
        lemma_goes_on(st, st3, next);
    }
}

/// A number for a link changes nothing of the objects.
proof fn lemma_numbered(img: ImageView, a: AssemblyView, b: AssemblyView, busy: Set<u64>)
    requires
        assembled(img, a, busy),
        a.file.objects == b.file.objects,
        a.file.userblock == b.file.userblock,
        a.file.userblock_data == b.file.userblock_data,
        a.memo == b.memo,
        a.pending == b.pending,
    ensures
        assembled(img, b, busy),
        goes_on(a, b),
{
    assert forall|x: u64| b.memo.contains_key(x) && !busy.contains(x) implies #[trigger] made(
        img,
        b,
        x,
    ) by {
        assert(made(img, a, x));
        lemma_made_stays(img, a, b, x);
    }
}

// What is read of what was written.

/// Whether the mappings of a virtual dataset with the number `k` have still to be read, at
/// a place that gives them.
pub open spec fn maps_told(
    data: Seq<u8>,
    base: u64,
    pending: Seq<(nat, u64, u32)>,
    k: nat,
    layout: LayoutKind,
) -> bool {
    layout is Virtual ==> exists|a: u64, i: u32| #[trigger]
        pending.contains((k, a, i)) && maps_back(data, base, Some((a, i)), layout)
}

/// Whether an object of a file that was parsed from an image is an object of a file that
/// was written: attributes, comments and times agree, and so do datasets and types; the
/// links of groups come back by name, those to objects lead to objects that agree, down
/// to `depth` links below. Virtual datasets are pending with the place of their mappings.
pub open spec fn alike(
    data: Seq<u8>,
    f: FileView,
    id: nat,
    g: FileView,
    pending: Seq<(nat, u64, u32)>,
    k: nat,
    depth: nat,
) -> bool
    decreases depth,
{
    match (f.object(id), g.object(k)) {
        (Some(n), Some(m)) => {
            &&& m.attrs == attrs_back(n.attrs)
            &&& m.comment == n.comment
            &&& m.mtime == n.mtime
            &&& match (n.kind, m.kind) {
                (KindView::Group(a), KindView::Group(b)) => {
                    let list = read_order(a.links);
                    &&& b.links.len() == list.len()
                    &&& forall|i: int|
                        0 <= i < list.len() ==> (#[trigger] b.links[i]).name == list[i].name
                            && match (list[i].target, b.links[i].target) {
                            (TargetView::Soft(p), TargetView::Soft(q)) => p == q,
                            (
                                TargetView::External { file, path },
                                TargetView::External { file: other, path: there },
                            ) => file == other && path == there,
                            (TargetView::Hard(x), TargetView::Hard(y)) => depth > 0 ==> alike(
                                data,
                                f,
                                x,
                                g,
                                pending,
                                y,
                                (depth - 1) as nat,
                            ),
                            _ => false,
                        }
                },
                (KindView::Dataset(d), KindView::Dataset(x)) => comes_back(data, x, d)
                    && maps_told(data, f.userblock, pending, k, d.layout),
                (KindView::NamedType(a), KindView::NamedType(b)) => a == b,
                _ => false,
            }
        },
        _ => false,
    }
}

proof fn lemma_alike(
    img: ImageView,
    f: FileView,
    st: AssemblyView,
    root: nat,
    addr: u64,
    id: nat,
    depth: nat,
)
    requires
        stands_whole(img, addr, f, id),
        img.base == f.userblock,
        assembled(img, st, Set::empty()),
        st.memo.contains_key(addr),
    ensures
        alike(
            img.data,
            f,
            id,
            recounted(FileView { root, ..st.file }),
            st.pending,
            st.memo[addr],
            depth,
        ),
    decreases depth,
{
    let g = recounted(FileView { root, ..st.file });
    assert(made(img, st, addr));
    assert(holds(img, addr, f, id, 1));
    let n = f.object(id)->0;
    let o = object_read(img, addr)->Ok_0;
    match (o.kind, n.kind) {
        (RawKindView::Group(ms), KindView::Group(a)) => {
            let list = read_order(a.links);
            let b = st.file.object(st.memo[addr])->0.kind->Group_0;
            assert forall|i: int| 0 <= i < list.len() implies (#[trigger] b.links[i]).name
                == list[i].name && match (list[i].target, b.links[i].target) {
                (TargetView::Soft(p), TargetView::Soft(q)) => p == q,
                (
                    TargetView::External { file, path },
                    TargetView::External { file: other, path: there },
                ) => file == other && path == there,
                (TargetView::Hard(x), TargetView::Hard(y)) => depth > 0 ==> alike(
                    img.data,
                    f,
                    x,
                    g,
                    st.pending,
                    y,
                    (depth - 1) as nat,
                ),
                _ => false,
            } by {
                assert(link_made(st, ms[i], b.links[i]));
                match (ms[i].target, list[i].target) {
                    (RawTargetView::Hard(there), TargetView::Hard(x)) => {
                        assert(stands_whole(img, there, f, x)) by {
                            assert forall|k: nat| #[trigger] holds(img, there, f, x, k) by {
                                assert(holds(img, addr, f, id, k + 1));
                                assert(ms[i].name == list[i].name);
                            }
                        }
                        if depth > 0 {
                            lemma_alike(img, f, st, root, there, x, (depth - 1) as nat);
                        }
                    },
                    _ => {},
                }
            }
        },
        (RawKindView::Dataset(x), KindView::Dataset(d)) => {
            if d.layout is Virtual {
                let (a, i) = o.mappings->0;
                assert(st.pending.contains((st.memo[addr], a, i)));
            }
        },
        _ => {},
    }
}

/// A file that was written is parsed as it was: from the root group on, along whatever
/// links, each object is there with its name, its attributes, its comment, its time and
/// what it holds.
pub proof fn law_file_round_trip(f: FileView, out: Seq<u8>, depth: nat)
    requires
        file_writes(f, Seq::empty(), Ok(out)),
        file_told(f),
        block_told(f),
        out.len() < u64::MAX,
    ensures
        file_parsed(out) matches Ok((g, pending)) && g.userblock == f.userblock && g.userblock_data
            == fitted(f.userblock_data, f.userblock as nat) && alike(
            out,
            f,
            f.root,
            g,
            pending,
            g.root,
            depth,
        ),
{
    law_file_stands(f, out);
    let sb = superblock_of(out)->Ok_0;
    let img = whole_image(f, out);
    let st = opened(out, sb.base);
    let none = Set::<u64>::empty();
    assert(assembled(img, st, none));
    lemma_added(img, f, st, sb.root, f.root, out.len(), none);
    let (next, root) = object_added(img, st, sb.root, out.len());
    lemma_alike(img, f, next, root, sb.root, f.root, depth);
}

} // verus!
