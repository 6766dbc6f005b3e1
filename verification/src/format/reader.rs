//! Reading of a file image into the model of a file.

use std::collections::HashMap;

use vstd::prelude::*;

use crate::error::Error;
use crate::format::dataset::{dataset_read, read_dataset};
use crate::format::fheap::{float_as, given_views, HeapFloat, HeapFloatView};
use crate::format::gheap::GlobalHeap;
use crate::format::group::{
    dense_attrs, dense_float, dense_links, find_dense_float, link_member, link_members,
    load_dense_attrs, load_dense_links, member_links, parse_symbol_table, table_symbols, Member,
    MemberLink,
};
use crate::format::messages::{LayoutView, RawLayout};
use crate::format::object::{
    find_header_float, header_float, header_parsed, parse_object_header, raw_link_views, HeaderView,
    Image, ImageView, RawLink, RawTarget, RawTargetView,
};
use crate::format::superblock::{
    find_superblock, indexes_of, load_sohm_table, superblock_of, Superblock,
};
use crate::format::UNDEF;
use crate::model::{
    attr_views, bare_node, empty_group, link_views, new_file, recounted, text_view, AttrData,
    AttrView, DatasetData, DatasetView, FileState, FileView, GroupData, GroupView, KindView, Link,
    LinkTarget, LinkView, NodeView, ObjectKind, ObjectNode, TargetView,
};
use crate::types::{TypeDescriptor, TypeView};

verus! {

broadcast use vstd::std_specs::hash::group_hash_axioms;

// Single objects.

/// What an object is, with its members still to be read.
pub enum RawKind {
    Group(Vec<Member>),
    Dataset(DatasetData),
    NamedType(TypeDescriptor),
}

/// The view of a [`RawKind`].
pub enum RawKindView {
    Group(Seq<MemberLink>),
    Dataset(DatasetView),
    NamedType(TypeView),
}

impl View for RawKind {
    type V = RawKindView;

    open spec fn view(&self) -> RawKindView {
        match *self {
            RawKind::Group(m) => RawKindView::Group(member_links(m@)),
            RawKind::Dataset(d) => RawKindView::Dataset(d@),
            RawKind::NamedType(t) => RawKindView::NamedType(t@),
        }
    }
}

/// An object as its header describes it.
pub struct RawObject {
    pub kind: RawKind,
    pub attrs: Vec<AttrData>,
    pub comment: Option<String>,
    pub mtime: u32,
    /// The heap object that describes a virtual dataset.
    pub mappings: Option<(u64, u32)>,
}

/// The view of a [`RawObject`].
pub struct RawObjectView {
    pub kind: RawKindView,
    pub attrs: Seq<AttrView>,
    pub comment: Option<Seq<char>>,
    pub mtime: u32,
    pub mappings: Option<(u64, u32)>,
}

impl View for RawObject {
    type V = RawObjectView;

    open spec fn view(&self) -> RawObjectView {
        RawObjectView {
            kind: self.kind@,
            attrs: attr_views(self.attrs@),
            comment: text_view(self.comment),
            mtime: self.mtime,
            mappings: self.mappings,
        }
    }
}

/// The heap object that describes a virtual dataset.
pub open spec fn mappings_of(layout: Option<LayoutView>) -> Option<(u64, u32)> {
    match layout {
        Some(LayoutView::Virtual { gh_addr, gh_idx }) => Some((gh_addr, gh_idx)),
        _ => None,
    }
}

/// The attributes of an object, those in dense storage among them.
pub open spec fn all_attrs(img: ImageView, h: HeaderView) -> Result<Seq<AttrView>, Seq<char>> {
    match h.dense_attrs {
        None => Ok(h.attrs),
        Some((heap, index)) => dense_attrs(
            img.data,
            img.base,
            img.given,
            heap,
            index,
            h.attrs,
        ),
    }
}

/// Whether a header is that of a group.
pub open spec fn is_group(h: HeaderView) -> bool {
    h.symbol_table is Some || h.group_like || h.links.len() > 0 || h.dense_links is Some
}

/// The members of a group: those of its symbol table, of its link messages and of its
/// dense storage.
pub open spec fn group_members(img: ImageView, h: HeaderView) -> Result<
    Seq<MemberLink>,
    Seq<char>,
> {
    match (match h.symbol_table {
        None => Ok(Seq::empty()),
        Some((btree, heap)) => table_symbols(img.data, img.base, btree, heap),
    }) {
        Err(e) => Err(e),
        Ok(symbols) => match h.dense_links {
            None => Ok(symbols + link_members(h.links)),
            Some((heap, index)) => match dense_links(
                img.data,
                img.base,
                img.given,
                heap,
                index,
            ) {
                Err(e) => Err(e),
                Ok(dense) => Ok(symbols + link_members(h.links) + link_members(dense)),
            },
        },
    }
}

/// What an object is.
pub open spec fn object_kind(img: ImageView, h: HeaderView) -> Result<RawKindView, Seq<char>> {
    if is_group(h) {
        match group_members(img, h) {
            Err(e) => Err(e),
            Ok(m) => Ok(RawKindView::Group(m)),
        }
    } else {
        match h.dtype {
            None => Ok(RawKindView::Group(Seq::empty())),
            Some((ty, order)) => match (h.space, h.layout) {
                (Some(space), Some(layout)) => match dataset_read(
                    img.data,
                    img.base,
                    layout,
                    ty,
                    order,
                    space,
                    h.fill,
                    h.filters,
                ) {
                    Err(e) => Err(e),
                    Ok(d) => Ok(RawKindView::Dataset(d)),
                },
                _ => Ok(RawKindView::NamedType(ty)),
            },
        }
    }
}

/// The object with its header at an address.
pub open spec fn object_read(img: ImageView, addr: u64) -> Result<RawObjectView, Seq<char>> {
    match header_parsed(img, addr, img.data.len()) {
        Err(e) => Err(e),
        Ok(h) => match all_attrs(img, h) {
            Err(e) => Err(e),
            Ok(attrs) => match object_kind(img, h) {
                Err(e) => Err(e),
                Ok(kind) => Ok(
                    RawObjectView {
                        kind,
                        attrs,
                        comment: h.comment,
                        mtime: h.mtime,
                        mappings: mappings_of(h.layout),
                    },
                ),
            },
        },
    }
}

fn push_links(out: &mut Vec<Member>, links: Vec<RawLink>)
    ensures
        member_links(final(out)@) == member_links(old(out)@) + link_members(
            raw_link_views(links@),
        ),
{
    let ghost views = raw_link_views(links@);
    let ghost start = member_links(out@);
    let mut i: usize = 0;
    let n: usize = links.len();
    assert(link_members(views.take(0)) =~= Seq::empty());
    assert(start + link_members(views.take(0)) =~= start);
    while i < n
        invariant
            i <= n == links@.len(),
            views == raw_link_views(links@),
            member_links(out@) == start + link_members(views.take(i as int)),
        decreases n - i,
    {
        let l = &links[i];
        let target = match &l.target {
            RawTarget::Hard(a) => RawTarget::Hard(*a),
            RawTarget::Soft(p) => RawTarget::Soft(p.clone()),
            RawTarget::External { file, path } => RawTarget::External {
                file: file.clone(),
                path: path.clone(),
            },
        };
        let m = Member {
            name: l.name.clone(),
            target,
            creation_order: Some(l.creation_order),
            utf8: l.utf8,
        };
        let ghost before = out@;
        out.push(m);
        proof {
            assert(views[i as int] == links@[i as int]@);
            assert(m@ == link_member(views[i as int]));
            assert(member_links(out@) =~= member_links(before).push(m@));
            assert(link_members(views.take(i + 1)) =~= link_members(views.take(i as int)).push(
                link_member(views[i as int]),
            ));
            assert(start + link_members(views.take(i + 1)) =~= (start + link_members(
                views.take(i as int),
            )).push(m@));
        }
        i += 1;
    }
    assert(views.take(n as int) =~= views);
}

fn read_members(
    img: &Image,
    symbol_table: Option<(u64, u64)>,
    links: Vec<RawLink>,
    dense: Option<(u64, u64)>,
    Ghost(h): Ghost<HeaderView>,
) -> (r: Result<Vec<Member>, Error>)
    requires
        h.symbol_table == symbol_table,
        h.links == raw_link_views(links@),
        h.dense_links == dense,
    ensures
        crate::format::group::members_as(r, group_members(img@, h)),
{
    let mut out: Vec<Member> = match symbol_table {
        None => {
            let none: Vec<Member> = Vec::new();
            assert(member_links(none@) =~= Seq::<MemberLink>::empty());
            none
        },
        Some((btree, heap)) => parse_symbol_table(img.heap.data, img.heap.base, btree, heap)?,
    };
    push_links(&mut out, links);
    if let Some((heap, index)) = dense {
        let more = load_dense_links(
            img.heap.data,
            img.heap.base,
            img.given,
            heap,
            index,
        )?;
        push_links(&mut out, more);
    }
    Ok(out)
}

/// Reads the object with its header at an address.
#[verifier::rlimit(40)]
pub fn read_object(img: &mut Image, addr: u64) -> (r: Result<RawObject, Error>)
    requires
        old(img).wf(),
    ensures
        final(img).wf(),
        final(img)@ == old(img)@,
        match (r, object_read(old(img)@, addr)) {
            (Ok(a), Ok(b)) => a@ == b,
            (Err(e), Err(m)) => e@ == m,
            _ => false,
        },
{
    let depth: usize = img.heap.data.len();
    let h = parse_object_header(img, addr, depth)?;
    let ghost hv = h@;
    let mappings: Option<(u64, u32)> = match &h.layout {
        Some(RawLayout::Virtual { gh_addr, gh_idx }) => Some((*gh_addr, *gh_idx)),
        _ => None,
    };
    assert(mappings == mappings_of(hv.layout));
    let attrs = match h.dense_attrs {
        None => h.attrs,
        Some((heap, index)) => load_dense_attrs(
            &mut img.heap,
            img.given,
            heap,
            index,
            h.attrs,
        )?,
    };
    assert(Ok::<Seq<AttrView>, Seq<char>>(attr_views(attrs@)) == all_attrs(old(img)@, hv));
    let grouped: bool = h.symbol_table.is_some() || h.is_group_like || h.links.len() > 0
        || h.dense_links.is_some();
    assert(grouped == is_group(hv));
    let kind = if grouped {
        RawKind::Group(read_members(img, h.symbol_table, h.links, h.dense_links, Ghost(hv))?)
    } else {
        match h.dtype {
            None => {
                let none: Vec<Member> = Vec::new();
                assert(member_links(none@) =~= Seq::<MemberLink>::empty());
                RawKind::Group(none)
            },
            Some((ty, order)) => match h.layout {
                None => RawKind::NamedType(ty),
                Some(layout) => match h.dataspace {
                    None => RawKind::NamedType(ty),
                    Some(space) => RawKind::Dataset(
                        read_dataset(
                            &mut img.heap,
                            &layout,
                            ty,
                            order,
                            space,
                            h.fill,
                            &h.filters,
                        )?,
                    ),
                },
            },
        }
    };
    Ok(RawObject { kind, attrs, comment: h.comment, mtime: h.mtime, mappings })
}

// The whole file.

/// A file that is being read: the objects so far, where each header address went, the
/// virtual datasets whose mappings have still to be read, and the heap blocks that have
/// to be scaled back for objects that could not be read.
#[verifier::ext_equal]
pub struct AssemblyView {
    pub file: FileView,
    pub memo: Map<u64, nat>,
    pub pending: Seq<(nat, u64, u32)>,
    pub floats: Seq<HeapFloatView>,
}

/// The heap block that has to be scaled back before the object at an address can be read:
/// one of a shared message of its header, of its dense attributes or of its dense links.
pub open spec fn object_float(img: ImageView, addr: u64) -> Option<HeapFloatView> {
    match header_parsed(img, addr, img.data.len()) {
        Err(e) => header_float(img, addr, img.data.len()),
        Ok(h) => {
            let first = match h.dense_attrs {
                None => None,
                Some((heap, index)) => dense_float(
                    img.data,
                    img.base,
                    img.given,
                    heap,
                    index,
                    false,
                ),
            };
            match (first, h.dense_links) {
                (Some(w), _) => Some(w),
                (None, None) => None,
                (None, Some((heap, index))) => dense_float(
                    img.data,
                    img.base,
                    img.given,
                    heap,
                    index,
                    true,
                ),
            }
        },
    }
}

/// An assembly with another block that has to be scaled back.
pub open spec fn noted(st: AssemblyView, float: Option<HeapFloatView>) -> AssemblyView {
    match float {
        None => st,
        Some(w) => AssemblyView { floats: st.floats.push(w), ..st },
    }
}

fn find_object_float(img: &mut Image, addr: u64) -> (r: Option<HeapFloat>)
    requires
        old(img).wf(),
    ensures
        final(img).wf(),
        final(img)@ == old(img)@,
        float_as(r, object_float(old(img)@, addr)),
{
    let depth: usize = img.heap.data.len();
    let h = match parse_object_header(img, addr, depth) {
        Ok(h) => h,
        Err(_) => {
            return find_header_float(img, addr, depth);
        },
    };
    let first = match h.dense_attrs {
        None => None,
        Some((heap, index)) => find_dense_float(
            img.heap.data,
            img.heap.base,
            img.given,
            heap,
            index,
            false,
        ),
    };
    if first.is_some() {
        return first;
    }
    match h.dense_links {
        None => None,
        Some((heap, index)) => find_dense_float(
            img.heap.data,
            img.heap.base,
            img.given,
            heap,
            index,
            true,
        ),
    }
}

/// The next number of the creation order.
pub open spec fn bumped(order: i64) -> i64 {
    if order < i64::MAX {
        (order + 1) as i64
    } else {
        order
    }
}

/// An assembly with another object in a place.
pub open spec fn replaced(st: AssemblyView, id: nat, node: NodeView) -> AssemblyView {
    AssemblyView {
        file: FileView { objects: st.file.objects.update(id as int, Some(node)), ..st.file },
        ..st
    }
}

/// An assembly with a place for the object at an address.
pub open spec fn reserved(st: AssemblyView, addr: u64) -> AssemblyView {
    AssemblyView {
        file: FileView {
            objects: st.file.objects.push(Some(bare_node(KindView::Group(empty_group())))),
            ..st.file
        },
        memo: st.memo.insert(addr, st.file.objects.len()),
        ..st
    }
}

/// An object that could not be read.
pub open spec fn unreadable(reason: Seq<char>) -> NodeView {
    bare_node(KindView::Unsupported(reason))
}

/// The assembly with the object at an address, and its number. An object that was met
/// before keeps its number. At most `depth` objects contain each other.
pub open spec fn object_added(img: ImageView, st: AssemblyView, addr: u64, depth: nat) -> (
    AssemblyView,
    nat,
)
    decreases depth, 0nat,
{
    let id = st.file.objects.len();
    let st1 = reserved(st, addr);
    if st.memo.contains_key(addr) {
        (st, st.memo[addr])
    } else if depth == 0 {
        (replaced(st1, id, unreadable("objects nested too deeply"@)), id)
    } else {
        match object_read(img, addr) {
            Err(e) => (
                noted(replaced(st1, id, unreadable(e)), object_float(img, addr)),
                id,
            ),
            Ok(o) => match o.kind {
                RawKindView::Group(members) => {
                    let (st2, links) = members_added(
                        img,
                        st1,
                        members,
                        0,
                        Seq::empty(),
                        (depth - 1) as nat,
                    );
                    (
                        replaced(
                            st2,
                            id,
                            finished_node(
                                o,
                                KindView::Group(GroupView { links, track_order: false }),
                            ),
                        ),
                        id,
                    )
                },
                RawKindView::Dataset(d) => {
                    let st2 = replaced(st1, id, finished_node(o, KindView::Dataset(d)));
                    (
                        match o.mappings {
                            None => st2,
                            Some((addr, idx)) => AssemblyView {
                                pending: st2.pending.push((id, addr, idx)),
                                ..st2
                            },
                        },
                        id,
                    )
                },
                RawKindView::NamedType(t) => (
                    replaced(st1, id, finished_node(o, KindView::NamedType(t))),
                    id,
                ),
            },
        }
    }
}

/// The node of an object.
pub open spec fn finished_node(o: RawObjectView, kind: KindView) -> NodeView {
    NodeView { kind, attrs: o.attrs, comment: o.comment, refcount: 0, mtime: o.mtime }
}

/// The assembly with the members from the number `i` on, and the links to them behind
/// `acc`.
pub open spec fn members_added(
    img: ImageView,
    st: AssemblyView,
    members: Seq<MemberLink>,
    i: int,
    acc: Seq<LinkView>,
    depth: nat,
) -> (AssemblyView, Seq<LinkView>)
    decreases depth, (members.len() - i + 1) as nat,
{
    if i < 0 || i >= members.len() {
        (st, acc)
    } else {
        let m = members[i];
        let (st2, target) = match m.target {
            RawTargetView::Hard(addr) => {
                let (s, id) = object_added(img, st, addr, depth);
                (s, TargetView::Hard(id))
            },
            RawTargetView::Soft(path) => (st, TargetView::Soft(path)),
            RawTargetView::External { file, path } => (st, TargetView::External { file, path }),
        };
        let (st3, order) = numbered(st2, m.creation_order);
        members_added(
            img,
            st3,
            members,
            i + 1,
            acc.push(LinkView { name: m.name, target, creation_order: order, utf8: m.utf8 }),
            depth,
        )
    }
}

/// The creation order of a member: its own, or the next number of the file.
pub open spec fn numbered(st: AssemblyView, order: Option<i64>) -> (AssemblyView, i64) {
    match order {
        Some(o) => (st, o),
        None => (
            AssemblyView {
                file: FileView {
                    next_creation_order: bumped(st.file.next_creation_order),
                    ..st.file
                },
                ..st
            },
            st.file.next_creation_order,
        ),
    }
}

/// A file that is being read.
pub struct Assembly {
    pub state: FileState,
    pub memo: HashMap<u64, usize>,
    pub pending: Vec<(usize, u64, u32)>,
    pub floats: Vec<HeapFloat>,
}

/// The views of pending datasets.
pub open spec fn pending_views(v: Seq<(usize, u64, u32)>) -> Seq<(nat, u64, u32)> {
    v.map_values(|p: (usize, u64, u32)| (p.0 as nat, p.1, p.2))
}

/// The views of heap blocks.
pub open spec fn float_views(v: Seq<HeapFloat>) -> Seq<HeapFloatView> {
    v.map_values(|w: HeapFloat| w@)
}

impl View for Assembly {
    type V = AssemblyView;

    open spec fn view(&self) -> AssemblyView {
        AssemblyView {
            file: self.state@,
            memo: self.memo@.map_values(|v: usize| v as nat),
            pending: pending_views(self.pending@),
            floats: float_views(self.floats@),
        }
    }
}

impl Assembly {
    fn set(&mut self, id: usize, node: ObjectNode)
        requires
            id < old(self).state.objects@.len(),
        ensures
            final(self)@ == replaced(old(self)@, id as nat, node@),
            final(self).state.objects@.len() == old(self).state.objects@.len(),
    {
        self.state.objects.set(id, Some(node));
        assert(self@.file.objects =~= old(self)@.file.objects.update(id as int, Some(node@)));
        assert(self@ =~= replaced(old(self)@, id as nat, node@));
    }

    fn set_unreadable(&mut self, id: usize, reason: String)
        requires
            id < old(self).state.objects@.len(),
        ensures
            final(self)@ == replaced(old(self)@, id as nat, unreadable(reason@)),
            final(self).state.objects@.len() == old(self).state.objects@.len(),
    {
        let node = ObjectNode::new(ObjectKind::Unsupported(reason));
        self.set(id, node);
    }

    fn reserve(&mut self, addr: u64) -> (id: usize)
        ensures
            id == old(self).state.objects@.len(),
            final(self)@ == reserved(old(self)@, addr),
            final(self).state.objects@.len() == old(self).state.objects@.len() + 1,
    {
        let id: usize = self.state.allocate(ObjectKind::Group(GroupData::default()));
        self.memo.insert(addr, id);
        assert(self@.memo =~= old(self)@.memo.insert(addr, id as nat));
        assert(self@.file.objects.len() == self.state.objects@.len());
        assert(old(self)@.file.objects.len() == old(self).state.objects@.len());
        assert(self@ =~= reserved(old(self)@, addr));
        id
    }

    /// The creation order of a member.
    fn number(&mut self, order: Option<i64>) -> (r: i64)
        ensures
            (final(self)@, r) == numbered(old(self)@, order),
            final(self).state.objects@ == old(self).state.objects@,
    {
        match order {
            Some(o) => o,
            None => {
                let n: i64 = self.state.next_creation_order;
                if n < i64::MAX {
                    self.state.next_creation_order = n + 1;
                }
                n
            },
        }
    }

    /// Reads the object with its header at an address, and what it contains.
    pub fn parse_object(&mut self, img: &mut Image, addr: u64, depth: usize) -> (r: usize)
        requires
            old(img).wf(),
        ensures
            final(img).wf(),
            final(img)@ == old(img)@,
            (final(self)@, r as nat) == object_added(
                old(img)@,
                old(self)@,
                addr,
                depth as nat,
            ),
            final(self).state.objects@.len() >= old(self).state.objects@.len(),
        decreases depth, 0nat,
    {
        if let Some(id) = self.memo.get(&addr) {
            return *id;
        }
        let id: usize = self.reserve(addr);
        if depth == 0 {
            self.set_unreadable(id, String::from_str("objects nested too deeply"));
            return id;
        }
        match read_object(img, addr) {
            Err(e) => {
                self.set_unreadable(id, String::from_str(e.description()));
                if let Some(w) = find_object_float(img, addr) {
                    let ghost before = self@;
                    self.floats.push(w);
                    assert(self@.floats =~= before.floats.push(w@));
                }
            },
            Ok(o) => {
                let ghost ov = o@;
                match o.kind {
                    RawKind::Group(members) => {
                        let links = self.parse_members(img, &members, depth - 1);
                        let node = ObjectNode {
                            kind: ObjectKind::Group(GroupData { links, track_order: false }),
                            attrs: o.attrs,
                            comment: o.comment,
                            refcount: 0,
                            mtime: o.mtime,
                        };
                        self.set(id, node);
                    },
                    RawKind::Dataset(d) => {
                        let node = ObjectNode {
                            kind: ObjectKind::Dataset(d),
                            attrs: o.attrs,
                            comment: o.comment,
                            refcount: 0,
                            mtime: o.mtime,
                        };
                        self.set(id, node);
                        if let Some((a, i)) = o.mappings {
                            let ghost before = self@;
                            self.pending.push((id, a, i));
                            assert(self@.pending =~= before.pending.push((id as nat, a, i)));
                        }
                    },
                    RawKind::NamedType(t) => {
                        let node = ObjectNode {
                            kind: ObjectKind::NamedType(t),
                            attrs: o.attrs,
                            comment: o.comment,
                            refcount: 0,
                            mtime: o.mtime,
                        };
                        self.set(id, node);
                    },
                }
            },
        }
        id
    }

    fn parse_members(&mut self, img: &mut Image, members: &Vec<Member>, depth: usize) -> (r: Vec<
        Link,
    >)
        requires
            old(img).wf(),
        ensures
            final(img).wf(),
            final(img)@ == old(img)@,
            (final(self)@, link_views(r@)) == members_added(
                old(img)@,
                old(self)@,
                member_links(members@),
                0,
                Seq::empty(),
                depth as nat,
            ),
            final(self).state.objects@.len() >= old(self).state.objects@.len(),
        decreases depth, 1nat,
    {
        let ghost views = member_links(members@);
        let ghost whole = members_added(
            img@,
            self@,
            views,
            0,
            Seq::empty(),
            depth as nat,
        );
        let n: usize = members.len();
        let mut out: Vec<Link> = Vec::new();
        let mut i: usize = 0;
        assert(link_views(out@) =~= Seq::<LinkView>::empty());
        while i < n
            invariant
                i <= n == members@.len(),
                views == member_links(members@),
                img.wf(),
                img@ == old(img)@,
                self.state.objects@.len() >= old(self).state.objects@.len(),
                whole == members_added(
                    old(img)@,
                    old(self)@,
                    views,
                    0,
                    Seq::empty(),
                    depth as nat,
                ),
                whole == members_added(
                    old(img)@,
                    self@,
                    views,
                    i as int,
                    link_views(out@),
                    depth as nat,
                ),
            decreases n - i,
        {
            let m = &members[i];
            assert(views[i as int] == m@);
            let target = match &m.target {
                RawTarget::Hard(addr) => LinkTarget::Hard(self.parse_object(img, *addr, depth)),
                RawTarget::Soft(path) => LinkTarget::Soft(path.clone()),
                RawTarget::External { file, path } => LinkTarget::External {
                    file: file.clone(),
                    path: path.clone(),
                },
            };
            let creation_order: i64 = self.number(m.creation_order);
            let link = Link { name: m.name.clone(), target, creation_order, utf8: m.utf8 };
            let ghost before = out@;
            out.push(link);
            assert(link_views(out@) =~= link_views(before).push(link@));
            i += 1;
        }
        out
    }
}

/// A file before its objects are read: its user block is kept.
pub open spec fn opened(data: Seq<u8>, base: u64) -> AssemblyView {
    AssemblyView {
        file: FileView {
            userblock: base,
            userblock_data: data.take(
                if base < data.len() {
                    base as int
                } else {
                    data.len() as int
                },
            ),
            ..new_file()
        },
        memo: Map::empty(),
        pending: Seq::empty(),
        floats: Seq::empty(),
    }
}

/// The shared-message indexes of a file.
pub open spec fn file_indexes(data: Seq<u8>, sb: Superblock) -> Result<Seq<(u16, u64)>, Seq<char>> {
    if sb.extension == UNDEF {
        Ok(Seq::empty())
    } else {
        indexes_of(data, sb.base, sb.extension)
    }
}

/// The file in an image with heap blocks that are given, its virtual datasets whose
/// mappings have still to be read, and the heap blocks that have to be scaled back.
pub open spec fn file_read(data: Seq<u8>, given: Seq<(u64, Seq<u8>)>) -> Result<
    (FileView, Seq<(nat, u64, u32)>, Seq<HeapFloatView>),
    Seq<char>,
> {
    match superblock_of(data) {
        Err(e) => Err(e),
        Ok(sb) => match file_indexes(data, sb) {
            Err(e) => Err(e),
            Ok(sohm) => {
                let img = ImageView { data, base: sb.base, sohm, given };
                let (st, root) = object_added(
                    img,
                    opened(data, sb.base),
                    sb.root,
                    data.len(),
                );
                Ok((recounted(FileView { root, ..st.file }), st.pending, st.floats))
            },
        },
    }
}

/// The file in an image, and its virtual datasets whose mappings have still to be
/// read.
pub open spec fn file_parsed(data: Seq<u8>) -> Result<
    (FileView, Seq<(nat, u64, u32)>),
    Seq<char>,
> {
    match file_read(data, Seq::empty()) {
        Err(e) => Err(e),
        Ok((f, pending, floats)) => Ok((f, pending)),
    }
}

/// A file that was read.
pub struct Parsed {
    pub state: FileState,
    /// The address that all others are relative to.
    pub base: u64,
    /// Virtual datasets: the object, and the heap object with its mappings.
    pub pending: Vec<(usize, u64, u32)>,
    /// Heap blocks whose floating-point elements have to be scaled back for objects that
    /// could not be read.
    pub floats: Vec<HeapFloat>,
}

/// Whether a file was read as `s` says.
pub open spec fn read_as(
    r: Result<Parsed, Error>,
    data: Seq<u8>,
    s: Result<(FileView, Seq<(nat, u64, u32)>, Seq<HeapFloatView>), Seq<char>>,
) -> bool {
    match (r, s) {
        (Ok(p), Ok((f, pending, floats))) => {
            &&& p.state@ == f
            &&& pending_views(p.pending@) == pending
            &&& float_views(p.floats@) == floats
            &&& superblock_of(data)->Ok_0.base == p.base
        },
        (Err(e), Err(m)) => e@ == m,
        _ => false,
    }
}

/// Reads a file image.
pub fn parse(data: &[u8]) -> (r: Result<Parsed, Error>)
    ensures
        read_as(r, data@, file_read(data@, Seq::empty())),
{
    parse_image(data, None)
}

/// Reads a file image again, with the heap blocks that were scaled back since.
pub fn parse_given(data: &[u8], given: &Vec<(u64, Vec<u8>)>) -> (r: Result<Parsed, Error>)
    ensures
        read_as(r, data@, file_read(data@, given_views(Some(given)))),
{
    parse_image(data, Some(given))
}

fn parse_image(data: &[u8], given: Option<&Vec<(u64, Vec<u8>)>>) -> (r: Result<Parsed, Error>)
    ensures
        read_as(r, data@, file_read(data@, given_views(given))),
{
    let sb = find_superblock(data)?;
    let mut img = Image { heap: GlobalHeap::new(data, sb.base), sohm: Vec::new(), given: None };
    if sb.extension != UNDEF {
        let table = load_sohm_table(&mut img, sb.extension)?;
        img.sohm = table;
    } else {
        assert(img.sohm@ =~= Seq::<(u16, u64)>::empty());
    }
    img.given = given;
    let n: usize = data.len();
    let keep: usize = if sb.base < n as u64 {
        sb.base as usize
    } else {
        n
    };
    let mut state = FileState::new_empty();
    state.userblock = sb.base;
    state.userblock_data =
    vstd::slice::slice_to_vec(vstd::slice::slice_subrange(data, 0, keep));
    assert(state.userblock_data@ =~= data@.take(keep as int));
    let mut all = Assembly {
        state,
        memo: HashMap::new(),
        pending: Vec::new(),
        floats: Vec::new(),
    };
    proof {
        assert(all@.memo =~= Map::<u64, nat>::empty());
        assert(all@.pending =~= Seq::<(nat, u64, u32)>::empty());
        assert(all@.floats =~= Seq::<HeapFloatView>::empty());
        assert(all@ =~= opened(data@, sb.base));
    }
    let root: usize = all.parse_object(&mut img, sb.root, n);
    let mut state = all.state;
    state.root = root;
    state.recount();
    Ok(Parsed { state, base: sb.base, pending: all.pending, floats: all.floats })
}

// Links lead to objects.

/// Whether the hard links of an object lead to places before `n`.
pub open spec fn links_within(links: Seq<LinkView>, n: nat) -> bool {
    forall|i: int|
        0 <= i < links.len() ==> ((#[trigger] links[i]).target matches TargetView::Hard(id)
            ==> id < n)
}

/// Whether an object is there and its hard links lead to places before `n`.
pub open spec fn node_within(node: Option<NodeView>, n: nat) -> bool {
    node matches Some(x) && (x.kind matches KindView::Group(g) ==> links_within(g.links, n))
}

/// Whether every place of an arena holds an object whose hard links lead to objects.
pub open spec fn connected(objects: Seq<Option<NodeView>>) -> bool {
    forall|i: int|
        0 <= i < objects.len() ==> node_within(#[trigger] objects[i], objects.len())
}

spec fn sound(st: AssemblyView) -> bool {
    &&& connected(st.file.objects)
    &&& forall|a: u64| st.memo.contains_key(a) ==> #[trigger] st.memo[a] < st.file.objects.len()
}

proof fn lemma_replaced(st: AssemblyView, id: nat, node: NodeView)
    requires
        sound(st),
        id < st.file.objects.len(),
        node_within(Some(node), st.file.objects.len()),
    ensures
        sound(replaced(st, id, node)),
        replaced(st, id, node).file.objects.len() == st.file.objects.len(),
{
    let after = replaced(st, id, node);
    assert forall|i: int| 0 <= i < after.file.objects.len() implies node_within(
        #[trigger] after.file.objects[i],
        after.file.objects.len(),
    ) by {
        if i != id {
            assert(after.file.objects[i] == st.file.objects[i]);
        }
    }
}

proof fn lemma_reserved(st: AssemblyView, addr: u64)
    requires
        sound(st),
    ensures
        sound(reserved(st, addr)),
{
    let after = reserved(st, addr);
    let n = st.file.objects.len();
    assert forall|i: int| 0 <= i < after.file.objects.len() implies node_within(
        #[trigger] after.file.objects[i],
        after.file.objects.len(),
    ) by {
        if i < n {
            assert(after.file.objects[i] == st.file.objects[i]);
            assert(node_within(st.file.objects[i], n));
        }
    }
}

proof fn lemma_object_added(img: ImageView, st: AssemblyView, addr: u64, depth: nat)
    requires
        sound(st),
    ensures
        sound(object_added(img, st, addr, depth).0),
        object_added(img, st, addr, depth).0.file.objects.len() >= st.file.objects.len(),
        object_added(img, st, addr, depth).1 < object_added(
            img,
            st,
            addr,
            depth,
        ).0.file.objects.len(),
    decreases depth, 0nat,
{
    let id = st.file.objects.len();
    let st1 = reserved(st, addr);
    lemma_reserved(st, addr);
    if st.memo.contains_key(addr) {
    } else if depth == 0 {
        lemma_replaced(st1, id, unreadable("objects nested too deeply"@));
    } else {
        match object_read(img, addr) {
            Err(e) => {
                lemma_replaced(st1, id, unreadable(e));
            },
            Ok(o) => match o.kind {
                RawKindView::Group(members) => {
                    lemma_members_added(
                        img,
                        st1,
                        members,
                        0,
                        Seq::empty(),
                        (depth - 1) as nat,
                    );
                    let (st2, links) = members_added(
                        img,
                        st1,
                        members,
                        0,
                        Seq::empty(),
                        (depth - 1) as nat,
                    );
                    lemma_replaced(
                        st2,
                        id,
                        finished_node(
                            o,
                            KindView::Group(GroupView { links, track_order: false }),
                        ),
                    );
                },
                RawKindView::Dataset(d) => {
                    lemma_replaced(st1, id, finished_node(o, KindView::Dataset(d)));
                },
                RawKindView::NamedType(t) => {
                    lemma_replaced(st1, id, finished_node(o, KindView::NamedType(t)));
                },
            },
        }
    }
}

proof fn lemma_members_added(
    img: ImageView,
    st: AssemblyView,
    members: Seq<MemberLink>,
    i: int,
    acc: Seq<LinkView>,
    depth: nat,
)
    requires
        sound(st),
        links_within(acc, st.file.objects.len()),
    ensures
        sound(members_added(img, st, members, i, acc, depth).0),
        members_added(img, st, members, i, acc, depth).0.file.objects.len()
            >= st.file.objects.len(),
        links_within(
            members_added(img, st, members, i, acc, depth).1,
            members_added(img, st, members, i, acc, depth).0.file.objects.len(),
        ),
    decreases depth, (members.len() - i + 1) as nat,
{
    if 0 <= i < members.len() {
        let m = members[i];
        if let RawTargetView::Hard(addr) = m.target {
            lemma_object_added(img, st, addr, depth);
        }
        let (st2, target) = match m.target {
            RawTargetView::Hard(addr) => {
                let (s, id) = object_added(img, st, addr, depth);
                (s, TargetView::Hard(id))
            },
            RawTargetView::Soft(path) => (st, TargetView::Soft(path)),
            RawTargetView::External { file, path } => (st, TargetView::External { file, path }),
        };
        let (st3, order) = numbered(st2, m.creation_order);
        let link = LinkView { name: m.name, target, creation_order: order, utf8: m.utf8 };
        let next = acc.push(link);
        assert(sound(st3));
        assert forall|k: int| 0 <= k < next.len() implies ((
        #[trigger] next[k]).target matches TargetView::Hard(id) ==> id < st3.file.objects.len()) by {
            if k < acc.len() {
                assert(next[k] == acc[k]);
            }
        }
        lemma_members_added(img, st3, members, i + 1, next, depth);
    }
}

/// In a file that was read, the root is an object, and so is every target of a hard
/// link.
pub proof fn law_links_lead_to_objects(data: Seq<u8>)
    ensures
        file_parsed(data) matches Ok((f, pending)) ==> f.rooted() && connected(f.objects),
{
    if let Ok(sb) = superblock_of(data) {
        if let Ok(sohm) = file_indexes(data, sb) {
            let img = ImageView { data, base: sb.base, sohm, given: Seq::empty() };
            let st0 = opened(data, sb.base);
            assert(sound(st0));
            lemma_object_added(img, st0, sb.root, data.len());
            let (st, root) = object_added(img, st0, sb.root, data.len());
            let f = recounted(FileView { root, ..st.file });
            assert forall|i: int| 0 <= i < f.objects.len() implies node_within(
                #[trigger] f.objects[i],
                f.objects.len(),
            ) by {
                assert(node_within(st.file.objects[i], f.objects.len()));
            }
            assert(node_within(f.objects[root as int], f.objects.len()));
        }
    }
}

} // verus!
