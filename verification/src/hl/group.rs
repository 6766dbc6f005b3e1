//! Groups and their links.

use vstd::prelude::*;
use vstd::utf8::is_ascii_chars;

use crate::error::{same_unit, Error};
use crate::format::group_write::{by_name, order_by_name, picked};
use crate::model::{
    bare_node, empty_group, law_link_at, link_at, link_views, names, resolved, slash_at, texts,
    FileState, FileView, GroupData, GroupView, KindView, Link, LinkTarget, LinkView, NodeView,
    ObjId, ObjectKind, TargetView,
};
use crate::text::join;

verus! {

/// What a traversal of a group goes by.
#[derive(Clone, Copy, Debug, PartialEq, Eq, Structural)]
pub enum TraversalOrder {
    Name,
    Creation,
}

/// The direction of an iteration.
#[derive(Clone, Copy, Debug, PartialEq, Eq, Structural)]
pub enum IterationOrder {
    Increasing,
    Decreasing,
    Native,
}

/// The type of a link.
#[derive(Clone, Copy, Debug, PartialEq, Eq, Structural)]
pub enum LinkType {
    Hard,
    Soft,
    External,
}

/// What is known of a link besides its name.
#[derive(Clone, Copy, Debug)]
pub struct LinkInfo {
    pub link_type: LinkType,
    pub creation_order: Option<i64>,
    pub is_utf8: bool,
}

impl Default for TraversalOrder {
    fn default() -> (r: Self)
        ensures
            r == TraversalOrder::Name,
    {
        TraversalOrder::Name
    }
}

impl Default for IterationOrder {
    fn default() -> (r: Self)
        ensures
            r == IterationOrder::Native,
    {
        IterationOrder::Native
    }
}

/// A group of a file, by its number.
#[derive(Clone, Copy, Debug, PartialEq, Eq, Structural)]
pub struct Group {
    pub id: ObjId,
}

/// A text between two others.
pub open spec fn between(a: Seq<char>, name: Seq<char>, b: Seq<char>) -> Seq<char> {
    a + name + b
}

/// An error with a name in its text.
pub(crate) fn named_error(a: &str, name: &str, b: &str) -> (r: Error)
    ensures
        r@ == between(a@, name@, b@),
{
    Error::from_text(join(join(a, name).as_str(), b))
}

/// The parts of a path from `i` on: what stands between slashes and is not empty.
pub open spec fn pieces(s: Seq<char>, i: int) -> Seq<Seq<char>>
    decreases s.len() + 1 - i,
    when 0 <= i
    via pieces_shrink
{
    if i >= s.len() {
        Seq::empty()
    } else {
        let k = slash_at(s, i);
        let head = s.subrange(i, k);
        let rest = pieces(s, k + 1);
        if head.len() > 0 {
            seq![head] + rest
        } else {
            rest
        }
    }
}

proof fn lemma_slash(s: Seq<char>, i: int)
    requires
        0 <= i <= s.len(),
    ensures
        i <= slash_at(s, i) <= s.len(),
    decreases s.len() - i,
{
    if i < s.len() && s[i] != '/' {
        lemma_slash(s, i + 1);
    }
}

#[via_fn]
proof fn pieces_shrink(s: Seq<char>, i: int) {
    if 0 <= i < s.len() {
        lemma_slash(s, i);
    }
}

/// Splits a path at its slashes.
fn split_pieces(path: &str) -> (r: Vec<String>)
    ensures
        texts(r@) == pieces(path@, 0),
{
    let n: usize = path.unicode_len();
    let mut out: Vec<String> = Vec::new();
    let mut i: usize = 0;
    let ghost whole = pieces(path@, 0);
    assert(texts(out@) + whole =~= whole);
    while i < n
        invariant
            n == path@.len(),
            whole == pieces(path@, 0),
            texts(out@) + pieces(path@, i as int) == whole,
            i < n || pieces(path@, i as int) =~= Seq::<Seq<char>>::empty(),
        decreases n - i,
    {
        let mut k: usize = i;
        while k < n && path.get_char(k) != '/'
            invariant
                i <= k <= n == path@.len(),
                slash_at(path@, i as int) == slash_at(path@, k as int),
            decreases n - k,
        {
            k += 1;
        }
        proof {
            lemma_slash(path@, i as int);
        }
        let part = path.substring_char(i, k);
        let ghost before = out@;
        let ghost rest = pieces(path@, k + 1);
        if k > i {
            out.push(String::from_str(part));
            assert(texts(out@) + rest =~= texts(before) + (seq![part@] + rest));
        }
        if k == n {
            assert(rest =~= Seq::<Seq<char>>::empty());
            assert(texts(out@) + rest =~= texts(out@));
            return out;
        }
        i = k + 1;
    }
    assert(texts(out@) + Seq::<Seq<char>>::empty() =~= texts(out@));
    out
}

/// A file with another object at `id`.
pub open spec fn with_object(f: FileView, id: nat, n: NodeView) -> FileView {
    FileView { objects: f.objects.update(id as int, Some(n)), ..f }
}

/// A group with one more link.
pub open spec fn linked(f: FileView, parent: nat, link: LinkView) -> FileView {
    let n = f.object(parent)->0;
    let g = f.group(parent)->0;
    with_object(
        f,
        parent,
        NodeView {
            kind: KindView::Group(GroupView { links: g.links.push(link), ..g }),
            ..n
        },
    )
}

/// A group without its link number `i`.
pub open spec fn unlinked(f: FileView, parent: nat, i: nat) -> FileView {
    let n = f.object(parent)->0;
    let g = f.group(parent)->0;
    with_object(
        f,
        parent,
        NodeView {
            kind: KindView::Group(GroupView { links: g.links.remove(i as int), ..g }),
            ..n
        },
    )
}

/// A file whose creation order has gone on by one.
pub open spec fn ordered(f: FileView) -> FileView {
    FileView { next_creation_order: (f.next_creation_order + 1) as i64, ..f }
}

/// The next link of a file.
pub open spec fn new_link(f: FileView, name: Seq<char>, target: TargetView) -> LinkView {
    LinkView {
        name,
        target,
        creation_order: f.next_creation_order,
        utf8: !is_ascii_chars(name),
    }
}

/// Whether a group has a link with a name.
pub open spec fn has_link(f: FileView, id: nat, name: Seq<char>) -> bool {
    f.group(id) matches Some(g) && link_at(g.links, name) is Some
}

impl FileState {
    /// Adds a link to a group.
    pub(crate) fn push_link(&mut self, parent: ObjId, link: Link)
        requires
            old(self)@.group(parent as nat) is Some,
        ensures
            final(self)@ == linked(old(self)@, parent as nat, link@),
    {
        let ghost before = self@;
        let node = self.get_mut(parent);
        if let ObjectKind::Group(g) = &mut node.kind {
            let ghost links = g.links@;
            g.links.push(link);
            assert(link_views(links.push(link)) =~= link_views(links).push(link@));
        }
        assert(self@ =~= linked(before, parent as nat, link@));
    }

    /// Takes a link out of a group.
    pub(crate) fn take_link(&mut self, parent: ObjId, at: usize) -> (r: Option<Link>)
        requires
            old(self)@.group(parent as nat) matches Some(g) && at < g.links.len(),
        ensures
            r matches Some(l) && l@ == old(self)@.group(parent as nat)->0.links[at as int],
            final(self)@ == unlinked(old(self)@, parent as nat, at as nat),
    {
        let ghost before = self@;
        let node = self.get_mut(parent);
        let mut out: Option<Link> = None;
        if let ObjectKind::Group(g) = &mut node.kind {
            let ghost links = g.links@;
            let l = g.links.remove(at);
            out = Some(l);
            assert(link_views(links.remove(at as int)) =~= link_views(links).remove(at as int));
        }
        assert(self@ =~= unlinked(before, parent as nat, at as nat));
        out
    }

    /// Changes the count of hard links to an object, within its range.
    pub(crate) fn count_link(&mut self, id: ObjId, more: bool)
        ensures
            final(self)@ == recounted_object(old(self)@, id as nat, more),
    {
        let ghost before = self@;
        if self.try_get(id).is_some() {
            let node = self.get_mut(id);
            node.refcount = if more {
                node.refcount.saturating_add(1)
            } else {
                node.refcount.saturating_sub(1)
            };
        }
        assert(self@ =~= recounted_object(before, id as nat, more));
    }
}

/// A count one more or one less, within its range.
pub open spec fn stepped(n: u32, more: bool) -> u32 {
    if more {
        if n == u32::MAX {
            n
        } else {
            (n + 1) as u32
        }
    } else {
        if n == 0 {
            n
        } else {
            (n - 1) as u32
        }
    }
}

/// A file in which one more or one less link counts for an object, if it is there.
pub open spec fn recounted_object(f: FileView, id: nat, more: bool) -> FileView {
    match f.object(id) {
        None => f,
        Some(n) => with_object(f, id, NodeView { refcount: stepped(n.refcount, more), ..n }),
    }
}

/// A new group below another one.
pub open spec fn group_added(f: FileView, parent: nat, name: Seq<char>, time: u32) -> FileView {
    let id = f.objects.len();
    let f1 = FileView {
        objects: f.objects.push(
            Some(
                NodeView { refcount: 1, mtime: time, ..bare_node(KindView::Group(empty_group())) },
            ),
        ),
        ..ordered(f)
    };
    linked(f1, parent, new_link(f, name, TargetView::Hard(id)))
}

/// A file with a new group that no link leads to.
pub open spec fn group_stray(f: FileView) -> FileView {
    FileView {
        objects: f.objects.push(Some(bare_node(KindView::Group(empty_group())))),
        ..ordered(f)
    }
}

/// Makes the groups of a path from part `i` on, from `cur` on, and gives the last one.
/// Groups that are there are gone through.
pub open spec fn groups_made(f: FileView, cur: nat, parts: Seq<Seq<char>>, i: int, time: u32) -> (
    FileView,
    Result<nat, Seq<char>>,
)
    decreases parts.len() - i,
{
    if i < 0 || i >= parts.len() {
        (f, Ok(cur))
    } else {
        match f.group(cur) {
            None => if f.next_creation_order == i64::MAX {
                (f, Err("creation order exhausted"@))
            } else {
                (group_stray(f), Err("parent is not a group"@))
            },
            Some(g) => match link_at(g.links, parts[i]) {
                Some(k) => match g.links[k as int].target {
                    TargetView::Hard(id) => if f.group(id) is Some {
                        groups_made(f, id, parts, i + 1, time)
                    } else {
                        (f, Err(between("unable to create group at '"@, parts[i], "'"@)))
                    },
                    _ => (f, Err(between("unable to create group at '"@, parts[i], "'"@))),
                },
                None => if f.next_creation_order == i64::MAX {
                    (f, Err("creation order exhausted"@))
                } else {
                    groups_made(
                        group_added(f, cur, parts[i], time),
                        f.objects.len(),
                        parts,
                        i + 1,
                        time,
                    )
                },
            },
        }
    }
}

/// Where a path starts.
pub open spec fn start_of(f: FileView, start: nat, path: Seq<char>) -> nat {
    if path.len() > 0 && path[0] == '/' {
        f.root
    } else {
        start
    }
}

/// A file after a group was made in it, and the group.
pub open spec fn group_created(f: FileView, start: nat, name: Seq<char>, time: u32) -> (
    FileView,
    Result<nat, Seq<char>>,
) {
    if f.read_only {
        (f, Err("unable to create group: file is read-only"@))
    } else {
        groups_made(f, start_of(f, start, name), pieces(name, 0), 0, time)
    }
}

/// Whether a group came out as `s` says.
pub open spec fn same_group(r: Result<Group, Error>, s: Result<nat, Seq<char>>) -> bool {
    match (r, s) {
        (Ok(g), Ok(id)) => g.id == id,
        (Err(e), Err(m)) => e@ == m,
        _ => false,
    }
}

/// The place of the last slash before `n`.
pub open spec fn last_slash(s: Seq<char>, n: int) -> Option<nat>
    decreases n,
{
    if n <= 0 {
        None
    } else if s[n - 1] == '/' {
        Some((n - 1) as nat)
    } else {
        last_slash(s, n - 1)
    }
}

/// The directory of a path, and its last part.
pub open spec fn parent_and_leaf(path: Seq<char>) -> (Option<Seq<char>>, Seq<char>) {
    match last_slash(path, path.len() as int) {
        None => (None, path),
        Some(p) => (
            Some(
                if p == 0 {
                    "/"@
                } else {
                    path.take(p as int)
                },
            ),
            path.skip(p as int + 1),
        ),
    }
}

/// The group for a link and the name of the link.
pub open spec fn link_place(f: FileView, start: nat, path: Seq<char>) -> Result<
    (nat, Seq<char>),
    Seq<char>,
> {
    match parent_and_leaf(path) {
        (None, leaf) => Ok((start, leaf)),
        (Some(dir), leaf) => match resolved(f, start, dir) {
            None => Err(between("parent group '"@, dir, "' not found"@)),
            Some(p) => Ok((p, leaf)),
        },
    }
}

/// A file after a link to `target` was added, and whether it was. The creation order
/// goes on even where the parent turns out to be no group.
pub open spec fn link_added(f: FileView, start: nat, path: Seq<char>, target: TargetView) -> (
    FileView,
    Result<(), Seq<char>>,
) {
    if f.read_only {
        (f, Err("unable to modify links: file is read-only"@))
    } else {
        match link_place(f, start, path) {
            Err(e) => (f, Err(e)),
            Ok((parent, leaf)) => if has_link(f, parent, leaf) {
                (f, Err(between("link '"@, leaf, "' already exists"@)))
            } else if f.next_creation_order == i64::MAX {
                (f, Err("creation order exhausted"@))
            } else if f.group(parent) is None {
                (ordered(f), Err("parent is not a group"@))
            } else {
                (linked(ordered(f), parent, new_link(f, leaf, target)), Ok(()))
            },
        }
    }
}

/// A file after a hard link to what `target` leads to was added.
pub open spec fn hard_link_added(f: FileView, start: nat, target: Seq<char>, path: Seq<char>) -> (
    FileView,
    Result<(), Seq<char>>,
) {
    match resolved(f, start, target) {
        None => (f, Err(between("target '"@, target, "' not found"@))),
        Some(id) => {
            let (g, r) = link_added(f, start, path, TargetView::Hard(id));
            match r {
                Err(e) => (g, Err(e)),
                Ok(_) => (recounted_object(g, id, true), Ok(())),
            }
        },
    }
}

/// A file after a link was taken out of a group.
pub open spec fn link_removed(f: FileView, start: nat, name: Seq<char>) -> (
    FileView,
    Result<(), Seq<char>>,
) {
    if f.read_only {
        (f, Err("unable to unlink: file is read-only"@))
    } else if !has_link(f, start, name) {
        (f, Err(between("link '"@, name, "' not found"@)))
    } else {
        let k = link_at(f.group(start)->0.links, name)->0;
        let g = unlinked(f, start, k);
        match f.group(start)->0.links[k as int].target {
            TargetView::Hard(id) => (recounted_object(g, id, false), Ok(())),
            _ => (g, Ok(())),
        }
    }
}

/// A file after a link moved to another path. Where that path leads nowhere the link
/// is gone.
pub open spec fn link_moved(f: FileView, start: nat, name: Seq<char>, path: Seq<char>) -> (
    FileView,
    Result<(), Seq<char>>,
) {
    if f.read_only {
        (f, Err("unable to relink: file is read-only"@))
    } else if !has_link(f, start, name) {
        (f, Err(between("link '"@, name, "' not found"@)))
    } else {
        let k = link_at(f.group(start)->0.links, name)->0;
        let link = f.group(start)->0.links[k as int];
        let g = unlinked(f, start, k);
        match link_place(g, start, path) {
            Err(e) => (g, Err(e)),
            Ok((parent, leaf)) => if g.group(parent) is None {
                (g, Err("target parent is not a group"@))
            } else {
                (linked(g, parent, LinkView { name: leaf, ..link }), Ok(()))
            },
        }
    }
}

/// Splits a path into its directory and its last part.
fn split_last(path: &str) -> (r: (Option<String>, String))
    ensures
        match (r.0, parent_and_leaf(path@).0) {
            (Some(d), Some(e)) => d@ == e,
            (None, None) => true,
            _ => false,
        },
        r.1@ == parent_and_leaf(path@).1,
{
    let n: usize = path.unicode_len();
    let mut i: usize = n;
    while i > 0
        invariant
            i <= n == path@.len(),
            last_slash(path@, n as int) == last_slash(path@, i as int),
        decreases i,
    {
        if path.get_char(i - 1) == '/' {
            let leaf = String::from_str(path.substring_char(i, n));
            assert(leaf@ =~= path@.skip(i as int));
            if i == 1 {
                return (Some(String::from_str("/")), leaf);
            }
            let dir = String::from_str(path.substring_char(0, i - 1));
            assert(dir@ =~= path@.take(i - 1));
            return (Some(dir), leaf);
        }
        i -= 1;
    }
    (None, String::from_str(path))
}

/// Whether the place of a link came out as `s` says.
pub open spec fn same_place(
    r: Result<(ObjId, String), Error>,
    s: Result<(nat, Seq<char>), Seq<char>>,
) -> bool {
    match (r, s) {
        (Ok(v), Ok(w)) => v.0 == w.0 && v.1@ == w.1,
        (Err(e), Err(m)) => e@ == m,
        _ => false,
    }
}

pub(crate) fn find_place(state: &FileState, start: ObjId, path: &str) -> (r: Result<(ObjId, String), Error>)
    ensures
        same_place(r, link_place(state@, start as nat, path@)),
{
    match split_last(path) {
        (None, leaf) => Ok((start, leaf)),
        (Some(dir), leaf) => match state.resolve(start, dir.as_str()) {
            None => Err(named_error("parent group '", dir.as_str(), "' not found")),
            Some(p) => Ok((p, leaf)),
        },
    }
}

/// Whether a group has a link with a name.
pub(crate) fn finds_link(state: &FileState, id: ObjId, name: &str) -> (r: bool)
    ensures
        r == has_link(state@, id as nat, name@),
{
    match state.group_data(id) {
        None => false,
        Some(g) => g.find(name).is_some(),
    }
}

impl Group {
    /// The number of links; none for what is no group.
    pub fn len(&self, state: &FileState) -> (r: u64)
        ensures
            r == match state@.group(self.id as nat) {
                Some(g) => g.links.len(),
                None => 0,
            },
    {
        match state.group_data(self.id) {
            Some(g) => {
                assert(g@.links.len() == g.links@.len());
                g.links.len() as u64
            },
            None => 0,
        }
    }

    pub fn is_empty(&self, state: &FileState) -> (r: bool)
        ensures
            r == match state@.group(self.id as nat) {
                Some(g) => g.links.len() == 0,
                None => true,
            },
    {
        self.len(state) == 0
    }

    /// Makes a group, and those that lead to it.
    pub fn create_group(&self, state: &mut FileState, name: &str, time: u32) -> (r: Result<
        Group,
        Error,
    >)
        ensures
            final(state)@ == group_created(old(state)@, self.id as nat, name@, time).0,
            same_group(r, group_created(old(state)@, self.id as nat, name@, time).1),
    {
        if state.read_only {
            return Err(Error::new("unable to create group: file is read-only"));
        }
        let parts = split_pieces(name);
        let mut cur: ObjId = if name.unicode_len() > 0 && name.get_char(0) == '/' {
            state.root
        } else {
            self.id
        };
        let ghost f = state@;
        let ghost views = texts(parts@);
        let ghost whole = groups_made(
            f,
            start_of(f, self.id as nat, name@),
            views,
            0,
            time,
        );
        let n: usize = parts.len();
        let mut i: usize = 0;
        while i < n
            invariant
                i <= n == parts@.len(),
                views == texts(parts@),
                whole == groups_made(state@, cur as nat, views, i as int, time),
                whole == group_created(old(state)@, self.id as nat, name@, time),
            decreases n - i,
        {
            assert(views[i as int] == parts@[i as int]@);
            let found: Option<LinkTarget> = match state.group_data(cur) {
                None => {
                    if state.next_creation_order == i64::MAX {
                        return Err(Error::new("creation order exhausted"));
                    }
                    let ghost before = state@;
                    state.allocate(ObjectKind::Group(GroupData::default()));
                    state.next_order();
                    assert(state@ =~= group_stray(before));
                    return Err(Error::new("parent is not a group"));
                },
                Some(g) => match g.find(parts[i].as_str()) {
                    None => None,
                    Some(l) => Some(l.target.clone()),
                },
            };
            match found {
                Some(LinkTarget::Hard(id)) => {
                    if !state.is_group(id) {
                        return Err(
                            named_error("unable to create group at '", parts[i].as_str(), "'"),
                        );
                    }
                    cur = id;
                },
                Some(_) => {
                    return Err(
                        named_error("unable to create group at '", parts[i].as_str(), "'"),
                    );
                },
                None => {
                    if state.next_creation_order == i64::MAX {
                        return Err(Error::new("creation order exhausted"));
                    }
                    cur = add_group(state, cur, parts[i].as_str(), time);
                },
            }
            i += 1;
        }
        Ok(Group { id: cur })
    }
}

/// Adds a group below another one.
fn add_group(state: &mut FileState, parent: ObjId, name: &str, time: u32) -> (r: ObjId)
    requires
        old(state)@.group(parent as nat) is Some,
        old(state)@.next_creation_order < i64::MAX,
    ensures
        r == old(state)@.objects.len(),
        final(state)@ == group_added(old(state)@, parent as nat, name@, time),
{
    let ghost f = state@;
    let id: ObjId = state.allocate(ObjectKind::Group(GroupData::default()));
    let order: i64 = state.next_order();
    let node = state.get_mut(id);
    node.refcount = 1;
    node.mtime = time;
    let ghost f1 = FileView {
        objects: f.objects.push(
            Some(
                NodeView { refcount: 1, mtime: time, ..bare_node(KindView::Group(empty_group())) },
            ),
        ),
        ..ordered(f)
    };
    assert(state@ =~= f1);
    let link = Link {
        name: String::from_str(name),
        target: LinkTarget::Hard(id),
        creation_order: order,
        utf8: !name.is_ascii(),
    };
    assert(link@ == new_link(f, name@, TargetView::Hard(id as nat)));
    state.push_link(parent, link);
    id
}

impl Group {
    /// Adds a link to `target`.
    fn add_link(&self, state: &mut FileState, link_name: &str, target: LinkTarget) -> (r: Result<
        (),
        Error,
    >)
        ensures
            final(state)@ == link_added(old(state)@, self.id as nat, link_name@, target@).0,
            same_unit(r, link_added(old(state)@, self.id as nat, link_name@, target@).1),
    {
        if state.read_only {
            return Err(Error::new("unable to modify links: file is read-only"));
        }
        let ghost f = state@;
        let (parent, leaf) = match find_place(state, self.id, link_name) {
            Err(e) => {
                return Err(e);
            },
            Ok(p) => p,
        };
        if finds_link(state, parent, leaf.as_str()) {
            return Err(named_error("link '", leaf.as_str(), "' already exists"));
        }
        if state.next_creation_order == i64::MAX {
            return Err(Error::new("creation order exhausted"));
        }
        let order: i64 = state.next_order();
        assert(state@ == ordered(f));
        if !state.is_group(parent) {
            return Err(Error::new("parent is not a group"));
        }
        let utf8 = !leaf.as_str().is_ascii();
        let link = Link { name: leaf, target, creation_order: order, utf8 };
        assert(link@ == new_link(f, leaf@, target@));
        state.push_link(parent, link);
        Ok(())
    }

    /// Adds a soft link.
    pub fn link_soft(&self, state: &mut FileState, target: &str, link_name: &str) -> (r: Result<
        (),
        Error,
    >)
        ensures
            final(state)@ == link_added(
                old(state)@,
                self.id as nat,
                link_name@,
                TargetView::Soft(target@),
            ).0,
            same_unit(
                r,
                link_added(
                    old(state)@,
                    self.id as nat,
                    link_name@,
                    TargetView::Soft(target@),
                ).1,
            ),
    {
        self.add_link(state, link_name, LinkTarget::Soft(String::from_str(target)))
    }

    /// Adds a hard link to an object that is there.
    pub fn link_hard(&self, state: &mut FileState, target: &str, link_name: &str) -> (r: Result<
        (),
        Error,
    >)
        ensures
            final(state)@ == hard_link_added(
                old(state)@,
                self.id as nat,
                target@,
                link_name@,
            ).0,
            same_unit(r, hard_link_added(old(state)@, self.id as nat, target@, link_name@).1),
    {
        let id: ObjId = match state.resolve(self.id, target) {
            None => {
                return Err(named_error("target '", target, "' not found"));
            },
            Some(id) => id,
        };
        match self.add_link(state, link_name, LinkTarget::Hard(id)) {
            Err(e) => Err(e),
            Ok(_) => {
                state.count_link(id, true);
                Ok(())
            },
        }
    }

    /// Adds a link to an object of another file.
    pub fn link_external(
        &self,
        state: &mut FileState,
        target_file_name: &str,
        target: &str,
        link_name: &str,
    ) -> (r: Result<(), Error>)
        ensures
            final(state)@ == link_added(
                old(state)@,
                self.id as nat,
                link_name@,
                TargetView::External { file: target_file_name@, path: target@ },
            ).0,
            same_unit(
                r,
                link_added(
                    old(state)@,
                    self.id as nat,
                    link_name@,
                    TargetView::External { file: target_file_name@, path: target@ },
                ).1,
            ),
    {
        self.add_link(
            state,
            link_name,
            LinkTarget::External {
                file: String::from_str(target_file_name),
                path: String::from_str(target),
            },
        )
    }

    /// Moves a link to another path.
    pub fn relink(&self, state: &mut FileState, name: &str, path: &str) -> (r: Result<(), Error>)
        ensures
            final(state)@ == link_moved(old(state)@, self.id as nat, name@, path@).0,
            same_unit(r, link_moved(old(state)@, self.id as nat, name@, path@).1),
    {
        if state.read_only {
            return Err(Error::new("unable to relink: file is read-only"));
        }
        let at: usize = match self.link_number(state, name) {
            None => {
                return Err(named_error("link '", name, "' not found"));
            },
            Some(k) => k,
        };
        let link = match state.take_link(self.id, at) {
            Some(l) => l,
            None => {
                return Err(named_error("link '", name, "' not found"));
            },
        };
        let (parent, leaf) = match find_place(state, self.id, path) {
            Err(e) => {
                return Err(e);
            },
            Ok(p) => p,
        };
        if !state.is_group(parent) {
            return Err(Error::new("target parent is not a group"));
        }
        let moved = Link {
            name: leaf,
            target: link.target,
            creation_order: link.creation_order,
            utf8: link.utf8,
        };
        state.push_link(parent, moved);
        Ok(())
    }

    /// Takes a link out of the group.
    pub fn unlink(&self, state: &mut FileState, name: &str) -> (r: Result<(), Error>)
        ensures
            final(state)@ == link_removed(old(state)@, self.id as nat, name@).0,
            same_unit(r, link_removed(old(state)@, self.id as nat, name@).1),
    {
        if state.read_only {
            return Err(Error::new("unable to unlink: file is read-only"));
        }
        let at: usize = match self.link_number(state, name) {
            None => {
                return Err(named_error("link '", name, "' not found"));
            },
            Some(k) => k,
        };
        if let Some(link) = state.take_link(self.id, at) {
            if let LinkTarget::Hard(id) = link.target {
                state.count_link(id, false);
            }
        }
        Ok(())
    }

    /// The number of the first link with a name.
    fn link_number(&self, state: &FileState, name: &str) -> (r: Option<usize>)
        ensures
            r is Some <==> has_link(state@, self.id as nat, name@),
            r matches Some(k) ==> k < state@.group(self.id as nat)->0.links.len() && link_at(
                state@.group(self.id as nat)->0.links,
                name@,
            ) == Some(k as nat),
    {
        match state.group_data(self.id) {
            None => None,
            Some(g) => g.find_index(name),
        }
    }

    /// Whether there is a link with a name.
    pub fn link_exists(&self, state: &FileState, name: &str) -> (r: bool)
        ensures
            r == (link_place(state@, self.id as nat, name@) matches Ok((p, leaf)) && has_link(
                state@,
                p,
                leaf,
            )),
    {
        match find_place(state, self.id, name) {
            Err(_) => false,
            Ok((p, leaf)) => finds_link(state, p, leaf.as_str()),
        }
    }
}

/// The kinds of objects that a listing is about.
#[derive(Clone, Copy, Debug, PartialEq, Eq, Structural)]
pub enum MemberKind {
    Group,
    Dataset,
    NamedDatatype,
}

/// Whether an object is of a kind.
pub open spec fn of_kind(f: FileView, id: nat, kind: MemberKind) -> bool {
    f.object(id) matches Some(n) && match kind {
        MemberKind::Group => n.kind is Group,
        MemberKind::Dataset => n.kind is Dataset,
        MemberKind::NamedDatatype => n.kind is NamedType,
    }
}

/// The objects of a kind to which links lead.
pub open spec fn members(f: FileView, links: Seq<LinkView>, kind: MemberKind) -> Seq<nat>
    decreases links.len(),
{
    if links.len() == 0 {
        Seq::empty()
    } else {
        let before = members(f, links.drop_last(), kind);
        match links.last().target {
            TargetView::Hard(id) => if of_kind(f, id, kind) {
                before.push(id)
            } else {
                before
            },
            _ => before,
        }
    }
}

/// The numbers of objects.
pub open spec fn ids(v: Seq<usize>) -> Seq<nat> {
    v.map_values(|x: usize| x as nat)
}

fn is_kind(state: &FileState, id: ObjId, kind: MemberKind) -> (r: bool)
    ensures
        r == of_kind(state@, id as nat, kind),
{
    match state.try_get(id) {
        None => false,
        Some(n) => match (kind, &n.kind) {
            (MemberKind::Group, ObjectKind::Group(_)) => true,
            (MemberKind::Dataset, ObjectKind::Dataset(_)) => true,
            (MemberKind::NamedDatatype, ObjectKind::NamedType(_)) => true,
            _ => false,
        },
    }
}

impl Group {
    /// The objects of a kind in the group, by the names of their links.
    pub fn members_of_kind(&self, state: &FileState, kind: MemberKind) -> (r: Result<
        Vec<ObjId>,
        Error,
    >)
        ensures
            match (r, state@.group(self.id as nat)) {
                (Ok(v), Some(g)) => ids(v@) == members(state@, by_name(g.links), kind),
                (Err(e), None) => e@ == "not a group"@,
                _ => false,
            },
    {
        let g = match state.group_data(self.id) {
            None => {
                return Err(Error::new("not a group"));
            },
            Some(g) => g,
        };
        let order = order_by_name(&g.links);
        let ghost sorted = by_name(g@.links);
        let n: usize = order.len();
        let mut out: Vec<ObjId> = Vec::new();
        let mut i: usize = 0;
        assert(ids(out@) =~= members(state@, sorted.take(0), kind));
        assert(sorted.len() == n);
        while i < n
            invariant
                i <= n == order@.len() == sorted.len(),
                sorted == picked(link_views(g.links@), order@),
                crate::format::group_write::numbers_fit(order@, g.links@.len()),
                ids(out@) == members(state@, sorted.take(i as int), kind),
            decreases n - i,
        {
            assert(sorted.take(i + 1).drop_last() =~= sorted.take(i as int));
            let link = &g.links[order[i]];
            assert(sorted[i as int] == link@);
            if let LinkTarget::Hard(id) = &link.target {
                if is_kind(state, *id, kind) {
                    let ghost before = out@;
                    out.push(*id);
                    assert(ids(out@) =~= ids(before).push(*id as nat));
                }
            }
            i += 1;
        }
        assert(sorted.take(n as int) =~= sorted);
        Ok(out)
    }

    /// The groups in the group.
    pub fn groups(&self, state: &FileState) -> (r: Result<Vec<ObjId>, Error>)
        ensures
            match (r, state@.group(self.id as nat)) {
                (Ok(v), Some(g)) => ids(v@) == members(
                    state@,
                    by_name(g.links),
                    MemberKind::Group,
                ),
                (Err(e), None) => e@ == "not a group"@,
                _ => false,
            },
    {
        self.members_of_kind(state, MemberKind::Group)
    }

    /// The datasets in the group.
    pub fn datasets(&self, state: &FileState) -> (r: Result<Vec<ObjId>, Error>)
        ensures
            match (r, state@.group(self.id as nat)) {
                (Ok(v), Some(g)) => ids(v@) == members(
                    state@,
                    by_name(g.links),
                    MemberKind::Dataset,
                ),
                (Err(e), None) => e@ == "not a group"@,
                _ => false,
            },
    {
        self.members_of_kind(state, MemberKind::Dataset)
    }

    /// The named datatypes in the group.
    pub fn named_datatypes(&self, state: &FileState) -> (r: Result<Vec<ObjId>, Error>)
        ensures
            match (r, state@.group(self.id as nat)) {
                (Ok(v), Some(g)) => ids(v@) == members(
                    state@,
                    by_name(g.links),
                    MemberKind::NamedDatatype,
                ),
                (Err(e), None) => e@ == "not a group"@,
                _ => false,
            },
    {
        self.members_of_kind(state, MemberKind::NamedDatatype)
    }
}

// Traversals.

/// The place of a creation order in a list: behind those that are not greater.
pub open spec fn order_place(list: Seq<LinkView>, order: i64) -> nat
    decreases list.len(),
{
    if list.len() == 0 || list.last().creation_order <= order {
        list.len()
    } else {
        order_place(list.drop_last(), order)
    }
}

/// Links in the order of their creation.
pub open spec fn by_creation(list: Seq<LinkView>) -> Seq<LinkView>
    decreases list.len(),
{
    if list.len() == 0 {
        list
    } else {
        let before = by_creation(list.drop_last());
        before.insert(order_place(before, list.last().creation_order) as int, list.last())
    }
}

proof fn lemma_order_place(list: Seq<LinkView>, order: i64)
    ensures
        order_place(list, order) <= list.len(),
    decreases list.len(),
{
    if list.len() > 0 {
        lemma_order_place(list.drop_last(), order);
    }
}

/// Links in the order of a traversal.
pub open spec fn traversed(links: Seq<LinkView>, order: TraversalOrder, direction: IterationOrder) -> Seq<
    LinkView,
> {
    let sorted = match order {
        TraversalOrder::Name => by_name(links),
        TraversalOrder::Creation => by_creation(links),
    };
    if direction is Decreasing {
        sorted.reverse()
    } else {
        sorted
    }
}

/// What is known of a link besides its name.
pub open spec fn link_info(l: LinkView) -> LinkInfo {
    LinkInfo {
        link_type: match l.target {
            TargetView::Hard(_) => LinkType::Hard,
            TargetView::Soft(_) => LinkType::Soft,
            TargetView::External { .. } => LinkType::External,
        },
        creation_order: Some(l.creation_order),
        is_utf8: l.utf8,
    }
}

/// The numbers of links in the order of their creation.
fn order_by_creation(links: &Vec<Link>) -> (r: Vec<usize>)
    ensures
        crate::format::group_write::numbers_fit(r@, links@.len()),
        r@.len() == links@.len(),
        picked(link_views(links@), r@) == by_creation(link_views(links@)),
{
    let ghost views = link_views(links@);
    let mut order: Vec<usize> = Vec::new();
    let mut i: usize = 0;
    assert(picked(views, order@) =~= by_creation(views.take(0)));
    while i < links.len()
        invariant
            i <= links@.len(),
            views == link_views(links@),
            crate::format::group_write::numbers_fit(order@, links@.len()),
            order@.len() == i,
            picked(views, order@) == by_creation(views.take(i as int)),
        decreases links@.len() - i,
    {
        let key: i64 = links[i].creation_order;
        let ghost list = picked(views, order@);
        let mut k: usize = i;
        assert(list.take(k as int) =~= list);
        while k > 0 && links[order[k - 1]].creation_order > key
            invariant
                k <= i == order@.len() == list.len(),
                i < links@.len(),
                views == link_views(links@),
                crate::format::group_write::numbers_fit(order@, links@.len()),
                list == picked(views, order@),
                order_place(list, key) == order_place(list.take(k as int), key),
            decreases k,
        {
            assert(list.take(k as int).drop_last() =~= list.take(k - 1));
            assert(list[k - 1] == links@[order@[k - 1] as int]@);
            k -= 1;
        }
        proof {
            if k > 0 {
                assert(list[k - 1] == links@[order@[k - 1] as int]@);
                assert(list.take(k as int).last() == list[k - 1]);
            }
            assert(order_place(list, key) == k);
            assert(views.take(i + 1).drop_last() =~= views.take(i as int));
            assert(views[i as int].creation_order == key);
        }
        let ghost before = order@;
        order.insert(k, i);
        i += 1;
        assert(picked(views, order@) =~= list.insert(k as int, views[i - 1]));
    }
    assert(views.take(links@.len() as int) =~= views);
    order
}

/// The names of visited links, and what is known of them.
pub open spec fn visits(v: Seq<(String, LinkInfo)>) -> Seq<(Seq<char>, LinkInfo)> {
    v.map_values(|x: (String, LinkInfo)| (x.0@, x.1))
}

/// What a traversal shows of links.
pub open spec fn shown(links: Seq<LinkView>) -> Seq<(Seq<char>, LinkInfo)> {
    links.map_values(|l: LinkView| (l.name, link_info(l)))
}

impl Group {
    /// The links of the group in the order of a traversal.
    pub fn visit(&self, state: &FileState, direction: IterationOrder, traversal: TraversalOrder) -> (r:
        Result<Vec<(String, LinkInfo)>, Error>)
        ensures
            match (r, state@.object(self.id as nat), state@.group(self.id as nat)) {
                (Ok(v), _, Some(g)) => visits(v@) == shown(
                    traversed(g.links, traversal, direction),
                ),
                (Err(e), None, _) => e@ == "dangling group"@,
                (Err(e), Some(_), None) => e@ == "object is not a group"@,
                _ => false,
            },
    {
        let g = match state.try_get(self.id) {
            None => {
                return Err(Error::new("dangling group"));
            },
            Some(node) => match &node.kind {
                ObjectKind::Group(g) => g,
                _ => {
                    return Err(Error::new("object is not a group"));
                },
            },
        };
        let ghost views = g@.links;
        let order = match traversal {
            TraversalOrder::Name => order_by_name(&g.links),
            TraversalOrder::Creation => order_by_creation(&g.links),
        };
        let ghost sorted = picked(views, order@);
        let ghost whole = traversed(views, traversal, direction);
        let n: usize = order.len();
        let down = matches!(direction, IterationOrder::Decreasing);
        let mut out: Vec<(String, LinkInfo)> = Vec::new();
        let mut i: usize = 0;
        assert(visits(out@) =~= shown(whole).take(0));
        while i < n
            invariant
                i <= n == order@.len() == sorted.len() == whole.len(),
                crate::format::group_write::numbers_fit(order@, g.links@.len()),
                views == link_views(g.links@),
                sorted == picked(views, order@),
                whole == (if down {
                    sorted.reverse()
                } else {
                    sorted
                }),
                out@.len() == i,
                visits(out@) == shown(whole).take(i as int),
            decreases n - i,
        {
            let k: usize = if down {
                n - 1 - i
            } else {
                i
            };
            let link = &g.links[order[k]];
            assert(sorted[k as int] == link@);
            assert(whole[i as int] == link@);
            let link_type = match &link.target {
                LinkTarget::Hard(_) => LinkType::Hard,
                LinkTarget::Soft(_) => LinkType::Soft,
                LinkTarget::External { file: _, path: _ } => LinkType::External,
            };
            let info = LinkInfo {
                link_type,
                creation_order: Some(link.creation_order),
                is_utf8: link.utf8,
            };
            let ghost before = out@;
            out.push((link.name.clone(), info));
            i += 1;
            proof {
                assert(visits(out@) =~= visits(before).push((link.name@, info)));
                assert(shown(whole)[i - 1] == (link.name@, info));
                assert(visits(out@) =~= shown(whole).take(i as int));
            }
        }
        assert(shown(whole).take(n as int) =~= shown(whole));
        Ok(out)
    }

    /// The names of the links, in their order.
    pub fn member_names(&self, state: &FileState) -> (r: Result<Vec<String>, Error>)
        ensures
            match (r, state@.object(self.id as nat), state@.group(self.id as nat)) {
                (Ok(v), _, Some(g)) => texts(v@) == by_name(g.links).map_values(
                    |l: LinkView| l.name,
                ),
                (Err(e), None, _) => e@ == "dangling group"@,
                (Err(e), Some(_), None) => e@ == "object is not a group"@,
                _ => false,
            },
    {
        let list = match self.visit(state, IterationOrder::Native, TraversalOrder::Name) {
            Err(e) => {
                return Err(e);
            },
            Ok(v) => v,
        };
        let ghost all = by_name(state@.group(self.id as nat)->0.links);
        let n: usize = list.len();
        let mut out: Vec<String> = Vec::new();
        let mut i: usize = 0;
        assert(texts(out@) =~= all.map_values(|l: LinkView| l.name).take(0));
        assert(visits(list@).len() == n);
        while i < n
            invariant
                i <= n == list@.len() == all.len(),
                visits(list@) == shown(all),
                out@.len() == i,
                texts(out@) == all.map_values(|l: LinkView| l.name).take(i as int),
            decreases n - i,
        {
            assert(visits(list@)[i as int].0 == list@[i as int].0@);
            assert(shown(all)[i as int].0 == all[i as int].name);
            let ghost before = out@;
            out.push(list[i].0.clone());
            i += 1;
            assert(texts(out@) =~= texts(before).push(list@[i - 1].0@));
            assert(texts(out@) =~= all.map_values(|l: LinkView| l.name).take(i as int));
        }
        assert(all.map_values(|l: LinkView| l.name).take(n as int) =~= all.map_values(
            |l: LinkView| l.name,
        ));
        Ok(out)
    }
}

// Laws.

/// A link that was added is there, and leads to its target.
pub proof fn law_link_added_found(f: FileView, start: nat, path: Seq<char>, target: TargetView)
    requires
        link_added(f, start, path, target).1 is Ok,
    ensures
        ({
            let (parent, leaf) = link_place(f, start, path)->Ok_0;
            let g = link_added(f, start, path, target).0.group(parent);
            &&& g is Some
            &&& link_at(g->0.links, leaf) == Some((g->0.links.len() - 1) as nat)
            &&& g->0.links.last().target == target
        }),
{
    let (parent, leaf) = link_place(f, start, path)->Ok_0;
    let before = f.group(parent)->0.links;
    let after = before.push(new_link(f, leaf, target));
    law_link_at(before, leaf);
    law_link_at(after, leaf);
    assert(after.last().name == leaf);
    match link_at(after, leaf) {
        Some(k) => {
            if k < before.len() {
                assert(after[k as int] == before[k as int]);
            }
        },
        None => {
            assert(after[after.len() - 1].name == leaf);
        },
    }
}

/// Whether no two links have the same name.
pub open spec fn distinct(links: Seq<LinkView>) -> bool {
    forall|i: int, j: int|
        0 <= i < j < links.len() ==> (#[trigger] links[i]).name != (#[trigger] links[j]).name
}

/// Adding a link keeps the names of a group distinct.
pub proof fn law_names_stay_distinct(f: FileView, start: nat, path: Seq<char>, target: TargetView)
    requires
        link_added(f, start, path, target).1 is Ok,
        distinct(f.group(link_place(f, start, path)->Ok_0.0)->0.links),
    ensures
        ({
            let parent = link_place(f, start, path)->Ok_0.0;
            distinct(link_added(f, start, path, target).0.group(parent)->0.links)
        }),
{
    let (parent, leaf) = link_place(f, start, path)->Ok_0;
    let before = f.group(parent)->0.links;
    let after = before.push(new_link(f, leaf, target));
    law_link_at(before, leaf);
    assert forall|i: int, j: int| 0 <= i < j < after.len() implies (#[trigger] after[i]).name != (
    #[trigger] after[j]).name by {
        assert(after[i] == before[i]);
        if j < before.len() {
            assert(after[j] == before[j]);
        }
    }
}

/// A link that was taken out is no longer there.
pub proof fn law_link_removed_gone(f: FileView, start: nat, name: Seq<char>)
    requires
        link_removed(f, start, name).1 is Ok,
        distinct(f.group(start)->0.links),
    ensures
        !has_link(link_removed(f, start, name).0, start, name),
{
    let links = f.group(start)->0.links;
    let k = link_at(links, name)->0;
    let rest = links.remove(k as int);
    law_link_at(links, name);
    law_link_at(rest, name);
    assert forall|j: int| 0 <= j < rest.len() implies (#[trigger] rest[j]).name != name by {
        if j < k {
            assert(rest[j] == links[j]);
        } else {
            assert(rest[j] == links[j + 1]);
            assert(links[k as int].name != links[j + 1].name);
        }
    }
}

/// Nothing changes the links of a file that is read-only.
pub proof fn law_read_only_stays(
    f: FileView,
    start: nat,
    name: Seq<char>,
    path: Seq<char>,
    target: TargetView,
    time: u32,
)
    requires
        f.read_only,
    ensures
        group_created(f, start, name, time).0 == f,
        link_added(f, start, path, target).0 == f,
        hard_link_added(f, start, name, path).0 == f,
        link_removed(f, start, name).0 == f,
        link_moved(f, start, name, path).0 == f,
{
}

} // verus!
