//! Objects of a file and the paths that lead to them, also across files.

use vstd::prelude::*;

use crate::error::{same_unit, Error};
use crate::hl::group::{between, named_error, with_object};
use crate::model::{
    attr_at, components, link_at, path_to, split_path, text_view, texts, AttrView, FileState,
    FileView, KindView, NodeView, ObjId, ObjectKind, TargetView,
};
use crate::model::LinkTarget;
use crate::text::join;

verus! {

/// The type of an object that a path can lead to.
#[derive(Clone, Copy, Debug, PartialEq, Eq, Structural)]
pub enum LocationType {
    Group,
    Dataset,
    NamedDatatype,
}

/// What identifies an object within its file.
#[derive(Clone, Copy, Debug, PartialEq, Eq, Hash, Structural)]
pub struct LocationToken(pub u64);

/// What is known of an object.
#[derive(Clone, Copy, Debug)]
pub struct LocationInfo {
    pub fileno: u64,
    pub token: LocationToken,
    pub loc_type: LocationType,
    pub num_links: usize,
    pub atime: i64,
    pub mtime: i64,
    pub ctime: i64,
    pub btime: i64,
    pub num_attrs: usize,
}

/// An object of a file, by its number.
#[derive(Clone, Copy, Debug, PartialEq, Eq, Structural)]
pub struct Location {
    pub id: ObjId,
}

/// The type of an object, or that it could not be read.
pub open spec fn location_type(n: NodeView) -> Result<LocationType, Seq<char>> {
    match n.kind {
        KindView::Group(_) => Ok(LocationType::Group),
        KindView::Dataset(_) => Ok(LocationType::Dataset),
        KindView::NamedType(_) => Ok(LocationType::NamedDatatype),
        KindView::Unsupported(reason) => Err("object is unsupported by this build: "@ + reason),
    }
}

/// What is known of an object.
pub open spec fn location_info(f: FileView, fileno: u64, id: nat) -> Result<
    LocationInfo,
    Seq<char>,
> {
    match f.object(id) {
        None => Err("dangling object"@),
        Some(n) => match location_type(n) {
            Err(e) => Err(e),
            Ok(t) => Ok(
                LocationInfo {
                    fileno,
                    token: LocationToken(id as u64),
                    loc_type: t,
                    num_links: n.refcount as usize,
                    atime: n.mtime as i64,
                    mtime: n.mtime as i64,
                    ctime: n.mtime as i64,
                    btime: n.mtime as i64,
                    num_attrs: n.attrs.len() as usize,
                },
            ),
        },
    }
}

/// Whether a value came out as `s` says.
pub open spec fn same_value<T>(r: Result<T, Error>, s: Result<T, Seq<char>>) -> bool {
    match (r, s) {
        (Ok(v), Ok(w)) => v == w,
        (Err(e), Err(m)) => e@ == m,
        _ => false,
    }
}

/// A file in which an object has another comment.
pub open spec fn commented(f: FileView, id: nat, comment: Option<Seq<char>>) -> (
    FileView,
    Result<(), Seq<char>>,
) {
    if f.read_only {
        (f, Err("unable to modify: file is read-only"@))
    } else {
        match f.object(id) {
            None => (f, Err("dangling object"@)),
            Some(n) => (with_object(f, id, NodeView { comment, ..n }), Ok(())),
        }
    }
}

fn type_of(kind: &ObjectKind) -> (r: Result<LocationType, Error>)
    ensures
        same_value(
            r,
            match kind@ {
                KindView::Group(_) => Ok(LocationType::Group),
                KindView::Dataset(_) => Ok(LocationType::Dataset),
                KindView::NamedType(_) => Ok(LocationType::NamedDatatype),
                KindView::Unsupported(reason) => Err(
                    "object is unsupported by this build: "@ + reason,
                ),
            },
        ),
{
    match kind {
        ObjectKind::Group(_) => Ok(LocationType::Group),
        ObjectKind::Dataset(_) => Ok(LocationType::Dataset),
        ObjectKind::NamedType(_) => Ok(LocationType::NamedDatatype),
        ObjectKind::Unsupported(reason) => Err(
            Error::from_text(join("object is unsupported by this build: ", reason.as_str())),
        ),
    }
}

impl Location {
    /// The path of the object from the root of its file.
    pub fn name(&self, state: &FileState) -> (r: String)
        ensures
            r@ == match path_to(state@, self.id as nat) {
                Some(p) => p,
                None => "/"@,
            },
    {
        match state.path_of(self.id) {
            Some(p) => p,
            None => String::from_str("/"),
        }
    }

    pub fn comment(&self, state: &FileState) -> (r: Option<String>)
        ensures
            text_view(r) == match state@.object(self.id as nat) {
                Some(n) => n.comment,
                None => None,
            },
    {
        match state.try_get(self.id) {
            None => None,
            Some(n) => match &n.comment {
                None => None,
                Some(c) => Some(c.clone()),
            },
        }
    }

    pub fn set_comment(&self, state: &mut FileState, comment: &str) -> (r: Result<(), Error>)
        ensures
            final(state)@ == commented(old(state)@, self.id as nat, Some(comment@)).0,
            same_unit(r, commented(old(state)@, self.id as nat, Some(comment@)).1),
    {
        if state.read_only {
            return Err(Error::new("unable to modify: file is read-only"));
        }
        if state.try_get(self.id).is_none() {
            return Err(Error::new("dangling object"));
        }
        let ghost before = state@;
        let node = state.get_mut(self.id);
        node.comment = Some(String::from_str(comment));
        assert(state@ =~= commented(before, self.id as nat, Some(comment@)).0);
        Ok(())
    }

    pub fn clear_comment(&self, state: &mut FileState) -> (r: Result<(), Error>)
        ensures
            final(state)@ == commented(old(state)@, self.id as nat, None).0,
            same_unit(r, commented(old(state)@, self.id as nat, None).1),
    {
        if state.read_only {
            return Err(Error::new("unable to modify: file is read-only"));
        }
        if state.try_get(self.id).is_none() {
            return Err(Error::new("dangling object"));
        }
        let ghost before = state@;
        let node = state.get_mut(self.id);
        node.comment = None;
        assert(state@ =~= commented(before, self.id as nat, None).0);
        Ok(())
    }

    /// What is known of the object; `fileno` is the number of its file.
    pub fn loc_info(&self, state: &FileState, fileno: u64) -> (r: Result<LocationInfo, Error>)
        ensures
            same_value(r, location_info(state@, fileno, self.id as nat)),
    {
        let node = match state.try_get(self.id) {
            None => {
                return Err(Error::new("dangling object"));
            },
            Some(n) => n,
        };
        let loc_type = type_of(&node.kind)?;
        let time: i64 = node.mtime as i64;
        assert(node@.attrs.len() == node.attrs@.len());
        Ok(
            LocationInfo {
                fileno,
                token: LocationToken(self.id as u64),
                loc_type,
                num_links: node.refcount as usize,
                atime: time,
                mtime: time,
                ctime: time,
                btime: time,
                num_attrs: node.attrs.len(),
            },
        )
    }

    pub fn loc_type(&self, state: &FileState) -> (r: Result<LocationType, Error>)
        ensures
            same_value(
                r,
                match state@.object(self.id as nat) {
                    None => Err("dangling object"@),
                    Some(n) => location_type(n),
                },
            ),
    {
        match state.try_get(self.id) {
            None => Err(Error::new("dangling object")),
            Some(n) => type_of(&n.kind),
        }
    }

    /// The object that a token identifies, and its type.
    pub fn open_by_token(state: &FileState, token: LocationToken) -> (r: Result<
        (Location, LocationType),
        Error,
    >)
        ensures
            match (
                r,
                match state@.object(token.0 as nat) {
                    None => Err("invalid location token"@),
                    Some(n) => location_type(n),
                },
            ) {
                (Ok(v), Ok(t)) => v.0.id == token.0 && v.1 == t,
                (Err(e), Err(m)) => e@ == m,
                _ => false,
            },
    {
        let n: usize = state.objects.len();
        if token.0 >= n as u64 {
            return Err(Error::new("invalid location token"));
        }
        let id: ObjId = token.0 as usize;
        match state.try_get(id) {
            None => Err(Error::new("invalid location token")),
            Some(n) => match type_of(&n.kind) {
                Err(e) => Err(e),
                Ok(t) => Ok((Location { id }, t)),
            },
        }
    }

    /// Checks that an attribute is there.
    pub fn attr(&self, state: &FileState, name: &str) -> (r: Result<usize, Error>)
        ensures
            match (r, state@.object(self.id as nat)) {
                (Ok(k), Some(n)) => attr_at(n.attrs, name@) == Some(k as nat),
                (Err(e), None) => e@ == "dangling object"@,
                (Err(e), Some(n)) => attr_at(n.attrs, name@) is None && e@ == between(
                    "unable to open attribute '"@,
                    name@,
                    "'"@,
                ),
                _ => false,
            },
    {
        match state.try_get(self.id) {
            None => Err(Error::new("dangling object")),
            Some(n) => match n.attr_index(name) {
                Some(k) => Ok(k),
                None => Err(named_error("unable to open attribute '", name, "'")),
            },
        }
    }

    /// The names of the attributes, in their order.
    pub fn attr_names(&self, state: &FileState) -> (r: Result<Vec<String>, Error>)
        ensures
            match (r, state@.object(self.id as nat)) {
                (Ok(v), Some(n)) => texts(v@) == n.attrs.map_values(|a: AttrView| a.name),
                (Err(e), None) => e@ == "dangling object"@,
                _ => false,
            },
    {
        let node = match state.try_get(self.id) {
            None => {
                return Err(Error::new("dangling object"));
            },
            Some(n) => n,
        };
        let ghost all = node@.attrs.map_values(|a: AttrView| a.name);
        let n: usize = node.attrs.len();
        let mut out: Vec<String> = Vec::new();
        let mut i: usize = 0;
        assert(texts(out@) =~= all.take(0));
        while i < n
            invariant
                i <= n == node.attrs@.len(),
                all == node@.attrs.map_values(|a: AttrView| a.name),
                out@.len() == i,
                texts(out@) == all.take(i as int),
            decreases n - i,
        {
            let ghost before = out@;
            out.push(node.attrs[i].name.clone());
            i += 1;
            assert(node@.attrs[i - 1] == node.attrs@[i - 1]@);
            assert(texts(out@) =~= texts(before).push(node.attrs@[i - 1].name@));
            assert(texts(out@) =~= all.take(i as int));
        }
        assert(all.take(n as int) =~= all);
        Ok(out)
    }
}

// Paths across files.

/// How many links may be gone through one inside the other.
pub const MAX_LINK_DEPTH: usize = 32;

/// What is left of a path: its parts, how many of them are done, and how deep it is.
#[derive(Debug)]
pub struct Frame {
    pub parts: Vec<String>,
    pub done: usize,
    pub depth: usize,
}

/// The view of a [`Frame`].
pub struct FrameView {
    pub parts: Seq<Seq<char>>,
    pub done: nat,
    pub depth: nat,
}

impl View for Frame {
    type V = FrameView;

    open spec fn view(&self) -> FrameView {
        FrameView { parts: texts(self.parts@), done: self.done as nat, depth: self.depth as nat }
    }
}

/// The views of frames.
pub open spec fn frame_views(v: Seq<Frame>) -> Seq<FrameView> {
    v.map_values(|x: Frame| x@)
}

/// How far a path leads within a file: to an object, or to another file, with what is
/// to be done afterwards, the outermost path first.
#[derive(Debug)]
pub enum Reach {
    Found(ObjId),
    Elsewhere { file: String, path: String, depth: usize },
}

/// The view of a [`Reach`], with the paths to be gone on with.
pub enum ReachView {
    Found(nat),
    Elsewhere { file: Seq<char>, path: Seq<char>, depth: nat, frames: Seq<FrameView> },
}

/// How far a path leads from part `i` on.
pub open spec fn reached(f: FileView, cur: nat, parts: Seq<Seq<char>>, i: int, depth: nat) -> Result<
    ReachView,
    Seq<char>,
>
    decreases MAX_LINK_DEPTH + 1 - depth, parts.len() - i,
{
    if i < 0 || i >= parts.len() {
        Ok(ReachView::Found(cur))
    } else {
        match f.object(cur) {
            None => Err("dangling object"@),
            Some(n) => match n.kind {
                KindView::Unsupported(reason) => Err(
                    "object is unsupported by this build: "@ + reason,
                ),
                KindView::Group(g) => match link_at(g.links, parts[i]) {
                    None => Err(between("object '"@, parts[i], "' not found"@)),
                    Some(k) => match g.links[k as int].target {
                        TargetView::Hard(id) => reached(f, id, parts, i + 1, depth),
                        TargetView::Soft(path) => if depth + 1 > MAX_LINK_DEPTH {
                            Err("too many levels of link indirection"@)
                        } else {
                            match reached(f, f.root, components(path, 0), 0, depth + 1) {
                                Err(e) => Err(e),
                                Ok(ReachView::Found(id)) => reached(f, id, parts, i + 1, depth),
                                Ok(
                                    ReachView::Elsewhere { file, path, depth: d, frames },
                                ) => Ok(
                                    ReachView::Elsewhere {
                                        file,
                                        path,
                                        depth: d,
                                        frames: seq![
                                            FrameView { parts, done: (i + 1) as nat, depth },
                                        ] + frames,
                                    },
                                ),
                            }
                        },
                        TargetView::External { file, path } => Ok(
                            ReachView::Elsewhere {
                                file,
                                path,
                                depth: depth + 1,
                                frames: seq![FrameView { parts, done: (i + 1) as nat, depth }],
                            },
                        ),
                    },
                },
                _ => Err(between("'"@, parts[i], "' is not reachable (not a group)"@)),
            },
        }
    }
}

/// Whether a walk came out as `s` says: the frames that it leaves are those that were
/// there, and behind them its own.
pub open spec fn same_reach(
    r: Result<Reach, Error>,
    before: Seq<FrameView>,
    after: Seq<FrameView>,
    s: Result<ReachView, Seq<char>>,
) -> bool {
    match (r, s) {
        (Ok(Reach::Found(id)), Ok(ReachView::Found(n))) => id == n && after == before,
        (
            Ok(Reach::Elsewhere { file, path, depth }),
            Ok(ReachView::Elsewhere { file: file1, path: path1, depth: depth1, frames }),
        ) => file@ == file1 && path@ == path1 && depth == depth1 && after == before + frames,
        (Err(e), Err(m)) => e@ == m,
        _ => false,
    }
}

fn push_frame(frames: &mut Vec<Frame>, f: Frame)
    ensures
        frame_views(final(frames)@) == frame_views(old(frames)@).push(f@),
{
    let ghost before = frames@;
    frames.push(f);
    assert(frame_views(frames@) =~= frame_views(before).push(f@));
}

fn copy_texts(v: &Vec<String>) -> (r: Vec<String>)
    ensures
        texts(r@) == texts(v@),
{
    let n: usize = v.len();
    let mut out: Vec<String> = Vec::new();
    let mut i: usize = 0;
    assert(texts(out@) =~= texts(v@).take(0));
    while i < n
        invariant
            i <= n == v@.len(),
            out@.len() == i,
            texts(out@) == texts(v@).take(i as int),
        decreases n - i,
    {
        let ghost before = out@;
        out.push(v[i].clone());
        i += 1;
        assert(texts(out@) =~= texts(before).push(v@[i - 1]@));
        assert(texts(out@) =~= texts(v@).take(i as int));
    }
    assert(texts(v@).take(n as int) =~= texts(v@));
    out
}

/// Goes a path as far as it leads within a file.
fn reach(
    state: &FileState,
    start: ObjId,
    parts: &Vec<String>,
    from: usize,
    depth: usize,
    frames: &mut Vec<Frame>,
) -> (r: Result<Reach, Error>)
    requires
        depth <= MAX_LINK_DEPTH,
    ensures
        same_reach(
            r,
            frame_views(old(frames)@),
            frame_views(final(frames)@),
            reached(state@, start as nat, texts(parts@), from as int, depth as nat),
        ),
    decreases MAX_LINK_DEPTH - depth,
{
    let ghost names = texts(parts@);
    let ghost given = frame_views(frames@);
    let ghost whole = reached(state@, start as nat, names, from as int, depth as nat);
    let n: usize = parts.len();
    let mut cur: ObjId = start;
    let mut i: usize = from;
    while i < n
        invariant
            n == parts@.len(),
            depth <= MAX_LINK_DEPTH,
            names == texts(parts@),
            given == frame_views(frames@),
            given == frame_views(old(frames)@),
            whole == reached(state@, start as nat, names, from as int, depth as nat),
            whole == reached(state@, cur as nat, names, i as int, depth as nat),
        decreases n - i,
    {
        let ghost f = state@;
        assert(names[i as int] == parts@[i as int]@);
        let node = match state.try_get(cur) {
            None => {
                return Err(Error::new("dangling object"));
            },
            Some(x) => x,
        };
        let group = match &node.kind {
            ObjectKind::Group(g) => g,
            ObjectKind::Unsupported(reason) => {
                return Err(
                    Error::from_text(
                        join("object is unsupported by this build: ", reason.as_str()),
                    ),
                );
            },
            _ => {
                return Err(
                    named_error("'", parts[i].as_str(), "' is not reachable (not a group)"),
                );
            },
        };
        let link = match group.find(parts[i].as_str()) {
            None => {
                return Err(named_error("object '", parts[i].as_str(), "' not found"));
            },
            Some(l) => l,
        };
        match &link.target {
            LinkTarget::Hard(id) => {
                cur = *id;
            },
            LinkTarget::Soft(path) => {
                if depth + 1 > MAX_LINK_DEPTH {
                    return Err(Error::new("too many levels of link indirection"));
                }
                let inner = split_path(path.as_str());
                push_frame(frames, Frame { parts: copy_texts(parts), done: i + 1, depth });
                let ghost mine = FrameView { parts: names, done: (i + 1) as nat, depth: depth as nat };
                assert(frame_views(frames@) == given.push(mine));
                match reach(state, state.root, &inner, 0, depth + 1, frames) {
                    Err(e) => {
                        return Err(e);
                    },
                    Ok(Reach::Found(id)) => {
                        let ghost held = frames@;
                        frames.pop();
                        assert(frame_views(frames@) =~= given.push(mine).drop_last());
                        assert(given.push(mine).drop_last() =~= given);
                        cur = id;
                    },
                    Ok(Reach::Elsewhere { file, path, depth: d }) => {
                        proof {
                            let more = reached(
                                f,
                                f.root,
                                texts(inner@),
                                0,
                                (depth + 1) as nat,
                            )->Ok_0->frames;
                            assert(given.push(mine) + more =~= given + (seq![mine] + more));
                        }
                        return Ok(Reach::Elsewhere { file, path, depth: d });
                    },
                }
            },
            LinkTarget::External { file, path } => {
                push_frame(frames, Frame { parts: copy_texts(parts), done: i + 1, depth });
                let ghost mine = FrameView { parts: names, done: (i + 1) as nat, depth: depth as nat };
                assert(given.push(mine) =~= given + seq![mine]);
                return Ok(
                    Reach::Elsewhere { file: file.clone(), path: path.clone(), depth: depth + 1 },
                );
            },
        }
        i += 1;
    }
    Ok(Reach::Found(cur))
}

/// A walk along a path: the paths to be gone on with, the innermost last.
#[derive(Debug)]
pub struct Walk {
    pub frames: Vec<Frame>,
}

/// What goes on in a file when an object was reached: the paths that wait are gone on
/// with, the innermost first.
pub open spec fn resumed(f: FileView, id: nat, frames: Seq<FrameView>) -> (
    Seq<FrameView>,
    Result<ReachView, Seq<char>>,
)
    decreases frames.len(),
{
    if frames.len() == 0 {
        (frames, Ok(ReachView::Found(id)))
    } else {
        let top = frames.last();
        let rest = frames.drop_last();
        match reached(f, id, top.parts, top.done as int, top.depth) {
            Err(e) => (rest, Err(e)),
            Ok(ReachView::Found(next)) => resumed(f, next, rest),
            Ok(ReachView::Elsewhere { file, path, depth, frames: more }) => (
                rest + more,
                Ok(ReachView::Elsewhere { file, path, depth, frames: more }),
            ),
        }
    }
}

/// A path that starts in a file.
pub open spec fn entered(f: FileView, start: nat, path: Seq<char>, depth: nat) -> Result<
    ReachView,
    Seq<char>,
> {
    if depth > MAX_LINK_DEPTH {
        Err("too many levels of link indirection"@)
    } else {
        reached(
            f,
            if path.len() > 0 && path[0] == '/' {
                f.root
            } else {
                start
            },
            components(path, 0),
            0,
            depth,
        )
    }
}

/// How far a whole walk leads in a file: the path, and then the paths that wait.
pub open spec fn walked(
    f: FileView,
    start: nat,
    path: Seq<char>,
    depth: nat,
    frames: Seq<FrameView>,
) -> (Seq<FrameView>, Result<ReachView, Seq<char>>) {
    match entered(f, start, path, depth) {
        Err(e) => (frames, Err(e)),
        Ok(ReachView::Found(id)) => resumed(f, id, frames),
        Ok(ReachView::Elsewhere { file, path, depth, frames: more }) => (
            frames + more,
            Ok(ReachView::Elsewhere { file, path, depth, frames: more }),
        ),
    }
}

/// Whether a step of a walk came out as `s` says.
pub open spec fn same_step(
    r: Result<Reach, Error>,
    after: Seq<FrameView>,
    s: (Seq<FrameView>, Result<ReachView, Seq<char>>),
) -> bool {
    match (r, s.1) {
        (Ok(Reach::Found(id)), Ok(ReachView::Found(n))) => id == n && after == s.0,
        (
            Ok(Reach::Elsewhere { file, path, depth }),
            Ok(ReachView::Elsewhere { file: file1, path: path1, depth: depth1, frames }),
        ) => file@ == file1 && path@ == path1 && depth == depth1 && after == s.0,
        (Err(e), Err(m)) => e@ == m,
        _ => false,
    }
}

/// Whether no path that waits is too deep.
pub open spec fn shallow(frames: Seq<FrameView>) -> bool {
    forall|i: int| 0 <= i < frames.len() ==> (#[trigger] frames[i]).depth <= MAX_LINK_DEPTH
}

proof fn lemma_reached_shallow(f: FileView, cur: nat, parts: Seq<Seq<char>>, i: int, depth: nat)
    requires
        depth <= MAX_LINK_DEPTH,
    ensures
        reached(f, cur, parts, i, depth) matches Ok(
            ReachView::Elsewhere { file, path, depth: d, frames },
        ) ==> shallow(frames) && d <= MAX_LINK_DEPTH + 1,
    decreases MAX_LINK_DEPTH + 1 - depth, parts.len() - i,
{
    if 0 <= i < parts.len() {
        if let Some(n) = f.object(cur) {
            if let KindView::Group(g) = n.kind {
                if let Some(k) = link_at(g.links, parts[i]) {
                    match g.links[k as int].target {
                        TargetView::Hard(id) => {
                            lemma_reached_shallow(f, id, parts, i + 1, depth);
                        },
                        TargetView::Soft(path) => {
                            if depth + 1 <= MAX_LINK_DEPTH {
                                lemma_reached_shallow(
                                    f,
                                    f.root,
                                    components(path, 0),
                                    0,
                                    depth + 1,
                                );
                                if let Ok(ReachView::Found(id)) = reached(
                                    f,
                                    f.root,
                                    components(path, 0),
                                    0,
                                    depth + 1,
                                ) {
                                    lemma_reached_shallow(f, id, parts, i + 1, depth);
                                }
                            }
                        },
                        _ => {},
                    }
                }
            }
        }
    }
}

impl Walk {
    /// No path waits.
    pub fn new() -> (r: Self)
        ensures
            frame_views(r.frames@) == Seq::<FrameView>::empty(),
    {
        let r = Walk { frames: Vec::new() };
        assert(frame_views(r.frames@) =~= Seq::<FrameView>::empty());
        r
    }

    /// Goes a path in a file, and then the paths that wait, as far as they lead
    /// there. Where they lead to another file, the walk goes on there with the path,
    /// the depth and the file's root that the reach gives.
    pub fn go(&mut self, state: &FileState, start: ObjId, path: &str, depth: usize) -> (r: Result<
        Reach,
        Error,
    >)
        requires
            shallow(frame_views(old(self).frames@)),
        ensures
            shallow(frame_views(final(self).frames@)) || r is Err,
            same_step(
                r,
                frame_views(final(self).frames@),
                walked(state@, start as nat, path@, depth as nat, frame_views(old(self).frames@)),
            ),
    {
        let ghost given = frame_views(self.frames@);
        if depth > MAX_LINK_DEPTH {
            return Err(Error::new("too many levels of link indirection"));
        }
        let from: ObjId = if path.unicode_len() > 0 && path.get_char(0) == '/' {
            state.root
        } else {
            start
        };
        let parts = split_path(path);
        proof {
            lemma_reached_shallow(state@, from as nat, texts(parts@), 0, depth as nat);
        }
        let mut cur: ObjId = match reach(state, from, &parts, 0, depth, &mut self.frames) {
            Err(e) => {
                return Err(e);
            },
            Ok(Reach::Elsewhere { file, path, depth }) => {
                return Ok(Reach::Elsewhere { file, path, depth });
            },
            Ok(Reach::Found(id)) => id,
        };
        let ghost whole = resumed(state@, cur as nat, given);
        while self.frames.len() > 0
            invariant
                shallow(frame_views(self.frames@)),
                whole == resumed(state@, cur as nat, frame_views(self.frames@)),
                walked(state@, start as nat, path@, depth as nat, given) == whole,
                given == frame_views(old(self).frames@),
            decreases self.frames@.len(),
        {
            let ghost waiting = frame_views(self.frames@);
            let ghost held = self.frames@;
            let top = match self.frames.pop() {
                Some(t) => t,
                None => {
                    return Ok(Reach::Found(cur));
                },
            };
            proof {
                assert(frame_views(self.frames@) =~= waiting.drop_last());
                assert(waiting.last() == top@);
                assert(waiting[waiting.len() - 1].depth <= MAX_LINK_DEPTH);
                lemma_reached_shallow(
                    state@,
                    cur as nat,
                    texts(top.parts@),
                    top.done as int,
                    top.depth as nat,
                );
                assert forall|i: int| 0 <= i < waiting.drop_last().len() implies (
                #[trigger] waiting.drop_last()[i]).depth <= MAX_LINK_DEPTH by {
                    assert(waiting[i].depth <= MAX_LINK_DEPTH);
                }
            }
            match reach(state, cur, &top.parts, top.done, top.depth, &mut self.frames) {
                Err(e) => {
                    return Err(e);
                },
                Ok(Reach::Elsewhere { file, path, depth }) => {
                    return Ok(Reach::Elsewhere { file, path, depth });
                },
                Ok(Reach::Found(id)) => {
                    cur = id;
                },
            }
        }
        assert(frame_views(self.frames@) =~= Seq::empty());
        Ok(Reach::Found(cur))
    }
}

/// What a failed walk along a path is reported as.
pub fn unable_to_open(path: &str, e: Error) -> (r: Error)
    ensures
        r@ == between("unable to open '"@, path@, "': "@) + e@,
{
    Error::from_text(
        join(
            named_error("unable to open '", path, "': ").description(),
            e.description(),
        ),
    )
}

} // verus!
