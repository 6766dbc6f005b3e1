//! The in-memory model of a file: an arena of groups, datasets and named datatypes,
//! which links connect, with the attributes of each.

use vstd::prelude::*;

use crate::format::convert::{payloads, VlenStore};
use crate::format::datatype::{OrderTree, OrderView};
use crate::format::filters::{filter_views, FilterView, RawFilter};
use crate::format::grid;
use crate::format::vds::{mapping_views, MappingView, VdsMapping};
use crate::hl::filters::{Filter, FilterKind};
use crate::text::same_text;
use crate::types::{TypeDescriptor, TypeView};

verus! {

/// Index of an object within a [`FileState`] arena.
pub type ObjId = usize;

/// The place of a stored chunk: the first corner, the stored size, the mask of the
/// filters that were skipped, and the address.
#[derive(Debug)]
pub struct ChunkRef {
    pub offsets: Vec<u64>,
    pub size: u64,
    pub mask: u32,
    pub addr: u64,
}

/// The view of a [`ChunkRef`].
#[verifier::ext_equal]
pub struct ChunkView {
    pub offsets: Seq<u64>,
    pub size: nat,
    pub mask: u32,
    pub addr: u64,
}

impl View for ChunkRef {
    type V = ChunkView;

    open spec fn view(&self) -> ChunkView {
        ChunkView {
            offsets: self.offsets@,
            size: self.size as nat,
            mask: self.mask,
            addr: self.addr,
        }
    }
}

/// The views of chunks.
pub open spec fn chunk_views(v: Seq<ChunkRef>) -> Seq<ChunkView> {
    v.map_values(|c: ChunkRef| c@)
}

/// Where deferred bytes stand in the file.
#[derive(Debug)]
pub enum LazyKind {
    /// A run of bytes at a place of the image.
    Contiguous { offset: usize, len: usize },
    /// Chunks, which go through a filter pipeline.
    Chunked {
        chunks: Vec<ChunkRef>,
        dims: Vec<u64>,
        chunk_dims: Vec<u64>,
        elem_size: usize,
        filters: Vec<RawFilter>,
    },
}

/// The view of a [`LazyKind`].
pub enum PlaceView {
    Contiguous { offset: nat, len: nat },
    Chunked {
        chunks: Seq<ChunkView>,
        dims: Seq<u64>,
        chunk_dims: Seq<u64>,
        elem_size: nat,
        filters: Seq<FilterView>,
    },
}

impl View for LazyKind {
    type V = PlaceView;

    open spec fn view(&self) -> PlaceView {
        match *self {
            LazyKind::Contiguous { offset, len } => PlaceView::Contiguous {
                offset: offset as nat,
                len: len as nat,
            },
            LazyKind::Chunked { chunks, dims, chunk_dims, elem_size, filters } => PlaceView::Chunked {
                chunks: chunk_views(chunks@),
                dims: dims@,
                chunk_dims: chunk_dims@,
                elem_size: elem_size as nat,
                filters: filter_views(filters@),
            },
        }
    }
}

/// Deferred dataset bytes, read from the file image on first access, so that opening
/// a file does not copy every dataset.
#[derive(Debug)]
pub struct LazyData {
    /// The address that all others are relative to.
    pub base: u64,
    /// The size of the data; what the file lacks is zero.
    pub logical: usize,
    pub kind: LazyKind,
    /// The element size and the number of bits whose sign is extended, if any.
    pub extend: Option<(usize, u32)>,
    /// The element size and the byte order in which the data is stored.
    pub elem_size: usize,
    pub order: OrderTree,
}

/// The view of a [`LazyData`].
pub struct LazyView {
    pub base: u64,
    pub logical: nat,
    pub kind: PlaceView,
    pub extend: Option<(nat, nat)>,
    pub elem_size: nat,
    pub order: OrderView,
}

impl View for LazyData {
    type V = LazyView;

    open spec fn view(&self) -> LazyView {
        LazyView {
            base: self.base,
            logical: self.logical as nat,
            kind: self.kind@,
            extend: match self.extend {
                None => None,
                Some((n, p)) => Some((n as nat, p as nat)),
            },
            elem_size: self.elem_size as nat,
            order: self.order@,
        }
    }
}

/// Data-layout class of a dataset.
#[derive(Debug)]
pub enum LayoutClass {
    /// Data stored inline within the object header.
    Compact,
    /// Data stored as a single contiguous block.
    Contiguous,
    /// Data stored as chunks.
    Chunked(Vec<u64>),
    /// Data mapped from source datasets.
    Virtual(Vec<VdsMapping>),
}

/// The view of a [`LayoutClass`].
pub enum LayoutKind {
    Compact,
    Contiguous,
    Chunked(Seq<u64>),
    Virtual(Seq<MappingView>),
}

impl View for LayoutClass {
    type V = LayoutKind;

    open spec fn view(&self) -> LayoutKind {
        match *self {
            LayoutClass::Compact => LayoutKind::Compact,
            LayoutClass::Contiguous => LayoutKind::Contiguous,
            LayoutClass::Chunked(d) => LayoutKind::Chunked(d@),
            LayoutClass::Virtual(m) => LayoutKind::Virtual(mapping_views(m@)),
        }
    }
}

/// Fill-value policy for a dataset.
#[derive(Debug)]
pub enum FillValue {
    /// No fill value defined.
    Undefined,
    /// Library default (zero) fill value.
    Default,
    /// User-defined fill value (raw bytes in the dataset's datatype layout).
    UserDefined(Vec<u8>),
}

/// The view of a [`FillValue`].
pub enum FillView {
    Undefined,
    Default,
    UserDefined(Seq<u8>),
}

impl View for FillValue {
    type V = FillView;

    open spec fn view(&self) -> FillView {
        match *self {
            FillValue::Undefined => FillView::Undefined,
            FillValue::Default => FillView::Default,
            FillValue::UserDefined(v) => FillView::UserDefined(v@),
        }
    }
}

impl Clone for FillValue {
    fn clone(&self) -> (r: Self)
        ensures
            r@ == self@,
    {
        match self {
            FillValue::Undefined => FillValue::Undefined,
            FillValue::Default => FillValue::Default,
            FillValue::UserDefined(v) => FillValue::UserDefined(
                vstd::slice::slice_to_vec(v.as_slice()),
            ),
        }
    }
}

impl Default for FillValue {
    fn default() -> (r: Self)
        ensures
            r@ == FillView::Undefined,
    {
        FillValue::Undefined
    }
}

/// The target of a link in a group.
#[derive(Debug)]
pub enum LinkTarget {
    /// Hard link to an object in the same file (arena index).
    Hard(ObjId),
    /// Soft (symbolic) link to a path within the same file.
    Soft(String),
    /// External link to an object in another file.
    External { file: String, path: String },
}

/// The view of a [`LinkTarget`].
pub enum TargetView {
    Hard(nat),
    Soft(Seq<char>),
    External { file: Seq<char>, path: Seq<char> },
}

impl View for LinkTarget {
    type V = TargetView;

    open spec fn view(&self) -> TargetView {
        match *self {
            LinkTarget::Hard(id) => TargetView::Hard(id as nat),
            LinkTarget::Soft(p) => TargetView::Soft(p@),
            LinkTarget::External { file, path } => TargetView::External {
                file: file@,
                path: path@,
            },
        }
    }
}

impl Clone for LinkTarget {
    fn clone(&self) -> (r: Self)
        ensures
            r@ == self@,
    {
        match self {
            LinkTarget::Hard(id) => LinkTarget::Hard(*id),
            LinkTarget::Soft(p) => LinkTarget::Soft(p.clone()),
            LinkTarget::External { file, path } => LinkTarget::External {
                file: file.clone(),
                path: path.clone(),
            },
        }
    }
}

/// A named link within a group.
#[derive(Debug)]
pub struct Link {
    pub name: String,
    pub target: LinkTarget,
    pub creation_order: i64,
    pub utf8: bool,
}

/// The view of a [`Link`].
pub struct LinkView {
    pub name: Seq<char>,
    pub target: TargetView,
    pub creation_order: i64,
    pub utf8: bool,
}

impl View for Link {
    type V = LinkView;

    open spec fn view(&self) -> LinkView {
        LinkView {
            name: self.name@,
            target: self.target@,
            creation_order: self.creation_order,
            utf8: self.utf8,
        }
    }
}

impl Clone for Link {
    fn clone(&self) -> (r: Self)
        ensures
            r@ == self@,
    {
        Link {
            name: self.name.clone(),
            target: self.target.clone(),
            creation_order: self.creation_order,
            utf8: self.utf8,
        }
    }
}

/// The views of links.
pub open spec fn link_views(v: Seq<Link>) -> Seq<LinkView> {
    v.map_values(|l: Link| l@)
}

/// The number of the first link with a name.
pub open spec fn link_at(links: Seq<LinkView>, name: Seq<char>) -> Option<nat>
    decreases links.len(),
{
    if links.len() == 0 {
        None
    } else if links[0].name == name {
        Some(0)
    } else {
        match link_at(links.skip(1), name) {
            None => None,
            Some(i) => Some(i + 1),
        }
    }
}

/// A group's contents.
#[derive(Debug)]
pub struct GroupData {
    pub links: Vec<Link>,
    pub track_order: bool,
}

/// The view of a [`GroupData`].
#[verifier::ext_equal]
pub struct GroupView {
    pub links: Seq<LinkView>,
    pub track_order: bool,
}

impl View for GroupData {
    type V = GroupView;

    open spec fn view(&self) -> GroupView {
        GroupView { links: link_views(self.links@), track_order: self.track_order }
    }
}

impl Default for GroupData {
    fn default() -> (r: Self)
        ensures
            r@ == empty_group(),
    {
        let r = GroupData { links: Vec::new(), track_order: false };
        assert(r@ =~= empty_group());
        r
    }
}

/// A group without links.
pub open spec fn empty_group() -> GroupView {
    GroupView { links: Seq::empty(), track_order: false }
}

/// The first link with a name is where its number says, and no earlier link has the
/// name.
pub proof fn law_link_at(links: Seq<LinkView>, name: Seq<char>)
    ensures
        match link_at(links, name) {
            Some(i) => i < links.len() && links[i as int].name == name && forall|j: int|
                0 <= j < i ==> (#[trigger] links[j]).name != name,
            None => forall|j: int| 0 <= j < links.len() ==> (#[trigger] links[j]).name != name,
        },
    decreases links.len(),
{
    if links.len() > 0 && links[0].name != name {
        law_link_at(links.skip(1), name);
        let rest = links.skip(1);
        match link_at(links, name) {
            Some(i) => {
                assert forall|j: int| 0 <= j < i implies (#[trigger] links[j]).name != name by {
                    if j > 0 {
                        assert(rest[j - 1] == links[j]);
                    }
                }
            },
            None => {
                assert forall|j: int| 0 <= j < links.len() implies (#[trigger] links[j]).name
                    != name by {
                    if j > 0 {
                        assert(rest[j - 1] == links[j]);
                    }
                }
            },
        }
    }
}

impl GroupData {
    /// The first link with a name.
    pub fn find(&self, name: &str) -> (r: Option<&Link>)
        ensures
            match (r, link_at(self@.links, name@)) {
                (Some(l), Some(i)) => l@ == self@.links[i as int],
                (None, None) => true,
                _ => false,
            },
    {
        proof {
            law_link_at(self@.links, name@);
        }
        match self.find_index(name) {
            Some(i) => Some(&self.links[i]),
            None => None,
        }
    }

    /// The number of the first link with a name.
    pub fn find_index(&self, name: &str) -> (r: Option<usize>)
        ensures
            match (r, link_at(self@.links, name@)) {
                (Some(i), Some(j)) => i == j && i < self.links@.len(),
                (None, None) => true,
                _ => false,
            },
    {
        let ghost views = self@.links;
        let n: usize = self.links.len();
        let mut i: usize = 0;
        proof {
            law_link_at(views, name@);
        }
        while i < n
            invariant
                i <= n == self.links@.len(),
                views == link_views(self.links@),
                forall|j: int| 0 <= j < i ==> (#[trigger] views[j]).name != name@,
                match link_at(views, name@) {
                    Some(k) => k < views.len() && views[k as int].name == name@ && forall|j: int|
                        0 <= j < k ==> (#[trigger] views[j]).name != name@,
                    None => forall|j: int|
                        0 <= j < views.len() ==> (#[trigger] views[j]).name != name@,
                },
            decreases n - i,
        {
            assert(views[i as int] == self.links@[i as int]@);
            if same_text(&self.links[i].name, name) {
                return Some(i);
            }
            i += 1;
        }
        None
    }
}

/// The views of filters.
pub open spec fn filter_kinds(v: Seq<Filter>) -> Seq<FilterKind> {
    v.map_values(|f: Filter| f@)
}

/// A dataset's metadata and data.
#[derive(Debug)]
pub struct DatasetData {
    /// Datatype in disk representation.
    pub dtype: TypeDescriptor,
    pub dims: Vec<u64>,
    pub maxdims: Vec<Option<u64>>,
    pub layout: LayoutClass,
    pub filters: Vec<Filter>,
    pub fill: FillValue,
    /// Element bytes in the layout of the disk datatype, row by row. Variable-length
    /// components are slots that refer to `vlen`.
    pub data: Vec<u8>,
    /// Variable-length payloads, numbered from 1.
    pub vlen: VlenStore,
    /// Present while the data has not been copied out of the file image.
    pub lazy: Option<LazyData>,
    pub is_scalar: bool,
    pub is_null: bool,
}

/// The view of a [`DatasetData`].
#[verifier::ext_equal]
pub struct DatasetView {
    pub dtype: TypeView,
    pub dims: Seq<u64>,
    pub maxdims: Seq<Option<u64>>,
    pub layout: LayoutKind,
    pub filters: Seq<FilterKind>,
    pub fill: FillView,
    pub data: Seq<u8>,
    pub vlen: Seq<Seq<u8>>,
    pub lazy: Option<LazyView>,
    pub is_scalar: bool,
    pub is_null: bool,
}

/// The view of deferred data.
pub open spec fn lazy_view(l: Option<LazyData>) -> Option<LazyView> {
    match l {
        None => None,
        Some(l) => Some(l@),
    }
}

impl View for DatasetData {
    type V = DatasetView;

    open spec fn view(&self) -> DatasetView {
        DatasetView {
            dtype: self.dtype@,
            dims: self.dims@,
            maxdims: self.maxdims@,
            layout: self.layout@,
            filters: filter_kinds(self.filters@),
            fill: self.fill@,
            data: self.data@,
            vlen: payloads(self.vlen@),
            lazy: lazy_view(self.lazy),
            is_scalar: self.is_scalar,
            is_null: self.is_null,
        }
    }
}

/// The number of elements of a dataspace.
pub open spec fn elements(is_null: bool, is_scalar: bool, dims: Seq<u64>) -> nat {
    if is_null {
        0
    } else if is_scalar {
        1
    } else {
        grid::count(dims)
    }
}

/// The number of elements of a dataspace, where it can be counted.
pub fn count_elements(is_null: bool, is_scalar: bool, dims: &[u64]) -> (r: Option<u64>)
    ensures
        match r {
            Some(n) => n == elements(is_null, is_scalar, dims@),
            None => true,
        },
        r is None <==> !is_null && !is_scalar && !grid::countable(dims@),
{
    if is_null {
        Some(0)
    } else if is_scalar {
        Some(1)
    } else {
        grid::counted(dims)
    }
}

/// An attribute attached to an object.
#[derive(Debug)]
pub struct AttrData {
    pub name: String,
    /// Datatype in disk representation.
    pub dtype: TypeDescriptor,
    pub dims: Vec<u64>,
    pub is_scalar: bool,
    pub is_null: bool,
    /// Element bytes in the layout of the disk datatype, row by row.
    pub data: Vec<u8>,
    /// Variable-length payloads, numbered from 1.
    pub vlen: VlenStore,
}

/// The view of an [`AttrData`].
#[verifier::ext_equal]
pub struct AttrView {
    pub name: Seq<char>,
    pub dtype: TypeView,
    pub dims: Seq<u64>,
    pub is_scalar: bool,
    pub is_null: bool,
    pub data: Seq<u8>,
    pub vlen: Seq<Seq<u8>>,
}

impl View for AttrData {
    type V = AttrView;

    open spec fn view(&self) -> AttrView {
        AttrView {
            name: self.name@,
            dtype: self.dtype@,
            dims: self.dims@,
            is_scalar: self.is_scalar,
            is_null: self.is_null,
            data: self.data@,
            vlen: payloads(self.vlen@),
        }
    }
}

/// The views of attributes.
pub open spec fn attr_views(v: Seq<AttrData>) -> Seq<AttrView> {
    v.map_values(|a: AttrData| a@)
}

/// The kind of an object stored in the arena.
#[derive(Debug)]
pub enum ObjectKind {
    Group(GroupData),
    Dataset(DatasetData),
    NamedType(TypeDescriptor),
    /// An object of the file that could not be read, with the reason.
    Unsupported(String),
}

/// The view of an [`ObjectKind`].
pub enum KindView {
    Group(GroupView),
    Dataset(DatasetView),
    NamedType(TypeView),
    Unsupported(Seq<char>),
}

impl View for ObjectKind {
    type V = KindView;

    open spec fn view(&self) -> KindView {
        match *self {
            ObjectKind::Group(g) => KindView::Group(g@),
            ObjectKind::Dataset(d) => KindView::Dataset(d@),
            ObjectKind::NamedType(t) => KindView::NamedType(t@),
            ObjectKind::Unsupported(e) => KindView::Unsupported(e@),
        }
    }
}

/// A single object in the arena, with its attributes.
#[derive(Debug)]
pub struct ObjectNode {
    pub kind: ObjectKind,
    pub attrs: Vec<AttrData>,
    pub comment: Option<String>,
    /// Number of hard links that refer to this object.
    pub refcount: u32,
    /// Modification time in seconds since the epoch; 0 where it is not set.
    pub mtime: u32,
}

/// The view of an [`ObjectNode`].
#[verifier::ext_equal]
pub struct NodeView {
    pub kind: KindView,
    pub attrs: Seq<AttrView>,
    pub comment: Option<Seq<char>>,
    pub refcount: u32,
    pub mtime: u32,
}

/// The view of an optional text.
pub open spec fn text_view(t: Option<String>) -> Option<Seq<char>> {
    match t {
        None => None,
        Some(s) => Some(s@),
    }
}

impl View for ObjectNode {
    type V = NodeView;

    open spec fn view(&self) -> NodeView {
        NodeView {
            kind: self.kind@,
            attrs: attr_views(self.attrs@),
            comment: text_view(self.comment),
            refcount: self.refcount,
            mtime: self.mtime,
        }
    }
}

/// An object of some kind without attributes.
pub open spec fn bare_node(kind: KindView) -> NodeView {
    NodeView { kind, attrs: Seq::empty(), comment: None, refcount: 0, mtime: 0 }
}

/// The number of the first attribute with a name.
pub open spec fn attr_at(attrs: Seq<AttrView>, name: Seq<char>) -> Option<nat>
    decreases attrs.len(),
{
    if attrs.len() == 0 {
        None
    } else if attrs[0].name == name {
        Some(0)
    } else {
        match attr_at(attrs.skip(1), name) {
            None => None,
            Some(i) => Some(i + 1),
        }
    }
}

impl ObjectNode {
    pub fn new(kind: ObjectKind) -> (r: Self)
        ensures
            r@ == bare_node(kind@),
    {
        let r = ObjectNode { kind, attrs: Vec::new(), comment: None, refcount: 0, mtime: 0 };
        assert(r@ =~= bare_node(kind@));
        r
    }

    /// The number of the first attribute with a name.
    pub fn attr_index(&self, name: &str) -> (r: Option<usize>)
        ensures
            match (r, attr_at(self@.attrs, name@)) {
                (Some(i), Some(j)) => i == j && i < self.attrs@.len(),
                (None, None) => true,
                _ => false,
            },
    {
        let ghost views = self@.attrs;
        let n: usize = self.attrs.len();
        let mut i: usize = 0;
        assert(views.skip(0) =~= views);
        while i < n
            invariant
                i <= n == self.attrs@.len(),
                views == attr_views(self.attrs@),
                match attr_at(views, name@) {
                    None => attr_at(views.skip(i as int), name@) is None,
                    Some(j) => attr_at(views.skip(i as int), name@) == Some((j - i) as nat) && j
                        >= i,
                },
            decreases n - i,
        {
            assert(views.skip(i as int)[0] == self.attrs@[i as int]@);
            assert(views.skip(i as int).skip(1) =~= views.skip(i + 1));
            if same_text(&self.attrs[i].name, name) {
                return Some(i);
            }
            i += 1;
        }
        None
    }
}

/// The state of an open file: the arena and what belongs to the file as a whole.
#[derive(Debug)]
pub struct FileState {
    pub objects: Vec<Option<ObjectNode>>,
    pub root: ObjId,
    pub userblock: u64,
    /// Content of the user block; empty where it is zero.
    pub userblock_data: Vec<u8>,
    pub read_only: bool,
    pub next_creation_order: i64,
    /// The shared-message indexes: message types and the smallest shared size.
    pub sohm: Vec<(u16, u32)>,
}

/// The view of a [`FileState`].
#[verifier::ext_equal]
pub struct FileView {
    pub objects: Seq<Option<NodeView>>,
    pub root: nat,
    pub userblock: u64,
    pub userblock_data: Seq<u8>,
    pub read_only: bool,
    pub next_creation_order: i64,
    pub sohm: Seq<(u16, u32)>,
}

/// The view of a place in the arena.
pub open spec fn node_view(n: Option<ObjectNode>) -> Option<NodeView> {
    match n {
        None => None,
        Some(n) => Some(n@),
    }
}

/// The views of the places of an arena.
pub open spec fn node_views(v: Seq<Option<ObjectNode>>) -> Seq<Option<NodeView>> {
    v.map_values(|n: Option<ObjectNode>| node_view(n))
}

impl View for FileState {
    type V = FileView;

    open spec fn view(&self) -> FileView {
        FileView {
            objects: node_views(self.objects@),
            root: self.root as nat,
            userblock: self.userblock,
            userblock_data: self.userblock_data@,
            read_only: self.read_only,
            next_creation_order: self.next_creation_order,
            sohm: self.sohm@,
        }
    }
}

impl FileView {
    /// The object with a number, if it is there.
    pub open spec fn object(self, id: nat) -> Option<NodeView> {
        if id < self.objects.len() {
            self.objects[id as int]
        } else {
            None
        }
    }

    /// The group with a number, if it is one.
    pub open spec fn group(self, id: nat) -> Option<GroupView> {
        match self.object(id) {
            Some(n) => match n.kind {
                KindView::Group(g) => Some(g),
                _ => None,
            },
            None => None,
        }
    }

    /// The dataset with a number, if it is one.
    pub open spec fn dataset(self, id: nat) -> Option<DatasetView> {
        match self.object(id) {
            Some(n) => match n.kind {
                KindView::Dataset(d) => Some(d),
                _ => None,
            },
            None => None,
        }
    }

    /// The root is an object of the arena.
    pub open spec fn rooted(self) -> bool {
        self.object(self.root) is Some
    }
}

/// A new file: an empty root group, to which the file refers.
pub open spec fn new_file() -> FileView {
    FileView {
        objects: seq![
            Some(
                NodeView { refcount: 1, ..bare_node(KindView::Group(empty_group())) },
            ),
        ],
        root: 0,
        userblock: 0,
        userblock_data: Seq::empty(),
        read_only: false,
        next_creation_order: 0,
        sohm: Seq::empty(),
    }
}

impl FileState {
    /// A file with an empty root group.
    pub fn new_empty() -> (r: Self)
        ensures
            r@ == new_file(),
    {
        let mut root = ObjectNode::new(ObjectKind::Group(GroupData::default()));
        root.refcount = 1;
        let mut objects: Vec<Option<ObjectNode>> = Vec::new();
        objects.push(Some(root));
        let r = FileState {
            objects,
            root: 0,
            userblock: 0,
            userblock_data: Vec::new(),
            read_only: false,
            next_creation_order: 0,
            sohm: Vec::new(),
        };
        assert(r@.objects =~= new_file().objects);
        assert(r@ =~= new_file());
        r
    }

    pub fn get(&self, id: ObjId) -> (r: &ObjectNode)
        requires
            self@.object(id as nat) is Some,
        ensures
            Some(r@) == self@.object(id as nat),
    {
        self.objects[id].as_ref().unwrap()
    }

    pub fn get_mut(&mut self, id: ObjId) -> (r: &mut ObjectNode)
        requires
            old(self)@.object(id as nat) is Some,
        ensures
            Some(r@) == old(self)@.object(id as nat),
            final(self)@ == (FileView {
                objects: old(self)@.objects.update(id as int, Some(final(r)@)),
                ..old(self)@
            }),
    {
        self.objects[id].as_mut().unwrap()
    }

    pub fn try_get(&self, id: ObjId) -> (r: Option<&ObjectNode>)
        ensures
            match r {
                Some(n) => self@.object(id as nat) == Some(n@),
                None => self@.object(id as nat) is None,
            },
    {
        if id < self.objects.len() {
            self.objects[id].as_ref()
        } else {
            None
        }
    }
}

impl FileState {
    /// Adds an object to the arena.
    pub fn allocate(&mut self, kind: ObjectKind) -> (r: ObjId)
        ensures
            r == old(self)@.objects.len(),
            final(self)@ == (FileView {
                objects: old(self)@.objects.push(Some(bare_node(kind@))),
                ..old(self)@
            }),
    {
        let id: usize = self.objects.len();
        self.objects.push(Some(ObjectNode::new(kind)));
        assert(self@.objects =~= old(self)@.objects.push(Some(bare_node(kind@))));
        id
    }

    /// The next number of the creation order.
    pub fn next_order(&mut self) -> (r: i64)
        requires
            old(self)@.next_creation_order < i64::MAX,
        ensures
            r == old(self)@.next_creation_order,
            final(self)@ == (FileView {
                next_creation_order: (old(self)@.next_creation_order + 1) as i64,
                ..old(self)@
            }),
    {
        let n: i64 = self.next_creation_order;
        self.next_creation_order = n + 1;
        n
    }

    pub fn is_group(&self, id: ObjId) -> (r: bool)
        ensures
            r == (self@.group(id as nat) is Some),
    {
        self.group_data(id).is_some()
    }

    pub fn is_dataset(&self, id: ObjId) -> (r: bool)
        ensures
            r == (self@.dataset(id as nat) is Some),
    {
        self.dataset_data(id).is_some()
    }

    pub fn group_data(&self, id: ObjId) -> (r: Option<&GroupData>)
        ensures
            match r {
                Some(g) => self@.group(id as nat) == Some(g@),
                None => self@.group(id as nat) is None,
            },
    {
        match self.try_get(id) {
            None => None,
            Some(n) => match &n.kind {
                ObjectKind::Group(g) => Some(g),
                _ => None,
            },
        }
    }

    pub fn dataset_data(&self, id: ObjId) -> (r: Option<&DatasetData>)
        ensures
            match r {
                Some(d) => self@.dataset(id as nat) == Some(d@),
                None => self@.dataset(id as nat) is None,
            },
    {
        match self.try_get(id) {
            None => None,
            Some(n) => match &n.kind {
                ObjectKind::Dataset(d) => Some(d),
                _ => None,
            },
        }
    }
}

// Paths.

/// The place of the first slash from `i` on, or the end.
pub open spec fn slash_at(s: Seq<char>, i: int) -> int
    decreases s.len() - i,
{
    if i < 0 || i >= s.len() {
        s.len() as int
    } else if s[i] == '/' {
        i
    } else {
        slash_at(s, i + 1)
    }
}

proof fn lemma_slash_at(s: Seq<char>, i: int)
    requires
        0 <= i <= s.len(),
    ensures
        i <= slash_at(s, i) <= s.len(),
    decreases s.len() - i,
{
    if i < s.len() && s[i] != '/' {
        lemma_slash_at(s, i + 1);
    }
}

/// Whether a part of a path names something.
pub open spec fn names(part: Seq<char>) -> bool {
    part.len() > 0 && part != seq!['.']
}

/// The parts of a path from `i` on: what stands between slashes and names something.
pub open spec fn components(s: Seq<char>, i: int) -> Seq<Seq<char>>
    decreases s.len() + 1 - i,
    when 0 <= i
    via components_shrink
{
    if i >= s.len() {
        Seq::empty()
    } else {
        let k = slash_at(s, i);
        let head = s.subrange(i, k);
        let rest = components(s, k + 1);
        if names(head) {
            seq![head] + rest
        } else {
            rest
        }
    }
}

#[via_fn]
proof fn components_shrink(s: Seq<char>, i: int) {
    if 0 <= i < s.len() {
        lemma_slash_at(s, i);
    }
}

/// The views of texts.
pub open spec fn texts(v: Seq<String>) -> Seq<Seq<char>> {
    v.map_values(|t: String| t@)
}

/// The number of links in an arena.
pub open spec fn link_total(objects: Seq<Option<NodeView>>) -> nat
    decreases objects.len(),
{
    if objects.len() == 0 {
        0
    } else {
        link_total(objects.drop_last()) + match objects.last() {
            Some(n) => match n.kind {
                KindView::Group(g) => g.links.len(),
                _ => 0,
            },
            None => 0,
        }
    }
}

/// The object that the parts of a path from `i` on lead to. Soft links lead on from
/// the root; at most `depth` of them are open at a time.
pub open spec fn followed(f: FileView, cur: nat, parts: Seq<Seq<char>>, i: int, depth: nat) -> Option<
    nat,
>
    decreases depth, parts.len() - i,
{
    if i < 0 || i >= parts.len() {
        Some(cur)
    } else {
        match f.group(cur) {
            None => None,
            Some(g) => match link_at(g.links, parts[i]) {
                None => None,
                Some(k) => match g.links[k as int].target {
                    TargetView::Hard(id) => followed(f, id, parts, i + 1, depth),
                    TargetView::Soft(path) => if depth == 0 {
                        None
                    } else {
                        match followed(f, f.root, components(path, 0), 0, (depth - 1) as nat) {
                            None => None,
                            Some(id) => followed(f, id, parts, i + 1, depth),
                        }
                    },
                    TargetView::External { file, path } => None,
                },
            },
        }
    }
}

/// How many soft links may be open at a time: as many as there are links, as far as
/// that can be counted.
pub open spec fn nesting(objects: Seq<Option<NodeView>>) -> nat {
    if link_total(objects) > usize::MAX {
        usize::MAX as nat
    } else {
        link_total(objects)
    }
}

/// The object that a path leads to from `start`. Paths that begin with a slash start
/// at the root. A chain of soft links that is longer than the number of links of the
/// file goes round in a circle and leads nowhere.
pub open spec fn resolved(f: FileView, start: nat, path: Seq<char>) -> Option<nat> {
    followed(
        f,
        if path.len() > 0 && path[0] == '/' {
            f.root
        } else {
            start
        },
        components(path, 0),
        0,
        nesting(f.objects),
    )
}

/// Splits a path into its parts.
pub fn split_path(path: &str) -> (r: Vec<String>)
    ensures
        texts(r@) == components(path@, 0),
{
    let n: usize = path.unicode_len();
    let mut out: Vec<String> = Vec::new();
    let mut i: usize = 0;
    let ghost whole = components(path@, 0);
    assert(texts(out@) + whole =~= whole);
    proof {
        reveal_strlit(".");
    }
    while i < n
        invariant
            n == path@.len(),
            whole == components(path@, 0),
            texts(out@) + components(path@, i as int) == whole,
            i < n || components(path@, i as int) =~= Seq::<Seq<char>>::empty(),
            "."@ == seq!['.'],
        decreases n - i,
    {
        let mut k: usize = i;
        while k < n && path.get_char(k) != '/'
            invariant
                i <= k <= n == path@.len(),
                slash_at(path@, i as int) == slash_at(path@, k as int),
            decreases n - k,
        {
            k += 1;
        }
        proof {
            lemma_slash_at(path@, i as int);
        }
        let part = path.substring_char(i, k);
        let text = String::from_str(part);
        let ghost before = out@;
        let ghost rest = components(path@, k + 1);
        if k > i && !same_text(&text, ".") {
            assert(names(part@));
            out.push(text);
            assert(texts(out@) + rest =~= texts(before) + (seq![part@] + rest));
        }
        if k == n {
            assert(rest =~= Seq::<Seq<char>>::empty());
            assert(texts(out@) + rest =~= texts(out@));
            return out;
        }
        i = k + 1;
    }
    assert(texts(out@) + Seq::<Seq<char>>::empty() =~= texts(out@));
    out
}

/// Whether a lookup came out as `s` says.
pub open spec fn found_as(r: Option<usize>, s: Option<nat>) -> bool {
    match (r, s) {
        (Some(a), Some(b)) => a == b,
        (None, None) => true,
        _ => false,
    }
}

impl FileState {
    fn count_links(&self) -> (r: usize)
        ensures
            r == nesting(self@.objects),
    {
        let ghost views = self@.objects;
        let mut total: usize = 0;
        let n: usize = self.objects.len();
        let mut i: usize = 0;
        assert(views.take(0) =~= Seq::empty());
        while i < n
            invariant
                i <= n == self.objects@.len(),
                views == node_views(self.objects@),
                total == nesting(views.take(i as int)),
            decreases n - i,
        {
            assert(views.take(i + 1).drop_last() =~= views.take(i as int));
            assert(views[i as int] == node_view(self.objects@[i as int]));
            let more: usize = match &self.objects[i] {
                Some(node) => match &node.kind {
                    ObjectKind::Group(g) => {
                        assert(g@.links.len() == g.links@.len());
                        g.links.len()
                    },
                    _ => 0,
                },
                None => 0,
            };
            assert(link_total(views.take(i + 1)) == link_total(views.take(i as int)) + more);
            total = total.saturating_add(more);
            i += 1;
        }
        assert(views.take(n as int) =~= views);
        total
    }

    fn follow(&self, start: ObjId, parts: &Vec<String>, depth: usize) -> (r: Option<ObjId>)
        ensures
            found_as(r, followed(self@, start as nat, texts(parts@), 0, depth as nat)),
        decreases depth,
    {
        let ghost names = texts(parts@);
        let n: usize = parts.len();
        let mut cur: ObjId = start;
        let mut i: usize = 0;
        while i < n
            invariant
                i <= n == parts@.len(),
                names == texts(parts@),
                followed(self@, start as nat, names, 0, depth as nat) == followed(
                    self@,
                    cur as nat,
                    names,
                    i as int,
                    depth as nat,
                ),
            decreases n - i,
        {
            let ghost f = self@;
            assert(names[i as int] == parts@[i as int]@);
            let group = match self.group_data(cur) {
                None => {
                    return None;
                },
                Some(g) => g,
            };
            let link = match group.find(parts[i].as_str()) {
                None => {
                    return None;
                },
                Some(l) => l,
            };
            match &link.target {
                LinkTarget::Hard(id) => {
                    cur = *id;
                },
                LinkTarget::Soft(path) => {
                    if depth == 0 {
                        return None;
                    }
                    let inner = split_path(path.as_str());
                    match self.follow(self.root, &inner, depth - 1) {
                        None => {
                            return None;
                        },
                        Some(id) => {
                            cur = id;
                        },
                    }
                },
                LinkTarget::External { file: _, path: _ } => {
                    return None;
                },
            }
            i += 1;
        }
        Some(cur)
    }

    /// The object that a path leads to from `start`. Hard and soft links are followed,
    /// external links are not.
    pub fn resolve(&self, start: ObjId, path: &str) -> (r: Option<ObjId>)
        ensures
            found_as(r, resolved(self@, start as nat, path@)),
    {
        let from: ObjId = if path.unicode_len() > 0 && path.get_char(0) == '/' {
            self.root
        } else {
            start
        };
        let parts = split_path(path);
        self.follow(from, &parts, self.count_links())
    }
}

// Reference counts.

/// The number of hard links to an object among some links.
pub open spec fn links_to(links: Seq<LinkView>, id: nat) -> nat
    decreases links.len(),
{
    if links.len() == 0 {
        0
    } else {
        links_to(links.drop_last(), id) + if links.last().target == TargetView::Hard(id) {
            1nat
        } else {
            0nat
        }
    }
}

/// The number of hard links to an object in an arena.
pub open spec fn hard_links(objects: Seq<Option<NodeView>>, id: nat) -> nat
    decreases objects.len(),
{
    if objects.len() == 0 {
        0
    } else {
        hard_links(objects.drop_last(), id) + match objects.last() {
            Some(n) => match n.kind {
                KindView::Group(g) => links_to(g.links, id),
                _ => 0,
            },
            None => 0,
        }
    }
}

/// A count as far as it can be stored.
pub open spec fn capped(n: nat) -> u32 {
    if n > u32::MAX {
        u32::MAX
    } else {
        n as u32
    }
}

/// How often an object is referred to: by the file, where it is the root, and by
/// links.
pub open spec fn references(f: FileView, id: nat) -> nat {
    hard_links(f.objects, id) + if id == f.root {
        1nat
    } else {
        0nat
    }
}

/// A file whose objects know how often they are referred to.
pub open spec fn recounted(f: FileView) -> FileView {
    FileView {
        objects: Seq::new(
            f.objects.len(),
            |i: int|
                match f.objects[i] {
                    Some(n) => Some(NodeView { refcount: capped(references(f, i as nat)), ..n }),
                    None => None,
                },
        ),
        ..f
    }
}

fn count_group(counts: &mut Vec<u32>, g: &GroupData, Ghost(base): Ghost<Seq<nat>>)
    requires
        base.len() == old(counts)@.len(),
        forall|k: int| 0 <= k < base.len() ==> #[trigger] old(counts)@[k] == capped(base[k]),
    ensures
        final(counts)@.len() == old(counts)@.len(),
        forall|k: int|
            0 <= k < base.len() ==> #[trigger] final(counts)@[k] == capped(
                base[k] + links_to(g@.links, k as nat),
            ),
{
    let ghost views = g@.links;
    let n: usize = g.links.len();
    let mut i: usize = 0;
    assert(views.take(0) =~= Seq::empty());
    while i < n
        invariant
            i <= n == g.links@.len(),
            views == link_views(g.links@),
            counts@.len() == base.len(),
            forall|k: int|
                0 <= k < base.len() ==> #[trigger] counts@[k] == capped(
                    base[k] + links_to(views.take(i as int), k as nat),
                ),
        decreases n - i,
    {
        let ghost before = counts@;
        assert(views.take(i + 1).drop_last() =~= views.take(i as int));
        assert(views[i as int] == g.links@[i as int]@);
        if let LinkTarget::Hard(id) = g.links[i].target {
            if id < counts.len() {
                let c: u32 = counts[id];
                counts.set(id, c.saturating_add(1));
            }
        }
        i += 1;
    }
    assert(views.take(n as int) =~= views);
}

impl FileState {
    /// Counts the references to every object anew.
    pub fn recount(&mut self)
        ensures
            final(self)@ == recounted(old(self)@),
    {
        let ghost f = self@;
        let n: usize = self.objects.len();
        let mut counts: Vec<u32> = Vec::new();
        let mut i: usize = 0;
        while i < n
            invariant
                i <= n,
                counts@.len() == i,
                forall|k: int|
                    0 <= k < i ==> #[trigger] counts@[k] == (if k == self.root {
                        1u32
                    } else {
                        0u32
                    }),
            decreases n - i,
        {
            counts.push(
                if i == self.root {
                    1
                } else {
                    0
                },
            );
            i += 1;
        }
        i = 0;
        let ghost extra = |k: int|
            if k == f.root {
                1nat
            } else {
                0nat
            };
        assert(f.objects.take(0) =~= Seq::empty());
        while i < n
            invariant
                i <= n == self.objects@.len(),
                self@ == f,
                counts@.len() == n,
                extra == (|k: int|
                    if k == f.root {
                        1nat
                    } else {
                        0nat
                    }),
                forall|k: int|
                    0 <= k < n ==> #[trigger] counts@[k] == capped(
                        hard_links(f.objects.take(i as int), k as nat) + extra(k),
                    ),
            decreases n - i,
        {
            assert(f.objects.take(i + 1).drop_last() =~= f.objects.take(i as int));
            assert(f.objects[i as int] == node_view(self.objects@[i as int]));
            let ghost base = Seq::new(
                n as nat,
                |k: int| hard_links(f.objects.take(i as int), k as nat) + extra(k),
            );
            if let Some(node) = &self.objects[i] {
                if let ObjectKind::Group(g) = &node.kind {
                    count_group(&mut counts, g, Ghost(base));
                }
            }
            assert forall|k: int| 0 <= k < n implies #[trigger] counts@[k] == capped(
                hard_links(f.objects.take(i + 1), k as nat) + extra(k),
            ) by {
                assert(base[k] == hard_links(f.objects.take(i as int), k as nat) + extra(k));
            }
            i += 1;
        }
        assert(f.objects.take(n as int) =~= f.objects);
        i = 0;
        while i < n
            invariant
                i <= n == self.objects@.len() == f.objects.len(),
                self.root == f.root,
                self@ == (FileView { objects: self@.objects, ..f }),
                counts@.len() == n,
                forall|k: int|
                    0 <= k < n ==> #[trigger] counts@[k] == capped(references(f, k as nat)),
                forall|k: int|
                    0 <= k < n ==> #[trigger] self@.objects[k] == (if k < i {
                        recounted(f).objects[k]
                    } else {
                        f.objects[k]
                    }),
            decreases n - i,
        {
            let ghost before = self@.objects;
            assert(before[i as int] == f.objects[i as int]);
            if self.objects[i].is_some() {
                let node = self.get_mut(i);
                node.refcount = counts[i];
            }
            assert(self@.objects.len() == self.objects@.len());
            assert forall|k: int| 0 <= k < n implies #[trigger] self@.objects[k] == (if k < i + 1 {
                recounted(f).objects[k]
            } else {
                f.objects[k]
            }) by {
                if k != i {
                    assert(self@.objects[k] == before[k]);
                }
            }
            i += 1;
        }
        assert(self@.objects =~= recounted(f).objects);
    }
}

// Paths to objects.

/// What a scan of the links of a group gives: a path to the target, or the groups to
/// visit later and those that were met.
pub struct ScanView {
    pub found: Option<Seq<char>>,
    pub queue: Seq<(nat, Seq<char>)>,
    pub seen: Set<nat>,
}

/// The scan of the links from `i` on of a group with the path `prefix`.
pub open spec fn scanned(
    f: FileView,
    target: nat,
    links: Seq<LinkView>,
    i: int,
    prefix: Seq<char>,
    queue: Seq<(nat, Seq<char>)>,
    seen: Set<nat>,
) -> ScanView
    decreases links.len() - i,
{
    if i < 0 || i >= links.len() {
        ScanView { found: None, queue, seen }
    } else {
        match links[i].target {
            TargetView::Hard(id) => {
                let path = prefix + "/"@ + links[i].name;
                if id == target {
                    ScanView { found: Some(path), queue, seen }
                } else if f.group(id) is Some && !seen.contains(id) {
                    scanned(
                        f,
                        target,
                        links,
                        i + 1,
                        prefix,
                        queue.push((id, path)),
                        seen.insert(id),
                    )
                } else {
                    scanned(f, target, links, i + 1, prefix, queue, seen)
                }
            },
            _ => scanned(f, target, links, i + 1, prefix, queue, seen),
        }
    }
}

/// The number of objects before `n` that were not met.
pub open spec fn unseen(seen: Set<nat>, n: nat) -> nat
    decreases n,
{
    if n == 0 {
        0
    } else {
        unseen(seen, (n - 1) as nat) + if seen.contains((n - 1) as nat) {
            0nat
        } else {
            1nat
        }
    }
}

proof fn lemma_unseen_insert(seen: Set<nat>, n: nat, id: nat)
    requires
        !seen.contains(id),
    ensures
        id < n ==> unseen(seen.insert(id), n) + 1 == unseen(seen, n),
        id >= n ==> unseen(seen.insert(id), n) == unseen(seen, n),
    decreases n,
{
    if n > 0 {
        lemma_unseen_insert(seen, (n - 1) as nat, id);
    }
}

pub(crate) proof fn lemma_scan_measure(
    f: FileView,
    target: nat,
    links: Seq<LinkView>,
    i: int,
    prefix: Seq<char>,
    queue: Seq<(nat, Seq<char>)>,
    seen: Set<nat>,
)
    ensures
        ({
            let s = scanned(f, target, links, i, prefix, queue, seen);
            let n = f.objects.len();
            2 * unseen(s.seen, n) + s.queue.len() <= 2 * unseen(seen, n) + queue.len()
        }),
    decreases links.len() - i,
{
    if 0 <= i < links.len() {
        match links[i].target {
            TargetView::Hard(id) => {
                let path = prefix + "/"@ + links[i].name;
                if id == target {
                } else if f.group(id) is Some && !seen.contains(id) {
                    lemma_unseen_insert(seen, f.objects.len(), id);
                    lemma_scan_measure(
                        f,
                        target,
                        links,
                        i + 1,
                        prefix,
                        queue.push((id, path)),
                        seen.insert(id),
                    );
                } else {
                    lemma_scan_measure(f, target, links, i + 1, prefix, queue, seen);
                }
            },
            _ => {
                lemma_scan_measure(f, target, links, i + 1, prefix, queue, seen);
            },
        }
    }
}

/// The path to an object that a search level by level finds first, with the groups of
/// `queue` still to be visited.
pub open spec fn searched(
    f: FileView,
    target: nat,
    queue: Seq<(nat, Seq<char>)>,
    seen: Set<nat>,
) -> Option<Seq<char>>
    decreases 2 * unseen(seen, f.objects.len()) + queue.len(),
    via searched_shrinks
{
    if queue.len() == 0 {
        None
    } else {
        let (cur, prefix) = queue[0];
        let rest = queue.skip(1);
        match f.group(cur) {
            None => searched(f, target, rest, seen),
            Some(g) => {
                let s = scanned(f, target, g.links, 0, prefix, rest, seen);
                match s.found {
                    Some(p) => Some(p),
                    None => searched(f, target, s.queue, s.seen),
                }
            },
        }
    }
}

#[via_fn]
proof fn searched_shrinks(
    f: FileView,
    target: nat,
    queue: Seq<(nat, Seq<char>)>,
    seen: Set<nat>,
) {
    if queue.len() > 0 {
        let (cur, prefix) = queue[0];
        match f.group(cur) {
            None => {},
            Some(g) => {
                lemma_scan_measure(f, target, g.links, 0, prefix, queue.skip(1), seen);
            },
        }
    }
}

/// A path from the root to an object: `/` for the root itself, else the one that a
/// search level by level finds first.
pub open spec fn path_to(f: FileView, target: nat) -> Option<Seq<char>> {
    if target == f.root {
        Some("/"@)
    } else {
        searched(f, target, seq![(f.root, Seq::empty())], set![f.root])
    }
}

/// The views of the groups to visit.
pub open spec fn queue_views(v: Seq<(usize, String)>) -> Seq<(nat, Seq<char>)> {
    v.map_values(|p: (usize, String)| (p.0 as nat, p.1@))
}

/// Whether flags say which objects were met.
pub open spec fn flags_as(flags: Seq<bool>, seen: Set<nat>) -> bool {
    forall|i: int| 0 <= i < flags.len() ==> #[trigger] flags[i] == seen.contains(i as nat)
}

impl FileState {
    fn scan_group(
        &self,
        g: &GroupData,
        target: ObjId,
        prefix: &String,
        queue: &mut Vec<(usize, String)>,
        flags: &mut Vec<bool>,
        from: usize,
        Ghost(seen): Ghost<Set<nat>>,
    ) -> (r: (Option<String>, Ghost<Set<nat>>))
        requires
            old(flags)@.len() == self@.objects.len(),
            flags_as(old(flags)@, seen),
            from <= old(queue)@.len(),
        ensures
            final(flags)@.len() == self@.objects.len(),
            flags_as(final(flags)@, r.1@),
            from <= final(queue)@.len(),
            ({
                let s = scanned(
                    self@,
                    target as nat,
                    g@.links,
                    0,
                    prefix@,
                    queue_views(old(queue)@.skip(from as int)),
                    seen,
                );
                &&& text_view(r.0) == s.found
                &&& r.0 is None ==> queue_views(final(queue)@.skip(from as int)) == s.queue
                &&& r.1@ == s.seen
            }),
    {
        let ghost f = self@;
        let ghost views = g@.links;
        let ghost mut met = seen;
        let ghost whole = scanned(
            f,
            target as nat,
            views,
            0,
            prefix@,
            queue_views(queue@.skip(from as int)),
            seen,
        );
        let n: usize = g.links.len();
        let mut i: usize = 0;
        while i < n
            invariant
                i <= n == g.links@.len(),
                f == self@,
                views == link_views(g.links@),
                flags@.len() == f.objects.len(),
                flags_as(flags@, met),
                from <= queue@.len(),
                whole == scanned(
                    f,
                    target as nat,
                    views,
                    i as int,
                    prefix@,
                    queue_views(queue@.skip(from as int)),
                    met,
                ),
                whole == scanned(
                    f,
                    target as nat,
                    views,
                    0,
                    prefix@,
                    queue_views(old(queue)@.skip(from as int)),
                    seen,
                ),
            decreases n - i,
        {
            assert(views[i as int] == g.links@[i as int]@);
            if let LinkTarget::Hard(id) = g.links[i].target {
                let head = crate::text::join(prefix.as_str(), "/");
                let path = crate::text::join(head.as_str(), g.links[i].name.as_str());
                if id == target {
                    return (Some(path), Ghost(met));
                }
                if self.is_group(id) && !flags[id] {
                    let ghost before = queue@;
                    let ghost old_flags = flags@;
                    queue.push((id, path));
                    assert(queue_views(queue@.skip(from as int)) =~= queue_views(
                        before.skip(from as int),
                    ).push((id as nat, path@)));
                    flags.set(id, true);
                    proof {
                        met = met.insert(id as nat);
                        assert(flags_as(flags@, met));
                    }
                }
            }
            i += 1;
        }
        (None, Ghost(met))
    }

    /// A path from the root to an object, nothing where none leads there.
    pub fn path_of(&self, target: ObjId) -> (r: Option<String>)
        ensures
            text_view(r) == path_to(self@, target as nat),
    {
        let ghost f = self@;
        if target == self.root {
            return Some(String::from_str("/"));
        }
        let n: usize = self.objects.len();
        let mut flags: Vec<bool> = vec![false; n];
        let ghost mut seen = set![f.root];
        if self.root < n {
            flags.set(self.root, true);
        }
        let mut queue: Vec<(usize, String)> = Vec::new();
        queue.push((self.root, String::new()));
        let mut head: usize = 0;
        assert(queue_views(queue@.skip(0)) =~= seq![(f.root, Seq::<char>::empty())]);
        while head < queue.len()
            invariant
                f == self@,
                head <= queue@.len(),
                flags@.len() == f.objects.len(),
                flags_as(flags@, seen),
                path_to(f, target as nat) == searched(
                    f,
                    target as nat,
                    queue_views(queue@.skip(head as int)),
                    seen,
                ),
            decreases
                    2 * unseen(seen, f.objects.len()) + queue@.len() - head,
        {
            let ghost rest = queue_views(queue@.skip(head as int));
            let cur: usize = queue[head].0;
            let prefix = queue[head].1.clone();
            assert(rest[0] == (cur as nat, prefix@));
            head += 1;
            assert(queue_views(queue@.skip(head as int)) =~= rest.skip(1));
            if let Some(g) = self.group_data(cur) {
                proof {
                    lemma_scan_measure(
                        f,
                        target as nat,
                        g@.links,
                        0,
                        prefix@,
                        rest.skip(1),
                        seen,
                    );
                }
                let (found, after) = self.scan_group(
                    g,
                    target,
                    &prefix,
                    &mut queue,
                    &mut flags,
                    head,
                    Ghost(seen),
                );
                proof {
                    seen = after@;
                }
                if found.is_some() {
                    return found;
                }
                assert(queue@.len() - head == queue_views(queue@.skip(head as int)).len());
            }
        }
        assert(queue_views(queue@.skip(head as int)) =~= Seq::<(nat, Seq<char>)>::empty());
        None
    }
}

} // verus!
