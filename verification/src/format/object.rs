//! What the messages of an object header say.

use vstd::prelude::*;

use crate::error::Error;
use crate::format::attribute::{attr_parsed, parse_attribute};
use crate::format::datatype::{decode_ordered, decoded, OrderTree, OrderView};
use crate::format::fheap::{
    float_as, given_views, heap_at, heap_item, heap_pending, FractalHeap, HeapFloat, HeapFloatView,
};
use crate::format::filters::{filter_views, FilterView, RawFilter};
use crate::format::gheap::GlobalHeap;
use crate::format::header::{
    header_messages, message_views, read_messages, size_width, Message, MessageView, MSG_ATTRIBUTE,
    MSG_ATTRIBUTE_INFO, MSG_COMMENT, MSG_CONTINUATION, MSG_DATASPACE, MSG_DATATYPE, MSG_FILL,
    MSG_FILL_OLD, MSG_FILTER, MSG_GROUP_INFO, MSG_LAYOUT, MSG_LINK, MSG_LINK_INFO, MSG_MOD_TIME,
    MSG_SHMESG_TABLE, MSG_SYMBOL_TABLE,
};
use crate::format::messages::{
    c_text, cstr, dataspace_parsed, layout_parsed, parse_dataspace, parse_filter_pipeline,
    parse_layout, pipeline_parsed, LayoutView, RawLayout, Space, SpaceView,
};
use crate::format::v2::{field, lemma_field_bound};
use crate::format::{dropped, eof_text, le_at, taken_bytes, taken_uint, Cursor, UNDEF};
use crate::model::{attr_views, AttrData, AttrView, FillValue, FillView};
use crate::text::{decimal, from_utf8_lossy, text_of, with_number};
use crate::types::{TypeDescriptor, TypeView};

verus! {

// Fill values.

/// The fill value of `size` bytes that starts with `s`.
pub open spec fn fill_bytes(s: Seq<u8>, size: nat) -> Result<FillView, Seq<char>> {
    match taken_bytes(s, size) {
        Err(e) => Err(e),
        Ok((v, r)) => Ok(FillView::UserDefined(v)),
    }
}

/// What an old fill-value message makes of the fill value `fill`.
pub open spec fn old_fill(body: Seq<u8>, fill: FillView) -> Result<FillView, Seq<char>> {
    match taken_uint(body, 4) {
        Err(e) => Err(e),
        Ok((size, r)) => if size > 0 {
            fill_bytes(r, size)
        } else {
            Ok(fill)
        },
    }
}

/// What a fill-value message makes of the fill value `fill`.
pub open spec fn new_fill(body: Seq<u8>, fill: FillView) -> Result<FillView, Seq<char>> {
    if body.len() < 1 {
        Err(eof_text())
    } else if body[0] <= 2 {
        if body.len() < 4 {
            Err(eof_text())
        } else if body[0] == 2 && body[3] == 0 {
            Ok(fill)
        } else {
            match taken_uint(body.skip(4), 4) {
                Err(e) => Err(e),
                Ok((size, r)) => if size > 0 {
                    fill_bytes(r, size)
                } else if body[3] != 0 {
                    Ok(FillView::Default)
                } else {
                    Ok(fill)
                },
            }
        }
    } else if body.len() < 2 {
        Err(eof_text())
    } else if body[1] / 32 % 2 == 0 {
        Ok(fill)
    } else {
        match taken_uint(body.skip(2), 4) {
            Err(e) => Err(e),
            Ok((size, r)) => if size > 0 {
                fill_bytes(r, size)
            } else {
                Ok(FillView::Default)
            },
        }
    }
}

/// Whether reading a fill value came out as `s` says.
pub open spec fn fill_as(r: Result<FillValue, Error>, s: Result<FillView, Seq<char>>) -> bool {
    match (r, s) {
        (Ok(v), Ok(w)) => v@ == w,
        (Err(e), Err(m)) => e@ == m,
        _ => false,
    }
}

fn read_fill_bytes(c: &mut Cursor, size: u64) -> (r: Result<FillValue, Error>)
    requires
        size <= u32::MAX,
    ensures
        fill_as(r, fill_bytes(old(c).rest(), size as nat)),
{
    let v = c.next_bytes(size as usize)?;
    Ok(FillValue::UserDefined(vstd::slice::slice_to_vec(v)))
}

proof fn lemma_word(s: Seq<u8>)
    ensures
        s.len() >= 4 ==> crate::format::le(s.take(4)) <= u32::MAX,
{
    if s.len() >= 4 {
        lemma_field_bound(s, 0, 4);
        assert(s.subrange(0, 4) =~= s.take(4));
    }
}

/// Reads an old fill-value message.
pub fn read_old_fill(body: &[u8], fill: FillValue) -> (r: Result<FillValue, Error>)
    ensures
        fill_as(r, old_fill(body@, fill@)),
{
    let mut c = Cursor::new(body);
    assert(c.rest() =~= body@);
    proof {
        lemma_word(body@);
    }
    let size: u64 = c.next_uint(4)?;
    if size > 0 {
        read_fill_bytes(&mut c, size)
    } else {
        Ok(fill)
    }
}

/// Reads a fill-value message.
pub fn read_new_fill(body: &[u8], fill: FillValue) -> (r: Result<FillValue, Error>)
    ensures
        fill_as(r, new_fill(body@, fill@)),
{
    let n: usize = body.len();
    if n < 1 {
        return Err(Error::new("unexpected end of file"));
    }
    if body[0] <= 2 {
        if n < 4 {
            return Err(Error::new("unexpected end of file"));
        }
        if body[0] == 2 && body[3] == 0 {
            return Ok(fill);
        }
        let mut c = Cursor::at(body, 4);
        assert(c.rest() =~= body@.skip(4));
        proof {
            lemma_word(body@.skip(4));
        }
        let size: u64 = c.next_uint(4)?;
        if size > 0 {
            read_fill_bytes(&mut c, size)
        } else if body[3] != 0 {
            Ok(FillValue::Default)
        } else {
            Ok(fill)
        }
    } else {
        if n < 2 {
            return Err(Error::new("unexpected end of file"));
        }
        if body[1] / 32 % 2 == 0 {
            return Ok(fill);
        }
        let mut c = Cursor::at(body, 2);
        assert(c.rest() =~= body@.skip(2));
        proof {
            lemma_word(body@.skip(2));
        }
        let size: u64 = c.next_uint(4)?;
        if size > 0 {
            read_fill_bytes(&mut c, size)
        } else {
            Ok(FillValue::Default)
        }
    }
}

// Links.

/// The target of a stored link.
#[derive(Debug)]
pub enum RawTarget {
    /// The object with the header at an address.
    Hard(u64),
    Soft(String),
    External { file: String, path: String },
}

/// The view of a [`RawTarget`].
pub enum RawTargetView {
    Hard(u64),
    Soft(Seq<char>),
    External { file: Seq<char>, path: Seq<char> },
}

impl View for RawTarget {
    type V = RawTargetView;

    open spec fn view(&self) -> RawTargetView {
        match *self {
            RawTarget::Hard(a) => RawTargetView::Hard(a),
            RawTarget::Soft(p) => RawTargetView::Soft(p@),
            RawTarget::External { file, path } => RawTargetView::External {
                file: file@,
                path: path@,
            },
        }
    }
}

/// A link as it is stored.
#[derive(Debug)]
pub struct RawLink {
    pub name: String,
    pub target: RawTarget,
    pub creation_order: i64,
    pub utf8: bool,
}

/// The view of a [`RawLink`].
pub struct RawLinkView {
    pub name: Seq<char>,
    pub target: RawTargetView,
    pub creation_order: i64,
    pub utf8: bool,
}

impl View for RawLink {
    type V = RawLinkView;

    open spec fn view(&self) -> RawLinkView {
        RawLinkView {
            name: self.name@,
            target: self.target@,
            creation_order: self.creation_order,
            utf8: self.utf8,
        }
    }
}

/// The views of stored links.
pub open spec fn raw_link_views(v: Seq<RawLink>) -> Seq<RawLinkView> {
    v.map_values(|l: RawLink| l@)
}

/// A number of `n` bytes where it is present, else 0.
pub open spec fn maybe_taken(s: Seq<u8>, present: bool, n: nat) -> Result<
    (nat, Seq<u8>),
    Seq<char>,
> {
    if present {
        taken_uint(s, n)
    } else {
        Ok((0, s))
    }
}

/// What follows the first zero byte.
pub open spec fn after_nul(s: Seq<u8>) -> Seq<u8> {
    match crate::format::datatype::nul_at(s, 0) {
        None => Seq::empty(),
        Some(k) => s.skip(k + 1),
    }
}

/// The target of a link of some type; other types have none.
pub open spec fn target_taken(s: Seq<u8>, kind: nat) -> Result<Option<RawTargetView>, Seq<char>> {
    if kind == 0 {
        match taken_uint(s, 8) {
            Err(e) => Err(e),
            Ok((addr, r)) => Ok(Some(RawTargetView::Hard(addr as u64))),
        }
    } else if kind == 1 || kind == 64 {
        match taken_uint(s, 2) {
            Err(e) => Err(e),
            Ok((n, r)) => match taken_bytes(r, n) {
                Err(e) => Err(e),
                Ok((b, rest)) => if kind == 1 {
                    Ok(Some(RawTargetView::Soft(text_of(b))))
                } else if b.len() == 0 {
                    Err("empty external link"@)
                } else {
                    Ok(
                        Some(
                            RawTargetView::External {
                                file: c_text(b.skip(1)),
                                path: c_text(after_nul(b.skip(1))),
                            },
                        ),
                    )
                },
            },
        }
    } else {
        Ok(None)
    }
}

/// The link message `body`; messages of other versions and links of other types hold
/// none.
pub open spec fn link_parsed(body: Seq<u8>) -> Result<Option<RawLinkView>, Seq<char>> {
    if body.len() < 1 {
        Err(eof_text())
    } else if body[0] != 1 {
        Ok(None)
    } else if body.len() < 2 {
        Err(eof_text())
    } else {
        let flags = body[1];
        match maybe_taken(body.skip(2), flags / 8 % 2 == 1, 1) {
            Err(e) => Err(e),
            Ok((kind, r1)) => match maybe_taken(r1, flags / 4 % 2 == 1, 8) {
                Err(e) => Err(e),
                Ok((order, r2)) => match maybe_taken(r2, flags / 16 % 2 == 1, 1) {
                    Err(e) => Err(e),
                    Ok((charset, r3)) => match taken_uint(r3, size_width(flags)) {
                        Err(e) => Err(e),
                        Ok((n, r4)) => match taken_bytes(r4, n) {
                            Err(e) => Err(e),
                            Ok((name, r5)) => match target_taken(r5, kind) {
                                Err(e) => Err(e),
                                Ok(None) => Ok(None),
                                Ok(Some(target)) => Ok(
                                    Some(
                                        RawLinkView {
                                            name: text_of(name),
                                            target,
                                            creation_order: (order as u64) as i64,
                                            utf8: charset == 1,
                                        },
                                    ),
                                ),
                            },
                        },
                    },
                },
            },
        }
    }
}

fn maybe_next(c: &mut Cursor, present: bool, n: usize) -> (r: Result<u64, Error>)
    requires
        1 <= n <= 8,
    ensures
        final(c).data@ == old(c).data@,
        crate::format::read_uint_as(
            r,
            final(c).rest(),
            maybe_taken(old(c).rest(), present, n as nat),
        ),
{
    if present {
        c.next_uint(n)
    } else {
        Ok(0)
    }
}

fn find_nul(s: &[u8]) -> (r: Option<usize>)
    ensures
        match (r, crate::format::datatype::nul_at(s@, 0)) {
            (Some(i), Some(k)) => i == k && i < s@.len(),
            (None, None) => true,
            _ => false,
        },
{
    let n: usize = s.len();
    let mut i: usize = 0;
    while i < n
        invariant
            i <= n == s@.len(),
            crate::format::datatype::nul_at(s@, 0) == crate::format::datatype::nul_at(
                s@,
                i as int,
            ),
        decreases n - i,
    {
        if s[i] == 0 {
            return Some(i);
        }
        i += 1;
    }
    None
}

fn read_target(c: &mut Cursor, kind: u64) -> (r: Result<Option<RawTarget>, Error>)
    ensures
        match (r, target_taken(old(c).rest(), kind as nat)) {
            (Ok(Some(t)), Ok(Some(v))) => t@ == v,
            (Ok(None), Ok(None)) => true,
            (Err(e), Err(m)) => e@ == m,
            _ => false,
        },
{
    let ghost s = c.rest();
    if kind == 0 {
        let addr: u64 = c.next_uint(8)?;
        return Ok(Some(RawTarget::Hard(addr)));
    }
    if kind == 1 || kind == 64 {
        proof {
            if s.len() >= 2 {
                lemma_field_bound(s, 0, 2);
                assert(s.subrange(0, 2) =~= s.take(2));
            }
        }
        let n: u64 = c.next_uint(2)?;
        let b = c.next_bytes(n as usize)?;
        if kind == 1 {
            return Ok(Some(RawTarget::Soft(from_utf8_lossy(b))));
        }
        if b.len() == 0 {
            return Err(Error::new("empty external link"));
        }
        let names = vstd::slice::slice_subrange(b, 1, b.len());
        assert(names@ =~= b@.skip(1));
        let file = cstr(names);
        let path = match find_nul(names) {
            None => {
                let none = vstd::slice::slice_subrange(names, 0, 0);
                assert(none@ =~= Seq::<u8>::empty());
                cstr(none)
            },
            Some(k) => {
                let rest = vstd::slice::slice_subrange(names, k + 1, names.len());
                assert(rest@ =~= names@.skip(k + 1));
                cstr(rest)
            },
        };
        return Ok(Some(RawTarget::External { file, path }));
    }
    Ok(None)
}

/// Whether reading a link came out as `s` says.
pub open spec fn link_as(
    r: Result<Option<RawLink>, Error>,
    s: Result<Option<RawLinkView>, Seq<char>>,
) -> bool {
    match (r, s) {
        (Ok(Some(l)), Ok(Some(v))) => l@ == v,
        (Ok(None), Ok(None)) => true,
        (Err(e), Err(m)) => e@ == m,
        _ => false,
    }
}

/// Reads a link message.
pub fn parse_link_message(body: &[u8]) -> (r: Result<Option<RawLink>, Error>)
    ensures
        link_as(r, link_parsed(body@)),
{
    let n: usize = body.len();
    if n < 1 {
        return Err(Error::new("unexpected end of file"));
    }
    if body[0] != 1 {
        return Ok(None);
    }
    if n < 2 {
        return Err(Error::new("unexpected end of file"));
    }
    let flags: u8 = body[1];
    let mut c = Cursor::at(body, 2);
    assert(c.rest() =~= body@.skip(2));
    let kind: u64 = maybe_next(&mut c, flags / 8 % 2 == 1, 1)?;
    let order: u64 = maybe_next(&mut c, flags / 4 % 2 == 1, 8)?;
    let charset: u64 = maybe_next(&mut c, flags / 16 % 2 == 1, 1)?;
    let width: usize = match flags % 4 {
        0 => 1,
        1 => 2,
        2 => 4,
        _ => 8,
    };
    let len: u64 = c.next_uint(width)?;
    if len > usize::MAX as u64 {
        return Err(Error::new("unexpected end of file"));
    }
    let name = from_utf8_lossy(c.next_bytes(len as usize)?);
    match read_target(&mut c, kind)? {
        None => Ok(None),
        Some(target) => Ok(
            Some(
                RawLink { name, target, creation_order: order as i64, utf8: charset == 1 },
            ),
        ),
    }
}

// Headers.

/// What an object header says.
pub struct ObjHeader {
    pub dataspace: Option<Space>,
    pub dtype: Option<(TypeDescriptor, OrderTree)>,
    pub fill: FillValue,
    pub layout: Option<RawLayout>,
    pub filters: Vec<RawFilter>,
    pub attrs: Vec<AttrData>,
    pub comment: Option<String>,
    /// The B-tree and the heap of a symbol table.
    pub symbol_table: Option<(u64, u64)>,
    pub links: Vec<RawLink>,
    pub is_group_like: bool,
    /// The heap and the name index of dense links.
    pub dense_links: Option<(u64, u64)>,
    /// The heap and the name index of dense attributes.
    pub dense_attrs: Option<(u64, u64)>,
    pub mtime: u32,
    /// The table of shared-message indexes and their number.
    pub shmesg_table: Option<(u64, u8)>,
}

/// The view of an [`ObjHeader`].
#[verifier::ext_equal]
pub struct HeaderView {
    pub space: Option<SpaceView>,
    pub dtype: Option<(TypeView, OrderView)>,
    pub fill: FillView,
    pub layout: Option<LayoutView>,
    pub filters: Seq<FilterView>,
    pub attrs: Seq<AttrView>,
    pub comment: Option<Seq<char>>,
    pub symbol_table: Option<(u64, u64)>,
    pub links: Seq<RawLinkView>,
    pub group_like: bool,
    pub dense_links: Option<(u64, u64)>,
    pub dense_attrs: Option<(u64, u64)>,
    pub mtime: u32,
    pub shmesg_table: Option<(u64, u8)>,
}

impl View for ObjHeader {
    type V = HeaderView;

    open spec fn view(&self) -> HeaderView {
        HeaderView {
            space: match self.dataspace {
                None => None,
                Some(s) => Some(s@),
            },
            dtype: match self.dtype {
                None => None,
                Some((t, o)) => Some((t@, o@)),
            },
            fill: self.fill@,
            layout: match self.layout {
                None => None,
                Some(l) => Some(l@),
            },
            filters: filter_views(self.filters@),
            attrs: attr_views(self.attrs@),
            comment: crate::model::text_view(self.comment),
            symbol_table: self.symbol_table,
            links: raw_link_views(self.links@),
            group_like: self.is_group_like,
            dense_links: self.dense_links,
            dense_attrs: self.dense_attrs,
            mtime: self.mtime,
            shmesg_table: self.shmesg_table,
        }
    }
}

impl ObjHeader {
    /// Whether the datatypes have a size.
    pub open spec fn wf(self) -> bool {
        &&& self.dtype matches Some((t, o)) ==> t@.sized()
        &&& forall|i: int|
            0 <= i < self.attrs@.len() ==> (#[trigger] self.attrs@[i]).dtype@.sized()
        &&& self.filters@.len() <= 255
        &&& self.dataspace matches Some(s) ==> s.dims@.len() <= 255 && s.maxdims@.len()
            == s.dims@.len()
    }
}

/// A header without messages.
pub open spec fn empty_header() -> HeaderView {
    HeaderView {
        space: None,
        dtype: None,
        fill: FillView::Undefined,
        layout: None,
        filters: Seq::empty(),
        attrs: Seq::empty(),
        comment: None,
        symbol_table: None,
        links: Seq::empty(),
        group_like: false,
        dense_links: None,
        dense_attrs: None,
        mtime: 0,
        shmesg_table: None,
    }
}

/// A file image with its shared-message indexes: for each, the message types that it
/// covers and the heap that holds them. Heap blocks whose floating-point elements were
/// scaled back are given beside it.
pub struct ImageView {
    pub data: Seq<u8>,
    pub base: u64,
    pub sohm: Seq<(u16, u64)>,
    pub given: Seq<(u64, Seq<u8>)>,
}

/// The heap and the name index that an info message names, where both exist. `width`
/// bytes that come first are present in some messages.
pub open spec fn info_taken(body: Seq<u8>, width: nat) -> Result<Option<(u64, u64)>, Seq<char>> {
    if body.len() < 2 {
        Err(eof_text())
    } else {
        match maybe_taken(body.skip(2), body[1] % 2 == 1, width) {
            Err(e) => Err(e),
            Ok((skipped, r)) => match taken_bytes(r, 16) {
                Err(e) => Err(e),
                Ok((b, rest)) => if le_at(b, 0, 8) != UNDEF && le_at(b, 8, 8) != UNDEF {
                    Ok(Some((le_at(b, 0, 8) as u64, le_at(b, 8, 8) as u64)))
                } else {
                    Ok(None)
                },
            },
        }
    }
}

/// What a message that stands in the header itself adds to it.
#[verifier::opaque]
pub open spec fn plain_applied(img: ImageView, mtype: u16, body: Seq<u8>, h: HeaderView) -> Result<
    HeaderView,
    Seq<char>,
> {
    if mtype == MSG_DATASPACE {
        match dataspace_parsed(body) {
            Err(e) => Err(e),
            Ok((s, r)) => Ok(HeaderView { space: Some(s), ..h }),
        }
    } else if mtype == MSG_DATATYPE {
        match decoded(body) {
            Err(e) => Err(e),
            Ok(d) => Ok(HeaderView { dtype: Some((d.ty, d.order)), ..h }),
        }
    } else if mtype == MSG_FILL_OLD {
        match old_fill(body, h.fill) {
            Err(e) => Err(e),
            Ok(fill) => Ok(HeaderView { fill, ..h }),
        }
    } else if mtype == MSG_FILL {
        match new_fill(body, h.fill) {
            Err(e) => Err(e),
            Ok(fill) => Ok(HeaderView { fill, ..h }),
        }
    } else if mtype == MSG_LAYOUT {
        match layout_parsed(body) {
            Err(e) => Err(e),
            Ok(l) => Ok(HeaderView { layout: Some(l), ..h }),
        }
    } else if mtype == MSG_FILTER {
        match pipeline_parsed(body) {
            Err(e) => Err(e),
            Ok((filters, r)) => Ok(HeaderView { filters, ..h }),
        }
    } else if mtype == MSG_ATTRIBUTE {
        match attr_parsed(img.data, img.base, body) {
            Err(e) => Err(e),
            Ok(None) => Ok(h),
            Ok(Some(a)) => Ok(HeaderView { attrs: h.attrs.push(a), ..h }),
        }
    } else if mtype == MSG_COMMENT {
        Ok(HeaderView { comment: Some(c_text(body)), ..h })
    } else if mtype == MSG_CONTINUATION {
        if body.len() < 16 {
            Err(eof_text())
        } else {
            Ok(h)
        }
    } else if mtype == MSG_SYMBOL_TABLE {
        if body.len() < 16 {
            Err(eof_text())
        } else {
            Ok(
                HeaderView {
                    symbol_table: Some((le_at(body, 0, 8) as u64, le_at(body, 8, 8) as u64)),
                    ..h
                },
            )
        }
    } else if mtype == MSG_LINK_INFO {
        match info_taken(body, 8) {
            Err(e) => Err(e),
            Ok(None) => Ok(HeaderView { group_like: true, ..h }),
            Ok(Some(d)) => Ok(HeaderView { group_like: true, dense_links: Some(d), ..h }),
        }
    } else if mtype == MSG_GROUP_INFO {
        Ok(HeaderView { group_like: true, ..h })
    } else if mtype == MSG_LINK {
        match link_parsed(body) {
            Err(e) => Err(e),
            Ok(None) => Ok(h),
            Ok(Some(l)) => Ok(HeaderView { links: h.links.push(l), ..h }),
        }
    } else if mtype == MSG_ATTRIBUTE_INFO {
        match info_taken(body, 2) {
            Err(e) => Err(e),
            Ok(None) => Ok(h),
            Ok(Some(d)) => Ok(HeaderView { dense_attrs: Some(d), ..h }),
        }
    } else if mtype == MSG_MOD_TIME {
        if body.len() < 1 {
            Err(eof_text())
        } else if body[0] != 1 {
            Ok(h)
        } else if body.len() < 8 {
            Err(eof_text())
        } else {
            Ok(HeaderView { mtime: le_at(body, 4, 4) as u32, ..h })
        }
    } else if mtype == MSG_SHMESG_TABLE {
        if body.len() < 10 {
            Err(eof_text())
        } else {
            Ok(HeaderView { shmesg_table: Some((le_at(body, 1, 8) as u64, body[9])), ..h })
        }
    } else {
        Ok(h)
    }
}

/// The bit of a message type in the types of an index.
pub open spec fn covers(types: u16, mtype: u16) -> bool {
    (types as nat / crate::format::bits::pow2(mtype as nat % 16)) % 2 == 1
}

/// The heap of the first index that covers a message type.
pub open spec fn index_heap(sohm: Seq<(u16, u64)>, mtype: u16) -> Option<u64>
    decreases sohm.len(),
{
    if sohm.len() == 0 {
        None
    } else if covers(sohm[0].0, mtype) {
        Some(sohm[0].1)
    } else {
        index_heap(sohm.skip(1), mtype)
    }
}

/// The message with a heap identifier in the index of its type.
pub open spec fn indexed_message(img: ImageView, mtype: u16, id: Seq<u8>) -> Result<
    Seq<u8>,
    Seq<char>,
> {
    match index_heap(img.sohm, mtype) {
        None => Err("no SOHM index covers this message type"@),
        Some(addr) => if addr == UNDEF {
            Err("SOHM index heap not allocated"@)
        } else {
            match heap_at(img.data, img.base, addr, img.given) {
                Err(e) => Err(e),
                Ok(h) => heap_item(img.data, img.base, h, id),
            }
        },
    }
}

/// A hexadecimal digit.
pub open spec fn hex_digit(d: nat) -> char {
    if d < 10 {
        (48 + d) as char
    } else {
        (87 + d) as char
    }
}

/// Four hexadecimal digits.
pub open spec fn hex4(n: nat) -> Seq<char> {
    seq![
        hex_digit(n / 4096 % 16),
        hex_digit(n / 256 % 16),
        hex_digit(n / 16 % 16),
        hex_digit(n % 16),
    ]
}

/// The place of the header that a shared message refers to.
pub open spec fn shared_place(body: Seq<u8>) -> Result<u64, Seq<char>> {
    let r = body.skip(2);
    match taken_uint(
        if body[0] == 1 {
            dropped(r, 14)
        } else {
            r
        },
        8,
    ) {
        Err(e) => Err(e),
        Ok((a, rest)) => Ok(a as u64),
    }
}

/// What the message of a type in another header adds to this one.
pub open spec fn adopted(mtype: u16, h: HeaderView, t: HeaderView) -> Result<
    HeaderView,
    Seq<char>,
> {
    if mtype == MSG_DATATYPE {
        if t.dtype is None {
            Err("shared datatype target has no datatype message"@)
        } else {
            Ok(HeaderView { dtype: t.dtype, ..h })
        }
    } else if mtype == MSG_DATASPACE {
        Ok(HeaderView { space: t.space, ..h })
    } else if mtype == MSG_FILL {
        Ok(HeaderView { fill: t.fill, ..h })
    } else if mtype == MSG_FILTER {
        Ok(HeaderView { filters: t.filters, ..h })
    } else {
        Err("shared message of type 0x"@ + hex4(mtype as nat) + " is not supported"@)
    }
}

/// What a message adds to a header. At most `depth` shared messages lead on from each
/// other.
pub open spec fn applied(img: ImageView, m: MessageView, h: HeaderView, depth: nat) -> Result<
    HeaderView,
    Seq<char>,
>
    decreases depth, 0nat, 0nat,
{
    if !m.shared() {
        plain_applied(img, m.mtype, m.body, h)
    } else if m.body.len() < 2 {
        Err(eof_text())
    } else if m.body[0] < 1 || m.body[0] > 3 {
        Err("unsupported shared message version "@ + decimal(m.body[0] as nat))
    } else if m.body[0] == 3 && m.body[1] == 1 {
        match taken_bytes(m.body.skip(2), 8) {
            Err(e) => Err(e),
            Ok((id, r)) => match indexed_message(img, m.mtype, id) {
                Err(e) => Err(e),
                Ok(body) => plain_applied(img, m.mtype, body, h),
            },
        }
    } else {
        match shared_place(m.body) {
            Err(e) => Err(e),
            Ok(addr) => if depth == 0 {
                Err("shared messages nested too deeply"@)
            } else {
                match header_parsed(img, addr, (depth - 1) as nat) {
                    Err(e) => Err(e),
                    Ok(t) => adopted(m.mtype, h, t),
                }
            },
        }
    }
}

/// What the messages from the number `i` on add to a header.
pub open spec fn all_applied(
    img: ImageView,
    messages: Seq<MessageView>,
    i: int,
    h: HeaderView,
    depth: nat,
) -> Result<HeaderView, Seq<char>>
    decreases depth, 1nat, (messages.len() - i + 1) as nat,
{
    if i < 0 || i >= messages.len() {
        Ok(h)
    } else {
        match applied(img, messages[i], h, depth) {
            Err(e) => Err(e),
            Ok(next) => all_applied(img, messages, i + 1, next, depth),
        }
    }
}

/// The object header at an address.
pub open spec fn header_parsed(img: ImageView, addr: u64, depth: nat) -> Result<
    HeaderView,
    Seq<char>,
>
    decreases depth, 2nat, 0nat,
{
    let c = header_messages(img.data, img.base, addr);
    match all_applied(img, c.messages, 0, empty_header(), depth) {
        Err(e) => Err(e),
        Ok(h) => match c.error {
            Some(e) => Err(e),
            None => Ok(h),
        },
    }
}

/// A file image to be read.
pub struct Image<'a> {
    pub heap: GlobalHeap<'a>,
    pub sohm: Vec<(u16, u64)>,
    pub given: Option<&'a Vec<(u64, Vec<u8>)>>,
}

impl<'a> View for Image<'a> {
    type V = ImageView;

    open spec fn view(&self) -> ImageView {
        ImageView {
            data: self.heap.data@,
            base: self.heap.base,
            sohm: self.sohm@,
            given: given_views(self.given),
        }
    }
}

impl<'a> Image<'a> {
    pub open spec fn wf(self) -> bool {
        self.heap.wf()
    }
}

/// Whether reading a header came out as `s` says.
pub open spec fn header_as(r: Result<ObjHeader, Error>, s: Result<HeaderView, Seq<char>>) -> bool {
    match (r, s) {
        (Ok(h), Ok(v)) => h@ == v && h.wf(),
        (Err(e), Err(m)) => e@ == m,
        _ => false,
    }
}

fn read_info(body: &[u8], width: usize) -> (r: Result<Option<(u64, u64)>, Error>)
    requires
        1 <= width <= 8,
    ensures
        match (r, info_taken(body@, width as nat)) {
            (Ok(a), Ok(b)) => a == b,
            (Err(e), Err(m)) => e@ == m,
            _ => false,
        },
{
    if body.len() < 2 {
        return Err(Error::new("unexpected end of file"));
    }
    let mut c = Cursor::at(body, 2);
    assert(c.rest() =~= body@.skip(2));
    let _skipped: u64 = maybe_next(&mut c, body[1] % 2 == 1, width)?;
    let b = c.next_bytes(16)?;
    let (x, y): (u64, u64) = (field(b, 0, 8), field(b, 8, 8));
    if x != UNDEF && y != UNDEF {
        Ok(Some((x, y)))
    } else {
        Ok(None)
    }
}

#[verifier::rlimit(60)]
fn apply_plain(img: &mut Image, mtype: u16, body: &[u8], h: ObjHeader) -> (r: Result<
    ObjHeader,
    Error,
>)
    requires
        old(img).wf(),
        h.wf(),
    ensures
        final(img).wf(),
        final(img)@ == old(img)@,
        header_as(r, plain_applied(old(img)@, mtype, body@, h@)),
{
    reveal(plain_applied);
    let n: usize = body.len();
    let ghost view = h@;
    let mut h = h;
    let mut c = Cursor::new(body);
    assert(c.rest() =~= body@);
    if mtype == MSG_DATASPACE {
        h.dataspace = Some(parse_dataspace(&mut c)?);
    } else if mtype == MSG_DATATYPE {
        let mut order = OrderTree::Plain;
        let ty = decode_ordered(&mut c, &mut order)?;
        h.dtype = Some((ty, order));
    } else if mtype == MSG_FILL_OLD {
        h.fill = read_old_fill(body, h.fill)?;
    } else if mtype == MSG_FILL {
        h.fill = read_new_fill(body, h.fill)?;
    } else if mtype == MSG_LAYOUT {
        h.layout = Some(parse_layout(&mut c)?);
    } else if mtype == MSG_FILTER {
        h.filters = parse_filter_pipeline(&mut c)?;
    } else if mtype == MSG_ATTRIBUTE {
        if let Some(a) = parse_attribute(&mut img.heap, body)? {
            let ghost before = h.attrs@;
            h.attrs.push(a);
            assert(attr_views(h.attrs@) =~= attr_views(before).push(a@));
        }
    } else if mtype == MSG_COMMENT {
        h.comment = Some(cstr(body));
    } else if mtype == MSG_CONTINUATION {
        if n < 16 {
            return Err(Error::new("unexpected end of file"));
        }
    } else if mtype == MSG_SYMBOL_TABLE {
        if n < 16 {
            return Err(Error::new("unexpected end of file"));
        }
        h.symbol_table = Some((field(body, 0, 8), field(body, 8, 8)));
    } else if mtype == MSG_LINK_INFO {
        h.is_group_like = true;
        if let Some(d) = read_info(body, 8)? {
            h.dense_links = Some(d);
        }
    } else if mtype == MSG_GROUP_INFO {
        h.is_group_like = true;
    } else if mtype == MSG_LINK {
        if let Some(l) = parse_link_message(body)? {
            let ghost before = h.links@;
            h.links.push(l);
            assert(raw_link_views(h.links@) =~= raw_link_views(before).push(l@));
        }
    } else if mtype == MSG_ATTRIBUTE_INFO {
        if let Some(d) = read_info(body, 2)? {
            h.dense_attrs = Some(d);
        }
    } else if mtype == MSG_MOD_TIME {
        if n < 1 {
            return Err(Error::new("unexpected end of file"));
        }
        if body[0] == 1 {
            if n < 8 {
                return Err(Error::new("unexpected end of file"));
            }
            proof {
                lemma_field_bound(body@, 4, 4);
            }
            h.mtime = field(body, 4, 4) as u32;
        }
    } else if mtype == MSG_SHMESG_TABLE {
        if n < 10 {
            return Err(Error::new("unexpected end of file"));
        }
        h.shmesg_table = Some((field(body, 1, 8), body[9]));
    }
    Ok(h)
}

fn covers_type(types: u16, mtype: u16) -> (r: bool)
    ensures
        r == covers(types, mtype),
{
    (types as u64 / crate::format::v2::power2((mtype % 16) as u32)) % 2 == 1
}

fn find_index_heap(sohm: &Vec<(u16, u64)>, mtype: u16) -> (r: Option<u64>)
    ensures
        r == index_heap(sohm@, mtype),
{
    let n: usize = sohm.len();
    let mut i: usize = 0;
    assert(sohm@.skip(0) =~= sohm@);
    while i < n
        invariant
            i <= n == sohm@.len(),
            index_heap(sohm@, mtype) == index_heap(sohm@.skip(i as int), mtype),
        decreases n - i,
    {
        assert(sohm@.skip(i as int)[0] == sohm@[i as int]);
        assert(sohm@.skip(i as int).skip(1) =~= sohm@.skip(i + 1));
        if covers_type(sohm[i].0, mtype) {
            return Some(sohm[i].1);
        }
        i += 1;
    }
    None
}

fn read_indexed(img: &Image, mtype: u16, id: &[u8]) -> (r: Result<Vec<u8>, Error>)
    ensures
        crate::error::same_bytes(r, indexed_message(img@, mtype, id@)),
{
    match find_index_heap(&img.sohm, mtype) {
        None => Err(Error::new("no SOHM index covers this message type")),
        Some(addr) => {
            if addr == UNDEF {
                return Err(Error::new("SOHM index heap not allocated"));
            }
            let heap = FractalHeap::open(img.heap.data, img.heap.base, addr, img.given)?;
            heap.get(id)
        },
    }
}

fn hex_str(d: u16) -> (r: &'static str)
    requires
        d < 16,
    ensures
        r@ == seq![hex_digit(d as nat)],
{
    proof {
        reveal_strlit("0");
        reveal_strlit("1");
        reveal_strlit("2");
        reveal_strlit("3");
        reveal_strlit("4");
        reveal_strlit("5");
        reveal_strlit("6");
        reveal_strlit("7");
        reveal_strlit("8");
        reveal_strlit("9");
        reveal_strlit("a");
        reveal_strlit("b");
        reveal_strlit("c");
        reveal_strlit("d");
        reveal_strlit("e");
        reveal_strlit("f");
    }
    match d {
        0 => "0",
        1 => "1",
        2 => "2",
        3 => "3",
        4 => "4",
        5 => "5",
        6 => "6",
        7 => "7",
        8 => "8",
        9 => "9",
        10 => "a",
        11 => "b",
        12 => "c",
        13 => "d",
        14 => "e",
        _ => "f",
    }
}

fn hex_text(n: u16) -> (r: String)
    ensures
        r@ == hex4(n as nat),
{
    let a = String::from_str(hex_str(n / 4096 % 16));
    let b = a.concat(hex_str(n / 256 % 16));
    let c = b.concat(hex_str(n / 16 % 16));
    let d = c.concat(hex_str(n % 16));
    assert(d@ =~= hex4(n as nat));
    d
}

fn adopt(mtype: u16, h: ObjHeader, t: ObjHeader) -> (r: Result<ObjHeader, Error>)
    requires
        h.wf(),
        t.wf(),
    ensures
        header_as(r, adopted(mtype, h@, t@)),
{
    let mut h = h;
    if mtype == MSG_DATATYPE {
        if t.dtype.is_none() {
            return Err(Error::new("shared datatype target has no datatype message"));
        }
        h.dtype = t.dtype;
        Ok(h)
    } else if mtype == MSG_DATASPACE {
        h.dataspace = t.dataspace;
        Ok(h)
    } else if mtype == MSG_FILL {
        h.fill = t.fill;
        Ok(h)
    } else if mtype == MSG_FILTER {
        h.filters = t.filters;
        Ok(h)
    } else {
        let a = crate::text::join("shared message of type 0x", hex_text(mtype).as_str());
        Err(Error::from_text(crate::text::join(a.as_str(), " is not supported")))
    }
}

fn new_header() -> (r: ObjHeader)
    ensures
        r@ == empty_header(),
        r.wf(),
{
    let r = ObjHeader {
        dataspace: None,
        dtype: None,
        fill: FillValue::Undefined,
        layout: None,
        filters: Vec::new(),
        attrs: Vec::new(),
        comment: None,
        symbol_table: None,
        links: Vec::new(),
        is_group_like: false,
        dense_links: None,
        dense_attrs: None,
        mtime: 0,
        shmesg_table: None,
    };
    assert(r@ =~= empty_header());
    r
}

fn handle_message(img: &mut Image, m: &Message, h: ObjHeader, depth: usize) -> (r: Result<
    ObjHeader,
    Error,
>)
    requires
        old(img).wf(),
        h.wf(),
    ensures
        final(img).wf(),
        final(img)@ == old(img)@,
        header_as(r, applied(old(img)@, m@, h@, depth as nat)),
    decreases depth, 0nat,
{
    let shared: bool = m.flags / 2 % 2 == 1;
    if !shared {
        return apply_plain(img, m.mtype, m.body, h);
    }
    let body = m.body;
    if body.len() < 2 {
        return Err(Error::new("unexpected end of file"));
    }
    if body[0] < 1 || body[0] > 3 {
        return Err(
            Error::from_text(with_number("unsupported shared message version ", body[0] as u64)),
        );
    }
    let mut c = Cursor::at(body, 2);
    assert(c.rest() =~= body@.skip(2));
    if body[0] == 3 && body[1] == 1 {
        let id = c.next_bytes(8)?;
        let found = read_indexed(img, m.mtype, id)?;
        return apply_plain(img, m.mtype, found.as_slice(), h);
    }
    if body[0] == 1 {
        c.pass(14);
    }
    let addr: u64 = c.next_uint(8)?;
    if depth == 0 {
        return Err(Error::new("shared messages nested too deeply"));
    }
    let t = parse_object_header(img, addr, depth - 1)?;
    adopt(m.mtype, h, t)
}

/// Reads the object header at an address. At most `depth` shared messages lead on from
/// each other.
pub fn parse_object_header(img: &mut Image, addr: u64, depth: usize) -> (r: Result<
    ObjHeader,
    Error,
>)
    requires
        old(img).wf(),
    ensures
        final(img).wf(),
        final(img)@ == old(img)@,
        header_as(r, header_parsed(old(img)@, addr, depth as nat)),
    decreases depth, 1nat,
{
    let list = read_messages(img.heap.data, img.heap.base, addr);
    let ghost views = list@.messages;
    let n: usize = list.messages.len();
    let mut h = new_header();
    let mut i: usize = 0;
    while i < n
        invariant
            i <= n == list.messages@.len(),
            views == message_views(list.messages@),
            img.wf(),
            img@ == old(img)@,
            h.wf(),
            list@ == header_messages(old(img)@.data, old(img)@.base, addr),
            all_applied(old(img)@, views, 0, empty_header(), depth as nat) == all_applied(
                old(img)@,
                views,
                i as int,
                h@,
                depth as nat,
            ),
        decreases n - i,
    {
        assert(views[i as int] == list.messages@[i as int]@);
        h = handle_message(img, &list.messages[i], h, depth)?;
        i += 1;
    }
    match list.error {
        Some(e) => Err(e),
        None => Ok(h),
    }
}

// Heap blocks that have to be scaled back.

/// The heap block that has to be scaled back before the message with a heap identifier
/// in the index of its type can be read.
pub open spec fn indexed_float(img: ImageView, mtype: u16, id: Seq<u8>) -> Option<HeapFloatView> {
    match index_heap(img.sohm, mtype) {
        None => None,
        Some(addr) => if addr == UNDEF {
            None
        } else {
            match heap_at(img.data, img.base, addr, img.given) {
                Err(e) => None,
                Ok(h) => heap_pending(img.data, img.base, h, id),
            }
        },
    }
}

/// The heap block that has to be scaled back before a shared message can be read.
pub open spec fn message_float(img: ImageView, m: MessageView, depth: nat) -> Option<HeapFloatView>
    decreases depth, 0nat, 0nat,
{
    if !m.shared() || m.body.len() < 2 || m.body[0] < 1 || m.body[0] > 3 {
        None
    } else if m.body[0] == 3 && m.body[1] == 1 {
        match taken_bytes(m.body.skip(2), 8) {
            Err(e) => None,
            Ok((id, r)) => indexed_float(img, m.mtype, id),
        }
    } else {
        match shared_place(m.body) {
            Err(e) => None,
            Ok(addr) => if depth == 0 {
                None
            } else {
                header_float(img, addr, (depth - 1) as nat)
            },
        }
    }
}

/// The heap block that has to be scaled back before the first message that fails, from
/// the number `i` on, can be read.
pub open spec fn messages_float(
    img: ImageView,
    messages: Seq<MessageView>,
    i: int,
    h: HeaderView,
    depth: nat,
) -> Option<HeapFloatView>
    decreases depth, 1nat, (messages.len() - i + 1) as nat,
{
    if i < 0 || i >= messages.len() {
        None
    } else {
        match applied(img, messages[i], h, depth) {
            Err(e) => message_float(img, messages[i], depth),
            Ok(next) => messages_float(img, messages, i + 1, next, depth),
        }
    }
}

/// The heap block that has to be scaled back before the object header at an address can
/// be read.
pub open spec fn header_float(img: ImageView, addr: u64, depth: nat) -> Option<HeapFloatView>
    decreases depth, 2nat, 0nat,
{
    messages_float(
        img,
        header_messages(img.data, img.base, addr).messages,
        0,
        empty_header(),
        depth,
    )
}

fn find_indexed_float(img: &Image, mtype: u16, id: &[u8]) -> (r: Option<HeapFloat>)
    ensures
        float_as(r, indexed_float(img@, mtype, id@)),
{
    match find_index_heap(&img.sohm, mtype) {
        None => None,
        Some(addr) => {
            if addr == UNDEF {
                return None;
            }
            match FractalHeap::open(img.heap.data, img.heap.base, addr, img.given) {
                Ok(heap) => heap.pending(id),
                Err(_) => None,
            }
        },
    }
}

fn find_message_float(img: &mut Image, m: &Message, depth: usize) -> (r: Option<HeapFloat>)
    requires
        old(img).wf(),
    ensures
        final(img).wf(),
        final(img)@ == old(img)@,
        float_as(r, message_float(old(img)@, m@, depth as nat)),
    decreases depth, 0nat,
{
    let body = m.body;
    if m.flags / 2 % 2 != 1 || body.len() < 2 || body[0] < 1 || body[0] > 3 {
        return None;
    }
    let mut c = Cursor::at(body, 2);
    assert(c.rest() =~= body@.skip(2));
    if body[0] == 3 && body[1] == 1 {
        return match c.next_bytes(8) {
            Ok(id) => find_indexed_float(img, m.mtype, id),
            Err(_) => None,
        };
    }
    if body[0] == 1 {
        c.pass(14);
    }
    match c.next_uint(8) {
        Ok(addr) => if depth == 0 {
            None
        } else {
            find_header_float(img, addr, depth - 1)
        },
        Err(_) => None,
    }
}

/// Finds the heap block that has to be scaled back before the object header at an address
/// can be read.
pub fn find_header_float(img: &mut Image, addr: u64, depth: usize) -> (r: Option<HeapFloat>)
    requires
        old(img).wf(),
    ensures
        final(img).wf(),
        final(img)@ == old(img)@,
        float_as(r, header_float(old(img)@, addr, depth as nat)),
    decreases depth, 1nat,
{
    let list = read_messages(img.heap.data, img.heap.base, addr);
    let ghost views = list@.messages;
    let n: usize = list.messages.len();
    let mut h = new_header();
    let mut i: usize = 0;
    while i < n
        invariant
            i <= n == list.messages@.len(),
            views == message_views(list.messages@),
            img.wf(),
            img@ == old(img)@,
            h.wf(),
            header_float(old(img)@, addr, depth as nat) == messages_float(
                old(img)@,
                views,
                i as int,
                h@,
                depth as nat,
            ),
        decreases n - i,
    {
        assert(views[i as int] == list.messages@[i as int]@);
        match handle_message(img, &list.messages[i], h, depth) {
            Ok(next) => {
                h = next;
            },
            Err(_) => {
                return find_message_float(img, &list.messages[i], depth);
            },
        }
        i += 1;
    }
    None
}

} // verus!
