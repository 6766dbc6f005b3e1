//! Links in messages are read as they are written, and so are the groups that hold them.

use vstd::prelude::*;

use vstd::utf8::encode_utf8;

use crate::format::datatype_laws::{lemma_nul, plain_name};
use crate::format::encode::{length_bytes, link_flags, link_message, link_options, target_bytes};
use crate::format::group::{link_members, MemberLink};
use crate::format::dense_laws::{
    in_hash_order, law_dense_links_read, lemma_dense_links_extend, link_names,
};
use crate::format::group_laws::{lemma_first, lemma_header_grows};
use crate::format::group_write::{dense_links_written, link_bodies, Ref};
use crate::format::header::{size_width, MSG_GROUP_INFO, MSG_LINK, MSG_LINK_INFO};
use crate::format::header_laws::{messages_read, no_continuation};
use crate::format::header_write::plain_message;
use crate::format::messages::c_text;
use crate::format::object::{
    after_nul, all_applied, empty_header, link_parsed, maybe_taken, plain_applied, target_taken,
    HeaderView, ImageView, RawLinkView, RawTargetView,
};
use crate::format::object_laws::{
    attrs_back, attrs_dense, fill_of, header_fits, keeps, lemma_header_back, lemma_plain_then,
    node_plain, whole_messages,
};
use crate::format::object_write::{finished, ImageOut};
use crate::format::reader::{object_read, RawKindView, RawObjectView};
use crate::format::share_laws::{grows, lemma_plain_grows, sound};
use crate::format::tree_laws::lemma_keeps_less;
use crate::format::writer::{compact_finished, compact_messages, link_info};
use crate::format::{
    law_le_round_trip, le, le_bytes, lemma_le_bytes_len, lemma_pow256, pow256, taken_bytes,
    taken_uint, UNDEF,
};
use crate::model::{LinkView, NodeView, TargetView};
use crate::text::{law_text_of_utf8, text_of};

verus! {

/// Whether a link can be told from its message: lengths are within the range of their
/// fields, and neither the file nor the path of an external link holds a zero byte.
pub open spec fn link_plain(l: LinkView) -> bool {
    &&& encode_utf8(l.name).len() < 0x1_0000_0000
    &&& match l.target {
        TargetView::Hard(_) => true,
        TargetView::Soft(p) => encode_utf8(p).len() < 0x1_0000,
        TargetView::External { file, path } => plain_name(file) && plain_name(path) && encode_utf8(
            file,
        ).len() + encode_utf8(path).len() + 3 < 0x1_0000,
    }
}

/// Where a link is read to lead.
pub open spec fn raw_target(t: TargetView, addr: u64) -> RawTargetView {
    match t {
        TargetView::Hard(_) => RawTargetView::Hard(addr),
        TargetView::Soft(p) => RawTargetView::Soft(p),
        TargetView::External { file, path } => RawTargetView::External { file, path },
    }
}

/// What a link message is read as.
pub open spec fn raw_link(l: LinkView, addr: u64) -> RawLinkView {
    RawLinkView {
        name: l.name,
        target: raw_target(l.target, addr),
        creation_order: 0,
        utf8: l.utf8,
    }
}

/// A number is taken from the front.
proof fn lemma_uint_front(v: nat, n: nat, s: Seq<u8>)
    requires
        v < pow256(n),
    ensures
        taken_uint(le_bytes(v, n) + s, n) == Ok::<(nat, Seq<u8>), Seq<char>>((v, s)),
{
    lemma_le_bytes_len(v, n);
    law_le_round_trip(v, n);
    let all = le_bytes(v, n) + s;
    assert(all.take(n as int) =~= le_bytes(v, n));
    assert(all.skip(n as int) =~= s);
}

/// Bytes are taken from the front.
proof fn lemma_bytes_front(b: Seq<u8>, s: Seq<u8>)
    ensures
        taken_bytes(b + s, b.len()) == Ok::<(Seq<u8>, Seq<u8>), Seq<char>>((b, s)),
{
    assert((b + s).take(b.len() as int) =~= b);
    assert((b + s).skip(b.len() as int) =~= s);
}

/// A byte is taken from the front.
proof fn lemma_byte_front(v: u8, s: Seq<u8>)
    ensures
        taken_uint(seq![v] + s, 1) == Ok::<(nat, Seq<u8>), Seq<char>>((v as nat, s)),
{
    let all = seq![v] + s;
    assert(all.take(1) =~= seq![v]);
    assert(all.skip(1) =~= s);
    reveal_with_fuel(le, 2);
}

proof fn lemma_cut_text(text: Seq<char>, s: Seq<u8>)
    requires
        plain_name(text),
    ensures
        c_text(encode_utf8(text) + seq![0u8] + s) == text,
        after_nul(encode_utf8(text) + seq![0u8] + s) == s,
{
    let b = encode_utf8(text);
    let all = b + seq![0u8] + s;
    assert forall|i: int| 0 <= i < b.len() implies #[trigger] all[i] != 0 by {
        assert(all[i] == b[i]);
    }
    lemma_nul(all, b.len() as int, 0);
    assert(all.take(b.len() as int) =~= b);
    assert(all.skip(b.len() as int + 1) =~= s);
    law_text_of_utf8(text);
}

/// The target of a link is read.
proof fn lemma_target(t: TargetView, addr: u64, s: Seq<u8>)
    requires
        match t {
            TargetView::Hard(_) => true,
            TargetView::Soft(p) => encode_utf8(p).len() < 0x1_0000,
            TargetView::External { file, path } => plain_name(file) && plain_name(path)
                && encode_utf8(file).len() + encode_utf8(path).len() + 3 < 0x1_0000,
        },
    ensures
        target_taken(
            target_bytes(t, addr) + s,
            match t {
                TargetView::Hard(_) => 0,
                TargetView::Soft(_) => 1,
                TargetView::External { .. } => 64,
            },
        ) == Ok::<Option<RawTargetView>, Seq<char>>(Some(raw_target(t, addr))),
{
    lemma_pow256();
    match t {
        TargetView::Hard(_) => {
            lemma_uint_front(addr as nat, 8, s);
        },
        TargetView::Soft(p) => {
            let b = encode_utf8(p);
            assert(target_bytes(t, addr) + s =~= le_bytes(b.len(), 2) + (b + s));
            lemma_uint_front(b.len(), 2, b + s);
            lemma_bytes_front(b, s);
            law_text_of_utf8(p);
        },
        TargetView::External { file, path } => {
            let (a, c) = (encode_utf8(file), encode_utf8(path));
            let b = seq![0u8] + a + seq![0u8] + c + seq![0u8];
            assert(b.len() == a.len() + c.len() + 3);
            assert(target_bytes(t, addr) + s =~= le_bytes(b.len(), 2) + (b + s));
            lemma_uint_front(b.len(), 2, b + s);
            lemma_bytes_front(b, s);
            let none = Seq::<u8>::empty();
            let tail = c + seq![0u8] + none;
            assert(b.skip(1) =~= a + seq![0u8] + tail);
            lemma_cut_text(file, tail);
            lemma_cut_text(path, none);
        },
    }
}

proof fn lemma_flags(l: LinkView)
    ensures
        (link_flags(l) / 8 % 2 == 1) == !(l.target is Hard),
        link_flags(l) / 4 % 2 == 0,
        (link_flags(l) / 16 % 2 == 1) == l.utf8,
        length_bytes(encode_utf8(l.name).len()) == le_bytes(
            encode_utf8(l.name).len(),
            size_width(link_flags(l)),
        ),
        encode_utf8(l.name).len() < 0x1_0000_0000 ==> encode_utf8(l.name).len() < pow256(
            size_width(link_flags(l)),
        ),
{
    lemma_pow256();
}

/// The number that tells the kind of a link.
spec fn kind_number(t: TargetView) -> nat {
    match t {
        TargetView::Hard(_) => 0,
        TargetView::Soft(_) => 1,
        TargetView::External { .. } => 64,
    }
}

/// What stands in front of the length of a name is read.
proof fn lemma_options(l: LinkView, r: Seq<u8>) -> (mid: Seq<u8>)
    ensures
        maybe_taken(link_options(l) + r, !(l.target is Hard), 1) == Ok::<
            (nat, Seq<u8>),
            Seq<char>,
        >((kind_number(l.target), mid)),
        maybe_taken(mid, l.utf8, 1) matches Ok(x) && (x.0 == 1) == l.utf8 && x.1 == r,
{
    let set = if l.utf8 {
        seq![1u8]
    } else {
        Seq::empty()
    };
    let mid = set + r;
    if l.utf8 {
        lemma_byte_front(1, r);
    } else {
        assert(mid =~= r);
    }
    match l.target {
        TargetView::Hard(_) => {
            assert(link_options(l) + r =~= mid);
        },
        TargetView::Soft(_) => {
            assert(link_options(l) + r =~= seq![1u8] + mid);
            lemma_byte_front(1, mid);
        },
        TargetView::External { .. } => {
            assert(link_options(l) + r =~= seq![64u8] + mid);
            lemma_byte_front(64, mid);
        },
    }
    mid
}

/// A link is read as it is written: its name, where it leads and its character set come
/// back.
pub proof fn law_link_message_read(l: LinkView, addr: u64, s: Seq<u8>)
    requires
        link_plain(l),
    ensures
        link_parsed(link_message(l, addr) + s) == Ok::<Option<RawLinkView>, Seq<char>>(
            Some(raw_link(l, addr)),
        ),
{
    let name = encode_utf8(l.name);
    let flags = link_flags(l);
    let width = size_width(flags);
    let body = link_message(l, addr) + s;
    let r5 = target_bytes(l.target, addr) + s;
    let r3 = le_bytes(name.len(), width) + (name + r5);
    lemma_flags(l);
    lemma_message_parts(l, addr, s, r3);
    let mid = lemma_options(l, r3);
    lemma_uint_front(name.len(), width, name + r5);
    lemma_bytes_front(name, r5);
    law_text_of_utf8(l.name);
    lemma_target(l.target, addr, s);
    lemma_link_parts(
        body,
        !(l.target is Hard),
        l.utf8,
        kind_number(l.target),
        mid,
        r3,
        name,
        r5,
        l,
        addr,
    );
}

proof fn lemma_message_parts(l: LinkView, addr: u64, s: Seq<u8>, r3: Seq<u8>)
    requires
        r3 == length_bytes(encode_utf8(l.name).len()) + (encode_utf8(l.name) + (target_bytes(
            l.target,
            addr,
        ) + s)),
    ensures
        (link_message(l, addr) + s).len() >= 2,
        (link_message(l, addr) + s)[0] == 1,
        (link_message(l, addr) + s)[1] == link_flags(l),
        (link_message(l, addr) + s).skip(2) == link_options(l) + r3,
{
    let body = link_message(l, addr) + s;
    assert(body =~= seq![1u8, link_flags(l)] + (link_options(l) + r3));
    assert(body.skip(2) =~= link_options(l) + r3);
}

/// A message is read part by part.
proof fn lemma_link_parts(
    body: Seq<u8>,
    typed: bool,
    charset: bool,
    kind: nat,
    mid: Seq<u8>,
    r3: Seq<u8>,
    name: Seq<u8>,
    r5: Seq<u8>,
    l: LinkView,
    addr: u64,
)
    requires
        body.len() >= 2,
        body[0] == 1,
        (body[1] / 8 % 2 == 1) == typed,
        body[1] / 4 % 2 == 0,
        (body[1] / 16 % 2 == 1) == charset,
        maybe_taken(body.skip(2), typed, 1) == Ok::<(nat, Seq<u8>), Seq<char>>((kind, mid)),
        maybe_taken(mid, charset, 1) matches Ok(x) && (x.0 == 1) == l.utf8 && x.1 == r3,
        taken_uint(r3, size_width(body[1])) == Ok::<(nat, Seq<u8>), Seq<char>>(
            (name.len(), name + r5),
        ),
        taken_bytes(name + r5, name.len()) == Ok::<(Seq<u8>, Seq<u8>), Seq<char>>((name, r5)),
        target_taken(r5, kind) == Ok::<Option<RawTargetView>, Seq<char>>(
            Some(raw_target(l.target, addr)),
        ),
        text_of(name) == l.name,
    ensures
        link_parsed(body) == Ok::<Option<RawLinkView>, Seq<char>>(Some(raw_link(l, addr))),
{
    assert(maybe_taken(mid, false, 8) == Ok::<(nat, Seq<u8>), Seq<char>>((0nat, mid)));
    assert((0nat as u64) as i64 == 0);
}

// Groups.

/// What the link messages of a group are read as.
pub open spec fn raw_links(list: Seq<LinkView>, refs: Seq<Ref>) -> Seq<RawLinkView> {
    Seq::new(list.len(), |i: int| raw_link(list[i], refs[i].oh_addr))
}

/// Whether the header of a group has room for its link messages.
pub open spec fn compact_fits(n: NodeView, list: Seq<LinkView>) -> bool {
    forall|refs: Seq<Ref>|
        refs.len() == list.len() ==> header_fits(
            whole_messages(compact_messages(UNDEF, UNDEF, #[trigger] link_bodies(list, refs)), n),
        )
}

proof fn lemma_info_applied(img: ImageView, heap: u64, tree: u64, h: HeaderView, s: Seq<u8>)
    requires
        h.dense_links is None,
    ensures
        plain_applied(img, MSG_LINK_INFO, link_info(heap, tree) + s, h) == Ok::<
            HeaderView,
            Seq<char>,
        >(
            HeaderView {
                group_like: true,
                dense_links: if heap != UNDEF && tree != UNDEF {
                    Some((heap, tree))
                } else {
                    None
                },
                ..h
            },
        ),
{
    reveal(plain_applied);
    let body = link_info(heap, tree) + s;
    lemma_pow256();
    lemma_le_bytes_len(heap as nat, 8);
    lemma_le_bytes_len(tree as nat, 8);
    law_le_round_trip(heap as nat, 8);
    law_le_round_trip(tree as nat, 8);
    let r = body.skip(2);
    let b = r.take(16);
    assert(b.subrange(0, 8) =~= le_bytes(heap as nat, 8));
    assert(b.subrange(8, 16) =~= le_bytes(tree as nat, 8));
}

proof fn lemma_note_applied(img: ImageView, h: HeaderView, s: Seq<u8>)
    ensures
        plain_applied(img, MSG_GROUP_INFO, s, h) == Ok::<HeaderView, Seq<char>>(
            HeaderView { group_like: true, ..h },
        ),
{
    reveal(plain_applied);
}

proof fn lemma_link_applied(img: ImageView, l: LinkView, addr: u64, h: HeaderView, s: Seq<u8>)
    requires
        link_plain(l),
    ensures
        plain_applied(img, MSG_LINK, link_message(l, addr) + s, h) == Ok::<HeaderView, Seq<char>>(
            HeaderView { links: h.links.push(raw_link(l, addr)), ..h },
        ),
{
    reveal(plain_applied);
    law_link_message_read(l, addr, s);
}

/// The messages of a group are read, with the first `k` of its links.
proof fn lemma_compact_applied(
    img: ImageView,
    list: Seq<LinkView>,
    refs: Seq<Ref>,
    k: nat,
    fill: bool,
    depth: nat,
)
    requires
        k <= list.len(),
        forall|i: int| 0 <= i < list.len() ==> link_plain(#[trigger] list[i]),
    ensures
        all_applied(
            img,
            messages_read(
                compact_messages(UNDEF, UNDEF, link_bodies(list, refs).take(k as int)),
                fill,
            ),
            0,
            empty_header(),
            depth,
        ) == Ok::<HeaderView, Seq<char>>(
            HeaderView {
                group_like: true,
                links: raw_links(list, refs).take(k as int),
                ..empty_header()
            },
        ),
    decreases k,
{
    let bodies = link_bodies(list, refs);
    let raws = raw_links(list, refs);
    if k == 0 {
        let info = link_info(UNDEF, UNDEF);
        let h1 = HeaderView { group_like: true, ..empty_header() };
        lemma_info_applied(img, UNDEF, UNDEF, empty_header(), fill_of(info, fill));
        lemma_first(img, MSG_LINK_INFO, info, fill, h1, depth);
        let note = seq![0u8, 0u8];
        lemma_note_applied(img, h1, note + fill_of(note, fill));
        lemma_plain_then(
            img,
            seq![plain_message(MSG_LINK_INFO, info)],
            MSG_GROUP_INFO,
            note,
            fill,
            h1,
            h1,
            depth,
        );
        assert(compact_messages(UNDEF, UNDEF, bodies.take(0)) =~= seq![
            plain_message(MSG_LINK_INFO, info),
        ].push(plain_message(MSG_GROUP_INFO, note)));
        assert(raws.take(0) =~= Seq::empty());
    } else {
        let j = (k - 1) as nat;
        lemma_compact_applied(img, list, refs, j, fill, depth);
        let l = list[j as int];
        let addr = refs[j as int].oh_addr;
        let h = HeaderView { group_like: true, links: raws.take(j as int), ..empty_header() };
        let body = link_message(l, addr);
        lemma_link_applied(img, l, addr, h, fill_of(body, fill));
        assert(raws.take(k as int) =~= raws.take(j as int).push(raw_link(l, addr)));
        lemma_plain_then(
            img,
            compact_messages(UNDEF, UNDEF, bodies.take(j as int)),
            MSG_LINK,
            body,
            fill,
            h,
            HeaderView { links: raws.take(k as int), ..h },
            depth,
        );
        assert(compact_messages(UNDEF, UNDEF, bodies.take(k as int)) =~= compact_messages(
            UNDEF,
            UNDEF,
            bodies.take(j as int),
        ).push(plain_message(MSG_LINK, body)));
    }
}

proof fn lemma_no_continuation(heap: u64, tree: u64, bodies: Seq<Seq<u8>>)
    ensures
        no_continuation(compact_messages(heap, tree, bodies)),
{
    let ms = compact_messages(heap, tree, bodies);
    assert forall|i: int| 0 <= i < ms.len() implies (#[trigger] ms[i]).kind
        != crate::format::header::MSG_CONTINUATION by {
        if i >= 2 {
            assert(ms[i] == plain_message(MSG_LINK, bodies[i - 2]));
        }
    }
}

/// A group with link messages is read as it was written, from any file that holds the
/// image.
pub proof fn law_compact_group_read(
    img: ImageView,
    w: ImageOut,
    n: NodeView,
    list: Seq<LinkView>,
    refs: Seq<Ref>,
    w1: ImageOut,
    r: Ref,
)
    requires
        compact_finished(w, n, list, refs) == Ok::<(ImageOut, Ref), Seq<char>>((w1, r)),
        list.len() <= 8,
        refs.len() == list.len(),
        w.buf.len() >= 96,
        w1.buf.len() < u64::MAX,
        img.data.len() <= u64::MAX,
        keeps(img.data, img.base, w1.buf, w.buf.len()),
        node_plain(n),
        compact_fits(n, list),
        forall|i: int| 0 <= i < list.len() ==> link_plain(#[trigger] list[i]),
    ensures
        object_read(img, r.oh_addr) == Ok::<RawObjectView, Seq<char>>(
            RawObjectView {
                kind: RawKindView::Group(link_members(raw_links(list, refs))),
                attrs: attrs_back(n.attrs),
                comment: n.comment,
                mtime: n.mtime,
                mappings: None,
            },
        ),
{
    let bodies = link_bodies(list, refs);
    let ms = compact_messages(UNDEF, UNDEF, bodies);
    let depth = img.data.len();
    assert(finished(w, n, ms) == Ok::<(ImageOut, u64), Seq<char>>((w1, r.oh_addr))) by {
        reveal(compact_finished);
    }
    let raws = raw_links(list, refs);
    let h = HeaderView { group_like: true, links: raws, ..empty_header() };
    lemma_compact_applied(img, list, refs, list.len(), !attrs_dense(n.attrs), depth);
    assert(bodies.take(list.len() as int) =~= bodies);
    assert(raws.take(list.len() as int) =~= raws);
    lemma_no_continuation(UNDEF, UNDEF, bodies);
    assert(header_fits(whole_messages(ms, n)));
    lemma_header_back(img, w, n, ms, w1, r.oh_addr, h, depth);
    let none = Seq::<MemberLink>::empty();
    assert(none + link_members(raws) =~= link_members(raws));
}

/// Whether the header of a group has room for the message that says where its links are.
pub open spec fn dense_fits(n: NodeView) -> bool {
    forall|heap: u64, tree: u64|
        header_fits(whole_messages(#[trigger] compact_messages(heap, tree, Seq::empty()), n))
}

/// The messages of a group with links in dense storage are read.
proof fn lemma_dense_applied(img: ImageView, heap: u64, tree: u64, fill: bool, depth: nat)
    requires
        heap != UNDEF,
        tree != UNDEF,
    ensures
        all_applied(
            img,
            messages_read(compact_messages(heap, tree, Seq::empty()), fill),
            0,
            empty_header(),
            depth,
        ) == Ok::<HeaderView, Seq<char>>(
            HeaderView { group_like: true, dense_links: Some((heap, tree)), ..empty_header() },
        ),
{
    let info = link_info(heap, tree);
    let h1 = HeaderView { group_like: true, dense_links: Some((heap, tree)), ..empty_header() };
    lemma_info_applied(img, heap, tree, empty_header(), fill_of(info, fill));
    lemma_first(img, MSG_LINK_INFO, info, fill, h1, depth);
    let note = seq![0u8, 0u8];
    lemma_note_applied(img, h1, note + fill_of(note, fill));
    lemma_plain_then(
        img,
        seq![plain_message(MSG_LINK_INFO, info)],
        MSG_GROUP_INFO,
        note,
        fill,
        h1,
        h1,
        depth,
    );
    assert(compact_messages(heap, tree, Seq::empty()) =~= seq![
        plain_message(MSG_LINK_INFO, info),
    ].push(plain_message(MSG_GROUP_INFO, note)));
}

/// A group with links in dense storage is read as it was written, from any file that
/// holds the image.
pub proof fn law_dense_group_read(
    img: ImageView,
    w: ImageOut,
    n: NodeView,
    list: Seq<LinkView>,
    refs: Seq<Ref>,
    w1: ImageOut,
    r: Ref,
)
    requires
        compact_finished(w, n, list, refs) == Ok::<(ImageOut, Ref), Seq<char>>((w1, r)),
        8 < list.len() <= 0xffff,
        refs.len() == list.len(),
        w.buf.len() >= 96,
        w1.buf.len() < u64::MAX,
        img.data.len() <= u64::MAX,
        keeps(img.data, img.base, w1.buf, w.buf.len()),
        node_plain(n),
        dense_fits(n),
        forall|i: int| 0 <= i < list.len() ==> link_plain(#[trigger] list[i]),
    ensures
        object_read(img, r.oh_addr) == Ok::<RawObjectView, Seq<char>>(
            RawObjectView {
                kind: RawKindView::Group(
                    link_members(in_hash_order(raw_links(list, refs), link_names(list))),
                ),
                attrs: attrs_back(n.attrs),
                comment: n.comment,
                mtime: n.mtime,
                mappings: None,
            },
        ),
{
    let (s, heap, tree) = dense_links_written(w.buf, list, refs)->Ok_0;
    let mid = ImageOut { buf: s, ..w };
    let ms = compact_messages(heap, tree, Seq::empty());
    let depth = img.data.len();
    assert(dense_links_written(w.buf, list, refs) is Ok && finished(mid, n, ms) == Ok::<
        (ImageOut, u64),
        Seq<char>,
    >((w1, r.oh_addr))) by {
        reveal(compact_finished);
    }
    lemma_header_grows(mid, n, ms, w1, r.oh_addr);
    lemma_keeps_less(img.data, img.base, w1.buf, s, w.buf.len());
    law_dense_links_read(
        img.data,
        img.base,
        img.given,
        w.buf,
        list,
        refs,
        s,
        heap,
        tree,
        w.buf.len(),
    );
    lemma_dense_links_extend(w.buf, list, refs);
    lemma_dense_link_places(w.buf, list, refs);
    let h = HeaderView { group_like: true, dense_links: Some((heap, tree)), ..empty_header() };
    lemma_dense_applied(img, heap, tree, !attrs_dense(n.attrs), depth);
    lemma_no_continuation(heap, tree, Seq::empty());
    assert(header_fits(whole_messages(ms, n)));
    lemma_header_back(img, mid, n, ms, w1, r.oh_addr, h, depth);
    let none = Seq::<MemberLink>::empty();
    let dense = link_members(in_hash_order(raw_links(list, refs), link_names(list)));
    assert(link_members(Seq::empty()) =~= none);
    assert(none + none + dense =~= dense);
}

/// The parts of dense storage stand within the image.
proof fn lemma_dense_link_places(s: Seq<u8>, list: Seq<LinkView>, refs: Seq<Ref>)
    requires
        dense_links_written(s, list, refs) matches Ok(x) && x.0.len() < u64::MAX,
    ensures
        dense_links_written(s, list, refs)->Ok_0.1 != UNDEF,
        dense_links_written(s, list, refs)->Ok_0.2 != UNDEF,
{
    lemma_dense_links_extend(s, list, refs);
    reveal(dense_links_written);
    let objects = link_bodies(list, refs);
    let (s1, heap, ids) = crate::format::dense::heap_written(s, objects, 7, 32)->Ok_0;
    crate::format::heap_laws::lemma_heap_place(s, objects, 7, 32);
    let records = crate::format::attr_write::bare(
        crate::format::attr_write::by_hash(
            crate::format::group_write::link_records(list, ids),
        ),
    );
    crate::format::heap_laws::lemma_leaf_place(s1, 5, 11, records);
}

/// A group with link messages stands behind the image before it.
pub(crate) proof fn lemma_compact_grows(
    w: ImageOut,
    n: NodeView,
    list: Seq<LinkView>,
    refs: Seq<Ref>,
    w1: ImageOut,
    r: Ref,
)
    requires
        compact_finished(w, n, list, refs) == Ok::<(ImageOut, Ref), Seq<char>>((w1, r)),
        sound(w),
    ensures
        grows(w1, w),
        sound(w1),
        w1.patches == w.patches,
        w1.memo == w.memo,
        r.cache_type == 0,
        r.oh_addr < w1.buf.len(),
        w1.buf.len() <= u64::MAX ==> r.oh_addr >= w.buf.len(),
{
    reveal(compact_finished);
    if list.len() > 8 {
        let (s, heap, tree) = dense_links_written(w.buf, list, refs)->Ok_0;
        lemma_dense_links_extend(w.buf, list, refs);
        let ms = compact_messages(heap, tree, Seq::empty());
        lemma_header_grows(ImageOut { buf: s, ..w }, n, ms, w1, r.oh_addr);
        lemma_plain_grows(w, s, n, ms, w1, r.oh_addr);
    } else {
        let ms = compact_messages(UNDEF, UNDEF, link_bodies(list, refs));
        lemma_header_grows(w, n, ms, w1, r.oh_addr);
        assert(w.buf.take(w.buf.len() as int) =~= w.buf);
        lemma_plain_grows(w, w.buf, n, ms, w1, r.oh_addr);
    }
}

} // verus!
