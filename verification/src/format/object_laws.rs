//! Objects are read as they are written.

use vstd::prelude::*;
use vstd::utf8::encode_utf8;

use crate::format::attr_laws::{
    attr_back, attr_bodies, attr_body, attr_plain, attr_stored, attrs_plain, bodies_told, body_told,
    law_attribute_read, lemma_attrs_encoded, lemma_attrs_extend,
};
use crate::format::attr_write::{
    attr_names, attrs_encoded, attrs_written, dense_attrs_written, too_large, AttrsView,
};
use crate::format::datatype::{encoded, OrderView};
use crate::format::datatype_laws::{law_datatype_round_trip, lemma_nul, plain_name, storable};
use crate::format::dense_laws::{
    in_hash_order, law_dense_attrs_read, lemma_dense_attrs_extend,
};
use crate::format::encode::{dataspace_message, fill_message, pipeline_message};
use crate::format::gheap::pad8;
use crate::format::header::{
    MessageView, MSG_ATTRIBUTE, MSG_ATTRIBUTE_INFO, MSG_COMMENT, MSG_DATASPACE, MSG_DATATYPE,
    MSG_FILL, MSG_FILTER, MSG_MOD_TIME,
};
use crate::format::header_laws::{
    law_old_header_read, lemma_unsummed, lemma_unsummed_read, message_read, messages_read,
    no_continuation, unsummed,
};
use crate::format::header_write::{
    new_header, new_message, new_messages, old_header, old_message, old_messages, patches_of,
    plain_message, OutView,
};
use crate::format::lower::lowered;
use crate::format::message_laws::{
    filters_plain, law_dataspace_read, law_fill_read, law_pipeline_read, space_plain,
};
use crate::format::messages::{c_text, LayoutView, SpaceView};
use crate::format::object::{
    all_applied, applied, empty_header, header_parsed, plain_applied, HeaderView, ImageView,
};
use crate::format::object_write::{
    attr_info, attr_messages, comment_message, finished, note_messages, time_message, unit_count,
    ImageOut,
};
use crate::format::reader::all_attrs;
use crate::format::share::shared;
use crate::format::stands::{lemma_stands, stands};
use crate::format::tree::{appended, end_of, extends, lemma_appended, lemma_extends, padded};
use crate::format::tree_laws::lemma_keeps_less;
use crate::format::{
    law_le_round_trip, le_at, le_bytes, lemma_le_bytes_len, lemma_pow256, zeroes, UNDEF,
};
use crate::model::{AttrView, DatasetView, FillView, NodeView};
use crate::text::law_text_of_utf8;

verus! {

/// Messages one behind the other are applied one behind the other.
proof fn lemma_applied_from(
    img: ImageView,
    a: Seq<MessageView>,
    b: Seq<MessageView>,
    i: int,
    h: HeaderView,
    depth: nat,
)
    requires
        0 <= i <= a.len(),
    ensures
        all_applied(img, a + b, i, h, depth) == match all_applied(img, a, i, h, depth) {
            Err(e) => Err(e),
            Ok(h1) => all_applied(img, b, 0, h1, depth),
        },
    decreases a.len() - i,
{
    if i < a.len() {
        assert((a + b)[i] == a[i]);
        match applied(img, a[i], h, depth) {
            Err(e) => {},
            Ok(next) => lemma_applied_from(img, a, b, i + 1, next, depth),
        }
    } else {
        lemma_applied_shift(img, a, b, 0, h, depth);
    }
}

proof fn lemma_applied_shift(
    img: ImageView,
    a: Seq<MessageView>,
    b: Seq<MessageView>,
    j: int,
    h: HeaderView,
    depth: nat,
)
    requires
        0 <= j <= b.len(),
    ensures
        all_applied(img, a + b, a.len() + j, h, depth) == all_applied(img, b, j, h, depth),
    decreases b.len() - j,
{
    if j < b.len() {
        assert((a + b)[a.len() + j] == b[j]);
        match applied(img, b[j], h, depth) {
            Err(e) => {},
            Ok(next) => lemma_applied_shift(img, a, b, j + 1, next, depth),
        }
    }
}

proof fn lemma_applied_one(img: ImageView, m: MessageView, h: HeaderView, depth: nat)
    ensures
        all_applied(img, seq![m], 0, h, depth) == applied(img, m, h, depth),
{
    reveal_with_fuel(all_applied, 2);
    assert(seq![m][0] == m);
}

/// Messages that are added to a header that is read well.
proof fn lemma_then(
    img: ImageView,
    a: Seq<MessageView>,
    m: MessageView,
    h: HeaderView,
    h1: HeaderView,
    h2: HeaderView,
    depth: nat,
)
    requires
        all_applied(img, a, 0, h, depth) == Ok::<HeaderView, Seq<char>>(h1),
        !m.shared(),
        plain_applied(img, m.mtype, m.body, h1) == Ok::<HeaderView, Seq<char>>(h2),
    ensures
        all_applied(img, a.push(m), 0, h, depth) == Ok::<HeaderView, Seq<char>>(h2),
{
    lemma_applied_push(img, a, m, h, h1, h2, depth);
}

/// One more message.
pub(crate) proof fn lemma_applied_push(
    img: ImageView,
    a: Seq<MessageView>,
    m: MessageView,
    h: HeaderView,
    h1: HeaderView,
    h2: HeaderView,
    depth: nat,
)
    requires
        all_applied(img, a, 0, h, depth) == Ok::<HeaderView, Seq<char>>(h1),
        applied(img, m, h1, depth) == Ok::<HeaderView, Seq<char>>(h2),
    ensures
        all_applied(img, a.push(m), 0, h, depth) == Ok::<HeaderView, Seq<char>>(h2),
{
    assert(a.push(m) =~= a + seq![m]);
    lemma_applied_from(img, a, seq![m], 0, h, depth);
    lemma_applied_one(img, m, h1, depth);
}

/// Whether a comment can be told from its message.
pub open spec fn comment_plain(c: Option<Seq<char>>) -> bool {
    match c {
        None => true,
        Some(text) => plain_name(text),
    }
}

proof fn lemma_comment(text: Seq<char>, s: Seq<u8>)
    requires
        plain_name(text),
    ensures
        c_text(comment_message(text) + s) == text,
{
    let bytes = encode_utf8(text);
    let all = comment_message(text) + s;
    assert forall|i: int| 0 <= i < bytes.len() implies #[trigger] all[i] != 0 by {
        assert(all[i] == bytes[i]);
    }
    lemma_nul(all, bytes.len() as int, 0);
    assert(all.take(bytes.len() as int) =~= bytes);
    law_text_of_utf8(text);
}

proof fn lemma_time(mtime: u32, s: Seq<u8>)
    ensures
        (time_message(mtime) + s).len() >= 8,
        (time_message(mtime) + s)[0] == 1,
        le_at(time_message(mtime) + s, 4, 4) == mtime,
{
    let all = time_message(mtime) + s;
    lemma_pow256();
    law_le_round_trip(mtime as nat, 4);
    assert(all.subrange(4, 8) =~= le_bytes(mtime as nat, 4));
}

/// The tail of a message as it is read.
pub open spec fn fill_of(body: Seq<u8>, fill: bool) -> Seq<u8> {
    if fill {
        zeroes(pad8(body.len() as int) as nat)
    } else {
        Seq::empty()
    }
}

proof fn lemma_read_body(kind: u16, body: Seq<u8>, fill: bool)
    ensures
        message_read(plain_message(kind, body), fill).body == body + fill_of(body, fill),
        !message_read(plain_message(kind, body), fill).shared(),
        message_read(plain_message(kind, body), fill).mtype == kind,
{
    assert(body + Seq::<u8>::empty() =~= body);
}

/// The notes of an object are read as they are written.
proof fn lemma_notes(
    img: ImageView,
    n: NodeView,
    fill: bool,
    ms: Seq<OutView>,
    h: HeaderView,
    depth: nat,
)
    requires
        comment_plain(n.comment),
        h.mtime == 0,
        h.comment is None,
        all_applied(img, messages_read(ms, fill), 0, empty_header(), depth) == Ok::<
            HeaderView,
            Seq<char>,
        >(h),
    ensures
        all_applied(
            img,
            messages_read(ms + note_messages(n), fill),
            0,
            empty_header(),
            depth,
        ) == Ok::<HeaderView, Seq<char>>(
            HeaderView { mtime: n.mtime, comment: n.comment, ..h },
        ),
{
    let first = if n.mtime != 0 {
        seq![plain_message(MSG_MOD_TIME, time_message(n.mtime))]
    } else {
        Seq::empty()
    };
    let ms1 = ms + first;
    let h1 = HeaderView { mtime: n.mtime, ..h };
    if n.mtime != 0 {
        let body = time_message(n.mtime);
        lemma_read_body(MSG_MOD_TIME, body, fill);
        lemma_time(n.mtime, fill_of(body, fill));
        assert(plain_applied(img, MSG_MOD_TIME, body + fill_of(body, fill), h) == Ok::<
            HeaderView,
            Seq<char>,
        >(h1)) by {
            reveal(plain_applied);
        }
        let m = message_read(plain_message(MSG_MOD_TIME, body), fill);
        assert(messages_read(ms1, fill) =~= messages_read(ms, fill).push(m));
        lemma_then(img, messages_read(ms, fill), m, empty_header(), h, h1, depth);
    } else {
        assert(ms1 =~= ms);
    }
    let h2 = HeaderView { comment: n.comment, ..h1 };
    match n.comment {
        None => {
            assert(ms + note_messages(n) =~= ms1);
        },
        Some(text) => {
            let body = comment_message(text);
            lemma_read_body(MSG_COMMENT, body, fill);
            lemma_comment(text, fill_of(body, fill));
            assert(plain_applied(img, MSG_COMMENT, body + fill_of(body, fill), h1) == Ok::<
                HeaderView,
                Seq<char>,
            >(h2)) by {
                reveal(plain_applied);
            }
            let m = message_read(plain_message(MSG_COMMENT, body), fill);
            assert(messages_read(ms + note_messages(n), fill) =~= messages_read(ms1, fill).push(
                m,
            ));
            lemma_then(img, messages_read(ms1, fill), m, empty_header(), h1, h2, depth);
        },
    }
}

/// The attributes of an object are read as they are written.
proof fn lemma_attrs(
    img: ImageView,
    attrs: Seq<AttrView>,
    bodies: Seq<Seq<u8>>,
    fill: bool,
    ms: Seq<OutView>,
    h: HeaderView,
    depth: nat,
)
    requires
        attrs_plain(attrs),
        bodies_told(img.data, img.base, attrs, bodies, false),
        h.attrs.len() == 0,
        all_applied(img, messages_read(ms, fill), 0, empty_header(), depth) == Ok::<
            HeaderView,
            Seq<char>,
        >(h),
    ensures
        all_applied(
            img,
            messages_read(ms + attr_messages(AttrsView::Messages(bodies)), fill),
            0,
            empty_header(),
            depth,
        ) == Ok::<HeaderView, Seq<char>>(
            HeaderView { attrs: attrs.map_values(|a: AttrView| attr_back(a)), ..h },
        ),
    decreases attrs.len(),
{
    let all = ms + attr_messages(AttrsView::Messages(bodies));
    let back = attrs.map_values(|a: AttrView| attr_back(a));
    if attrs.len() == 0 {
        assert(all =~= ms);
        assert(h.attrs =~= back);
    } else {
        let init = attrs.drop_last();
        let front = bodies.drop_last();
        let a = attrs.last();
        assert(attrs_plain(init)) by {
            assert forall|i: int| 0 <= i < init.len() implies attr_plain(#[trigger] init[i]) by {
                assert(init[i] == attrs[i]);
            }
        }
        assert(bodies_told(img.data, img.base, init, front, false)) by {
            assert forall|i: int| 0 <= i < init.len() implies #[trigger] body_told(
                img.data,
                img.base,
                init[i],
                front[i],
                false,
            ) && front[i].len() == attr_bodies(init, false)[i].len() by {
                assert(body_told(img.data, img.base, attrs[i], bodies[i], false));
            }
        }
        assert(attr_plain(attrs[attrs.len() - 1]));
        assert(body_told(
            img.data,
            img.base,
            attrs[attrs.len() - 1],
            bodies[attrs.len() - 1],
            false,
        ));
        lemma_attrs(img, init, front, fill, ms, h, depth);
        let before = ms + attr_messages(AttrsView::Messages(front));
        let m = message_read(plain_message(MSG_ATTRIBUTE, bodies.last()), fill);
        let first = init.map_values(|x: AttrView| attr_back(x));
        let h1 = HeaderView { attrs: first, ..h };
        lemma_attr_applied(img, a, bodies.last(), fill, h1);
        lemma_attrs_front(bodies, ms, fill);
        assert(first.push(attr_back(a)) =~= back);
        lemma_then(
            img,
            messages_read(before, fill),
            m,
            empty_header(),
            h1,
            HeaderView { attrs: back, ..h },
            depth,
        );
    }
}

proof fn lemma_attr_applied(
    img: ImageView,
    a: AttrView,
    body: Seq<u8>,
    fill: bool,
    h: HeaderView,
)
    requires
        attr_plain(a),
        body_told(img.data, img.base, a, body, false),
    ensures
        ({
            let m = message_read(plain_message(MSG_ATTRIBUTE, body), fill);
            &&& !m.shared()
            &&& plain_applied(img, m.mtype, m.body, h) == Ok::<HeaderView, Seq<char>>(
                HeaderView { attrs: h.attrs.push(attr_back(a)), ..h },
            )
        }),
{
    reveal(plain_applied);
    let stored = choose|stored: Seq<u8>|
        #![trigger attr_stored(img.data, img.base, a, stored)]
        attr_stored(img.data, img.base, a, stored) && body == attr_body(a, stored, false);
    lemma_read_body(MSG_ATTRIBUTE, body, fill);
    law_attribute_read(img.data, img.base, a, stored, fill_of(body, fill));
}

proof fn lemma_attrs_front(bodies: Seq<Seq<u8>>, ms: Seq<OutView>, fill: bool)
    requires
        bodies.len() > 0,
    ensures
        messages_read(ms + attr_messages(AttrsView::Messages(bodies)), fill) == messages_read(
            ms + attr_messages(AttrsView::Messages(bodies.drop_last())),
            fill,
        ).push(message_read(plain_message(MSG_ATTRIBUTE, bodies.last()), fill)),
{
    let x = attr_messages(AttrsView::Messages(bodies));
    let y = attr_messages(AttrsView::Messages(bodies.drop_last()));
    let m = plain_message(MSG_ATTRIBUTE, bodies.last());
    assert(x =~= y.push(m));
    assert(ms + x =~= (ms + y).push(m));
    assert(messages_read((ms + y).push(m), fill) =~= messages_read(ms + y, fill).push(
        message_read(m, fill),
    ));
}

/// Whether the attributes of an object go to dense storage: the message of one is too
/// large for a header.
pub open spec fn attrs_dense(attrs: Seq<AttrView>) -> bool {
    too_large(attr_bodies(attrs, false))
}

/// What the attributes of an object are read back as. Those in dense storage come in the
/// order of the hashes of their names.
pub open spec fn attrs_back(attrs: Seq<AttrView>) -> Seq<AttrView> {
    let back = attrs.map_values(|a: AttrView| attr_back(a));
    if attrs_dense(attrs) {
        in_hash_order(back, attr_names(attrs))
    } else {
        back
    }
}

/// The dataspace of a dataset.
pub open spec fn dataset_space(d: DatasetView) -> SpaceView {
    SpaceView {
        dims: d.dims,
        maxdims: d.maxdims,
        is_scalar: d.is_scalar,
        is_null: d.is_null,
    }
}

/// Whether what the header of a dataset says can be told from its messages.
#[verifier::opaque]
pub open spec fn dataset_plain(d: DatasetView) -> bool {
    &&& space_plain(dataset_space(d))
    &&& storable(d.dtype)
    &&& d.dtype.sized()
    &&& d.fill matches FillView::UserDefined(v) ==> 0 < v.len() < 0x1_0000_0000
    &&& filters_plain(lowered(d, unit_count(d)))
}

/// What the header of a dataset says besides its notes and attributes.
pub open spec fn dataset_header(d: DatasetView, layout: LayoutView) -> HeaderView {
    HeaderView {
        space: Some(dataset_space(d)),
        dtype: Some((d.dtype, OrderView::Plain)),
        fill: d.fill,
        filters: lowered(d, unit_count(d)),
        layout: Some(layout),
        ..empty_header()
    }
}

/// One more plain message.
pub(crate) proof fn lemma_plain_then(
    img: ImageView,
    ms: Seq<OutView>,
    kind: u16,
    body: Seq<u8>,
    fill: bool,
    h: HeaderView,
    h1: HeaderView,
    depth: nat,
)
    requires
        all_applied(img, messages_read(ms, fill), 0, empty_header(), depth) == Ok::<
            HeaderView,
            Seq<char>,
        >(h),
        plain_applied(img, kind, body + fill_of(body, fill), h) == Ok::<HeaderView, Seq<char>>(h1),
    ensures
        all_applied(
            img,
            messages_read(ms.push(plain_message(kind, body)), fill),
            0,
            empty_header(),
            depth,
        ) == Ok::<HeaderView, Seq<char>>(h1),
{
    lemma_read_body(kind, body, fill);
    let m = message_read(plain_message(kind, body), fill);
    assert(messages_read(ms.push(plain_message(kind, body)), fill) =~= messages_read(
        ms,
        fill,
    ).push(m));
    lemma_then(img, messages_read(ms, fill), m, empty_header(), h, h1, depth);
}

pub(crate) proof fn lemma_space_applied(img: ImageView, d: DatasetView, h: HeaderView, s: Seq<u8>)
    requires
        dataset_plain(d),
    ensures
        plain_applied(
            img,
            MSG_DATASPACE,
            dataspace_message(d.dims, d.maxdims, d.is_scalar, d.is_null) + s,
            h,
        ) == Ok::<HeaderView, Seq<char>>(HeaderView { space: Some(dataset_space(d)), ..h }),
{
    reveal(dataset_plain);
    reveal(plain_applied);
    law_dataspace_read(dataset_space(d), s);
}

pub(crate) proof fn lemma_type_applied(img: ImageView, d: DatasetView, h: HeaderView, s: Seq<u8>)
    requires
        dataset_plain(d),
    ensures
        plain_applied(img, MSG_DATATYPE, encoded(d.dtype) + s, h) == Ok::<HeaderView, Seq<char>>(
            HeaderView { dtype: Some((d.dtype, OrderView::Plain)), ..h },
        ),
{
    reveal(dataset_plain);
    reveal(plain_applied);
    law_datatype_round_trip(d.dtype, s);
}

pub(crate) proof fn lemma_fill_applied(img: ImageView, d: DatasetView, h: HeaderView, s: Seq<u8>)
    requires
        dataset_plain(d),
        h.fill == FillView::Undefined,
    ensures
        plain_applied(img, MSG_FILL, fill_message(d.fill) + s, h) == Ok::<HeaderView, Seq<char>>(
            HeaderView { fill: d.fill, ..h },
        ),
{
    reveal(dataset_plain);
    reveal(plain_applied);
    law_fill_read(d.fill, s);
}

pub(crate) proof fn lemma_filters_applied(img: ImageView, d: DatasetView, h: HeaderView, s: Seq<u8>)
    requires
        dataset_plain(d),
    ensures
        plain_applied(
            img,
            MSG_FILTER,
            pipeline_message(lowered(d, unit_count(d))) + s,
            h,
        ) == Ok::<HeaderView, Seq<char>>(HeaderView { filters: lowered(d, unit_count(d)), ..h }),
{
    reveal(dataset_plain);
    reveal(plain_applied);
    law_pipeline_read(lowered(d, unit_count(d)), s);
}

/// Whether a file holds an image behind `base`: all of it but what stands before `from`.
pub open spec fn keeps(t: Seq<u8>, base: u64, s: Seq<u8>, from: nat) -> bool {
    &&& base + s.len() <= t.len()
    &&& forall|i: int| from <= i < s.len() ==> #[trigger] s[i] == t[base + i]
}

/// What stands in an image stands in a file that holds it.
pub proof fn lemma_keeps(t: Seq<u8>, base: u64, s: Seq<u8>, from: nat, at: int, part: Seq<u8>)
    requires
        keeps(t, base, s, from),
        at >= from,
        stands(s, at, part),
    ensures
        stands(t, base + at, part),
{
    lemma_stands(s, at, part);
    assert forall|i: int| 0 <= i < part.len() implies t[base + at + i] == part[i] by {
        assert(part[i] == s[at + i]);
        assert(s[at + i] == t[base + (at + i)]);
    }
    assert(t.subrange(base + at, base + at + part.len()) =~= part);
}

/// A block stands where it was put behind an image.
pub proof fn lemma_appended_stands(s: Seq<u8>, b: Seq<u8>)
    ensures
        stands(appended(s, b), padded(s).len() as int, b),
{
    let n = padded(s).len();
    assert(appended(s, b).subrange(n as int, (n + b.len()) as int) =~= b);
}

/// The messages of an object, as long as they are written: those for its attributes hold
/// their elements as they are, or say where dense storage is.
pub open spec fn whole_messages(ms: Seq<OutView>, n: NodeView) -> Seq<OutView> {
    ms + note_messages(n) + attr_messages(
        if attrs_dense(n.attrs) {
            AttrsView::Dense(0, 0)
        } else {
            AttrsView::Messages(attr_bodies(n.attrs, false))
        },
    )
}

/// Whether the notes and the attributes of an object can be told from what is written of
/// it. A tree over names counts its records in two bytes.
pub open spec fn node_plain(n: NodeView) -> bool {
    &&& attrs_plain(n.attrs)
    &&& comment_plain(n.comment)
    &&& attrs_dense(n.attrs) ==> n.attrs.len() <= 0xffff
}

/// Whether a header has room for messages.
pub open spec fn header_fits(ms: Seq<OutView>) -> bool {
    &&& ms.len() <= 0xffff
    &&& old_messages(ms) matches Ok(body) ==> body.len() <= 0xffff_ffff
    &&& new_messages(ms) matches Ok(body) ==> body.len() <= 0xffff_ffff
}

/// Whether messages have the same kinds and sizes.
pub open spec fn same_form(a: Seq<OutView>, b: Seq<OutView>) -> bool {
    &&& a.len() == b.len()
    &&& forall|i: int|
        0 <= i < a.len() ==> (#[trigger] a[i]).kind == b[i].kind && a[i].body.len()
            == b[i].body.len()
}

/// Messages of the same sizes take the same room.
proof fn lemma_same_room(a: Seq<OutView>, b: Seq<OutView>)
    requires
        same_form(a, b),
    ensures
        match (old_messages(a), old_messages(b)) {
            (Ok(x), Ok(y)) => x.len() == y.len(),
            (Err(_), Err(_)) => true,
            _ => false,
        },
        match (new_messages(a), new_messages(b)) {
            (Ok(x), Ok(y)) => x.len() == y.len(),
            (Err(_), Err(_)) => true,
            _ => false,
        },
    decreases a.len(),
{
    if a.len() > 0 {
        let (x, y) = (a.drop_last(), b.drop_last());
        assert forall|i: int| 0 <= i < x.len() implies (#[trigger] x[i]).kind == y[i].kind
            && x[i].body.len() == y[i].body.len() by {
            assert(a[i].kind == b[i].kind);
        }
        lemma_same_room(x, y);
        let (m, n) = (a.last(), b.last());
        assert(a[a.len() - 1].kind == b[a.len() - 1].kind);
        lemma_le_bytes_len(m.kind as nat, 2);
        lemma_le_bytes_len(m.kind as nat, 1);
        lemma_le_bytes_len(crate::format::aligned8(m.body.len() as int) as nat, 2);
        lemma_le_bytes_len(m.body.len(), 2);
        assert(old_message(m) is Ok == old_message(n) is Ok);
        assert(new_message(m) is Ok == new_message(n) is Ok);
    }
}

/// How an object was finished: behind its attributes stands its header.
pub(crate) proof fn lemma_finished(
    w: ImageOut,
    n: NodeView,
    ms: Seq<OutView>,
    w1: ImageOut,
    addr: u64,
) -> (r: (Seq<u8>, AttrsView))
    requires
        finished(w, n, ms) == Ok::<(ImageOut, u64), Seq<char>>((w1, addr)),
    ensures
        attrs_written(w.buf, n.attrs) == Ok::<(Seq<u8>, AttrsView), Seq<char>>(r),
        extends(r.0, w.buf),
        extends(w1.buf, r.0),
        w1.memo == w.memo,
        w1.stores == w.stores,
        addr == end_of(r.0),
        w1.buf.len() > padded(r.0).len(),
        ({
            let all = ms + note_messages(n) + attr_messages(r.1);
            let at = padded(r.0).len();
            if r.1 is Dense {
                new_messages(all) is Ok && w1.buf == appended(
                    r.0,
                    new_header(new_messages(all)->Ok_0),
                ) && w1.patches == w.patches + patches_of(all, at + 10, 4, false)
            } else {
                old_messages(all) is Ok && w1.buf == appended(
                    r.0,
                    old_header(all.len(), old_messages(all)->Ok_0),
                ) && w1.patches == w.patches + patches_of(all, at + 16, 8, true)
            }
        }),
{
    reveal(finished);
    let (s, attrs) = attrs_written(w.buf, n.attrs)->Ok_0;
    let all = ms + note_messages(n) + attr_messages(attrs);
    lemma_attrs_extend(w.buf, n.attrs, false);
    if attrs is Dense {
        let s1 = attrs_encoded(w.buf, n.attrs, false).0;
        lemma_dense_attrs_extend(s1, n.attrs);
        lemma_extends(w.buf, s1, s);
        lemma_appended(s, new_header(new_messages(all)->Ok_0));
    } else {
        lemma_appended(s, old_header(all.len(), old_messages(all)->Ok_0));
    }
    (s, attrs)
}

/// Whether the header at an address is that of an object: it says `h`, and its notes and
/// attributes are those of the object.
pub open spec fn header_told(
    img: ImageView,
    addr: u64,
    depth: nat,
    n: NodeView,
    h: HeaderView,
) -> bool {
    header_parsed(img, addr, depth) matches Ok(x) && x == (HeaderView {
        mtime: n.mtime,
        comment: n.comment,
        attrs: x.attrs,
        dense_attrs: x.dense_attrs,
        ..h
    }) && all_attrs(img, x) == Ok::<Seq<AttrView>, Seq<char>>(attrs_back(n.attrs))
}

proof fn lemma_info_applied(img: ImageView, heap: u64, tree: u64, h: HeaderView, s: Seq<u8>)
    requires
        heap != UNDEF,
        tree != UNDEF,
    ensures
        plain_applied(img, MSG_ATTRIBUTE_INFO, attr_info(heap, tree) + s, h) == Ok::<
            HeaderView,
            Seq<char>,
        >(HeaderView { dense_attrs: Some((heap, tree)), ..h }),
{
    reveal(plain_applied);
    let body = attr_info(heap, tree) + s;
    lemma_pow256();
    lemma_le_bytes_len(heap as nat, 8);
    lemma_le_bytes_len(tree as nat, 8);
    law_le_round_trip(heap as nat, 8);
    law_le_round_trip(tree as nat, 8);
    let b = body.skip(2).take(16);
    assert(b.subrange(0, 8) =~= le_bytes(heap as nat, 8));
    assert(b.subrange(8, 16) =~= le_bytes(tree as nat, 8));
}

/// Whether a header with some messages stands in a file, behind the image `s`.
pub open spec fn header_stands(
    data: Seq<u8>,
    base: u64,
    s: Seq<u8>,
    ms: Seq<OutView>,
    dense: bool,
) -> bool {
    if dense {
        new_messages(ms) matches Ok(body) && stands(
            data,
            base + padded(s).len(),
            unsummed(body),
        )
    } else {
        old_messages(ms) matches Ok(body) && stands(
            data,
            base + padded(s).len(),
            old_header(ms.len(), body),
        )
    }
}

/// A header that was written is read.
pub(crate) proof fn lemma_header_back(
    img: ImageView,
    w: ImageOut,
    n: NodeView,
    ms: Seq<OutView>,
    w1: ImageOut,
    addr: u64,
    h: HeaderView,
    depth: nat,
)
    requires
        finished(w, n, ms) == Ok::<(ImageOut, u64), Seq<char>>((w1, addr)),
        node_plain(n),
        w1.buf.len() < u64::MAX,
        img.data.len() <= u64::MAX,
        keeps(img.data, img.base, w1.buf, w.buf.len()),
        w.buf.len() > 0,
        header_fits(whole_messages(ms, n)),
        no_continuation(ms),
        h.mtime == 0,
        h.comment is None,
        h.attrs.len() == 0,
        h.dense_attrs is None,
        all_applied(
            img,
            messages_read(ms, !attrs_dense(n.attrs)),
            0,
            empty_header(),
            depth,
        ) == Ok::<HeaderView, Seq<char>>(h),
    ensures
        header_told(img, addr, depth, n, h),
{
    let (s, attrs) = lemma_finished(w, n, ms, w1, addr);
    let all = ms + note_messages(n) + attr_messages(attrs);
    lemma_keeps_less(img.data, img.base, w1.buf, s, w.buf.len());
    let at = padded(s).len() as int;
    if attrs is Dense {
        let head = new_header(new_messages(all)->Ok_0);
        lemma_appended_stands(s, head);
        lemma_keeps(img.data, img.base, w1.buf, w.buf.len(), at, head);
        lemma_unsummed(img.data, img.base + at, new_messages(all)->Ok_0);
    } else {
        let head = old_header(all.len(), old_messages(all)->Ok_0);
        lemma_appended_stands(s, head);
        lemma_keeps(img.data, img.base, w1.buf, w.buf.len(), at, head);
    }
    lemma_settled_back(img, w, n, ms, ms, w1, addr, h, depth);
}

/// A header that was written is read, where its messages stand in a file with other
/// bodies of the same sizes.
pub(crate) proof fn lemma_settled_back(
    img: ImageView,
    w: ImageOut,
    n: NodeView,
    ms: Seq<OutView>,
    back: Seq<OutView>,
    w1: ImageOut,
    addr: u64,
    h: HeaderView,
    depth: nat,
)
    requires
        finished(w, n, ms) == Ok::<(ImageOut, u64), Seq<char>>((w1, addr)),
        node_plain(n),
        w1.buf.len() < u64::MAX,
        img.data.len() <= u64::MAX,
        attrs_written(w.buf, n.attrs) matches Ok((s, attrs)) && keeps(
            img.data,
            img.base,
            s,
            w.buf.len(),
        ) && header_stands(
            img.data,
            img.base,
            s,
            back + note_messages(n) + attr_messages(attrs),
            attrs is Dense,
        ),
        w.buf.len() > 0,
        same_form(ms, back),
        header_fits(whole_messages(ms, n)),
        no_continuation(ms),
        h.mtime == 0,
        h.comment is None,
        h.attrs.len() == 0,
        h.dense_attrs is None,
        all_applied(
            img,
            messages_read(back, !attrs_dense(n.attrs)),
            0,
            empty_header(),
            depth,
        ) == Ok::<HeaderView, Seq<char>>(h),
    ensures
        header_told(img, addr, depth, n, h),
{
    let (s, attrs) = lemma_finished(w, n, ms, w1, addr);
    let (s1, bodies) = lemma_attrs_kept(img, w.buf, n, s, attrs, w1);
    assert(no_continuation(back)) by {
        assert forall|i: int| 0 <= i < back.len() implies (#[trigger] back[i]).kind
            != crate::format::header::MSG_CONTINUATION by {
            assert(ms[i].kind == back[i].kind);
        }
    }
    lemma_unbroken(back, n, attrs);
    lemma_other_room(ms, back, n);
    lemma_room(img, n, back, bodies, attrs);
    match attrs {
        AttrsView::Dense(heap, tree) => {
            lemma_dense_back(img, n, back, s, s1, addr, heap, tree, h, depth);
        },
        AttrsView::Messages(_) => {
            lemma_plain_back(img, n, back, s, bodies, addr, h, depth);
        },
    }
}

/// A header has room for other messages of the same sizes.
proof fn lemma_other_room(ms: Seq<OutView>, back: Seq<OutView>, n: NodeView)
    requires
        same_form(ms, back),
        header_fits(whole_messages(ms, n)),
    ensures
        header_fits(whole_messages(back, n)),
{
    let a = whole_messages(ms, n);
    let b = whole_messages(back, n);
    assert forall|i: int| 0 <= i < a.len() implies (#[trigger] a[i]).kind == b[i].kind
        && a[i].body.len() == b[i].body.len() by {
        if i < ms.len() {
            assert(a[i] == ms[i] && b[i] == back[i]);
        } else {
            assert(a[i] == b[i]);
        }
    }
    lemma_same_room(a, b);
}

/// Notes and attributes bring no continuation.
proof fn lemma_unbroken(ms: Seq<OutView>, n: NodeView, attrs: AttrsView)
    requires
        no_continuation(ms),
    ensures
        no_continuation(ms + note_messages(n) + attr_messages(attrs)),
{
    let all = ms + note_messages(n) + attr_messages(attrs);
    assert forall|i: int| 0 <= i < all.len() implies (#[trigger] all[i]).kind
        != crate::format::header::MSG_CONTINUATION by {
        if i < ms.len() {
            assert(all[i] == ms[i]);
        }
    }
}

/// The attributes of an object stand in a file that holds the image: the image behind
/// their payloads, and their messages.
proof fn lemma_attrs_kept(
    img: ImageView,
    start: Seq<u8>,
    n: NodeView,
    s: Seq<u8>,
    attrs: AttrsView,
    w1: ImageOut,
) -> (r: (Seq<u8>, Seq<Seq<u8>>))
    requires
        attrs_written(start, n.attrs) == Ok::<(Seq<u8>, AttrsView), Seq<char>>((s, attrs)),
        node_plain(n),
        start.len() > 0,
        extends(w1.buf, s),
        w1.buf.len() < u64::MAX,
        img.data.len() <= u64::MAX,
        keeps(img.data, img.base, s, start.len()),
    ensures
        start.len() <= r.0.len() <= s.len(),
        bodies_told(img.data, img.base, n.attrs, r.1, false),
        attrs is Dense == attrs_dense(n.attrs),
        attrs matches AttrsView::Messages(ms) ==> ms == r.1,
        attrs matches AttrsView::Dense(heap, tree) ==> dense_attrs_written(r.0, n.attrs) == Ok::<
            (Seq<u8>, u64, u64),
            Seq<char>,
        >((s, heap, tree)),
{
    let (s1, bodies) = attrs_encoded(start, n.attrs, false);
    lemma_attrs_extend(start, n.attrs, false);
    if attrs is Dense {
        lemma_dense_attrs_extend(s1, n.attrs);
    } else {
        assert(s1.take(s1.len() as int) =~= s1);
    }
    lemma_keeps_less(img.data, img.base, s, s1, start.len());
    lemma_attrs_encoded(img.data, img.base, start, n.attrs, false, start.len());
    lemma_too_large(img, n.attrs, bodies);
    (s1, bodies)
}

/// A header of an object with attributes in messages is read.
proof fn lemma_plain_back(
    img: ImageView,
    n: NodeView,
    ms: Seq<OutView>,
    s: Seq<u8>,
    bodies: Seq<Seq<u8>>,
    addr: u64,
    h: HeaderView,
    depth: nat,
)
    requires
        !attrs_dense(n.attrs),
        node_plain(n),
        bodies_told(img.data, img.base, n.attrs, bodies, false),
        addr == padded(s).len(),
        ({
            let all = ms + note_messages(n) + attr_messages(AttrsView::Messages(bodies));
            &&& header_stands(img.data, img.base, s, all, false)
            &&& header_fits(all)
            &&& no_continuation(all)
        }),
        h.mtime == 0,
        h.comment is None,
        h.attrs.len() == 0,
        h.dense_attrs is None,
        all_applied(img, messages_read(ms, true), 0, empty_header(), depth) == Ok::<
            HeaderView,
            Seq<char>,
        >(h),
    ensures
        header_told(img, addr, depth, n, h),
{
    let all = ms + note_messages(n) + attr_messages(AttrsView::Messages(bodies));
    law_old_header_read(img.data, img.base, addr, all);
    lemma_notes(img, n, true, ms, h, depth);
    let h1 = HeaderView { mtime: n.mtime, comment: n.comment, ..h };
    lemma_attrs(img, n.attrs, bodies, true, ms + note_messages(n), h1, depth);
}

/// Attributes go to dense storage by the size of their messages.
proof fn lemma_too_large(img: ImageView, attrs: Seq<AttrView>, bodies: Seq<Seq<u8>>)
    requires
        bodies_told(img.data, img.base, attrs, bodies, false),
    ensures
        too_large(bodies) == attrs_dense(attrs),
{
    let sizes = attr_bodies(attrs, false);
    assert forall|i: int| 0 <= i < attrs.len() implies (#[trigger] bodies[i]).len()
        == sizes[i].len() by {
        assert(body_told(img.data, img.base, attrs[i], bodies[i], false));
    }
    if too_large(bodies) {
        let i = choose|i: int| 0 <= i < bodies.len() && (#[trigger] bodies[i]).len() > 65528;
        assert(sizes[i].len() > 65528);
    }
    if too_large(sizes) {
        let i = choose|i: int| 0 <= i < sizes.len() && (#[trigger] sizes[i]).len() > 65528;
        assert(bodies[i].len() > 65528);
    }
}

/// The header has room for the messages that are written.
proof fn lemma_room(
    img: ImageView,
    n: NodeView,
    ms: Seq<OutView>,
    bodies: Seq<Seq<u8>>,
    attrs: AttrsView,
)
    requires
        header_fits(whole_messages(ms, n)),
        bodies_told(img.data, img.base, n.attrs, bodies, false),
        attrs is Dense == attrs_dense(n.attrs),
        attrs is Messages ==> attrs == AttrsView::Messages(bodies),
    ensures
        header_fits(ms + note_messages(n) + attr_messages(attrs)),
{
    let a = whole_messages(ms, n);
    let b = ms + note_messages(n) + attr_messages(attrs);
    assert(same_form(a, b)) by {
        if attrs is Messages {
            let k = (ms + note_messages(n)).len();
            assert forall|i: int| 0 <= i < a.len() implies (#[trigger] a[i]).kind == b[i].kind
                && a[i].body.len() == b[i].body.len() by {
                if i >= k {
                    let j = i - k;
                    assert(body_told(img.data, img.base, n.attrs[j], bodies[j], false));
                }
            }
        } else {
            lemma_le_bytes_len(0, 8);
            lemma_le_bytes_len(attrs->Dense_0 as nat, 8);
            lemma_le_bytes_len(attrs->Dense_1 as nat, 8);
        }
    }
    lemma_same_room(a, b);
}

/// A header of an object with attributes in dense storage is read.
#[verifier::rlimit(60)]
#[verifier::spinoff_prover]
proof fn lemma_dense_back(
    img: ImageView,
    n: NodeView,
    ms: Seq<OutView>,
    s: Seq<u8>,
    s1: Seq<u8>,
    addr: u64,
    heap: u64,
    tree: u64,
    h: HeaderView,
    depth: nat,
)
    requires
        dense_attrs_written(s1, n.attrs) == Ok::<(Seq<u8>, u64, u64), Seq<char>>((s, heap, tree)),
        attrs_dense(n.attrs),
        node_plain(n),
        addr == padded(s).len(),
        0 < s1.len(),
        s.len() < u64::MAX,
        img.data.len() <= u64::MAX,
        keeps(img.data, img.base, s, s1.len()),
        ({
            let all = ms + note_messages(n) + attr_messages(AttrsView::Dense(heap, tree));
            &&& header_stands(img.data, img.base, s, all, true)
            &&& header_fits(all)
            &&& no_continuation(all)
        }),
        h.mtime == 0,
        h.comment is None,
        h.attrs.len() == 0,
        h.dense_attrs is None,
        all_applied(img, messages_read(ms, false), 0, empty_header(), depth) == Ok::<
            HeaderView,
            Seq<char>,
        >(h),
    ensures
        header_told(img, addr, depth, n, h),
{
    let all = ms + note_messages(n) + attr_messages(AttrsView::Dense(heap, tree));
    lemma_unsummed_read(img.data, img.base, addr, all);
    lemma_notes(img, n, false, ms, h, depth);
    let h1 = HeaderView { mtime: n.mtime, comment: n.comment, ..h };
    let info = attr_info(heap, tree);
    lemma_dense_places(s1, n.attrs);
    lemma_info_applied(img, heap, tree, h1, fill_of(info, false));
    lemma_plain_then(
        img,
        ms + note_messages(n),
        MSG_ATTRIBUTE_INFO,
        info,
        false,
        h1,
        HeaderView { dense_attrs: Some((heap, tree)), ..h1 },
        depth,
    );
    assert(all =~= (ms + note_messages(n)).push(plain_message(MSG_ATTRIBUTE_INFO, info)));
    assert(n.attrs.len() > 0);
    law_dense_attrs_read(img.data, img.base, img.given, s1, n.attrs, s, heap, tree, s1.len());
    assert(h.attrs =~= Seq::empty());
}

/// The parts of dense storage stand within the image.
proof fn lemma_dense_places(s: Seq<u8>, attrs: Seq<AttrView>)
    requires
        dense_attrs_written(s, attrs) matches Ok(x) && x.0.len() < u64::MAX,
    ensures
        dense_attrs_written(s, attrs)->Ok_0.1 != UNDEF,
        dense_attrs_written(s, attrs)->Ok_0.2 != UNDEF,
{
    lemma_dense_attrs_extend(s, attrs);
    let (s1, objects) = attrs_encoded(s, attrs, true);
    let (s2, heap, ids) = crate::format::dense::heap_written(s1, objects, 8, 40)->Ok_0;
    crate::format::heap_laws::lemma_heap_place(s1, objects, 8, 40);
    let records = crate::format::attr_write::bare(
        crate::format::attr_write::by_hash(
            crate::format::attr_write::attr_records(attr_names(attrs), ids),
        ),
    );
    crate::format::heap_laws::lemma_leaf_place(s2, 8, 17, records);
}

} // verus!
