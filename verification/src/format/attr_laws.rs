//! Attributes are read as they are written.

use vstd::prelude::*;
use vstd::utf8::encode_utf8;

use crate::format::attr_write::{
    attr_message, attr_space, attrs_encoded, block8, cells_written, dense_attr_message,
    fixed_limits, name_bytes,
};
use crate::format::attribute::{
    attr_finished, attr_head, attr_pad, attr_parsed, ATTRIBUTE_LIMIT,
};
use crate::format::datatype::{decoded, encoded, Decoded, OrderView};
use crate::format::datatype_laws::{law_datatype_round_trip, lemma_nul, plain_name, storable};
use crate::format::elements::{fitted, loaded};
use crate::format::gheap::pad8;
use crate::format::grid::countable;
use crate::format::message_laws::{law_dataspace_read, space_plain};
use crate::format::messages::{c_text, dataspace_parsed, SpaceView};
use crate::format::object_laws::keeps;
use crate::format::tree::{extends, lemma_extends};
use crate::format::tree_laws::lemma_keeps_less;
use crate::format::vlen_laws::{
    cells_back, law_cells_read, lemma_cells_extend, vlen_told,
};
use crate::format::{
    aligned8, law_le_round_trip, le_at, le_bytes, lemma_le_bytes_len, lemma_pow256, zeroes,
};
use crate::model::{elements, AttrView};
use crate::text::law_text_of_utf8;

verus! {

/// The dataspace of an attribute.
pub open spec fn space_of(a: AttrView) -> SpaceView {
    SpaceView {
        dims: a.dims,
        maxdims: fixed_limits(a.dims),
        is_scalar: a.is_scalar,
        is_null: a.is_null,
    }
}

/// Whether an attribute can be told from its message.
#[verifier::opaque]
pub open spec fn attr_plain(a: AttrView) -> bool {
    let n = elements(a.is_null, a.is_scalar, a.dims);
    &&& storable(a.dtype)
    &&& a.dtype.sized()
    &&& space_plain(space_of(a))
    &&& plain_name(a.name)
    &&& name_bytes(a.name).len() < 0x1_0000
    &&& encoded(a.dtype).len() < 0x1_0000
    &&& attr_space(a).len() < 0x1_0000
    &&& a.is_null || a.is_scalar || countable(a.dims)
    &&& a.data.len() == n * a.dtype.disk_size()
    &&& a.data.len() <= usize::MAX
    &&& a.data.len() <= ATTRIBUTE_LIMIT
    &&& vlen_told(a.dtype, n, a.data, a.vlen)
}

/// What an attribute is read back as: its payloads are numbered anew.
pub open spec fn attr_back(a: AttrView) -> AttrView {
    let (data, vlen) = cells_back(
        a.dtype,
        elements(a.is_null, a.is_scalar, a.dims),
        a.data,
        a.vlen,
    );
    AttrView { data, vlen, ..a }
}

/// Whether stored elements are those of an attribute, with its payloads in the file.
pub open spec fn attr_stored(data: Seq<u8>, base: u64, a: AttrView, stored: Seq<u8>) -> bool {
    &&& stored.len() == a.data.len()
    &&& loaded(data, base, a.dtype, elements(a.is_null, a.is_scalar, a.dims), stored) == Ok::<
        (Seq<u8>, Seq<Seq<u8>>),
        Seq<char>,
    >((attr_back(a).data, attr_back(a).vlen))
}

/// The name at the start of its bytes.
proof fn lemma_attr_name(a: AttrView)
    requires
        attr_plain(a),
    ensures
        c_text(name_bytes(a.name)) == a.name,
{
    reveal(attr_plain);
    let text = encode_utf8(a.name);
    let all = name_bytes(a.name);
    assert forall|i: int| 0 <= i < text.len() implies #[trigger] all[i] != 0 by {
        assert(all[i] == text[i]);
    }
    lemma_nul(all, text.len() as int, 0);
    assert(all.take(text.len() as int) =~= text);
    law_text_of_utf8(a.name);
}

proof fn lemma_attr_finished(data: Seq<u8>, base: u64, a: AttrView, stored: Seq<u8>, s: Seq<u8>)
    requires
        attr_plain(a),
        attr_stored(data, base, a, stored),
    ensures
        attr_finished(
            data,
            base,
            a.name,
            a.dtype,
            OrderView::Plain,
            space_of(a),
            stored + s,
        ) == Ok::<AttrView, Seq<char>>(attr_back(a)),
{
    reveal(attr_plain);
    let n = elements(a.is_null, a.is_scalar, a.dims);
    let size = a.dtype.disk_size();
    assert(fitted(stored + s, n * size) =~= stored);
}

/// The parts of bytes that stand one behind the other.
proof fn lemma_parts(h: Seq<u8>, a: Seq<u8>, b: Seq<u8>, c: Seq<u8>, d: Seq<u8>, k: int)
    requires
        0 <= k <= a.len(),
    ensures
        ({
            let m = h + a + b + c + d;
            &&& m.len() == h.len() + a.len() + b.len() + c.len() + d.len()
            &&& m.subrange(h.len() as int, h.len() + k) == a.take(k)
            &&& m.skip((h.len() + a.len()) as int) == b + (c + d)
            &&& m.skip((h.len() + a.len() + b.len()) as int) == c + d
            &&& m.skip((h.len() + a.len() + b.len() + c.len()) as int) == d
            &&& forall|i: int| 0 <= i < h.len() ==> #[trigger] m[i] == h[i]
        }),
{
    let m = h + a + b + c + d;
    assert(m.subrange(h.len() as int, h.len() + k) =~= a.take(k));
    assert(m.skip((h.len() + a.len()) as int) =~= b + (c + d));
    assert(m.skip((h.len() + a.len() + b.len()) as int) =~= c + d);
    assert(m.skip((h.len() + a.len() + b.len() + c.len()) as int) =~= d);
}

/// The head of an attribute message.
spec fn attr_start(version: u8, x: nat, y: nat, z: nat, mark: Seq<u8>) -> Seq<u8> {
    seq![version, 0u8] + le_bytes(x, 2) + le_bytes(y, 2) + le_bytes(z, 2) + mark
}

proof fn lemma_attr_start(version: u8, x: nat, y: nat, z: nat, mark: Seq<u8>, m: Seq<u8>)
    requires
        x < 0x1_0000,
        y < 0x1_0000,
        z < 0x1_0000,
        m.len() >= 8 + mark.len(),
        forall|i: int| 0 <= i < 8 + mark.len() ==> #[trigger] m[i] == attr_start(
            version,
            x,
            y,
            z,
            mark,
        )[i],
    ensures
        attr_start(version, x, y, z, mark).len() == 8 + mark.len(),
        le_at(m, 2, 2) == x,
        le_at(m, 4, 2) == y,
        le_at(m, 6, 2) == z,
        m[0] == version,
{
    let h = attr_start(version, x, y, z, mark);
    lemma_pow256();
    law_le_round_trip(x, 2);
    law_le_round_trip(y, 2);
    law_le_round_trip(z, 2);
    assert forall|i: int| 2 <= i < 4 implies m[i] == le_bytes(x, 2)[i - 2] by {
        assert(m[i] == h[i]);
    }
    assert forall|i: int| 4 <= i < 6 implies m[i] == le_bytes(y, 2)[i - 4] by {
        assert(m[i] == h[i]);
    }
    assert forall|i: int| 6 <= i < 8 implies m[i] == le_bytes(z, 2)[i - 6] by {
        assert(m[i] == h[i]);
    }
    assert(m.subrange(2, 4) =~= le_bytes(x, 2));
    assert(m.subrange(4, 6) =~= le_bytes(y, 2));
    assert(m.subrange(6, 8) =~= le_bytes(z, 2));
    assert(m[0] == h[0]);
}

proof fn lemma_attr_unfolded(
    data: Seq<u8>,
    base: u64,
    body: Seq<u8>,
    x: nat,
    y: nat,
    z: nat,
    r2: Seq<u8>,
    r3: Seq<u8>,
    a: AttrView,
)
    requires
        body.len() > 0,
        body[0] == 1 || body[0] == 3,
        le_at(body, 2, 2) == x,
        le_at(body, 4, 2) == y,
        le_at(body, 6, 2) == z,
        ({
            let head = attr_head(body[0]);
            let p1 = head + attr_pad(body[0], x);
            let p2 = p1 + attr_pad(body[0], y);
            let p3 = p2 + attr_pad(body[0], z);
            &&& p3 <= body.len()
            &&& decoded(body.skip(p1)) == Ok::<Decoded, Seq<char>>(
                Decoded { ty: a.dtype, order: OrderView::Plain, rest: r2 },
            )
            &&& dataspace_parsed(body.skip(p2)) == Ok::<(SpaceView, Seq<u8>), Seq<char>>(
                (space_of(a), r3),
            )
            &&& c_text(body.subrange(head, head + x)) == a.name
            &&& attr_finished(
                data,
                base,
                a.name,
                a.dtype,
                OrderView::Plain,
                space_of(a),
                body.skip(p3),
            ) == Ok::<AttrView, Seq<char>>(a)
        }),
    ensures
        attr_parsed(data, base, body) == Ok::<Option<AttrView>, Seq<char>>(Some(a)),
{
}

/// A message with a type, a dataspace and elements is read as an attribute.
proof fn lemma_attr_core(
    data: Seq<u8>,
    base: u64,
    version: u8,
    mark: Seq<u8>,
    sizes: (nat, nat, nat),
    x: Seq<u8>,
    y: Seq<u8>,
    z: Seq<u8>,
    tail: Seq<u8>,
    r2: Seq<u8>,
    r3: Seq<u8>,
    a: AttrView,
)
    requires
        version == 1 && mark.len() == 0 || version == 3 && mark.len() == 1,
        sizes.0 < 0x1_0000,
        sizes.1 < 0x1_0000,
        sizes.2 < 0x1_0000,
        x.len() == attr_pad(version, sizes.0),
        y.len() == attr_pad(version, sizes.1),
        z.len() == attr_pad(version, sizes.2),
        sizes.0 <= x.len(),
        decoded(y + (z + tail)) == Ok::<Decoded, Seq<char>>(
            Decoded { ty: a.dtype, order: OrderView::Plain, rest: r2 },
        ),
        dataspace_parsed(z + tail) == Ok::<(SpaceView, Seq<u8>), Seq<char>>((space_of(a), r3)),
        c_text(x.take(sizes.0 as int)) == a.name,
        attr_finished(data, base, a.name, a.dtype, OrderView::Plain, space_of(a), tail) == Ok::<
            AttrView,
            Seq<char>,
        >(a),
    ensures
        attr_parsed(
            data,
            base,
            attr_start(version, sizes.0, sizes.1, sizes.2, mark) + x + y + z + tail,
        ) == Ok::<Option<AttrView>, Seq<char>>(Some(a)),
{
    let h = attr_start(version, sizes.0, sizes.1, sizes.2, mark);
    let body = h + x + y + z + tail;
    lemma_start_len(version, sizes.0, sizes.1, sizes.2, mark);
    lemma_parts(h, x, y, z, tail, sizes.0 as int);
    lemma_attr_start(version, sizes.0, sizes.1, sizes.2, mark, body);
    lemma_attr_unfolded(data, base, body, sizes.0, sizes.1, sizes.2, r2, r3, a);
}

proof fn lemma_start_len(version: u8, x: nat, y: nat, z: nat, mark: Seq<u8>)
    ensures
        attr_start(version, x, y, z, mark).len() == 8 + mark.len(),
{
    lemma_le_bytes_len(x, 2);
    lemma_le_bytes_len(y, 2);
    lemma_le_bytes_len(z, 2);
}

proof fn lemma_block(s: Seq<u8>, rest: Seq<u8>)
    ensures
        block8(s) + rest == s + (zeroes(pad8(s.len() as int) as nat) + rest),
        block8(s).take(s.len() as int) == s,
        block8(s).len() == attr_pad(1, s.len()),
        block8(s).len() >= s.len(),
{
    lemma_pad(s.len() as int);
    lemma_filled(s, pad8(s.len() as int) as nat, rest);
}

proof fn lemma_pad(n: int)
    requires
        n >= 0,
    ensures
        n + pad8(n) == aligned8(n),
        pad8(n) >= 0,
{
    let (q, r) = (n / 8, n % 8);
    assert(n == 8 * q + r);
    if r == 0 {
        assert((n + 7) / 8 == q);
    } else {
        assert((n + 7) / 8 == q + 1);
    }
}

proof fn lemma_filled(s: Seq<u8>, k: nat, rest: Seq<u8>)
    ensures
        s + zeroes(k) + rest == s + (zeroes(k) + rest),
        (s + zeroes(k)).take(s.len() as int) == s,
        (s + zeroes(k)).len() == s.len() + k,
{
    assert(s + zeroes(k) + rest =~= s + (zeroes(k) + rest));
    assert((s + zeroes(k)).take(s.len() as int) =~= s);
}

/// The same for a message of version 1, whose parts are filled up.
proof fn lemma_attr_old(
    data: Seq<u8>,
    base: u64,
    name: Seq<u8>,
    dt: Seq<u8>,
    ds: Seq<u8>,
    tail: Seq<u8>,
    a: AttrView,
)
    requires
        name.len() < 0x1_0000,
        dt.len() < 0x1_0000,
        ds.len() < 0x1_0000,
        decoded(dt + (zeroes(pad8(dt.len() as int) as nat) + (block8(ds) + tail))) == Ok::<
            Decoded,
            Seq<char>,
        >(
            Decoded {
                ty: a.dtype,
                order: OrderView::Plain,
                rest: zeroes(pad8(dt.len() as int) as nat) + (block8(ds) + tail),
            },
        ),
        dataspace_parsed(ds + (zeroes(pad8(ds.len() as int) as nat) + tail)) == Ok::<
            (SpaceView, Seq<u8>),
            Seq<char>,
        >((space_of(a), zeroes(pad8(ds.len() as int) as nat) + tail)),
        c_text(name) == a.name,
        attr_finished(data, base, a.name, a.dtype, OrderView::Plain, space_of(a), tail) == Ok::<
            AttrView,
            Seq<char>,
        >(a),
    ensures
        attr_parsed(
            data,
            base,
            attr_start(1, name.len(), dt.len(), ds.len(), Seq::empty()) + block8(name) + block8(dt)
                + block8(ds) + tail,
        ) == Ok::<Option<AttrView>, Seq<char>>(Some(a)),
{
    let r3 = zeroes(pad8(ds.len() as int) as nat) + tail;
    let r2 = zeroes(pad8(dt.len() as int) as nat) + (block8(ds) + tail);
    lemma_block(ds, tail);
    lemma_block(dt, block8(ds) + tail);
    lemma_block(name, Seq::empty());
    lemma_attr_core(
        data,
        base,
        1,
        Seq::empty(),
        (name.len(), dt.len(), ds.len()),
        block8(name),
        block8(dt),
        block8(ds),
        tail,
        r2,
        r3,
        a,
    );
}

proof fn lemma_attr_sizes(a: AttrView)
    requires
        attr_plain(a),
    ensures
        storable(a.dtype),
        a.dtype.sized(),
        space_plain(space_of(a)),
        name_bytes(a.name).len() < 0x1_0000,
        encoded(a.dtype).len() < 0x1_0000,
        attr_space(a).len() < 0x1_0000,
        a.data.len() == elements(a.is_null, a.is_scalar, a.dims) * a.dtype.disk_size(),
        vlen_told(a.dtype, elements(a.is_null, a.is_scalar, a.dims), a.data, a.vlen),
{
    reveal(attr_plain);
}

/// Reading the message of an attribute gives the attribute; what follows the message
/// does not matter.
pub proof fn law_attribute_read(
    data: Seq<u8>,
    base: u64,
    a: AttrView,
    stored: Seq<u8>,
    s: Seq<u8>,
)
    requires
        attr_plain(a),
        attr_stored(data, base, a, stored),
    ensures
        attr_parsed(data, base, attr_message(a, stored) + s) == Ok::<Option<AttrView>, Seq<char>>(
            Some(attr_back(a)),
        ),
{
    let tail = stored + s;
    let ds = attr_space(a);
    lemma_attr_sizes(a);
    lemma_attr_name(a);
    lemma_attr_finished(data, base, a, stored, s);
    law_dataspace_read(space_of(a), zeroes(pad8(ds.len() as int) as nat) + tail);
    let n = encoded(a.dtype).len();
    law_datatype_round_trip(a.dtype, zeroes(pad8(n as int) as nat) + (block8(ds) + tail));
    lemma_attr_old(data, base, name_bytes(a.name), encoded(a.dtype), ds, tail, attr_back(a));
    lemma_regroup(a, stored, s);
}

proof fn lemma_regroup(a: AttrView, stored: Seq<u8>, s: Seq<u8>)
    ensures
        attr_message(a, stored) + s == attr_start(
            1,
            name_bytes(a.name).len(),
            encoded(a.dtype).len(),
            attr_space(a).len(),
            Seq::empty(),
        ) + block8(name_bytes(a.name)) + block8(encoded(a.dtype)) + block8(attr_space(a)) + (stored
            + s),
{
    let (name, dt, ds) = (name_bytes(a.name), encoded(a.dtype), attr_space(a));
    let h = seq![1u8, 0u8] + le_bytes(name.len(), 2) + le_bytes(dt.len(), 2) + le_bytes(
        ds.len(),
        2,
    );
    assert(h + Seq::<u8>::empty() =~= h);
    let front = h + block8(name) + block8(dt) + block8(ds);
    assert(front + stored + s =~= front + (stored + s));
}

/// Reading the message of an attribute in dense storage gives the attribute.
pub proof fn law_dense_attribute_read(data: Seq<u8>, base: u64, a: AttrView, stored: Seq<u8>)
    requires
        attr_plain(a),
        attr_stored(data, base, a, stored),
    ensures
        attr_parsed(data, base, dense_attr_message(a, stored)) == Ok::<
            Option<AttrView>,
            Seq<char>,
        >(Some(attr_back(a))),
{
    let (name, dt, ds) = (name_bytes(a.name), encoded(a.dtype), attr_space(a));
    let charset = if vstd::utf8::is_ascii_chars(a.name) {
        0u8
    } else {
        1u8
    };
    lemma_attr_sizes(a);
    lemma_attr_name(a);
    lemma_attr_finished(data, base, a, stored, Seq::empty());
    assert(stored + Seq::<u8>::empty() =~= stored);
    law_dataspace_read(space_of(a), stored);
    law_datatype_round_trip(a.dtype, ds + stored);
    let mark = seq![charset];
    assert(name.take(name.len() as int) =~= name);
    lemma_attr_core(
        data,
        base,
        3,
        mark,
        (name.len(), dt.len(), ds.len()),
        name,
        dt,
        ds,
        stored,
        ds + stored,
        stored,
        attr_back(a),
    );
    lemma_dense_regroup(a, stored);
}

proof fn lemma_dense_regroup(a: AttrView, stored: Seq<u8>)
    ensures
        dense_attr_message(a, stored) == attr_start(
            3,
            name_bytes(a.name).len(),
            encoded(a.dtype).len(),
            attr_space(a).len(),
            seq![
                if vstd::utf8::is_ascii_chars(a.name) {
                    0u8
                } else {
                    1u8
                },
            ],
        ) + name_bytes(a.name) + encoded(a.dtype) + attr_space(a) + stored,
{
}

/// Whether attributes can be told from their messages.
pub open spec fn attrs_plain(attrs: Seq<AttrView>) -> bool {
    forall|i: int| 0 <= i < attrs.len() ==> attr_plain(#[trigger] attrs[i])
}

/// The message of an attribute with stored elements.
pub open spec fn attr_body(a: AttrView, stored: Seq<u8>, dense: bool) -> Seq<u8> {
    if dense {
        dense_attr_message(a, stored)
    } else {
        attr_message(a, stored)
    }
}

/// The messages of attributes, as long as they are written, with their elements as they
/// are.
pub open spec fn attr_bodies(attrs: Seq<AttrView>, dense: bool) -> Seq<Seq<u8>> {
    attrs.map_values(|a: AttrView| attr_body(a, a.data, dense))
}

/// Whether a message is that of an attribute, with its payloads in the file.
pub open spec fn body_told(data: Seq<u8>, base: u64, a: AttrView, body: Seq<u8>, dense: bool) -> bool {
    exists|stored: Seq<u8>|
        #![trigger attr_stored(data, base, a, stored)]
        attr_stored(data, base, a, stored) && body == attr_body(a, stored, dense)
}

/// Whether messages are those of attributes, with their payloads in the file.
pub open spec fn bodies_told(
    data: Seq<u8>,
    base: u64,
    attrs: Seq<AttrView>,
    bodies: Seq<Seq<u8>>,
    dense: bool,
) -> bool {
    &&& bodies.len() == attrs.len()
    &&& forall|i: int|
        0 <= i < attrs.len() ==> #[trigger] body_told(data, base, attrs[i], bodies[i], dense)
            && bodies[i].len() == attr_bodies(attrs, dense)[i].len()
}

/// Attributes leave the image before them as it is.
pub proof fn lemma_attrs_extend(s: Seq<u8>, attrs: Seq<AttrView>, dense: bool)
    ensures
        extends(attrs_encoded(s, attrs, dense).0, s),
        attrs_encoded(s, attrs, dense).1.len() == attrs.len(),
    decreases attrs.len(),
{
    if attrs.len() == 0 {
        assert(s.take(s.len() as int) =~= s);
    } else {
        let init = attrs.drop_last();
        let a = attrs.last();
        lemma_attrs_extend(s, init, dense);
        let s1 = attrs_encoded(s, init, dense).0;
        let n = elements(a.is_null, a.is_scalar, a.dims);
        lemma_cells_extend(s1, a.dtype, n, a.data, a.vlen);
        lemma_extends(s, s1, attrs_encoded(s, attrs, dense).0);
    }
}

/// The messages of attributes that were written are theirs, in any file that holds the
/// image.
pub proof fn lemma_attrs_encoded(
    data: Seq<u8>,
    base: u64,
    s: Seq<u8>,
    attrs: Seq<AttrView>,
    dense: bool,
    from: nat,
)
    requires
        attrs_plain(attrs),
        keeps(data, base, attrs_encoded(s, attrs, dense).0, from),
        attrs_encoded(s, attrs, dense).0.len() < u64::MAX,
        data.len() <= u64::MAX,
        0 < from <= s.len(),
    ensures
        bodies_told(data, base, attrs, attrs_encoded(s, attrs, dense).1, dense),
    decreases attrs.len(),
{
    let (out, ms) = attrs_encoded(s, attrs, dense);
    lemma_attrs_extend(s, attrs, dense);
    if attrs.len() > 0 {
        let init = attrs.drop_last();
        let a = attrs.last();
        assert(attrs_plain(init)) by {
            assert forall|i: int| 0 <= i < init.len() implies attr_plain(#[trigger] init[i]) by {
                assert(init[i] == attrs[i]);
            }
        }
        let (s1, before) = attrs_encoded(s, init, dense);
        let n = elements(a.is_null, a.is_scalar, a.dims);
        lemma_attrs_extend(s, init, dense);
        lemma_cells_extend(s1, a.dtype, n, a.data, a.vlen);
        lemma_keeps_less(data, base, out, s1, from);
        lemma_attrs_encoded(data, base, s, init, dense, from);
        assert(attr_plain(attrs[attrs.len() - 1]));
        lemma_attr_sizes(a);
        law_cells_read(data, base, s1, a.dtype, n, a.data, a.vlen, from);
        let stored = cells_written(s1, a.dtype, n, a.data, a.vlen).1;
        assert(attr_stored(data, base, a, stored));
        assert forall|i: int| 0 <= i < attrs.len() implies #[trigger] body_told(
            data,
            base,
            attrs[i],
            ms[i],
            dense,
        ) && ms[i].len() == attr_bodies(attrs, dense)[i].len() by {
            if i < init.len() {
                assert(body_told(data, base, init[i], before[i], dense));
                assert(attr_bodies(init, dense)[i] == attr_bodies(attrs, dense)[i]);
            } else {
                assert(ms[i] == attr_body(a, stored, dense));
            }
        }
    }
}

} // verus!
