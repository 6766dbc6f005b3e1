//! Shared messages are read as they are written.

use vstd::prelude::*;

use crate::format::attr_write::{attrs_written, AttrsView};
use crate::format::datatype::{encoded, OrderView};
use crate::format::datatype_laws::law_datatype_round_trip;
use crate::format::encode::{dataspace_message, fill_message, pipeline_message};
use crate::format::header::{
    MSG_DATASPACE, MSG_DATATYPE, MSG_FILL, MSG_FILTER, MSG_LAYOUT,
};
use crate::format::header_laws::{message_read, messages_read, no_continuation, unsummed};
use crate::format::header_write::{
    lemma_new_len, lemma_old_len, lemma_patches_fit, new_header, new_message, new_messages,
    old_header, old_message, old_messages, patches_fit, patches_of, plain_message, shared_fit,
    span, OutView, PatchView,
};
use crate::format::lower::lowered;
use crate::format::messages::{layout_parsed, LayoutView};
use crate::format::object::{
    all_applied, applied, empty_header, indexed_message, plain_applied, HeaderView, ImageView,
};
use crate::format::object_laws::{
    dataset_header, dataset_plain, dataset_space, fill_of, header_stands, keeps,
    lemma_applied_push, lemma_fill_applied, lemma_filters_applied, lemma_finished,
    lemma_plain_then, lemma_space_applied, lemma_type_applied, same_form,
};
use crate::format::object_write::{
    all_known, attr_messages, dataset_messages, finished, lemma_patches_known, note_messages,
    unit_count, ImageOut,
};
use crate::format::share::{
    for_kind, message_known, object_at, patches_known, shared, store_added, store_for, StoreView,
};
use crate::format::stands::{lemma_stands, lemma_stands_both, stands};
use crate::format::tree::{appended, extends, lemma_appended, lemma_extends, padded};
use crate::format::{aligned8, lemma_le_bytes_len};
use crate::model::{DatasetView, NodeView};

verus! {

// Stores.

/// Whether stores hold what others held, under the same numbers.
pub open spec fn stores_keep(now: Seq<StoreView>, before: Seq<StoreView>) -> bool {
    &&& now.len() == before.len()
    &&& forall|i: int|
        0 <= i < now.len() ==> {
            &&& (#[trigger] now[i]).flags == before[i].flags
            &&& now[i].min_size == before[i].min_size
            &&& before[i].objects.len() <= now[i].objects.len()
            &&& now[i].objects.take(before[i].objects.len() as int) == before[i].objects
        }
}

/// Whether no shared body is too large for the blocks of a heap.
pub open spec fn bodies_small(v: Seq<StoreView>) -> bool {
    forall|i: int, k: int|
        0 <= i < v.len() && 0 <= k < v[i].objects.len() ==> (#[trigger] v[i].objects[k]).len()
            <= 4096
}

pub(crate) proof fn lemma_stores_keep(a: Seq<StoreView>, b: Seq<StoreView>, c: Seq<StoreView>)
    requires
        stores_keep(b, a),
        stores_keep(c, b),
    ensures
        stores_keep(c, a),
{
    assert forall|i: int| 0 <= i < c.len() implies {
        &&& (#[trigger] c[i]).flags == a[i].flags
        &&& c[i].min_size == a[i].min_size
        &&& a[i].objects.len() <= c[i].objects.len()
        &&& c[i].objects.take(a[i].objects.len() as int) == a[i].objects
    } by {
        assert(b[i].flags == a[i].flags);
        assert(c[i].objects.take(a[i].objects.len() as int) =~= b[i].objects.take(
            a[i].objects.len() as int,
        )) by {
            assert forall|k: int| 0 <= k < a[i].objects.len() implies c[i].objects[k]
                == b[i].objects[k] by {
                assert(c[i].objects.take(b[i].objects.len() as int)[k] == b[i].objects[k]);
            }
        }
    }
}

pub(crate) proof fn lemma_same_stores(v: Seq<StoreView>)
    ensures
        stores_keep(v, v),
{
    assert forall|i: int| 0 <= i < v.len() implies (#[trigger] v[i]).objects.take(
        v[i].objects.len() as int,
    ) == v[i].objects by {
        assert(v[i].objects.take(v[i].objects.len() as int) =~= v[i].objects);
    }
}

/// The index for a message stays the same when stores grow.
pub(crate) proof fn lemma_store_for(
    now: Seq<StoreView>,
    before: Seq<StoreView>,
    kind: u16,
    len: nat,
    i: nat,
)
    requires
        stores_keep(now, before),
    ensures
        store_for(now, kind, len, i) == store_for(before, kind, len, i),
        store_for(now, kind, len, i) matches Some(x) ==> i <= x < now.len() && for_kind(
            now[x as int].flags,
            kind,
        ) && len >= now[x as int].min_size,
    decreases now.len() - i,
{
    if i < now.len() {
        assert(now[i as int].flags == before[i as int].flags);
        lemma_store_for(now, before, kind, len, i + 1);
    }
}

proof fn lemma_found(objects: Seq<Seq<u8>>, body: Seq<u8>, i: nat)
    requires
        i <= objects.len(),
    ensures
        i <= object_at(objects, body, i) <= objects.len(),
        object_at(objects, body, i) < objects.len() ==> objects[object_at(
            objects,
            body,
            i,
        ) as int] == body,
    decreases objects.len() - i,
{
    if i < objects.len() && objects[i as int] != body {
        lemma_found(objects, body, i + 1);
    }
}

/// Whether a message gives a body: as its own, or by its number in a store.
pub open spec fn speaks_of(m: OutView, v: Seq<StoreView>, kind: u16, body: Seq<u8>) -> bool {
    m == plain_message(kind, body) || (m.shared matches Some((ix, item)) && {
        &&& m.kind == kind
        &&& m.flags == 2
        &&& m.body.len() == 10
        &&& m.body[0] == 3
        &&& m.body[1] == 1
        &&& ix < v.len()
        &&& item < v[ix as int].objects.len()
        &&& v[ix as int].objects[item as int] == body
        &&& store_for(v, kind, body.len(), 0) == Some(ix)
    })
}

/// A message that is shared gives its body, and what the stores held they hold.
pub proof fn law_message_shared(v: Seq<StoreView>, kind: u16, body: Seq<u8>)
    requires
        bodies_small(v),
    ensures
        ({
            let (now, m) = shared(v, kind, body);
            &&& stores_keep(now, v)
            &&& bodies_small(now)
            &&& speaks_of(m, now, kind, body)
        }),
{
    let (now, m) = shared(v, kind, body);
    lemma_same_stores(v);
    match store_for(v, kind, body.len(), 0) {
        None => {},
        Some(ix) => {
            lemma_store_for(v, v, kind, body.len(), 0);
            if body.len() <= 4096 {
                let old = v[ix as int];
                let (s, item) = store_added(old, body);
                lemma_found(old.objects, body, 0);
                assert(s.objects.take(old.objects.len() as int) =~= old.objects);
                assert forall|i: int| 0 <= i < now.len() implies {
                    &&& (#[trigger] now[i]).flags == v[i].flags
                    &&& now[i].min_size == v[i].min_size
                    &&& v[i].objects.len() <= now[i].objects.len()
                    &&& now[i].objects.take(v[i].objects.len() as int) == v[i].objects
                } by {
                    if i != ix {
                        assert(now[i] == v[i]);
                    }
                }
                assert forall|i: int, k: int|
                    0 <= i < now.len() && 0 <= k < now[i].objects.len() implies (
                #[trigger] now[i].objects[k]).len() <= 4096 by {
                    if i != ix || k < old.objects.len() {
                        assert(now[i].objects[k] == v[i].objects[k]);
                    }
                }
                lemma_store_for(now, v, kind, body.len(), 0);
                lemma_le_bytes_len(ix, 4);
                lemma_le_bytes_len(item, 4);
            }
        },
    }
}

/// A message gives its body when the stores grow.
pub(crate) proof fn lemma_speaks_on(
    m: OutView,
    before: Seq<StoreView>,
    now: Seq<StoreView>,
    kind: u16,
    body: Seq<u8>,
)
    requires
        stores_keep(now, before),
        speaks_of(m, before, kind, body),
    ensures
        speaks_of(m, now, kind, body),
{
    if let Some((ix, item)) = m.shared {
        if m != plain_message(kind, body) {
            lemma_store_for(now, before, kind, body.len(), 0);
            assert(now[ix as int].flags == before[ix as int].flags);
            assert(now[ix as int].objects.take(before[ix as int].objects.len() as int)[item as int]
                == now[ix as int].objects[item as int]);
        }
    }
}

// Messages.

/// Whether messages of a type are shared.
pub open spec fn shareable(kind: u16) -> bool {
    kind == MSG_DATASPACE || kind == MSG_DATATYPE || kind == MSG_FILL
}

/// Whether the bodies of stores are found in a file by their ids.
pub open spec fn serves(img: ImageView, v: Seq<StoreView>, ids: Seq<Seq<Seq<u8>>>) -> bool {
    forall|ix: int, item: int, kind: u16|
        #![trigger indexed_message(img, kind, ids[ix][item])]
        0 <= ix < v.len() && 0 <= item < v[ix].objects.len() && v[ix].objects[item].len() > 0
            && shareable(kind) && store_for(v, kind, v[ix].objects[item].len(), 0) == Some(
            ix as nat,
        ) ==> ids[ix][item].len() == 8 && indexed_message(img, kind, ids[ix][item]) == Ok::<
            Seq<u8>,
            Seq<char>,
        >(v[ix].objects[item])
}

/// A message as it stands in a file that is finished: where it is shared, with the id of
/// its body.
pub open spec fn settled(m: OutView, ids: Seq<Seq<Seq<u8>>>) -> OutView {
    match m.shared {
        None => m,
        Some((ix, item)) => OutView { body: m.body.take(2) + ids[ix as int][item as int], ..m },
    }
}

/// Messages as they stand in a file that is finished.
pub open spec fn all_settled(ms: Seq<OutView>, ids: Seq<Seq<Seq<u8>>>) -> Seq<OutView> {
    ms.map_values(|m: OutView| settled(m, ids))
}

/// Whether the ids of shared messages have 8 bytes.
pub open spec fn ids_known(ms: Seq<OutView>, ids: Seq<Seq<Seq<u8>>>) -> bool {
    forall|i: int|
        0 <= i < ms.len() ==> ((#[trigger] ms[i]).shared matches Some((ix, item))
            ==> ms[i].body.len() == 10 && ids[ix as int][item as int].len() == 8)
}

/// One more message that gives a body, shared or not.
pub(crate) proof fn lemma_settled_then(
    img: ImageView,
    ms: Seq<OutView>,
    m: OutView,
    kind: u16,
    body: Seq<u8>,
    v: Seq<StoreView>,
    ids: Seq<Seq<Seq<u8>>>,
    fill: bool,
    h: HeaderView,
    h1: HeaderView,
    depth: nat,
)
    requires
        all_applied(img, messages_read(ms, fill), 0, empty_header(), depth) == Ok::<
            HeaderView,
            Seq<char>,
        >(h),
        speaks_of(m, v, kind, body),
        serves(img, v, ids),
        shareable(kind),
        body.len() > 0,
        plain_applied(img, kind, body + fill_of(body, fill), h) == Ok::<HeaderView, Seq<char>>(h1),
        plain_applied(img, kind, body, h) == Ok::<HeaderView, Seq<char>>(h1),
    ensures
        all_applied(img, messages_read(ms.push(settled(m, ids)), fill), 0, empty_header(), depth)
            == Ok::<HeaderView, Seq<char>>(h1),
        m.shared matches Some((ix, item)) ==> m.body.len() == 10
            && ids[ix as int][item as int].len() == 8,
{
    if m == plain_message(kind, body) {
        lemma_plain_then(img, ms, kind, body, fill, h, h1, depth);
    } else {
        let (ix, item) = m.shared->0;
        let id = ids[ix as int][item as int];
        assert(indexed_message(img, kind, id) == Ok::<Seq<u8>, Seq<char>>(body));
        let read = message_read(settled(m, ids), fill);
        assert(read.body.skip(2).take(8) =~= id);
        assert(read.shared());
        assert(applied(img, read, h, depth) == Ok::<HeaderView, Seq<char>>(h1));
        assert(messages_read(ms.push(settled(m, ids)), fill) =~= messages_read(ms, fill).push(
            read,
        ));
        lemma_applied_push(img, messages_read(ms, fill), read, empty_header(), h, h1, depth);
    }
}

// Places.

/// Whether a place of an image is that of an id.
pub open spec fn covered(ps: Seq<PatchView>, i: int) -> bool {
    exists|j: int| 0 <= j < ps.len() && (#[trigger] ps[j]).pos <= i < ps[j].pos + 8
}

/// Whether a file holds an image behind `base`, all of it but what stands before `from`,
/// with ids in their places.
pub open spec fn keeps_but(
    t: Seq<u8>,
    base: u64,
    s: Seq<u8>,
    from: nat,
    ps: Seq<PatchView>,
    ids: Seq<Seq<Seq<u8>>>,
) -> bool {
    &&& base + s.len() <= t.len()
    &&& forall|i: int| from <= i < s.len() && !covered(ps, i) ==> #[trigger] s[i] == t[base + i]
    &&& forall|j: int|
        0 <= j < ps.len() && from <= (#[trigger] ps[j]).pos ==> stands(
            t,
            base + ps[j].pos,
            ids[ps[j].index as int][ps[j].item as int],
        )
}

/// Whether places follow one another.
pub open spec fn spaced(ps: Seq<PatchView>) -> bool {
    forall|j: int, k: int|
        0 <= j < k < ps.len() ==> (#[trigger] ps[j]).pos + 8 <= (#[trigger] ps[k]).pos
}

/// Whether places lie behind `from`.
pub open spec fn behind(ps: Seq<PatchView>, from: nat) -> bool {
    forall|j: int| 0 <= j < ps.len() ==> from <= (#[trigger] ps[j]).pos
}

/// The ids of messages stand one behind the other, within the messages.
pub(crate) proof fn lemma_places(ms: Seq<OutView>, start: nat, head: nat, fill: bool)
    requires
        shared_fit(ms),
    ensures
        patches_fit(patches_of(ms, start, head, fill), start + span(ms, head, fill)),
        behind(patches_of(ms, start, head, fill), start),
        spaced(patches_of(ms, start, head, fill)),
    decreases ms.len(),
{
    lemma_patches_fit(ms, start, head, fill, start + span(ms, head, fill));
    if ms.len() > 0 {
        let init = ms.drop_last();
        assert(shared_fit(init)) by {
            assert forall|i: int|
                0 <= i < init.len() && (#[trigger] init[i]).shared is Some implies init[i].body.len()
                == 10 by {
                assert(ms[i] == init[i]);
            }
        }
        lemma_places(init, start, head, fill);
        let before = patches_of(init, start, head, fill);
        let ps = patches_of(ms, start, head, fill);
        assert forall|j: int| 0 <= j < ps.len() implies start <= (#[trigger] ps[j]).pos by {
            if j < before.len() {
                assert(ps[j] == before[j]);
            }
        }
        assert forall|j: int, k: int| 0 <= j < k < ps.len() implies (#[trigger] ps[j]).pos + 8 <= (
        #[trigger] ps[k]).pos by {
            assert(ps[j] == before[j]);
            if k < before.len() {
                assert(ps[k] == before[k]);
            }
        }
    }
}

/// What a file holds of the messages before the last one.
proof fn lemma_less(
    t: Seq<u8>,
    base: u64,
    s: Seq<u8>,
    start: nat,
    ms: Seq<OutView>,
    ids: Seq<Seq<Seq<u8>>>,
    head: nat,
    fill: bool,
)
    requires
        ms.len() > 0,
        shared_fit(ms),
        s.len() == start + span(ms, head, fill),
        keeps_but(t, base, s, start, patches_of(ms, start, head, fill), ids),
    ensures
        ({
            let init = ms.drop_last();
            let part = s.take((start + span(init, head, fill)) as int);
            &&& keeps_but(t, base, part, start, patches_of(init, start, head, fill), ids)
            &&& shared_fit(init)
            &&& forall|i: int|
                start + span(init, head, fill) <= i < s.len() && covered(
                    patches_of(ms, start, head, fill),
                    i,
                ) ==> ms.last().shared is Some && #[trigger] in_id(
                    i,
                    start + span(init, head, fill) + head + 2,
                )
        }),
{
    let init = ms.drop_last();
    let end = start + span(init, head, fill);
    let part = s.take(end as int);
    let before = patches_of(init, start, head, fill);
    let ps = patches_of(ms, start, head, fill);
    assert(shared_fit(init)) by {
        assert forall|i: int|
            0 <= i < init.len() && (#[trigger] init[i]).shared is Some implies init[i].body.len()
            == 10 by {
            assert(ms[i] == init[i]);
        }
    }
    lemma_places(init, start, head, fill);
    assert forall|i: int| start <= i < part.len() && !covered(before, i) implies
        #[trigger] part[i] == t[base + i] by {
        assert(!covered(ps, i)) by {
            if covered(ps, i) {
                let j = choose|j: int|
                    0 <= j < ps.len() && (#[trigger] ps[j]).pos <= i < ps[j].pos + 8;
                assert(j < before.len());
                assert(before[j] == ps[j]);
            }
        }
        assert(s[i] == t[base + i]);
    }
    assert forall|j: int| 0 <= j < before.len() && start <= (#[trigger] before[j]).pos implies
        stands(t, base + before[j].pos, ids[before[j].index as int][before[j].item as int]) by {
        assert(ps[j] == before[j]);
    }
    assert forall|i: int| end <= i < s.len() && covered(ps, i) implies ms.last().shared is Some
        && #[trigger] in_id(i, end + head + 2) by {
        let j = choose|j: int| 0 <= j < ps.len() && (#[trigger] ps[j]).pos <= i < ps[j].pos + 8;
        if j < before.len() {
            assert(ps[j] == before[j]);
        }
    }
}

/// Whether a place is within an id.
pub open spec fn in_id(i: int, pos: nat) -> bool {
    pos <= i < pos + 8
}

/// Messages in a header of version 1 stand with their ids in place.
pub(crate) proof fn lemma_old_settled(
    t: Seq<u8>,
    base: u64,
    s: Seq<u8>,
    start: nat,
    ms: Seq<OutView>,
    ids: Seq<Seq<Seq<u8>>>,
)
    requires
        old_messages(ms) is Ok,
        ids_known(ms, ids),
        stands(s, start as int, old_messages(ms)->Ok_0),
        s.len() == start + span(ms, 8, true),
        keeps_but(t, base, s, start, patches_of(ms, start, 8, true), ids),
    ensures
        old_messages(all_settled(ms, ids)) is Ok,
        old_messages(all_settled(ms, ids))->Ok_0.len() == span(ms, 8, true),
        old_messages(ms)->Ok_0.len() == span(ms, 8, true),
        stands(t, base + start, old_messages(all_settled(ms, ids))->Ok_0),
    decreases ms.len(),
{
    let back = all_settled(ms, ids);
    if ms.len() == 0 {
        assert(t.subrange(base + start, base + start) =~= Seq::<u8>::empty());
    } else {
        let init = ms.drop_last();
        let m = ms.last();
        let mb = settled(m, ids);
        assert(m == ms[ms.len() - 1]);
        assert(ids_known(init, ids)) by {
            assert forall|i: int| 0 <= i < init.len() implies ((
            #[trigger] init[i]).shared matches Some((ix, item)) ==> init[i].body.len() == 10
                && ids[ix as int][item as int].len() == 8) by {
                assert(init[i] == ms[i]);
            }
        }
        assert(shared_fit(ms));
        lemma_less(t, base, s, start, ms, ids, 8, true);
        let end = start + span(init, 8, true);
        let part = s.take(end as int);
        let before = old_messages(init)->Ok_0;
        let one = old_message(m)->Ok_0;
        let n = aligned8(m.body.len() as int);
        crate::format::header_write::lemma_old_len(init);
        lemma_stands_both(s, start as int, before, one);
        assert(part.subrange(start as int, end as int) =~= s.subrange(start as int, end as int));
        lemma_old_settled(t, base, part, start, init, ids);
        assert(back.drop_last() =~= all_settled(init, ids));
        assert(back.last() == mb);
        assert(mb.body.len() == m.body.len());
        lemma_le_bytes_len(m.kind as nat, 2);
        lemma_le_bytes_len(n as nat, 2);
        let other = old_message(mb)->Ok_0;
        assert(one.len() == 8 + n && other.len() == 8 + n);
        lemma_stands(s, end as int, one);
        assert forall|i: int| 0 <= i < other.len() implies #[trigger] other[i] == t[base + end + i] by {
            if m.shared is Some && in_id(end + i, end + 10) {
                let ps = patches_of(ms, start, 8, true);
                let p = ps.last();
                assert(p == ps[ps.len() - 1]);
                let id = ids[p.index as int][p.item as int];
                lemma_stands(t, base + p.pos, id);
                assert(other[i] == id[i - 10]);
                assert(id[i - 10] == t[base + p.pos + (i - 10)]);
            } else {
                assert(!covered(patches_of(ms, start, 8, true), end + i)) by {
                    assert(in_id(end + i, end + 10) == (10 <= i < 18));
                }
                assert(s[end + i] == t[base + (end + i)]);
                assert(one[i] == s[end + i]);
                if m.shared is Some {
                    assert(other[i] == one[i]);
                }
            }
        }
        lemma_joined(t, base + start, old_messages(all_settled(init, ids))->Ok_0, other);
    }
}

/// Bytes that stand one behind the other stand as a whole.
proof fn lemma_joined(t: Seq<u8>, pos: int, a: Seq<u8>, b: Seq<u8>)
    requires
        stands(t, pos, a),
        pos + a.len() + b.len() <= t.len(),
        forall|i: int| 0 <= i < b.len() ==> #[trigger] b[i] == t[pos + a.len() + i],
    ensures
        stands(t, pos, a + b),
{
    lemma_stands(t, pos, a);
    assert(t.subrange(pos, pos + (a + b).len()) =~= a + b) by {
        assert forall|i: int| 0 <= i < (a + b).len() implies t[pos + i] == (a + b)[i] by {
            if i >= a.len() {
                assert(b[i - a.len()] == t[pos + a.len() + (i - a.len())]);
            }
        }
    }
}

/// Messages in a header of version 2 stand with their ids in place.
pub(crate) proof fn lemma_new_settled(
    t: Seq<u8>,
    base: u64,
    s: Seq<u8>,
    start: nat,
    ms: Seq<OutView>,
    ids: Seq<Seq<Seq<u8>>>,
)
    requires
        new_messages(ms) is Ok,
        ids_known(ms, ids),
        stands(s, start as int, new_messages(ms)->Ok_0),
        s.len() == start + span(ms, 4, false),
        keeps_but(t, base, s, start, patches_of(ms, start, 4, false), ids),
    ensures
        new_messages(all_settled(ms, ids)) is Ok,
        new_messages(all_settled(ms, ids))->Ok_0.len() == span(ms, 4, false),
        new_messages(ms)->Ok_0.len() == span(ms, 4, false),
        stands(t, base + start, new_messages(all_settled(ms, ids))->Ok_0),
    decreases ms.len(),
{
    let back = all_settled(ms, ids);
    if ms.len() == 0 {
        assert(t.subrange(base + start, base + start) =~= Seq::<u8>::empty());
    } else {
        let init = ms.drop_last();
        let m = ms.last();
        let mb = settled(m, ids);
        assert(m == ms[ms.len() - 1]);
        assert(ids_known(init, ids)) by {
            assert forall|i: int| 0 <= i < init.len() implies ((
            #[trigger] init[i]).shared matches Some((ix, item)) ==> init[i].body.len() == 10
                && ids[ix as int][item as int].len() == 8) by {
                assert(init[i] == ms[i]);
            }
        }
        assert(shared_fit(ms));
        lemma_less(t, base, s, start, ms, ids, 4, false);
        let end = start + span(init, 4, false);
        let part = s.take(end as int);
        let before = new_messages(init)->Ok_0;
        let one = new_message(m)->Ok_0;
        let n = m.body.len();
        crate::format::header_write::lemma_new_len(init);
        lemma_stands_both(s, start as int, before, one);
        assert(part.subrange(start as int, end as int) =~= s.subrange(start as int, end as int));
        lemma_new_settled(t, base, part, start, init, ids);
        assert(back.drop_last() =~= all_settled(init, ids));
        assert(back.last() == mb);
        assert(mb.body.len() == m.body.len());
        lemma_le_bytes_len(m.kind as nat, 1);
        lemma_le_bytes_len(n, 2);
        let other = new_message(mb)->Ok_0;
        assert(one.len() == 4 + n && other.len() == 4 + n);
        lemma_stands(s, end as int, one);
        assert forall|i: int| 0 <= i < other.len() implies #[trigger] other[i] == t[base + end + i] by {
            if m.shared is Some && in_id(end + i, end + 6) {
                let ps = patches_of(ms, start, 4, false);
                let p = ps.last();
                assert(p == ps[ps.len() - 1]);
                let id = ids[p.index as int][p.item as int];
                lemma_stands(t, base + p.pos, id);
                assert(other[i] == id[i - 6]);
                assert(id[i - 6] == t[base + p.pos + (i - 6)]);
            } else {
                assert(!covered(patches_of(ms, start, 4, false), end + i)) by {
                    assert(in_id(end + i, end + 6) == (6 <= i < 14));
                }
                assert(s[end + i] == t[base + (end + i)]);
                assert(one[i] == s[end + i]);
                if m.shared is Some {
                    assert(other[i] == one[i]);
                }
            }
        }
        lemma_joined(t, base + start, new_messages(all_settled(init, ids))->Ok_0, other);
    }
}

// Images that grow.

/// Whether an image goes on from another one: what was written stays, but for the places
/// of ids.
pub open spec fn grows(w1: ImageOut, w: ImageOut) -> bool {
    &&& extends(w1.buf, w.buf)
    &&& stores_keep(w1.stores, w.stores)
    &&& w.patches.len() <= w1.patches.len()
    &&& w1.patches.take(w.patches.len() as int) == w.patches
    &&& behind(w1.patches.skip(w.patches.len() as int), w.buf.len())
}

/// Whether the places of ids lie in an image one behind the other, and give bodies that
/// the stores hold.
pub open spec fn sound(w: ImageOut) -> bool {
    &&& patches_fit(w.patches, w.buf.len())
    &&& patches_known(w.patches, w.stores)
    &&& spaced(w.patches)
    &&& bodies_small(w.stores)
}

pub(crate) proof fn lemma_grows(a: ImageOut, b: ImageOut, c: ImageOut)
    requires
        grows(b, a),
        grows(c, b),
    ensures
        grows(c, a),
{
    lemma_extends(a.buf, b.buf, c.buf);
    lemma_stores_keep(a.stores, b.stores, c.stores);
    assert(c.patches.take(a.patches.len() as int) =~= c.patches.take(b.patches.len() as int).take(
        a.patches.len() as int,
    ));
    let tail = c.patches.skip(a.patches.len() as int);
    assert forall|j: int| 0 <= j < tail.len() implies a.buf.len() <= (#[trigger] tail[j]).pos by {
        let k = j + a.patches.len();
        if k < b.patches.len() {
            assert(c.patches.take(b.patches.len() as int)[k] == b.patches[k]);
            assert(b.patches.skip(a.patches.len() as int)[j] == tail[j]);
        } else {
            assert(c.patches.skip(b.patches.len() as int)[k - b.patches.len()] == tail[j]);
        }
    }
}

pub(crate) proof fn lemma_same_image(w: ImageOut)
    ensures
        grows(w, w),
{
    lemma_same_stores(w.stores);
    assert(w.buf.take(w.buf.len() as int) =~= w.buf);
    assert(w.patches.take(w.patches.len() as int) =~= w.patches);
}

/// A file that holds an image holds what it grew from.
pub(crate) proof fn lemma_keeps_before(
    t: Seq<u8>,
    base: u64,
    w1: ImageOut,
    w: ImageOut,
    from: nat,
    ids: Seq<Seq<Seq<u8>>>,
)
    requires
        grows(w1, w),
        keeps_but(t, base, w1.buf, from, w1.patches, ids),
    ensures
        keeps_but(t, base, w.buf, from, w.patches, ids),
{
    assert forall|i: int| from <= i < w.buf.len() && !covered(w.patches, i) implies
        #[trigger] w.buf[i] == t[base + i] by {
        assert(!covered(w1.patches, i)) by {
            if covered(w1.patches, i) {
                let j = choose|j: int|
                    0 <= j < w1.patches.len() && (#[trigger] w1.patches[j]).pos <= i
                        < w1.patches[j].pos + 8;
                if j < w.patches.len() {
                    assert(w1.patches.take(w.patches.len() as int)[j] == w.patches[j]);
                } else {
                    assert(w1.patches.skip(w.patches.len() as int)[j - w.patches.len()]
                        == w1.patches[j]);
                }
            }
        }
        assert(w1.buf.take(w.buf.len() as int)[i] == w.buf[i]);
        assert(w1.buf[i] == t[base + i]);
    }
    assert forall|j: int| 0 <= j < w.patches.len() && from <= (#[trigger] w.patches[j]).pos implies
        stands(
        t,
        base + w.patches[j].pos,
        ids[w.patches[j].index as int][w.patches[j].item as int],
    ) by {
        assert(w1.patches.take(w.patches.len() as int)[j] == w.patches[j]);
        assert(w1.patches[j] == w.patches[j]);
    }
}

/// Where no ids were added, a file holds what was written as it is.
pub(crate) proof fn lemma_keeps_plain(
    t: Seq<u8>,
    base: u64,
    s: Seq<u8>,
    from: nat,
    ps: Seq<PatchView>,
    ids: Seq<Seq<Seq<u8>>>,
)
    requires
        keeps_but(t, base, s, from, ps, ids),
        patches_fit(ps, from),
    ensures
        keeps(t, base, s, from),
{
    assert forall|i: int| from <= i < s.len() implies #[trigger] s[i] == t[base + i] by {
        assert(!covered(ps, i));
    }
}

/// Whether no message is shared.
pub open spec fn none_shared(ms: Seq<OutView>) -> bool {
    forall|i: int| 0 <= i < ms.len() ==> (#[trigger] ms[i]).shared is None
}

proof fn lemma_no_patches(ms: Seq<OutView>, start: nat, head: nat, fill: bool)
    requires
        none_shared(ms),
    ensures
        patches_of(ms, start, head, fill).len() == 0,
    decreases ms.len(),
{
    if ms.len() > 0 {
        let init = ms.drop_last();
        assert(none_shared(init)) by {
            assert forall|i: int| 0 <= i < init.len() implies (#[trigger] init[i]).shared is None by {
                assert(init[i] == ms[i]);
            }
        }
        assert(ms[ms.len() - 1].shared is None);
        lemma_no_patches(init, start, head, fill);
    }
}

proof fn lemma_more_patches(
    ps: Seq<PatchView>,
    more: Seq<PatchView>,
    len: nat,
    from: nat,
    total: nat,
    v: Seq<StoreView>,
)
    requires
        patches_fit(ps, len),
        patches_known(ps, v),
        spaced(ps),
        patches_fit(more, total),
        patches_known(more, v),
        spaced(more),
        behind(more, from),
        len <= from <= total,
    ensures
        patches_fit(ps + more, total),
        patches_known(ps + more, v),
        spaced(ps + more),
        (ps + more).take(ps.len() as int) == ps,
        behind((ps + more).skip(ps.len() as int), len),
{
    let all = ps + more;
    assert(all.take(ps.len() as int) =~= ps);
    assert(all.skip(ps.len() as int) =~= more);
    assert forall|j: int| 0 <= j < all.len() implies (#[trigger] all[j]).pos + 8 <= total && all[j].index
        < v.len() && all[j].item < v[all[j].index as int].objects.len() by {
        if j < ps.len() {
            assert(all[j] == ps[j]);
        } else {
            assert(all[j] == more[j - ps.len()]);
        }
    }
    assert forall|j: int, k: int| 0 <= j < k < all.len() implies (#[trigger] all[j]).pos + 8 <= (
    #[trigger] all[k]).pos by {
        if j < ps.len() {
            assert(all[j] == ps[j]);
        } else {
            assert(all[j] == more[j - ps.len()]);
        }
        if k < ps.len() {
            assert(all[k] == ps[k]);
        } else {
            assert(all[k] == more[k - ps.len()]);
        }
    }
}

/// The messages of an object with its notes and attributes, of which none is shared.
proof fn lemma_whole_known(ms: Seq<OutView>, n: NodeView, attrs: AttrsView, v: Seq<StoreView>)
    requires
        all_known(ms, v),
    ensures
        all_known(ms + note_messages(n) + attr_messages(attrs), v),
        none_shared(ms) ==> none_shared(ms + note_messages(n) + attr_messages(attrs)),
{
    let all = ms + note_messages(n) + attr_messages(attrs);
    assert forall|i: int| 0 <= i < all.len() implies message_known(#[trigger] all[i], v) by {
        if i < ms.len() {
            assert(all[i] == ms[i]);
        }
    }
    if none_shared(ms) {
        assert forall|i: int| 0 <= i < all.len() implies (#[trigger] all[i]).shared is None by {
            if i < ms.len() {
                assert(all[i] == ms[i]);
            }
        }
    }
}

/// An image goes on when an object is finished.
pub(crate) proof fn lemma_finished_grows(
    w: ImageOut,
    n: NodeView,
    ms: Seq<OutView>,
    w1: ImageOut,
    addr: u64,
)
    requires
        finished(w, n, ms) == Ok::<(ImageOut, u64), Seq<char>>((w1, addr)),
        sound(w),
        all_known(ms, w.stores),
    ensures
        grows(w1, w),
        sound(w1),
        none_shared(ms) ==> w1.patches == w.patches,
{
    let (s, attrs) = lemma_finished(w, n, ms, w1, addr);
    let all = ms + note_messages(n) + attr_messages(attrs);
    let at = padded(s).len();
    lemma_whole_known(ms, n, attrs, w.stores);
    lemma_extends(w.buf, s, w1.buf);
    lemma_same_stores(w.stores);
    lemma_appended(s, Seq::empty());
    if attrs is Dense {
        let body = new_messages(all)->Ok_0;
        let more = patches_of(all, at + 10, 4, false);
        lemma_patches_known(all, at + 10, 4, false, w.stores);
        lemma_places(all, at + 10, 4, false);
        lemma_new_len(all);
        lemma_le_bytes_len(body.len(), 4);
        lemma_le_bytes_len(crate::format::checksum::lookup3(unsummed(body)) as nat, 4);
        lemma_appended(s, new_header(body));
        lemma_more_patches(w.patches, more, w.buf.len(), at + 10, w1.buf.len(), w.stores);
        if none_shared(ms) {
            lemma_no_patches(all, at + 10, 4, false);
            assert(w.patches + more =~= w.patches);
        }
    } else {
        let body = old_messages(all)->Ok_0;
        let more = patches_of(all, at + 16, 8, true);
        lemma_patches_known(all, at + 16, 8, true, w.stores);
        lemma_places(all, at + 16, 8, true);
        lemma_old_len(all);
        lemma_le_bytes_len(all.len(), 2);
        lemma_le_bytes_len(1, 4);
        lemma_le_bytes_len(body.len(), 4);
        lemma_appended(s, old_header(all.len(), body));
        lemma_more_patches(w.patches, more, w.buf.len(), at + 16, w1.buf.len(), w.stores);
        if none_shared(ms) {
            lemma_no_patches(all, at + 16, 8, true);
            assert(w.patches + more =~= w.patches);
        }
    }
}

/// What a file holds from a header on, whose ids are the last ones.
proof fn lemma_keeps_last(
    t: Seq<u8>,
    base: u64,
    s: Seq<u8>,
    from: nat,
    start: nat,
    ps: Seq<PatchView>,
    more: Seq<PatchView>,
    ids: Seq<Seq<Seq<u8>>>,
)
    requires
        keeps_but(t, base, s, from, ps + more, ids),
        patches_fit(ps, start),
        from <= start,
    ensures
        keeps_but(t, base, s, start, more, ids),
{
    let all = ps + more;
    assert forall|i: int| start <= i < s.len() && !covered(more, i) implies #[trigger] s[i] == t[
        base + i] by {
        if covered(all, i) {
            let j = choose|j: int| 0 <= j < all.len() && (#[trigger] all[j]).pos <= i < all[j].pos
                + 8;
            if j < ps.len() {
                assert(all[j] == ps[j]);
            } else {
                assert(all[j] == more[j - ps.len()]);
            }
        }
    }
    assert forall|j: int| 0 <= j < more.len() && start <= (#[trigger] more[j]).pos implies stands(
        t,
        base + more[j].pos,
        ids[more[j].index as int][more[j].item as int],
    ) by {
        assert(all[j + ps.len()] == more[j]);
    }
}

/// A header of version 1 stands in a file with the ids of its shared messages in place.
proof fn lemma_old_whole(
    t: Seq<u8>,
    base: u64,
    s: Seq<u8>,
    out: Seq<u8>,
    all: Seq<OutView>,
    ids: Seq<Seq<Seq<u8>>>,
)
    requires
        old_messages(all) is Ok,
        out == appended(s, old_header(all.len(), old_messages(all)->Ok_0)),
        ids_known(all, ids),
        keeps_but(
            t,
            base,
            out,
            padded(s).len(),
            patches_of(all, padded(s).len() + 16, 8, true),
            ids,
        ),
    ensures
        header_stands(t, base, s, all_settled(all, ids), false),
{
    let at = padded(s).len();
    let body = old_messages(all)->Ok_0;
    let whole = old_header(all.len(), body);
    let more = patches_of(all, at + 16, 8, true);
    assert(shared_fit(all));
    lemma_places(all, at + 16, 8, true);
    lemma_old_len(all);
    lemma_le_bytes_len(all.len(), 2);
    lemma_le_bytes_len(1, 4);
    lemma_le_bytes_len(body.len(), 4);
    lemma_appended_part(s, whole, out, false, body, all.len());
    lemma_front(t, base, out, at, 16, whole, more, ids);
    assert(out.subrange((at + 16) as int, (at + 16 + body.len()) as int) =~= body) by {
        assert forall|i: int| 0 <= i < body.len() implies out[at + 16 + i] == body[i] by {
            assert(body[i] == whole[i + 16]);
            assert(out[at + (i + 16)] == whole[i + 16]);
        }
    }
    lemma_old_settled(t, base, out, at + 16, all, ids);
    let other = old_messages(all_settled(all, ids))->Ok_0;
    lemma_stands(t, base + at + 16, other);
    lemma_joined(t, base + at, whole.take(16), other);
    assert(whole.take(16) + other =~= old_header(all.len(), other));
}

/// What stands before the messages of a header stands in a file as it is.
proof fn lemma_front(
    t: Seq<u8>,
    base: u64,
    out: Seq<u8>,
    at: nat,
    size: nat,
    whole: Seq<u8>,
    more: Seq<PatchView>,
    ids: Seq<Seq<Seq<u8>>>,
)
    requires
        keeps_but(t, base, out, at, more, ids),
        behind(more, at + size),
        size <= whole.len(),
        at + whole.len() <= out.len(),
        forall|i: int| 0 <= i < whole.len() ==> out[at + i] == #[trigger] whole[i],
    ensures
        stands(t, base + at, whole.take(size as int)),
        keeps_but(t, base, out, at + size, more, ids),
{
    let front = whole.take(size as int);
    assert forall|i: int| 0 <= i < front.len() implies t[base + at + i] == front[i] by {
        assert(!covered(more, at + i));
        assert(out[at + i] == whole[i]);
        assert(out[at + i] == t[base + (at + i)]);
    }
    assert(t.subrange(base + at, base + at + front.len()) =~= front);
}

/// A header of version 2 stands in a file with the ids of its shared messages in place.
proof fn lemma_new_whole(
    t: Seq<u8>,
    base: u64,
    s: Seq<u8>,
    out: Seq<u8>,
    all: Seq<OutView>,
    ids: Seq<Seq<Seq<u8>>>,
)
    requires
        new_messages(all) is Ok,
        out == appended(s, new_header(new_messages(all)->Ok_0)),
        ids_known(all, ids),
        keeps_but(
            t,
            base,
            out,
            padded(s).len(),
            patches_of(all, padded(s).len() + 10, 4, false),
            ids,
        ),
    ensures
        header_stands(t, base, s, all_settled(all, ids), true),
{
    let at = padded(s).len();
    let body = new_messages(all)->Ok_0;
    let whole = unsummed(body);
    let more = patches_of(all, at + 10, 4, false);
    assert(shared_fit(all));
    lemma_places(all, at + 10, 4, false);
    lemma_new_len(all);
    lemma_le_bytes_len(body.len(), 4);
    lemma_appended_part(s, whole, out, true, body, 0);
    lemma_front(t, base, out, at, 10, whole, more, ids);
    let upto = out.take((at + 10 + body.len()) as int);
    assert(upto.subrange((at + 10) as int, (at + 10 + body.len()) as int) =~= body) by {
        assert forall|i: int| 0 <= i < body.len() implies upto[at + 10 + i] == body[i] by {
            assert(body[i] == whole[i + 10]);
            assert(out[at + (i + 10)] == whole[i + 10]);
        }
    }
    assert(keeps_but(t, base, upto, at + 10, more, ids)) by {
        assert forall|i: int| at + 10 <= i < upto.len() && !covered(more, i) implies
            #[trigger] upto[i] == t[base + i] by {
            assert(out[i] == t[base + i]);
        }
    }
    lemma_new_settled(t, base, upto, at + 10, all, ids);
    let other = new_messages(all_settled(all, ids))->Ok_0;
    lemma_stands(t, base + at + 10, other);
    lemma_joined(t, base + at, whole.take(10), other);
    assert(whole.take(10) + other =~= unsummed(other));
}

/// Notes and attributes are the same in a file that is finished.
proof fn lemma_rest_settled(
    ms: Seq<OutView>,
    n: NodeView,
    attrs: AttrsView,
    ids: Seq<Seq<Seq<u8>>>,
)
    requires
        ids_known(ms, ids),
    ensures
        ({
            let all = ms + note_messages(n) + attr_messages(attrs);
            &&& all_settled(all, ids) == all_settled(ms, ids) + note_messages(n) + attr_messages(
                attrs,
            )
            &&& ids_known(all, ids)
            &&& shared_fit(all)
        }),
        same_form(ms, all_settled(ms, ids)),
{
    let all = ms + note_messages(n) + attr_messages(attrs);
    let back = all_settled(ms, ids) + note_messages(n) + attr_messages(attrs);
    assert forall|i: int| 0 <= i < all.len() implies ((
    #[trigger] all[i]).shared matches Some((ix, item)) ==> all[i].body.len() == 10
        && ids[ix as int][item as int].len() == 8) && settled(all[i], ids) == back[i] by {
        if i < ms.len() {
            assert(all[i] == ms[i]);
        }
    }
    assert(all_settled(all, ids) =~= back);
    assert forall|i: int| 0 <= i < ms.len() implies (#[trigger] ms[i]).kind == all_settled(
        ms,
        ids,
    )[i].kind && ms[i].body.len() == all_settled(ms, ids)[i].body.len() by {}
}

/// A header stands in a file with the ids of its shared messages in place, and the
/// attributes before it as they are.
pub(crate) proof fn lemma_header_settled(
    img: ImageView,
    w: ImageOut,
    n: NodeView,
    ms: Seq<OutView>,
    w1: ImageOut,
    addr: u64,
    from: nat,
    ids: Seq<Seq<Seq<u8>>>,
)
    requires
        finished(w, n, ms) == Ok::<(ImageOut, u64), Seq<char>>((w1, addr)),
        patches_fit(w.patches, from),
        from <= w.buf.len(),
        ids_known(ms, ids),
        keeps_but(img.data, img.base, w1.buf, from, w1.patches, ids),
    ensures
        attrs_written(w.buf, n.attrs) matches Ok((s, attrs)) && keeps(
            img.data,
            img.base,
            s,
            from,
        ) && header_stands(
            img.data,
            img.base,
            s,
            all_settled(ms, ids) + note_messages(n) + attr_messages(attrs),
            attrs is Dense,
        ),
        same_form(ms, all_settled(ms, ids)),
{
    let (s, attrs) = lemma_finished(w, n, ms, w1, addr);
    let all = ms + note_messages(n) + attr_messages(attrs);
    let at = padded(s).len();
    lemma_rest_settled(ms, n, attrs, ids);
    lemma_appended(s, Seq::empty());
    let more = if attrs is Dense {
        patches_of(all, at + 10, 4, false)
    } else {
        patches_of(all, at + 16, 8, true)
    };
    lemma_places(all, at + 10, 4, false);
    lemma_places(all, at + 16, 8, true);
    lemma_keeps_last(img.data, img.base, w1.buf, from, from, w.patches, more, ids);
    assert(behind(more, at));
    assert forall|i: int| from <= i < s.len() implies #[trigger] s[i] == img.data[img.base + i] by {
        assert(!covered(more, i));
        assert(w1.buf.take(s.len() as int)[i] == s[i]);
        assert(w1.buf[i] == img.data[img.base + i]);
    }
    assert(keeps_but(img.data, img.base, w1.buf, at, more, ids));
    if attrs is Dense {
        lemma_new_whole(img.data, img.base, s, w1.buf, all, ids);
    } else {
        lemma_old_whole(img.data, img.base, s, w1.buf, all, ids);
    }
}

/// Where the parts of a header stand in an image.
proof fn lemma_appended_part(
    s: Seq<u8>,
    whole: Seq<u8>,
    out: Seq<u8>,
    dense: bool,
    body: Seq<u8>,
    count: nat,
)
    requires
        whole == (if dense {
            unsummed(body)
        } else {
            old_header(count, body)
        }),
        out == appended(
            s,
            if dense {
                new_header(body)
            } else {
                old_header(count, body)
            },
        ),
    ensures
        padded(s).len() + whole.len() <= out.len(),
        forall|i: int| 0 <= i < whole.len() ==> out[padded(s).len() + i] == #[trigger] whole[i],
        whole.len() == body.len() + (if dense {
            10int
        } else {
            16int
        }),
        forall|i: int|
            0 <= i < body.len() ==> #[trigger] body[i] == whole[i + (if dense {
                10int
            } else {
                16int
            })],
{
    lemma_le_bytes_len(body.len(), 4);
    lemma_le_bytes_len(count, 2);
    lemma_le_bytes_len(1, 4);
    lemma_le_bytes_len(crate::format::checksum::lookup3(unsummed(body)) as nat, 4);
}

// Datasets.

/// No message of a dataset is empty.
proof fn lemma_bodies_some(d: DatasetView)
    requires
        dataset_plain(d),
    ensures
        dataspace_message(d.dims, d.maxdims, d.is_scalar, d.is_null).len() > 0,
        encoded(d.dtype).len() > 0,
        fill_message(d.fill).len() > 0,
{
    reveal(dataset_plain);
    let none = Seq::<u8>::empty();
    law_datatype_round_trip(d.dtype, none);
    if encoded(d.dtype).len() == 0 {
        assert(encoded(d.dtype) + none =~= none);
    }
}

/// The first three messages of a dataset, shared or not.
proof fn lemma_three_settled(
    img: ImageView,
    d: DatasetView,
    m1: OutView,
    m2: OutView,
    m3: OutView,
    v: Seq<StoreView>,
    ids: Seq<Seq<Seq<u8>>>,
    fill: bool,
    depth: nat,
)
    requires
        dataset_plain(d),
        speaks_of(
            m1,
            v,
            MSG_DATASPACE,
            dataspace_message(d.dims, d.maxdims, d.is_scalar, d.is_null),
        ),
        speaks_of(m2, v, MSG_DATATYPE, encoded(d.dtype)),
        speaks_of(m3, v, MSG_FILL, fill_message(d.fill)),
        serves(img, v, ids),
    ensures
        ids_known(seq![m1, m2, m3], ids),
        all_applied(
            img,
            messages_read(all_settled(seq![m1, m2, m3], ids), fill),
            0,
            empty_header(),
            depth,
        ) == Ok::<HeaderView, Seq<char>>(
            HeaderView {
                space: Some(dataset_space(d)),
                dtype: Some((d.dtype, OrderView::Plain)),
                fill: d.fill,
                ..empty_header()
            },
        ),
{
    let b1 = dataspace_message(d.dims, d.maxdims, d.is_scalar, d.is_null);
    let b2 = encoded(d.dtype);
    let b3 = fill_message(d.fill);
    lemma_bodies_some(d);
    let none = Seq::<OutView>::empty();
    let h0 = empty_header();
    assert(messages_read(none, fill) =~= Seq::empty());
    assert(all_applied(img, Seq::empty(), 0, h0, depth) == Ok::<HeaderView, Seq<char>>(h0));
    let h1 = HeaderView { space: Some(dataset_space(d)), ..h0 };
    let h2 = HeaderView { dtype: Some((d.dtype, OrderView::Plain)), ..h1 };
    let h3 = HeaderView { fill: d.fill, ..h2 };
    let e = Seq::<u8>::empty();
    lemma_space_applied(img, d, h0, fill_of(b1, fill));
    lemma_space_applied(img, d, h0, e);
    lemma_type_applied(img, d, h1, fill_of(b2, fill));
    lemma_type_applied(img, d, h1, e);
    lemma_fill_applied(img, d, h2, fill_of(b3, fill));
    lemma_fill_applied(img, d, h2, e);
    assert(b1 + e =~= b1);
    assert(b2 + e =~= b2);
    assert(b3 + e =~= b3);
    lemma_settled_then(img, none, m1, MSG_DATASPACE, b1, v, ids, fill, h0, h1, depth);
    let ms1 = none.push(settled(m1, ids));
    lemma_settled_then(img, ms1, m2, MSG_DATATYPE, b2, v, ids, fill, h1, h2, depth);
    let ms2 = ms1.push(settled(m2, ids));
    lemma_settled_then(img, ms2, m3, MSG_FILL, b3, v, ids, fill, h2, h3, depth);
    let ms3 = ms2.push(settled(m3, ids));
    assert(all_settled(seq![m1, m2, m3], ids) =~= ms3);
}

/// The messages of a dataset are read as they are written, whether they are shared or not.
pub(crate) proof fn lemma_dataset_settled(
    img: ImageView,
    stores: Seq<StoreView>,
    d: DatasetView,
    body: Seq<u8>,
    layout: LayoutView,
    v: Seq<StoreView>,
    ids: Seq<Seq<Seq<u8>>>,
    fill: bool,
    depth: nat,
)
    requires
        dataset_plain(d),
        layout_parsed(body + fill_of(body, fill)) == Ok::<LayoutView, Seq<char>>(layout),
        bodies_small(stores),
        serves(img, v, ids),
        stores_keep(v, dataset_messages(stores, d, body).0),
    ensures
        ids_known(dataset_messages(stores, d, body).1, ids),
        all_applied(
            img,
            messages_read(all_settled(dataset_messages(stores, d, body).1, ids), fill),
            0,
            empty_header(),
            depth,
        ) == Ok::<HeaderView, Seq<char>>(dataset_header(d, layout)),
{
    let b1 = dataspace_message(d.dims, d.maxdims, d.is_scalar, d.is_null);
    let b2 = encoded(d.dtype);
    let b3 = fill_message(d.fill);
    let (v1, m1) = shared(stores, MSG_DATASPACE, b1);
    let (v2, m2) = shared(v1, MSG_DATATYPE, b2);
    let (v3, m3) = shared(v2, MSG_FILL, b3);
    law_message_shared(stores, MSG_DATASPACE, b1);
    law_message_shared(v1, MSG_DATATYPE, b2);
    law_message_shared(v2, MSG_FILL, b3);
    lemma_stores_keep(v2, v3, v);
    lemma_stores_keep(v1, v2, v);
    lemma_speaks_on(m1, v1, v, MSG_DATASPACE, b1);
    lemma_speaks_on(m2, v2, v, MSG_DATATYPE, b2);
    lemma_speaks_on(m3, v3, v, MSG_FILL, b3);
    let first = seq![m1, m2, m3];
    let ms3 = all_settled(first, ids);
    lemma_three_settled(img, d, m1, m2, m3, v, ids, fill, depth);
    let h3 = HeaderView {
        space: Some(dataset_space(d)),
        dtype: Some((d.dtype, OrderView::Plain)),
        fill: d.fill,
        ..empty_header()
    };
    lemma_rest_applied(img, d, ms3, body, layout, fill, h3, depth);
    let fs = lowered(d, unit_count(d));
    let all = dataset_messages(stores, d, body).1;
    let rest = (if fs.len() == 0 {
        Seq::empty()
    } else {
        seq![plain_message(MSG_FILTER, pipeline_message(fs))]
    }) + seq![plain_message(MSG_LAYOUT, body)];
    assert(all =~= first + rest);
    assert(all_settled(all, ids) =~= ms3 + rest);
    assert forall|i: int| 0 <= i < all.len() implies ((
    #[trigger] all[i]).shared matches Some((ix, item)) ==> all[i].body.len() == 10
        && ids[ix as int][item as int].len() == 8) by {
        if i >= 3 {
            assert(all[i] == rest[i - 3]);
        } else {
            assert(all[i] == first[i]);
        }
    }
}

/// The messages of a dataset behind those that may be shared.
proof fn lemma_rest_applied(
    img: ImageView,
    d: DatasetView,
    ms: Seq<OutView>,
    body: Seq<u8>,
    layout: LayoutView,
    fill: bool,
    h: HeaderView,
    depth: nat,
)
    requires
        dataset_plain(d),
        layout_parsed(body + fill_of(body, fill)) == Ok::<LayoutView, Seq<char>>(layout),
        h.filters.len() == 0,
        all_applied(img, messages_read(ms, fill), 0, empty_header(), depth) == Ok::<
            HeaderView,
            Seq<char>,
        >(h),
    ensures
        ({
            let fs = lowered(d, unit_count(d));
            all_applied(
                img,
                messages_read(
                    ms + ((if fs.len() == 0 {
                        Seq::empty()
                    } else {
                        seq![plain_message(MSG_FILTER, pipeline_message(fs))]
                    }) + seq![plain_message(MSG_LAYOUT, body)]),
                    fill,
                ),
                0,
                empty_header(),
                depth,
            ) == Ok::<HeaderView, Seq<char>>(
                HeaderView { filters: fs, layout: Some(layout), ..h },
            )
        }),
{
    let fs = lowered(d, unit_count(d));
    let h1 = HeaderView { filters: fs, ..h };
    let h2 = HeaderView { layout: Some(layout), ..h1 };
    let last = plain_message(MSG_LAYOUT, body);
    assert(plain_applied(img, MSG_LAYOUT, body + fill_of(body, fill), h1) == Ok::<
        HeaderView,
        Seq<char>,
    >(h2)) by {
        reveal(plain_applied);
    }
    if fs.len() == 0 {
        assert(fs =~= h.filters);
        assert(ms + (Seq::empty() + seq![last]) =~= ms.push(last));
        lemma_plain_then(img, ms, MSG_LAYOUT, body, fill, h, h2, depth);
    } else {
        let b = pipeline_message(fs);
        let m = plain_message(MSG_FILTER, b);
        lemma_filters_applied(img, d, h, fill_of(b, fill));
        lemma_plain_then(img, ms, MSG_FILTER, b, fill, h, h1, depth);
        assert(ms + (seq![m] + seq![last]) =~= ms.push(m).push(last));
        lemma_plain_then(img, ms.push(m), MSG_LAYOUT, body, fill, h1, h2, depth);
    }
}

/// The messages of a dataset refer to bodies that the stores hold, which go on from what
/// they were.
pub(crate) proof fn lemma_dataset_stores(stores: Seq<StoreView>, d: DatasetView, body: Seq<u8>)
    requires
        bodies_small(stores),
    ensures
        ({
            let (now, ms) = dataset_messages(stores, d, body);
            &&& stores_keep(now, stores)
            &&& bodies_small(now)
            &&& all_known(ms, now)
            &&& no_continuation(ms)
        }),
{
    let b1 = dataspace_message(d.dims, d.maxdims, d.is_scalar, d.is_null);
    let b2 = encoded(d.dtype);
    let b3 = fill_message(d.fill);
    let (v1, m1) = shared(stores, MSG_DATASPACE, b1);
    let (v2, m2) = shared(v1, MSG_DATATYPE, b2);
    let (v3, m3) = shared(v2, MSG_FILL, b3);
    law_message_shared(stores, MSG_DATASPACE, b1);
    law_message_shared(v1, MSG_DATATYPE, b2);
    law_message_shared(v2, MSG_FILL, b3);
    lemma_stores_keep(stores, v1, v2);
    lemma_stores_keep(stores, v2, v3);
    lemma_stores_keep(v1, v2, v3);
    lemma_speaks_on(m1, v1, v3, MSG_DATASPACE, b1);
    lemma_speaks_on(m2, v2, v3, MSG_DATATYPE, b2);
    let ms = dataset_messages(stores, d, body).1;
    assert(ms[0] == m1 && ms[1] == m2 && ms[2] == m3);
    assert forall|i: int| 0 <= i < ms.len() implies message_known(#[trigger] ms[i], v3) by {}
    assert forall|i: int| 0 <= i < ms.len() implies (#[trigger] ms[i]).kind
        != crate::format::header::MSG_CONTINUATION by {}
}

/// What was known of places stays known when stores grow.
pub(crate) proof fn lemma_known_on(
    ps: Seq<PatchView>,
    before: Seq<StoreView>,
    now: Seq<StoreView>,
)
    requires
        patches_known(ps, before),
        stores_keep(now, before),
    ensures
        patches_known(ps, now),
{
    assert forall|i: int| 0 <= i < ps.len() implies (#[trigger] ps[i]).index < now.len()
        && ps[i].item < now[ps[i].index as int].objects.len() by {
        assert(now[ps[i].index as int].flags == before[ps[i].index as int].flags);
    }
}

/// An image with a block behind it goes on when an object without shared messages is
/// finished.
pub(crate) proof fn lemma_plain_grows(
    w: ImageOut,
    s: Seq<u8>,
    n: NodeView,
    ms: Seq<OutView>,
    w1: ImageOut,
    addr: u64,
)
    requires
        finished(ImageOut { buf: s, ..w }, n, ms) == Ok::<(ImageOut, u64), Seq<char>>((w1, addr)),
        extends(s, w.buf),
        sound(w),
        none_shared(ms),
    ensures
        grows(w1, w),
        sound(w1),
        w1.patches == w.patches,
{
    let mid = ImageOut { buf: s, ..w };
    assert forall|i: int| 0 <= i < ms.len() implies message_known(#[trigger] ms[i], w.stores) by {}
    lemma_finished_grows(mid, n, ms, w1, addr);
    lemma_same_stores(w.stores);
    assert(w.patches.take(w.patches.len() as int) =~= w.patches);
    lemma_grows(w, mid, w1);
}

/// Whether the file of an image holds all that was written: with the ids of shared
/// messages in place, and their bodies found by them.
pub open spec fn settled_in(
    img: ImageView,
    w: ImageOut,
    v: Seq<StoreView>,
    ids: Seq<Seq<Seq<u8>>>,
) -> bool {
    &&& keeps_but(img.data, img.base, w.buf, 96, w.patches, ids)
    &&& serves(img, v, ids)
    &&& stores_keep(v, w.stores)
}

pub(crate) proof fn lemma_settled_before(
    img: ImageView,
    w1: ImageOut,
    w: ImageOut,
    v: Seq<StoreView>,
    ids: Seq<Seq<Seq<u8>>>,
)
    requires
        settled_in(img, w1, v, ids),
        grows(w1, w),
    ensures
        settled_in(img, w, v, ids),
{
    lemma_keeps_before(img.data, img.base, w1, w, 96, ids);
    lemma_stores_keep(w.stores, w1.stores, v);
}

/// What an object without shared messages added stands in the file as it is.
pub(crate) proof fn lemma_settled_plain(
    img: ImageView,
    w1: ImageOut,
    w: ImageOut,
    v: Seq<StoreView>,
    ids: Seq<Seq<Seq<u8>>>,
)
    requires
        settled_in(img, w1, v, ids),
        sound(w),
        w.buf.len() >= 96,
        w1.patches == w.patches,
    ensures
        keeps(img.data, img.base, w1.buf, w.buf.len()),
{
    assert(keeps_but(img.data, img.base, w1.buf, w.buf.len(), w1.patches, ids));
    lemma_keeps_plain(img.data, img.base, w1.buf, w.buf.len(), w1.patches, ids);
}

} // verus!
