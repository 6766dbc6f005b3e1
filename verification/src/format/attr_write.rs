//! Writing of attributes: messages in object headers, or dense storage where one of them
//! is too large for a message.

use vstd::prelude::*;
use vstd::utf8::{encode_utf8, is_ascii_chars};

use crate::error::Error;
use crate::format::checksum::{checksum, lookup3};
use crate::format::convert::{has_vlen, payloads, VlenStore};
use crate::format::datatype::{encode, encoded};
use crate::format::dense::{
    heap_written, leaf_written, same_size, views_of, write_fractal_heap, write_v2btree_leaf,
};
use crate::format::encode::{dataspace_message, encode_dataspace};
use crate::format::fixup::{fixed_cells, fixup_vlen};
use crate::format::gheap::pad8;
use crate::format::grid::checked_count;
use crate::format::tree::{
    appended, collection_message, end_of, extends, lemma_appended, lemma_extends, write_gheap,
};
use crate::format::{le_bytes, lemma_le_bytes_len, push_le, zeroes, Buf};
use crate::model::{attr_views, elements, AttrData, AttrView};
use crate::types::{TypeDescriptor, TypeView};

verus! {

/// An image with the payloads of elements behind it, if they have any, and the elements
/// as they are stored.
pub open spec fn cells_written(
    s: Seq<u8>,
    t: TypeView,
    n: nat,
    data: Seq<u8>,
    store: Seq<Seq<u8>>,
) -> (Seq<u8>, Seq<u8>) {
    if t.has_vlen() && store.len() > 0 {
        (
            appended(s, collection_message(store)),
            fixed_cells(
                t,
                if n < data.len() {
                    n
                } else {
                    data.len()
                },
                data,
                end_of(s),
            ),
        )
    } else {
        (s, data)
    }
}

/// Whether elements have more payloads than a collection can number.
pub open spec fn overfull(t: TypeView, store: Seq<Seq<u8>>) -> bool {
    t.has_vlen() && store.len() > 0xffff
}

/// Tests [`overfull`].
pub(crate) fn is_overfull(t: &TypeDescriptor, store: &VlenStore) -> (r: bool)
    ensures
        r == overfull(t@, payloads(store@)),
{
    store.len() > 0xffff && has_vlen(t)
}

/// Writes the payloads of elements and returns the elements as they are stored.
pub(crate) fn write_cells(
    buf: &mut Vec<u8>,
    t: &TypeDescriptor,
    n: Option<u64>,
    data: &Vec<u8>,
    store: &VlenStore,
    Ghost(count): Ghost<nat>,
) -> (r: Vec<u8>)
    requires
        t@.sized(),
        match n {
            Some(x) => x == count,
            None => count >= data@.len(),
        },
    ensures
        (final(buf)@, r@) == cells_written(
            old(buf)@,
            t@,
            count,
            data@,
            payloads(store@),
        ),
        extends(final(buf)@, old(buf)@),
{
    let ghost s = buf@;
    assert(s.take(s.len() as int) =~= s);
    if has_vlen(t) && store.len() > 0 {
        let len: usize = data.len();
        let most: u64 = match n {
            Some(x) => if x < len as u64 {
                x
            } else {
                len as u64
            },
            None => len as u64,
        };
        let addr: u64 = write_gheap(buf, store);
        proof {
            lemma_appended(s, collection_message(payloads(store@)));
        }
        fixup_vlen(t, data.as_slice(), most, addr)
    } else {
        vstd::slice::slice_to_vec(data.as_slice())
    }
}

/// The extents of an attribute as limits.
pub open spec fn fixed_limits(dims: Seq<u64>) -> Seq<Option<u64>> {
    dims.map_values(|d: u64| Some(d))
}

/// The dataspace message of an attribute.
pub open spec fn attr_space(a: AttrView) -> Seq<u8> {
    dataspace_message(a.dims, fixed_limits(a.dims), a.is_scalar, a.is_null)
}

/// Bytes filled up to a multiple of 8.
pub open spec fn block8(s: Seq<u8>) -> Seq<u8> {
    s + zeroes(pad8(s.len() as int) as nat)
}

/// A name with its end mark.
pub open spec fn name_bytes(name: Seq<char>) -> Seq<u8> {
    encode_utf8(name) + seq![0u8]
}

/// The attribute message of version 1 with stored elements.
pub open spec fn attr_message(a: AttrView, data: Seq<u8>) -> Seq<u8> {
    seq![1u8, 0u8] + le_bytes(name_bytes(a.name).len(), 2) + le_bytes(encoded(a.dtype).len(), 2)
        + le_bytes(attr_space(a).len(), 2) + block8(name_bytes(a.name)) + block8(encoded(a.dtype))
        + block8(attr_space(a)) + data
}

/// The attribute message of version 3 with stored elements.
pub open spec fn dense_attr_message(a: AttrView, data: Seq<u8>) -> Seq<u8> {
    seq![3u8, 0u8] + le_bytes(name_bytes(a.name).len(), 2) + le_bytes(encoded(a.dtype).len(), 2)
        + le_bytes(attr_space(a).len(), 2) + seq![
        if is_ascii_chars(a.name) {
            0u8
        } else {
            1u8
        },
    ] + name_bytes(a.name) + encoded(a.dtype) + attr_space(a) + data
}

/// An image with the payloads of an attribute behind it, and its message.
pub open spec fn attr_encoded(s: Seq<u8>, a: AttrView, dense: bool) -> (Seq<u8>, Seq<u8>) {
    let (s1, data) = cells_written(
        s,
        a.dtype,
        elements(a.is_null, a.is_scalar, a.dims),
        a.data,
        a.vlen,
    );
    (
        s1,
        if dense {
            dense_attr_message(a, data)
        } else {
            attr_message(a, data)
        },
    )
}

/// The number of elements, if it fits into 64 bits.
pub(crate) fn whole_count(is_null: bool, is_scalar: bool, dims: &[u64]) -> (r: Option<u64>)
    ensures
        match r {
            Some(n) => n == elements(is_null, is_scalar, dims@),
            None => elements(is_null, is_scalar, dims@) > u64::MAX,
        },
{
    if is_null {
        Some(0)
    } else if is_scalar {
        Some(1)
    } else {
        checked_count(dims)
    }
}

fn limits(dims: &Vec<u64>) -> (r: Vec<Option<u64>>)
    ensures
        r@ == fixed_limits(dims@),
{
    let mut out: Vec<Option<u64>> = Vec::new();
    let mut i: usize = 0;
    while i < dims.len()
        invariant
            i <= dims@.len(),
            out@ == fixed_limits(dims@.take(i as int)),
        decreases dims@.len() - i,
    {
        out.push(Some(dims[i]));
        i += 1;
        assert(out@ =~= fixed_limits(dims@.take(i as int)));
    }
    assert(dims@.take(dims@.len() as int) =~= dims@);
    out
}

fn push_block(b: &mut Buf, bytes: &[u8])
    ensures
        final(b)@ == old(b)@ + block8(bytes@),
{
    let ghost before = b@;
    let rest: usize = bytes.len() % 8;
    b.raw(bytes);
    if rest > 0 {
        b.zeros(8 - rest);
    }
    assert(b@ =~= before + block8(bytes@));
}

fn name_of(name: &String) -> (r: Vec<u8>)
    ensures
        r@ == name_bytes(name@),
{
    let mut out: Vec<u8> = Vec::new();
    out.extend_from_slice(name.as_str().as_bytes());
    out.push(0);
    assert(out@ =~= name_bytes(name@));
    out
}

/// Writes the payloads of an attribute and returns its message, of version 3 if `dense`.
pub fn encode_attribute(buf: &mut Vec<u8>, a: &AttrData, dense: bool) -> (r: Vec<u8>)
    requires
        a.dtype@.sized(),
    ensures
        (final(buf)@, r@) == attr_encoded(old(buf)@, a@, dense),
        extends(final(buf)@, old(buf)@),
{
    let ghost n = elements(a.is_null, a.is_scalar, a.dims@);
    let count: Option<u64> = whole_count(a.is_null, a.is_scalar, a.dims.as_slice());
    let length: usize = a.data.len();
    let data: Vec<u8> = write_cells(buf, &a.dtype, count, &a.data, &a.vlen, Ghost(n));
    let name: Vec<u8> = name_of(&a.name);
    let dt: Vec<u8> = encode(&a.dtype);
    let most: Vec<Option<u64>> = limits(&a.dims);
    let ds: Vec<u8> = encode_dataspace(
        a.dims.as_slice(),
        most.as_slice(),
        a.is_scalar,
        a.is_null,
    );
    let mut b = Buf::new();
    b.u8(if dense {
        3
    } else {
        1
    });
    b.u8(0);
    push_le(&mut b.bytes, name.len() as u64, 2);
    push_le(&mut b.bytes, dt.len() as u64, 2);
    push_le(&mut b.bytes, ds.len() as u64, 2);
    if dense {
        b.u8(if a.name.as_str().is_ascii() {
            0
        } else {
            1
        });
        b.raw(name.as_slice());
        b.raw(dt.as_slice());
        b.raw(ds.as_slice());
        b.raw(data.as_slice());
        assert(b@ =~= dense_attr_message(a@, data@));
    } else {
        push_block(&mut b, name.as_slice());
        push_block(&mut b, dt.as_slice());
        push_block(&mut b, ds.as_slice());
        b.raw(data.as_slice());
        assert(b@ =~= attr_message(a@, data@));
    }
    b.bytes
}

/// An image with the payloads of attributes behind it, and their messages.
pub open spec fn attrs_encoded(s: Seq<u8>, attrs: Seq<AttrView>, dense: bool) -> (
    Seq<u8>,
    Seq<Seq<u8>>,
)
    decreases attrs.len(),
{
    if attrs.len() == 0 {
        (s, Seq::empty())
    } else {
        let (s1, ms) = attrs_encoded(s, attrs.drop_last(), dense);
        let (s2, m) = attr_encoded(s1, attrs.last(), dense);
        (s2, ms.push(m))
    }
}

/// Whether the types of attributes have sizes.
pub open spec fn attrs_sized(attrs: Seq<AttrView>) -> bool {
    forall|i: int| 0 <= i < attrs.len() ==> (#[trigger] attrs[i]).dtype.sized()
}

fn encode_attributes(buf: &mut Vec<u8>, attrs: &Vec<AttrData>, dense: bool) -> (r: Vec<Vec<u8>>)
    requires
        attrs_sized(attr_views(attrs@)),
    ensures
        (final(buf)@, views_of(r@)) == attrs_encoded(old(buf)@, attr_views(attrs@), dense),
        r@.len() == attrs@.len(),
        extends(final(buf)@, old(buf)@),
{
    let ghost s = buf@;
    let ghost views = attr_views(attrs@);
    let mut out: Vec<Vec<u8>> = Vec::new();
    let mut i: usize = 0;
    assert(views.take(0) =~= Seq::empty());
    assert(views_of(out@) =~= Seq::empty());
    assert(s.take(s.len() as int) =~= s);
    while i < attrs.len()
        invariant
            i <= attrs@.len(),
            views == attr_views(attrs@),
            attrs_sized(views),
            out@.len() == i,
            extends(buf@, s),
            (buf@, views_of(out@)) == attrs_encoded(s, views.take(i as int), dense),
        decreases attrs@.len() - i,
    {
        proof {
            assert(views[i as int] == attrs@[i as int]@);
            assert(views.take(i + 1).drop_last() =~= views.take(i as int));
            assert(views.take(i + 1).last() == attrs@[i as int]@);
        }
        let ghost was = buf@;
        let ghost before = views_of(out@);
        let m: Vec<u8> = encode_attribute(buf, &attrs[i], dense);
        let ghost bytes = m@;
        out.push(m);
        proof {
            lemma_extends(s, was, buf@);
            assert(views_of(out@) =~= before.push(bytes));
        }
        i += 1;
    }
    assert(views.take(views.len() as int) =~= views);
    out
}

// Records, which are kept in the order of their hashes.

/// The place of a record with a hash in a list: behind those with the same hash.
pub open spec fn hash_place(list: Seq<(u32, Seq<u8>)>, hash: u32) -> nat
    decreases list.len(),
{
    if list.len() == 0 || list.last().0 <= hash {
        list.len()
    } else {
        hash_place(list.drop_last(), hash)
    }
}

/// Records in the order of their hashes; those with the same hash keep their order.
pub open spec fn by_hash(list: Seq<(u32, Seq<u8>)>) -> Seq<(u32, Seq<u8>)>
    decreases list.len(),
{
    if list.len() == 0 {
        list
    } else {
        let before = by_hash(list.drop_last());
        before.insert(hash_place(before, list.last().0) as int, list.last())
    }
}

/// Records without their hashes.
pub open spec fn bare(list: Seq<(u32, Seq<u8>)>) -> Seq<Seq<u8>> {
    list.map_values(|p: (u32, Seq<u8>)| p.1)
}

proof fn lemma_hash_place(list: Seq<(u32, Seq<u8>)>, hash: u32)
    ensures
        hash_place(list, hash) <= list.len(),
    decreases list.len(),
{
    if list.len() > 0 {
        lemma_hash_place(list.drop_last(), hash);
    }
}

/// Records in the order of their hashes.
pub struct HashList {
    pub hashes: Vec<u32>,
    pub records: Vec<Vec<u8>>,
}

impl View for HashList {
    type V = Seq<(u32, Seq<u8>)>;

    open spec fn view(&self) -> Seq<(u32, Seq<u8>)> {
        Seq::new(self.records@.len(), |i: int| (self.hashes@[i], self.records@[i]@))
    }
}

impl HashList {
    pub open spec fn wf(&self) -> bool {
        self.hashes@.len() == self.records@.len()
    }

    pub fn new() -> (r: Self)
        ensures
            r.wf(),
            r@ == by_hash(Seq::empty()),
    {
        let r = HashList { hashes: Vec::new(), records: Vec::new() };
        assert(r@ =~= Seq::empty());
        r
    }

    /// Adds a record at its place.
    pub fn insert(&mut self, hash: u32, record: Vec<u8>)
        requires
            old(self).wf(),
        ensures
            final(self).wf(),
            final(self)@ == old(self)@.insert(
                hash_place(old(self)@, hash) as int,
                (hash, record@),
            ),
    {
        let ghost list = self@;
        let mut i: usize = self.hashes.len();
        assert(list.take(i as int) =~= list);
        while i > 0 && self.hashes[i - 1] > hash
            invariant
                self.wf(),
                i <= self.hashes@.len(),
                list == self@,
                *self == *old(self),
                hash_place(list, hash) == hash_place(list.take(i as int), hash),
            decreases i,
        {
            proof {
                assert(list.take(i as int).drop_last() =~= list.take(i - 1));
                assert(list.take(i as int).last() == list[i - 1]);
            }
            i -= 1;
        }
        proof {
            if i > 0 {
                assert(list.take(i as int).last() == list[i - 1]);
            }
            assert(hash_place(list, hash) == i);
        }
        let ghost bytes = record@;
        self.hashes.insert(i, hash);
        self.records.insert(i, record);
        assert(self@ =~= list.insert(i as int, (hash, bytes)));
    }
}

/// The records of dense attributes with their hashes: ids, flags, numbers and hashes of
/// the names.
pub open spec fn attr_records(names: Seq<Seq<char>>, ids: Seq<Seq<u8>>) -> Seq<(u32, Seq<u8>)> {
    Seq::new(
        names.len(),
        |i: int|
            {
                let hash = lookup3(encode_utf8(names[i]));
                (
                    hash,
                    ids[i] + seq![0u8] + le_bytes(i as nat, 4) + le_bytes(hash as nat, 4),
                )
            },
    )
}

/// The names of attributes.
pub open spec fn attr_names(attrs: Seq<AttrView>) -> Seq<Seq<char>> {
    attrs.map_values(|a: AttrView| a.name)
}

/// An image with attributes in dense storage behind it, and the addresses of the heap and
/// of the tree over their names.
pub open spec fn dense_attrs_written(s: Seq<u8>, attrs: Seq<AttrView>) -> Result<
    (Seq<u8>, u64, u64),
    Seq<char>,
> {
    let (s1, objects) = attrs_encoded(s, attrs, true);
    match heap_written(s1, objects, 8, 40) {
        Err(e) => Err(e),
        Ok((s2, heap, ids)) => {
            let (s3, tree) = leaf_written(
                s2,
                8,
                17,
                bare(by_hash(attr_records(attr_names(attrs), ids))),
            );
            Ok((s3, heap, tree))
        },
    }
}

/// Whether all records of a list have the same size.
pub open spec fn records_sized(list: Seq<(u32, Seq<u8>)>, size: nat) -> bool {
    forall|i: int| 0 <= i < list.len() ==> (#[trigger] list[i]).1.len() == size
}

pub proof fn lemma_by_hash_sized(list: Seq<(u32, Seq<u8>)>, size: nat)
    requires
        records_sized(list, size),
    ensures
        records_sized(by_hash(list), size),
        same_size(bare(by_hash(list)), size),
        by_hash(list).len() == list.len(),
    decreases list.len(),
{
    if list.len() > 0 {
        let before = by_hash(list.drop_last());
        assert(records_sized(list.drop_last(), size)) by {
            assert forall|i: int| 0 <= i < list.drop_last().len() implies (
            #[trigger] list.drop_last()[i]).1.len() == size by {
                assert(list[i] == list.drop_last()[i]);
            }
        }
        lemma_by_hash_sized(list.drop_last(), size);
        lemma_hash_place(before, list.last().0);
        let at = hash_place(before, list.last().0) as int;
        let out = by_hash(list);
        assert forall|i: int| 0 <= i < out.len() implies (#[trigger] out[i]).1.len() == size by {
            if i < at {
                assert(out[i] == before[i]);
            } else if i == at {
                assert(list.last() == list[list.len() - 1]);
            } else {
                assert(out[i] == before[i - 1]);
            }
        }
    }
    assert forall|i: int| 0 <= i < bare(by_hash(list)).len() implies (#[trigger] bare(
        by_hash(list),
    )[i]).len() == size by {
        assert(by_hash(list)[i].1.len() == size);
    }
}

/// Writes attributes in dense storage, and returns the addresses of the heap and of the
/// tree over their names.
pub fn write_dense_attributes(buf: &mut Vec<u8>, attrs: &Vec<AttrData>) -> (r: Result<
    (u64, u64),
    Error,
>)
    requires
        attrs_sized(attr_views(attrs@)),
    ensures
        match (r, dense_attrs_written(old(buf)@, attr_views(attrs@))) {
            (Ok(x), Ok(y)) => final(buf)@ == y.0 && x.0 == y.1 && x.1 == y.2 && extends(
                final(buf)@,
                old(buf)@,
            ),
            (Err(e), Err(y)) => e@ == y,
            _ => false,
        },
{
    let ghost s = buf@;
    let ghost views = attr_views(attrs@);
    let objects: Vec<Vec<u8>> = encode_attributes(buf, attrs, true);
    let ghost s1 = buf@;
    let (heap, ids) = write_fractal_heap(buf, &objects, 8, 40)?;
    let ghost s2 = buf@;
    let ghost id_views = views_of(ids@);
    let ghost want = attr_records(attr_names(views), id_views);
    let mut list = HashList::new();
    let mut i: usize = 0;
    assert(want.take(0) =~= Seq::empty());
    while i < attrs.len()
        invariant
            i <= attrs@.len() == ids@.len(),
            views == attr_views(attrs@),
            id_views == views_of(ids@),
            same_size(id_views, 8),
            want == attr_records(attr_names(views), id_views),
            list.wf(),
            list@ == by_hash(want.take(i as int)),
            records_sized(want.take(i as int), 17),
        decreases attrs@.len() - i,
    {
        let hash: u32 = checksum(attrs[i].name.as_str().as_bytes());
        let mut rec = Buf::new();
        rec.raw(ids[i].as_slice());
        rec.u8(0);
        push_le(&mut rec.bytes, i as u64, 4);
        rec.u32(hash);
        proof {
            assert(id_views[i as int] == ids@[i as int]@);
            assert(attr_names(views)[i as int] == attrs@[i as int].name@);
            lemma_le_bytes_len(i as nat, 4);
            lemma_le_bytes_len(hash as nat, 4);
            assert(rec@ =~= want[i as int].1);
            assert(want.take(i + 1).drop_last() =~= want.take(i as int));
            assert(want.take(i + 1).last() == (hash, rec@));
            let next = want.take(i + 1);
            assert forall|k: int| 0 <= k < next.len() implies (#[trigger] next[k]).1.len()
                == 17 by {
                if k < i {
                    assert(next[k] == want.take(i as int)[k]);
                }
            }
        }
        list.insert(hash, rec.bytes);
        i += 1;
    }
    proof {
        assert(want.take(want.len() as int) =~= want);
        lemma_by_hash_sized(want, 17);
        assert(views_of(list.records@) =~= bare(list@));
    }
    let tree: u64 = write_v2btree_leaf(buf, 8, 17, &list.records);
    proof {
        lemma_extends(s, s1, s2);
        lemma_extends(s, s2, buf@);
    }
    Ok((heap, tree))
}

/// Whether a message is too large for a header of version 1.
pub open spec fn too_large(ms: Seq<Seq<u8>>) -> bool {
    exists|i: int| 0 <= i < ms.len() && (#[trigger] ms[i]).len() > 65528
}

/// What is written for the attributes of an object.
#[verifier::ext_equal]
pub enum AttrsView {
    /// A message for each.
    Messages(Seq<Seq<u8>>),
    /// The addresses of the heap and of the tree of dense storage.
    Dense(u64, u64),
}

/// What is written for the attributes of an object.
pub enum AttrsOut {
    Messages(Vec<Vec<u8>>),
    Dense(u64, u64),
}

impl View for AttrsOut {
    type V = AttrsView;

    open spec fn view(&self) -> AttrsView {
        match *self {
            AttrsOut::Messages(ms) => AttrsView::Messages(views_of(ms@)),
            AttrsOut::Dense(a, b) => AttrsView::Dense(a, b),
        }
    }
}

/// Whether an attribute has more payloads than a collection can number.
pub open spec fn attrs_overfull(attrs: Seq<AttrView>) -> bool {
    exists|i: int| 0 <= i < attrs.len() && overfull((#[trigger] attrs[i]).dtype, attrs[i].vlen)
}

fn any_overfull(attrs: &Vec<AttrData>) -> (r: bool)
    ensures
        r == attrs_overfull(attr_views(attrs@)),
{
    let ghost views = attr_views(attrs@);
    let mut i: usize = 0;
    while i < attrs.len()
        invariant
            i <= attrs@.len(),
            views == attr_views(attrs@),
            forall|k: int|
                0 <= k < i ==> !overfull((#[trigger] views[k]).dtype, views[k].vlen),
        decreases attrs@.len() - i,
    {
        assert(views[i as int] == attrs@[i as int]@);
        if is_overfull(&attrs[i].dtype, &attrs[i].vlen) {
            assert(overfull(views[i as int].dtype, views[i as int].vlen));
            return true;
        }
        i += 1;
    }
    false
}

/// An image with attributes: a message for each, or dense storage where a message is
/// too large.
pub open spec fn attrs_written(s: Seq<u8>, attrs: Seq<AttrView>) -> Result<
    (Seq<u8>, AttrsView),
    Seq<char>,
> {
    let (s1, ms) = attrs_encoded(s, attrs, false);
    if attrs_overfull(attrs) {
        Err("too many variable-length payloads"@)
    } else if !too_large(ms) {
        Ok((s1, AttrsView::Messages(ms)))
    } else {
        match dense_attrs_written(s1, attrs) {
            Err(e) => Err(e),
            Ok((s2, heap, tree)) => Ok((s2, AttrsView::Dense(heap, tree))),
        }
    }
}

/// Writes the attributes of an object.
pub fn write_attributes(buf: &mut Vec<u8>, attrs: &Vec<AttrData>) -> (r: Result<AttrsOut, Error>)
    requires
        attrs_sized(attr_views(attrs@)),
    ensures
        match (r, attrs_written(old(buf)@, attr_views(attrs@))) {
            (Ok(x), Ok(y)) => final(buf)@ == y.0 && x@ == y.1 && extends(final(buf)@, old(buf)@),
            (Err(e), Err(y)) => e@ == y,
            _ => false,
        },
{
    let ghost s = buf@;
    if any_overfull(attrs) {
        return Err(Error::new("too many variable-length payloads"));
    }
    let ms: Vec<Vec<u8>> = encode_attributes(buf, attrs, false);
    let ghost s1 = buf@;
    let ghost views = views_of(ms@);
    let mut i: usize = 0;
    while i < ms.len()
        invariant
            i <= ms@.len(),
            views == views_of(ms@),
            s1 == buf@,
            extends(s1, s),
            (s1, views) == attrs_encoded(s, attr_views(attrs@), false),
            s == old(buf)@,
            attrs_sized(attr_views(attrs@)),
            !attrs_overfull(attr_views(attrs@)),
            forall|k: int| 0 <= k < i ==> (#[trigger] views[k]).len() <= 65528,
        decreases ms@.len() - i,
    {
        assert(views[i as int] == ms@[i as int]@);
        if ms[i].len() > 65528 {
            assert(too_large(views));
            let (heap, tree) = write_dense_attributes(buf, attrs)?;
            proof {
                lemma_extends(s, s1, buf@);
            }
            return Ok(AttrsOut::Dense(heap, tree));
        }
        i += 1;
    }
    Ok(AttrsOut::Messages(ms))
}

} // verus!
