//! Variable-length elements are read as they are written: with the same payloads, which
//! are numbered anew.

use vstd::prelude::*;

use crate::format::attr_write::cells_written;
use crate::format::convert::slot;
use crate::format::elements::loaded;
use crate::format::fixup::{fixed_cells, fixed_element, fixed_fields, fixed_slot};
use crate::format::gheap::{
    heap_object, reference_bytes, vlen_cells_loaded, vlen_fields_loaded, vlen_loaded,
};
use crate::format::heap_laws::{law_collection_read, lemma_beyond};
use crate::format::object_laws::{keeps, lemma_appended_stands, lemma_keeps};
use crate::format::stands::stands;
use crate::format::tree::{
    appended, collection_message, end_of, extends, lemma_appended, padded,
};
use crate::format::{
    law_le_round_trip, le_at, le_bytes, lemma_le_bound, lemma_le_bytes_len, lemma_pow256, patched,
    zeroes, UNDEF,
};
use crate::types::{FieldView, TypeView};

verus! {

/// The payload that a slot stands for; a slot without one stands for nothing.
pub open spec fn payload_of(elem: Seq<u8>, store: Seq<Seq<u8>>) -> Seq<u8> {
    let idx = le_at(elem, 4, 4) as int;
    if 1 <= idx <= store.len() {
        store[idx - 1]
    } else {
        Seq::empty()
    }
}

/// An element whose payloads are taken from `from` and put behind `to`, in the order of
/// its slots, and the payloads then. A slot without a payload and with no length is left
/// empty.
pub open spec fn gathered(t: TypeView, elem: Seq<u8>, from: Seq<Seq<u8>>, to: Seq<Seq<u8>>) -> (
    Seq<u8>,
    Seq<Seq<u8>>,
)
    decreases t, 0nat,
{
    if t is VarLenAscii || t is VarLenUnicode || t is VarLenArray {
        let len = le_at(elem, 0, 4);
        let bytes = payload_of(elem, from);
        if bytes.len() == 0 && len == 0 {
            (slot(0, 0), to)
        } else {
            (slot(len, to.len() + 1), to.push(bytes))
        }
    } else {
        match t {
            TypeView::Compound { fields, size } => gathered_fields(fields, 0, elem, from, to),
            TypeView::FixedArray(b, n) => gathered_cells(*b, n, elem, from, to),
            _ => (elem, to),
        }
    }
}

/// The same for the fields from `j` on of a compound, as far as they lie within it.
pub open spec fn gathered_fields(
    fields: Seq<FieldView>,
    j: int,
    elem: Seq<u8>,
    from: Seq<Seq<u8>>,
    to: Seq<Seq<u8>>,
) -> (Seq<u8>, Seq<Seq<u8>>)
    decreases fields, (fields.len() - j) as nat,
{
    if j < 0 || j >= fields.len() {
        (elem, to)
    } else {
        let start = fields[j].offset as int;
        let size = fields[j].ty.disk_size() as int;
        if start + size <= elem.len() {
            let (part, after) = gathered(
                fields[j].ty,
                elem.subrange(start, start + size),
                from,
                to,
            );
            gathered_fields(fields, j + 1, patched(elem, start, part), from, after)
        } else {
            gathered_fields(fields, j + 1, elem, from, to)
        }
    }
}

/// The same for `n` elements one behind the other.
pub open spec fn gathered_cells(
    b: TypeView,
    n: nat,
    elem: Seq<u8>,
    from: Seq<Seq<u8>>,
    to: Seq<Seq<u8>>,
) -> (Seq<u8>, Seq<Seq<u8>>)
    decreases b, n + 1,
{
    if n == 0 {
        (elem, to)
    } else {
        let size = b.disk_size() as int;
        let (cell, after) = gathered(b, elem.take(size), from, to);
        let (rest, last) = gathered_cells(b, (n - 1) as nat, elem.skip(size), from, after);
        (cell + rest, last)
    }
}

/// Whether the fields of a compound do not overlap, and neither do those of its
/// components.
pub open spec fn apart(t: TypeView) -> bool
    decreases t,
{
    match t {
        TypeView::Compound { fields, size } => {
            &&& fields_apart(fields)
            &&& forall|i: int, k: int|
                0 <= i < k < fields.len() ==> (#[trigger] fields[i]).offset
                    + fields[i].ty.disk_size() <= (#[trigger] fields[k]).offset || fields[k].offset
                    + fields[k].ty.disk_size() <= fields[i].offset
        },
        TypeView::FixedArray(b, n) => apart(*b),
        _ => true,
    }
}

pub open spec fn fields_apart(fields: Seq<FieldView>) -> bool
    decreases fields,
{
    fields.len() > 0 ==> fields_apart(fields.drop_last()) && apart(fields.last().ty)
}

pub proof fn lemma_fields_apart(fields: Seq<FieldView>, i: int)
    requires
        fields_apart(fields),
        0 <= i < fields.len(),
    ensures
        apart(fields[i].ty),
    decreases fields.len(),
{
    if i < fields.len() - 1 {
        lemma_fields_apart(fields.drop_last(), i);
        assert(fields.drop_last()[i] == fields[i]);
    }
}

/// Whether a collection with some payloads is read at an address; without payloads there
/// need be none.
pub open spec fn holds_payloads(
    data: Seq<u8>,
    base: u64,
    addr: u64,
    store: Seq<Seq<u8>>,
) -> bool {
    ||| addr == UNDEF && store.len() == 0
    ||| addr != 0 && addr != UNDEF && forall|idx: u64|
        idx > 0 ==> #[trigger] heap_object(data, base, addr, idx) == Ok::<Seq<u8>, Seq<char>>(
            if idx <= store.len() {
                store[idx - 1]
            } else {
                Seq::empty()
            },
        )
}

/// A reference is read.
proof fn lemma_slot_read(data: Seq<u8>, base: u64, addr: u64, elem: Seq<u8>, store: Seq<Seq<u8>>)
    requires
        holds_payloads(data, base, addr, store),
        elem.len() == 16,
    ensures
        fixed_slot(elem, addr).len() == 16,
        le_at(fixed_slot(elem, addr), 0, 4) == le_at(elem, 0, 4),
        reference_bytes(data, base, fixed_slot(elem, addr)) == Ok::<Seq<u8>, Seq<char>>(
            payload_of(elem, store),
        ),
{
    let len = le_at(elem, 0, 4);
    let idx = le_at(elem, 4, 4);
    let f = fixed_slot(elem, addr);
    lemma_pow256();
    lemma_le_bound(elem.subrange(0, 4));
    lemma_le_bound(elem.subrange(4, 8));
    lemma_le_bytes_len(len, 4);
    lemma_le_bytes_len(addr as nat, 8);
    lemma_le_bytes_len(idx, 4);
    law_le_round_trip(len, 4);
    law_le_round_trip(addr as nat, 8);
    law_le_round_trip(idx, 4);
    assert(f.subrange(0, 4) =~= le_bytes(len, 4));
    if idx == 0 {
        crate::format::fixup::lemma_zero_bytes(8);
        law_le_round_trip(0, 8);
        assert(f.subrange(4, 12) =~= zeroes(8));
    } else {
        assert(f.subrange(4, 12) =~= le_bytes(addr as nat, 8));
        assert(f.subrange(12, 16) =~= le_bytes(idx, 4));
        if addr != UNDEF {
            assert(heap_object(data, base, addr, idx as u64) is Ok);
        }
    }
}

/// An element with references is loaded with its payloads.
proof fn lemma_element_read(
    data: Seq<u8>,
    base: u64,
    addr: u64,
    t: TypeView,
    elem: Seq<u8>,
    from: Seq<Seq<u8>>,
    to: Seq<Seq<u8>>,
)
    requires
        holds_payloads(data, base, addr, from),
        apart(t),
        elem.len() == t.disk_size(),
    ensures
        fixed_element(t, elem, addr).len() == elem.len(),
        gathered(t, elem, from, to).0.len() == elem.len(),
        vlen_loaded(data, base, t, fixed_element(t, elem, addr), to) == Ok::<
            (Seq<u8>, Seq<Seq<u8>>),
            Seq<char>,
        >(gathered(t, elem, from, to)),
    decreases t, 0nat,
{
    if t is VarLenAscii || t is VarLenUnicode || t is VarLenArray {
        lemma_slot_read(data, base, addr, elem, from);
        let len = le_at(elem, 0, 4);
        lemma_le_bytes_len(len, 4);
        lemma_le_bytes_len(0, 4);
        lemma_le_bytes_len(to.len() + 1, 4);
    } else {
        match t {
            TypeView::Compound { fields, size } => {
                lemma_fixed_fields(data, base, addr, fields, 0, elem, from);
                lemma_fields_read(
                    data,
                    base,
                    addr,
                    fields,
                    0,
                    fixed_fields(fields, 0, elem, addr),
                    elem,
                    from,
                    to,
                );
            },
            TypeView::FixedArray(b, n) => {
                lemma_cells_read(data, base, addr, *b, n, elem, from, to);
            },
            _ => {},
        }
    }
}

/// Whether a position is not in a field from `j` on that lies within `total` bytes.
spec fn outside(fields: Seq<FieldView>, j: int, total: int, p: int) -> bool {
    forall|k: int|
        j <= k < fields.len() && (#[trigger] fields[k]).offset + fields[k].ty.disk_size() <= total
            ==> p < fields[k].offset || fields[k].offset + fields[k].ty.disk_size() <= p
}

/// Whether the fields from `j` on of one element hold references where those of the
/// other hold slots, and the elements agree otherwise.
spec fn fixed_from(fields: Seq<FieldView>, j: int, cur: Seq<u8>, elem: Seq<u8>, addr: u64) -> bool {
    &&& cur.len() == elem.len()
    &&& forall|p: int|
        0 <= p < elem.len() && outside(fields, j, elem.len() as int, p) ==> #[trigger] cur[p]
            == elem[p]
    &&& forall|k: int|
        j <= k < fields.len() && (#[trigger] fields[k]).offset + fields[k].ty.disk_size()
            <= elem.len() ==> cur.subrange(
            fields[k].offset as int,
            (fields[k].offset + fields[k].ty.disk_size()) as int,
        ) == fixed_element(
            fields[k].ty,
            elem.subrange(
                fields[k].offset as int,
                (fields[k].offset + fields[k].ty.disk_size()) as int,
            ),
            addr,
        )
}

/// Whether no field lies on another one.
spec fn disjoint(fields: Seq<FieldView>) -> bool {
    forall|i: int, k: int|
        0 <= i < k < fields.len() ==> (#[trigger] fields[i]).offset + fields[i].ty.disk_size()
            <= (#[trigger] fields[k]).offset || fields[k].offset + fields[k].ty.disk_size()
            <= fields[i].offset
}

/// Slots that are replaced field by field.
proof fn lemma_fixed_fields(
    data: Seq<u8>,
    base: u64,
    addr: u64,
    fields: Seq<FieldView>,
    j: int,
    elem: Seq<u8>,
    from: Seq<Seq<u8>>,
)
    requires
        holds_payloads(data, base, addr, from),
        fields_apart(fields),
        disjoint(fields),
        0 <= j <= fields.len(),
    ensures
        fixed_from(fields, j, fixed_fields(fields, j, elem, addr), elem, addr),
    decreases fields, (fields.len() - j) as nat,
{
    let total = elem.len() as int;
    let res = fixed_fields(fields, j, elem, addr);
    if j < fields.len() {
        let start = fields[j].offset as int;
        let size = fields[j].ty.disk_size() as int;
        if start + size <= total {
            let old_part = elem.subrange(start, start + size);
            let part = fixed_element(fields[j].ty, old_part, addr);
            lemma_fields_apart(fields, j);
            lemma_element_read(data, base, addr, fields[j].ty, old_part, from, Seq::empty());
            let cur = patched(elem, start, part);
            lemma_fixed_fields(data, base, addr, fields, j + 1, cur, from);
            assert forall|p: int|
                0 <= p < total && outside(fields, j, total, p) implies #[trigger] res[p]
                == elem[p] by {
                assert(outside(fields, j + 1, total, p));
                assert(p < fields[j].offset || fields[j].offset + fields[j].ty.disk_size() <= p);
                assert(res[p] == cur[p]);
            }
            assert forall|k: int|
                j <= k < fields.len() && (#[trigger] fields[k]).offset + fields[k].ty.disk_size()
                    <= total implies res.subrange(
                fields[k].offset as int,
                (fields[k].offset + fields[k].ty.disk_size()) as int,
            ) == fixed_element(
                fields[k].ty,
                elem.subrange(
                    fields[k].offset as int,
                    (fields[k].offset + fields[k].ty.disk_size()) as int,
                ),
                addr,
            ) by {
                if k == j {
                    assert forall|p: int| start <= p < start + size implies #[trigger] res[p]
                        == part[p - start] by {
                        assert(outside(fields, j + 1, total, p));
                        assert(res[p] == cur[p]);
                    }
                    assert(res.subrange(start, start + size) =~= part);
                } else {
                    let (a, b) = (
                        fields[k].offset as int,
                        (fields[k].offset + fields[k].ty.disk_size()) as int,
                    );
                    assert(cur.subrange(a, b) =~= elem.subrange(a, b));
                }
            }
        } else {
            lemma_fixed_fields(data, base, addr, fields, j + 1, elem, from);
            assert forall|p: int|
                0 <= p < total && outside(fields, j, total, p) implies #[trigger] res[p]
                == elem[p] by {
                assert(outside(fields, j + 1, total, p));
            }
        }
    }
}

/// The fields of a compound are loaded one by one.
proof fn lemma_fields_read(
    data: Seq<u8>,
    base: u64,
    addr: u64,
    fields: Seq<FieldView>,
    j: int,
    cur: Seq<u8>,
    elem: Seq<u8>,
    from: Seq<Seq<u8>>,
    to: Seq<Seq<u8>>,
)
    requires
        holds_payloads(data, base, addr, from),
        fields_apart(fields),
        disjoint(fields),
        0 <= j <= fields.len(),
        fixed_from(fields, j, cur, elem, addr),
    ensures
        gathered_fields(fields, j, elem, from, to).0.len() == elem.len(),
        vlen_fields_loaded(data, base, fields, j, cur, to) == Ok::<
            (Seq<u8>, Seq<Seq<u8>>),
            Seq<char>,
        >(gathered_fields(fields, j, elem, from, to)),
    decreases fields, (fields.len() - j) as nat,
{
    let total = elem.len() as int;
    if j == fields.len() {
        assert forall|p: int| 0 <= p < total implies cur[p] == elem[p] by {
            assert(outside(fields, j, total, p));
        }
        assert(cur =~= elem);
    } else {
        let start = fields[j].offset as int;
        let size = fields[j].ty.disk_size() as int;
        if start + size <= total {
            let old_part = elem.subrange(start, start + size);
            lemma_fields_apart(fields, j);
            lemma_element_read(data, base, addr, fields[j].ty, old_part, from, to);
            let (part, after) = gathered(fields[j].ty, old_part, from, to);
            let cur2 = patched(cur, start, part);
            let elem2 = patched(elem, start, part);
            assert forall|p: int|
                0 <= p < total && outside(fields, j + 1, total, p) implies #[trigger] cur2[p]
                == elem2[p] by {
                if p < start || start + size <= p {
                    assert(outside(fields, j, total, p));
                    assert(cur[p] == elem[p]);
                }
            }
            assert forall|k: int|
                j + 1 <= k < fields.len() && (#[trigger] fields[k]).offset
                    + fields[k].ty.disk_size() <= total implies cur2.subrange(
                fields[k].offset as int,
                (fields[k].offset + fields[k].ty.disk_size()) as int,
            ) == fixed_element(
                fields[k].ty,
                elem2.subrange(
                    fields[k].offset as int,
                    (fields[k].offset + fields[k].ty.disk_size()) as int,
                ),
                addr,
            ) by {
                let (a, b) = (
                    fields[k].offset as int,
                    (fields[k].offset + fields[k].ty.disk_size()) as int,
                );
                assert(cur2.subrange(a, b) =~= cur.subrange(a, b));
                assert(elem2.subrange(a, b) =~= elem.subrange(a, b));
            }
            lemma_fields_read(data, base, addr, fields, j + 1, cur2, elem2, from, after);
        } else {
            assert forall|p: int|
                0 <= p < total && outside(fields, j + 1, total, p) implies #[trigger] cur[p]
                == elem[p] by {
                assert(outside(fields, j, total, p));
            }
            lemma_fields_read(data, base, addr, fields, j + 1, cur, elem, from, to);
        }
    }
}

/// Elements one behind the other are loaded one by one.
proof fn lemma_cells_read(
    data: Seq<u8>,
    base: u64,
    addr: u64,
    b: TypeView,
    n: nat,
    elem: Seq<u8>,
    from: Seq<Seq<u8>>,
    to: Seq<Seq<u8>>,
)
    requires
        holds_payloads(data, base, addr, from),
        apart(b),
        elem.len() == b.disk_size() * n,
    ensures
        fixed_cells(b, n, elem, addr).len() == elem.len(),
        gathered_cells(b, n, elem, from, to).0.len() == elem.len(),
        vlen_cells_loaded(data, base, b, n, fixed_cells(b, n, elem, addr), to) == Ok::<
            (Seq<u8>, Seq<Seq<u8>>),
            Seq<char>,
        >(gathered_cells(b, n, elem, from, to)),
    decreases b, n + 1,
{
    if n > 0 {
        let size = b.disk_size();
        assert(size * n == size * (n - 1) + size && size * (n - 1) >= 0) by (nonlinear_arith)
            requires
                n > 0,
        ;
        let first = elem.take(size as int);
        let rest = elem.skip(size as int);
        lemma_element_read(data, base, addr, b, first, from, to);
        let (cell, after) = gathered(b, first, from, to);
        lemma_cells_read(data, base, addr, b, (n - 1) as nat, rest, from, after);
        let head = fixed_element(b, first, addr);
        let tail = fixed_cells(b, (n - 1) as nat, rest, addr);
        assert((head + tail).take(size as int) =~= head);
        assert((head + tail).skip(size as int) =~= tail);
    }
}

/// Whether the slots of elements without payloads refer to nothing.
pub open spec fn slots_plain(t: TypeView, n: nat, data: Seq<u8>, store: Seq<Seq<u8>>) -> bool {
    store.len() == 0 ==> fixed_cells(t, n, data, UNDEF) == data
}

/// Variable-length elements that were written are loaded, from any file that holds the
/// image, with the payloads that they had.
pub proof fn law_vlen_read(
    data: Seq<u8>,
    base: u64,
    s: Seq<u8>,
    t: TypeView,
    n: nat,
    cells: Seq<u8>,
    store: Seq<Seq<u8>>,
    from: nat,
)
    requires
        keeps(data, base, cells_written(s, t, n, cells, store).0, from),
        cells_written(s, t, n, cells, store).0.len() < u64::MAX,
        data.len() <= u64::MAX,
        0 < from <= s.len(),
        t.has_vlen(),
        t.disk_size() > 0,
        apart(t),
        store.len() <= 0xffff,
        cells.len() == t.disk_size() * n,
        slots_plain(t, n, cells, store),
    ensures
        cells_written(s, t, n, cells, store).1.len() == cells.len(),
        loaded(data, base, t, n, cells_written(s, t, n, cells, store).1) == Ok::<
            (Seq<u8>, Seq<Seq<u8>>),
            Seq<char>,
        >(gathered_cells(t, n, cells, store, Seq::empty())),
{
    let none = Seq::<Seq<u8>>::empty();
    if store.len() == 0 {
        lemma_cells_read(data, base, UNDEF, t, n, cells, store, none);
    } else {
        let m = collection_message(store);
        let addr = end_of(s);
        lemma_appended(s, m);
        lemma_appended_stands(s, m);
        lemma_keeps(data, base, appended(s, m), from, padded(s).len() as int, m);
        assert(holds_payloads(data, base, addr, store)) by {
            assert forall|idx: u64| idx > 0 implies #[trigger] heap_object(data, base, addr, idx)
                == Ok::<Seq<u8>, Seq<char>>(
                if idx <= store.len() {
                    store[idx - 1]
                } else {
                    Seq::empty()
                },
            ) by {
                if idx <= store.len() {
                    law_collection_read(data, base, addr, store, idx - 1);
                } else {
                    lemma_beyond(data, base, addr, store, idx);
                }
            }
        }
        assert(n <= cells.len()) by (nonlinear_arith)
            requires
                cells.len() == t.disk_size() * n,
                t.disk_size() > 0,
        ;
        lemma_cells_read(data, base, addr, t, n, cells, store, none);
    }
    if cells.len() == 0 {
        assert(n == 0) by (nonlinear_arith)
            requires
                0 == t.disk_size() * n,
                t.disk_size() > 0,
        ;
    }
}

/// Whether the payloads of elements can be told from what is written of them. A
/// collection numbers its items in two bytes.
pub open spec fn vlen_told(t: TypeView, n: nat, data: Seq<u8>, store: Seq<Seq<u8>>) -> bool {
    if t.has_vlen() {
        &&& apart(t)
        &&& t.disk_size() > 0
        &&& store.len() <= 0xffff
        &&& slots_plain(t, n, data, store)
    } else {
        store.len() == 0
    }
}

/// What elements with payloads are read back as: the payloads are numbered anew.
pub open spec fn cells_back(t: TypeView, n: nat, data: Seq<u8>, store: Seq<Seq<u8>>) -> (
    Seq<u8>,
    Seq<Seq<u8>>,
) {
    if t.has_vlen() && data.len() > 0 {
        gathered_cells(t, n, data, store, Seq::empty())
    } else {
        (data, Seq::empty())
    }
}

/// Elements that were written leave the image before them as it is.
pub proof fn lemma_cells_extend(
    s: Seq<u8>,
    t: TypeView,
    n: nat,
    cells: Seq<u8>,
    store: Seq<Seq<u8>>,
)
    ensures
        extends(cells_written(s, t, n, cells, store).0, s),
{
    assert(s.take(s.len() as int) =~= s);
    lemma_appended(s, collection_message(store));
}

/// Elements that were written are loaded as they were, from any file that holds the
/// image.
pub proof fn law_cells_read(
    data: Seq<u8>,
    base: u64,
    s: Seq<u8>,
    t: TypeView,
    n: nat,
    cells: Seq<u8>,
    store: Seq<Seq<u8>>,
    from: nat,
)
    requires
        keeps(data, base, cells_written(s, t, n, cells, store).0, from),
        cells_written(s, t, n, cells, store).0.len() < u64::MAX,
        data.len() <= u64::MAX,
        0 < from <= s.len(),
        cells.len() == n * t.disk_size(),
        vlen_told(t, n, cells, store),
    ensures
        cells_written(s, t, n, cells, store).1.len() == cells.len(),
        loaded(data, base, t, n, cells_written(s, t, n, cells, store).1) == Ok::<
            (Seq<u8>, Seq<Seq<u8>>),
            Seq<char>,
        >(cells_back(t, n, cells, store)),
        cells_back(t, n, cells, store).0.len() == cells.len(),
{
    assert(n * t.disk_size() == t.disk_size() * n) by (nonlinear_arith);
    if t.has_vlen() {
        law_vlen_read(data, base, s, t, n, cells, store, from);
        lemma_cells_len(t, n, cells, store, Seq::empty());
        if cells.len() == 0 {
            assert(n == 0) by (nonlinear_arith)
                requires
                    0 == t.disk_size() * n,
                    t.disk_size() > 0,
            ;
        }
    }
}

/// Gathering payloads keeps the length of an element.
pub proof fn lemma_one_len(t: TypeView, elem: Seq<u8>, from: Seq<Seq<u8>>, to: Seq<Seq<u8>>)
    requires
        elem.len() == t.disk_size(),
    ensures
        gathered(t, elem, from, to).0.len() == elem.len(),
    decreases t, 0nat,
{
    if t is VarLenAscii || t is VarLenUnicode || t is VarLenArray {
        lemma_le_bytes_len(le_at(elem, 0, 4), 4);
        lemma_le_bytes_len(0, 4);
        lemma_le_bytes_len(to.len() + 1, 4);
    } else {
        match t {
            TypeView::Compound { fields, size } => {
                lemma_fields_len(fields, 0, elem, from, to);
            },
            TypeView::FixedArray(b, n) => {
                lemma_cells_len(*b, n, elem, from, to);
            },
            _ => {},
        }
    }
}

proof fn lemma_fields_len(
    fields: Seq<FieldView>,
    j: int,
    elem: Seq<u8>,
    from: Seq<Seq<u8>>,
    to: Seq<Seq<u8>>,
)
    ensures
        gathered_fields(fields, j, elem, from, to).0.len() == elem.len(),
    decreases fields, (fields.len() - j) as nat,
{
    if 0 <= j < fields.len() {
        let start = fields[j].offset as int;
        let size = fields[j].ty.disk_size() as int;
        if start + size <= elem.len() {
            let old_part = elem.subrange(start, start + size);
            lemma_one_len(fields[j].ty, old_part, from, to);
            let (part, after) = gathered(fields[j].ty, old_part, from, to);
            lemma_fields_len(fields, j + 1, patched(elem, start, part), from, after);
        } else {
            lemma_fields_len(fields, j + 1, elem, from, to);
        }
    }
}

proof fn lemma_cells_len(
    b: TypeView,
    n: nat,
    elem: Seq<u8>,
    from: Seq<Seq<u8>>,
    to: Seq<Seq<u8>>,
)
    requires
        elem.len() == b.disk_size() * n,
    ensures
        gathered_cells(b, n, elem, from, to).0.len() == elem.len(),
    decreases b, n + 1,
{
    if n > 0 {
        let size = b.disk_size();
        assert(size * n == size * (n - 1) + size && size * (n - 1) >= 0) by (nonlinear_arith)
            requires
                n > 0,
        ;
        let first = elem.take(size as int);
        lemma_one_len(b, first, from, to);
        let (cell, after) = gathered(b, first, from, to);
        lemma_cells_len(b, (n - 1) as nat, elem.skip(size as int), from, after);
    }
}

/// Elements without payloads are loaded, whatever the file holds.
pub proof fn lemma_blank_read(data: Seq<u8>, base: u64, t: TypeView, n: nat, cells: Seq<u8>)
    requires
        cells.len() == n * t.disk_size(),
        vlen_told(t, n, cells, Seq::empty()),
    ensures
        loaded(data, base, t, n, cells) is Ok,
{
    let none = Seq::<Seq<u8>>::empty();
    assert(n * t.disk_size() == t.disk_size() * n) by (nonlinear_arith);
    if t.has_vlen() {
        lemma_cells_read(data, base, UNDEF, t, n, cells, none, none);
    }
}

} // verus!
