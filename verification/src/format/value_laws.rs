//! Converting elements keeps their values.

use vstd::prelude::*;

use crate::format::convert::{
    array_converted, converted, elements_converted, field_named, fields_converted, fitted,
    is_vlen_text, law_slot_parts, law_text_from_file, law_text_from_memory, list_converted, list_in,
    list_out, overlaid, payload, slot, text_in, text_out, Direction, SinkView,
};
use crate::format::{
    law_le_round_trip, le_at, le_bytes, lemma_le_bytes_len, lemma_pow256, patched, zeroes,
};
use crate::types::{FieldView, TypeView};

verus! {

/// What an element says, wherever its parts stand: its bytes, a text, or the values of its
/// fields or elements.
pub enum ValueView {
    Bytes(Seq<u8>),
    Text(Seq<u8>),
    List(Seq<ValueView>),
}

/// The direction in which an element that was converted is converted back.
pub open spec fn back(dir: Direction) -> Direction {
    match dir {
        Direction::ToMemory => Direction::ToFile,
        Direction::ToFile => Direction::ToMemory,
    }
}

/// The value of an element that is converted in a direction.
pub open spec fn value_in(
    dir: Direction,
    t: TypeView,
    s: Seq<u8>,
    store: Seq<Seq<u8>>,
) -> ValueView
    decreases t, 0nat, 0nat,
{
    match t {
        TypeView::Compound { fields, size } => ValueView::List(
            field_values(dir, fields, fields.len(), s, store),
        ),
        TypeView::FixedArray(base, n) => ValueView::List(cell_values(dir, *base, s, n, store)),
        TypeView::VarLenArray(base) => {
            let (n, bytes) = list_in(dir, s, store);
            ValueView::List(cell_values(dir, *base, bytes, n, store))
        },
        TypeView::VarLenAscii => ValueView::Text(text_in(dir, s, store)),
        TypeView::VarLenUnicode => ValueView::Text(text_in(dir, s, store)),
        _ => ValueView::Bytes(s),
    }
}

/// The values of `n` elements one behind the other.
pub open spec fn cell_values(
    dir: Direction,
    t: TypeView,
    bytes: Seq<u8>,
    n: nat,
    store: Seq<Seq<u8>>,
) -> Seq<ValueView>
    decreases t, 1nat, n,
{
    let w = dir.source_size(t) as int;
    if n == 0 {
        Seq::empty()
    } else {
        seq![value_in(dir, t, bytes.take(w), store)] + cell_values(
            dir,
            t,
            bytes.skip(w),
            (n - 1) as nat,
            store,
        )
    }
}

/// The bytes of a field in an element that is converted in a direction.
pub open spec fn field_bytes(dir: Direction, f: FieldView, s: Seq<u8>) -> Seq<u8> {
    s.subrange(f.offset as int, (f.offset + dir.source_size(f.ty)) as int)
}

/// The values of the first `k` fields.
pub open spec fn field_values(
    dir: Direction,
    fields: Seq<FieldView>,
    k: nat,
    s: Seq<u8>,
    store: Seq<Seq<u8>>,
) -> Seq<ValueView>
    decreases fields, 1nat, k,
{
    if k == 0 || k > fields.len() {
        Seq::empty()
    } else {
        field_values(dir, fields, (k - 1) as nat, s, store).push(
            value_in(dir, fields[k - 1].ty, field_bytes(dir, fields[k - 1], s), store),
        )
    }
}

/// Whether a value is within the range of the slots of a file, and its texts are within
/// that of texts in memory, which end before a zero byte.
pub open spec fn fits(v: ValueView) -> bool
    decreases v,
{
    match v {
        ValueView::Bytes(_) => true,
        ValueView::Text(b) => b.len() < 0x1_0000_0000 && forall|i: int|
            0 <= i < b.len() ==> #[trigger] b[i] != 0,
        ValueView::List(vs) => vs.len() < 0x1_0000_0000 && all_fit(vs, vs.len()),
    }
}

/// Whether the first `k` values fit.
pub open spec fn all_fit(vs: Seq<ValueView>, k: nat) -> bool
    decreases vs, k,
{
    k == 0 || k > vs.len() || (all_fit(vs, (k - 1) as nat) && fits(vs[k - 1]))
}

proof fn lemma_fits(vs: Seq<ValueView>, k: nat, i: int)
    requires
        all_fit(vs, k),
        0 <= i < k <= vs.len(),
    ensures
        fits(vs[i]),
    decreases k,
{
    if i < k - 1 {
        lemma_fits(vs, (k - 1) as nat, i);
    }
}

proof fn lemma_all_fit(vs: Seq<ValueView>, k: nat)
    requires
        k <= vs.len(),
        forall|i: int| 0 <= i < k ==> fits(#[trigger] vs[i]),
    ensures
        all_fit(vs, k),
    decreases k,
{
    if k > 0 {
        lemma_all_fit(vs, (k - 1) as nat);
    }
}

/// The room that a field takes, in memory and in a file.
pub open spec fn room(t: TypeView) -> nat {
    if t.size() < t.disk_size() {
        t.disk_size()
    } else {
        t.size()
    }
}

/// Whether fields have names of their own and stand apart from each other, within their
/// compound, in memory as in a file.
pub open spec fn apart(t: TypeView) -> bool
    decreases t, 0nat,
{
    match t {
        TypeView::Compound { fields, size } => {
            &&& fields_apart(fields, fields.len())
            &&& forall|i: int|
                0 <= i < fields.len() ==> (#[trigger] fields[i]).offset + room(fields[i].ty) <= size
            &&& forall|i: int, j: int|
                0 <= i < j < fields.len() ==> (#[trigger] fields[i]).name != (
                #[trigger] fields[j]).name && (fields[i].offset + room(fields[i].ty)
                    <= fields[j].offset || fields[j].offset + room(fields[j].ty)
                    <= fields[i].offset)
        },
        TypeView::FixedArray(base, n) => apart(*base),
        TypeView::VarLenArray(base) => apart(*base),
        _ => true,
    }
}

/// Whether the types of the first `k` fields have fields that stand apart.
pub open spec fn fields_apart(fields: Seq<FieldView>, k: nat) -> bool
    decreases fields, k,
{
    k == 0 || k > fields.len() || (fields_apart(fields, (k - 1) as nat) && apart(fields[k - 1].ty))
}

proof fn lemma_apart(fields: Seq<FieldView>, k: nat, i: int)
    requires
        fields_apart(fields, k),
        0 <= i < k <= fields.len(),
    ensures
        apart(fields[i].ty),
    decreases k,
{
    if i < k - 1 {
        lemma_apart(fields, (k - 1) as nat, i);
    }
}

// Blocks.

/// The number of the block that a slot refers to.
pub open spec fn block_id(dir: Direction, text: bool, s: Seq<u8>) -> nat {
    match dir {
        Direction::ToMemory => le_at(s, 4, 4),
        Direction::ToFile => if text {
            le_at(s, 0, 8)
        } else {
            le_at(s, 8, 8)
        },
    }
}

/// Whether a number is none, or that of a block behind the first `lo` ones.
pub open spec fn among(id: nat, lo: nat, hi: nat) -> bool {
    id == 0 || lo < id <= hi
}

/// Whether a block holds `n` elements, and as many have room in memory and in a file.
pub open spec fn holds(dir: Direction, t: TypeView, bytes: Seq<u8>, n: nat) -> bool {
    &&& dir.source_size(t) * n <= bytes.len()
    &&& dir.source_size(t) * n <= usize::MAX
    &&& dir.target_size(t) * n <= usize::MAX
}

/// Whether all blocks that an element leads to are behind the first `lo` ones, and hold
/// as many elements as they should.
pub open spec fn reaches(
    dir: Direction,
    t: TypeView,
    s: Seq<u8>,
    store: Seq<Seq<u8>>,
    lo: nat,
    hi: nat,
) -> bool
    decreases t, 0nat, 0nat,
{
    match t {
        TypeView::Compound { fields, size } => fields_reach(
            dir,
            fields,
            fields.len(),
            s,
            store,
            lo,
            hi,
        ),
        TypeView::FixedArray(base, n) => cells_reach(dir, *base, s, n, store, lo, hi),
        TypeView::VarLenArray(base) => {
            let (n, bytes) = list_in(dir, s, store);
            among(block_id(dir, false, s), lo, hi) && holds(dir, *base, bytes, n) && cells_reach(
                dir,
                *base,
                bytes,
                n,
                store,
                lo,
                hi,
            )
        },
        TypeView::VarLenAscii => among(block_id(dir, true, s), lo, hi),
        TypeView::VarLenUnicode => among(block_id(dir, true, s), lo, hi),
        _ => true,
    }
}

/// The same for `n` elements.
pub open spec fn cells_reach(
    dir: Direction,
    t: TypeView,
    bytes: Seq<u8>,
    n: nat,
    store: Seq<Seq<u8>>,
    lo: nat,
    hi: nat,
) -> bool
    decreases t, 1nat, n,
{
    let w = dir.source_size(t) as int;
    n == 0 || (reaches(dir, t, bytes.take(w), store, lo, hi) && cells_reach(
        dir,
        t,
        bytes.skip(w),
        (n - 1) as nat,
        store,
        lo,
        hi,
    ))
}

/// The same for the first `k` fields.
pub open spec fn fields_reach(
    dir: Direction,
    fields: Seq<FieldView>,
    k: nat,
    s: Seq<u8>,
    store: Seq<Seq<u8>>,
    lo: nat,
    hi: nat,
) -> bool
    decreases fields, 1nat, k,
{
    k == 0 || k > fields.len() || (fields_reach(dir, fields, (k - 1) as nat, s, store, lo, hi)
        && reaches(
        dir,
        fields[k - 1].ty,
        field_bytes(dir, fields[k - 1], s),
        store,
        lo,
        hi,
    ))
}

/// Whether two lists of blocks agree behind the first `lo` ones, up to `hi`.
pub open spec fn agree(a: Seq<Seq<u8>>, b: Seq<Seq<u8>>, lo: nat, hi: nat) -> bool {
    &&& hi <= a.len()
    &&& hi <= b.len()
    &&& forall|i: int| lo <= i < hi ==> #[trigger] a[i] == b[i]
}

proof fn lemma_payload(a: Seq<Seq<u8>>, b: Seq<Seq<u8>>, id: nat, lo: nat, hi: nat)
    requires
        agree(a, b, lo, hi),
        among(id, lo, hi),
    ensures
        payload(a, id) == payload(b, id),
{
    if id > 0 {
        assert(a[id - 1] == b[id - 1]);
    }
}

/// An element keeps its value where the blocks that it leads to stay.
proof fn lemma_stable(
    dir: Direction,
    t: TypeView,
    s: Seq<u8>,
    a: Seq<Seq<u8>>,
    b: Seq<Seq<u8>>,
    lo: nat,
    hi: nat,
    lo2: nat,
    hi2: nat,
)
    requires
        reaches(dir, t, s, a, lo, hi),
        agree(a, b, lo, hi),
        lo2 <= lo,
        hi <= hi2,
    ensures
        value_in(dir, t, s, b) == value_in(dir, t, s, a),
        reaches(dir, t, s, b, lo2, hi2),
    decreases t, 0nat, 0nat,
{
    match t {
        TypeView::Compound { fields, size } => {
            lemma_fields_stable(dir, fields, fields.len(), s, a, b, lo, hi, lo2, hi2);
        },
        TypeView::FixedArray(base, n) => {
            lemma_cells_stable(dir, *base, s, n, a, b, lo, hi, lo2, hi2);
        },
        TypeView::VarLenArray(base) => {
            let (n, bytes) = list_in(dir, s, a);
            lemma_payload(a, b, block_id(dir, false, s), lo, hi);
            lemma_cells_stable(dir, *base, bytes, n, a, b, lo, hi, lo2, hi2);
        },
        TypeView::VarLenAscii => {
            lemma_payload(a, b, block_id(dir, true, s), lo, hi);
        },
        TypeView::VarLenUnicode => {
            lemma_payload(a, b, block_id(dir, true, s), lo, hi);
        },
        _ => {},
    }
}

proof fn lemma_cells_stable(
    dir: Direction,
    t: TypeView,
    bytes: Seq<u8>,
    n: nat,
    a: Seq<Seq<u8>>,
    b: Seq<Seq<u8>>,
    lo: nat,
    hi: nat,
    lo2: nat,
    hi2: nat,
)
    requires
        cells_reach(dir, t, bytes, n, a, lo, hi),
        agree(a, b, lo, hi),
        lo2 <= lo,
        hi <= hi2,
    ensures
        cell_values(dir, t, bytes, n, b) == cell_values(dir, t, bytes, n, a),
        cells_reach(dir, t, bytes, n, b, lo2, hi2),
    decreases t, 1nat, n,
{
    if n > 0 {
        let w = dir.source_size(t) as int;
        lemma_stable(dir, t, bytes.take(w), a, b, lo, hi, lo2, hi2);
        lemma_cells_stable(dir, t, bytes.skip(w), (n - 1) as nat, a, b, lo, hi, lo2, hi2);
    }
}

proof fn lemma_fields_stable(
    dir: Direction,
    fields: Seq<FieldView>,
    k: nat,
    s: Seq<u8>,
    a: Seq<Seq<u8>>,
    b: Seq<Seq<u8>>,
    lo: nat,
    hi: nat,
    lo2: nat,
    hi2: nat,
)
    requires
        fields_reach(dir, fields, k, s, a, lo, hi),
        agree(a, b, lo, hi),
        lo2 <= lo,
        hi <= hi2,
    ensures
        field_values(dir, fields, k, s, b) == field_values(dir, fields, k, s, a),
        fields_reach(dir, fields, k, s, b, lo2, hi2),
    decreases fields, 1nat, k,
{
    if 0 < k <= fields.len() {
        lemma_fields_stable(dir, fields, (k - 1) as nat, s, a, b, lo, hi, lo2, hi2);
        let f = fields[k - 1];
        lemma_stable(dir, f.ty, field_bytes(dir, f, s), a, b, lo, hi, lo2, hi2);
    }
}

proof fn lemma_field_value(
    dir: Direction,
    fields: Seq<FieldView>,
    k: nat,
    s: Seq<u8>,
    store: Seq<Seq<u8>>,
)
    requires
        k <= fields.len(),
    ensures
        field_values(dir, fields, k, s, store).len() == k,
        forall|i: int|
            0 <= i < k ==> #[trigger] field_values(dir, fields, k, s, store)[i] == value_in(
                dir,
                fields[i].ty,
                field_bytes(dir, fields[i], s),
                store,
            ),
    decreases k,
{
    if k > 0 {
        lemma_field_value(dir, fields, (k - 1) as nat, s, store);
    }
}

proof fn lemma_fields_all_reach(
    dir: Direction,
    fields: Seq<FieldView>,
    k: nat,
    s: Seq<u8>,
    store: Seq<Seq<u8>>,
    lo: nat,
    hi: nat,
)
    requires
        k <= fields.len(),
        forall|i: int|
            0 <= i < fields.len() ==> reaches(
                dir,
                (#[trigger] fields[i]).ty,
                field_bytes(dir, fields[i], s),
                store,
                lo,
                hi,
            ),
    ensures
        fields_reach(dir, fields, k, s, store, lo, hi),
    decreases k,
{
    if k > 0 {
        lemma_fields_all_reach(dir, fields, (k - 1) as nat, s, store, lo, hi);
    }
}

// Conversion.

/// Whether blocks have lengths within the range of memory.
pub open spec fn in_memory(store: Seq<Seq<u8>>) -> bool {
    forall|i: int| 0 <= i < store.len() ==> (#[trigger] store[i]).len() <= usize::MAX
}

/// Whether an element was converted to one of the same value, in blocks of its own.
pub open spec fn carried(
    dir: Direction,
    t: TypeView,
    s: Seq<u8>,
    store: Seq<Seq<u8>>,
    st: SinkView,
    e: Seq<u8>,
    after: SinkView,
) -> bool {
    &&& goes_on(st, after)
    &&& in_memory(after.blocks)
    &&& reaches(back(dir), t, e, after.blocks, st.blocks.len(), after.blocks.len())
    &&& value_in(back(dir), t, e, after.blocks) == value_in(dir, t, s, store)
}

/// Whether a sink holds what it held.
pub open spec fn goes_on(st: SinkView, after: SinkView) -> bool {
    &&& st.blocks.len() <= after.blocks.len()
    &&& after.blocks.take(st.blocks.len() as int) == st.blocks
}

proof fn lemma_goes_on(a: SinkView, b: SinkView, c: SinkView)
    requires
        goes_on(a, b),
        goes_on(b, c),
    ensures
        goes_on(a, c),
        agree(b.blocks, c.blocks, a.blocks.len(), b.blocks.len()),
{
    assert(c.blocks.take(a.blocks.len() as int) =~= c.blocks.take(b.blocks.len() as int).take(
        a.blocks.len() as int,
    ));
    assert forall|i: int| a.blocks.len() <= i < b.blocks.len() implies #[trigger] b.blocks[i]
        == c.blocks[i] by {
        assert(c.blocks.take(b.blocks.len() as int)[i] == b.blocks[i]);
    }
}

/// A sink loses no blocks.
proof fn lemma_more(
    dir: Direction,
    t: TypeView,
    s: Seq<u8>,
    d: Seq<u8>,
    store: Seq<Seq<u8>>,
    st: SinkView,
    block: nat,
    offset: nat,
)
    requires
        apart(t),
    ensures
        converted(dir, t, t, s, d, store, st, block, offset) matches Ok(x) ==> x.1.blocks.len()
            >= st.blocks.len(),
    decreases t, 0nat, 0nat,
{
    match t {
        TypeView::Compound { fields, size } => {
            lemma_fields_more(dir, fields, size, 0, s, d, store, st, block, offset);
        },
        TypeView::FixedArray(base, n) => {
            let none = Seq::<u8>::empty();
            lemma_array_more(dir, *base, s, d, n, none, store, st, block, offset);
        },
        TypeView::VarLenArray(base) => {
            let (n, bytes) = list_in(dir, s, store);
            let more = SinkView { blocks: st.blocks.push(Seq::empty()), floats: st.floats };
            let none = Seq::<u8>::empty();
            lemma_list_more(dir, *base, bytes, n, none, store, more, st.blocks.len() + 1);
        },
        _ => {},
    }
}

proof fn lemma_list_more(
    dir: Direction,
    t: TypeView,
    bytes: Seq<u8>,
    left: nat,
    acc: Seq<u8>,
    store: Seq<Seq<u8>>,
    st: SinkView,
    block: nat,
)
    requires
        apart(t),
    ensures
        list_converted(dir, t, t, bytes, left, acc, store, st, block) matches Ok(x)
            ==> x.1.blocks.len() >= st.blocks.len(),
    decreases t, 1nat, left,
{
    if left > 0 {
        let w = dir.source_size(t) as int;
        let d = zeroes(dir.target_size(t));
        lemma_more(dir, t, bytes.take(w), d, store, st, block, acc.len());
        if let Ok((e, mid)) = converted(dir, t, t, bytes.take(w), d, store, st, block, acc.len()) {
            lemma_list_more(
                dir,
                t,
                bytes.skip(w),
                (left - 1) as nat,
                acc + e,
                store,
                mid,
                block,
            );
        }
    }
}

proof fn lemma_array_more(
    dir: Direction,
    t: TypeView,
    s: Seq<u8>,
    d: Seq<u8>,
    left: nat,
    acc: Seq<u8>,
    store: Seq<Seq<u8>>,
    st: SinkView,
    block: nat,
    offset: nat,
)
    requires
        apart(t),
    ensures
        array_converted(dir, t, t, s, d, left, acc, store, st, block, offset) matches Ok(x)
            ==> x.1.blocks.len() >= st.blocks.len(),
    decreases t, 1nat, left,
{
    if left > 0 {
        let w = dir.source_size(t) as int;
        let cell = dir.target_size(t) as int;
        let at = offset + acc.len();
        lemma_more(dir, t, s.take(w), d.take(cell), store, st, block, at);
        if let Ok((e, mid)) = converted(
            dir,
            t,
            t,
            s.take(w),
            d.take(cell),
            store,
            st,
            block,
            at,
        ) {
            lemma_array_more(
                dir,
                t,
                s.skip(w),
                d.skip(cell),
                (left - 1) as nat,
                acc + e,
                store,
                mid,
                block,
                offset,
            );
        }
    }
}

proof fn lemma_fields_more(
    dir: Direction,
    fields: Seq<FieldView>,
    size: nat,
    j: int,
    s: Seq<u8>,
    d: Seq<u8>,
    store: Seq<Seq<u8>>,
    st: SinkView,
    block: nat,
    offset: nat,
)
    requires
        apart(TypeView::Compound { fields, size }),
        0 <= j <= fields.len(),
    ensures
        fields_converted(dir, fields, fields, j, s, d, store, st, block, offset) matches Ok(x)
            ==> x.1.blocks.len() >= st.blocks.len(),
    decreases fields, 1nat, (fields.len() - j) as nat,
{
    if j < fields.len() {
        let f = fields[j];
        assert(forall|i: int| 0 <= i < j ==> (#[trigger] fields[i]).name != fields[j].name);
        lemma_own_name(fields, j, 0);
        lemma_apart(fields, fields.len(), j);
        let w = dir.source_size(f.ty) as int;
        let cell = dir.target_size(f.ty) as int;
        let to = f.offset as int;
        let at = (offset + to) as nat;
        let a = s.subrange(to, to + w);
        let b = d.subrange(to, to + cell);
        lemma_more(dir, f.ty, a, b, store, st, block, at);
        if let Ok((e, mid)) = converted(dir, f.ty, f.ty, a, b, store, st, block, at) {
            let d1 = patched(d, to, e);
            lemma_fields_more(dir, fields, size, j + 1, s, d1, store, mid, block, offset);
        }
    }
}

proof fn lemma_slot_len(len: nat, idx: nat)
    ensures
        slot(len, idx).len() == 16,
{
    lemma_le_bytes_len(len, 4);
    lemma_le_bytes_len(idx, 4);
}

/// An element of a type without components keeps its bytes, a text its characters.
proof fn lemma_scalar(
    dir: Direction,
    t: TypeView,
    s: Seq<u8>,
    d: Seq<u8>,
    store: Seq<Seq<u8>>,
    st: SinkView,
    block: nat,
    offset: nat,
    e: Seq<u8>,
    after: SinkView,
)
    requires
        !(t is Compound) && !(t is FixedArray) && !(t is VarLenArray),
        converted(dir, t, t, s, d, store, st, block, offset) == Ok::<(Seq<u8>, SinkView), Seq<char>>(
            (e, after),
        ),
        s.len() == dir.source_size(t),
        d.len() == dir.target_size(t),
        after.blocks.len() < 0xffff_ffff,
        in_memory(store),
        in_memory(st.blocks),
        fits(value_in(dir, t, s, store)),
    ensures
        e.len() == dir.target_size(t),
        carried(dir, t, s, store, st, e, after),
{
    assert(st.blocks.take(st.blocks.len() as int) =~= st.blocks);
    if is_vlen_text(t) {
        let text = text_in(dir, s, store);
        let id = st.blocks.len() + 1;
        assert((e, after) == text_out(dir, text, st));
        assert(value_in(dir, t, s, store) == ValueView::Text(text));
        assert(st.blocks.push(text).take(st.blocks.len() as int) =~= st.blocks);
        match dir {
            Direction::ToFile => {
                law_slot_parts(text.len(), id);
                law_slot_parts(0, 0);
                lemma_slot_len(text.len(), id);
                lemma_slot_len(0, 0);
                law_text_from_file(text, st);
            },
            Direction::ToMemory => {
                lemma_pow256();
                lemma_le_bytes_len(id, 8);
                law_le_round_trip(id, 8);
                assert(e.subrange(0, 8) =~= e);
                law_text_from_memory(text, st);
            },
        }
    } else {
        assert(overlaid(s, d) =~= s);
        assert(fitted(s, d.len()) =~= s);
    }
}

/// An element that is converted to its own type keeps its value.
pub proof fn law_value_kept(
    dir: Direction,
    t: TypeView,
    s: Seq<u8>,
    d: Seq<u8>,
    store: Seq<Seq<u8>>,
    st: SinkView,
    block: nat,
    offset: nat,
    e: Seq<u8>,
    after: SinkView,
)
    requires
        converted(dir, t, t, s, d, store, st, block, offset) == Ok::<(Seq<u8>, SinkView), Seq<char>>(
            (e, after),
        ),
        apart(t),
        s.len() == dir.source_size(t),
        d.len() == dir.target_size(t),
        after.blocks.len() < 0xffff_ffff,
        in_memory(store),
        in_memory(st.blocks),
        fits(value_in(dir, t, s, store)),
    ensures
        e.len() == dir.target_size(t),
        carried(dir, t, s, store, st, e, after),
    decreases t, 0nat, 0nat,
{
    match t {
        TypeView::Compound { fields, size } => {
            assert(dir.target_size(t) == size && dir.source_size(t) == size);
            lemma_fields_kept(dir, fields, size, 0, s, d, store, st, block, offset, e, after);
            lemma_field_value(dir, fields, fields.len(), s, store);
            lemma_field_value(back(dir), fields, fields.len(), e, after.blocks);
            assert(field_values(back(dir), fields, fields.len(), e, after.blocks)
                =~= field_values(dir, fields, fields.len(), s, store));
            lemma_fields_all_reach(
                back(dir),
                fields,
                fields.len(),
                e,
                after.blocks,
                st.blocks.len(),
                after.blocks.len(),
            );
        },
        TypeView::FixedArray(base, n) => {
            let none = Seq::<u8>::empty();
            lemma_cells_len(dir, *base, s, n, store);
            lemma_array_kept(dir, *base, s, d, n, none, store, st, block, offset, e, after);
            assert(e.skip(0) =~= e);
        },
        TypeView::VarLenArray(base) => {
            let (n, bytes) = list_in(dir, s, store);
            lemma_cells_len(dir, *base, bytes, n, store);
            if dir == Direction::ToFile && n == 0 {
                law_slot_parts(0, 0);
                lemma_slot_len(0, 0);
                assert(base.size() * 0 == 0 && base.disk_size() * 0 == 0) by (nonlinear_arith);
                assert(st.blocks.take(st.blocks.len() as int) =~= st.blocks);
            } else {
                let id = st.blocks.len() + 1;
                let more = SinkView {
                    blocks: st.blocks.push(Seq::empty()),
                    floats: st.floats,
                };
                let none = Seq::<u8>::empty();
                let (buf, mid) = list_converted(
                    dir,
                    *base,
                    *base,
                    bytes,
                    n,
                    none,
                    store,
                    more,
                    id,
                )->Ok_0;
                lemma_list_more(dir, *base, bytes, n, none, store, more, id);
                assert(after.blocks == mid.blocks.update(id - 1, buf));
                lemma_list_kept(dir, *base, bytes, n, none, store, more, id, buf, mid);
                assert(buf.skip(0) =~= buf);
                assert(bytes.len() <= usize::MAX);
                if n == 0 {
                    assert(dir.source_size(*base) * 0 == 0) by (nonlinear_arith);
                }
                lemma_list_placed(dir, *base, n, st, more, id, buf, mid, e, after);
            }
        },
        _ => {
            lemma_scalar(dir, t, s, d, store, st, block, offset, e, after);
        },
    }
}

/// A sequence is found in the block that it was put in.
proof fn lemma_list_placed(
    dir: Direction,
    base: TypeView,
    n: nat,
    st: SinkView,
    more: SinkView,
    id: nat,
    buf: Seq<u8>,
    mid: SinkView,
    e: Seq<u8>,
    after: SinkView,
)
    requires
        id == st.blocks.len() + 1,
        more.blocks == st.blocks.push(Seq::empty()),
        goes_on(more, mid),
        e == list_out(dir, n, id),
        after.blocks == mid.blocks.update(id - 1, buf),
        after.blocks.len() < 0xffff_ffff,
        n < 0x1_0000_0000,
        buf.len() == dir.target_size(base) * n,
        buf.len() <= usize::MAX,
        dir.source_size(base) * n <= usize::MAX,
        in_memory(mid.blocks),
        cells_reach(back(dir), base, buf, n, mid.blocks, more.blocks.len(), mid.blocks.len()),
    ensures
        e.len() == 16,
        goes_on(st, after),
        in_memory(after.blocks),
        holds(back(dir), base, buf, n),
        list_in(back(dir), e, after.blocks) == (n, buf),
        among(block_id(back(dir), false, e), st.blocks.len(), after.blocks.len()),
        cells_reach(
            back(dir),
            base,
            buf,
            n,
            after.blocks,
            st.blocks.len(),
            after.blocks.len(),
        ),
        cell_values(back(dir), base, buf, n, after.blocks) == cell_values(
            back(dir),
            base,
            buf,
            n,
            mid.blocks,
        ),
{
    let a = mid.blocks;
    let b = after.blocks;
    lemma_pow256();
    lemma_le_bytes_len(n, 8);
    lemma_le_bytes_len(id, 8);
    law_le_round_trip(n, 8);
    law_le_round_trip(id, 8);
    law_slot_parts(n, id);
    lemma_slot_len(n, id);
    match dir {
        Direction::ToMemory => {
            assert(e.subrange(0, 8) =~= le_bytes(n, 8));
            assert(e.subrange(8, 16) =~= le_bytes(id, 8));
        },
        Direction::ToFile => {},
    }
    assert(b.take(st.blocks.len() as int) =~= st.blocks) by {
        assert forall|i: int| 0 <= i < st.blocks.len() implies b[i] == st.blocks[i] by {
            assert(a.take(more.blocks.len() as int)[i] == more.blocks[i]);
        }
    }
    lemma_cells_stable(
        back(dir),
        base,
        buf,
        n,
        a,
        b,
        more.blocks.len(),
        a.len(),
        st.blocks.len(),
        b.len(),
    );
}

proof fn lemma_cells_len(
    dir: Direction,
    t: TypeView,
    bytes: Seq<u8>,
    n: nat,
    store: Seq<Seq<u8>>,
)
    ensures
        cell_values(dir, t, bytes, n, store).len() == n,
    decreases n,
{
    if n > 0 {
        lemma_cells_len(dir, t, bytes.skip(dir.source_size(t) as int), (n - 1) as nat, store);
    }
}

/// The first of some elements, and the others, fit.
proof fn lemma_first_fits(
    dir: Direction,
    t: TypeView,
    bytes: Seq<u8>,
    n: nat,
    store: Seq<Seq<u8>>,
)
    requires
        n > 0,
        all_fit(cell_values(dir, t, bytes, n, store), n),
    ensures
        ({
            let w = dir.source_size(t) as int;
            &&& fits(value_in(dir, t, bytes.take(w), store))
            &&& all_fit(
                cell_values(dir, t, bytes.skip(w), (n - 1) as nat, store),
                (n - 1) as nat,
            )
        }),
{
    let w = dir.source_size(t) as int;
    let vs = cell_values(dir, t, bytes, n, store);
    let rest = cell_values(dir, t, bytes.skip(w), (n - 1) as nat, store);
    lemma_cells_len(dir, t, bytes, n, store);
    lemma_cells_len(dir, t, bytes.skip(w), (n - 1) as nat, store);
    lemma_fits(vs, n, 0);
    assert forall|i: int| 0 <= i < n - 1 implies fits(#[trigger] rest[i]) by {
        lemma_fits(vs, n, i + 1);
        assert(vs[i + 1] == rest[i]);
    }
    lemma_all_fit(rest, (n - 1) as nat);
}

/// The first of some elements that were converted, and the others, in one list.
proof fn lemma_cells_joined(
    dir: Direction,
    t: TypeView,
    bytes: Seq<u8>,
    n: nat,
    store: Seq<Seq<u8>>,
    st: SinkView,
    e: Seq<u8>,
    mid: SinkView,
    part: Seq<u8>,
    after: SinkView,
)
    requires
        n > 0,
        e.len() == dir.target_size(t),
        part.len() >= e.len(),
        part.take(e.len() as int) == e,
        carried(dir, t, bytes.take(dir.source_size(t) as int), store, st, e, mid),
        goes_on(mid, after),
        cells_reach(
            back(dir),
            t,
            part.skip(e.len() as int),
            (n - 1) as nat,
            after.blocks,
            mid.blocks.len(),
            after.blocks.len(),
        ),
        cell_values(back(dir), t, part.skip(e.len() as int), (n - 1) as nat, after.blocks)
            == cell_values(
            dir,
            t,
            bytes.skip(dir.source_size(t) as int),
            (n - 1) as nat,
            store,
        ),
    ensures
        goes_on(st, after),
        cells_reach(back(dir), t, part, n, after.blocks, st.blocks.len(), after.blocks.len()),
        cell_values(back(dir), t, part, n, after.blocks) == cell_values(dir, t, bytes, n, store),
{
    assert(back(dir).source_size(t) == dir.target_size(t));
    lemma_goes_on(st, mid, after);
    lemma_stable(
        back(dir),
        t,
        e,
        mid.blocks,
        after.blocks,
        st.blocks.len(),
        mid.blocks.len(),
        st.blocks.len(),
        after.blocks.len(),
    );
    lemma_cells_stable(
        back(dir),
        t,
        part.skip(e.len() as int),
        (n - 1) as nat,
        after.blocks,
        after.blocks,
        mid.blocks.len(),
        after.blocks.len(),
        st.blocks.len(),
        after.blocks.len(),
    );
}

/// The elements of a sequence keep their values.
proof fn lemma_list_kept(
    dir: Direction,
    t: TypeView,
    bytes: Seq<u8>,
    left: nat,
    acc: Seq<u8>,
    store: Seq<Seq<u8>>,
    st: SinkView,
    block: nat,
    buf: Seq<u8>,
    after: SinkView,
)
    requires
        list_converted(dir, t, t, bytes, left, acc, store, st, block) == Ok::<
            (Seq<u8>, SinkView),
            Seq<char>,
        >((buf, after)),
        apart(t),
        after.blocks.len() < 0xffff_ffff,
        in_memory(store),
        in_memory(st.blocks),
        all_fit(cell_values(dir, t, bytes, left, store), left),
    ensures
        buf.len() == acc.len() + dir.target_size(t) * left,
        acc.len() <= usize::MAX ==> buf.len() <= usize::MAX,
        dir.source_size(t) * left <= bytes.len() || left == 0,
        in_memory(after.blocks),
        buf.take(acc.len() as int) == acc,
        goes_on(st, after),
        cells_reach(
            back(dir),
            t,
            buf.skip(acc.len() as int),
            left,
            after.blocks,
            st.blocks.len(),
            after.blocks.len(),
        ),
        cell_values(back(dir), t, buf.skip(acc.len() as int), left, after.blocks) == cell_values(
            dir,
            t,
            bytes,
            left,
            store,
        ),
    decreases t, 1nat, left,
{
    let w = dir.source_size(t) as int;
    let cell = dir.target_size(t);
    if left == 0 {
        assert(cell * 0 == 0) by (nonlinear_arith);
        assert(st.blocks.take(st.blocks.len() as int) =~= st.blocks);
        assert(acc.take(acc.len() as int) =~= acc);
    } else {
        assert(w * left == w + w * (left - 1)) by (nonlinear_arith);
        assert(cell * left == cell + cell * (left - 1)) by (nonlinear_arith);
        assert(0 <= cell * (left - 1)) by (nonlinear_arith)
            requires
                cell >= 0,
                left >= 1,
        ;
        assert(left == 1 ==> w * (left - 1) == 0) by (nonlinear_arith);
        let (e, mid) = converted(
            dir,
            t,
            t,
            bytes.take(w),
            zeroes(cell),
            store,
            st,
            block,
            acc.len(),
        )->Ok_0;
        lemma_first_fits(dir, t, bytes, left, store);
        lemma_list_more(
            dir,
            t,
            bytes.skip(w),
            (left - 1) as nat,
            acc + e,
            store,
            mid,
            block,
        );
        law_value_kept(dir, t, bytes.take(w), zeroes(cell), store, st, block, acc.len(), e, mid);
        lemma_list_kept(
            dir,
            t,
            bytes.skip(w),
            (left - 1) as nat,
            acc + e,
            store,
            mid,
            block,
            buf,
            after,
        );
        let part = buf.skip(acc.len() as int);
        assert(buf.take((acc + e).len() as int) == acc + e);
        assert(part.take(e.len() as int) =~= (acc + e).skip(acc.len() as int));
        assert((acc + e).skip(acc.len() as int) =~= e);
        assert(buf.take(acc.len() as int) =~= (acc + e).take(acc.len() as int));
        assert((acc + e).take(acc.len() as int) =~= acc);
        assert(part.skip(e.len() as int) =~= buf.skip((acc + e).len() as int));
        lemma_cells_joined(dir, t, bytes, left, store, st, e, mid, part, after);
    }
}

/// The elements of an array keep their values.
proof fn lemma_array_kept(
    dir: Direction,
    t: TypeView,
    s: Seq<u8>,
    d: Seq<u8>,
    left: nat,
    acc: Seq<u8>,
    store: Seq<Seq<u8>>,
    st: SinkView,
    block: nat,
    offset: nat,
    buf: Seq<u8>,
    after: SinkView,
)
    requires
        array_converted(dir, t, t, s, d, left, acc, store, st, block, offset) == Ok::<
            (Seq<u8>, SinkView),
            Seq<char>,
        >((buf, after)),
        apart(t),
        s.len() == dir.source_size(t) * left,
        d.len() == dir.target_size(t) * left,
        after.blocks.len() < 0xffff_ffff,
        in_memory(store),
        in_memory(st.blocks),
        all_fit(cell_values(dir, t, s, left, store), left),
    ensures
        in_memory(after.blocks),
        buf.len() == acc.len() + dir.target_size(t) * left,
        buf.take(acc.len() as int) == acc,
        goes_on(st, after),
        cells_reach(
            back(dir),
            t,
            buf.skip(acc.len() as int),
            left,
            after.blocks,
            st.blocks.len(),
            after.blocks.len(),
        ),
        cell_values(back(dir), t, buf.skip(acc.len() as int), left, after.blocks) == cell_values(
            dir,
            t,
            s,
            left,
            store,
        ),
    decreases t, 1nat, left,
{
    let w = dir.source_size(t) as int;
    let cell = dir.target_size(t) as int;
    if left == 0 {
        assert(cell * 0 == 0) by (nonlinear_arith);
        assert(st.blocks.take(st.blocks.len() as int) =~= st.blocks);
        assert(acc.take(acc.len() as int) =~= acc);
    } else {
        assert(w * left == w + w * (left - 1)) by (nonlinear_arith);
        assert(cell * left == cell + cell * (left - 1)) by (nonlinear_arith);
        assert(0 <= w * (left - 1) && 0 <= cell * (left - 1)) by (nonlinear_arith)
            requires
                w >= 0,
                cell >= 0,
                left >= 1,
        ;
        let (e, mid) = converted(
            dir,
            t,
            t,
            s.take(w),
            d.take(cell),
            store,
            st,
            block,
            offset + acc.len(),
        )->Ok_0;
        lemma_first_fits(dir, t, s, left, store);
        lemma_array_more(
            dir,
            t,
            s.skip(w),
            d.skip(cell),
            (left - 1) as nat,
            acc + e,
            store,
            mid,
            block,
            offset,
        );
        law_value_kept(
            dir,
            t,
            s.take(w),
            d.take(cell),
            store,
            st,
            block,
            offset + acc.len(),
            e,
            mid,
        );
        lemma_array_kept(
            dir,
            t,
            s.skip(w),
            d.skip(cell),
            (left - 1) as nat,
            acc + e,
            store,
            mid,
            block,
            offset,
            buf,
            after,
        );
        let part = buf.skip(acc.len() as int);
        assert(buf.take((acc + e).len() as int) == acc + e);
        assert(part.take(e.len() as int) =~= (acc + e).skip(acc.len() as int));
        assert((acc + e).skip(acc.len() as int) =~= e);
        assert(buf.take(acc.len() as int) =~= (acc + e).take(acc.len() as int));
        assert((acc + e).take(acc.len() as int) =~= acc);
        assert(part.skip(e.len() as int) =~= buf.skip((acc + e).len() as int));
        lemma_cells_joined(dir, t, s, left, store, st, e, mid, part, after);
    }
}

proof fn lemma_own_name(fields: Seq<FieldView>, j: int, from: int)
    requires
        0 <= from <= j < fields.len(),
        forall|i: int| from <= i < j ==> (#[trigger] fields[i]).name != fields[j].name,
    ensures
        field_named(fields, fields[j].name, from) == Some(j),
    decreases j - from,
{
    if from < j {
        lemma_own_name(fields, j, from + 1);
    }
}

/// The fields of a compound keep their values.
#[verifier::rlimit(60)]
#[verifier::spinoff_prover]
proof fn lemma_fields_kept(
    dir: Direction,
    fields: Seq<FieldView>,
    size: nat,
    j: int,
    s: Seq<u8>,
    d: Seq<u8>,
    store: Seq<Seq<u8>>,
    st: SinkView,
    block: nat,
    offset: nat,
    e: Seq<u8>,
    after: SinkView,
)
    requires
        fields_converted(dir, fields, fields, j, s, d, store, st, block, offset) == Ok::<
            (Seq<u8>, SinkView),
            Seq<char>,
        >((e, after)),
        apart(TypeView::Compound { fields, size }),
        0 <= j <= fields.len(),
        s.len() == size,
        d.len() == size,
        after.blocks.len() < 0xffff_ffff,
        in_memory(store),
        in_memory(st.blocks),
        fits(ValueView::List(field_values(dir, fields, fields.len(), s, store))),
    ensures
        e.len() == d.len(),
        in_memory(after.blocks),
        goes_on(st, after),
        forall|i: int|
            0 <= i < j ==> field_bytes(back(dir), #[trigger] fields[i], e) == field_bytes(
                back(dir),
                fields[i],
                d,
            ),
        forall|i: int|
            j <= i < fields.len() ==> reaches(
                back(dir),
                (#[trigger] fields[i]).ty,
                field_bytes(back(dir), fields[i], e),
                after.blocks,
                st.blocks.len(),
                after.blocks.len(),
            ) && value_in(
                back(dir),
                fields[i].ty,
                field_bytes(back(dir), fields[i], e),
                after.blocks,
            ) == value_in(dir, fields[i].ty, field_bytes(dir, fields[i], s), store),
    decreases fields, 1nat, (fields.len() - j) as nat,
{
    if j >= fields.len() {
        assert(st.blocks.take(st.blocks.len() as int) =~= st.blocks);
    } else {
        let f = fields[j];
        assert(forall|i: int| 0 <= i < j ==> (#[trigger] fields[i]).name != fields[j].name);
        lemma_own_name(fields, j, 0);
        lemma_apart(fields, fields.len(), j);
        lemma_field_value(dir, fields, fields.len(), s, store);
        lemma_fits(field_values(dir, fields, fields.len(), s, store), fields.len(), j);
        let to = f.offset as int;
        let cell = dir.target_size(f.ty) as int;
        let src = field_bytes(dir, f, s);
        let old = d.subrange(to, to + cell);
        let (x, mid) = converted(
            dir,
            f.ty,
            f.ty,
            src,
            old,
            store,
            st,
            block,
            (offset + to) as nat,
        )->Ok_0;
        let d1 = patched(d, to, x);
        assert(fields_converted(dir, fields, fields, j + 1, s, d1, store, mid, block, offset)
            == Ok::<(Seq<u8>, SinkView), Seq<char>>((e, after)));
        lemma_fields_more(dir, fields, size, j + 1, s, d1, store, mid, block, offset);
        law_value_kept(
            dir,
            f.ty,
            src,
            old,
            store,
            st,
            block,
            (offset + to) as nat,
            x,
            mid,
        );
        lemma_fields_kept(dir, fields, size, j + 1, s, d1, store, mid, block, offset, e, after);
        lemma_goes_on(st, mid, after);
        assert(back(dir).source_size(f.ty) == cell);
        assert(field_bytes(back(dir), fields[j], e) == x) by {
            assert(field_bytes(back(dir), f, d1) =~= x);
        }
        lemma_stable(
            back(dir),
            f.ty,
            x,
            mid.blocks,
            after.blocks,
            st.blocks.len(),
            mid.blocks.len(),
            st.blocks.len(),
            after.blocks.len(),
        );
        assert forall|i: int| 0 <= i < j implies field_bytes(back(dir), #[trigger] fields[i], e)
            == field_bytes(back(dir), fields[i], d) by {
            assert(fields[i].name != fields[j].name);
            assert(field_bytes(back(dir), fields[i], d1) =~= field_bytes(
                back(dir),
                fields[i],
                d,
            ));
        }
        assert forall|i: int| j < i < fields.len() implies reaches(
            back(dir),
            (#[trigger] fields[i]).ty,
            field_bytes(back(dir), fields[i], e),
            after.blocks,
            st.blocks.len(),
            after.blocks.len(),
        ) by {
            lemma_stable(
                back(dir),
                fields[i].ty,
                field_bytes(back(dir), fields[i], e),
                after.blocks,
                after.blocks,
                mid.blocks.len(),
                after.blocks.len(),
                st.blocks.len(),
                after.blocks.len(),
            );
        }
    }
}

/// Elements that are converted to their own type keep their values.
pub proof fn law_values_kept(
    dir: Direction,
    t: TypeView,
    data: Seq<u8>,
    left: nat,
    acc: Seq<u8>,
    store: Seq<Seq<u8>>,
    st: SinkView,
    buf: Seq<u8>,
    after: SinkView,
)
    requires
        elements_converted(dir, t, t, data, left, acc, store, st) == Ok::<
            (Seq<u8>, SinkView),
            Seq<char>,
        >((buf, after)),
        apart(t),
        after.blocks.len() < 0xffff_ffff,
        in_memory(store),
        in_memory(st.blocks),
        all_fit(cell_values(dir, t, data, left, store), left),
    ensures
        buf.len() == acc.len() + dir.target_size(t) * left,
        acc.len() <= usize::MAX ==> buf.len() <= usize::MAX,
        in_memory(after.blocks),
        buf.take(acc.len() as int) == acc,
        goes_on(st, after),
        cells_reach(
            back(dir),
            t,
            buf.skip(acc.len() as int),
            left,
            after.blocks,
            st.blocks.len(),
            after.blocks.len(),
        ),
        cell_values(back(dir), t, buf.skip(acc.len() as int), left, after.blocks) == cell_values(
            dir,
            t,
            data,
            left,
            store,
        ),
    decreases left,
{
    let w = dir.source_size(t) as int;
    let cell = dir.target_size(t);
    if left == 0 {
        assert(cell * 0 == 0) by (nonlinear_arith);
        assert(st.blocks.take(st.blocks.len() as int) =~= st.blocks);
        assert(acc.take(acc.len() as int) =~= acc);
    } else {
        assert(cell * left == cell + cell * (left - 1)) by (nonlinear_arith);
        assert(0 <= cell * (left - 1)) by (nonlinear_arith)
            requires
                cell >= 0,
                left >= 1,
        ;
        let d = zeroes(cell);
        let (e, mid) = converted(dir, t, t, data.take(w), d, store, st, 0, acc.len())->Ok_0;
        lemma_first_fits(dir, t, data, left, store);
        lemma_elements_more(dir, t, data.skip(w), (left - 1) as nat, acc + e, store, mid);
        law_value_kept(dir, t, data.take(w), d, store, st, 0, acc.len(), e, mid);
        law_values_kept(dir, t, data.skip(w), (left - 1) as nat, acc + e, store, mid, buf, after);
        let part = buf.skip(acc.len() as int);
        assert(buf.take((acc + e).len() as int) == acc + e);
        assert(part.take(e.len() as int) =~= (acc + e).skip(acc.len() as int));
        assert((acc + e).skip(acc.len() as int) =~= e);
        assert(buf.take(acc.len() as int) =~= (acc + e).take(acc.len() as int));
        assert((acc + e).take(acc.len() as int) =~= acc);
        assert(part.skip(e.len() as int) =~= buf.skip((acc + e).len() as int));
        lemma_cells_joined(dir, t, data, left, store, st, e, mid, part, after);
    }
}

proof fn lemma_elements_more(
    dir: Direction,
    t: TypeView,
    data: Seq<u8>,
    left: nat,
    acc: Seq<u8>,
    store: Seq<Seq<u8>>,
    st: SinkView,
)
    requires
        apart(t),
    ensures
        elements_converted(dir, t, t, data, left, acc, store, st) matches Ok(x)
            ==> x.1.blocks.len() >= st.blocks.len(),
    decreases left,
{
    if left > 0 {
        let w = dir.source_size(t) as int;
        let d = zeroes(dir.target_size(t));
        lemma_more(dir, t, data.take(w), d, store, st, 0, acc.len());
        if let Ok((e, mid)) = converted(dir, t, t, data.take(w), d, store, st, 0, acc.len()) {
            lemma_elements_more(dir, t, data.skip(w), (left - 1) as nat, acc + e, store, mid);
        }
    }
}

// Success.

/// An element whose blocks hold what they should is converted.
proof fn lemma_converts(
    dir: Direction,
    t: TypeView,
    s: Seq<u8>,
    d: Seq<u8>,
    store: Seq<Seq<u8>>,
    st: SinkView,
    block: nat,
    offset: nat,
    lo: nat,
    hi: nat,
)
    requires
        apart(t),
        s.len() == dir.source_size(t),
        d.len() == dir.target_size(t),
        reaches(dir, t, s, store, lo, hi),
    ensures
        converted(dir, t, t, s, d, store, st, block, offset) matches Ok(x) && x.0.len()
            == dir.target_size(t),
    decreases t, 0nat, 0nat,
{
    match t {
        TypeView::Compound { fields, size } => {
            lemma_fields_convert(dir, fields, size, 0, s, d, store, st, block, offset, lo, hi);
        },
        TypeView::FixedArray(base, n) => {
            let none = Seq::<u8>::empty();
            lemma_array_converts(dir, *base, s, d, n, none, store, st, block, offset, lo, hi);
        },
        TypeView::VarLenArray(base) => {
            let (n, bytes) = list_in(dir, s, store);
            let id = st.blocks.len() + 1;
            let more = SinkView { blocks: st.blocks.push(Seq::empty()), floats: st.floats };
            let none = Seq::<u8>::empty();
            lemma_list_converts(dir, *base, bytes, n, none, store, more, id, lo, hi);
            lemma_slot_len(0, 0);
            lemma_slot_len(n, id);
            lemma_le_bytes_len(n, 8);
            lemma_le_bytes_len(id, 8);
        },
        _ => {
            if is_vlen_text(t) {
                let text = text_in(dir, s, store);
                lemma_slot_len(0, 0);
                lemma_slot_len(text.len(), st.blocks.len() + 1);
                lemma_le_bytes_len(st.blocks.len() + 1, 8);
            }
        },
    }
}

proof fn lemma_list_converts(
    dir: Direction,
    t: TypeView,
    bytes: Seq<u8>,
    left: nat,
    acc: Seq<u8>,
    store: Seq<Seq<u8>>,
    st: SinkView,
    block: nat,
    lo: nat,
    hi: nat,
)
    requires
        apart(t),
        dir.source_size(t) * left <= bytes.len(),
        acc.len() + dir.target_size(t) * left <= usize::MAX,
        cells_reach(dir, t, bytes, left, store, lo, hi),
    ensures
        list_converted(dir, t, t, bytes, left, acc, store, st, block) is Ok,
    decreases t, 1nat, left,
{
    if left > 0 {
        let w = dir.source_size(t) as int;
        let cell = dir.target_size(t);
        assert(w * left == w + w * (left - 1)) by (nonlinear_arith);
        assert(cell * left == cell + cell * (left - 1)) by (nonlinear_arith);
        assert(0 <= w * (left - 1) && 0 <= cell * (left - 1)) by (nonlinear_arith)
            requires
                w >= 0,
                cell >= 0,
                left >= 1,
        ;
        let d = zeroes(cell);
        lemma_converts(dir, t, bytes.take(w), d, store, st, block, acc.len(), lo, hi);
        let (e, mid) = converted(
            dir,
            t,
            t,
            bytes.take(w),
            d,
            store,
            st,
            block,
            acc.len(),
        )->Ok_0;
        lemma_list_converts(
            dir,
            t,
            bytes.skip(w),
            (left - 1) as nat,
            acc + e,
            store,
            mid,
            block,
            lo,
            hi,
        );
    }
}

proof fn lemma_array_converts(
    dir: Direction,
    t: TypeView,
    s: Seq<u8>,
    d: Seq<u8>,
    left: nat,
    acc: Seq<u8>,
    store: Seq<Seq<u8>>,
    st: SinkView,
    block: nat,
    offset: nat,
    lo: nat,
    hi: nat,
)
    requires
        apart(t),
        s.len() == dir.source_size(t) * left,
        d.len() == dir.target_size(t) * left,
        cells_reach(dir, t, s, left, store, lo, hi),
    ensures
        array_converted(dir, t, t, s, d, left, acc, store, st, block, offset) matches Ok(x)
            && x.0.len() == acc.len() + dir.target_size(t) * left,
    decreases t, 1nat, left,
{
    let w = dir.source_size(t) as int;
    let cell = dir.target_size(t) as int;
    if left == 0 {
        assert(cell * 0 == 0) by (nonlinear_arith);
    } else {
        assert(w * left == w + w * (left - 1)) by (nonlinear_arith);
        assert(cell * left == cell + cell * (left - 1)) by (nonlinear_arith);
        assert(0 <= w * (left - 1) && 0 <= cell * (left - 1)) by (nonlinear_arith)
            requires
                w >= 0,
                cell >= 0,
                left >= 1,
        ;
        let at = offset + acc.len();
        lemma_converts(dir, t, s.take(w), d.take(cell), store, st, block, at, lo, hi);
        let (e, mid) = converted(
            dir,
            t,
            t,
            s.take(w),
            d.take(cell),
            store,
            st,
            block,
            at,
        )->Ok_0;
        lemma_array_converts(
            dir,
            t,
            s.skip(w),
            d.skip(cell),
            (left - 1) as nat,
            acc + e,
            store,
            mid,
            block,
            offset,
            lo,
            hi,
        );
    }
}

proof fn lemma_field_reaches(
    dir: Direction,
    fields: Seq<FieldView>,
    k: nat,
    s: Seq<u8>,
    store: Seq<Seq<u8>>,
    lo: nat,
    hi: nat,
    i: int,
)
    requires
        fields_reach(dir, fields, k, s, store, lo, hi),
        0 <= i < k <= fields.len(),
    ensures
        reaches(dir, fields[i].ty, field_bytes(dir, fields[i], s), store, lo, hi),
    decreases k,
{
    if i < k - 1 {
        lemma_field_reaches(dir, fields, (k - 1) as nat, s, store, lo, hi, i);
    }
}

proof fn lemma_fields_convert(
    dir: Direction,
    fields: Seq<FieldView>,
    size: nat,
    j: int,
    s: Seq<u8>,
    d: Seq<u8>,
    store: Seq<Seq<u8>>,
    st: SinkView,
    block: nat,
    offset: nat,
    lo: nat,
    hi: nat,
)
    requires
        apart(TypeView::Compound { fields, size }),
        0 <= j <= fields.len(),
        s.len() == size,
        d.len() == size,
        fields_reach(dir, fields, fields.len(), s, store, lo, hi),
    ensures
        fields_converted(dir, fields, fields, j, s, d, store, st, block, offset) matches Ok(x)
            && x.0.len() == size,
    decreases fields, 1nat, (fields.len() - j) as nat,
{
    if j < fields.len() {
        let f = fields[j];
        assert(forall|i: int| 0 <= i < j ==> (#[trigger] fields[i]).name != fields[j].name);
        lemma_own_name(fields, j, 0);
        lemma_apart(fields, fields.len(), j);
        lemma_field_reaches(dir, fields, fields.len(), s, store, lo, hi, j);
        let cell = dir.target_size(f.ty) as int;
        let to = f.offset as int;
        let at = (offset + to) as nat;
        let a = field_bytes(dir, f, s);
        let b = d.subrange(to, to + cell);
        lemma_converts(dir, f.ty, a, b, store, st, block, at, lo, hi);
        let (e, mid) = converted(dir, f.ty, f.ty, a, b, store, st, block, at)->Ok_0;
        let d1 = patched(d, to, e);
        lemma_fields_convert(
            dir,
            fields,
            size,
            j + 1,
            s,
            d1,
            store,
            mid,
            block,
            offset,
            lo,
            hi,
        );
    }
}

/// Elements whose blocks hold what they should are converted to their own type.
pub proof fn law_elements_converted(
    dir: Direction,
    t: TypeView,
    data: Seq<u8>,
    left: nat,
    acc: Seq<u8>,
    store: Seq<Seq<u8>>,
    st: SinkView,
    lo: nat,
    hi: nat,
)
    requires
        apart(t),
        dir.source_size(t) * left <= data.len(),
        acc.len() + dir.target_size(t) * left <= usize::MAX,
        cells_reach(dir, t, data, left, store, lo, hi),
    ensures
        elements_converted(dir, t, t, data, left, acc, store, st) is Ok,
    decreases left,
{
    if left > 0 {
        let w = dir.source_size(t) as int;
        let cell = dir.target_size(t);
        assert(w * left == w + w * (left - 1)) by (nonlinear_arith);
        assert(cell * left == cell + cell * (left - 1)) by (nonlinear_arith);
        assert(0 <= w * (left - 1) && 0 <= cell * (left - 1)) by (nonlinear_arith)
            requires
                w >= 0,
                cell >= 0,
                left >= 1,
        ;
        let d = zeroes(cell);
        lemma_converts(dir, t, data.take(w), d, store, st, 0, acc.len(), lo, hi);
        let (e, mid) = converted(dir, t, t, data.take(w), d, store, st, 0, acc.len())->Ok_0;
        law_elements_converted(
            dir,
            t,
            data.skip(w),
            (left - 1) as nat,
            acc + e,
            store,
            mid,
            lo,
            hi,
        );
    }
}

} // verus!
