//! What becomes of elements that are converted to another type.

use vstd::prelude::*;

use crate::format::convert::{
    converted, disk_fields, disk_repr, elements_converted, field_named, fields_converted,
    is_fixed_text, is_vlen_text, numeric, overlaid, packed_fields, text_in, text_out, total_size,
    trimmed, Direction, FloatJob, Outcome, SinkView,
};
use crate::format::datatype::{index_order, nul_at, place_for};
use crate::format::{
    law_le_round_trip, le, le_at, le_bytes, lemma_le_bytes_len, lemma_pow256, patched, zeroes,
};
use crate::types::{FieldView, TypeView};

verus! {

// Texts.

/// A text in a cell of a fixed size keeps its bytes in a cell of another size: it is cut
/// there, or zeros follow it.
pub proof fn law_fixed_text_kept(
    dir: Direction,
    src: TypeView,
    dst: TypeView,
    s: Seq<u8>,
    d: Seq<u8>,
    store: Seq<Seq<u8>>,
    st: SinkView,
    block: nat,
    offset: nat,
)
    requires
        is_fixed_text(src),
        is_fixed_text(dst),
    ensures
        converted(dir, src, dst, s, d, store, st, block, offset) matches Ok((e, after)) && after
            == st && e.len() == d.len() && forall|i: int|
            0 <= i < d.len() ==> #[trigger] e[i] == (if i < s.len() {
                s[i]
            } else {
                0
            }),
{
}

proof fn lemma_trimmed(s: Seq<u8>)
    ensures
        trimmed(s).len() <= s.len(),
        trimmed(s) == s.take(trimmed(s).len() as int),
        forall|i: int| trimmed(s).len() <= i < s.len() ==> #[trigger] s[i] == 0,
        trimmed(s).len() > 0 ==> trimmed(s).last() != 0,
    decreases s.len(),
{
    if s.len() > 0 && s.last() == 0 {
        let t = s.drop_last();
        lemma_trimmed(t);
        let n = trimmed(s).len() as int;
        assert(t.take(n) =~= s.take(n));
        assert forall|i: int| n <= i < s.len() implies #[trigger] s[i] == 0 by {
            if i < t.len() {
                assert(t[i] == 0);
            }
        }
    } else {
        assert(s.take(s.len() as int) =~= s);
    }
}

/// A text in a cell of a fixed size that becomes one of any length loses the zeros at its
/// end and nothing else.
pub proof fn law_fixed_text_stored(
    src: TypeView,
    dst: TypeView,
    s: Seq<u8>,
    d: Seq<u8>,
    store: Seq<Seq<u8>>,
    st: SinkView,
    block: nat,
    offset: nat,
)
    requires
        is_fixed_text(src),
        is_vlen_text(dst),
        st.blocks.len() < u64::MAX,
    ensures
        converted(Direction::ToMemory, src, dst, s, d, store, st, block, offset) matches Ok(
            (e, after),
        ) && e.len() == 8 && le(e) == st.blocks.len() + 1 && after.blocks.len() == st.blocks.len()
            + 1 && after.floats == st.floats && after.blocks.take(st.blocks.len() as int)
            == st.blocks && ({
            let text = after.blocks.last();
            &&& text.len() <= s.len()
            &&& forall|i: int| 0 <= i < text.len() ==> #[trigger] text[i] == s[i]
            &&& forall|i: int| text.len() <= i < s.len() ==> #[trigger] s[i] == 0
            &&& text.len() > 0 ==> text.last() != 0
        }),
{
    lemma_trimmed(s);
    lemma_pow256();
    law_le_round_trip(st.blocks.len() + 1, 8);
    let (e, after) = text_out(Direction::ToMemory, trimmed(s), st);
    assert(after.blocks.take(st.blocks.len() as int) =~= st.blocks);
    assert forall|i: int| 0 <= i < trimmed(s).len() implies #[trigger] trimmed(s)[i] == s[i] by {
        assert(s.take(trimmed(s).len() as int)[i] == s[i]);
    }
}

/// A text of a file that becomes one in a cell of a fixed size keeps the bytes that its
/// slot counts: it is cut there, or zeros follow it.
pub proof fn law_stored_text_fixed(
    src: TypeView,
    dst: TypeView,
    s: Seq<u8>,
    d: Seq<u8>,
    store: Seq<Seq<u8>>,
    st: SinkView,
    block: nat,
    offset: nat,
)
    requires
        is_vlen_text(src),
        is_fixed_text(dst),
        s.len() >= 8,
        1 <= le_at(s, 4, 4) <= store.len(),
        le_at(s, 0, 4) <= store[le_at(s, 4, 4) - 1].len(),
    ensures
        converted(Direction::ToMemory, src, dst, s, d, store, st, block, offset) matches Ok(
            (e, after),
        ) && after == st && e.len() == d.len() && forall|i: int|
            0 <= i < d.len() ==> #[trigger] e[i] == (if i < le_at(s, 0, 4) {
                store[le_at(s, 4, 4) - 1][i]
            } else {
                0
            }),
{
}

proof fn lemma_nul(s: Seq<u8>, from: int)
    requires
        0 <= from <= s.len(),
    ensures
        match nul_at(s, from) {
            Some(k) => from <= k < s.len() && s[k] == 0 && forall|i: int|
                from <= i < k ==> #[trigger] s[i] != 0,
            None => forall|i: int| from <= i < s.len() ==> #[trigger] s[i] != 0,
        },
    decreases s.len() - from,
{
    if from < s.len() && s[from] != 0 {
        lemma_nul(s, from + 1);
    }
}

/// A text in memory ends before its first zero byte.
pub proof fn law_memory_text(s: Seq<u8>, store: Seq<Seq<u8>>)
    requires
        s.len() >= 8,
        1 <= le_at(s, 0, 8) <= store.len(),
    ensures
        ({
            let b = store[le_at(s, 0, 8) - 1];
            let text = text_in(Direction::ToFile, s, store);
            &&& text.len() <= b.len()
            &&& forall|i: int| 0 <= i < text.len() ==> #[trigger] text[i] == b[i] && b[i] != 0
            &&& text.len() < b.len() ==> b[text.len() as int] == 0
        }),
{
    lemma_nul(store[le_at(s, 0, 8) - 1], 0);
}

// Numbers one by one.

/// Whether both types are integers.
pub open spec fn integers(a: TypeView, b: TypeView) -> bool {
    numeric(a) matches Some(x) && !(x is Float) && (numeric(b) matches Some(y) && !(y is Float))
}

/// What becomes of one integer, whatever cell it is put in.
pub open spec fn integer_cell(a: TypeView, b: TypeView, s: Seq<u8>) -> Seq<u8> {
    let (x, y) = (numeric(a)->0, numeric(b)->0);
    if x == y {
        s
    } else {
        le_bytes(y.saturated(x.value(le(s))), y.bytes())
    }
}

proof fn lemma_integer_cell(
    dir: Direction,
    a: TypeView,
    b: TypeView,
    s: Seq<u8>,
    d: Seq<u8>,
    store: Seq<Seq<u8>>,
    st: SinkView,
    block: nat,
    offset: nat,
)
    requires
        integers(a, b),
        s.len() == dir.source_size(a),
        d.len() == dir.target_size(b),
    ensures
        converted(dir, a, b, s, d, store, st, block, offset) == Outcome::Ok(
            (integer_cell(a, b, s), st),
        ),
        integer_cell(a, b, s).len() == d.len(),
{
    let (x, y) = (numeric(a)->0, numeric(b)->0);
    if x == y {
        assert(overlaid(s, d) =~= s);
    } else {
        lemma_le_bytes_len(y.saturated(x.value(le(s))), y.bytes());
    }
}

/// The cell number `i` of some cells of `w` bytes.
pub open spec fn cell_at(s: Seq<u8>, w: nat, i: nat) -> Seq<u8> {
    s.subrange((i * w) as int, ((i + 1) * w) as int)
}

proof fn lemma_cells(w: nat, i: nat, n: nat)
    requires
        i < n,
    ensures
        (i + 1) * w == i * w + w,
        (i + 1) * w <= n * w,
        0 <= i * w,
        n * w == (n - 1) * w + w,
        0 <= (n - 1) * w,
{
    assert((i + 1) * w == i * w + w && 0 <= i * w) by (nonlinear_arith);
    assert((i + 1) * w <= n * w) by (nonlinear_arith)
        requires
            i + 1 <= n,
    ;
    assert(n * w == (n - 1) * w + w && 0 <= (n - 1) * w) by (nonlinear_arith)
        requires
            n >= 1,
    ;
}

proof fn lemma_integers(
    dir: Direction,
    a: TypeView,
    b: TypeView,
    data: Seq<u8>,
    n: nat,
    acc: Seq<u8>,
    store: Seq<Seq<u8>>,
    st: SinkView,
)
    requires
        integers(a, b),
        data.len() >= n * dir.source_size(a),
        acc.len() + n * dir.target_size(b) <= usize::MAX,
    ensures
        elements_converted(dir, a, b, data, n, acc, store, st) matches Ok((r, after)) && after == st
            && r.len() == acc.len() + n * dir.target_size(b) && r.take(acc.len() as int) == acc
            && forall|i: nat|
            i < n ==> integer_cell(a, b, #[trigger] cell_at(data, dir.source_size(a), i))
                == cell_at(r.skip(acc.len() as int), dir.target_size(b), i),
    decreases n,
{
    let (w, c) = (dir.source_size(a), dir.target_size(b));
    if n == 0 {
        assert(0 * c == 0) by (nonlinear_arith);
        assert(acc.take(acc.len() as int) =~= acc);
    } else {
        lemma_cells(w, 0, n);
        lemma_cells(c, 0, n);
        let first = data.take(w as int);
        let rest = data.skip(w as int);
        let e = integer_cell(a, b, first);
        lemma_integer_cell(dir, a, b, first, zeroes(c), store, st, 0, acc.len());
        lemma_integers(dir, a, b, rest, (n - 1) as nat, acc + e, store, st);
        let r = elements_converted(dir, a, b, data, n, acc, store, st)->Ok_0.0;
        lemma_cells_after(a, b, data, r, acc, e, w, c, n);
    }
}

proof fn lemma_cells_after(
    a: TypeView,
    b: TypeView,
    data: Seq<u8>,
    r: Seq<u8>,
    acc: Seq<u8>,
    e: Seq<u8>,
    w: nat,
    c: nat,
    n: nat,
)
    requires
        n > 0,
        data.len() >= n * w,
        e.len() == c,
        e == integer_cell(a, b, data.take(w as int)),
        r.len() == acc.len() + n * c,
        r.take((acc + e).len() as int) == acc + e,
        forall|i: nat|
            i < n - 1 ==> integer_cell(a, b, #[trigger] cell_at(data.skip(w as int), w, i))
                == cell_at(r.skip((acc + e).len() as int), c, i),
    ensures
        r.take(acc.len() as int) == acc,
        forall|i: nat|
            i < n ==> integer_cell(a, b, #[trigger] cell_at(data, w, i)) == cell_at(
                r.skip(acc.len() as int),
                c,
                i,
            ),
{
    lemma_cells(w, 0, n);
    lemma_cells(c, 0, n);
    let rest = data.skip(w as int);
    assert forall|i: int| 0 <= i < acc.len() + c implies r[i] == (acc + e)[i] by {
        assert(r.take((acc + e).len() as int)[i] == (acc + e)[i]);
    }
    assert(r.take(acc.len() as int) =~= acc);
    assert forall|i: nat| i < n implies integer_cell(a, b, #[trigger] cell_at(data, w, i))
        == cell_at(r.skip(acc.len() as int), c, i) by {
        lemma_cells(w, i, n);
        lemma_cells(c, i, n);
        if i == 0 {
            assert(0 * w == 0 && 0 * c == 0) by (nonlinear_arith);
            assert(cell_at(data, w, 0) =~= data.take(w as int));
            assert(cell_at(r.skip(acc.len() as int), c, 0) =~= e);
        } else {
            let j = (i - 1) as nat;
            lemma_cells(w, j, n);
            lemma_cells(c, j, n);
            assert(cell_at(rest, w, j) =~= cell_at(data, w, i));
            assert(cell_at(r.skip((acc + e).len() as int), c, j) =~= cell_at(
                r.skip(acc.len() as int),
                c,
                i,
            ));
        }
    }
}

/// Integers are converted one by one, each from its place to its place.
pub proof fn law_integers_one_by_one(
    dir: Direction,
    a: TypeView,
    b: TypeView,
    data: Seq<u8>,
    n: nat,
    store: Seq<Seq<u8>>,
    st: SinkView,
    i: nat,
)
    requires
        integers(a, b),
        data.len() >= n * dir.source_size(a),
        n * dir.target_size(b) <= usize::MAX,
        i < n,
    ensures
        elements_converted(dir, a, b, data, n, Seq::empty(), store, st) is Ok,
        ({
            let (r, after) = elements_converted(dir, a, b, data, n, Seq::empty(), store, st)->Ok_0;
            &&& after == st
            &&& r.len() == n * dir.target_size(b)
            &&& converted(
                dir,
                a,
                b,
                cell_at(data, dir.source_size(a), i),
                zeroes(dir.target_size(b)),
                store,
                st,
                0,
                0,
            ) == Outcome::Ok((cell_at(r, dir.target_size(b), i), st))
        }),
{
    let none = Seq::<u8>::empty();
    lemma_integers(dir, a, b, data, n, none, store, st);
    lemma_cells(dir.source_size(a), i, n);
    let cell = cell_at(data, dir.source_size(a), i);
    lemma_integer_cell(dir, a, b, cell, zeroes(dir.target_size(b)), store, st, 0, 0);
    let r = elements_converted(dir, a, b, data, n, none, store, st)->Ok_0.0;
    assert(r.skip(0) =~= r);
}

/// Floating-point numbers that change their type are left to be converted: for each
/// element its bits, the two types and the place where the result belongs.
pub proof fn law_float_jobs(
    dir: Direction,
    a: TypeView,
    b: TypeView,
    data: Seq<u8>,
    n: nat,
    acc: Seq<u8>,
    store: Seq<Seq<u8>>,
    st: SinkView,
)
    requires
        numeric(a) is Some,
        numeric(b) is Some,
        numeric(a) != numeric(b),
        numeric(a)->0 is Float || numeric(b)->0 is Float,
        data.len() >= n * dir.source_size(a),
        acc.len() + n * dir.target_size(b) <= usize::MAX,
    ensures
        elements_converted(dir, a, b, data, n, acc, store, st) matches Ok((r, after)) && r.len()
            == acc.len() + n * dir.target_size(b) && after.blocks == st.blocks && after.floats.len()
            == st.floats.len() + n && after.floats.take(st.floats.len() as int) == st.floats
            && forall|i: nat|
            i < n ==> (#[trigger] after.floats[st.floats.len() + i as int]) == (FloatJob {
                block: 0,
                offset: (acc.len() + i * dir.target_size(b)) as usize,
                from: numeric(a)->0,
                to: numeric(b)->0,
                bits: le(cell_at(data, dir.source_size(a), i)) as u64,
            }),
    decreases n,
{
    let (w, c) = (dir.source_size(a), dir.target_size(b));
    if n == 0 {
        assert(0 * c == 0) by (nonlinear_arith);
        assert(st.floats.take(st.floats.len() as int) =~= st.floats);
    } else {
        lemma_cells(w, 0, n);
        lemma_cells(c, 0, n);
        let first = data.take(w as int);
        let rest = data.skip(w as int);
        let job = FloatJob {
            block: 0,
            offset: acc.len() as usize,
            from: numeric(a)->0,
            to: numeric(b)->0,
            bits: le(first) as u64,
        };
        let next = SinkView { blocks: st.blocks, floats: st.floats.push(job) };
        let e = zeroes(c);
        assert(converted(dir, a, b, first, e, store, st, 0, acc.len()) == Outcome::Ok((e, next)));
        law_float_jobs(dir, a, b, rest, (n - 1) as nat, acc + e, store, next);
        let (r, after) = elements_converted(dir, a, b, data, n, acc, store, st)->Ok_0;
        let m = st.floats.len();
        assert forall|i: int| 0 <= i <= m implies after.floats[i] == next.floats[i] by {
            assert(after.floats.take(m as int + 1)[i] == next.floats[i]);
        }
        assert(after.floats.take(m as int) =~= st.floats);
        assert forall|i: nat| i < n implies (#[trigger] after.floats[m + i as int]) == (FloatJob {
            block: 0,
            offset: (acc.len() + i * c) as usize,
            from: numeric(a)->0,
            to: numeric(b)->0,
            bits: le(cell_at(data, w, i)) as u64,
        }) by {
            lemma_cells(w, i, n);
            lemma_cells(c, i, n);
            if i == 0 {
                assert(0 * w == 0 && 0 * c == 0) by (nonlinear_arith);
                assert(cell_at(data, w, 0) =~= first);
            } else {
                let j = (i - 1) as nat;
                lemma_cells(w, j, n);
                lemma_cells(c, j, n);
                assert(cell_at(rest, w, j) =~= cell_at(data, w, i));
                assert(after.floats[m + 1 + j as int] == after.floats[m + i as int]);
            }
        }
    }
}

// Compounds.

/// Whether no two fields have the same name.
pub open spec fn names_differ(fields: Seq<FieldView>) -> bool {
    forall|i: int, j: int|
        0 <= i < j < fields.len() ==> (#[trigger] fields[i]).name != (#[trigger] fields[j]).name
}

proof fn lemma_found(fields: Seq<FieldView>, name: Seq<char>, from: int, k: int)
    requires
        names_differ(fields),
        0 <= from <= k < fields.len(),
        fields[k].name == name,
    ensures
        field_named(fields, name, from) == Some(k),
    decreases k - from,
{
    if from < k {
        assert(fields[from].name != fields[k].name);
        lemma_found(fields, name, from + 1, k);
    }
}

/// Whether the fields of a compound of `n` bytes stand apart from each other.
pub open spec fn fields_apart(dir: Direction, b: Seq<FieldView>, n: nat) -> bool {
    &&& forall|i: int|
        0 <= i < b.len() ==> (#[trigger] b[i]).offset + dir.target_size(b[i].ty) <= n
    &&& forall|i: int, j: int|
        0 <= i < j < b.len() ==> (#[trigger] b[i]).offset + dir.target_size(b[i].ty) <= (
        #[trigger] b[j]).offset || b[j].offset + dir.target_size(b[j].ty) <= b[i].offset
}

/// Whether a place lies in one of the fields from `j` on.
pub open spec fn in_fields(dir: Direction, b: Seq<FieldView>, j: int, p: int) -> bool {
    exists|i: int|
        j <= i < b.len() && (#[trigger] b[i]).offset <= p < b[i].offset + dir.target_size(b[i].ty)
}

/// Whether `k[i]` is the number of the source field with the name of the field `b[i]`, both
/// of them are integers, and the source field lies within the `n` bytes of the source.
pub open spec fn fields_match(
    dir: Direction,
    a: Seq<FieldView>,
    b: Seq<FieldView>,
    k: Seq<int>,
    n: nat,
) -> bool {
    k.len() == b.len() && forall|i: int|
        0 <= i < b.len() ==> 0 <= #[trigger] k[i] < a.len() && a[k[i]].name == b[i].name
            && integers(a[k[i]].ty, b[i].ty) && a[k[i]].offset + dir.source_size(a[k[i]].ty) <= n
}

proof fn lemma_fields(
    dir: Direction,
    a: Seq<FieldView>,
    b: Seq<FieldView>,
    k: Seq<int>,
    j: int,
    s: Seq<u8>,
    d: Seq<u8>,
    store: Seq<Seq<u8>>,
    st: SinkView,
    block: nat,
    offset: nat,
)
    requires
        names_differ(a),
        fields_apart(dir, b, d.len()),
        fields_match(dir, a, b, k, s.len()),
        0 <= j <= b.len(),
    ensures
        fields_converted(dir, a, b, j, s, d, store, st, block, offset) matches Ok((r, after))
            && after == st && fields_done(dir, a, b, k, j, s, d, r),
    decreases b.len() - j,
{
    if j < b.len() {
        let m = k[j];
        lemma_found(a, b[j].name, 0, m);
        let (from, to) = (a[m].offset as int, b[j].offset as int);
        let (w, c) = (dir.source_size(a[m].ty) as int, dir.target_size(b[j].ty) as int);
        let part = s.subrange(from, from + w);
        assert(b[j].offset + dir.target_size(b[j].ty) <= d.len());
        lemma_integer_cell(
            dir,
            a[m].ty,
            b[j].ty,
            part,
            d.subrange(to, to + c),
            store,
            st,
            block,
            (offset + to) as nat,
        );
        let e = integer_cell(a[m].ty, b[j].ty, part);
        let next = patched(d, to, e);
        lemma_fields(dir, a, b, k, j + 1, s, next, store, st, block, offset);
        let r = fields_converted(dir, a, b, j, s, d, store, st, block, offset)->Ok_0.0;
        lemma_fields_step(dir, a, b, k, j, s, d, e, r);
    }
}

/// Whether the fields of `r` from `j` on are what becomes of the source fields of their
/// names, and the other bytes are those of `d`.
spec fn fields_done(
    dir: Direction,
    a: Seq<FieldView>,
    b: Seq<FieldView>,
    k: Seq<int>,
    j: int,
    s: Seq<u8>,
    d: Seq<u8>,
    r: Seq<u8>,
) -> bool {
    &&& r.len() == d.len()
    &&& forall|i: int|
        j <= i < b.len() ==> integer_cell(
            a[k[i]].ty,
            (#[trigger] b[i]).ty,
            source_field(dir, s, a[k[i]]),
        ) == target_field(dir, r, b[i])
    &&& forall|p: int| 0 <= p < d.len() && !in_fields(dir, b, j, p) ==> #[trigger] r[p] == d[p]
}

/// The bytes of a field of the source.
pub open spec fn source_field(dir: Direction, s: Seq<u8>, f: FieldView) -> Seq<u8> {
    s.subrange(f.offset as int, (f.offset + dir.source_size(f.ty)) as int)
}

/// The bytes of a field of the result.
pub open spec fn target_field(dir: Direction, r: Seq<u8>, f: FieldView) -> Seq<u8> {
    r.subrange(f.offset as int, (f.offset + dir.target_size(f.ty)) as int)
}

proof fn lemma_fields_step(
    dir: Direction,
    a: Seq<FieldView>,
    b: Seq<FieldView>,
    k: Seq<int>,
    j: int,
    s: Seq<u8>,
    d: Seq<u8>,
    e: Seq<u8>,
    r: Seq<u8>,
)
    requires
        fields_apart(dir, b, d.len()),
        0 <= j < b.len(),
        e.len() == dir.target_size(b[j].ty),
        e == integer_cell(a[k[j]].ty, b[j].ty, source_field(dir, s, a[k[j]])),
        fields_done(dir, a, b, k, j + 1, s, patched(d, b[j].offset as int, e), r),
    ensures
        fields_done(dir, a, b, k, j, s, d, r),
{
    let to = b[j].offset as int;
    let c = dir.target_size(b[j].ty) as int;
    let next = patched(d, to, e);
    assert(b[j].offset + dir.target_size(b[j].ty) <= d.len());
    assert(target_field(dir, r, b[j]) =~= e) by {
        assert forall|q: int| 0 <= q < c implies r[to + q] == e[q] by {
            let p = to + q;
            if in_fields(dir, b, j + 1, p) {
                let i = choose|i: int|
                    j + 1 <= i < b.len() && (#[trigger] b[i]).offset <= p < b[i].offset
                        + dir.target_size(b[i].ty);
                assert(b[j].offset + c <= b[i].offset || b[i].offset + dir.target_size(b[i].ty)
                    <= b[j].offset);
            }
            assert(r[p] == next[p]);
        }
    }
    assert forall|p: int| 0 <= p < d.len() && !in_fields(dir, b, j, p) implies #[trigger] r[p]
        == d[p] by {
        if to <= p < to + c {
            assert(b[j].offset <= p < b[j].offset + dir.target_size(b[j].ty));
        }
        if in_fields(dir, b, j + 1, p) {
            let i = choose|i: int|
                j + 1 <= i < b.len() && (#[trigger] b[i]).offset <= p < b[i].offset
                    + dir.target_size(b[i].ty);
            assert(j <= i);
        }
        assert(next[p] == d[p]);
    }
}

/// The fields of a compound are matched by their names, wherever they stand: each field is
/// what becomes of the source field of that name. The bytes between the fields stay.
pub proof fn law_fields_by_name(
    dir: Direction,
    a: Seq<FieldView>,
    b: Seq<FieldView>,
    k: Seq<int>,
    s: Seq<u8>,
    d: Seq<u8>,
    store: Seq<Seq<u8>>,
    st: SinkView,
    block: nat,
    offset: nat,
    i: int,
)
    requires
        names_differ(a),
        fields_apart(dir, b, d.len()),
        fields_match(dir, a, b, k, s.len()),
        0 <= i < b.len(),
    ensures
        fields_converted(dir, a, b, 0, s, d, store, st, block, offset) is Ok,
        ({
            let (r, after) = fields_converted(
                dir,
                a,
                b,
                0,
                s,
                d,
                store,
                st,
                block,
                offset,
            )->Ok_0;
            &&& after == st
            &&& r.len() == d.len()
            &&& converted(
                dir,
                a[k[i]].ty,
                b[i].ty,
                source_field(dir, s, a[k[i]]),
                zeroes(dir.target_size(b[i].ty)),
                store,
                st,
                0,
                0,
            ) == Outcome::Ok((target_field(dir, r, b[i]), st))
            &&& forall|p: int| 0 <= p < d.len() && !in_fields(dir, b, 0, p) ==> #[trigger] r[p] == d[p]
        }),
{
    lemma_fields(dir, a, b, k, 0, s, d, store, st, block, offset);
    let f = a[k[i]];
    assert(f.offset + dir.source_size(f.ty) <= s.len());
    lemma_integer_cell(
        dir,
        f.ty,
        b[i].ty,
        source_field(dir, s, f),
        zeroes(dir.target_size(b[i].ty)),
        store,
        st,
        0,
        0,
    );
}

/// Fields that are packed stand one right behind the other, in their order, and fill the
/// compound.
pub proof fn law_fields_packed(fields: Seq<FieldView>, i: int)
    requires
        0 <= i < fields.len(),
    ensures
        packed_fields(fields).len() == fields.len(),
        packed_fields(fields)[i].name == fields[i].name,
        packed_fields(fields)[i].ty == fields[i].ty,
        i == 0 ==> packed_fields(fields)[i].offset == 0,
        i + 1 < fields.len() ==> packed_fields(fields)[i + 1].offset
            == packed_fields(fields)[i].offset + fields[i].ty.disk_size(),
        i + 1 == fields.len() ==> total_size(fields) == packed_fields(fields)[i].offset
            + fields[i].ty.disk_size(),
{
    assert(fields.take(i + 1).drop_last() =~= fields.take(i));
    assert(fields.take(i + 1).last() == fields[i]);
    if i + 1 == fields.len() {
        assert(fields.take(i + 1) =~= fields);
    }
}

// Stored compounds.

/// Whether the position `a` comes before `b`: its field has the smaller index, or the same
/// index and the earlier place.
pub open spec fn earlier_field(fields: Seq<FieldView>, a: int, b: int) -> bool {
    fields[a].index < fields[b].index || (fields[a].index == fields[b].index && a < b)
}

proof fn lemma_place_for(fields: Seq<FieldView>, order: Seq<int>, k: int, j: nat)
    requires
        j <= order.len(),
        forall|a: int, b: int|
            0 <= a < b < order.len() ==> #[trigger] earlier_field(fields, order[a], order[b]),
        forall|a: int| 0 <= a < order.len() ==> #[trigger] order[a] < k,
        forall|a: int| j <= a < order.len() ==> fields[#[trigger] order[a]].index > fields[k].index,
    ensures
        ({
            let p = place_for(fields, order, k, j);
            &&& p <= j
            &&& forall|a: int| 0 <= a < p ==> fields[#[trigger] order[a]].index <= fields[k].index
            &&& forall|a: int|
                p <= a < order.len() ==> fields[#[trigger] order[a]].index > fields[k].index
        }),
    decreases j,
{
    if j > 0 {
        if fields[order[j - 1]].index <= fields[k].index {
            assert forall|a: int| 0 <= a < j implies fields[#[trigger] order[a]].index
                <= fields[k].index by {
                if a < j - 1 {
                    assert(earlier_field(fields, order[a], order[j - 1]));
                }
            }
        } else {
            lemma_place_for(fields, order, k, (j - 1) as nat);
        }
    }
}

/// The fields of a stored compound stand by their indices: each field has one place, and
/// one before another has the smaller index, or the same and comes first.
pub proof fn law_fields_by_index(fields: Seq<FieldView>, n: nat)
    ensures
        ({
            let order = index_order(fields, n);
            &&& order.len() == n
            &&& forall|k: int| 0 <= k < n ==> #[trigger] order.contains(k)
            &&& forall|a: int| 0 <= a < n ==> 0 <= #[trigger] order[a] < n
            &&& forall|a: int, b: int|
                0 <= a < b < n ==> #[trigger] earlier_field(fields, order[a], order[b])
        }),
    decreases n,
{
    if n > 0 {
        let k = n - 1;
        let order = index_order(fields, k as nat);
        law_fields_by_index(fields, k as nat);
        lemma_place_for(fields, order, k, order.len());
        let p = place_for(fields, order, k, order.len()) as int;
        let more = index_order(fields, n);
        assert(more == order.insert(p, k));
        assert forall|a: int| 0 <= a < n implies #[trigger] more[a] == (if a < p {
            order[a]
        } else if a == p {
            k
        } else {
            order[a - 1]
        }) by {}
        assert forall|i: int| 0 <= i < n implies #[trigger] more.contains(i) by {
            if i == k {
                assert(more[p] == i);
            } else {
                assert(order.contains(i));
                let a = order.index_of(i);
                if a < p {
                    assert(more[a] == i);
                } else {
                    assert(more[a + 1] == i);
                }
            }
        }
        assert forall|a: int, b: int| 0 <= a < b < n implies #[trigger] earlier_field(
            fields,
            more[a],
            more[b],
        ) by {
            let x = if a < p {
                a
            } else {
                a - 1
            };
            let y = if b < p {
                b
            } else {
                b - 1
            };
            if a != p && b != p {
                assert(earlier_field(fields, order[x], order[y]));
            } else if a == p {
                assert(fields[order[y]].index > fields[k].index);
            } else {
                assert(fields[order[x]].index <= fields[k].index);
            }
        }
    }
}

proof fn lemma_disk_fields(fields: Seq<FieldView>, order: Seq<int>)
    requires
        forall|a: int| 0 <= a < order.len() ==> 0 <= #[trigger] order[a] < fields.len(),
    ensures
        disk_fields(fields, order).len() == order.len(),
        forall|a: int|
            0 <= a < order.len() ==> (#[trigger] disk_fields(fields, order)[a]) == (FieldView {
                ty: disk_repr(fields[order[a]].ty),
                ..fields[order[a]]
            }),
    decreases order.len(),
{
    if order.len() > 0 {
        let o = order.drop_last();
        assert forall|a: int| 0 <= a < o.len() implies 0 <= #[trigger] o[a] < fields.len() by {
            assert(o[a] == order[a]);
        }
        lemma_disk_fields(fields, o);
        let r = disk_fields(fields, order);
        assert(order.last() == order[order.len() - 1]);
        assert forall|a: int| 0 <= a < order.len() implies (#[trigger] r[a]) == (FieldView {
            ty: disk_repr(fields[order[a]].ty),
            ..fields[order[a]]
        }) by {
            if a < o.len() {
                assert(o[a] == order[a]);
                assert(r[a] == disk_fields(fields, o)[a]);
            }
        }
    }
}

/// A stored compound has the fields of the one in memory, each with its name and its type as
/// stored, in the order of their indices. Where nothing has a variable length, each stays
/// where it is and the size stays; else they stand one right behind the other. The bases of
/// arrays are stored likewise, and other types as they are.
pub proof fn law_stored_type(t: TypeView, k: int)
    ensures
        t matches TypeView::Compound { fields, size } ==> (disk_repr(t) matches TypeView::Compound {
            fields: stored,
            size: after,
        } && stored.len() == fields.len() && (0 <= k < fields.len() ==> exists|a: int|
            0 <= a < stored.len() && (#[trigger] stored[a]).name == fields[k].name && stored[a].index
                == fields[k].index && stored[a].ty == disk_repr(fields[k].ty) && (!t.has_vlen()
                ==> stored[a].offset == fields[k].offset)) && (!t.has_vlen() ==> after == size) && (
        0 <= k && k + 1 < fields.len() ==> stored[k].index <= stored[k + 1].index) && (t.has_vlen()
            && 0 <= k && k + 1 < fields.len() ==> stored[k + 1].offset == stored[k].offset
            + stored[k].ty.disk_size()) && (t.has_vlen() && 0 <= k < fields.len() && k + 1
            == fields.len() ==> after == stored[k].offset + stored[k].ty.disk_size())),
        t matches TypeView::FixedArray(base, n) ==> disk_repr(t) == TypeView::FixedArray(
            Box::new(disk_repr(*base)),
            n,
        ),
        t matches TypeView::VarLenArray(base) ==> disk_repr(t) == TypeView::VarLenArray(
            Box::new(disk_repr(*base)),
        ),
        !(t is Compound || t is FixedArray || t is VarLenArray) ==> disk_repr(t) == t,
{
    if let TypeView::Compound { fields, size } = t {
        let order = index_order(fields, fields.len());
        law_fields_by_index(fields, fields.len());
        lemma_disk_fields(fields, order);
        let list = disk_fields(fields, order);
        let stored = disk_repr(t)->Compound_fields;
        assert(stored.len() == fields.len());
        if 0 <= k < fields.len() {
            assert(order.contains(k));
            let a = order.index_of(k);
            assert(list[a].name == fields[order[a]].name);
            if t.has_vlen() {
                law_fields_packed(list, a);
                law_fields_packed(list, k);
                if k + 1 < fields.len() {
                    law_fields_packed(list, k + 1);
                }
            }
            assert(stored[a].name == fields[k].name);
            if k + 1 < fields.len() {
                assert(earlier_field(fields, order[k], order[k + 1]));
                assert(list[k].index == fields[order[k]].index);
                assert(list[k + 1].index == fields[order[k + 1]].index);
            }
        }
    }
}

} // verus!
