//! What is written is read back.

use vstd::prelude::*;

use crate::format::convert::{
    elements_converted, flat, law_same_type_keeps_bytes, mismatch, Direction, SinkView,
};
use crate::format::value_laws::{
    all_fit, apart, cell_values, in_memory, law_elements_converted, law_values_kept,
};
use crate::format::{patched, zeroes};
use crate::hl::container::{
    elements_read, fresh, narrow, replaced_elements, taken, write_prepared, HeldView,
};
use crate::hl::datatype::{law_path_reflexive, Conversion};
use crate::hl::points::indices;
use crate::hl::selection::SelectionView;
use crate::types::TypeView;

verus! {

/// Elements of a flat type stay as they are when they are converted to it.
proof fn lemma_elements_kept(
    dir: Direction,
    t: TypeView,
    data: Seq<u8>,
    n: nat,
    acc: Seq<u8>,
    store: Seq<Seq<u8>>,
    st: SinkView,
)
    requires
        flat(t),
        t.size() == t.disk_size(),
        data.len() == n * t.size(),
        acc.len() + data.len() <= usize::MAX,
    ensures
        elements_converted(dir, t, t, data, n, acc, store, st) == Ok::<
            (Seq<u8>, SinkView),
            Seq<char>,
        >((acc + data, st)),
    decreases n,
{
    let w = t.size() as int;
    if n == 0 {
        assert(0 * t.size() == 0) by (nonlinear_arith);
        assert(acc + data =~= acc);
    } else {
        assert(n * t.size() == (n - 1) * t.size() + t.size()) by (nonlinear_arith)
            requires
                n >= 1,
        ;
        assert((n - 1) * t.size() >= 0) by (nonlinear_arith)
            requires
                n >= 1,
        ;
        law_same_type_keeps_bytes(
            dir,
            t,
            data.take(w),
            zeroes(t.size()),
            store,
            st,
            0,
            acc.len(),
        );
        lemma_elements_kept(
            dir,
            t,
            data.skip(w),
            (n - 1) as nat,
            acc + data.take(w),
            store,
            st,
        );
        assert(acc + data.take(w) + data.skip(w) =~= acc + data);
    }
}

proof fn lemma_flat_same(t: TypeView)
    requires
        flat(t),
    ensures
        t.size() == t.disk_size(),
        mismatch(t, t) is None,
{
    let z = zeroes(t.size());
    law_same_type_keeps_bytes(
        Direction::ToMemory,
        t,
        z,
        z,
        Seq::empty(),
        fresh(Seq::empty()),
        0,
        0,
    );
}

/// Elements that were written as a whole are read back as they were: of a flat type,
/// whatever conversions are allowed.
pub proof fn law_written_read_back(
    h: HeldView,
    data: Seq<u8>,
    blocks: Seq<Seq<u8>>,
    conv: Conversion,
    attribute: bool,
)
    requires
        flat(h.dtype),
        h.counted(),
        data.len() == h.total() * h.dtype.size(),
        data.len() <= usize::MAX,
        narrow(h.dims) is Ok,
    ensures
        write_prepared(h, h.dtype, conv, data, blocks, h.total(), None, attribute) == Ok::<
            (Option<Seq<nat>>, (Seq<u8>, SinkView)),
            Seq<char>,
        >((None, (data, fresh(Seq::empty())))),
        elements_read(
            HeldView { data, vlen: Seq::empty(), ..h },
            h.dtype,
            conv,
            None,
            attribute,
        ) == Ok::<((Seq<u8>, SinkView), Seq<usize>, nat), Seq<char>>(
            (
                (data, fresh(Seq::empty())),
                narrow(h.dims)->Ok_0,
                h.total(),
            ),
        ),
{
    let t = h.dtype;
    lemma_flat_same(t);
    law_path_reflexive(t);
    lemma_elements_kept(
        Direction::ToFile,
        t,
        data,
        h.total(),
        Seq::empty(),
        blocks,
        fresh(Seq::empty()),
    );
    lemma_elements_kept(
        Direction::ToMemory,
        t,
        data,
        h.total(),
        Seq::empty(),
        Seq::empty(),
        fresh(Seq::empty()),
    );
    assert(Seq::<u8>::empty() + data =~= data);
}

/// Elements that were written as a whole are read back with the values that they had,
/// whatever conversions are allowed: each field of a compound, each text and each element
/// of a sequence. What stands between fields is not kept, and payloads are numbered anew.
pub proof fn law_values_read_back(
    h: HeldView,
    data: Seq<u8>,
    blocks: Seq<Seq<u8>>,
    conv: Conversion,
    attribute: bool,
    stored: (Seq<u8>, SinkView),
)
    requires
        apart(h.dtype),
        data.len() <= usize::MAX,
        in_memory(blocks),
        h.dtype.size() * h.total() <= data.len(),
        all_fit(cell_values(Direction::ToFile, h.dtype, data, h.total(), blocks), h.total()),
        write_prepared(h, h.dtype, conv, data, blocks, h.total(), None, attribute) == Ok::<
            (Option<Seq<nat>>, (Seq<u8>, SinkView)),
            Seq<char>,
        >((None, stored)),
        stored.1.blocks.len() < 0xffff_ffff,
    ensures
        elements_read(
            HeldView { data: stored.0, vlen: stored.1.blocks, ..h },
            h.dtype,
            conv,
            None,
            attribute,
        ) matches Ok((read, shape, count)) && count == h.total() && (read.1.blocks.len()
            < 0xffff_ffff ==> cell_values(
            Direction::ToFile,
            h.dtype,
            read.0,
            h.total(),
            read.1.blocks,
        ) == cell_values(Direction::ToFile, h.dtype, data, h.total(), blocks)),
{
    let t = h.dtype;
    let n = h.total();
    let none = Seq::<u8>::empty();
    let start = fresh(Seq::empty());
    law_values_kept(Direction::ToFile, t, data, n, none, blocks, start, stored.0, stored.1);
    assert(stored.0.skip(0) =~= stored.0);
    law_elements_converted(
        Direction::ToMemory,
        t,
        stored.0,
        n,
        none,
        stored.1.blocks,
        start,
        0,
        stored.1.blocks.len(),
    );
    let read = elements_converted(
        Direction::ToMemory,
        t,
        t,
        stored.0,
        n,
        none,
        stored.1.blocks,
        start,
    )->Ok_0;
    if read.1.blocks.len() < 0xffff_ffff {
        law_values_kept(
            Direction::ToMemory,
            t,
            stored.0,
            n,
            none,
            stored.1.blocks,
            start,
            read.0,
            read.1,
        );
        assert(read.0.skip(0) =~= read.0);
    }
}

/// Element `i` of some data.
pub open spec fn element(data: Seq<u8>, esize: nat, i: nat) -> Seq<u8> {
    data.subrange((i * esize) as int, ((i + 1) * esize) as int)
}

/// Whether the numbers from `k` on differ.
pub open spec fn differ(at: Seq<nat>, k: int) -> bool {
    forall|i: int, j: int| k <= i < j < at.len() ==> #[trigger] at[i] != #[trigger] at[j]
}

proof fn lemma_spans(esize: nat, i: nat, j: nat)
    ensures
        (i + 1) * esize == i * esize + esize,
        i < j ==> (i + 1) * esize <= j * esize,
{
    assert((i + 1) * esize == i * esize + esize) by (nonlinear_arith);
    if i < j {
        assert((i + 1) * esize <= j * esize) by (nonlinear_arith)
            requires
                i + 1 <= j,
        ;
    }
}

/// Replacing one element leaves the others as they were.
proof fn lemma_patched(data: Seq<u8>, esize: nat, i: nat, v: Seq<u8>, j: nat)
    requires
        v.len() == esize,
        (i + 1) * esize <= data.len(),
        (j + 1) * esize <= data.len(),
    ensures
        patched(data, (i * esize) as int, v).len() == data.len(),
        i == j ==> element(patched(data, (i * esize) as int, v), esize, j) == v,
        i != j ==> element(patched(data, (i * esize) as int, v), esize, j) == element(
            data,
            esize,
            j,
        ),
{
    lemma_spans(esize, i, j);
    lemma_spans(esize, j, i);
    let p = patched(data, (i * esize) as int, v);
    if i == j {
        assert(element(p, esize, j) =~= v);
    } else {
        assert(element(p, esize, j) =~= element(data, esize, j));
    }
}

/// After elements were replaced, each is what it was replaced by, and the others are
/// as they were.
proof fn lemma_replaced(data: Seq<u8>, esize: nat, at: Seq<nat>, bytes: Seq<u8>, k: int, j: nat)
    requires
        0 <= k <= at.len(),
        differ(at, k),
        bytes.len() == at.len() * esize,
        replaced_elements(data, esize, at, bytes, k) is Ok,
        (j + 1) * esize <= data.len(),
    ensures
        replaced_elements(data, esize, at, bytes, k)->Ok_0.len() == data.len(),
        forall|m: int|
            k <= m < at.len() && #[trigger] at[m] == j ==> element(
                replaced_elements(data, esize, at, bytes, k)->Ok_0,
                esize,
                j,
            ) == element(bytes, esize, m as nat),
        (forall|m: int| k <= m < at.len() ==> #[trigger] at[m] != j) ==> element(
            replaced_elements(data, esize, at, bytes, k)->Ok_0,
            esize,
            j,
        ) == element(data, esize, j),
    decreases at.len() - k,
{
    if k < at.len() {
        lemma_spans(esize, k as nat, at.len());
        let part = element(bytes, esize, k as nat);
        let next = patched(data, (at[k] * esize) as int, part);
        lemma_patched(data, esize, at[k], part, j);
        assert(bytes.subrange(k * esize as int, (k + 1) * esize as int) == part);
        lemma_replaced(next, esize, at, bytes, k + 1, j);
        let r = replaced_elements(data, esize, at, bytes, k)->Ok_0;
        assert forall|m: int| k <= m < at.len() && #[trigger] at[m] == j implies element(
            r,
            esize,
            j,
        ) == element(bytes, esize, m as nat) by {
            if m == k {
                assert forall|i: int| k + 1 <= i < at.len() implies #[trigger] at[i] != j by {
                    assert(at[k] != at[i]);
                }
            }
        }
    }
}

/// All elements that were replaced lie within the data.
proof fn lemma_replaced_in(data: Seq<u8>, esize: nat, at: Seq<nat>, bytes: Seq<u8>, k: int, m: int)
    requires
        0 <= k <= m < at.len(),
        bytes.len() == at.len() * esize,
        replaced_elements(data, esize, at, bytes, k) is Ok,
    ensures
        (at[m] + 1) * esize <= data.len(),
    decreases m - k,
{
    lemma_spans(esize, k as nat, at.len());
    if k < m {
        let part = element(bytes, esize, k as nat);
        lemma_patched(data, esize, at[k], part, at[k]);
        lemma_replaced_in(
            patched(data, (at[k] * esize) as int, part),
            esize,
            at,
            bytes,
            k + 1,
            m,
        );
    }
}

proof fn lemma_taken_back(
    data: Seq<u8>,
    esize: nat,
    at: Seq<nat>,
    bytes: Seq<u8>,
    r: Seq<u8>,
    k: int,
    acc: Seq<u8>,
)
    requires
        0 <= k <= at.len(),
        differ(at, 0),
        bytes.len() == at.len() * esize,
        replaced_elements(data, esize, at, bytes, 0) == Ok::<Seq<u8>, Seq<char>>(r),
        acc == bytes.take(k * esize as int),
    ensures
        taken(r, esize, at, k, acc) == Ok::<Seq<u8>, Seq<char>>(bytes),
    decreases at.len() - k,
{
    lemma_spans(esize, k as nat, at.len());
    if k < at.len() {
        lemma_replaced_in(data, esize, at, bytes, 0, k);
        lemma_replaced(data, esize, at, bytes, 0, at[k]);
        let next = acc + element(r, esize, at[k]);
        assert(next =~= bytes.take((k + 1) * esize as int)) by {
            assert(element(r, esize, at[k]) == element(bytes, esize, k as nat));
            assert(0 <= k * esize as int) by (nonlinear_arith)
                requires
                    k >= 0,
            ;
        }
        lemma_taken_back(data, esize, at, bytes, r, k + 1, next);
    } else {
        assert(bytes.take(bytes.len() as int) =~= bytes);
    }
}

/// The elements that were written to some places, none of them twice, are what is
/// found there afterwards.
pub proof fn law_placed_taken(data: Seq<u8>, esize: nat, at: Seq<nat>, bytes: Seq<u8>)
    requires
        differ(at, 0),
        bytes.len() == at.len() * esize,
        replaced_elements(data, esize, at, bytes, 0) is Ok,
    ensures
        taken(
            replaced_elements(data, esize, at, bytes, 0)->Ok_0,
            esize,
            at,
            0,
            Seq::empty(),
        ) == Ok::<Seq<u8>, Seq<char>>(bytes),
{
    assert(0 * esize == 0) by (nonlinear_arith);
    assert(bytes.take(0) =~= Seq::empty());
    lemma_taken_back(
        data,
        esize,
        at,
        bytes,
        replaced_elements(data, esize, at, bytes, 0)->Ok_0,
        0,
        Seq::empty(),
    );
}

/// Elements that are written nowhere stay as they were.
pub proof fn law_others_kept(data: Seq<u8>, esize: nat, at: Seq<nat>, bytes: Seq<u8>, j: nat)
    requires
        differ(at, 0),
        bytes.len() == at.len() * esize,
        replaced_elements(data, esize, at, bytes, 0) is Ok,
        (j + 1) * esize <= data.len(),
        forall|m: int| 0 <= m < at.len() ==> #[trigger] at[m] != j,
    ensures
        element(replaced_elements(data, esize, at, bytes, 0)->Ok_0, esize, j) == element(
            data,
            esize,
            j,
        ),
{
    lemma_replaced(data, esize, at, bytes, 0, j);
}

/// Each element that is written stands where it was written to.
pub proof fn law_placed(data: Seq<u8>, esize: nat, at: Seq<nat>, bytes: Seq<u8>, m: int)
    requires
        differ(at, 0),
        bytes.len() == at.len() * esize,
        replaced_elements(data, esize, at, bytes, 0) is Ok,
        0 <= m < at.len(),
    ensures
        replaced_elements(data, esize, at, bytes, 0)->Ok_0.len() == data.len(),
        element(replaced_elements(data, esize, at, bytes, 0)->Ok_0, esize, at[m]) == element(
            bytes,
            esize,
            m as nat,
        ),
{
    lemma_replaced_in(data, esize, at, bytes, 0, m);
    lemma_replaced(data, esize, at, bytes, 0, at[m]);
}

proof fn lemma_taken(data: Seq<u8>, esize: nat, at: Seq<nat>, k: int, acc: Seq<u8>)
    requires
        0 <= k <= at.len(),
        acc.len() == k * esize,
    ensures
        taken(data, esize, at, k, acc) is Ok <==> forall|m: int|
            k <= m < at.len() ==> (#[trigger] at[m] + 1) * esize <= data.len(),
        taken(data, esize, at, k, acc) matches Ok(r) ==> r.len() == at.len() * esize && r.take(
            acc.len() as int,
        ) == acc && forall|m: int|
            k <= m < at.len() ==> element(r, esize, m as nat) == element(data, esize, #[trigger] at[m]),
    decreases at.len() - k,
{
    if k == at.len() {
        assert(acc.take(acc.len() as int) =~= acc);
    } else {
        lemma_spans(esize, k as nat, at.len());
        lemma_spans(esize, at[k], at[k]);
        if (at[k] + 1) * esize <= data.len() {
            assert(at[k] * esize >= 0) by (nonlinear_arith);
            let part = element(data, esize, at[k]);
            let next = acc + part;
            lemma_taken(data, esize, at, k + 1, next);
            if let Ok(r) = taken(data, esize, at, k, acc) {
                assert(r.take(acc.len() as int) =~= acc) by {
                    assert(r.take(next.len() as int) == next);
                    assert forall|i: int| 0 <= i < acc.len() implies r[i] == acc[i] by {
                        assert(r.take(next.len() as int)[i] == next[i]);
                    }
                }
                assert(element(r, esize, k as nat) =~= part) by {
                    assert forall|i: int| 0 <= i < esize implies r[acc.len() + i] == part[i] by {
                        assert(r.take(next.len() as int)[acc.len() + i] == next[acc.len() + i]);
                    }
                }
            }
        }
    }
}

/// The elements that are taken are those with the given numbers, in that order; they are
/// refused where one of them lies beyond the data.
pub proof fn law_taken(data: Seq<u8>, esize: nat, at: Seq<nat>)
    ensures
        taken(data, esize, at, 0, Seq::empty()) is Ok <==> forall|m: int|
            0 <= m < at.len() ==> (#[trigger] at[m] + 1) * esize <= data.len(),
        taken(data, esize, at, 0, Seq::empty()) matches Ok(r) ==> r.len() == at.len() * esize
            && forall|m: int|
            0 <= m < at.len() ==> element(r, esize, m as nat) == element(data, esize, #[trigger] at[m]),
{
    assert(0 * esize == 0) by (nonlinear_arith);
    lemma_taken(data, esize, at, 0, Seq::empty());
}

/// A part of a dataset that is read holds the selected elements, in their order: of a
/// flat type, whatever conversions are allowed.
pub proof fn law_selection_read(
    h: HeldView,
    conv: Conversion,
    sel: SelectionView,
    at: Seq<nat>,
    shape: Seq<usize>,
)
    requires
        flat(h.dtype),
        narrow(h.dims) == Ok::<Seq<usize>, Seq<char>>(shape),
        sel.shape_out(shape) is Ok,
        sel.raw(shape) is Ok,
        indices(sel.raw(shape)->Ok_0, shape) == Ok::<Seq<nat>, Seq<char>>(at),
        forall|m: int|
            0 <= m < at.len() ==> (#[trigger] at[m] + 1) * h.dtype.size() <= h.data.len(),
        at.len() * h.dtype.size() <= usize::MAX,
    ensures
        elements_read(h, h.dtype, conv, Some(sel), false) matches Ok((read, out, n)) && n
            == at.len() && Ok::<Seq<usize>, Seq<char>>(out) == sel.shape_out(shape) && read.1
            == fresh(Seq::empty()) && read.0.len() == at.len() * h.dtype.size() && forall|m: int|
            0 <= m < at.len() ==> element(read.0, h.dtype.size(), m as nat) == element(
                h.data,
                h.dtype.size(),
                #[trigger] at[m],
            ),
{
    let t = h.dtype;
    lemma_flat_same(t);
    law_path_reflexive(t);
    law_taken(h.data, t.size(), at);
    let bytes = taken(h.data, t.size(), at, 0, Seq::empty())->Ok_0;
    lemma_elements_kept(
        Direction::ToMemory,
        t,
        bytes,
        at.len(),
        Seq::empty(),
        h.vlen,
        fresh(Seq::empty()),
    );
    assert(Seq::<u8>::empty() + bytes =~= bytes);
}

} // verus!
