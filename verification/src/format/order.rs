//! Turning big-endian elements into little-endian ones.

use vstd::prelude::*;

use crate::format::convert::{payloads, place, VlenStore};
use crate::format::datatype::{lemma_part_views, part_views, reversed, OrderTree, OrderView};
use crate::format::{le_at, uint_of};

verus! {

/// An element and its side store.
pub type Stored = (Seq<u8>, Seq<Seq<u8>>);

/// An element in file layout, whose variable-length payloads stand in `store`, with
/// its big-endian components turned around.
pub open spec fn ordered_element(order: OrderView, elem: Seq<u8>, store: Seq<Seq<u8>>) -> Stored
    decreases order, 0nat,
{
    match order {
        OrderView::Plain => (elem, store),
        OrderView::SwapLeaf(w) => if w <= elem.len() {
            (elem.take(w as int).reverse() + elem.skip(w as int), store)
        } else {
            (elem, store)
        },
        OrderView::Compound(parts) => ordered_parts(parts, 0, elem, store),
        OrderView::Array { n, stride, inner } => if stride == 0 {
            (elem, store)
        } else {
            ordered_cells(*inner, stride, n, elem, store)
        },
        OrderView::VarLen { base_stride, inner } => {
            let idx = le_at(elem, 4, 4) as int;
            if elem.len() >= 8 && 1 <= idx <= store.len() && base_stride > 0 {
                let entry = store[idx - 1];
                let (turned, after) = ordered_cells(
                    *inner,
                    base_stride,
                    entry.len(),
                    entry,
                    store.update(idx - 1, Seq::empty()),
                );
                (elem, after.update(idx - 1, turned))
            } else {
                (elem, store)
            }
        },
    }
}

/// The same for the parts `parts[j]` on of a compound.
pub open spec fn ordered_parts(
    parts: Seq<(nat, OrderView)>,
    j: int,
    elem: Seq<u8>,
    store: Seq<Seq<u8>>,
) -> Stored
    decreases parts, (parts.len() - j) as nat,
{
    if j < 0 || j >= parts.len() {
        (elem, store)
    } else {
        let off = parts[j].0 as int;
        if off < elem.len() {
            let (tail, after) = ordered_element(parts[j].1, elem.skip(off), store);
            ordered_parts(parts, j + 1, elem.take(off) + tail, after)
        } else {
            ordered_parts(parts, j + 1, elem, store)
        }
    }
}

/// The same for at most `n` cells of `stride` bytes, as many as there are.
pub open spec fn ordered_cells(
    inner: OrderView,
    stride: nat,
    n: nat,
    elem: Seq<u8>,
    store: Seq<Seq<u8>>,
) -> Stored
    decreases inner, n + 1,
{
    if n == 0 || elem.len() < stride {
        (elem, store)
    } else {
        let (cell, after) = ordered_element(inner, elem.take(stride as int), store);
        let (rest, last) = ordered_cells(
            inner,
            stride,
            (n - 1) as nat,
            elem.skip(stride as int),
            after,
        );
        (cell + rest, last)
    }
}

proof fn lemma_ordered_len(order: OrderView, elem: Seq<u8>, store: Seq<Seq<u8>>)
    ensures
        ordered_element(order, elem, store).0.len() == elem.len(),
        ordered_element(order, elem, store).1.len() == store.len(),
    decreases order, 0nat,
{
    match order {
        OrderView::Plain => {},
        OrderView::SwapLeaf(w) => {},
        OrderView::Compound(parts) => {
            lemma_parts_len(parts, 0, elem, store);
        },
        OrderView::Array { n, stride, inner } => {
            if stride > 0 {
                lemma_cells_len(*inner, stride, n, elem, store);
            }
        },
        OrderView::VarLen { base_stride, inner } => {
            let idx = le_at(elem, 4, 4) as int;
            if elem.len() >= 8 && 1 <= idx <= store.len() && base_stride > 0 {
                let entry = store[idx - 1];
                lemma_cells_len(
                    *inner,
                    base_stride,
                    entry.len(),
                    entry,
                    store.update(idx - 1, Seq::empty()),
                );
            }
        },
    }
}

proof fn lemma_parts_len(
    parts: Seq<(nat, OrderView)>,
    j: int,
    elem: Seq<u8>,
    store: Seq<Seq<u8>>,
)
    ensures
        ordered_parts(parts, j, elem, store).0.len() == elem.len(),
        ordered_parts(parts, j, elem, store).1.len() == store.len(),
    decreases parts, (parts.len() - j) as nat,
{
    if 0 <= j < parts.len() {
        let off = parts[j].0 as int;
        if off < elem.len() {
            assert(decreases_to!(parts[j] => parts[j].1));
            lemma_ordered_len(parts[j].1, elem.skip(off), store);
            let (tail, after) = ordered_element(parts[j].1, elem.skip(off), store);
            lemma_parts_len(parts, j + 1, elem.take(off) + tail, after);
        } else {
            lemma_parts_len(parts, j + 1, elem, store);
        }
    }
}

pub proof fn lemma_cells_len(
    inner: OrderView,
    stride: nat,
    n: nat,
    elem: Seq<u8>,
    store: Seq<Seq<u8>>,
)
    ensures
        ordered_cells(inner, stride, n, elem, store).0.len() == elem.len(),
        ordered_cells(inner, stride, n, elem, store).1.len() == store.len(),
    decreases inner, n + 1,
{
    if n > 0 && elem.len() >= stride {
        lemma_ordered_len(inner, elem.take(stride as int), store);
        let (cell, after) = ordered_element(inner, elem.take(stride as int), store);
        lemma_cells_len(inner, stride, (n - 1) as nat, elem.skip(stride as int), after);
    }
}

fn join_bytes(a: Vec<u8>, b: Vec<u8>) -> (r: Vec<u8>)
    ensures
        r@ == a@ + b@,
{
    let mut r = a;
    let mut t = b;
    r.append(&mut t);
    r
}

fn copy_range(s: &[u8], from: usize, to: usize) -> (r: Vec<u8>)
    requires
        from <= to <= s@.len(),
    ensures
        r@ == s@.subrange(from as int, to as int),
{
    vstd::slice::slice_to_vec(vstd::slice::slice_subrange(s, from, to))
}

pub(crate) fn order_cells(
    inner: &OrderTree,
    stride: usize,
    n: usize,
    elem: Vec<u8>,
    store: &mut VlenStore,
) -> (r: Vec<u8>)
    requires
        stride > 0,
    ensures
        (r@, payloads(final(store)@)) == ordered_cells(
            inner@,
            stride as nat,
            n as nat,
            elem@,
            payloads(old(store)@),
        ),
    decreases inner, 1nat,
{
    let total: usize = elem.len();
    let ghost whole = ordered_cells(
        inner@,
        stride as nat,
        n as nat,
        elem@,
        payloads(store@),
    );
    let mut out: Vec<u8> = Vec::new();
    let mut at: usize = 0;
    let mut i: usize = 0;
    assert(elem@.skip(0) =~= elem@);
    assert(out@ + whole.0 =~= whole.0);
    while i < n && total - at >= stride
        invariant
            stride > 0,
            i <= n,
            at <= total == elem@.len(),
            whole == ordered_cells(
                inner@,
                stride as nat,
                n as nat,
                elem@,
                payloads(old(store)@),
            ),
            whole.0 == out@ + ordered_cells(
                inner@,
                stride as nat,
                (n - i) as nat,
                elem@.skip(at as int),
                payloads(store@),
            ).0,
            whole.1 == ordered_cells(
                inner@,
                stride as nat,
                (n - i) as nat,
                elem@.skip(at as int),
                payloads(store@),
            ).1,
        decreases n - i,
    {
        let ghost rest = elem@.skip(at as int);
        let ghost st = payloads(store@);
        let part = copy_range(elem.as_slice(), at, at + stride);
        proof {
            assert(part@ =~= rest.take(stride as int));
            assert(rest.skip(stride as int) =~= elem@.skip(at + stride));
        }
        let ghost before = out@;
        let mut cell = apply_order(inner, part, store);
        let ghost c = cell@;
        out.append(&mut cell);
        at = at + stride;
        i += 1;
        proof {
            let tail = ordered_cells(
                inner@,
                stride as nat,
                (n - i) as nat,
                elem@.skip(at as int),
                payloads(store@),
            );
            assert(before + (c + tail.0) =~= (before + c) + tail.0);
        }
    }
    let mut tail = copy_range(elem.as_slice(), at, total);
    assert(tail@ =~= elem@.skip(at as int));
    out.append(&mut tail);
    out
}

fn order_parts(parts: &Vec<(usize, OrderTree)>, elem: Vec<u8>, store: &mut VlenStore) -> (r: Vec<u8>)
    ensures
        (r@, payloads(final(store)@)) == ordered_parts(
            part_views(parts@),
            0,
            elem@,
            payloads(old(store)@),
        ),
    decreases parts@, 1nat,
{
    let ghost views = part_views(parts@);
    proof {
        lemma_part_views(parts@);
    }
    let n: usize = parts.len();
    let ghost whole = ordered_parts(views, 0, elem@, payloads(store@));
    let mut cur: Vec<u8> = elem;
    let mut j: usize = 0;
    while j < n
        invariant
            j <= n == parts@.len() == views.len(),
            views == part_views(parts@),
            forall|k: int|
                0 <= k < n ==> #[trigger] views[k] == (
                    parts@[k].0 as nat,
                    parts@[k].1.model(),
                ),
            whole == ordered_parts(views, 0, elem@, payloads(old(store)@)),
            whole == ordered_parts(views, j as int, cur@, payloads(store@)),
        decreases n - j,
    {
        let part = &parts[j];
        let total: usize = cur.len();
        assert(views[j as int] == (part.0 as nat, part.1.model()));
        if part.0 < total {
            let head = copy_range(cur.as_slice(), 0, part.0);
            let tail = copy_range(cur.as_slice(), part.0, total);
            proof {
                assert(head@ =~= cur@.take(part.0 as int));
                assert(tail@ =~= cur@.skip(part.0 as int));
                assert(decreases_to!(parts@ => parts@[j as int]));
                assert(decreases_to!(parts@[j as int] => parts@[j as int].1));
            }
            let turned = apply_order(&part.1, tail, store);
            cur = join_bytes(head, turned);
        }
        j += 1;
    }
    cur
}

/// Turns the big-endian components of an element around. Payloads in the side store
/// are turned in place.
pub fn apply_order(order: &OrderTree, elem: Vec<u8>, store: &mut VlenStore) -> (r: Vec<u8>)
    ensures
        (r@, payloads(final(store)@)) == ordered_element(
            order@,
            elem@,
            payloads(old(store)@),
        ),
    decreases order, 0nat,
{
    match order {
        OrderTree::Plain => elem,
        OrderTree::SwapLeaf(w) => {
            let total: usize = elem.len();
            if *w <= total {
                let head = reversed(vstd::slice::slice_subrange(elem.as_slice(), 0, *w));
                let tail = copy_range(elem.as_slice(), *w, total);
                proof {
                    assert(elem@.subrange(0, *w as int) =~= elem@.take(*w as int));
                    assert(tail@ =~= elem@.skip(*w as int));
                }
                join_bytes(head, tail)
            } else {
                elem
            }
        },
        OrderTree::Compound(parts) => {
            assert(decreases_to!(order => parts@)) by {
                assert(decreases_to!(parts => parts@));
                assert(decreases_to!(*order => order->Compound_0));
            }
            order_parts(parts, elem, store)
        },
        OrderTree::Array { n, stride, inner } => {
            if *stride == 0 {
                elem
            } else {
                order_cells(inner, *stride, *n, elem, store)
            }
        },
        OrderTree::VarLen { base_stride, inner } => {
            if elem.len() < 8 || *base_stride == 0 {
                return elem;
            }
            let idx: u64 = uint_of(vstd::slice::slice_subrange(elem.as_slice(), 4, 8));
            let n: usize = store.len();
            if idx < 1 || idx > n as u64 {
                return elem;
            }
            let at: usize = (idx - 1) as usize;
            let ghost st = payloads(store@);
            assert(st[at as int] == store@[at as int]@);
            let entry = copy_range(store[at].as_slice(), 0, store[at].len());
            assert(entry@ =~= st[at as int]);
            let empty: Vec<u8> = Vec::new();
            store.set(at, empty);
            assert(payloads(store@) =~= st.update(at as int, Seq::empty()));
            let size: usize = entry.len();
            proof {
                lemma_cells_len(
                    inner@,
                    *base_stride as nat,
                    size as nat,
                    entry@,
                    payloads(store@),
                );
            }
            let turned = order_cells(inner, *base_stride, size, entry, store);
            let ghost after = payloads(store@);
            assert(after.len() == store@.len());
            store.set(at, turned);
            assert(payloads(store@) =~= after.update(at as int, turned@));
            elem
        },
    }
}

/// Turning a scalar around twice gives it back.
pub proof fn law_swap_twice(w: nat, elem: Seq<u8>, store: Seq<Seq<u8>>)
    ensures
        ordered_element(
            OrderView::SwapLeaf(w),
            ordered_element(OrderView::SwapLeaf(w), elem, store).0,
            store,
        ).0 == elem,
{
    if w <= elem.len() {
        let head = elem.take(w as int);
        let tail = elem.skip(w as int);
        let once = head.reverse() + tail;
        assert(once.take(w as int) =~= head.reverse());
        assert(once.skip(w as int) =~= tail);
        assert(head.reverse().reverse() =~= head);
        assert(head + tail =~= elem);
    }
}

} // verus!
