//! Cutting an array into chunks and putting the chunks back gives the array.

use vstd::prelude::*;

use crate::format::chunk_index::{chunk_corner, chunk_counts, has_zero};
use crate::format::chunks::{
    chunk_number, gathered, in_chunk, lemma_chunk_number, lemma_element_bound, local, moved,
    scattered,
};
use crate::format::grid::{
    coords_of, count, law_coords_of_number, law_number_of_coords, lemma_number_bound, number_of,
    within,
};
use crate::format::zeroes;

verus! {

/// The array `out` after the chunks from the number `i` of `n` on, cut out of the
/// array `data`, were put in their places.
pub open spec fn tiled(
    data: Seq<u8>,
    dims: Seq<u64>,
    cdims: Seq<u64>,
    size: nat,
    i: nat,
    n: nat,
    out: Seq<u8>,
) -> Seq<u8>
    decreases n - i,
{
    if i >= n {
        out
    } else {
        let at = chunk_corner(dims, cdims, i);
        tiled(
            data,
            dims,
            cdims,
            size,
            i + 1,
            n,
            scattered(out, gathered(data, dims, cdims, at, size), dims, cdims, at, size),
        )
    }
}

/// The number of the chunk in which an element lies.
spec fn chunk_of(dims: Seq<u64>, cdims: Seq<u64>, e: nat) -> nat {
    number_of(chunk_counts(dims, cdims), quotients(coords_of(dims, e), cdims))
}

/// Coordinates counted in chunks.
pub open spec fn quotients(c: Seq<nat>, cdims: Seq<u64>) -> Seq<nat> {
    Seq::new(
        c.len(),
        |k: int|
            if cdims[k] == 0 {
                0
            } else {
                c[k] / cdims[k] as nat
            },
    )
}

proof fn lemma_chunk_of(dims: Seq<u64>, cdims: Seq<u64>, e: nat)
    requires
        cdims.len() == dims.len(),
        !has_zero(cdims),
        e < count(dims),
    ensures
        chunk_of(dims, cdims, e) < count(chunk_counts(dims, cdims)),
        in_chunk(
            cdims,
            chunk_corner(dims, cdims, chunk_of(dims, cdims, e)),
            coords_of(dims, e),
        ),
{
    let c = coords_of(dims, e);
    let counts = chunk_counts(dims, cdims);
    law_number_of_coords(dims, e);
    let q = quotients(c, cdims);
    assert forall|k: int| 0 <= k < counts.len() implies #[trigger] q[k] < counts[k] by {
        assert(c[k] < dims[k]);
        assert(cdims[k] != 0);
        let (x, b, d) = (c[k] as int, cdims[k] as int, dims[k] as int);
        assert(x / b <= (d - 1) / b && (d - 1) / b <= d - 1) by (nonlinear_arith)
            requires
                0 <= x <= d - 1,
                b >= 1,
        ;
        assert(q[k] == x / b);
        assert(counts[k] == (d - 1) / b + 1);
    }
    assert(within(counts, q));
    law_coords_of_number(counts, q);
    lemma_number_bound(counts, q);
    let at = chunk_corner(dims, cdims, chunk_of(dims, cdims, e));
    assert forall|k: int| 0 <= k < c.len() implies at[k] <= #[trigger] c[k] < at[k] + cdims[k] by {
        assert(cdims[k] != 0);
        assert(c[k] < dims[k]);
        let (x, b) = (c[k] as int, cdims[k] as int);
        assert(0 <= (x / b) * b <= x < (x / b) * b + b) by (nonlinear_arith)
            requires
                x >= 0,
                b >= 1,
        ;
        assert(q[k] * cdims[k] == (x / b) * b);
    }
}

/// The bytes of an element in the chunk that was cut out are its bytes.
proof fn lemma_gathered(
    data: Seq<u8>,
    dims: Seq<u64>,
    cdims: Seq<u64>,
    at: Seq<u64>,
    size: nat,
    p: int,
)
    requires
        at.len() == dims.len(),
        cdims.len() == dims.len(),
        size > 0,
        data.len() == count(dims) * size,
        0 <= p < data.len(),
    ensures
        chunk_number(dims, cdims, at, (p / size as int) as nat) matches Some(l) ==> gathered(
            data,
            dims,
            cdims,
            at,
            size,
        )[l * size + p % size as int] == data[p],
{
    let e = (p / size as int) as nat;
    lemma_element_bound(p, size as int, count(dims) as int);
    match chunk_number(dims, cdims, at, e) {
        None => {},
        Some(l) => {
            lemma_chunk_bound(dims, cdims, at, e);
            lemma_chunk_number(dims, cdims, at, e, l);
            let g = moved(at, coords_of(cdims, l));
            let b = p % size as int;
            let q = l * size + b;
            let n = count(cdims);
            assert(0 <= q < n * size && q / size as int == l && q % size as int == b)
                by (nonlinear_arith)
                requires
                    size > 0,
                    0 <= b < size,
                    q == l * size + b,
                    l + 1 <= n,
            ;
            assert((e + 1) * size <= count(dims) * size) by (nonlinear_arith)
                requires
                    e + 1 <= count(dims),
            ;
        },
    }
}

proof fn lemma_chunk_bound(dims: Seq<u64>, cdims: Seq<u64>, at: Seq<u64>, e: nat)
    requires
        at.len() == dims.len(),
        cdims.len() == dims.len(),
        e < count(dims),
    ensures
        chunk_number(dims, cdims, at, e) matches Some(l) ==> l < count(cdims),
{
    let c = coords_of(dims, e);
    law_number_of_coords(dims, e);
    if in_chunk(cdims, at, c) {
        let m = local(at, c);
        assert(within(cdims, m)) by {
            assert forall|k: int| 0 <= k < cdims.len() implies #[trigger] m[k] < cdims[k] by {
                assert(at[k] <= c[k] < at[k] + cdims[k]);
            }
        }
        lemma_number_bound(cdims, m);
    }
}

proof fn lemma_tiled(
    data: Seq<u8>,
    dims: Seq<u64>,
    cdims: Seq<u64>,
    size: nat,
    i: nat,
    out: Seq<u8>,
)
    requires
        cdims.len() == dims.len(),
        !has_zero(cdims),
        size > 0,
        data.len() == count(dims) * size,
        out.len() == data.len(),
        i <= count(chunk_counts(dims, cdims)),
        forall|p: int|
            0 <= p < data.len() && chunk_of(dims, cdims, (p / size as int) as nat) < i ==> #[trigger] out[p]
                == data[p],
    ensures
        tiled(data, dims, cdims, size, i, count(chunk_counts(dims, cdims)), out) == data,
    decreases count(chunk_counts(dims, cdims)) - i,
{
    let n = count(chunk_counts(dims, cdims));
    if i < n {
        let at = chunk_corner(dims, cdims, i);
        let next = scattered(out, gathered(data, dims, cdims, at, size), dims, cdims, at, size);
        assert forall|p: int|
            0 <= p < data.len() && chunk_of(dims, cdims, (p / size as int) as nat) < i
                + 1 implies #[trigger] next[p] == data[p] by {
            lemma_element_bound(p, size as int, count(dims) as int);
            lemma_chunk_of(dims, cdims, (p / size as int) as nat);
            lemma_gathered(data, dims, cdims, at, size, p);
            assert(out[p] == out[p]);
        }
        lemma_tiled(data, dims, cdims, size, i + 1, next);
    } else {
        assert forall|p: int| 0 <= p < data.len() implies out[p] == data[p] by {
            lemma_element_bound(p, size as int, count(dims) as int);
            lemma_chunk_of(dims, cdims, (p / size as int) as nat);
        }
        assert(out =~= data);
    }
}

/// An array that was cut into chunks, which were then put in their places in an empty
/// array of the same dimensions, is unchanged.
pub proof fn law_chunks_restore_array(data: Seq<u8>, dims: Seq<u64>, cdims: Seq<u64>, size: nat)
    requires
        cdims.len() == dims.len(),
        !has_zero(cdims),
        size > 0,
        data.len() == count(dims) * size,
    ensures
        tiled(
            data,
            dims,
            cdims,
            size,
            0,
            count(chunk_counts(dims, cdims)),
            zeroes(data.len()),
        ) == data,
{
    lemma_tiled(data, dims, cdims, size, 0, zeroes(data.len()));
}

/// There are as few chunks along a dimension as cover it, and one at least.
pub proof fn law_chunk_counts(dims: Seq<u64>, cdims: Seq<u64>, k: int)
    requires
        cdims.len() == dims.len(),
        !has_zero(cdims),
        0 <= k < dims.len(),
    ensures
        chunk_counts(dims, cdims).len() == dims.len(),
        chunk_counts(dims, cdims)[k] >= 1,
        dims[k] <= chunk_counts(dims, cdims)[k] * cdims[k],
        chunk_counts(dims, cdims)[k] > 1 ==> (chunk_counts(dims, cdims)[k] - 1) * cdims[k]
            < dims[k],
{
    assert(cdims[k] != 0);
    let (d, b) = (dims[k] as int, cdims[k] as int);
    if d > 0 {
        let q = (d - 1) / b;
        assert(0 <= q <= d - 1 && q * b <= d - 1 < (q + 1) * b) by (nonlinear_arith)
            requires
                q == (d - 1) / b,
                b >= 1,
                d >= 1,
        ;
    }
}

/// Offsets counted in chunks.
pub open spec fn in_chunks(at: Seq<u64>, cdims: Seq<u64>) -> Seq<nat> {
    Seq::new(
        at.len(),
        |k: int|
            if cdims[k] == 0 {
                0
            } else {
                at[k] as nat / cdims[k] as nat
            },
    )
}

/// Whether offsets are those of the chunk number `i`: each is a multiple of the size of a
/// chunk, and counted in chunks they are the coordinates of `i` in the grid of chunks.
pub open spec fn places_chunk(dims: Seq<u64>, cdims: Seq<u64>, at: Seq<u64>, i: nat) -> bool {
    &&& at.len() == dims.len()
    &&& forall|k: int| 0 <= k < at.len() ==> (#[trigger] at[k]) as nat % cdims[k] as nat == 0
    &&& within(chunk_counts(dims, cdims), in_chunks(at, cdims))
    &&& number_of(chunk_counts(dims, cdims), in_chunks(at, cdims)) == i
}

/// The corner of a chunk is where its number says.
pub proof fn law_corner_placed(dims: Seq<u64>, cdims: Seq<u64>, i: nat)
    requires
        cdims.len() == dims.len(),
        !has_zero(cdims),
        i < count(chunk_counts(dims, cdims)),
    ensures
        places_chunk(dims, cdims, chunk_corner(dims, cdims, i), i),
        forall|k: int|
            0 <= k < dims.len() && dims[k] > 0 ==> #[trigger] chunk_corner(dims, cdims, i)[k]
                < dims[k],
{
    let counts = chunk_counts(dims, cdims);
    let c = coords_of(counts, i);
    let at = chunk_corner(dims, cdims, i);
    law_number_of_coords(counts, i);
    assert forall|k: int| 0 <= k < dims.len() implies at[k] == c[k] * cdims[k] && (
    #[trigger] at[k]) as nat % cdims[k] as nat == 0 && at[k] as nat / cdims[k] as nat == c[k] && (
    dims[k] > 0 ==> at[k] < dims[k]) by {
        assert(cdims[k] != 0);
        assert(c[k] < counts[k]);
        law_chunk_counts(dims, cdims, k);
        let (x, b, n, d) = (c[k] as int, cdims[k] as int, counts[k] as int, dims[k] as int);
        assert(0 <= x * b <= (n - 1) * b) by (nonlinear_arith)
            requires
                0 <= x <= n - 1,
                b >= 1,
        ;
        assert(n == 1 ==> (n - 1) * b == 0) by (nonlinear_arith);
        assert((x * b) % b == 0 && (x * b) / b == x) by (nonlinear_arith)
            requires
                b >= 1,
        ;
    }
    assert forall|k: int| 0 <= k < c.len() implies in_chunks(at, cdims)[k] == c[k] by {
        assert(at[k] as nat / cdims[k] as nat == c[k]);
    }
    assert(in_chunks(at, cdims) =~= c);
}

/// Offsets tell chunks apart.
pub proof fn law_placed_once(
    dims: Seq<u64>,
    cdims: Seq<u64>,
    a: Seq<u64>,
    b: Seq<u64>,
    i: nat,
    j: nat,
)
    requires
        cdims.len() == dims.len(),
        !has_zero(cdims),
        places_chunk(dims, cdims, a, i),
        places_chunk(dims, cdims, b, j),
    ensures
        a == b <==> i == j,
{
    if i == j {
        let counts = chunk_counts(dims, cdims);
        law_coords_of_number(counts, in_chunks(a, cdims));
        law_coords_of_number(counts, in_chunks(b, cdims));
        assert forall|k: int| 0 <= k < a.len() implies a[k] == b[k] by {
            assert(cdims[k] != 0);
            assert(in_chunks(a, cdims)[k] == in_chunks(b, cdims)[k]);
            assert(a[k] as nat % cdims[k] as nat == 0 && b[k] as nat % cdims[k] as nat == 0);
            let (x, y, d) = (a[k] as int, b[k] as int, cdims[k] as int);
            assert(x / d >= 0 && y / d >= 0) by (nonlinear_arith)
                requires
                    x >= 0,
                    y >= 0,
                    d >= 1,
            ;
            assert(x == y) by (nonlinear_arith)
                requires
                    x / d == y / d,
                    x % d == 0,
                    y % d == 0,
                    d >= 1,
            ;
        }
        assert(a =~= b);
    }
}

/// The remainders of coordinates in their chunks.
pub open spec fn chunk_rest(c: Seq<nat>, cdims: Seq<u64>) -> Seq<nat> {
    Seq::new(
        c.len(),
        |k: int|
            if cdims[k] == 0 {
                0
            } else {
                c[k] % cdims[k] as nat
            },
    )
}

/// The corner of the chunk of an element, and its place there.
proof fn lemma_place(dims: Seq<u64>, cdims: Seq<u64>, c: Seq<nat>)
    requires
        cdims.len() == dims.len(),
        !has_zero(cdims),
        within(dims, c),
    ensures
        ({
            let counts = chunk_counts(dims, cdims);
            let i = number_of(counts, quotients(c, cdims));
            let at = chunk_corner(dims, cdims, i);
            &&& within(counts, quotients(c, cdims))
            &&& i < count(counts)
            &&& within(cdims, chunk_rest(c, cdims))
            &&& moved(at, chunk_rest(c, cdims)) == c
            &&& local(at, c) == chunk_rest(c, cdims)
            &&& in_chunk(cdims, at, c)
        }),
{
    let counts = chunk_counts(dims, cdims);
    let q = quotients(c, cdims);
    let r = chunk_rest(c, cdims);
    assert forall|k: int| 0 <= k < counts.len() implies #[trigger] q[k] < counts[k] by {
        assert(cdims[k] != 0);
        assert(c[k] < dims[k]);
        law_chunk_counts(dims, cdims, k);
        let (x, b, n) = (c[k] as int, cdims[k] as int, counts[k] as int);
        assert(0 <= x / b < n) by (nonlinear_arith)
            requires
                0 <= x < n * b,
                b >= 1,
        ;
    }
    law_coords_of_number(counts, q);
    lemma_number_bound(counts, q);
    let at = chunk_corner(dims, cdims, number_of(counts, q));
    law_corner_placed(dims, cdims, number_of(counts, q));
    assert forall|k: int| 0 <= k < dims.len() implies at[k] + r[k] == c[k] && #[trigger] r[k]
        < cdims[k] && at[k] <= c[k] < at[k] + cdims[k] by {
        assert(cdims[k] != 0);
        assert(c[k] < dims[k]);
        let (x, b) = (c[k] as int, cdims[k] as int);
        assert(0 <= x / b && 0 <= (x / b) * b <= x && x == (x / b) * b + x % b && 0 <= x % b < b)
            by (nonlinear_arith)
            requires
                x >= 0,
                b >= 1,
        ;
        assert(q[k] * cdims[k] == (x / b) * b);
    }
    assert(moved(at, r) =~= c);
    assert(local(at, c) =~= r);
    assert forall|k: int| 0 <= k < c.len() implies at[k] <= #[trigger] c[k] < at[k] + cdims[k] by {
        assert(r[k] < cdims[k]);
    }
}

proof fn lemma_byte_place(l: nat, size: nat, b: int, n: nat)
    requires
        0 <= b < size,
        l < n,
    ensures
        0 <= l * size + b < n * size,
        (l * size + b) / size as int == l,
        (l * size + b) % size as int == b,
        (l + 1) * size <= n * size,
        (l + 1) * size == l * size + size,
{
    let (x, s, m) = (l as int, size as int, n as int);
    let q = x * s + b;
    assert((x + 1) * s <= m * s && (x + 1) * s == x * s + s && x * s >= 0) by (nonlinear_arith)
        requires
            0 <= x,
            x + 1 <= m,
            s >= 0,
    ;
    assert(q / s == x && q % s == b) by (nonlinear_arith)
        requires
            q == x * s + b,
            0 <= b < s,
    ;
}

/// Each element of an array is in the chunk whose number is that of its coordinates
/// counted in chunks, at the place that the remainders give.
pub proof fn law_chunk_holds_element(
    data: Seq<u8>,
    dims: Seq<u64>,
    cdims: Seq<u64>,
    size: nat,
    c: Seq<nat>,
    b: int,
)
    requires
        cdims.len() == dims.len(),
        !has_zero(cdims),
        data.len() == count(dims) * size,
        within(dims, c),
        0 <= b < size,
    ensures
        ({
            let i = number_of(chunk_counts(dims, cdims), quotients(c, cdims));
            let l = number_of(cdims, chunk_rest(c, cdims));
            let chunk = gathered(data, dims, cdims, chunk_corner(dims, cdims, i), size);
            &&& i < count(chunk_counts(dims, cdims))
            &&& chunk.len() == count(cdims) * size
            &&& l < count(cdims)
            &&& chunk[l * size + b] == data[number_of(dims, c) * size + b]
        }),
{
    lemma_place(dims, cdims, c);
    let r = chunk_rest(c, cdims);
    let l = number_of(cdims, r);
    lemma_number_bound(cdims, r);
    lemma_number_bound(dims, c);
    law_coords_of_number(cdims, r);
    lemma_byte_place(l, size, b, count(cdims));
    lemma_byte_place(number_of(dims, c), size, b, count(dims));
}

/// The elements of a chunk that lie beyond the array are zero.
pub proof fn law_chunk_padded(
    data: Seq<u8>,
    dims: Seq<u64>,
    cdims: Seq<u64>,
    size: nat,
    i: nat,
    m: Seq<nat>,
    b: int,
)
    requires
        cdims.len() == dims.len(),
        !has_zero(cdims),
        within(cdims, m),
        i < count(chunk_counts(dims, cdims)),
        exists|k: int|
            0 <= k < dims.len() && chunk_corner(dims, cdims, i)[k] + #[trigger] m[k] >= dims[k],
        0 <= b < size,
    ensures
        gathered(data, dims, cdims, chunk_corner(dims, cdims, i), size)[number_of(cdims, m) * size
            + b] == 0,
{
    lemma_number_bound(cdims, m);
    law_coords_of_number(cdims, m);
    lemma_byte_place(number_of(cdims, m), size, b, count(cdims));
    let at = chunk_corner(dims, cdims, i);
    let k = choose|k: int|
        0 <= k < dims.len() && chunk_corner(dims, cdims, i)[k] + #[trigger] m[k] >= dims[k];
    assert(moved(at, m)[k] >= dims[k]);
}

/// A chunk that is put in its place gives the elements whose coordinates counted in
/// chunks have its number, each from the place that the remainders give. The other
/// elements stay.
pub proof fn law_chunk_placed(
    out: Seq<u8>,
    chunk: Seq<u8>,
    dims: Seq<u64>,
    cdims: Seq<u64>,
    size: nat,
    i: nat,
    c: Seq<nat>,
    b: int,
)
    requires
        cdims.len() == dims.len(),
        !has_zero(cdims),
        out.len() == count(dims) * size,
        i < count(chunk_counts(dims, cdims)),
        within(dims, c),
        0 <= b < size,
    ensures
        ({
            let r = scattered(out, chunk, dims, cdims, chunk_corner(dims, cdims, i), size);
            let p = number_of(dims, c) * size + b;
            &&& r.len() == out.len()
            &&& r[p] == (if number_of(chunk_counts(dims, cdims), quotients(c, cdims)) == i {
                chunk[number_of(cdims, chunk_rest(c, cdims)) * size + b]
            } else {
                out[p]
            })
        }),
{
    let counts = chunk_counts(dims, cdims);
    let q = quotients(c, cdims);
    let at = chunk_corner(dims, cdims, i);
    lemma_place(dims, cdims, c);
    lemma_number_bound(dims, c);
    law_coords_of_number(dims, c);
    lemma_byte_place(number_of(dims, c), size, b, count(dims));
    if number_of(counts, q) != i && in_chunk(cdims, at, c) {
        law_corner_placed(dims, cdims, i);
        assert forall|k: int| 0 <= k < dims.len() implies in_chunks(at, cdims)[k] == q[k] by {
            assert(cdims[k] != 0);
            assert(at[k] <= c[k] < at[k] + cdims[k]);
            assert(at[k] as nat % cdims[k] as nat == 0);
            let (x, a, d) = (c[k] as int, at[k] as int, cdims[k] as int);
            assert(0 <= a / d == x / d) by (nonlinear_arith)
                requires
                    a <= x < a + d,
                    a % d == 0,
                    d >= 1,
                    a >= 0,
            ;
        }
        assert(in_chunks(at, cdims) =~= q);
    }
}

} // verus!
