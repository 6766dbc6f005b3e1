//! What datasets hold when they are made and resized, and where their chunks lie.

use vstd::prelude::*;

use crate::format::chunks::moved;
use crate::format::grid::{
    coords_of, count, law_coords_of_number, law_number_of_coords, lemma_number_bound, number_of,
    within,
};
use crate::hl::dataset::{
    at_least_one, auto_chunked, axis_grows, beyond_max, can_grow, chunk_counts, chunk_known, chunks_along,
    dataset_created, dataset_made, dataset_stray, half, halved, largest, lemma_sum_update,
    repeated, reshaped, resized, sum, PlanView,
};
use crate::hl::group::{link_place, linked, new_link, ordered};
use crate::model::{law_link_at, link_at, DatasetView, FileView, TargetView};

verus! {

proof fn lemma_byte(l: nat, size: nat, b: int, n: nat)
    requires
        0 <= b < size,
        l < n,
    ensures
        0 <= l * size + b < n * size,
        (l * size + b) / size as int == l,
        (l * size + b) % size as int == b,
        (l + 1) * size <= n * size,
        (l + 1) * size == l * size + size,
{
    let (x, s, m) = (l as int, size as int, n as int);
    let q = x * s + b;
    assert((x + 1) * s <= m * s && (x + 1) * s == x * s + s && x * s >= 0) by (nonlinear_arith)
        requires
            0 <= x,
            x + 1 <= m,
            s >= 0,
    ;
    assert(q / s == x && q % s == b) by (nonlinear_arith)
        requires
            q == x * s + b,
            0 <= b < s,
    ;
}

/// A dataset that gets another shape keeps each element that lies in both shapes at its
/// coordinates; every other element is zero.
pub proof fn law_resize_keeps(d: DatasetView, dims: Seq<u64>, c: Seq<nat>, b: int)
    requires
        dims.len() == d.dims.len(),
        d.data.len() == count(d.dims) * d.dtype.disk_size(),
        within(dims, c),
        0 <= b < d.dtype.disk_size(),
    ensures
        ({
            let w = d.dtype.disk_size();
            let r = reshaped(d, dims);
            let p = number_of(dims, c) * w + b;
            &&& r.dims == dims
            &&& r.data.len() == count(dims) * w
            &&& 0 <= p < r.data.len()
            &&& r.data[p] == (if within(d.dims, c) {
                d.data[number_of(d.dims, c) * w + b]
            } else {
                0
            })
        }),
{
    let w = d.dtype.disk_size();
    let at = Seq::new(d.dims.len(), |i: int| 0u64);
    lemma_number_bound(dims, c);
    law_coords_of_number(dims, c);
    lemma_byte(number_of(dims, c), w, b, count(dims));
    assert(moved(at, c) =~= c);
    if within(d.dims, c) {
        lemma_number_bound(d.dims, c);
        lemma_byte(number_of(d.dims, c), w, b, count(d.dims));
    }
}

proof fn lemma_beyond(dims: Seq<u64>, max: Seq<Option<u64>>, i: int)
    requires
        0 <= i <= dims.len(),
    ensures
        beyond_max(dims, max, i) is None <==> forall|k: int|
            i <= k < dims.len() && k < max.len() ==> (#[trigger] max[k] matches Some(m) ==> dims[k]
                <= m),
    decreases dims.len() - i,
{
    if i < dims.len() && i < max.len() && !(max[i] matches Some(m) && dims[i] > m) {
        lemma_beyond(dims, max, i + 1);
    }
}

/// A dataset of a file that can be written is resized exactly where it is chunked, the
/// rank stays, no dimension exceeds its maximum, and the elements can be held.
pub proof fn law_resize_accepted(f: FileView, id: nat, dims: Seq<u64>)
    requires
        f.dataset(id) is Some,
        !f.read_only,
    ensures
        resized(f, id, dims).1 is Ok <==> {
            let d = f.dataset(id)->0;
            &&& dims.len() == d.dims.len()
            &&& d.layout is Chunked
            &&& forall|k: int|
                0 <= k < dims.len() && k < d.maxdims.len() ==> (#[trigger] d.maxdims[k] matches Some(
                    m,
                ) ==> dims[k] <= m)
            &&& count(d.dims) <= u64::MAX
            &&& count(dims) <= u64::MAX
            &&& count(dims) * d.dtype.disk_size() <= usize::MAX
        },
        resized(f, id, dims).1 is Err ==> resized(f, id, dims).0 == f,
        resized(f, id, dims).1 is Ok ==> resized(f, id, dims).0.dataset(id) == Some(
            reshaped(f.dataset(id)->0, dims),
        ),
{
    let d = f.dataset(id)->0;
    if dims.len() == d.dims.len() {
        lemma_beyond(dims, d.maxdims, 0);
    }
}

/// An axis has room exactly where a dataset within its maxima may get one more along it.
pub proof fn law_axis_grows(d: DatasetView, i: int)
    requires
        0 <= i < d.dims.len(),
        i < d.maxdims.len(),
        d.dims[i] < u64::MAX,
        beyond_max(d.dims, d.maxdims, 0) is None,
    ensures
        axis_grows(d, i) <==> beyond_max(
            d.dims.update(i, (d.dims[i] + 1) as u64),
            d.maxdims,
            0,
        ) is None,
        d.layout is Chunked && axis_grows(d, i) ==> can_grow(d),
        can_grow(d) ==> d.layout is Chunked && exists|k: int| #[trigger] axis_grows(d, k),
{
    let more = d.dims.update(i, (d.dims[i] + 1) as u64);
    lemma_beyond(d.dims, d.maxdims, 0);
    lemma_beyond(more, d.maxdims, 0);
    assert(d.maxdims[i] matches Some(m) ==> d.dims[i] <= m);
    if axis_grows(d, i) {
        assert forall|k: int| 0 <= k < more.len() && k < d.maxdims.len() implies (
        #[trigger] d.maxdims[k] matches Some(m) ==> more[k] <= m) by {
            assert(d.maxdims[k] matches Some(m) ==> d.dims[k] <= m);
        }
    }
}

proof fn lemma_repeated_at(v: Seq<u8>, n: nat, e: nat, b: int)
    requires
        e < n,
        0 <= b < v.len(),
    ensures
        repeated(v, n).len() == n * v.len(),
        repeated(v, n)[e * v.len() + b] == v[b],
    decreases n,
{
    lemma_repeated_all(v, (n - 1) as nat);
    lemma_repeated_all(v, n);
    assert((n - 1) * v.len() + v.len() == n * v.len()) by (nonlinear_arith);
    if e < n - 1 {
        lemma_repeated_at(v, (n - 1) as nat, e, b);
        lemma_byte(e, v.len(), b, (n - 1) as nat);
    }
}

pub(crate) proof fn lemma_repeated_all(v: Seq<u8>, n: nat)
    ensures
        repeated(v, n).len() == n * v.len(),
    decreases n,
{
    if n > 0 {
        lemma_repeated_all(v, (n - 1) as nat);
        assert((n - 1) * v.len() + v.len() == n * v.len()) by (nonlinear_arith)
            requires
                n >= 1,
        ;
    } else {
        assert(0 * v.len() == 0) by (nonlinear_arith);
    }
}

/// Each element of a new dataset is the fill value, or zero where there is none.
pub proof fn law_new_elements(p: PlanView, e: nat, b: int)
    requires
        dataset_made(p) is Ok,
        e < p.total(),
        0 <= b < p.dtype.disk_size(),
        p.maps.len() == 0,
        p.fill matches Some(Ok(v)) ==> v.len() == p.dtype.disk_size(),
    ensures
        dataset_made(p)->Ok_0.data.len() == p.total() * p.dtype.disk_size(),
        dataset_made(p)->Ok_0.data[e * p.dtype.disk_size() + b] == (match p.fill {
            Some(Ok(v)) => v[b],
            _ => 0u8,
        }),
{
    lemma_byte(e, p.dtype.disk_size(), b, p.total());
    if let Some(Ok(v)) = p.fill {
        lemma_repeated_at(v, p.total(), e, b);
    }
}

/// There are as few chunks along a dimension as cover it, and one at least.
pub proof fn law_chunks_along(dim: u64, c: u64)
    requires
        c > 0,
    ensures
        chunks_along(dim, c) >= 1,
        dim <= chunks_along(dim, c) * c,
        chunks_along(dim, c) > 1 ==> (chunks_along(dim, c) - 1) * c < dim,
{
    let (d, b) = (dim as int, c as int);
    if d > 0 {
        let q = (d - 1) / b;
        assert(0 <= q <= d - 1 && q * b <= d - 1 < (q + 1) * b) by (nonlinear_arith)
            requires
                q == (d - 1) / b,
                b >= 1,
                d >= 1,
        ;
    }
}

/// The chunk number `index` of a dataset lies where its number says: its offsets are
/// multiples of the shape of a chunk, and counted in chunks they are the coordinates of
/// the number in the grid of chunks. It starts within the dataset.
pub proof fn law_chunk_known(d: DatasetView, c: Seq<u64>, index: nat)
    requires
        c.len() == d.dims.len(),
        forall|k: int| 0 <= k < c.len() ==> #[trigger] c[k] > 0,
        index < count(chunk_counts(d.dims, c)) <= u64::MAX,
        count(c) * d.dtype.disk_size() <= u64::MAX,
    ensures
        chunk_known(d, c, index) matches Some((at, size)) && size == count(c) * d.dtype.disk_size()
            && at.len() == d.dims.len() && ({
            let q = Seq::new(
                at.len(),
                |k: int|
                    if c[k] == 0 {
                        0
                    } else {
                        at[k] as nat / c[k] as nat
                    },
            );
            &&& number_of(chunk_counts(d.dims, c), q) == index
            &&& forall|k: int|
                0 <= k < at.len() ==> (#[trigger] at[k]) as nat % c[k] as nat == 0 && (d.dims[k] > 0
                    ==> at[k] < d.dims[k])
        }),
{
    let n = chunk_counts(d.dims, c);
    let p = coords_of(n, index);
    law_number_of_coords(n, index);
    assert forall|k: int| 0 <= k < n.len() implies #[trigger] p[k] * c[k] <= u64::MAX && (
    d.dims[k] > 0 ==> p[k] * c[k] < d.dims[k]) && (p[k] * c[k]) % c[k] as int == 0 && (p[k] * c[k])
        / c[k] as int == p[k] by {
        assert(c[k] > 0);
        assert(p[k] < n[k]);
        law_chunks_along(d.dims[k], c[k]);
        let (x, b, m, w) = (p[k] as int, c[k] as int, n[k] as int, d.dims[k] as int);
        assert(0 <= x * b <= (m - 1) * b) by (nonlinear_arith)
            requires
                0 <= x <= m - 1,
                b >= 1,
        ;
        assert(m == 1 ==> (m - 1) * b == 0) by (nonlinear_arith);
        assert((x * b) % b == 0 && (x * b) / b == x) by (nonlinear_arith)
            requires
                b >= 1,
        ;
    }
    let at = (chunk_known(d, c, index)->0).0;
    let q = Seq::new(
        at.len(),
        |k: int|
            if c[k] == 0 {
                0
            } else {
                at[k] as nat / c[k] as nat
            },
    );
    assert forall|k: int| 0 <= k < at.len() implies at[k] == p[k] * c[k] && (
    #[trigger] at[k]) as nat % c[k] as nat == 0 && at[k] as nat / c[k] as nat == p[k] && (d.dims[k]
        > 0 ==> at[k] < d.dims[k]) by {
        assert(p[k] * c[k] <= u64::MAX);
        assert(c[k] > 0);
    }
    assert(q =~= p) by {
        assert forall|k: int| 0 <= k < at.len() implies q[k] == p[k] by {
            assert(c[k] > 0);
            assert(at[k] as nat / c[k] as nat == p[k]);
        }
    }
}

proof fn lemma_ones(c: Seq<u64>)
    requires
        forall|k: int| 0 <= k < c.len() ==> #[trigger] c[k] == 1,
    ensures
        count(c) == 1,
    decreases c.len(),
{
    if c.len() > 0 {
        let rest = c.skip(1);
        assert forall|k: int| 0 <= k < rest.len() implies #[trigger] rest[k] == 1 by {
            assert(c[k + 1] == 1);
        }
        lemma_ones(rest);
        assert(c[0] == 1);
        assert(1 * count(rest) == count(rest)) by (nonlinear_arith);
    }
}

proof fn lemma_largest_is(c: Seq<u64>, n: nat)
    requires
        0 < n <= c.len(),
    ensures
        largest(c, n) < n,
        forall|k: int| 0 <= k < n ==> #[trigger] c[k] <= c[largest(c, n) as int],
    decreases n,
{
    if n > 1 {
        lemma_largest_is(c, (n - 1) as nat);
        let m = largest(c, (n - 1) as nat) as int;
        assert(c[m] <= c[m]);
    }
}

proof fn lemma_halved(c: Seq<u64>, esize: nat, limit: nat)
    requires
        forall|k: int| 0 <= k < c.len() ==> #[trigger] c[k] >= 1,
        esize <= limit,
    ensures
        halved(c, esize, limit).len() == c.len(),
        forall|k: int|
            0 <= k < c.len() ==> 1 <= #[trigger] halved(c, esize, limit)[k] <= c[k],
        count(halved(c, esize, limit)) * esize <= limit,
    decreases sum(c),
{
    if count(c) * esize <= limit {
    } else if c.len() == 0 {
        assert(1 * esize == esize) by (nonlinear_arith);
    } else {
        lemma_largest_is(c, c.len());
        let i = largest(c, c.len()) as int;
        if c[i] <= 1 {
            assert forall|k: int| 0 <= k < c.len() implies #[trigger] c[k] == 1 by {
                assert(c[k] <= c[i]);
                assert(c[k] >= 1);
            }
            lemma_ones(c);
            assert(1 * esize == esize) by (nonlinear_arith);
        } else {
            let d = c.update(i, half(c[i]));
            lemma_sum_update(c, i, half(c[i]));
            assert forall|k: int| 0 <= k < d.len() implies #[trigger] d[k] >= 1 by {
                assert(c[k] >= 1);
            }
            lemma_halved(d, esize, limit);
            let r = halved(c, esize, limit);
            assert forall|k: int| 0 <= k < c.len() implies 1 <= #[trigger] r[k] <= c[k] by {
                assert(1 <= halved(d, esize, limit)[k] <= d[k]);
            }
        }
    }
}

/// The shape that is chosen for chunks has as many dimensions as the dataset, none of them
/// zero or larger than that of the dataset, and a chunk has at most `min_bytes` bytes
/// unless one element has more.
pub proof fn law_auto_chunk(dims: Seq<u64>, esize: nat, min_bytes: nat, k: int)
    requires
        0 <= k < dims.len(),
    ensures
        auto_chunked(dims, esize, min_bytes).len() == dims.len(),
        1 <= auto_chunked(dims, esize, min_bytes)[k],
        dims[k] > 0 ==> auto_chunked(dims, esize, min_bytes)[k] <= dims[k],
        dims[k] == 0 ==> auto_chunked(dims, esize, min_bytes)[k] == 1,
        count(auto_chunked(dims, esize, min_bytes)) * esize <= min_bytes || count(
            auto_chunked(dims, esize, min_bytes),
        ) * esize <= esize,
{
    let limit = if min_bytes > esize {
        min_bytes
    } else {
        esize
    };
    let c = at_least_one(dims);
    assert forall|i: int| 0 <= i < c.len() implies #[trigger] c[i] >= 1 by {}
    lemma_halved(c, esize, limit);
    assert(1 <= halved(c, esize, limit)[k] <= c[k]);
}

/// The whole dataset is one chunk where it has at most `min_bytes` bytes.
pub proof fn law_auto_chunk_whole(dims: Seq<u64>, esize: nat, min_bytes: nat)
    requires
        forall|k: int| 0 <= k < dims.len() ==> #[trigger] dims[k] > 0,
        count(dims) * esize <= min_bytes,
    ensures
        auto_chunked(dims, esize, min_bytes) == dims,
{
    assert(at_least_one(dims) =~= dims) by {
        assert forall|k: int| 0 <= k < dims.len() implies at_least_one(dims)[k] == dims[k] by {
            assert(dims[k] > 0);
        }
    }
}

/// A dataset that was made under a name is the one that its plan stands for; its name leads
/// to it, it counts one link, and no other object but the group of the link has changed.
pub proof fn law_dataset_created(
    f: FileView,
    parent: nat,
    name: Seq<char>,
    p: PlanView,
    time: u32,
    other: nat,
)
    requires
        dataset_created(f, parent, Some(name), p, time).1 is Ok,
        p.maps.len() == 0,
    ensures
        ({
            let (g, r) = dataset_created(f, parent, Some(name), p, time);
            let d = dataset_made(p)->Ok_0;
            let (pid, leaf) = link_place(dataset_stray(f, d, time), parent, name)->Ok_0;
            &&& r == Ok::<nat, Seq<char>>(f.objects.len())
            &&& g.dataset(f.objects.len()) == Some(d)
            &&& g.object(f.objects.len())->0.refcount == 1
            &&& g.group(pid) is Some
            &&& link_at(g.group(pid)->0.links, leaf) matches Some(k) && g.group(
                pid,
            )->0.links[k as int].target == TargetView::Hard(f.objects.len())
            &&& other < f.objects.len() && other != pid ==> g.object(other) == f.object(other)
        }),
{
    let d = dataset_made(p)->Ok_0;
    let s = dataset_stray(f, d, time);
    let id = f.objects.len();
    let (pid, leaf) = link_place(s, parent, name)->Ok_0;
    let l = new_link(s, leaf, TargetView::Hard(id));
    let before = s.group(pid)->0.links;
    let after = before.push(l);
    assert(pid != id) by {
        assert(s.group(id) is None);
    }
    law_link_at(before, leaf);
    law_link_at(after, leaf);
    assert(after[before.len() as int] == l);
    match link_at(after, leaf) {
        Some(k) => {
            if k < before.len() {
                assert(after[k as int] == before[k as int]);
            }
        },
        None => {},
    }
    let m = linked(ordered(s), pid, l);
    assert(m.object(id) == s.object(id));
    let g = dataset_created(f, parent, Some(name), p, time).0;
    assert(g.object(pid) == m.object(pid));
}

} // verus!
