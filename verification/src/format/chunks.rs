//! Chunks: how their elements lie in an array, and how a stored chunk becomes part of
//! it.

use vstd::prelude::*;

use crate::error::Error;
use crate::format::chunk_index::{chunk_size, size_of_chunk};
use crate::format::elements::{fit, fitted};
use crate::format::fheap::part;
use crate::format::filters::{
    filter_views, pipeline_back, reverse_from, reverse_masked, FilterView, RawFilter, Reversed,
    ReversedView,
};
use crate::format::grid::{
    as_nats, coordinates, coords_of, count, element_number, law_coords_of_number,
    law_number_of_coords, lemma_number_bound, number_of, step_sizes, steps, within,
};
use crate::format::scaleoffset::{FloatBlock, Unscaled, UnscaledView};
use crate::model::{chunk_views, ChunkRef, ChunkView};

verus! {

/// Coordinates in a chunk moved by the corner of the chunk.
pub open spec fn moved(at: Seq<u64>, c: Seq<nat>) -> Seq<nat> {
    Seq::new(c.len(), |k: int| (at[k] + c[k]) as nat)
}

/// Whether coordinates lie in the chunk with a corner.
pub open spec fn in_chunk(cdims: Seq<u64>, at: Seq<u64>, c: Seq<nat>) -> bool {
    forall|k: int| 0 <= k < c.len() ==> at[k] <= #[trigger] c[k] < at[k] + cdims[k]
}

/// Coordinates counted from the corner of a chunk.
pub open spec fn local(at: Seq<u64>, c: Seq<nat>) -> Seq<nat> {
    Seq::new(c.len(), |k: int| (c[k] - at[k]) as nat)
}

/// The number that the element `e` of an array has in a chunk, if it lies there.
pub open spec fn chunk_number(dims: Seq<u64>, cdims: Seq<u64>, at: Seq<u64>, e: nat) -> Option<nat> {
    let c = coords_of(dims, e);
    if in_chunk(cdims, at, c) {
        Some(number_of(cdims, local(at, c)))
    } else {
        None
    }
}

/// An array with the elements of a chunk in their places. Elements of the chunk that
/// lie outside the array are left out.
pub open spec fn scattered(
    out: Seq<u8>,
    chunk: Seq<u8>,
    dims: Seq<u64>,
    cdims: Seq<u64>,
    at: Seq<u64>,
    size: nat,
) -> Seq<u8> {
    Seq::new(
        out.len(),
        |p: int|
            match chunk_number(dims, cdims, at, (p / size as int) as nat) {
                Some(l) => chunk[l * size + p % size as int],
                None => out[p],
            },
    )
}

/// The elements of an array that lie in a chunk; elements of the chunk that lie
/// outside the array, or behind the end of its bytes, are zero.
pub open spec fn gathered(
    data: Seq<u8>,
    dims: Seq<u64>,
    cdims: Seq<u64>,
    at: Seq<u64>,
    size: nat,
) -> Seq<u8> {
    Seq::new(
        count(cdims) * size,
        |q: int|
            {
                let g = moved(at, coords_of(cdims, (q / size as int) as nat));
                if within(dims, g) && (number_of(dims, g) + 1) * size <= data.len() {
                    data[number_of(dims, g) * size + q % size as int]
                } else {
                    0u8
                }
            },
    )
}

/// An element of an array lies in a chunk with the number `l` exactly where the
/// element `l` of the chunk lies at its place.
pub proof fn lemma_chunk_number(dims: Seq<u64>, cdims: Seq<u64>, at: Seq<u64>, e: nat, l: nat)
    requires
        at.len() == dims.len(),
        cdims.len() == dims.len(),
        e < count(dims),
        l < count(cdims),
    ensures
        chunk_number(dims, cdims, at, e) == Some(l) <==> {
            let g = moved(at, coords_of(cdims, l));
            within(dims, g) && number_of(dims, g) == e
        },
        chunk_number(dims, cdims, at, e) matches Some(m) ==> m < count(cdims),
{
    let c = coords_of(dims, e);
    law_number_of_coords(dims, e);
    let lc = coords_of(cdims, l);
    law_number_of_coords(cdims, l);
    let g = moved(at, lc);
    if in_chunk(cdims, at, c) {
        let m = local(at, c);
        assert(within(cdims, m)) by {
            assert forall|k: int| 0 <= k < cdims.len() implies #[trigger] m[k] < cdims[k] by {
                assert(at[k] <= c[k] < at[k] + cdims[k]);
            }
        }
        law_coords_of_number(cdims, m);
        lemma_number_bound(cdims, m);
        if number_of(cdims, m) == l {
            assert(lc == m);
            assert(g =~= c) by {
                assert forall|k: int| 0 <= k < c.len() implies g[k] == c[k] by {
                    assert(at[k] <= c[k] < at[k] + cdims[k]);
                }
            }
        }
    }
    if within(dims, g) && number_of(dims, g) == e {
        law_coords_of_number(dims, g);
        assert(c == g);
        assert(in_chunk(cdims, at, c)) by {
            assert forall|k: int| 0 <= k < c.len() implies at[k] <= #[trigger] c[k] < at[k]
                + cdims[k] by {
                assert(lc[k] < cdims[k]);
            }
        }
        assert(local(at, c) =~= lc);
    }
}

/// The coordinates of an element of a chunk in the array, if they lie there.
pub(crate) fn place(at: &[u64], c: &Vec<u64>, dims: &[u64]) -> (r: Option<Vec<u64>>)
    requires
        at@.len() == dims@.len(),
        c@.len() == dims@.len(),
    ensures
        match r {
            Some(g) => as_nats(g@) == moved(at@, as_nats(c@)) && within(dims@, as_nats(g@)),
            None => !within(dims@, moved(at@, as_nats(c@))),
        },
{
    let n: usize = dims.len();
    let ghost want = moved(at@, as_nats(c@));
    let mut g: Vec<u64> = Vec::new();
    let mut k: usize = 0;
    while k < n
        invariant
            k <= n == dims@.len() == at@.len() == c@.len(),
            want == moved(at@, as_nats(c@)),
            g@.len() == k,
            forall|j: int| 0 <= j < k ==> #[trigger] g@[j] == want[j] && g@[j] < dims@[j],
        decreases n - k,
    {
        assert(want[k as int] == at@[k as int] + c@[k as int]);
        match at[k].checked_add(c[k]) {
            None => {
                assert(want[k as int] >= dims@[k as int]);
                return None;
            },
            Some(x) => {
                if x >= dims[k] {
                    assert(want[k as int] >= dims@[k as int]);
                    return None;
                }
                g.push(x);
            },
        }
        k += 1;
    }
    assert(as_nats(g@) =~= want);
    assert(within(dims@, as_nats(g@))) by {
        assert forall|j: int| 0 <= j < dims@.len() implies #[trigger] as_nats(g@)[j] < dims@[j] by {
            assert(g@[j] < dims@[j]);
        }
    }
    Some(g)
}

/// The place of byte `p` of an array after the chunk's elements before `l` were put
/// there.
spec fn partly(
    before: Seq<u8>,
    chunk: Seq<u8>,
    dims: Seq<u64>,
    cdims: Seq<u64>,
    at: Seq<u64>,
    size: nat,
    l: nat,
    p: int,
) -> u8 {
    match chunk_number(dims, cdims, at, (p / size as int) as nat) {
        Some(m) => if m < l {
            chunk[m * size + p % size as int]
        } else {
            before[p]
        },
        None => before[p],
    }
}

/// Copies the elements of a chunk to their places in an array.
pub fn scatter_chunk(
    chunk: &[u8],
    dims: &[u64],
    chunk_dims: &[u64],
    base: &[u64],
    elem_size: usize,
    out: &mut Vec<u8>,
)
    requires
        base@.len() == dims@.len(),
        chunk_dims@.len() == dims@.len(),
        elem_size > 0,
        chunk@.len() == count(chunk_dims@) * elem_size,
        old(out)@.len() == count(dims@) * elem_size,
    ensures
        final(out)@ == scattered(
            old(out)@,
            chunk@,
            dims@,
            chunk_dims@,
            base@,
            elem_size as nat,
        ),
        final(out)@.len() == old(out)@.len(),
{
    let ghost before = out@;
    let ghost size = elem_size as nat;
    let total: usize = chunk.len() / elem_size;
    let cells: usize = out.len() / elem_size;
    proof {
        let (n, m) = (count(chunk_dims@) as int, count(dims@) as int);
        assert((n * elem_size) / elem_size as int == n && (m * elem_size) / elem_size as int == m)
            by (nonlinear_arith)
            requires
                elem_size > 0,
        ;
    }
    assert(total == count(chunk_dims@) && cells == count(dims@));
    if total == 0 || cells == 0 {
        proof {
            if cells == 0 {
                assert(before.len() == 0) by (nonlinear_arith)
                    requires
                        before.len() == cells * elem_size,
                        cells == 0,
                ;
            }
            assert forall|p: int| 0 <= p < before.len() implies before[p] == #[trigger] scattered(
                before,
                chunk@,
                dims@,
                chunk_dims@,
                base@,
                size,
            )[p] by {
                lemma_no_elements(dims@, chunk_dims@, base@, p, size);
            }
            assert(out@ =~= scattered(before, chunk@, dims@, chunk_dims@, base@, size));
        }
        return;
    }
    let csteps = step_sizes(chunk_dims);
    let dsteps = step_sizes(dims);
    let mut l: usize = 0;
    proof {
        assert forall|p: int| 0 <= p < before.len() implies #[trigger] before[p] == partly(
            before,
            chunk@,
            dims@,
            chunk_dims@,
            base@,
            size,
            0,
            p,
        ) by {}
    }
    while l < total
        invariant
            l <= total == count(chunk_dims@),
            cells == count(dims@),
            base@.len() == dims@.len(),
            chunk_dims@.len() == dims@.len(),
            size == elem_size > 0,
            chunk@.len() == total * elem_size,
            out@.len() == before.len() == cells * elem_size,
            as_nats(csteps@) == steps(chunk_dims@),
            as_nats(dsteps@) == steps(dims@),
            forall|p: int|
                0 <= p < before.len() ==> #[trigger] out@[p] == partly(
                    before,
                    chunk@,
                    dims@,
                    chunk_dims@,
                    base@,
                    size,
                    l as nat,
                    p,
                ),
        decreases total - l,
    {
        let c = coordinates(&csteps, l as u64, Ghost(chunk_dims@));
        let ghost g = moved(base@, coords_of(chunk_dims@, l as nat));
        let ghost last = out@;
        match place(base, &c, dims) {
            None => {
                proof {
                    assert forall|p: int| 0 <= p < before.len() implies #[trigger] out@[p]
                        == partly(
                        before,
                        chunk@,
                        dims@,
                        chunk_dims@,
                        base@,
                        size,
                        (l + 1) as nat,
                        p,
                    ) by {
                        lemma_element_bound(p, size as int, cells as int);
                        lemma_chunk_number(
                            dims@,
                            chunk_dims@,
                            base@,
                            (p / size as int) as nat,
                            l as nat,
                        );
                    }
                }
            },
            Some(gv) => {
                let e: u64 = element_number(&dsteps, &gv, Ghost(dims@));
                copy_element(chunk, l, out, e as usize, elem_size, total, cells);
                proof {
                    assert forall|p: int| 0 <= p < before.len() implies #[trigger] out@[p]
                        == partly(
                        before,
                        chunk@,
                        dims@,
                        chunk_dims@,
                        base@,
                        size,
                        (l + 1) as nat,
                        p,
                    ) by {
                        lemma_element_bound(p, size as int, cells as int);
                        lemma_chunk_number(
                            dims@,
                            chunk_dims@,
                            base@,
                            (p / size as int) as nat,
                            l as nat,
                        );
                        assert(last[p] == partly(
                            before,
                            chunk@,
                            dims@,
                            chunk_dims@,
                            base@,
                            size,
                            l as nat,
                            p,
                        ));
                    }
                }
            },
        }
        l += 1;
    }
    proof {
        let want = scattered(before, chunk@, dims@, chunk_dims@, base@, size);
        assert forall|p: int| 0 <= p < before.len() implies out@[p] == want[p] by {
            lemma_element_bound(p, size as int, cells as int);
            lemma_chunk_number(
                dims@,
                chunk_dims@,
                base@,
                (p / size as int) as nat,
                0,
            );
        }
        assert(out@ =~= want);
    }
}

proof fn lemma_no_elements(dims: Seq<u64>, cdims: Seq<u64>, at: Seq<u64>, p: int, size: nat)
    requires
        at.len() == dims.len(),
        cdims.len() == dims.len(),
        size > 0,
        0 <= p < count(dims) * size,
        count(cdims) == 0,
    ensures
        chunk_number(dims, cdims, at, (p / size as int) as nat) is None,
{
    let e = (p / size as int) as nat;
    lemma_element_bound(p, size as int, count(dims) as int);
    law_number_of_coords(dims, e);
    let c = coords_of(dims, e);
    if in_chunk(cdims, at, c) {
        let m = local(at, c);
        assert(within(cdims, m)) by {
            assert forall|k: int| 0 <= k < cdims.len() implies #[trigger] m[k] < cdims[k] by {
                assert(at[k] <= c[k] < at[k] + cdims[k]);
            }
        }
        lemma_number_bound(cdims, m);
    }
}

pub proof fn lemma_element_bound(p: int, size: int, n: int)
    requires
        size > 0,
        0 <= p < n * size,
    ensures
        0 <= p / size < n,
        0 <= p % size < size,
        p == (p / size) * size + p % size,
{
    assert(0 <= p / size < n && 0 <= p % size < size && p == (p / size) * size + p % size)
        by (nonlinear_arith)
        requires
            size > 0,
            0 <= p < n * size,
    ;
}

/// Copies the element `l` of one array to the place of the element `e` of another.
fn copy_element(
    from: &[u8],
    l: usize,
    out: &mut Vec<u8>,
    e: usize,
    size: usize,
    total: usize,
    cells: usize,
)
    requires
        size > 0,
        l < total,
        e < cells,
        from@.len() == total * size,
        old(out)@.len() == cells * size,
    ensures
        final(out)@.len() == old(out)@.len(),
        forall|p: int|
            0 <= p < old(out)@.len() ==> #[trigger] final(out)@[p] == (if p / size as int == e {
                from@[l * size + p % size as int]
            } else {
                old(out)@[p]
            }),
{
    let n: usize = out.len();
    let m: usize = from.len();
    assert(l * size + size <= total * size && e * size + size <= cells * size) by (nonlinear_arith)
        requires
            l + 1 <= total,
            e + 1 <= cells,
            size > 0,
    ;
    let src: usize = l * size;
    let dst: usize = e * size;
    let mut b: usize = 0;
    while b < size
        invariant
            b <= size,
            size > 0,
            src == l * size,
            dst == e * size,
            src + size <= from@.len() == m,
            dst + size <= out@.len() == n,
            out@.len() == old(out)@.len(),
            forall|p: int|
                0 <= p < out@.len() ==> #[trigger] out@[p] == (if dst <= p < dst + b {
                    from@[src + (p - dst)]
                } else {
                    old(out)@[p]
                }),
        decreases size - b,
    {
        out.set(dst + b, from[src + b]);
        b += 1;
    }
    assert forall|p: int| 0 <= p < old(out)@.len() implies #[trigger] out@[p] == (if p / size as int
        == e {
        from@[l * size + p % size as int]
    } else {
        old(out)@[p]
    }) by {
        assert((dst <= p < dst + size) == (p / size as int == e) && (p / size as int == e ==> p
            - dst == p % size as int)) by (nonlinear_arith)
            requires
                size > 0,
                dst == e * size,
                p >= 0,
        ;
    }
}

// Stored chunks.

/// What is common to the chunks of a dataset.
pub struct ChunkGeometry {
    pub dims: Seq<u64>,
    pub cdims: Seq<u64>,
    pub elem: nat,
    pub bytes: nat,
    pub filters: Seq<FilterView>,
}

/// An array with the bytes of a chunk, cut or filled up to its size, in their places.
pub open spec fn placed(out: Seq<u8>, bytes: Seq<u8>, g: ChunkGeometry, at: Seq<u64>) -> Seq<u8> {
    scattered(out, fitted(bytes, g.bytes), g.dims, g.cdims, at, g.elem)
}

/// The bytes of a stored chunk, or a step of the pipeline that scales floating-point
/// elements.
pub open spec fn chunk_decoded(data: Seq<u8>, base: u64, c: ChunkView, g: ChunkGeometry) -> Result<
    ReversedView,
    Seq<char>,
> {
    if c.offsets.len() != g.dims.len() {
        Err("chunk rank mismatch"@)
    } else {
        match part(data, base + c.addr, c.size as int, "chunk data out of bounds"@) {
            Err(e) => Err(e),
            Ok(s) => if g.filters.len() == 0 {
                Ok(ReversedView::Bytes(s))
            } else if g.filters.len() > 32 {
                Err("too many filters"@)
            } else {
                pipeline_back(g.filters, g.filters.len() as int, g.elem, s, c.mask)
            },
        }
    }
}

/// How far an array was filled: all of it, or up to a chunk with floating-point
/// elements that have to be scaled, and that go on through the filters before `next`.
pub enum ProgressView {
    Done(Seq<u8>),
    Float { out: Seq<u8>, chunk: int, next: int, block: UnscaledView },
}

/// The array `out` with the chunks from the number `i` on in their places.
pub open spec fn filled(
    data: Seq<u8>,
    base: u64,
    chunks: Seq<ChunkView>,
    i: int,
    g: ChunkGeometry,
    out: Seq<u8>,
) -> Result<ProgressView, Seq<char>>
    decreases chunks.len() - i,
{
    if i < 0 || i >= chunks.len() {
        Ok(ProgressView::Done(out))
    } else {
        match chunk_decoded(data, base, chunks[i], g) {
            Err(e) => Err(e),
            Ok(ReversedView::Bytes(b)) => filled(
                data,
                base,
                chunks,
                i + 1,
                g,
                placed(out, b, g, chunks[i].offsets),
            ),
            Ok(ReversedView::Float { next, block }) => Ok(
                ProgressView::Float { out, chunk: i, next, block },
            ),
        }
    }
}

/// How far an array was filled.
pub enum Progress {
    /// All chunks are in their places.
    Done(Vec<u8>),
    /// The elements of a chunk have to be scaled as floating-point numbers; they go on
    /// through the filters before `next`.
    Float { out: Vec<u8>, chunk: usize, next: usize, block: FloatBlock },
}

impl View for Progress {
    type V = ProgressView;

    open spec fn view(&self) -> ProgressView {
        match *self {
            Progress::Done(v) => ProgressView::Done(v@),
            Progress::Float { out, chunk, next, block } => ProgressView::Float {
                out: out@,
                chunk: chunk as int,
                next: next as int,
                block: Unscaled::Float(block)@,
            },
        }
    }
}

/// Whether filling an array came out as `s` says.
pub open spec fn progress_as(
    r: Result<Progress, Error>,
    s: Result<ProgressView, Seq<char>>,
) -> bool {
    match (r, s) {
        (Ok(a), Ok(b)) => a@ == b,
        (Err(e), Err(m)) => e@ == m,
        _ => false,
    }
}

/// The layout of a chunked dataset.
pub struct Chunking<'a> {
    pub dims: &'a [u64],
    pub chunk_dims: &'a [u64],
    pub elem_size: usize,
    pub bytes: usize,
    pub filters: &'a [RawFilter],
}

impl<'a> View for Chunking<'a> {
    type V = ChunkGeometry;

    open spec fn view(&self) -> ChunkGeometry {
        ChunkGeometry {
            dims: self.dims@,
            cdims: self.chunk_dims@,
            elem: self.elem_size as nat,
            bytes: self.bytes as nat,
            filters: filter_views(self.filters@),
        }
    }
}

impl<'a> Chunking<'a> {
    pub open spec fn wf(self) -> bool {
        &&& self.chunk_dims@.len() == self.dims@.len()
        &&& self.bytes == count(self.chunk_dims@) * self.elem_size
    }

    /// The layout, where chunks have a size that can be read.
    pub fn new(
        dims: &'a [u64],
        chunk_dims: &'a [u64],
        elem_size: usize,
        filters: &'a [RawFilter],
    ) -> (r: Result<Self, Error>)
        ensures
            match (r, chunk_size(dims@, chunk_dims@, elem_size as nat)) {
                (Ok(c), Ok(n)) => c.wf() && c@ == (ChunkGeometry {
                    dims: dims@,
                    cdims: chunk_dims@,
                    elem: elem_size as nat,
                    bytes: n,
                    filters: filter_views(filters@),
                }),
                (Err(e), Err(m)) => e@ == m,
                _ => false,
            },
    {
        let bytes: u64 = size_of_chunk(dims, chunk_dims, elem_size)?;
        Ok(Chunking { dims, chunk_dims, elem_size, bytes: bytes as usize, filters })
    }
}

/// Puts the bytes of a chunk in their places.
pub fn place_chunk(out: Vec<u8>, bytes: Vec<u8>, g: &Chunking, at: &[u64]) -> (r: Vec<u8>)
    requires
        g.wf(),
        at@.len() == g.dims@.len(),
        out@.len() == count(g.dims@) * g.elem_size,
    ensures
        r@ == placed(out@, bytes@, g@, at@),
        r@.len() == out@.len(),
{
    let mut out = out;
    if g.elem_size == 0 {
        proof {
            let n = count(g.dims@);
            let z = g.elem_size as nat;
            assert(n * z == 0) by (nonlinear_arith)
                requires
                    z == 0,
            ;
            assert(out@ =~= placed(out@, bytes@, g@, at@));
        }
        return out;
    }
    let chunk = fit(bytes, g.bytes);
    scatter_chunk(chunk.as_slice(), g.dims, g.chunk_dims, at, g.elem_size, &mut out);
    out
}

fn decode_chunk(data: &[u8], base: u64, c: &ChunkRef, g: &Chunking) -> (r: Result<Reversed, Error>)
    ensures
        match (r, chunk_decoded(data@, base, c@, g@)) {
            (Ok(a), Ok(b)) => a@ == b && c.offsets@.len() == g.dims@.len(),
            (Err(e), Err(m)) => e@ == m,
            _ => false,
        },
{
    if c.offsets.len() != g.dims.len() {
        return Err(Error::new("chunk rank mismatch"));
    }
    let start: u128 = base as u128 + c.addr as u128;
    if start + c.size as u128 > data.len() as u128 {
        return Err(Error::new("chunk data out of bounds"));
    }
    let from: usize = start as usize;
    let stored = vstd::slice::slice_subrange(data, from, from + c.size as usize);
    if g.filters.len() == 0 {
        return Ok(Reversed::Bytes(vstd::slice::slice_to_vec(stored)));
    }
    if g.filters.len() > 32 {
        return Err(Error::new("too many filters"));
    }
    reverse_masked(g.filters, g.elem_size, stored, c.mask)
}

/// Fills an array with the chunks from the number `from` on.
pub fn materialize_chunks(
    data: &[u8],
    base: u64,
    chunks: &Vec<ChunkRef>,
    from: usize,
    g: &Chunking,
    start: Vec<u8>,
) -> (r: Result<Progress, Error>)
    requires
        g.wf(),
        start@.len() == count(g.dims@) * g.elem_size,
        from <= chunks@.len(),
    ensures
        progress_as(r, filled(data@, base, chunk_views(chunks@), from as int, g@, start@)),
        r matches Ok(Progress::Done(v)) ==> v@.len() == start@.len(),
        r matches Ok(Progress::Float { out, chunk, next, block }) ==> out@.len() == start@.len()
            && chunk < chunks@.len() && chunks@[chunk as int].offsets@.len() == g.dims@.len(),
{
    let ghost views = chunk_views(chunks@);
    let ghost whole = filled(data@, base, views, from as int, g@, start@);
    let n: usize = chunks.len();
    let mut out = start;
    let mut i: usize = from;
    while i < n
        invariant
            i <= n == chunks@.len(),
            g.wf(),
            out@.len() == start@.len() == count(g.dims@) * g.elem_size,
            views == chunk_views(chunks@),
            whole == filled(data@, base, views, from as int, g@, start@),
            whole == filled(data@, base, views, i as int, g@, out@),
        decreases n - i,
    {
        assert(views[i as int] == chunks@[i as int]@);
        match decode_chunk(data, base, &chunks[i], g)? {
            Reversed::Bytes(b) => {
                out = place_chunk(out, b, g, chunks[i].offsets.as_slice());
            },
            Reversed::Float { next, block } => {
                return Ok(Progress::Float { out, chunk: i, next, block });
            },
        }
        i += 1;
    }
    Ok(Progress::Done(out))
}

/// How an array is filled further once the elements of the chunk number `chunk` were
/// scaled: they go on through the filters before `next`. When they are through, the chunk
/// is put in its place and the chunks behind it follow.
pub open spec fn resumed(
    data: Seq<u8>,
    base: u64,
    chunks: Seq<ChunkView>,
    g: ChunkGeometry,
    out: Seq<u8>,
    chunk: int,
    next: int,
    scaled: Seq<u8>,
) -> Result<ProgressView, Seq<char>> {
    if chunk < 0 || chunk >= chunks.len() {
        Err("chunk out of range"@)
    } else if chunks[chunk].offsets.len() != g.dims.len() {
        Err("chunk rank mismatch"@)
    } else if next > g.filters.len() || next > 32 {
        Err("too many filters"@)
    } else {
        match pipeline_back(g.filters, next, g.elem, scaled, chunks[chunk].mask) {
            Err(e) => Err(e),
            Ok(ReversedView::Bytes(b)) => filled(
                data,
                base,
                chunks,
                chunk + 1,
                g,
                placed(out, b, g, chunks[chunk].offsets),
            ),
            Ok(ReversedView::Float { next, block }) => Ok(
                ProgressView::Float { out, chunk, next, block },
            ),
        }
    }
}

/// Goes on with an array, with the scaled elements of the chunk number `chunk`.
pub fn resume_chunks(
    data: &[u8],
    base: u64,
    chunks: &Vec<ChunkRef>,
    g: &Chunking,
    out: Vec<u8>,
    chunk: usize,
    next: usize,
    scaled: &[u8],
) -> (r: Result<Progress, Error>)
    requires
        g.wf(),
        out@.len() == count(g.dims@) * g.elem_size,
    ensures
        progress_as(
            r,
            resumed(
                data@,
                base,
                chunk_views(chunks@),
                g@,
                out@,
                chunk as int,
                next as int,
                scaled@,
            ),
        ),
        r matches Ok(Progress::Done(v)) ==> v@.len() == out@.len(),
{
    let ghost views = chunk_views(chunks@);
    if chunk >= chunks.len() {
        return Err(Error::new("chunk out of range"));
    }
    let c = &chunks[chunk];
    assert(views[chunk as int] == c@);
    if c.offsets.len() != g.dims.len() {
        return Err(Error::new("chunk rank mismatch"));
    }
    if next > g.filters.len() || next > 32 {
        return Err(Error::new("too many filters"));
    }
    match reverse_from(g.filters, next, g.elem_size, scaled, c.mask)? {
        Reversed::Bytes(b) => {
            let more = place_chunk(out, b, g, c.offsets.as_slice());
            materialize_chunks(data, base, chunks, chunk + 1, g, more)
        },
        Reversed::Float { next, block } => Ok(Progress::Float { out, chunk, next, block }),
    }
}

} // verus!
