//! Writing of chunks: an array is cut into chunks, each goes through the filters, and a
//! B-tree says where the chunks are.

use vstd::prelude::*;

use crate::error::Error;
use crate::format::chunk_index::{
    chunk_corner, chunk_counts, chunk_size, chunk_total, has_zero, size_of_chunk, Grid,
};
use crate::format::chunks::{gathered, moved, place};
use crate::format::dense::views_of;
use crate::format::encode::words64;
use crate::format::filters::{
    applied_view, apply, apply_from, filter_views, pipeline_forward, Applied, AppliedView,
    FilterView, RawFilter,
};
use crate::format::grid::{
    as_nats, coordinates, coords_of, count, element_number, lemma_number_bound, number_of,
    step_sizes, steps, within,
};
use crate::format::scaleoffset::FloatCells;
use crate::format::tree::{
    append, appended, child_views, end_of, extends, lemma_appended, lemma_extends, tree_written,
    write_btree, written_as, Child, ChildView, TreeForm, TreeShape,
};
use crate::format::{le_bytes, lemma_le_bytes_residue, lemma_pow256, push_le, zeroes, Buf};

verus! {

/// The bytes of the element `l` of a chunk.
spec fn cut(
    data: Seq<u8>,
    dims: Seq<u64>,
    cdims: Seq<u64>,
    at: Seq<u64>,
    size: nat,
    l: nat,
) -> Seq<u8> {
    let g = moved(at, coords_of(cdims, l));
    if within(dims, g) && (number_of(dims, g) + 1) * size <= data.len() {
        data.subrange((number_of(dims, g) * size) as int, ((number_of(dims, g) + 1) * size) as int)
    } else {
        zeroes(size)
    }
}

/// The first `l` elements of a chunk.
proof fn lemma_gathered_step(
    data: Seq<u8>,
    dims: Seq<u64>,
    cdims: Seq<u64>,
    at: Seq<u64>,
    size: nat,
    l: nat,
)
    requires
        size > 0,
        l < count(cdims),
    ensures
        gathered(data, dims, cdims, at, size).take(((l + 1) * size) as int) == gathered(
            data,
            dims,
            cdims,
            at,
            size,
        ).take((l * size) as int) + cut(data, dims, cdims, at, size, l),
        cut(data, dims, cdims, at, size, l).len() == size,
{
    let whole = gathered(data, dims, cdims, at, size);
    let c = cut(data, dims, cdims, at, size, l);
    let n = count(cdims);
    assert((l + 1) * size == l * size + size && (l + 1) * size <= n * size && l * size >= 0)
        by (nonlinear_arith)
        requires
            l + 1 <= n,
    ;
    let g = moved(at, coords_of(cdims, l));
    let e = number_of(dims, g);
    assert((e + 1) * size == e * size + size && e * size >= 0) by (nonlinear_arith);
    assert(c.len() == size);
    let left = whole.take(((l + 1) * size) as int);
    let right = whole.take((l * size) as int) + c;
    assert forall|q: int| 0 <= q < left.len() implies left[q] == right[q] by {
        if q >= l * size {
            let b = q - l * size;
            assert(q / size as int == l && q % size as int == b) by (nonlinear_arith)
                requires
                    size > 0,
                    q == l * size + b,
                    0 <= b < size,
            ;
        }
    }
    assert(left =~= right);
}

/// Cuts the elements of a chunk out of an array.
pub fn gather_chunk(
    data: &[u8],
    dims: &[u64],
    chunk_dims: &[u64],
    base: &[u64],
    elem_size: usize,
) -> (r: Vec<u8>)
    requires
        base@.len() == dims@.len(),
        chunk_dims@.len() == dims@.len(),
        count(dims@) <= u64::MAX,
        count(chunk_dims@) * elem_size <= usize::MAX,
        count(chunk_dims@) <= u64::MAX,
    ensures
        r@ == gathered(data@, dims@, chunk_dims@, base@, elem_size as nat),
{
    let ghost size = elem_size as nat;
    let ghost whole = gathered(data@, dims@, chunk_dims@, base@, size);
    let mut out: Vec<u8> = Vec::new();
    if elem_size == 0 {
        assert(count(chunk_dims@) * size == 0) by (nonlinear_arith)
            requires
                size == 0,
        ;
        assert(out@ =~= whole);
        return out;
    }
    let total: u64 = match crate::format::grid::checked_count(chunk_dims) {
        Some(n) => n,
        None => {
            return out;
        },
    };
    let cells: u64 = match crate::format::grid::checked_count(dims) {
        Some(n) => n,
        None => {
            return out;
        },
    };
    if total == 0 {
        assert(count(chunk_dims@) * size == 0) by (nonlinear_arith)
            requires
                count(chunk_dims@) == 0,
        ;
        assert(out@ =~= whole);
        return out;
    }
    if cells == 0 {
        let mut zero = Buf::new();
        assert(total <= total * elem_size && total * elem_size >= 0) by (nonlinear_arith)
            requires
                elem_size >= 1,
        ;
        zero.zeros(total as usize * elem_size);
        proof {
            assert forall|q: int| 0 <= q < whole.len() implies whole[q] == 0 by {
                let g = moved(base@, coords_of(chunk_dims@, (q / size as int) as nat));
                if within(dims@, g) {
                    lemma_number_bound(dims@, g);
                }
            }
            assert(zero@ =~= whole);
        }
        return zero.bytes;
    }
    let length: usize = data.len();
    let csteps = step_sizes(chunk_dims);
    let dsteps = step_sizes(dims);
    let mut l: u64 = 0;
    assert(whole.take(0) =~= out@);
    assert(0 * size == 0) by (nonlinear_arith);
    while l < total
        invariant
            l <= total == count(chunk_dims@),
            base@.len() == dims@.len(),
            chunk_dims@.len() == dims@.len(),
            count(dims@) <= u64::MAX,
            size == elem_size > 0,
            length == data@.len(),
            as_nats(csteps@) == steps(chunk_dims@),
            as_nats(dsteps@) == steps(dims@),
            whole == gathered(data@, dims@, chunk_dims@, base@, size),
            out@ == whole.take((l * size) as int),
        decreases total - l,
    {
        let c = coordinates(&csteps, l, Ghost(chunk_dims@));
        let ghost g = moved(base@, coords_of(chunk_dims@, l as nat));
        proof {
            lemma_gathered_step(data@, dims@, chunk_dims@, base@, size, l as nat);
        }
        let mut from: usize = length;
        match place(base, &c, dims) {
            None => {},
            Some(at) => {
                proof {
                    lemma_number_bound(dims@, g);
                }
                let e: u64 = element_number(&dsteps, &at, Ghost(dims@));
                proof {
                    assert(e * elem_size <= u64::MAX * u64::MAX) by (nonlinear_arith)
                        requires
                            e <= u64::MAX,
                            elem_size <= u64::MAX,
                    ;
                    assert((e + 1) * elem_size == e * elem_size + elem_size) by (nonlinear_arith);
                }
                let start: u128 = e as u128 * elem_size as u128;
                if start + elem_size as u128 <= length as u128 {
                    from = start as usize;
                }
            },
        }
        if from < length {
            out.extend_from_slice(vstd::slice::slice_subrange(data, from, from + elem_size));
        } else {
            let mut zero = Buf::new();
            zero.zeros(elem_size);
            out.extend_from_slice(zero.bytes.as_slice());
        }
        l += 1;
    }
    assert(whole.take(whole.len() as int) =~= whole);
    out
}

// Filtering.

/// How an array is cut into chunks that go through filters.
#[verifier::ext_equal]
pub struct CutView {
    pub data: Seq<u8>,
    pub dims: Seq<u64>,
    pub cdims: Seq<u64>,
    pub size: nat,
    pub filters: Seq<FilterView>,
}

impl CutView {
    /// The bytes of the chunk number `i`.
    pub open spec fn chunk(self, i: nat) -> Seq<u8> {
        gathered(
            self.data,
            self.dims,
            self.cdims,
            chunk_corner(self.dims, self.cdims, i),
            self.size,
        )
    }

    /// Whether `out` is what the filters make of the chunk number `i`.
    pub open spec fn filtered(self, i: nat, out: Result<AppliedView, Seq<char>>) -> bool {
        pipeline_forward(self.filters, 0, self.size, self.chunk(i), out)
    }

    /// Whether `stored` are the first chunks behind `from` as the filters make them.
    pub open spec fn all_filtered(self, from: nat, stored: Seq<Seq<u8>>) -> bool {
        forall|i: int|
            from <= i < stored.len() ==> self.filtered(
                i as nat,
                Ok(AppliedView::Bytes(#[trigger] stored[i])),
            )
    }

    /// The number of chunks, or why there are none.
    pub open spec fn total(self) -> Result<nat, Seq<char>> {
        match chunk_size(self.dims, self.cdims, self.size) {
            Err(e) => Err(e),
            Ok(_) => if count(self.dims) > u64::MAX {
                Err("too many elements"@)
            } else {
                chunk_total(self.dims, self.cdims)
            },
        }
    }
}

/// Chunks that were filtered.
pub enum ChunksOut {
    /// All of them.
    Done(Vec<Vec<u8>>),
    /// The first ones; the next one holds floating-point elements to be scaled, and the
    /// packed chunk goes on at filter `next`.
    Float { stored: Vec<Vec<u8>>, next: usize, cells: FloatCells },
}

/// Whether filtered chunks are those of `c`, where the first `from` were there before.
pub open spec fn filtered_as(
    c: CutView,
    done: Seq<Seq<u8>>,
    r: Result<ChunksOut, Error>,
) -> bool {
    match c.total() {
        Err(e) => r matches Err(x) && x@ == e,
        Ok(n) => if done.len() > n {
            r matches Err(x) && x@ == "too many chunks"@
        } else {
            match r {
                Ok(ChunksOut::Done(v)) => {
                    &&& v@.len() == n
                    &&& views_of(v@).take(done.len() as int) == done
                    &&& c.all_filtered(done.len(), views_of(v@))
                },
                Ok(ChunksOut::Float { stored, next, cells }) => {
                    &&& done.len() <= stored@.len() < n
                    &&& views_of(stored@).take(done.len() as int) == done
                    &&& c.all_filtered(done.len(), views_of(stored@))
                    &&& c.filtered(
                        stored@.len(),
                        applied_view(Ok(Applied::Float { next, cells })),
                    )
                },
                Err(x) => exists|i: nat| done.len() <= i < n && #[trigger] c.filtered(i, Err(x@)),
            }
        },
    }
}

/// Cuts an array into chunks and filters those behind the ones that are done.
pub fn filter_chunks(
    data: &[u8],
    dims: &[u64],
    chunk_dims: &[u64],
    elem_size: usize,
    filters: &[RawFilter],
    done: Vec<Vec<u8>>,
) -> (r: Result<ChunksOut, Error>)
    ensures
        filtered_as(
            (CutView {
                data: data@,
                dims: dims@,
                cdims: chunk_dims@,
                size: elem_size as nat,
                filters: filter_views(filters@),
            }),
            views_of(done@),
            r,
        ),
{
    let ghost c = CutView {
        data: data@,
        dims: dims@,
        cdims: chunk_dims@,
        size: elem_size as nat,
        filters: filter_views(filters@),
    };
    let bytes: u64 = size_of_chunk(dims, chunk_dims, elem_size)?;
    match crate::format::grid::checked_count(dims) {
        None => {
            return Err(Error::new("too many elements"));
        },
        Some(_) => {},
    }
    let grid = Grid::new(dims, chunk_dims)?;
    let ghost start = views_of(done@);
    if done.len() as u64 > grid.total {
        return Err(Error::new("too many chunks"));
    }
    let mut stored: Vec<Vec<u8>> = done;
    assert(views_of(stored@).take(start.len() as int) =~= start);
    while (stored.len() as u64) < grid.total
        invariant
            grid.wf(dims@, chunk_dims@),
            c == (CutView {
                data: data@,
                dims: dims@,
                cdims: chunk_dims@,
                size: elem_size as nat,
                filters: filter_views(filters@),
            }),
            c.total() == Ok::<nat, Seq<char>>(grid.total as nat),
            chunk_size(dims@, chunk_dims@, elem_size as nat) is Ok,
            count(dims@) <= u64::MAX,
            start == views_of(done@),
            start.len() <= stored@.len(),
            stored@.len() <= grid.total,
            views_of(stored@).take(start.len() as int) == start,
            c.all_filtered(start.len(), views_of(stored@)),
        decreases grid.total - stored@.len(),
    {
        let ghost i = stored@.len();
        let corner = grid.corner(chunk_dims, stored.len() as u64, Ghost(dims@));
        assert(chunk_dims@.take(chunk_dims@.len() as int) =~= chunk_dims@);
        let chunk = gather_chunk(data, dims, chunk_dims, corner.as_slice(), elem_size);
        assert(chunk@ == c.chunk(i));
        let ghost before = views_of(stored@);
        match apply(filters, elem_size, chunk.as_slice()) {
            Err(e) => {
                assert(c.filtered(i, Err(e@)));
                return Err(e);
            },
            Ok(Applied::Float { next, cells }) => {
                return Ok(ChunksOut::Float { stored, next, cells });
            },
            Ok(Applied::Bytes(v)) => {
                assert(c.filtered(i, Ok(AppliedView::Bytes(v@))));
                let ghost bytes = v@;
                stored.push(v);
                proof {
                    let now = views_of(stored@);
                    assert(now =~= before.push(bytes));
                    assert(now.take(start.len() as int) =~= before.take(start.len() as int));
                    assert forall|k: int| start.len() <= k < now.len() implies c.filtered(
                        k as nat,
                        Ok(AppliedView::Bytes(#[trigger] now[k])),
                    ) by {
                        if k < i {
                            assert(now[k] == before[k]);
                        }
                    }
                }
            },
        }
    }
    Ok(ChunksOut::Done(stored))
}

// Writing.

/// An image with blocks behind it, and their addresses.
pub open spec fn all_written(s: Seq<u8>, blocks: Seq<Seq<u8>>) -> (Seq<u8>, Seq<u64>)
    decreases blocks.len(),
{
    if blocks.len() == 0 {
        (s, Seq::empty())
    } else {
        let (s1, addrs) = all_written(s, blocks.drop_last());
        (appended(s1, blocks.last()), addrs.push(end_of(s1)))
    }
}

fn write_all(buf: &mut Vec<u8>, blocks: &Vec<Vec<u8>>) -> (r: Vec<u64>)
    ensures
        (final(buf)@, r@) == all_written(old(buf)@, views_of(blocks@)),
        r@.len() == blocks@.len(),
        extends(final(buf)@, old(buf)@),
{
    let ghost s = buf@;
    let ghost views = views_of(blocks@);
    let mut addrs: Vec<u64> = Vec::new();
    let mut i: usize = 0;
    assert(views.take(0) =~= Seq::empty());
    assert(s.take(s.len() as int) =~= s);
    while i < blocks.len()
        invariant
            i <= blocks@.len(),
            views == views_of(blocks@),
            addrs@.len() == i,
            extends(buf@, s),
            (buf@, addrs@) == all_written(s, views.take(i as int)),
        decreases blocks@.len() - i,
    {
        proof {
            assert(views.take(i + 1).drop_last() =~= views.take(i as int));
        }
        let ghost was = buf@;
        let a: u64 = append(buf, blocks[i].as_slice());
        proof {
            lemma_appended(was, blocks@[i as int]@);
            lemma_extends(s, was, buf@);
        }
        addrs.push(a);
        i += 1;
    }
    assert(views.take(views.len() as int) =~= views);
    addrs
}

/// The key of a chunk of `len` stored bytes.
pub open spec fn chunk_key(len: nat, corner: Seq<u64>) -> Seq<u8> {
    le_bytes(len, 4) + zeroes(4) + words64(corner) + zeroes(8)
}

/// The key behind the last chunk: one chunk further along the first dimension.
pub open spec fn end_key(corner: Seq<u64>, cdims: Seq<u64>, size: nat) -> Seq<u8> {
    zeroes(8) + (if corner.len() == 0 {
        Seq::empty()
    } else {
        le_bytes((corner[0] + cdims[0]) as nat, 8) + words64(corner.skip(1))
    }) + le_bytes(size, 8)
}

/// The key number `i`.
pub open spec fn key_at(dims: Seq<u64>, cdims: Seq<u64>, size: nat, stored: Seq<Seq<u8>>, i: nat)
    -> Seq<u8> {
    if i < stored.len() {
        chunk_key(stored[i as int].len(), chunk_corner(dims, cdims, i))
    } else {
        end_key(chunk_corner(dims, cdims, (stored.len() - 1) as nat), cdims, size)
    }
}

/// The chunks as children of a tree.
pub open spec fn chunk_children(
    dims: Seq<u64>,
    cdims: Seq<u64>,
    size: nat,
    stored: Seq<Seq<u8>>,
    addrs: Seq<u64>,
) -> Seq<ChildView> {
    Seq::new(
        stored.len(),
        |i: int|
            ChildView {
                first: key_at(dims, cdims, size, stored, i as nat),
                addr: addrs[i],
                last: key_at(dims, cdims, size, stored, (i + 1) as nat),
            },
    )
}

/// The shape of the tree of chunks with `rank` dimensions.
pub open spec fn chunk_shape(rank: nat) -> TreeShape {
    TreeShape { kind: 1, key: 16 + 8 * rank, cap: 64, empty: Seq::empty() }
}

/// Whether the length of a stored chunk does not fit into its key.
pub open spec fn chunk_oversized(stored: Seq<Seq<u8>>) -> bool {
    exists|i: int| 0 <= i < stored.len() && (#[trigger] stored[i]).len() > u32::MAX
}

/// An image with chunks and their tree behind it, and the address of its root. A key has
/// 32 bits for the length of a chunk.
pub open spec fn chunks_written(
    s: Seq<u8>,
    dims: Seq<u64>,
    cdims: Seq<u64>,
    size: nat,
    stored: Seq<Seq<u8>>,
) -> Result<(Seq<u8>, u64), Seq<char>> {
    if chunk_oversized(stored) {
        Err("stored chunk too large"@)
    } else {
        let (s1, addrs) = all_written(s, stored);
        tree_written(
            s1,
            chunk_shape(dims.len()),
            0,
            chunk_children(dims, cdims, size, stored, addrs),
        )
    }
}

fn any_oversized(stored: &Vec<Vec<u8>>) -> (r: bool)
    ensures
        r == chunk_oversized(views_of(stored@)),
{
    let ghost views = views_of(stored@);
    let mut i: usize = 0;
    while i < stored.len()
        invariant
            i <= stored@.len(),
            views == views_of(stored@),
            forall|k: int| 0 <= k < i ==> (#[trigger] views[k]).len() <= u32::MAX,
        decreases stored@.len() - i,
    {
        assert(views[i as int] == stored@[i as int]@);
        if stored[i].len() as u64 > u32::MAX as u64 {
            assert(views[i as int].len() > u32::MAX);
            return true;
        }
        i += 1;
    }
    false
}

fn push_words(b: &mut Buf, v: &[u64])
    ensures
        final(b)@ == old(b)@ + words64(v@),
{
    let ghost start = b@;
    let mut i: usize = 0;
    assert(start + words64(v@.take(0)) =~= start);
    while i < v.len()
        invariant
            i <= v@.len(),
            b@ == start + words64(v@.take(i as int)),
        decreases v@.len() - i,
    {
        b.u64(v[i]);
        proof {
            assert(v@.take(i + 1).drop_last() =~= v@.take(i as int));
            assert(b@ =~= start + words64(v@.take(i + 1)));
        }
        i += 1;
    }
    assert(v@.take(v@.len() as int) =~= v@);
}

fn key_of(len: usize, corner: &Vec<u64>) -> (r: Vec<u8>)
    ensures
        r@ == chunk_key(len as nat, corner@),
{
    let mut b = Buf::new();
    push_le(&mut b.bytes, len as u64, 4);
    b.zeros(4);
    push_words(&mut b, corner.as_slice());
    b.zeros(8);
    assert(b@ =~= chunk_key(len as nat, corner@));
    b.bytes
}

fn last_key(corner: &Vec<u64>, cdims: &[u64], size: usize) -> (r: Vec<u8>)
    requires
        corner@.len() == cdims@.len(),
    ensures
        r@ == end_key(corner@, cdims@, size as nat),
{
    let mut b = Buf::new();
    b.zeros(8);
    if corner.len() > 0 {
        let sum: u64 = corner[0].wrapping_add(cdims[0]);
        proof {
            lemma_pow256();
            lemma_le_bytes_residue((corner@[0] + cdims@[0]) as nat, 8, 8);
        }
        b.u64(sum);
        let rest = vstd::slice::slice_subrange(corner.as_slice(), 1, corner.len());
        assert(rest@ =~= corner@.skip(1));
        push_words(&mut b, rest);
    }
    b.u64(size as u64);
    assert(b@ =~= end_key(corner@, cdims@, size as nat));
    b.bytes
}

/// Writes filtered chunks and the B-tree that says where they are, and returns the
/// address of its root.
pub fn write_chunks(
    buf: &mut Vec<u8>,
    dims: &[u64],
    chunk_dims: &[u64],
    elem_size: usize,
    stored: &Vec<Vec<u8>>,
) -> (r: Result<u64, Error>)
    requires
        dims@.len() <= 255,
        chunk_dims@.len() == dims@.len(),
        !has_zero(chunk_dims@),
        stored@.len() == count(chunk_counts(dims@, chunk_dims@)),
    ensures
        written_as(
            r,
            final(buf)@,
            chunks_written(
                old(buf)@,
                dims@,
                chunk_dims@,
                elem_size as nat,
                views_of(stored@),
            ),
        ),
        r is Ok ==> extends(final(buf)@, old(buf)@),
{
    let ghost s = buf@;
    let ghost views = views_of(stored@);
    let ghost size = elem_size as nat;
    let total: usize = stored.len();
    if any_oversized(stored) {
        return Err(Error::new("stored chunk too large"));
    }
    let addrs: Vec<u64> = write_all(buf, stored);
    let ghost s1 = buf@;
    let mut children: Vec<Child> = Vec::new();
    match Grid::new(dims, chunk_dims) {
        Err(e) => {
            return Err(e);
        },
        Ok(grid) => {
            let mut i: usize = 0;
            while i < total
                invariant
                    i <= total == stored@.len() == addrs@.len(),
                    views == views_of(stored@),
                    size == elem_size,
                    grid.wf(dims@, chunk_dims@),
                    grid.total == total,
                    children@.len() == i,
                    forall|k: int|
                        0 <= k < i ==> (#[trigger] children@[k])@ == chunk_children(
                            dims@,
                            chunk_dims@,
                            size,
                            views,
                            addrs@,
                        )[k],
                decreases total - i,
            {
                let corner = grid.corner(chunk_dims, i as u64, Ghost(dims@));
                let first = key_of(stored[i].len(), &corner);
                let last = if i + 1 < total {
                    let next = grid.corner(chunk_dims, (i + 1) as u64, Ghost(dims@));
                    key_of(stored[i + 1].len(), &next)
                } else {
                    last_key(&corner, chunk_dims, elem_size)
                };
                let c = Child { first, addr: addrs[i], last };
                assert(c@ == chunk_children(dims@, chunk_dims@, size, views, addrs@)[i as int]);
                children.push(c);
                i += 1;
            }
        },
    }
    assert(child_views(children@) =~= chunk_children(dims@, chunk_dims@, size, views, addrs@));
    let form = TreeForm { kind: 1, key: 16 + 8 * dims.len(), cap: 64, empty: Vec::new() };
    assert(form@ =~= chunk_shape(dims@.len()));
    let r = write_btree(buf, &form, &children);
    proof {
        if r is Ok {
            lemma_extends(s, s1, buf@);
        }
    }
    r
}

/// Whether filtering goes on as it should once the elements of the chunk behind `stored`
/// were scaled: they go on through the filters from `next` on. When they are through, the
/// chunk is stored and the chunks behind it follow.
pub open spec fn filtering_resumed(
    c: CutView,
    stored: Seq<Seq<u8>>,
    next: int,
    scaled: Seq<u8>,
    r: Result<ChunksOut, Error>,
) -> bool {
    if next > c.filters.len() {
        r matches Err(x) && x@ == "too many filters"@
    } else {
        exists|out: Result<AppliedView, Seq<char>>| #[trigger]
            pipeline_forward(c.filters, next, c.size, scaled, out) && match out {
                Err(e) => r matches Err(x) && x@ == e,
                Ok(AppliedView::Bytes(b)) => filtered_as(c, stored.push(b), r),
                Ok(AppliedView::Float { next: n, cells: x }) => r matches Ok(
                    ChunksOut::Float { stored: v, next: m, cells },
                ) && views_of(v@) == stored && applied_view(
                    Ok(Applied::Float { next: m, cells }),
                ) == Ok::<AppliedView, Seq<char>>(AppliedView::Float { next: n, cells: x }),
            }
    }
}

/// Goes on filtering chunks, with the scaled elements of the one behind `stored`.
pub fn resume_filtering(
    data: &[u8],
    dims: &[u64],
    chunk_dims: &[u64],
    elem_size: usize,
    filters: &[RawFilter],
    stored: Vec<Vec<u8>>,
    next: usize,
    scaled: &[u8],
) -> (r: Result<ChunksOut, Error>)
    ensures
        filtering_resumed(
            (CutView {
                data: data@,
                dims: dims@,
                cdims: chunk_dims@,
                size: elem_size as nat,
                filters: filter_views(filters@),
            }),
            views_of(stored@),
            next as int,
            scaled@,
            r,
        ),
{
    if next > filters.len() {
        return Err(Error::new("too many filters"));
    }
    let ghost before = views_of(stored@);
    let ghost c = CutView {
        data: data@,
        dims: dims@,
        cdims: chunk_dims@,
        size: elem_size as nat,
        filters: filter_views(filters@),
    };
    assert(filter_views(filters@).len() == filters@.len());
    let out = apply_from(filters, next, elem_size, scaled);
    let ghost seen = applied_view(out);
    assert(pipeline_forward(c.filters, next as int, c.size, scaled@, seen));
    match out {
        Err(e) => Err(e),
        Ok(Applied::Float { next, cells }) => Ok(ChunksOut::Float { stored, next, cells }),
        Ok(Applied::Bytes(b)) => {
            let ghost bytes = b@;
            let mut done: Vec<Vec<u8>> = stored;
            done.push(b);
            assert(views_of(done@) =~= before.push(bytes));
            filter_chunks(data, dims, chunk_dims, elem_size, filters, done)
        },
    }
}

} // verus!
