//! Chunk indexes: where the chunks of a dataset are stored.

use vstd::prelude::*;

use crate::error::Error;
use crate::format::bits::{lemma_pow2_monotone, lemma_pow2_positive, lemma_pow2_values, pow2};
use crate::format::earray::{array_element, array_parsed, ArrayInfo, ExtensibleArray};
use crate::format::gheap::{cursor_at, is_signature, rest_at};
use crate::format::grid::{
    as_nats, checked_count, coordinates, coords_of, count, countable, counted, step_sizes, steps,
    within,
};
use crate::format::messages::ChunkIndex;
use crate::format::v2::{
    btree_read, field, lemma_field_bound, lemma_one_byte, power2, read_v2btree, record_views,
};
use crate::format::{
    dropped, eof_text, le_at, taken_bytes, taken_sized, taken_uint, Cursor, UNDEF,
};
use crate::model::{chunk_views, ChunkRef, ChunkView};
use crate::text::{decimal, with_number};

verus! {

/// The largest chunk that is read.
pub const CHUNK_LIMIT: u64 = 0x2_0000_0000;

/// Whether a dimension is zero.
pub open spec fn has_zero(v: Seq<u64>) -> bool {
    exists|i: int| 0 <= i < v.len() && #[trigger] v[i] == 0
}

/// The size of a chunk.
pub open spec fn chunk_size(dims: Seq<u64>, cdims: Seq<u64>, elem: nat) -> Result<nat, Seq<char>> {
    if cdims.len() != dims.len() {
        Err("chunk rank mismatch"@)
    } else if has_zero(cdims) {
        Err("zero chunk dimension"@)
    } else if !countable(cdims) || count(cdims) * elem > CHUNK_LIMIT || count(cdims) * elem
        > usize::MAX {
        Err("chunk too large"@)
    } else {
        Ok(count(cdims) * elem)
    }
}

/// Computes the size of a chunk.
pub fn size_of_chunk(dims: &[u64], cdims: &[u64], elem: usize) -> (r: Result<u64, Error>)
    ensures
        match (r, chunk_size(dims@, cdims@, elem as nat)) {
            (Ok(a), Ok(b)) => a == b && a <= CHUNK_LIMIT && a <= usize::MAX,
            (Err(e), Err(m)) => e@ == m,
            _ => false,
        },
{
    let n: usize = dims.len();
    if cdims.len() != n {
        return Err(Error::new("chunk rank mismatch"));
    }
    let mut i: usize = 0;
    while i < n
        invariant
            i <= n == cdims@.len(),
            cdims@.len() == dims@.len(),
            forall|j: int| 0 <= j < i ==> #[trigger] cdims@[j] != 0,
        decreases n - i,
    {
        if cdims[i] == 0 {
            assert(has_zero(cdims@));
            return Err(Error::new("zero chunk dimension"));
        }
        i += 1;
    }
    match counted(cdims) {
        None => Err(Error::new("chunk too large")),
        Some(k) => {
            assert(k * elem <= 0xffff_ffff_ffff_ffff * 0xffff_ffff_ffff_ffff) by (nonlinear_arith)
                requires
                    0 <= k <= 0xffff_ffff_ffff_ffff,
                    0 <= elem <= 0xffff_ffff_ffff_ffff,
            ;
            let total: u128 = k as u128 * elem as u128;
            if total > CHUNK_LIMIT as u128 || total > usize::MAX as u128 {
                return Err(Error::new("chunk too large"));
            }
            Ok(total as u64)
        },
    }
}

// The grid of chunks.

/// The number of chunks along each dimension, at least one.
pub open spec fn chunk_counts(dims: Seq<u64>, cdims: Seq<u64>) -> Seq<u64> {
    Seq::new(
        dims.len(),
        |k: int|
            if dims[k] == 0 {
                1
            } else {
                ((dims[k] - 1) / cdims[k] as int + 1) as u64
            },
    )
}

/// The corner of the chunk number `i`, in row-major order.
pub open spec fn chunk_corner(dims: Seq<u64>, cdims: Seq<u64>, i: nat) -> Seq<u64> {
    Seq::new(
        dims.len(),
        |k: int| (coords_of(chunk_counts(dims, cdims), i)[k] * cdims[k]) as u64,
    )
}

/// The number of chunks, where it is in range.
pub open spec fn chunk_total(dims: Seq<u64>, cdims: Seq<u64>) -> Result<nat, Seq<char>> {
    if count(chunk_counts(dims, cdims)) > u64::MAX {
        Err("too many chunks"@)
    } else {
        Ok(count(chunk_counts(dims, cdims)))
    }
}

/// The grid of the chunks of a dataset.
pub struct Grid {
    pub counts: Vec<u64>,
    pub step: Vec<u64>,
    pub total: u64,
}

impl Grid {
    pub open spec fn wf(self, dims: Seq<u64>, cdims: Seq<u64>) -> bool {
        &&& self.counts@ == chunk_counts(dims, cdims)
        &&& self.total == count(self.counts@)
        &&& self.total > 0
        &&& as_nats(self.step@) == steps(self.counts@)
        &&& cdims.len() == dims.len()
        &&& !has_zero(cdims)
    }

    pub fn new(dims: &[u64], cdims: &[u64]) -> (r: Result<Self, Error>)
        requires
            cdims@.len() == dims@.len(),
            !has_zero(cdims@),
        ensures
            match (r, chunk_total(dims@, cdims@)) {
                (Ok(g), Ok(n)) => g.wf(dims@, cdims@) && g.total == n,
                (Err(e), Err(m)) => e@ == m,
                _ => false,
            },
    {
        let n: usize = dims.len();
        let mut counts: Vec<u64> = Vec::new();
        let mut i: usize = 0;
        while i < n
            invariant
                i <= n == dims@.len() == cdims@.len(),
                !has_zero(cdims@),
                counts@.len() == i,
                forall|k: int|
                    0 <= k < i ==> #[trigger] counts@[k] == chunk_counts(dims@, cdims@)[k]
                        && counts@[k] >= 1,
            decreases n - i,
        {
            assert(cdims@[i as int] != 0);
            if dims[i] == 0 {
                counts.push(1);
            } else {
                proof {
                    let (a, b) = (dims@[i as int] - 1, cdims@[i as int] as int);
                    assert(0 <= a / b <= a) by (nonlinear_arith)
                        requires
                            a >= 0,
                            b >= 1,
                    ;
                }
                counts.push((dims[i] - 1) / cdims[i] + 1);
            }
            i += 1;
        }
        assert(counts@ =~= chunk_counts(dims@, cdims@));
        proof {
            lemma_count_positive(counts@);
        }
        match checked_count(counts.as_slice()) {
            None => Err(Error::new("too many chunks")),
            Some(total) => {
                let step = step_sizes(counts.as_slice());
                Ok(Grid { counts, step, total })
            },
        }
    }

    /// The corner of a chunk.
    pub fn corner(&self, cdims: &[u64], i: u64, Ghost(dims): Ghost<Seq<u64>>) -> (r: Vec<u64>)
        requires
            self.wf(dims, cdims@),
            i < self.total,
        ensures
            r@ == chunk_corner(dims, cdims@, i as nat),
    {
        let c = coordinates(&self.step, i, Ghost(self.counts@));
        let n: usize = cdims.len();
        let mut out: Vec<u64> = Vec::new();
        let mut k: usize = 0;
        while k < n
            invariant
                k <= n == cdims@.len() == c@.len(),
                dims.len() == cdims@.len(),
                !has_zero(cdims@),
                self.counts@ == chunk_counts(dims, cdims@),
                as_nats(c@) == coords_of(self.counts@, i as nat),
                within(self.counts@, as_nats(c@)),
                out@.len() == k,
                forall|j: int|
                    0 <= j < k ==> #[trigger] out@[j] == chunk_corner(dims, cdims@, i as nat)[j],
            decreases n - k,
        {
            proof {
                assert(as_nats(c@)[k as int] == c@[k as int]);
                assert(as_nats(c@)[k as int] < self.counts@[k as int]);
                assert(cdims@[k as int] != 0);
                let (x, b, d) = (c@[k as int] as int, cdims@[k as int] as int, dims[k as int] as int);
                if d == 0 {
                    assert(x == 0);
                    assert(x * b == 0) by (nonlinear_arith)
                        requires
                            x == 0,
                    ;
                } else {
                    let a = d - 1;
                    assert(0 <= a / b <= a) by (nonlinear_arith)
                        requires
                            a >= 0,
                            b >= 1,
                    ;
                    assert(x <= a / b);
                    assert(0 <= x * b <= a) by (nonlinear_arith)
                        requires
                            0 <= x <= a / b,
                            b >= 1,
                            a >= 0,
                    ;
                }
            }
            out.push(c[k] * cdims[k]);
            k += 1;
        }
        assert(out@ =~= chunk_corner(dims, cdims@, i as nat));
        out
    }
}

proof fn lemma_count_positive(v: Seq<u64>)
    requires
        forall|i: int| 0 <= i < v.len() ==> #[trigger] v[i] >= 1,
    ensures
        count(v) >= 1,
    decreases v.len(),
{
    if v.len() > 0 {
        assert forall|i: int| 0 <= i < v.skip(1).len() implies #[trigger] v.skip(1)[i] >= 1 by {
            assert(v.skip(1)[i] == v[i + 1]);
        }
        lemma_count_positive(v.skip(1));
        let (a, b) = (v[0] as nat, count(v.skip(1)));
        assert(a * b >= 1) by (nonlinear_arith)
            requires
                a >= 1,
                b >= 1,
        ;
    }
}

/// Whether reading a list of chunks came out as `s` says.
pub open spec fn chunks_as(
    r: Result<Vec<ChunkRef>, Error>,
    s: Result<Seq<ChunkView>, Seq<char>>,
) -> bool {
    match (r, s) {
        (Ok(a), Ok(b)) => chunk_views(a@) == b,
        (Err(e), Err(m)) => e@ == m,
        _ => false,
    }
}

// Version 1 B-trees.

/// The chunks of the B-tree node at an address, behind `acc`. The tree is at most
/// `depth` levels high.
pub open spec fn tree_chunks(
    data: Seq<u8>,
    base: u64,
    addr: u64,
    rank: nat,
    depth: nat,
    acc: Seq<ChunkView>,
) -> Result<Seq<ChunkView>, Seq<char>>
    decreases depth, 0nat,
{
    if addr == UNDEF {
        Ok(acc)
    } else if depth == 0 {
        Err("chunk B-tree nested too deeply"@)
    } else {
        match taken_bytes(rest_at(data, base + addr), 4) {
            Err(e) => Err(e),
            Ok((sig, r)) => if sig != seq![84u8, 82u8, 69u8, 69u8] {
                Err("bad chunk TREE signature"@)
            } else if r.len() < 1 {
                Err(eof_text())
            } else if r[0] != 1 {
                Err("expected chunk B-tree node"@)
            } else {
                match taken_bytes(r, 20) {
                    Err(e) => Err(e),
                    Ok((h, rest)) => entries_chunks(
                        data,
                        base,
                        rest,
                        rank,
                        h[1] == 0,
                        le_at(h, 2, 2),
                        (depth - 1) as nat,
                        acc,
                    ),
                }
            },
        }
    }
}

/// The first `rank` numbers of 8 bytes from the place `p` on.
pub open spec fn offsets_at(b: Seq<u8>, p: int, rank: nat) -> Seq<u64> {
    Seq::new(rank, |k: int| le_at(b, p + 8 * k, 8) as u64)
}

/// The same for the `n` entries of a node that start with `s`.
pub open spec fn entries_chunks(
    data: Seq<u8>,
    base: u64,
    s: Seq<u8>,
    rank: nat,
    leaf: bool,
    n: nat,
    depth: nat,
    acc: Seq<ChunkView>,
) -> Result<Seq<ChunkView>, Seq<char>>
    decreases depth, n + 1,
{
    if n == 0 {
        Ok(acc)
    } else {
        match taken_bytes(s, 24 + 8 * rank) {
            Err(e) => Err(e),
            Ok((b, rest)) => {
                let child = le_at(b, (16 + 8 * rank) as int, 8) as u64;
                if leaf {
                    entries_chunks(
                        data,
                        base,
                        rest,
                        rank,
                        leaf,
                        (n - 1) as nat,
                        depth,
                        acc.push(
                            ChunkView {
                                offsets: offsets_at(b, 8, rank),
                                size: le_at(b, 0, 4),
                                mask: le_at(b, 4, 4) as u32,
                                addr: child,
                            },
                        ),
                    )
                } else {
                    match tree_chunks(data, base, child, rank, depth, acc) {
                        Err(e) => Err(e),
                        Ok(v) => entries_chunks(
                            data,
                            base,
                            rest,
                            rank,
                            leaf,
                            (n - 1) as nat,
                            depth,
                            v,
                        ),
                    }
                }
            },
        }
    }
}

fn read_offsets(b: &[u8], p: usize, rank: usize) -> (r: Vec<u64>)
    requires
        rank <= 0x1_0000_0000,
        p + 8 * rank <= b@.len(),
    ensures
        r@ == offsets_at(b@, p as int, rank as nat),
{
    let n: usize = b.len();
    let mut out: Vec<u64> = Vec::new();
    let mut k: usize = 0;
    while k < rank
        invariant
            k <= rank,
            p + 8 * rank <= b@.len() == n,
            out@ =~= offsets_at(b@, p as int, k as nat),
        decreases rank - k,
    {
        let x: u64 = field(b, p + 8 * k, 8);
        out.push(x);
        k += 1;
    }
    out
}

fn walk_chunk_btree(
    data: &[u8],
    base: u64,
    addr: u64,
    rank: usize,
    depth: usize,
    acc: Vec<ChunkRef>,
) -> (r: Result<Vec<ChunkRef>, Error>)
    requires
        rank <= 0x1_0000_0000,
        24 + 8 * rank <= usize::MAX,
    ensures
        chunks_as(
            r,
            tree_chunks(data@, base, addr, rank as nat, depth as nat, chunk_views(acc@)),
        ),
    decreases depth,
{
    if addr == UNDEF {
        return Ok(acc);
    }
    if depth == 0 {
        return Err(Error::new("chunk B-tree nested too deeply"));
    }
    let mut c = cursor_at(data, base, addr);
    let sig = c.next_bytes(4)?;
    if !is_signature(sig, 84, 82, 69, 69) {
        return Err(Error::new("bad chunk TREE signature"));
    }
    let ghost body = c.rest();
    let kind: u64 = {
        let mut k = Cursor::at(c.data, c.pos);
        assert(k.rest() =~= body);
        k.next_uint(1)?
    };
    proof {
        lemma_one_byte(body, 0);
        assert(body.skip(0) =~= body);
    }
    if kind != 1 {
        return Err(Error::new("expected chunk B-tree node"));
    }
    let h = c.next_bytes(20)?;
    let leaf: bool = h[1] == 0;
    proof {
        lemma_field_bound(h@, 2, 2);
    }
    let n: u64 = field(h, 2, 2);
    let mut out = acc;
    let mut i: u64 = 0;
    let ghost whole = tree_chunks(
        data@,
        base,
        addr,
        rank as nat,
        depth as nat,
        chunk_views(acc@),
    );
    while i < n
        invariant
            i <= n,
            depth > 0,
            rank <= 0x1_0000_0000,
            24 + 8 * rank <= usize::MAX,
            whole == tree_chunks(
                data@,
                base,
                addr,
                rank as nat,
                depth as nat,
                chunk_views(acc@),
            ),
            whole == entries_chunks(
                data@,
                base,
                c.rest(),
                rank as nat,
                leaf,
                (n - i) as nat,
                (depth - 1) as nat,
                chunk_views(out@),
            ),
        decreases n - i,
    {
        let b = c.next_bytes(24 + 8 * rank)?;
        let child: u64 = field(b, 16 + 8 * rank, 8);
        if leaf {
            proof {
                lemma_field_bound(b@, 4, 4);
            }
            let item = ChunkRef {
                offsets: read_offsets(b, 8, rank),
                size: field(b, 0, 4),
                mask: field(b, 4, 4) as u32,
                addr: child,
            };
            let ghost before = out@;
            out.push(item);
            assert(chunk_views(out@) =~= chunk_views(before).push(item@));
        } else {
            out = walk_chunk_btree(data, base, child, rank, depth - 1, out)?;
        }
        i += 1;
    }
    Ok(out)
}

// Fixed arrays.

/// An entry of an index: the address of a chunk, its stored size where chunks are
/// filtered, and the mask of the filters that were skipped.
#[derive(Clone, Copy, Debug)]
pub struct Entry {
    pub addr: u64,
    pub size: Option<u32>,
    pub mask: u32,
}

/// The width of a stored size in entries of some size.
pub open spec fn size_field(entry_size: nat) -> nat {
    if entry_size > 13 {
        (entry_size - 12) as nat
    } else {
        1
    }
}

/// The entry that starts with `s`, and what follows it.
pub open spec fn entry_taken(s: Seq<u8>, client: u8, entry_size: nat) -> Result<
    (Entry, Seq<u8>),
    Seq<char>,
> {
    match taken_uint(s, 8) {
        Err(e) => Err(e),
        Ok((addr, r)) => if client == 0 {
            Ok((Entry { addr: addr as u64, size: None, mask: 0 }, r))
        } else {
            match taken_sized(r, size_field(entry_size)) {
                Err(e) => Err(e),
                Ok((size, r2)) => match taken_uint(r2, 4) {
                    Err(e) => Err(e),
                    Ok((mask, r3)) => Ok(
                        (
                            Entry {
                                addr: addr as u64,
                                size: Some((size as u64) as u32),
                                mask: mask as u32,
                            },
                            r3,
                        ),
                    ),
                },
            }
        },
    }
}

/// `n` entries behind `acc`, and what follows them.
pub open spec fn entries_taken(
    s: Seq<u8>,
    client: u8,
    entry_size: nat,
    n: nat,
    acc: Seq<Entry>,
) -> Result<(Seq<Entry>, Seq<u8>), Seq<char>>
    decreases n,
{
    if n == 0 {
        Ok((acc, s))
    } else {
        match entry_taken(s, client, entry_size) {
            Err(e) => Err(e),
            Ok((x, r)) => entries_taken(r, client, entry_size, (n - 1) as nat, acc.push(x)),
        }
    }
}

/// `left` entries in pages of `page` entries, each followed by a checksum, behind
/// `acc`.
pub open spec fn pages_taken(
    s: Seq<u8>,
    client: u8,
    entry_size: nat,
    page: nat,
    left: nat,
    acc: Seq<Entry>,
) -> Result<Seq<Entry>, Seq<char>>
    decreases left,
{
    if left == 0 || page == 0 {
        Ok(acc)
    } else {
        let n = if left < page {
            left
        } else {
            page
        };
        match entries_taken(s, client, entry_size, n, acc) {
            Err(e) => Err(e),
            Ok((v, r)) => match taken_bytes(r, 4) {
                Err(e) => Err(e),
                Ok((sum, rest)) => pages_taken(
                    rest,
                    client,
                    entry_size,
                    page,
                    (left - n) as nat,
                    v,
                ),
            },
        }
    }
}

/// The entries of the fixed array with its header at an address; none where its data
/// block was not stored.
pub open spec fn fixed_entries(data: Seq<u8>, base: u64, addr: u64) -> Result<
    Seq<Entry>,
    Seq<char>,
> {
    match taken_bytes(rest_at(data, base + addr), 4) {
        Err(e) => Err(e),
        Ok((sig, r)) => if sig != seq![70u8, 65u8, 72u8, 68u8] {
            Err("bad FAHD signature"@)
        } else {
            match taken_bytes(r, 24) {
                Err(e) => Err(e),
                Ok((h, r2)) => if le_at(h, 12, 8) == UNDEF {
                    Ok(Seq::empty())
                } else {
                    fixed_block(
                        data,
                        base,
                        le_at(h, 12, 8) as u64,
                        h[1],
                        h[2] as nat,
                        pow2(h[3] as nat),
                        le_at(h, 4, 8),
                    )
                },
            }
        },
    }
}

/// The `n` entries of the data block at an address.
pub open spec fn fixed_block(
    data: Seq<u8>,
    base: u64,
    addr: u64,
    client: u8,
    entry_size: nat,
    page: nat,
    n: nat,
) -> Result<Seq<Entry>, Seq<char>> {
    match taken_bytes(rest_at(data, base + addr), 4) {
        Err(e) => Err(e),
        Ok((sig, r)) => if sig != seq![70u8, 65u8, 68u8, 66u8] {
            Err("bad FADB signature"@)
        } else {
            match taken_bytes(r, 10) {
                Err(e) => Err(e),
                Ok((head, r2)) => if n <= page {
                    match entries_taken(r2, client, entry_size, n, Seq::empty()) {
                        Err(e) => Err(e),
                        Ok((v, rest)) => Ok(v),
                    }
                } else {
                    match taken_bytes(dropped(r2, bitmap_size(n, page) as int), 4) {
                        Err(e) => Err(e),
                        Ok((sum, r3)) => pages_taken(
                            r3,
                            client,
                            entry_size,
                            page,
                            n,
                            Seq::empty(),
                        ),
                    }
                },
            }
        },
    }
}

/// The size of the bitmap of pages.
pub open spec fn bitmap_size(n: nat, page: nat) -> nat {
    ((n + page - 1) as nat / page + 7) / 8
}

fn read_entry(c: &mut Cursor, client: u8, entry_size: u8) -> (r: Result<Entry, Error>)
    ensures
        final(c).data@ == old(c).data@,
        match (r, entry_taken(old(c).rest(), client, entry_size as nat)) {
            (Ok(a), Ok((b, rest))) => a == b && final(c).rest() == rest,
            (Err(e), Err(m)) => e@ == m,
            _ => false,
        },
{
    let addr: u64 = c.next_uint(8)?;
    if client == 0 {
        return Ok(Entry { addr, size: None, mask: 0 });
    }
    let width: usize = if entry_size > 13 {
        (entry_size - 12) as usize
    } else {
        1
    };
    let size: u64 = c.next_sized(width)?;
    let ghost s = c.rest();
    proof {
        if s.len() >= 4 {
            lemma_field_bound(s, 0, 4);
            assert(s.subrange(0, 4) =~= s.take(4));
        }
    }
    let mask: u64 = c.next_uint(4)?;
    Ok(Entry { addr, size: Some(size as u32), mask: mask as u32 })
}

fn read_entries(c: &mut Cursor, client: u8, entry_size: u8, n: u64, acc: Vec<Entry>) -> (r: Result<
    Vec<Entry>,
    Error,
>)
    ensures
        final(c).data@ == old(c).data@,
        match (r, entries_taken(old(c).rest(), client, entry_size as nat, n as nat, acc@)) {
            (Ok(a), Ok((b, rest))) => a@ == b && final(c).rest() == rest,
            (Err(e), Err(m)) => e@ == m,
            _ => false,
        },
{
    let mut out = acc;
    let ghost whole = entries_taken(c.rest(), client, entry_size as nat, n as nat, acc@);
    let mut i: u64 = 0;
    while i < n
        invariant
            i <= n,
            c.data@ == old(c).data@,
            whole == entries_taken(
                old(c).rest(),
                client,
                entry_size as nat,
                n as nat,
                acc@,
            ),
            whole == entries_taken(
                c.rest(),
                client,
                entry_size as nat,
                (n - i) as nat,
                out@,
            ),
        decreases n - i,
    {
        let x = read_entry(c, client, entry_size)?;
        out.push(x);
        i += 1;
    }
    Ok(out)
}

fn read_pages(c: &mut Cursor, client: u8, entry_size: u8, page: u64, n: u64) -> (r: Result<
    Vec<Entry>,
    Error,
>)
    requires
        page > 0,
    ensures
        match (
            r,
            pages_taken(
                old(c).rest(),
                client,
                entry_size as nat,
                page as nat,
                n as nat,
                Seq::empty(),
            ),
        ) {
            (Ok(a), Ok(b)) => a@ == b,
            (Err(e), Err(m)) => e@ == m,
            _ => false,
        },
{
    let mut out: Vec<Entry> = Vec::new();
    let ghost whole = pages_taken(
        c.rest(),
        client,
        entry_size as nat,
        page as nat,
        n as nat,
        Seq::empty(),
    );
    let mut left: u64 = n;
    while left > 0
        invariant
            page > 0,
            whole == pages_taken(
                old(c).rest(),
                client,
                entry_size as nat,
                page as nat,
                n as nat,
                Seq::empty(),
            ),
            whole == pages_taken(
                c.rest(),
                client,
                entry_size as nat,
                page as nat,
                left as nat,
                out@,
            ),
        decreases left,
    {
        let k: u64 = if left < page {
            left
        } else {
            page
        };
        out = read_entries(c, client, entry_size, k, out)?;
        let _sum = c.next_bytes(4)?;
        left = left - k;
    }
    Ok(out)
}

fn read_fixed_block(
    data: &[u8],
    base: u64,
    addr: u64,
    client: u8,
    entry_size: u8,
    page_bits: u8,
    n: u64,
) -> (r: Result<Vec<Entry>, Error>)
    ensures
        match (
            r,
            fixed_block(
                data@,
                base,
                addr,
                client,
                entry_size as nat,
                pow2(page_bits as nat),
                n as nat,
            ),
        ) {
            (Ok(a), Ok(b)) => a@ == b,
            (Err(e), Err(m)) => e@ == m,
            _ => false,
        },
{
    let mut c = cursor_at(data, base, addr);
    let sig = c.next_bytes(4)?;
    if !is_signature(sig, 70, 65, 68, 66) {
        return Err(Error::new("bad FADB signature"));
    }
    let _head = c.next_bytes(10)?;
    proof {
        lemma_pow2_values();
        lemma_pow2_positive(page_bits as nat);
        if page_bits >= 64 {
            lemma_pow2_monotone(64, page_bits as nat);
        }
    }
    if page_bits >= 64 || n <= power2(page_bits as u32) {
        return read_entries(&mut c, client, entry_size, n, Vec::new());
    }
    let page: u64 = power2(page_bits as u32);
    let pages: u128 = (n as u128 + page as u128 - 1) / page as u128;
    proof {
        let x = n + page - 1;
        assert(x / page as int <= x) by (nonlinear_arith)
            requires
                x >= 0,
                page >= 1,
        ;
    }
    let bitmap: u128 = (pages + 7) / 8;
    crate::format::earray::pass_far(&mut c, bitmap);
    let _sum = c.next_bytes(4)?;
    read_pages(&mut c, client, entry_size, page, n)
}

/// Reads the entries of a fixed array.
pub fn read_fixed_array(data: &[u8], base: u64, header_addr: u64) -> (r: Result<
    Vec<Entry>,
    Error,
>)
    ensures
        match (r, fixed_entries(data@, base, header_addr)) {
            (Ok(a), Ok(b)) => a@ == b,
            (Err(e), Err(m)) => e@ == m,
            _ => false,
        },
{
    let mut c = cursor_at(data, base, header_addr);
    let sig = c.next_bytes(4)?;
    if !is_signature(sig, 70, 65, 72, 68) {
        return Err(Error::new("bad FAHD signature"));
    }
    let h = c.next_bytes(24)?;
    let block: u64 = field(h, 12, 8);
    if block == UNDEF {
        return Ok(Vec::new());
    }
    read_fixed_block(data, base, block, h[1], h[2], h[3], field(h, 4, 8))
}

// Lists of chunks.

/// The dimensions of a dataset and its chunks, and the size of a chunk.
pub struct GridView {
    pub dims: Seq<u64>,
    pub cdims: Seq<u64>,
    pub bytes: nat,
}

/// The chunk that an entry gives for the grid place `i`, if it was stored.
pub open spec fn entry_chunk(g: GridView, i: nat, x: Entry) -> Option<ChunkView> {
    if x.addr == UNDEF || x.addr == 0 {
        None
    } else {
        Some(
            ChunkView {
                offsets: chunk_corner(g.dims, g.cdims, i),
                size: match x.size {
                    Some(n) => n as nat,
                    None => g.bytes,
                },
                mask: x.mask,
                addr: x.addr,
            },
        )
    }
}

/// The chunks of the entries from the number `i` on, for the first `n` places.
pub open spec fn entry_chunks(
    g: GridView,
    n: nat,
    entries: Seq<Entry>,
    i: nat,
    acc: Seq<ChunkView>,
) -> Seq<ChunkView>
    decreases entries.len() - i,
{
    if i >= entries.len() || i >= n {
        acc
    } else {
        entry_chunks(
            g,
            n,
            entries,
            i + 1,
            match entry_chunk(g, i, entries[i as int]) {
                Some(c) => acc.push(c),
                None => acc,
            },
        )
    }
}

/// The chunks one behind the other, from the number `i` of `n` on.
pub open spec fn implicit_chunks(
    g: GridView,
    addr: u64,
    n: nat,
    i: nat,
    acc: Seq<ChunkView>,
) -> Result<Seq<ChunkView>, Seq<char>>
    decreases n - i,
{
    if i >= n {
        Ok(acc)
    } else if addr + i * g.bytes > u64::MAX {
        Err("chunk address overflow"@)
    } else {
        implicit_chunks(
            g,
            addr,
            n,
            i + 1,
            acc.push(
                ChunkView {
                    offsets: chunk_corner(g.dims, g.cdims, i),
                    size: g.bytes,
                    mask: 0,
                    addr: (addr + i * g.bytes) as u64,
                },
            ),
        )
    }
}

/// The entry in an element of an extensible array: an address, and in longer elements
/// a size and a mask.
pub open spec fn element_entry(elem: Seq<u8>, size: nat) -> Result<Entry, Seq<char>> {
    match taken_uint(elem, 8) {
        Err(e) => Err(e),
        Ok((addr, r)) => if addr == UNDEF || addr == 0 || size <= 8 {
            Ok(Entry { addr: addr as u64, size: None, mask: 0 })
        } else if size < 12 {
            Err("bad extensible array element size"@)
        } else {
            match taken_sized(r, (size - 12) as nat) {
                Err(e) => Err(e),
                Ok((n, r2)) => match taken_uint(r2, 4) {
                    Err(e) => Err(e),
                    Ok((mask, r3)) => Ok(
                        Entry {
                            addr: addr as u64,
                            size: Some((n as u64) as u32),
                            mask: mask as u32,
                        },
                    ),
                },
            }
        },
    }
}

/// The chunks of an extensible array from the place `i` of `n` on.
pub open spec fn array_chunks(
    data: Seq<u8>,
    base: u64,
    h: ArrayInfo,
    g: GridView,
    n: nat,
    i: nat,
    acc: Seq<ChunkView>,
) -> Result<Seq<ChunkView>, Seq<char>>
    decreases n - i,
{
    if i >= n {
        Ok(acc)
    } else {
        match array_element(data, base, h, i) {
            Err(e) => Err(e),
            Ok(None) => array_chunks(data, base, h, g, n, i + 1, acc),
            Ok(Some(elem)) => match element_entry(elem, h.elem) {
                Err(e) => Err(e),
                Ok(x) => array_chunks(
                    data,
                    base,
                    h,
                    g,
                    n,
                    i + 1,
                    match entry_chunk(g, i, x) {
                        Some(c) => acc.push(c),
                        None => acc,
                    },
                ),
            },
        }
    }
}

/// Offsets that are stored as numbers of chunks.
pub open spec fn scaled_offsets(s: Seq<u8>, cdims: Seq<u64>, k: int, acc: Seq<u64>) -> Result<
    Seq<u64>,
    Seq<char>,
>
    decreases cdims.len() - k,
{
    if k < 0 || k >= cdims.len() {
        Ok(acc)
    } else {
        match taken_uint(s, 8) {
            Err(e) => Err(e),
            Ok((x, r)) => if x * cdims[k] > u64::MAX {
                Err("chunk offset overflow"@)
            } else {
                scaled_offsets(r, cdims, k + 1, acc.push((x * cdims[k]) as u64))
            },
        }
    }
}

/// The chunk in a record of a version 2 B-tree of some type.
pub open spec fn record_chunk(rec: Seq<u8>, kind: u8, g: GridView) -> Result<
    Option<ChunkView>,
    Seq<char>,
> {
    match taken_uint(rec, 8) {
        Err(e) => Err(e),
        Ok((addr, r)) => match record_size(rec, r, kind, g) {
            Err(e) => Err(e),
            Ok((size, mask, r2)) => match scaled_offsets(r2, g.cdims, 0, Seq::empty()) {
                Err(e) => Err(e),
                Ok(offsets) => if addr == UNDEF || addr == 0 {
                    Ok(None)
                } else {
                    Ok(Some(ChunkView { offsets, size, mask, addr: addr as u64 }))
                },
            },
        },
    }
}

/// The size and the mask in such a record, of which `r` follows the address.
pub open spec fn record_size(rec: Seq<u8>, r: Seq<u8>, kind: u8, g: GridView) -> Result<
    (nat, u32, Seq<u8>),
    Seq<char>,
> {
    if kind == 10 {
        Ok((g.bytes, 0, r))
    } else if kind == 11 {
        if rec.len() < 12 + 8 * g.cdims.len() {
            Err("bad v2 btree chunk record size"@)
        } else {
            match taken_sized(r, (rec.len() - (12 + 8 * g.cdims.len())) as nat) {
                Err(e) => Err(e),
                Ok((n, r2)) => match taken_uint(r2, 4) {
                    Err(e) => Err(e),
                    Ok((mask, r3)) => Ok((((n as u64) as u32) as nat, mask as u32, r3)),
                },
            }
        }
    } else {
        Err("unexpected chunk btree record type "@ + decimal(kind as nat))
    }
}

/// The chunks in the records from the number `i` on.
pub open spec fn record_chunks(
    records: Seq<Seq<u8>>,
    kind: u8,
    g: GridView,
    i: int,
    acc: Seq<ChunkView>,
) -> Result<Seq<ChunkView>, Seq<char>>
    decreases records.len() - i,
{
    if i < 0 || i >= records.len() {
        Ok(acc)
    } else {
        match record_chunk(records[i], kind, g) {
            Err(e) => Err(e),
            Ok(None) => record_chunks(records, kind, g, i + 1, acc),
            Ok(Some(c)) => record_chunks(records, kind, g, i + 1, acc.push(c)),
        }
    }
}

/// The stored chunks of a dataset. Where its chunks have no size, only a version 1 B-tree
/// lists them; the elements cannot be read then.
pub open spec fn chunk_list(
    data: Seq<u8>,
    base: u64,
    index: ChunkIndex,
    dims: Seq<u64>,
    cdims: Seq<u64>,
    elem: nat,
) -> Result<Seq<ChunkView>, Seq<char>> {
    match (index, chunk_size(dims, cdims, elem)) {
        (ChunkIndex::BtreeV1 { addr }, _) => tree_chunks(
            data,
            base,
            addr,
            dims.len(),
            data.len(),
            Seq::empty(),
        ),
        (_, Err(e)) => Ok(Seq::empty()),
        (_, Ok(bytes)) => {
            let g = GridView { dims, cdims, bytes };
            match index {
                ChunkIndex::BtreeV1 { addr } => Ok(Seq::empty()),
                ChunkIndex::Single { addr, filtered_size, filter_mask } => if addr == UNDEF {
                    Ok(Seq::empty())
                } else {
                    Ok(
                        seq![
                            ChunkView {
                                offsets: Seq::new(dims.len(), |k: int| 0u64),
                                size: match filtered_size {
                                    Some(n) => n as nat,
                                    None => bytes,
                                },
                                mask: filter_mask,
                                addr,
                            },
                        ],
                    )
                },
                ChunkIndex::Implicit { addr } => if addr == UNDEF {
                    Ok(Seq::empty())
                } else {
                    match chunk_total(dims, cdims) {
                        Err(e) => Err(e),
                        Ok(n) => implicit_chunks(g, addr, n, 0, Seq::empty()),
                    }
                },
                ChunkIndex::FixedArray { header_addr } => if header_addr == UNDEF {
                    Ok(Seq::empty())
                } else {
                    match fixed_entries(data, base, header_addr) {
                        Err(e) => Err(e),
                        Ok(entries) => match chunk_total(dims, cdims) {
                            Err(e) => Err(e),
                            Ok(n) => Ok(entry_chunks(g, n, entries, 0, Seq::empty())),
                        },
                    }
                },
                ChunkIndex::ExtArray { header_addr } => if header_addr == UNDEF {
                    Ok(Seq::empty())
                } else {
                    match array_parsed(rest_at(data, base + header_addr)) {
                        Err(e) => Err(e),
                        Ok(h) => match chunk_total(dims, cdims) {
                            Err(e) => Err(e),
                            Ok(n) => array_chunks(data, base, h, g, n, 0, Seq::empty()),
                        },
                    }
                },
                ChunkIndex::BtreeV2 { header_addr } => if header_addr == UNDEF {
                    Ok(Seq::empty())
                } else {
                    match btree_read(data, base, header_addr) {
                        Err(e) => Err(e),
                        Ok((kind, records)) => record_chunks(records, kind, g, 0, Seq::empty()),
                    }
                },
            }
        },
    }
}

fn push_entry(
    out: &mut Vec<ChunkRef>,
    x: Entry,
    grid: &Grid,
    cdims: &[u64],
    bytes: u64,
    i: u64,
    Ghost(g): Ghost<GridView>,
)
    requires
        grid.wf(g.dims, g.cdims),
        g.cdims == cdims@,
        g.bytes == bytes,
        i < grid.total,
    ensures
        chunk_views(final(out)@) == (match entry_chunk(g, i as nat, x) {
            Some(c) => chunk_views(old(out)@).push(c),
            None => chunk_views(old(out)@),
        }),
{
    if x.addr == UNDEF || x.addr == 0 {
        return;
    }
    let size: u64 = match x.size {
        Some(n) => n as u64,
        None => bytes,
    };
    let item = ChunkRef {
        offsets: grid.corner(cdims, i, Ghost(g.dims)),
        size,
        mask: x.mask,
        addr: x.addr,
    };
    let ghost before = out@;
    out.push(item);
    assert(chunk_views(out@) =~= chunk_views(before).push(item@));
}

fn list_entries(grid: &Grid, cdims: &[u64], bytes: u64, entries: &Vec<Entry>, Ghost(g): Ghost<GridView>) -> (r:
    Vec<ChunkRef>)
    requires
        grid.wf(g.dims, g.cdims),
        g.cdims == cdims@,
        g.bytes == bytes,
    ensures
        chunk_views(r@) == entry_chunks(g, grid.total as nat, entries@, 0, Seq::empty()),
{
    let n: usize = entries.len();
    let mut out: Vec<ChunkRef> = Vec::new();
    let mut i: usize = 0;
    assert(chunk_views(out@) =~= Seq::<ChunkView>::empty());
    while i < n && (i as u64) < grid.total
        invariant
            i <= n == entries@.len(),
            grid.wf(g.dims, g.cdims),
            g.cdims == cdims@,
            g.bytes == bytes,
            entry_chunks(g, grid.total as nat, entries@, 0, Seq::empty()) == entry_chunks(
                g,
                grid.total as nat,
                entries@,
                i as nat,
                chunk_views(out@),
            ),
        decreases n - i,
    {
        push_entry(&mut out, entries[i], grid, cdims, bytes, i as u64, Ghost(g));
        i += 1;
    }
    out
}

fn list_implicit(grid: &Grid, cdims: &[u64], bytes: u64, addr: u64, Ghost(g): Ghost<GridView>) -> (r:
    Result<Vec<ChunkRef>, Error>)
    requires
        grid.wf(g.dims, g.cdims),
        g.cdims == cdims@,
        g.bytes == bytes,
    ensures
        chunks_as(r, implicit_chunks(g, addr, grid.total as nat, 0, Seq::empty())),
{
    let mut out: Vec<ChunkRef> = Vec::new();
    let mut i: u64 = 0;
    assert(chunk_views(out@) =~= Seq::<ChunkView>::empty());
    while i < grid.total
        invariant
            i <= grid.total,
            grid.wf(g.dims, g.cdims),
            g.cdims == cdims@,
            g.bytes == bytes,
            implicit_chunks(g, addr, grid.total as nat, 0, Seq::empty()) == implicit_chunks(
                g,
                addr,
                grid.total as nat,
                i as nat,
                chunk_views(out@),
            ),
        decreases grid.total - i,
    {
        assert(i * bytes <= 0xffff_ffff_ffff_ffff * 0xffff_ffff_ffff_ffff) by (nonlinear_arith)
            requires
                0 <= i <= 0xffff_ffff_ffff_ffff,
                0 <= bytes <= 0xffff_ffff_ffff_ffff,
        ;
        let product: u128 = i as u128 * bytes as u128;
        if product > (u64::MAX - addr) as u128 {
            return Err(Error::new("chunk address overflow"));
        }
        let item = ChunkRef {
            offsets: grid.corner(cdims, i, Ghost(g.dims)),
            size: bytes,
            mask: 0,
            addr: addr + product as u64,
        };
        let ghost before = out@;
        out.push(item);
        assert(chunk_views(out@) =~= chunk_views(before).push(item@));
        i += 1;
    }
    Ok(out)
}

fn read_element_entry(elem: &[u8], size: u8) -> (r: Result<Entry, Error>)
    ensures
        match (r, element_entry(elem@, size as nat)) {
            (Ok(a), Ok(b)) => a == b,
            (Err(e), Err(m)) => e@ == m,
            _ => false,
        },
{
    let mut c = Cursor::new(elem);
    assert(c.rest() =~= elem@);
    let addr: u64 = c.next_uint(8)?;
    if addr == UNDEF || addr == 0 || size <= 8 {
        return Ok(Entry { addr, size: None, mask: 0 });
    }
    if size < 12 {
        return Err(Error::new("bad extensible array element size"));
    }
    let n: u64 = c.next_sized((size - 12) as usize)?;
    let ghost s = c.rest();
    proof {
        if s.len() >= 4 {
            lemma_field_bound(s, 0, 4);
            assert(s.subrange(0, 4) =~= s.take(4));
        }
    }
    let mask: u64 = c.next_uint(4)?;
    Ok(Entry { addr, size: Some(n as u32), mask: mask as u32 })
}

fn list_array(
    array: &ExtensibleArray,
    grid: &Grid,
    cdims: &[u64],
    bytes: u64,
    Ghost(g): Ghost<GridView>,
) -> (r: Result<Vec<ChunkRef>, Error>)
    requires
        array@.sound(),
        grid.wf(g.dims, g.cdims),
        g.cdims == cdims@,
        g.bytes == bytes,
    ensures
        chunks_as(
            r,
            array_chunks(
                array.data@,
                array.base,
                array@,
                g,
                grid.total as nat,
                0,
                Seq::empty(),
            ),
        ),
{
    let mut out: Vec<ChunkRef> = Vec::new();
    let mut i: u64 = 0;
    assert(chunk_views(out@) =~= Seq::<ChunkView>::empty());
    while i < grid.total
        invariant
            i <= grid.total,
            array@.sound(),
            grid.wf(g.dims, g.cdims),
            g.cdims == cdims@,
            g.bytes == bytes,
            array_chunks(
                array.data@,
                array.base,
                array@,
                g,
                grid.total as nat,
                0,
                Seq::empty(),
            ) == array_chunks(
                array.data@,
                array.base,
                array@,
                g,
                grid.total as nat,
                i as nat,
                chunk_views(out@),
            ),
        decreases grid.total - i,
    {
        if let Some(elem) = array.element(i)? {
            let x = read_element_entry(elem.as_slice(), array.elmt_size)?;
            push_entry(&mut out, x, grid, cdims, bytes, i, Ghost(g));
        }
        i += 1;
    }
    Ok(out)
}

fn read_scaled(c: &mut Cursor, cdims: &[u64]) -> (r: Result<Vec<u64>, Error>)
    ensures
        match (r, scaled_offsets(old(c).rest(), cdims@, 0, Seq::empty())) {
            (Ok(a), Ok(b)) => a@ == b,
            (Err(e), Err(m)) => e@ == m,
            _ => false,
        },
{
    let n: usize = cdims.len();
    let mut out: Vec<u64> = Vec::new();
    let mut k: usize = 0;
    while k < n
        invariant
            k <= n == cdims@.len(),
            scaled_offsets(old(c).rest(), cdims@, 0, Seq::empty()) == scaled_offsets(
                c.rest(),
                cdims@,
                k as int,
                out@,
            ),
        decreases n - k,
    {
        let x: u64 = c.next_uint(8)?;
        match x.checked_mul(cdims[k]) {
            None => {
                return Err(Error::new("chunk offset overflow"));
            },
            Some(y) => {
                out.push(y);
            },
        }
        k += 1;
    }
    Ok(out)
}

fn read_record_size(c: &mut Cursor, len: usize, kind: u8, cdims: &[u64], bytes: u64, Ghost(rec): Ghost<Seq<u8>>, Ghost(g): Ghost<GridView>) -> (r:
    Result<(u64, u32), Error>)
    requires
        len == rec.len(),
        g.cdims == cdims@,
        g.bytes == bytes,
        cdims@.len() <= 255,
    ensures
        final(c).data@ == old(c).data@,
        match (r, record_size(rec, old(c).rest(), kind, g)) {
            (Ok((a, b)), Ok((x, y, rest))) => a == x && b == y && final(c).rest() == rest,
            (Err(e), Err(m)) => e@ == m,
            _ => false,
        },
{
    if kind == 10 {
        return Ok((bytes, 0));
    }
    if kind != 11 {
        return Err(
            Error::from_text(with_number("unexpected chunk btree record type ", kind as u64)),
        );
    }
    let fixed: usize = 12 + 8 * cdims.len();
    if len < fixed {
        return Err(Error::new("bad v2 btree chunk record size"));
    }
    let n: u64 = c.next_sized(len - fixed)?;
    let ghost s = c.rest();
    proof {
        if s.len() >= 4 {
            lemma_field_bound(s, 0, 4);
            assert(s.subrange(0, 4) =~= s.take(4));
        }
    }
    let mask: u64 = c.next_uint(4)?;
    Ok(((n as u32) as u64, mask as u32))
}

fn read_record(rec: &[u8], kind: u8, cdims: &[u64], bytes: u64, Ghost(g): Ghost<GridView>) -> (r: Result<
    Option<ChunkRef>,
    Error,
>)
    requires
        g.cdims == cdims@,
        g.bytes == bytes,
        cdims@.len() <= 255,
    ensures
        match (r, record_chunk(rec@, kind, g)) {
            (Ok(Some(a)), Ok(Some(b))) => a@ == b,
            (Ok(None), Ok(None)) => true,
            (Err(e), Err(m)) => e@ == m,
            _ => false,
        },
{
    let mut c = Cursor::new(rec);
    assert(c.rest() =~= rec@);
    let addr: u64 = c.next_uint(8)?;
    let (size, mask): (u64, u32) = read_record_size(
        &mut c,
        rec.len(),
        kind,
        cdims,
        bytes,
        Ghost(rec@),
        Ghost(g),
    )?;
    let offsets = read_scaled(&mut c, cdims)?;
    if addr == UNDEF || addr == 0 {
        return Ok(None);
    }
    Ok(Some(ChunkRef { offsets, size, mask, addr }))
}

fn list_records(records: &Vec<Vec<u8>>, kind: u8, cdims: &[u64], bytes: u64, Ghost(g): Ghost<GridView>) -> (r:
    Result<Vec<ChunkRef>, Error>)
    requires
        g.cdims == cdims@,
        g.bytes == bytes,
        cdims@.len() <= 255,
    ensures
        chunks_as(r, record_chunks(record_views(records@), kind, g, 0, Seq::empty())),
{
    let ghost views = record_views(records@);
    let n: usize = records.len();
    let mut out: Vec<ChunkRef> = Vec::new();
    let mut i: usize = 0;
    assert(chunk_views(out@) =~= Seq::<ChunkView>::empty());
    while i < n
        invariant
            i <= n == records@.len(),
            views == record_views(records@),
            g.cdims == cdims@,
            g.bytes == bytes,
            cdims@.len() <= 255,
            record_chunks(views, kind, g, 0, Seq::empty()) == record_chunks(
                views,
                kind,
                g,
                i as int,
                chunk_views(out@),
            ),
        decreases n - i,
    {
        assert(views[i as int] == records@[i as int]@);
        if let Some(c) = read_record(records[i].as_slice(), kind, cdims, bytes, Ghost(g))? {
            let ghost before = out@;
            out.push(c);
            assert(chunk_views(out@) =~= chunk_views(before).push(c@));
        }
        i += 1;
    }
    Ok(out)
}

/// Lists the stored chunks of a dataset.
pub fn list_chunks(
    data: &[u8],
    base: u64,
    index: &ChunkIndex,
    dims: &[u64],
    cdims: &[u64],
    elem: usize,
) -> (r: Result<Vec<ChunkRef>, Error>)
    requires
        dims@.len() <= 255,
    ensures
        chunks_as(r, chunk_list(data@, base, *index, dims@, cdims@, elem as nat)),
{
    let none: Vec<ChunkRef> = Vec::new();
    assert(chunk_views(none@) =~= Seq::<ChunkView>::empty());
    if let ChunkIndex::BtreeV1 { addr } = index {
        return walk_chunk_btree(data, base, *addr, dims.len(), data.len(), none);
    }
    let bytes: u64 = match size_of_chunk(dims, cdims, elem) {
        Err(_) => {
            return Ok(none);
        },
        Ok(n) => n,
    };
    let ghost g = GridView { dims: dims@, cdims: cdims@, bytes: bytes as nat };
    match index {
        ChunkIndex::BtreeV1 { .. } => Ok(none),
        ChunkIndex::Single { addr, filtered_size, filter_mask } => {
            if *addr == UNDEF {
                return Ok(none);
            }
            let size: u64 = match *filtered_size {
                Some(n) => n as u64,
                None => bytes,
            };
            let item = ChunkRef {
                offsets: vec![0u64; dims.len()],
                size,
                mask: *filter_mask,
                addr: *addr,
            };
            let mut out: Vec<ChunkRef> = Vec::new();
            out.push(item);
            proof {
                assert(item.offsets@ =~= Seq::new(dims@.len(), |k: int| 0u64));
                assert(chunk_views(out@) =~= seq![item@]);
            }
            Ok(out)
        },
        ChunkIndex::Implicit { addr } => {
            if *addr == UNDEF {
                return Ok(none);
            }
            let grid = Grid::new(dims, cdims)?;
            list_implicit(&grid, cdims, bytes, *addr, Ghost(g))
        },
        ChunkIndex::FixedArray { header_addr } => {
            if *header_addr == UNDEF {
                return Ok(none);
            }
            let entries = read_fixed_array(data, base, *header_addr)?;
            let grid = Grid::new(dims, cdims)?;
            Ok(list_entries(&grid, cdims, bytes, &entries, Ghost(g)))
        },
        ChunkIndex::ExtArray { header_addr } => {
            if *header_addr == UNDEF {
                return Ok(none);
            }
            let array = ExtensibleArray::parse(data, base, *header_addr)?;
            let grid = Grid::new(dims, cdims)?;
            list_array(&array, &grid, cdims, bytes, Ghost(g))
        },
        ChunkIndex::BtreeV2 { header_addr } => {
            if *header_addr == UNDEF {
                return Ok(none);
            }
            let tree = read_v2btree(data, base, *header_addr)?;
            list_records(&tree.records, tree.btree_type, cdims, bytes, Ghost(g))
        },
    }
}

} // verus!
