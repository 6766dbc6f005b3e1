//! Where the arrays and records of chunk indexes hold what.

use vstd::prelude::*;

use crate::format::bits::{lemma_pow2_positive, pow2};
use crate::format::chunk_index::{
    bitmap_size, element_entry, entries_taken, entry_taken, fixed_entries, pages_taken,
    record_chunk, scaled_offsets, Entry, GridView,
};
use crate::format::earray::{
    array_element, block_element, block_head, law_group_holds_element, ArrayInfo,
};
use crate::format::gheap::rest_at;
use crate::format::stands::stands;
use crate::format::{
    dropped, law_le_round_trip, le_at, le_bytes, lemma_le_bound, lemma_le_bytes_len,
    lemma_pow256, pow256, taken_uint, UNDEF,
};

verus! {

// Fixed arrays.

/// The bytes of an entry: the address, and with filters the size in `width` bytes and the
/// mask. Without filters `width` is zero.
pub open spec fn entry_bytes(x: Entry, width: nat) -> Seq<u8> {
    if width == 0 {
        le_bytes(x.addr as nat, 8)
    } else {
        le_bytes(x.addr as nat, 8) + le_bytes(x.size->0 as nat, width) + le_bytes(x.mask as nat, 4)
    }
}

/// Whether an entry can be stored so.
pub open spec fn entry_fits(x: Entry, width: nat) -> bool {
    if width == 0 {
        x.size is None && x.mask == 0
    } else {
        width <= 8 && (x.size matches Some(n) && n < pow256(width))
    }
}

proof fn lemma_front(a: Seq<u8>, b: Seq<u8>, v: nat, n: nat)
    requires
        a == le_bytes(v, n),
        v < pow256(n),
    ensures
        taken_uint(a + b, n) == Ok::<(nat, Seq<u8>), Seq<char>>((v, b)),
        a.len() == n,
{
    lemma_le_bytes_len(v, n);
    law_le_round_trip(v, n);
    assert((a + b).take(n as int) =~= a);
    assert((a + b).skip(n as int) =~= b);
}

/// An entry is read from its bytes, and what follows it is left.
pub proof fn law_entry_read(x: Entry, width: nat, client: u8, rest: Seq<u8>)
    requires
        entry_fits(x, width),
        width == 0 <==> client == 0,
    ensures
        entry_taken(entry_bytes(x, width) + rest, client, 12 + width) == Ok::<
            (Entry, Seq<u8>),
            Seq<char>,
        >((x, rest)),
{
    lemma_pow256();
    let a = le_bytes(x.addr as nat, 8);
    if width == 0 {
        lemma_front(a, rest, x.addr as nat, 8);
    } else {
        let b = le_bytes(x.size->0 as nat, width);
        let c = le_bytes(x.mask as nat, 4);
        lemma_front(a, b + c + rest, x.addr as nat, 8);
        lemma_front(b, c + rest, x.size->0 as nat, width);
        lemma_front(c, rest, x.mask as nat, 4);
        assert(a + (b + c + rest) =~= entry_bytes(x, width) + rest);
        assert(b + (c + rest) =~= b + c + rest);
    }
}

/// The bytes of entries.
pub open spec fn entries_bytes(v: Seq<Entry>, width: nat) -> Seq<u8>
    decreases v.len(),
{
    if v.len() == 0 {
        Seq::empty()
    } else {
        entry_bytes(v[0], width) + entries_bytes(v.skip(1), width)
    }
}

proof fn lemma_entries_read(
    v: Seq<Entry>,
    width: nat,
    client: u8,
    rest: Seq<u8>,
    acc: Seq<Entry>,
)
    requires
        forall|i: int| 0 <= i < v.len() ==> entry_fits(#[trigger] v[i], width),
        width == 0 <==> client == 0,
    ensures
        entries_taken(entries_bytes(v, width) + rest, client, 12 + width, v.len(), acc) == Ok::<
            (Seq<Entry>, Seq<u8>),
            Seq<char>,
        >((acc + v, rest)),
    decreases v.len(),
{
    if v.len() == 0 {
        assert(entries_bytes(v, width) + rest =~= rest);
        assert(acc + v =~= acc);
    } else {
        let more = entries_bytes(v.skip(1), width);
        assert(entry_fits(v[0], width));
        law_entry_read(v[0], width, client, more + rest);
        assert(entry_bytes(v[0], width) + (more + rest) =~= entries_bytes(v, width) + rest);
        assert forall|i: int| 0 <= i < v.skip(1).len() implies entry_fits(
            #[trigger] v.skip(1)[i],
            width,
        ) by {
            assert(entry_fits(v[i + 1], width));
        }
        lemma_entries_read(v.skip(1), width, client, rest, acc.push(v[0]));
        assert(acc.push(v[0]) + v.skip(1) =~= acc + v);
    }
}

/// The bytes of entries in pages of `page` entries, each with a checksum behind it.
pub open spec fn paged_bytes(v: Seq<Entry>, width: nat, page: nat, sums: Seq<Seq<u8>>) -> Seq<u8>
    decreases v.len(),
{
    if v.len() == 0 || page == 0 {
        Seq::empty()
    } else {
        let n = if v.len() < page {
            v.len() as int
        } else {
            page as int
        };
        entries_bytes(v.take(n), width) + sums[0] + paged_bytes(
            v.skip(n),
            width,
            page,
            sums.skip(1),
        )
    }
}

proof fn lemma_pages_read(
    v: Seq<Entry>,
    width: nat,
    client: u8,
    page: nat,
    sums: Seq<Seq<u8>>,
    rest: Seq<u8>,
    acc: Seq<Entry>,
)
    requires
        forall|i: int| 0 <= i < v.len() ==> entry_fits(#[trigger] v[i], width),
        width == 0 <==> client == 0,
        page > 0,
        sums.len() >= v.len(),
        forall|i: int| 0 <= i < sums.len() ==> (#[trigger] sums[i]).len() == 4,
    ensures
        pages_taken(
            paged_bytes(v, width, page, sums) + rest,
            client,
            12 + width,
            page,
            v.len(),
            acc,
        ) == Ok::<Seq<Entry>, Seq<char>>(acc + v),
    decreases v.len(),
{
    if v.len() == 0 {
        assert(acc + v =~= acc);
    } else {
        let n = if v.len() < page {
            v.len() as int
        } else {
            page as int
        };
        let (head, tail) = (v.take(n), v.skip(n));
        let more = paged_bytes(tail, width, page, sums.skip(1));
        let s = paged_bytes(v, width, page, sums) + rest;
        assert(s =~= entries_bytes(head, width) + (sums[0] + (more + rest)));
        assert forall|i: int| 0 <= i < head.len() implies entry_fits(#[trigger] head[i], width) by {
            assert(entry_fits(v[i], width));
        }
        assert forall|i: int| 0 <= i < tail.len() implies entry_fits(#[trigger] tail[i], width) by {
            assert(entry_fits(v[i + n], width));
        }
        lemma_entries_read(head, width, client, sums[0] + (more + rest), acc);
        assert(sums[0].len() == 4);
        let r = sums[0] + (more + rest);
        assert(r.skip(4) =~= more + rest);
        assert forall|i: int| 0 <= i < sums.skip(1).len() implies (
        #[trigger] sums.skip(1)[i]).len() == 4 by {
            assert(sums[i + 1].len() == 4);
        }
        lemma_pages_read(tail, width, client, page, sums.skip(1), rest, acc + head);
        assert(acc + head + tail =~= acc + v);
    }
}

/// The header of a fixed array: signature, version, client, entry size, page bits, number
/// of entries, address of the data block, and a checksum.
pub open spec fn fixed_header(
    version: u8,
    client: u8,
    width: nat,
    page_bits: u8,
    n: nat,
    block: u64,
    sum: Seq<u8>,
) -> Seq<u8> {
    seq![70u8, 65u8, 72u8, 68u8] + seq![version, client, (12 + width) as u8, page_bits] + le_bytes(
        n,
        8,
    ) + le_bytes(block as nat, 8) + sum
}

/// The data block of a fixed array: signature, what is common to all blocks, and the
/// entries; in pages, behind a bitmap and a checksum, where there are more than one page
/// of them.
pub open spec fn fixed_data(
    head: Seq<u8>,
    v: Seq<Entry>,
    width: nat,
    page: nat,
    bitmap: Seq<u8>,
    sums: Seq<Seq<u8>>,
) -> Seq<u8> {
    seq![70u8, 65u8, 68u8, 66u8] + head + (if v.len() <= page {
        entries_bytes(v, width)
    } else {
        bitmap + sums[0] + paged_bytes(v, width, page, sums.skip(1))
    })
}

proof fn lemma_rest(data: Seq<u8>, at: int, b: Seq<u8>)
    requires
        stands(data, at, b),
    ensures
        rest_at(data, at) == b + data.skip(at + b.len()),
{
    assert(rest_at(data, at) =~= b + data.skip(at + b.len())) by {
        assert forall|i: int| 0 <= i < b.len() implies data[at + i] == b[i] by {
            assert(data.subrange(at, at + b.len())[i] == b[i]);
        }
    }
}

/// The entries of a fixed array that stands in an image are read, in pages or not.
pub proof fn law_fixed_array_entries(
    data: Seq<u8>,
    base: u64,
    addr: u64,
    block: u64,
    version: u8,
    client: u8,
    width: nat,
    page_bits: u8,
    sum: Seq<u8>,
    head: Seq<u8>,
    v: Seq<Entry>,
    bitmap: Seq<u8>,
    sums: Seq<Seq<u8>>,
)
    requires
        width <= 8,
        width == 0 <==> client == 0,
        v.len() <= u64::MAX,
        block != UNDEF,
        sum.len() == 4,
        head.len() == 10,
        forall|i: int| 0 <= i < v.len() ==> entry_fits(#[trigger] v[i], width),
        sums.len() == v.len() + 1,
        forall|i: int| 0 <= i < sums.len() ==> (#[trigger] sums[i]).len() == 4,
        bitmap.len() == bitmap_size(v.len(), pow2(page_bits as nat)),
        stands(
            data,
            base + addr,
            fixed_header(version, client, width, page_bits, v.len(), block, sum),
        ),
        stands(
            data,
            base + block,
            fixed_data(head, v, width, pow2(page_bits as nat), bitmap, sums),
        ),
    ensures
        fixed_entries(data, base, addr) == Ok::<Seq<Entry>, Seq<char>>(v),
{
    lemma_pow256();
    let n = v.len();
    let page = pow2(page_bits as nat);
    lemma_pow2_positive(page_bits as nat);
    let b = fixed_header(version, client, width, page_bits, n, block, sum);
    lemma_rest(data, base + addr, b);
    lemma_le_bytes_len(n, 8);
    lemma_le_bytes_len(block as nat, 8);
    law_le_round_trip(n, 8);
    law_le_round_trip(block as nat, 8);
    let s = rest_at(data, base + addr);
    assert(s.take(4) =~= seq![70u8, 65u8, 72u8, 68u8]);
    let h = s.skip(4).take(24);
    assert(h.subrange(4, 12) =~= le_bytes(n, 8));
    assert(h.subrange(12, 20) =~= le_bytes(block as nat, 8));
    assert(h[1] == client && h[2] == (12 + width) as u8 && h[3] == page_bits);
    let d = fixed_data(head, v, width, page, bitmap, sums);
    lemma_rest(data, base + block, d);
    let t = rest_at(data, base + block);
    let far = data.skip(base + block + d.len());
    assert(t.take(4) =~= seq![70u8, 65u8, 68u8, 66u8]);
    let r2 = t.skip(4).skip(10);
    assert(t.skip(4).take(10) =~= head);
    if n <= page {
        assert(r2 =~= entries_bytes(v, width) + far);
        lemma_entries_read(v, width, client, far, Seq::empty());
        assert(Seq::<Entry>::empty() + v =~= v);
    } else {
        let more = paged_bytes(v, width, page, sums.skip(1));
        assert(sums[0].len() == 4);
        assert(r2 =~= bitmap + (sums[0] + (more + far)));
        let r3 = dropped(r2, bitmap.len() as int);
        assert(r3 =~= sums[0] + (more + far));
        assert(r3.skip(4) =~= more + far);
        assert forall|i: int| 0 <= i < sums.skip(1).len() implies (
        #[trigger] sums.skip(1)[i]).len() == 4 by {
            assert(sums[i + 1].len() == 4);
        }
        lemma_pages_read(v, width, client, page, sums.skip(1), far, Seq::empty());
        assert(Seq::<Entry>::empty() + v =~= v);
    }
}

/// The element of an extensible array holds an entry as a fixed array does. An element
/// without an address needs no more.
pub proof fn law_element_entry(x: Entry, width: nat)
    requires
        entry_fits(x, width),
        x.addr != UNDEF,
        x.addr != 0,
    ensures
        element_entry(
            entry_bytes(x, width),
            if width == 0 {
                8
            } else {
                12 + width
            },
        ) == Ok::<Entry, Seq<char>>(x),
{
    lemma_pow256();
    let none = Seq::<u8>::empty();
    let a = le_bytes(x.addr as nat, 8);
    if width == 0 {
        lemma_front(a, none, x.addr as nat, 8);
        assert(a + none =~= a);
    } else {
        let b = le_bytes(x.size->0 as nat, width);
        let c = le_bytes(x.mask as nat, 4);
        lemma_front(a, b + c, x.addr as nat, 8);
        lemma_front(b, c, x.size->0 as nat, width);
        lemma_front(c, none, x.mask as nat, 4);
        assert(a + (b + c) =~= entry_bytes(x, width));
        assert(c + none =~= c);
    }
}

// Records.

proof fn lemma_scaled(rec: Seq<u8>, p: int, cdims: Seq<u64>, k: int, acc: Seq<u64>)
    requires
        0 <= k <= cdims.len(),
        acc.len() == k,
        0 <= p,
        p + 8 * cdims.len() <= rec.len(),
        forall|i: int|
            0 <= i < cdims.len() ==> le_at(rec, p + 8 * i, 8) * #[trigger] cdims[i] <= u64::MAX,
        forall|i: int|
            0 <= i < k ==> #[trigger] acc[i] == le_at(rec, p + 8 * i, 8) * cdims[i],
    ensures
        scaled_offsets(rec.skip(p + 8 * k), cdims, k, acc) matches Ok(v) && v.len() == cdims.len()
            && forall|i: int|
            0 <= i < cdims.len() ==> #[trigger] v[i] == le_at(rec, p + 8 * i, 8) * cdims[i],
    decreases cdims.len() - k,
{
    if k < cdims.len() {
        let s = rec.skip(p + 8 * k);
        assert(s.take(8) =~= rec.subrange(p + 8 * k, p + 8 * k + 8));
        assert(s.skip(8) =~= rec.skip(p + 8 * (k + 1)));
        let x = le_at(rec, p + 8 * k, 8);
        assert(x * cdims[k] <= u64::MAX);
        assert(x * cdims[k] >= 0) by (nonlinear_arith)
            requires
                x >= 0,
        ;
        lemma_scaled(rec, p, cdims, k + 1, acc.push((x * cdims[k]) as u64));
    }
}

/// A record without filters holds the address of a chunk and its offsets counted in
/// chunks.
pub proof fn law_plain_record(rec: Seq<u8>, g: GridView)
    requires
        rec.len() >= 8 + 8 * g.cdims.len(),
        le_at(rec, 0, 8) != 0,
        le_at(rec, 0, 8) != UNDEF,
        forall|i: int|
            0 <= i < g.cdims.len() ==> le_at(rec, 8 + 8 * i, 8) * #[trigger] g.cdims[i] <= u64::MAX,
    ensures
        record_chunk(rec, 10, g) matches Ok(Some(c)) && c.addr == le_at(rec, 0, 8) && c.size
            == g.bytes && c.mask == 0 && c.offsets.len() == g.cdims.len() && forall|i: int|
            0 <= i < g.cdims.len() ==> #[trigger] c.offsets[i] == le_at(rec, 8 + 8 * i, 8)
                * g.cdims[i],
{
    lemma_pow256();
    assert(rec.take(8) =~= rec.subrange(0, 8));
    lemma_le_bound(rec.subrange(0, 8));
    lemma_scaled(rec, 8, g.cdims, 0, Seq::empty());
}

/// A record with filters holds the address of a chunk, its size in as many bytes as are
/// left, its mask, and its offsets counted in chunks.
pub proof fn law_filtered_record(rec: Seq<u8>, g: GridView, width: nat)
    requires
        1 <= width <= 8,
        rec.len() == 12 + width + 8 * g.cdims.len(),
        le_at(rec, 0, 8) != 0,
        le_at(rec, 0, 8) != UNDEF,
        le_at(rec, 8, width as int) <= u32::MAX,
        forall|i: int|
            0 <= i < g.cdims.len() ==> le_at(rec, 12 + width + 8 * i, 8) * #[trigger] g.cdims[i]
                <= u64::MAX,
    ensures
        record_chunk(rec, 11, g) matches Ok(Some(c)) && c.addr == le_at(rec, 0, 8) && c.size
            == le_at(rec, 8, width as int) && c.mask == le_at(rec, 8 + width as int, 4) && c.offsets.len()
            == g.cdims.len() && forall|i: int|
            0 <= i < g.cdims.len() ==> #[trigger] c.offsets[i] == le_at(
                rec,
                12 + width + 8 * i,
                8,
            ) * g.cdims[i],
{
    lemma_pow256();
    let w = width as int;
    assert(rec.take(8) =~= rec.subrange(0, 8));
    lemma_le_bound(rec.subrange(0, 8));
    let r = rec.skip(8);
    assert(r.take(w) =~= rec.subrange(8, 8 + w));
    let r2 = r.skip(w);
    assert(r2.take(4) =~= rec.subrange(8 + w, 12 + w));
    lemma_le_bound(rec.subrange(8 + w, 12 + w));
    assert(r2.skip(4) =~= rec.skip(12 + w));
    lemma_scaled(rec, 12 + w, g.cdims, 0, Seq::empty());
}

// Extensible arrays.

/// Where the element `pos` of a data block stands behind the start of the block. In pages
/// of `page` elements each page has a checksum behind it, and the first one a checksum
/// before it.
pub open spec fn block_place(h: ArrayInfo, n: nat, g: nat, r: nat) -> nat {
    14 + h.off_size() + (if n <= pow2(h.page_bits) {
        (g * pow2(h.page_bits) + r) * h.elem
    } else {
        4 + g * (pow2(h.page_bits) * h.elem + 4) + r * h.elem
    })
}

/// Whether a block with a signature stands at a place.
pub open spec fn block_at(data: Seq<u8>, at: int, sig: Seq<u8>) -> bool {
    0 <= at && at + 14 <= data.len() && data.subrange(at, at + 4) == sig
}

proof fn lemma_head(data: Seq<u8>, at: int, sig: Seq<u8>, error: Seq<char>)
    requires
        block_at(data, at, sig),
    ensures
        block_head(data, at, sig, error) == Ok::<Seq<u8>, Seq<char>>(data.skip(at + 14)),
{
    let s = rest_at(data, at);
    assert(s.take(4) =~= data.subrange(at, at + 4));
    assert(s.skip(4).skip(10) =~= data.skip(at + 14));
}

proof fn lemma_reference(data: Seq<u8>, from: int, off: int, addr: u64)
    requires
        0 <= from <= data.len(),
        0 <= off,
        from + off + 8 <= data.len(),
        le_at(data, from + off, 8) == addr,
    ensures
        taken_uint(dropped(data.skip(from), off), 8) matches Ok((v, r)) && v == addr,
{
    let s = dropped(data.skip(from), off);
    assert(s =~= data.skip(from + off));
    assert(s.take(8) =~= data.subrange(from + off, from + off + 8));
}

proof fn lemma_block_element(
    data: Seq<u8>,
    base: u64,
    h: ArrayInfo,
    addr: u64,
    n: nat,
    g: nat,
    r: nat,
)
    requires
        block_at(data, base + addr, seq![69u8, 65u8, 68u8, 66u8]),
        h.off_size() <= 8,
        r < pow2(h.page_bits),
        base + addr + block_place(h, n, g, r) + h.elem <= data.len(),
    ensures
        block_element(data, base, h, addr, n, g * pow2(h.page_bits) + r) == Ok::<
            Seq<u8>,
            Seq<char>,
        >(
            data.subrange(
                base + addr + block_place(h, n, g, r),
                base + addr + block_place(h, n, g, r) + h.elem,
            ),
        ),
{
    let at = base + addr;
    let page = pow2(h.page_bits);
    let i = g * page + r;
    let w = h.off_size();
    lemma_head(data, at, seq![69u8, 65u8, 68u8, 66u8], "bad EADB signature"@);
    assert(i / page == g && i % page == r) by (nonlinear_arith)
        requires
            i == g * page + r,
            r < page,
    ;
    assert(i * h.elem >= 0 && g * (page * h.elem + 4) >= 0 && r * h.elem >= 0) by (nonlinear_arith);
    let s = data.skip(at + 14);
    let r2 = s.skip(w as int);
    assert(at + 14 + w <= data.len());
    assert(w == 0 ==> r2 =~= s);
    let place = block_place(h, n, g, r) - 14 - w;
    assert(r2.subrange(place, place + h.elem) =~= data.subrange(
        at + 14 + w + place,
        at + 14 + w + place + h.elem,
    ));
}

proof fn lemma_elems_rise(h: ArrayInfo, u: nat, v: nat)
    requires
        u <= v,
    ensures
        h.elems_before(u) <= h.elems_before(v),
    decreases v - u,
{
    if u < v {
        lemma_elems_rise(h, u, (v - 1) as nat);
        assert(h.blocks((v - 1) as nat) * h.per_block((v - 1) as nat) >= 0) by (nonlinear_arith);
    }
}

/// An element is in the super block whose elements its number falls among.
pub proof fn law_group_of(h: ArrayInfo, u: nat, b: nat, pos: nat)
    requires
        h.min_elems > 0,
        b < h.blocks(u),
        pos < h.per_block(u),
    ensures
        ({
            let x = h.elems_before(u) + b * h.per_block(u) + pos;
            &&& h.group_of(x) == u
            &&& (x - h.elems_before(u)) as nat / h.per_block(u) == b
            &&& (x - h.elems_before(u)) as nat % h.per_block(u) == pos
        }),
{
    let (m, n) = (h.blocks(u), h.per_block(u));
    let w = b * n + pos;
    let x = h.elems_before(u) + w;
    assert(0 <= w < m * n && w / n == b && w % n == pos) by (nonlinear_arith)
        requires
            w == b * n + pos,
            b + 1 <= m,
            pos < n,
    ;
    assert(h.elems_before(u + 1) == h.elems_before(u) + m * n);
    law_group_holds_element(h, x);
    let v = h.group_of(x);
    if v < u {
        lemma_elems_rise(h, v + 1, u);
    } else if u < v {
        lemma_elems_rise(h, u + 1, v);
    }
}

/// The first elements of an extensible array stand in its index block.
pub proof fn law_index_block_element(data: Seq<u8>, base: u64, h: ArrayInfo, idx: nat)
    requires
        h.index != UNDEF,
        h.min_blocks > 0,
        idx < h.in_index,
        block_at(data, base + h.index, seq![69u8, 65u8, 73u8, 66u8]),
        base + h.index + 14 + (idx + 1) * h.elem <= data.len(),
    ensures
        array_element(data, base, h, idx) == Ok::<Option<Seq<u8>>, Seq<char>>(
            Some(
                data.subrange(
                    base + h.index + 14 + idx * h.elem,
                    base + h.index + 14 + (idx + 1) * h.elem,
                ),
            ),
        ),
{
    let at = base + h.index + 14;
    lemma_head(data, base + h.index, seq![69u8, 65u8, 73u8, 66u8], "bad EAIB signature"@);
    assert((idx + 1) * h.elem == idx * h.elem + h.elem && idx * h.elem >= 0) by (nonlinear_arith);
    let s = data.skip(at);
    assert(s.subrange((idx * h.elem) as int, (idx * h.elem + h.elem) as int) =~= data.subrange(
        at + idx * h.elem,
        at + idx * h.elem + h.elem,
    ));
}

/// The elements behind them stand in data blocks, to which the index block refers one
/// after the other: the element `pos` of the data block `b` of the super block `u` has the
/// number of the elements before it.
pub proof fn law_data_block_element(
    data: Seq<u8>,
    base: u64,
    h: ArrayInfo,
    u: nat,
    b: nat,
    g: nat,
    r: nat,
    addr: u64,
)
    requires
        h.index != UNDEF,
        h.min_blocks > 0,
        h.min_elems > 0,
        h.off_size() <= 8,
        u < h.direct_groups(),
        u < h.groups(),
        b < h.blocks(u),
        r < pow2(h.page_bits),
        g * pow2(h.page_bits) + r < h.per_block(u),
        (h.elems_before(u) + b * h.per_block(u) + (g * pow2(h.page_bits) + r)) / h.min_elems
            < u64::MAX,
        block_at(data, base + h.index, seq![69u8, 65u8, 73u8, 66u8]),
        base + h.index + 14 + h.in_index * h.elem + 8 * (h.blocks_before(u) + b) + 8 <= data.len(),
        le_at(
            data,
            base + h.index + 14 + h.in_index * h.elem + 8 * (h.blocks_before(u) + b),
            8,
        ) == addr,
        addr != UNDEF,
        block_at(data, base + addr, seq![69u8, 65u8, 68u8, 66u8]),
        base + addr + block_place(h, h.per_block(u), g, r) + h.elem <= data.len(),
    ensures
        array_element(
            data,
            base,
            h,
            h.in_index + h.elems_before(u) + b * h.per_block(u) + (g * pow2(h.page_bits) + r),
        ) == Ok::<Option<Seq<u8>>, Seq<char>>(
            Some(
                data.subrange(
                    base + addr + block_place(h, h.per_block(u), g, r),
                    base + addr + block_place(h, h.per_block(u), g, r) + h.elem,
                ),
            ),
        ),
{
    let n = h.per_block(u);
    let pos = g * pow2(h.page_bits) + r;
    let x = h.elems_before(u) + b * n + pos;
    law_group_of(h, u, b, pos);
    assert(b * n >= 0) by (nonlinear_arith);
    lemma_head(data, base + h.index, seq![69u8, 65u8, 73u8, 66u8], "bad EAIB signature"@);
    let refs = h.in_index * h.elem;
    assert(refs >= 0) by (nonlinear_arith)
        requires
            refs == h.in_index * h.elem,
    ;
    lemma_reference(
        data,
        base + h.index + 14,
        (refs + (h.blocks_before(u) + b) * 8) as int,
        addr,
    );
    lemma_block_element(data, base, h, addr, n, g, r);
    assert(h.in_index + h.elems_before(u) + b * n + pos - h.in_index == x);
}

/// The data blocks of the later super blocks are referred to from there, behind the
/// bitmaps of their pages; the index block refers to the super blocks.
pub proof fn law_super_block_element(
    data: Seq<u8>,
    base: u64,
    h: ArrayInfo,
    u: nat,
    b: nat,
    g: nat,
    r: nat,
    sup: u64,
    addr: u64,
)
    requires
        h.index != UNDEF,
        h.min_blocks > 0,
        h.min_elems > 0,
        h.off_size() <= 8,
        h.direct_groups() <= u < h.groups(),
        b < h.blocks(u),
        r < pow2(h.page_bits),
        g * pow2(h.page_bits) + r < h.per_block(u),
        (h.elems_before(u) + b * h.per_block(u) + (g * pow2(h.page_bits) + r)) / h.min_elems
            < u64::MAX,
        block_at(data, base + h.index, seq![69u8, 65u8, 73u8, 66u8]),
        ({
            let at = base + h.index + 14 + h.in_index * h.elem + 8 * (2 * (h.min_blocks - 1)) + 8
                * (u - h.direct_groups());
            at + 8 <= data.len() && le_at(data, at, 8) == sup
        }),
        sup != UNDEF,
        block_at(data, base + sup, seq![69u8, 65u8, 83u8, 66u8]),
        ({
            let at = base + sup + 14 + h.off_size() + h.blocks(u) * h.bitmap(h.per_block(u)) + 8
                * b;
            at + 8 <= data.len() && le_at(data, at, 8) == addr
        }),
        addr != UNDEF,
        block_at(data, base + addr, seq![69u8, 65u8, 68u8, 66u8]),
        base + addr + block_place(h, h.per_block(u), g, r) + h.elem <= data.len(),
    ensures
        array_element(
            data,
            base,
            h,
            h.in_index + h.elems_before(u) + b * h.per_block(u) + (g * pow2(h.page_bits) + r),
        ) == Ok::<Option<Seq<u8>>, Seq<char>>(
            Some(
                data.subrange(
                    base + addr + block_place(h, h.per_block(u), g, r),
                    base + addr + block_place(h, h.per_block(u), g, r) + h.elem,
                ),
            ),
        ),
{
    let n = h.per_block(u);
    let pos = g * pow2(h.page_bits) + r;
    law_group_of(h, u, b, pos);
    assert(b * n >= 0) by (nonlinear_arith);
    lemma_head(data, base + h.index, seq![69u8, 65u8, 73u8, 66u8], "bad EAIB signature"@);
    let refs = h.in_index * h.elem;
    assert(refs >= 0) by (nonlinear_arith)
        requires
            refs == h.in_index * h.elem,
    ;
    lemma_reference(
        data,
        base + h.index + 14,
        refs + 2 * (h.min_blocks - 1) * 8 + (u - h.direct_groups()) * 8,
        sup,
    );
    lemma_head(data, base + sup, seq![69u8, 65u8, 83u8, 66u8], "bad EASB signature"@);
    let w = h.off_size() as int;
    let maps = h.blocks(u) * h.bitmap(n);
    assert(maps >= 0) by (nonlinear_arith)
        requires
            maps == h.blocks(u) * h.bitmap(n),
    ;
    let s = data.skip(base + sup + 14);
    assert(s.skip(w) =~= data.skip(base + sup + 14 + w));
    assert(w == 0 ==> s.skip(w) =~= s);
    lemma_reference(data, base + sup + 14 + w, (maps + b * 8) as int, addr);
    lemma_block_element(data, base, h, addr, n, g, r);
}

} // verus!
