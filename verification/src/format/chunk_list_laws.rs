//! The indexes of chunks list each chunk at its place in the grid, so that the array is
//! read back from them.

use vstd::prelude::*;

use crate::format::chunk_index::{
    array_chunks, chunk_corner, chunk_counts, chunk_list, chunk_size, element_entry, entry_chunk,
    entry_chunks, fixed_entries, has_zero, implicit_chunks, record_chunks, Entry, GridView,
};
use crate::format::chunk_laws::{law_corner_placed, law_placed_once, places_chunk};
use crate::format::chunk_read_laws::{chunks_of, law_chunks_read};
use crate::format::chunk_write::CutView;
use crate::format::chunks::{filled, ChunkGeometry, ProgressView};
use crate::format::earray::{array_element, array_parsed, ArrayInfo};
use crate::format::filters::kept;
use crate::format::gheap::rest_at;
use crate::format::grid::count;
use crate::format::messages::ChunkIndex;
use crate::format::stands::stands;
use crate::format::v2::btree_read;
use crate::format::{zeroes, UNDEF};
use crate::model::ChunkView;

verus! {

/// Whether an entry refers to a stored chunk.
pub open spec fn refers(x: Entry) -> bool {
    x.addr != UNDEF && x.addr != 0
}

/// Whether `c` is the chunk that the entry number `i` refers to: it lies at the place `i`
/// of the grid, and its address, size and mask are those of the entry. An entry without a
/// size stands for a chunk of the full size.
pub open spec fn lists_entry(g: GridView, i: nat, x: Entry, c: ChunkView) -> bool {
    &&& refers(x)
    &&& places_chunk(g.dims, g.cdims, c.offsets, i)
    &&& c.addr == x.addr
    &&& c.mask == x.mask
    &&& x.size matches Some(n) ==> c.size == n
    &&& x.size is None ==> c.size == g.bytes
}

/// Whether the chunks `v` are those that the entries refer to, in the order of the grid.
pub open spec fn lists(g: GridView, entries: Seq<Option<Entry>>, v: Seq<ChunkView>) -> bool {
    exists|at: Seq<nat>| #[trigger] lists_at(g, entries, v, at)
}

/// The same, where `at[p]` is the number of the entry of the chunk number `p`.
pub open spec fn lists_at(
    g: GridView,
    entries: Seq<Option<Entry>>,
    v: Seq<ChunkView>,
    at: Seq<nat>,
) -> bool {
    &&& at.len() == v.len()
    &&& forall|p: int, q: int| 0 <= p < q < at.len() ==> #[trigger] at[p] < #[trigger] at[q]
    &&& forall|p: int|
        #![trigger v[p]]
        #![trigger at[p]]
        0 <= p < v.len() ==> at[p] < entries.len() && entries[at[p] as int] is Some && lists_entry(
            g,
            at[p],
            entries[at[p] as int]->0,
            v[p],
        )
    &&& forall|i: nat|
        i < entries.len() && (#[trigger] entries[i as int]) is Some && refers(
            entries[i as int]->0,
        ) ==> at.contains(i)
}

proof fn lemma_listed_step(
    g: GridView,
    entries: Seq<Option<Entry>>,
    x: Option<Entry>,
    v: Seq<ChunkView>,
    at: Seq<nat>,
)
    requires
        lists_at(g, entries, v, at),
        g.cdims.len() == g.dims.len(),
        !has_zero(g.cdims),
        entries.len() < count(chunk_counts(g.dims, g.cdims)),
    ensures
        ({
            let i = entries.len();
            match x {
                Some(e) => match entry_chunk(g, i, e) {
                    Some(c) => lists_at(g, entries.push(x), v.push(c), at.push(i)),
                    None => lists_at(g, entries.push(x), v, at),
                },
                None => lists_at(g, entries.push(x), v, at),
            }
        }),
{
    let i = entries.len();
    let all = entries.push(x);
    law_corner_placed(g.dims, g.cdims, i);
    let (w, bt) = match x {
        Some(e) => match entry_chunk(g, i, e) {
            Some(c) => (v.push(c), at.push(i)),
            None => (v, at),
        },
        None => (v, at),
    };
    assert forall|p: int|
        #![trigger w[p]]
        #![trigger bt[p]]
        0 <= p < w.len() implies bt[p] < all.len() && all[bt[p] as int] is Some && lists_entry(
        g,
        bt[p],
        all[bt[p] as int]->0,
        w[p],
    ) by {
        if p < v.len() {
            assert(w[p] == v[p]);
            assert(at[p] < entries.len());
            assert(all[at[p] as int] == entries[at[p] as int]);
        }
    }
    assert forall|p: int, q: int| 0 <= p < q < bt.len() implies #[trigger] bt[p]
        < #[trigger] bt[q] by {
        if q == v.len() {
            assert(at[p] < entries.len()) by {
                assert(lists_entry(g, at[p], entries[at[p] as int]->0, v[p]));
            }
        }
    }
    assert forall|j: nat|
        j < all.len() && (#[trigger] all[j as int]) is Some && refers(
            all[j as int]->0,
        ) implies bt.contains(j) by {
        if j < i {
            assert(entries[j as int] == all[j as int]);
            assert(at.contains(j));
            let p = at.index_of(j);
            assert(bt[p] == j);
        } else {
            assert(bt[v.len() as int] == i);
        }
    }
    assert(bt.len() == w.len());
    assert(lists_at(g, all, w, bt));
}

/// Chunks that are listed have different offsets.
pub proof fn law_listed_apart(g: GridView, entries: Seq<Option<Entry>>, v: Seq<ChunkView>)
    requires
        lists(g, entries, v),
        g.cdims.len() == g.dims.len(),
        !has_zero(g.cdims),
    ensures
        forall|p: int, q: int|
            0 <= p < q < v.len() ==> (#[trigger] v[p]).offsets != (#[trigger] v[q]).offsets,
{
    let at = choose|at: Seq<nat>| #[trigger] lists_at(g, entries, v, at);
    assert forall|p: int, q: int| 0 <= p < q < v.len() implies (#[trigger] v[p]).offsets != (
    #[trigger] v[q]).offsets by {
        assert(at[p] < at[q]);
        law_placed_once(g.dims, g.cdims, v[p].offsets, v[q].offsets, at[p], at[q]);
    }
}

proof fn lemma_entries_listed(
    g: GridView,
    n: nat,
    entries: Seq<Entry>,
    i: nat,
    acc: Seq<ChunkView>,
    at: Seq<nat>,
) -> (r: Seq<nat>)
    requires
        g.cdims.len() == g.dims.len(),
        !has_zero(g.cdims),
        n == count(chunk_counts(g.dims, g.cdims)),
        i <= entries.len(),
        i <= n,
        lists_at(g, somes(entries.take(i as int)), acc, at),
    ensures
        lists_at(
            g,
            somes(
                entries.take(
                    if entries.len() < n {
                        entries.len() as int
                    } else {
                        n as int
                    },
                ),
            ),
            entry_chunks(g, n, entries, i, acc),
            r,
        ),
    decreases entries.len() - i,
{
    if i >= entries.len() || i >= n {
        at
    } else {
        let x = entries[i as int];
        let before = somes(entries.take(i as int));
        lemma_listed_step(g, before, Some(x), acc, at);
        assert(before.push(Some(x)) =~= somes(entries.take(i as int + 1)));
        let (next, places) = match entry_chunk(g, i, x) {
            Some(c) => (acc.push(c), at.push(i)),
            None => (acc, at),
        };
        lemma_entries_listed(g, n, entries, i + 1, next, places)
    }
}

/// Entries, all of which are there.
pub open spec fn somes(v: Seq<Entry>) -> Seq<Option<Entry>> {
    v.map_values(|x: Entry| Some(x))
}

/// A fixed array lists the chunks that its entries refer to, the entry number `i` the one
/// at the place `i` of the grid. Entries behind the last place count for nothing.
pub proof fn law_fixed_array_listed(
    data: Seq<u8>,
    base: u64,
    header_addr: u64,
    dims: Seq<u64>,
    cdims: Seq<u64>,
    elem: nat,
    entries: Seq<Entry>,
)
    requires
        header_addr != UNDEF,
        chunk_size(dims, cdims, elem) is Ok,
        count(chunk_counts(dims, cdims)) <= u64::MAX,
        fixed_entries(data, base, header_addr) == Ok::<Seq<Entry>, Seq<char>>(entries),
    ensures
        chunk_list(data, base, ChunkIndex::FixedArray { header_addr }, dims, cdims, elem) matches Ok(
            v,
        ) && lists(
            GridView { dims, cdims, bytes: chunk_size(dims, cdims, elem)->Ok_0 },
            somes(
                entries.take(
                    if entries.len() < count(chunk_counts(dims, cdims)) {
                        entries.len() as int
                    } else {
                        count(chunk_counts(dims, cdims)) as int
                    },
                ),
            ),
            v,
        ),
{
    let g = GridView { dims, cdims, bytes: chunk_size(dims, cdims, elem)->Ok_0 };
    let n = count(chunk_counts(dims, cdims));
    assert(entries.take(0) =~= Seq::empty());
    assert(lists_at(g, somes(entries.take(0)), Seq::empty(), Seq::empty()));
    let at = lemma_entries_listed(g, n, entries, 0, Seq::empty(), Seq::empty());
    assert(lists_at(
        g,
        somes(
            entries.take(
                if entries.len() < n {
                    entries.len() as int
                } else {
                    n as int
                },
            ),
        ),
        entry_chunks(g, n, entries, 0, Seq::empty()),
        at,
    ));
}

/// Whether the entries are those in the elements of an extensible array, as far as they
/// were stored.
pub open spec fn array_holds(
    data: Seq<u8>,
    base: u64,
    h: ArrayInfo,
    entries: Seq<Option<Entry>>,
) -> bool {
    forall|i: nat|
        i < entries.len() ==> match #[trigger] entries[i as int] {
            Some(x) => array_element(data, base, h, i) matches Ok(Some(b)) && element_entry(
                b,
                h.elem,
            ) == Ok::<Entry, Seq<char>>(x),
            None => array_element(data, base, h, i) == Ok::<Option<Seq<u8>>, Seq<char>>(None),
        }
}

proof fn lemma_array_listed(
    data: Seq<u8>,
    base: u64,
    h: ArrayInfo,
    g: GridView,
    entries: Seq<Option<Entry>>,
    i: nat,
    acc: Seq<ChunkView>,
    at: Seq<nat>,
) -> (r: Seq<nat>)
    requires
        g.cdims.len() == g.dims.len(),
        !has_zero(g.cdims),
        entries.len() == count(chunk_counts(g.dims, g.cdims)),
        array_holds(data, base, h, entries),
        i <= entries.len(),
        lists_at(g, entries.take(i as int), acc, at),
    ensures
        array_chunks(data, base, h, g, entries.len(), i, acc) is Ok,
        lists_at(g, entries, array_chunks(data, base, h, g, entries.len(), i, acc)->Ok_0, r),
    decreases entries.len() - i,
{
    if i >= entries.len() {
        assert(entries.take(i as int) =~= entries);
        at
    } else {
        let x = entries[i as int];
        let before = entries.take(i as int);
        lemma_listed_step(g, before, x, acc, at);
        assert(before.push(x) =~= entries.take(i as int + 1));
        let (next, places) = match x {
            Some(e) => match entry_chunk(g, i, e) {
                Some(c) => (acc.push(c), at.push(i)),
                None => (acc, at),
            },
            None => (acc, at),
        };
        lemma_array_listed(data, base, h, g, entries, i + 1, next, places)
    }
}

/// An extensible array lists the chunks that its elements refer to, the element number
/// `i` the one at the place `i` of the grid.
pub proof fn law_extensible_array_listed(
    data: Seq<u8>,
    base: u64,
    header_addr: u64,
    dims: Seq<u64>,
    cdims: Seq<u64>,
    elem: nat,
    h: ArrayInfo,
    entries: Seq<Option<Entry>>,
)
    requires
        header_addr != UNDEF,
        chunk_size(dims, cdims, elem) is Ok,
        entries.len() == count(chunk_counts(dims, cdims)) <= u64::MAX,
        array_parsed(rest_at(data, base + header_addr)) == Ok::<ArrayInfo, Seq<char>>(h),
        array_holds(data, base, h, entries),
    ensures
        chunk_list(data, base, ChunkIndex::ExtArray { header_addr }, dims, cdims, elem) matches Ok(
            v,
        ) && lists(
            GridView { dims, cdims, bytes: chunk_size(dims, cdims, elem)->Ok_0 },
            entries,
            v,
        ),
{
    let g = GridView { dims, cdims, bytes: chunk_size(dims, cdims, elem)->Ok_0 };
    assert(lists_at(g, entries.take(0), Seq::empty(), Seq::empty()));
    let at = lemma_array_listed(data, base, h, g, entries, 0, Seq::empty(), Seq::empty());
    assert(lists_at(g, entries, array_chunks(data, base, h, g, entries.len(), 0, Seq::empty())->Ok_0, at));
}

/// Whether the entries refer to the stored chunks at their addresses, in the order of
/// the grid, unmasked. An entry may leave out the size of a chunk of the full size.
pub open spec fn refer_to(
    entries: Seq<Option<Entry>>,
    stored: Seq<Seq<u8>>,
    addrs: Seq<u64>,
    bytes: nat,
) -> bool {
    &&& entries.len() == stored.len()
    &&& addrs.len() == stored.len()
    &&& forall|i: int|
        0 <= i < entries.len() ==> ((#[trigger] entries[i]) matches Some(x) && refers(x) && x.addr
            == addrs[i] && x.mask == 0 && match x.size {
            Some(n) => n == stored[i].len(),
            None => bytes == stored[i].len(),
        })
}

/// A list of all places is the list of the places.
proof fn lemma_all_listed(at: Seq<nat>, n: nat)
    requires
        forall|p: int, q: int| 0 <= p < q < at.len() ==> #[trigger] at[p] < #[trigger] at[q],
        forall|p: int| 0 <= p < at.len() ==> #[trigger] at[p] < n,
        forall|i: nat| i < n ==> #[trigger] at.contains(i),
    ensures
        at.len() == n,
        forall|p: int| 0 <= p < at.len() ==> #[trigger] at[p] == p,
    decreases n,
{
    if n == 0 {
        if at.len() > 0 {
            assert(at[0] < n);
        }
    } else {
        let last = (n - 1) as nat;
        assert(at.contains(last));
        let p = at.index_of(last);
        if p < at.len() - 1 {
            assert(at[p] < at[at.len() - 1]);
        }
        let init = at.drop_last();
        assert forall|i: nat| i < last implies #[trigger] init.contains(i) by {
            assert(at.contains(i));
            let q = at.index_of(i);
            assert(init[q] == i);
        }
        assert forall|q: int| 0 <= q < init.len() implies #[trigger] init[q] < last by {
            assert(at[q] < at[at.len() - 1]);
        }
        lemma_all_listed(init, last);
        assert forall|q: int| 0 <= q < at.len() implies #[trigger] at[q] == q by {
            if q < init.len() {
                assert(init[q] == q);
            }
        }
    }
}

/// Chunks that are listed in the order of the grid are those that were stored.
proof fn lemma_listed_chunks(
    g: GridView,
    entries: Seq<Option<Entry>>,
    v: Seq<ChunkView>,
    stored: Seq<Seq<u8>>,
    addrs: Seq<u64>,
)
    requires
        lists(g, entries, v),
        refer_to(entries, stored, addrs, g.bytes),
        g.cdims.len() == g.dims.len(),
        !has_zero(g.cdims),
        stored.len() == count(chunk_counts(g.dims, g.cdims)),
    ensures
        v == chunks_of(g.dims, g.cdims, stored, addrs),
{
    let at = choose|at: Seq<nat>| #[trigger] lists_at(g, entries, v, at);
    let n = entries.len();
    assert forall|i: nat| i < n implies #[trigger] at.contains(i) by {
        assert(entries[i as int] is Some && refers(entries[i as int]->0));
    }
    assert forall|p: int| 0 <= p < at.len() implies #[trigger] at[p] < n by {
        assert(lists_entry(g, at[p], entries[at[p] as int]->0, v[p]));
    }
    lemma_all_listed(at, n);
    let w = chunks_of(g.dims, g.cdims, stored, addrs);
    assert forall|p: int| 0 <= p < v.len() implies v[p] == w[p] by {
        assert(at[p] == p);
        assert(entries[p] is Some);
        assert(lists_entry(g, p as nat, entries[p]->0, v[p]));
        law_corner_placed(g.dims, g.cdims, p as nat);
        law_placed_once(
            g.dims,
            g.cdims,
            v[p].offsets,
            chunk_corner(g.dims, g.cdims, p as nat),
            p as nat,
            p as nat,
        );
    }
    assert(v =~= w);
}

/// Whether an array was cut into chunks that were filtered and stored at addresses.
pub open spec fn cut_stored(
    data: Seq<u8>,
    base: u64,
    cut: CutView,
    stored: Seq<Seq<u8>>,
    addrs: Seq<u64>,
) -> bool {
    &&& cut.all_filtered(0, stored)
    &&& stored.len() == count(chunk_counts(cut.dims, cut.cdims))
    &&& stored.len() <= u64::MAX
    &&& addrs.len() == stored.len()
    &&& forall|k: int|
        0 <= k < stored.len() ==> stands(data, base + #[trigger] addrs[k], stored[k])
    &&& cut.filters.len() <= 32
    &&& forall|k: int|
        0 <= k < stored.len() ==> kept(cut.filters, 0, cut.size, #[trigger] cut.chunk(k as nat))
    &&& chunk_size(cut.dims, cut.cdims, cut.size) is Ok
    &&& cut.size > 0
    &&& cut.data.len() == count(cut.dims) * cut.size
}

/// Whether the chunks that an index lists give back the array that was cut.
pub open spec fn reads_back(data: Seq<u8>, base: u64, index: ChunkIndex, cut: CutView) -> bool {
    chunk_list(data, base, index, cut.dims, cut.cdims, cut.size) matches Ok(v) && filled(
        data,
        base,
        v,
        0,
        ChunkGeometry {
            dims: cut.dims,
            cdims: cut.cdims,
            elem: cut.size,
            bytes: chunk_size(cut.dims, cut.cdims, cut.size)->Ok_0,
            filters: cut.filters,
        },
        zeroes(cut.data.len()),
    ) == Ok::<ProgressView, Seq<char>>(ProgressView::Done(cut.data))
}

proof fn lemma_listed_read(
    data: Seq<u8>,
    base: u64,
    index: ChunkIndex,
    cut: CutView,
    stored: Seq<Seq<u8>>,
    addrs: Seq<u64>,
)
    requires
        cut_stored(data, base, cut, stored, addrs),
        chunk_list(data, base, index, cut.dims, cut.cdims, cut.size) == Ok::<
            Seq<ChunkView>,
            Seq<char>,
        >(chunks_of(cut.dims, cut.cdims, stored, addrs)),
    ensures
        reads_back(data, base, index, cut),
{
    law_chunks_read(
        data,
        base,
        cut,
        stored,
        addrs,
        ChunkGeometry {
            dims: cut.dims,
            cdims: cut.cdims,
            elem: cut.size,
            bytes: chunk_size(cut.dims, cut.cdims, cut.size)->Ok_0,
            filters: cut.filters,
        },
    );
}

/// A fixed array whose entries refer to the chunks of an array in the order of the grid
/// reads back as that array.
pub proof fn law_fixed_array_read(
    data: Seq<u8>,
    base: u64,
    header_addr: u64,
    cut: CutView,
    stored: Seq<Seq<u8>>,
    addrs: Seq<u64>,
    entries: Seq<Entry>,
)
    requires
        header_addr != UNDEF,
        cut_stored(data, base, cut, stored, addrs),
        fixed_entries(data, base, header_addr) == Ok::<Seq<Entry>, Seq<char>>(entries),
        refer_to(
            somes(entries),
            stored,
            addrs,
            chunk_size(cut.dims, cut.cdims, cut.size)->Ok_0,
        ),
    ensures
        reads_back(data, base, ChunkIndex::FixedArray { header_addr }, cut),
{
    law_fixed_array_listed(data, base, header_addr, cut.dims, cut.cdims, cut.size, entries);
    assert(entries.take(entries.len() as int) =~= entries);
    let g = GridView {
        dims: cut.dims,
        cdims: cut.cdims,
        bytes: chunk_size(cut.dims, cut.cdims, cut.size)->Ok_0,
    };
    let index = ChunkIndex::FixedArray { header_addr };
    let v = chunk_list(data, base, index, cut.dims, cut.cdims, cut.size)->Ok_0;
    lemma_listed_chunks(g, somes(entries), v, stored, addrs);
    lemma_listed_read(data, base, index, cut, stored, addrs);
}

/// An extensible array whose elements refer to the chunks of an array in the order of the
/// grid reads back as that array.
pub proof fn law_extensible_array_read(
    data: Seq<u8>,
    base: u64,
    header_addr: u64,
    cut: CutView,
    stored: Seq<Seq<u8>>,
    addrs: Seq<u64>,
    h: ArrayInfo,
    entries: Seq<Option<Entry>>,
)
    requires
        header_addr != UNDEF,
        cut_stored(data, base, cut, stored, addrs),
        array_parsed(rest_at(data, base + header_addr)) == Ok::<ArrayInfo, Seq<char>>(h),
        array_holds(data, base, h, entries),
        refer_to(entries, stored, addrs, chunk_size(cut.dims, cut.cdims, cut.size)->Ok_0),
    ensures
        reads_back(data, base, ChunkIndex::ExtArray { header_addr }, cut),
{
    law_extensible_array_listed(
        data,
        base,
        header_addr,
        cut.dims,
        cut.cdims,
        cut.size,
        h,
        entries,
    );
    let g = GridView {
        dims: cut.dims,
        cdims: cut.cdims,
        bytes: chunk_size(cut.dims, cut.cdims, cut.size)->Ok_0,
    };
    let index = ChunkIndex::ExtArray { header_addr };
    let v = chunk_list(data, base, index, cut.dims, cut.cdims, cut.size)->Ok_0;
    lemma_listed_chunks(g, entries, v, stored, addrs);
    lemma_listed_read(data, base, index, cut, stored, addrs);
}

proof fn lemma_implicit(g: GridView, addr: u64, n: nat, i: nat, acc: Seq<ChunkView>)
    requires
        i <= n,
        acc.len() == i,
        addr + n * g.bytes <= u64::MAX,
    ensures
        implicit_chunks(g, addr, n, i, acc) matches Ok(v) && v.len() == n && (forall|k: int|
            0 <= k < i ==> #[trigger] v[k] == acc[k]) && (forall|k: int|
            i <= k < n ==> (#[trigger] v[k]) == (ChunkView {
                offsets: chunk_corner(g.dims, g.cdims, k as nat),
                size: g.bytes,
                mask: 0,
                addr: (addr + k * g.bytes) as u64,
            })),
    decreases n - i,
{
    if i < n {
        assert(i * g.bytes <= n * g.bytes) by (nonlinear_arith)
            requires
                i <= n,
        ;
        let c = ChunkView {
            offsets: chunk_corner(g.dims, g.cdims, i),
            size: g.bytes,
            mask: 0,
            addr: (addr + i * g.bytes) as u64,
        };
        lemma_implicit(g, addr, n, i + 1, acc.push(c));
        let v = implicit_chunks(g, addr, n, i, acc)->Ok_0;
        assert(v[i as int] == acc.push(c)[i as int]);
        assert forall|k: int| 0 <= k < i implies #[trigger] v[k] == acc[k] by {
            assert(acc.push(c)[k] == acc[k]);
        }
    }
}

/// Chunks that were stored one behind the other in the order of the grid read back as
/// the array that was cut.
pub proof fn law_implicit_read(
    data: Seq<u8>,
    base: u64,
    addr: u64,
    cut: CutView,
    stored: Seq<Seq<u8>>,
    addrs: Seq<u64>,
)
    requires
        cut_stored(data, base, cut, stored, addrs),
        addr + stored.len() * chunk_size(cut.dims, cut.cdims, cut.size)->Ok_0 < u64::MAX,
        forall|k: int|
            0 <= k < stored.len() ==> #[trigger] addrs[k] == addr + k * chunk_size(
                cut.dims,
                cut.cdims,
                cut.size,
            )->Ok_0,
        forall|k: int|
            0 <= k < stored.len() ==> (#[trigger] stored[k]).len() == chunk_size(
                cut.dims,
                cut.cdims,
                cut.size,
            )->Ok_0,
    ensures
        reads_back(data, base, ChunkIndex::Implicit { addr }, cut),
{
    let bytes = chunk_size(cut.dims, cut.cdims, cut.size)->Ok_0;
    let g = GridView { dims: cut.dims, cdims: cut.cdims, bytes };
    let n = stored.len();
    assert(n * bytes >= 0) by (nonlinear_arith);
    lemma_implicit(g, addr, n, 0, Seq::empty());
    let v = implicit_chunks(g, addr, n, 0, Seq::empty())->Ok_0;
    let w = chunks_of(cut.dims, cut.cdims, stored, addrs);
    assert forall|k: int| 0 <= k < n implies v[k] == w[k] by {
        assert(addrs[k] == addr + k * bytes);
        assert(stored[k].len() == bytes);
    }
    assert(v =~= w);
    lemma_listed_read(data, base, ChunkIndex::Implicit { addr }, cut, stored, addrs);
}

/// A single chunk that covers an array reads back as that array.
pub proof fn law_single_read(
    data: Seq<u8>,
    base: u64,
    addr: u64,
    filtered_size: Option<u32>,
    cut: CutView,
    stored: Seq<u8>,
)
    requires
        addr != UNDEF,
        cut_stored(data, base, cut, seq![stored], seq![addr]),
        stored.len() == (match filtered_size {
            Some(n) => n as nat,
            None => chunk_size(cut.dims, cut.cdims, cut.size)->Ok_0,
        }),
    ensures
        reads_back(data, base, ChunkIndex::Single { addr, filtered_size, filter_mask: 0 }, cut),
{
    let index = ChunkIndex::Single { addr, filtered_size, filter_mask: 0 };
    let w = chunks_of(cut.dims, cut.cdims, seq![stored], seq![addr]);
    let v = chunk_list(data, base, index, cut.dims, cut.cdims, cut.size)->Ok_0;
    law_corner_placed(cut.dims, cut.cdims, 0);
    let counts = chunk_counts(cut.dims, cut.cdims);
    assert(count(counts) == 1);
    let at = chunk_corner(cut.dims, cut.cdims, 0);
    assert(at =~= Seq::new(cut.dims.len(), |k: int| 0u64)) by {
        lemma_zero_coords(counts);
        assert forall|k: int| 0 <= k < at.len() implies at[k] == 0 by {
            assert(crate::format::grid::coords_of(counts, 0)[k] == 0);
            assert(0 * cut.cdims[k] == 0) by (nonlinear_arith);
        }
    }
    assert(v =~= w);
    lemma_listed_read(data, base, index, cut, seq![stored], seq![addr]);
}

proof fn lemma_zero_coords(dims: Seq<u64>)
    ensures
        forall|k: int|
            0 <= k < dims.len() ==> #[trigger] crate::format::grid::coords_of(dims, 0)[k] == 0,
    decreases dims.len(),
{
    if dims.len() > 0 {
        lemma_zero_coords(dims.skip(1));
        let c = crate::format::grid::coords_of(dims, 0);
        let rest = crate::format::grid::coords_of(dims.skip(1), 0);
        let s = count(dims.skip(1));
        crate::format::grid::lemma_coords_len(dims.skip(1), 0);
        if s > 0 {
            assert(0nat / s == 0 && 0nat % s == 0) by (nonlinear_arith)
                requires
                    s > 0,
            ;
        }
        assert forall|k: int| 0 <= k < dims.len() implies #[trigger] c[k] == 0 by {
            if k > 0 {
                assert(c[k] == rest[k - 1]);
            }
        }
    }
}

/// The chunks that the records of a version 2 B-tree hold, in their order.
proof fn lemma_records(
    records: Seq<Seq<u8>>,
    kind: u8,
    g: GridView,
    i: int,
    acc: Seq<ChunkView>,
    v: Seq<ChunkView>,
)
    requires
        0 <= i <= records.len(),
        v.len() == records.len(),
        acc == v.take(i),
        forall|k: int|
            0 <= k < records.len() ==> crate::format::chunk_index::record_chunk(
                #[trigger] records[k],
                kind,
                g,
            ) == Ok::<Option<ChunkView>, Seq<char>>(Some(v[k])),
    ensures
        record_chunks(records, kind, g, i, acc) == Ok::<Seq<ChunkView>, Seq<char>>(v),
    decreases records.len() - i,
{
    if i < records.len() {
        assert(v.take(i).push(v[i]) =~= v.take(i + 1));
        lemma_records(records, kind, g, i + 1, v.take(i + 1), v);
    } else {
        assert(v.take(i) =~= v);
    }
}

/// A version 2 B-tree whose records hold the chunks of an array in the order of the grid
/// reads back as that array.
pub proof fn law_chunk_btree2_read(
    data: Seq<u8>,
    base: u64,
    header_addr: u64,
    cut: CutView,
    stored: Seq<Seq<u8>>,
    addrs: Seq<u64>,
    kind: u8,
    records: Seq<Seq<u8>>,
)
    requires
        header_addr != UNDEF,
        cut_stored(data, base, cut, stored, addrs),
        btree_read(data, base, header_addr) == Ok::<(u8, Seq<Seq<u8>>), Seq<char>>(
            (kind, records),
        ),
        records.len() == stored.len(),
        forall|k: int|
            0 <= k < records.len() ==> crate::format::chunk_index::record_chunk(
                #[trigger] records[k],
                kind,
                GridView {
                    dims: cut.dims,
                    cdims: cut.cdims,
                    bytes: chunk_size(cut.dims, cut.cdims, cut.size)->Ok_0,
                },
            ) == Ok::<Option<ChunkView>, Seq<char>>(
                Some(chunks_of(cut.dims, cut.cdims, stored, addrs)[k]),
            ),
    ensures
        reads_back(data, base, ChunkIndex::BtreeV2 { header_addr }, cut),
{
    let g = GridView {
        dims: cut.dims,
        cdims: cut.cdims,
        bytes: chunk_size(cut.dims, cut.cdims, cut.size)->Ok_0,
    };
    let v = chunks_of(cut.dims, cut.cdims, stored, addrs);
    assert(v.take(0) =~= Seq::empty());
    lemma_records(records, kind, g, 0, Seq::empty(), v);
    lemma_listed_read(data, base, ChunkIndex::BtreeV2 { header_addr }, cut, stored, addrs);
}

} // verus!
