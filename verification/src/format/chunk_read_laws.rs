//! Chunks are read as they are written.

use vstd::prelude::*;

use crate::format::bits::pow2;
use crate::format::chunk_index::{chunk_corner, chunk_counts, has_zero, offsets_at, tree_chunks};
use crate::format::chunk_laws::{law_chunks_restore_array, tiled};
use crate::format::chunk_write::{
    all_written, chunk_children, chunk_key, chunk_shape, chunks_written, end_key, CutView,
};
use crate::format::chunks::{chunk_decoded, filled, placed, ChunkGeometry, ProgressView};
use crate::format::elements::fitted;
use crate::format::encode::words64;
use crate::format::filters::{kept, law_pipeline_round_trip, AppliedView, ReversedView};
use crate::format::grid::count;
use crate::format::object_laws::{keeps, lemma_appended_stands, lemma_keeps};
use crate::format::stands::stands;
use crate::format::tree::{extends, lemma_appended, lemma_extends};
use crate::format::tree_laws::{child_reads, flat, law_tree_read};
use crate::format::{
    law_le_round_trip, le_at, le_bytes, lemma_le_bytes_len, lemma_pow256, zeroes,
};
use crate::model::ChunkView;

verus! {

/// Blocks stand where they were written.
pub proof fn lemma_all_written(s: Seq<u8>, blocks: Seq<Seq<u8>>)
    requires
        all_written(s, blocks).0.len() < u64::MAX,
    ensures
        ({
            let (out, addrs) = all_written(s, blocks);
            &&& addrs.len() == blocks.len()
            &&& extends(out, s)
            &&& forall|i: int|
                0 <= i < blocks.len() ==> stands(out, (#[trigger] addrs[i]) as int, blocks[i])
                    && addrs[i] >= s.len()
        }),
    decreases blocks.len(),
{
    if blocks.len() == 0 {
        assert(s.take(s.len() as int) =~= s);
    } else {
        let init = blocks.drop_last();
        let (s1, before) = all_written(s, init);
        let (out, addrs) = all_written(s, blocks);
        lemma_appended(s1, blocks.last());
        lemma_all_written(s, init);
        lemma_extends(s, s1, out);
        lemma_appended_stands(s1, blocks.last());
        assert forall|i: int| 0 <= i < blocks.len() implies stands(
            out,
            (#[trigger] addrs[i]) as int,
            blocks[i],
        ) && addrs[i] >= s.len() by {
            if i < init.len() {
                assert(addrs[i] == before[i]);
                assert(init[i] == blocks[i]);
                lemma_longer(out, s1, addrs[i] as int, blocks[i]);
            }
        }
    }
}

/// What stands in an image stands in a longer one.
pub proof fn lemma_longer(out: Seq<u8>, s: Seq<u8>, at: int, b: Seq<u8>)
    requires
        extends(out, s),
        stands(s, at, b),
    ensures
        stands(out, at, b),
{
    assert(out.subrange(at, at + b.len()) =~= s.subrange(at, at + b.len())) by {
        assert forall|i: int| 0 <= i < s.len() implies out[i] == s[i] by {
            assert(out.take(s.len() as int)[i] == s[i]);
        }
    }
}

proof fn lemma_words_len(v: Seq<u64>)
    ensures
        words64(v).len() == 8 * v.len(),
    decreases v.len(),
{
    if v.len() > 0 {
        lemma_words_len(v.drop_last());
        lemma_le_bytes_len(v.last() as nat, 8);
    }
}

proof fn lemma_word_at(v: Seq<u64>, k: int)
    requires
        0 <= k < v.len(),
    ensures
        words64(v).subrange(8 * k, 8 * k + 8) == le_bytes(v[k] as nat, 8),
    decreases v.len(),
{
    let init = v.drop_last();
    lemma_words_len(v);
    lemma_words_len(init);
    lemma_le_bytes_len(v.last() as nat, 8);
    if k < init.len() {
        lemma_word_at(init, k);
        assert(words64(v).subrange(8 * k, 8 * k + 8) =~= words64(init).subrange(8 * k, 8 * k + 8));
    } else {
        assert(words64(v).subrange(8 * k, 8 * k + 8) =~= le_bytes(v[k] as nat, 8));
    }
}

/// The entry of a chunk is read.
proof fn lemma_key_read(len: nat, corner: Seq<u64>, addr: u64)
    requires
        len < 0x1_0000_0000,
    ensures
        ({
            let b = chunk_key(len, corner) + le_bytes(addr as nat, 8);
            &&& le_at(b, 0, 4) == len
            &&& le_at(b, 4, 4) == 0
            &&& offsets_at(b, 8, corner.len()) == corner
            &&& chunk_key(len, corner).len() == 16 + 8 * corner.len()
        }),
{
    let b = chunk_key(len, corner) + le_bytes(addr as nat, 8);
    lemma_pow256();
    lemma_le_bytes_len(len, 4);
    lemma_le_bytes_len(addr as nat, 8);
    lemma_words_len(corner);
    law_le_round_trip(len, 4);
    law_le_round_trip(0, 4);
    crate::format::fixup::lemma_zero_bytes(4);
    assert(b.subrange(0, 4) =~= le_bytes(len, 4));
    assert(b.subrange(4, 8) =~= zeroes(4));
    assert forall|k: int| 0 <= k < corner.len() implies offsets_at(b, 8, corner.len())[k]
        == corner[k] by {
        lemma_word_at(corner, k);
        assert(b.subrange(8 + 8 * k, 8 + 8 * k + 8) =~= words64(corner).subrange(
            8 * k,
            8 * k + 8,
        ));
        law_le_round_trip(corner[k] as nat, 8);
    }
    assert(offsets_at(b, 8, corner.len()) =~= corner);
}

proof fn lemma_end_len(corner: Seq<u64>, cdims: Seq<u64>, size: nat)
    ensures
        end_key(corner, cdims, size).len() == 16 + 8 * corner.len(),
{
    lemma_le_bytes_len(size, 8);
    if corner.len() > 0 {
        lemma_words_len(corner.skip(1));
        lemma_le_bytes_len((corner[0] + cdims[0]) as nat, 8);
    }
}

/// The chunks that were written.
pub open spec fn chunks_of(dims: Seq<u64>, cdims: Seq<u64>, stored: Seq<Seq<u8>>, addrs: Seq<u64>)
    -> Seq<ChunkView> {
    Seq::new(
        stored.len(),
        |i: int|
            ChunkView {
                offsets: chunk_corner(dims, cdims, i as nat),
                size: stored[i].len(),
                mask: 0,
                addr: addrs[i],
            },
    )
}

/// Each item as a list of its own.
pub open spec fn singles<T>(v: Seq<T>) -> Seq<Seq<T>> {
    v.map_values(|c: T| seq![c])
}

pub(crate) proof fn lemma_singles<T>(v: Seq<T>)
    ensures
        flat(singles(v)) == v,
    decreases v.len(),
{
    if v.len() > 0 {
        lemma_singles(v.skip(1));
        assert(singles(v).skip(1) =~= singles(v.skip(1)));
        assert(seq![v[0]] + v.skip(1) =~= v);
    }
}

/// Whether stored chunks can be told from the tree: there are chunks, and no more of them
/// than 64 bits count.
pub open spec fn chunks_plain(stored: Seq<Seq<u8>>) -> bool {
    0 < stored.len() <= u64::MAX
}

/// The tree of chunks that were written gives the chunks.
pub proof fn law_chunk_tree_read(
    data: Seq<u8>,
    base: u64,
    s: Seq<u8>,
    dims: Seq<u64>,
    cdims: Seq<u64>,
    size: nat,
    stored: Seq<Seq<u8>>,
    out: Seq<u8>,
    root: u64,
)
    requires
        chunks_written(s, dims, cdims, size, stored) == Ok::<(Seq<u8>, u64), Seq<char>>(
            (out, root),
        ),
        keeps(data, base, out, s.len()),
        out.len() < u64::MAX,
        s.len() >= 96,
        chunks_plain(stored),
    ensures
        ({
            let addrs = all_written(s, stored).1;
            &&& tree_chunks(data, base, root, dims.len(), data.len(), Seq::empty()) == Ok::<
                Seq<ChunkView>,
                Seq<char>,
            >(chunks_of(dims, cdims, stored, addrs))
            &&& addrs.len() == stored.len()
            &&& forall|i: int|
                0 <= i < stored.len() ==> stands(data, base + #[trigger] addrs[i], stored[i])
        }),
{
    let rank = dims.len();
    let t = chunk_shape(rank);
    let (s1, addrs) = all_written(s, stored);
    let cs = chunk_children(dims, cdims, size, stored, addrs);
    let list = chunks_of(dims, cdims, stored, addrs);
    crate::format::tree_laws::lemma_tree_extends(s1, t, 0, cs);
    lemma_all_written(s, stored);
    crate::format::tree_laws::lemma_keeps_less(data, base, out, s1, s.len());
    assert forall|i: int| 0 <= i < stored.len() implies stands(
        data,
        base + #[trigger] addrs[i],
        stored[i],
    ) by {
        lemma_keeps(data, base, s1, s.len(), addrs[i] as int, stored[i]);
    }
    assert forall|i: int| 0 <= i < cs.len() implies child_reads(
        data,
        base,
        rank,
        0,
        #[trigger] cs[i],
        singles(list)[i],
    ) && cs[i].last.len() == t.key by {
        let corner = chunk_corner(dims, cdims, i as nat);
        assert(stored[i].len() < 0x1_0000_0000);
        lemma_key_read(stored[i].len(), corner, addrs[i]);
        if i + 1 < stored.len() {
            assert(stored[i + 1].len() < 0x1_0000_0000);
            lemma_key_read(
                stored[i + 1].len(),
                chunk_corner(dims, cdims, (i + 1) as nat),
                addrs[i + 1],
            );
        } else {
            lemma_end_len(chunk_corner(dims, cdims, (stored.len() - 1) as nat), cdims, size);
        }
    }
    lemma_pow64();
    crate::format::tree_laws::lemma_room(s1, t, 0, cs, out);
    law_tree_read(data, base, rank, s1, 0, cs, singles(list), out, root, data.len());
    lemma_singles(list);
}

pub(crate) proof fn lemma_pow64()
    ensures
        pow2(64) == 0x1_0000_0000_0000_0000,
{
    reveal_with_fuel(pow2, 65);
}

/// A stored chunk is decoded to what was cut out of the array.
proof fn lemma_decoded(
    data: Seq<u8>,
    base: u64,
    cut: CutView,
    i: nat,
    c: ChunkView,
    g: ChunkGeometry,
    bytes: Seq<u8>,
)
    requires
        cut.filtered(i, Ok(AppliedView::Bytes(bytes))),
        c.offsets == chunk_corner(cut.dims, cut.cdims, i),
        c.size == bytes.len(),
        c.mask == 0,
        stands(data, base + c.addr, bytes),
        g.dims == cut.dims,
        g.filters == cut.filters,
        g.elem == cut.size,
        cut.filters.len() <= 32,
        kept(cut.filters, 0, cut.size, cut.chunk(i)),
    ensures
        chunk_decoded(data, base, c, g) == Ok::<ReversedView, Seq<char>>(
            ReversedView::Bytes(cut.chunk(i)),
        ),
{
    law_pipeline_round_trip(cut.filters, cut.size, cut.chunk(i), bytes);
}

/// Chunks that were cut out of an array, filtered and written fill an empty array with
/// its elements.
proof fn lemma_filled(
    data: Seq<u8>,
    base: u64,
    cut: CutView,
    stored: Seq<Seq<u8>>,
    addrs: Seq<u64>,
    g: ChunkGeometry,
    i: int,
    out: Seq<u8>,
)
    requires
        0 <= i <= stored.len(),
        cut.all_filtered(0, stored),
        addrs.len() == stored.len(),
        forall|k: int| 0 <= k < stored.len() ==> stands(data, base + #[trigger] addrs[k], stored[k]),
        g.dims == cut.dims,
        g.cdims == cut.cdims,
        g.filters == cut.filters,
        g.elem == cut.size,
        g.bytes == count(cut.cdims) * cut.size,
        cut.filters.len() <= 32,
        forall|k: int|
            0 <= k < stored.len() ==> kept(
                cut.filters,
                0,
                cut.size,
                #[trigger] cut.chunk(k as nat),
            ),
    ensures
        filled(
            data,
            base,
            chunks_of(cut.dims, cut.cdims, stored, addrs),
            i,
            g,
            out,
        ) == Ok::<ProgressView, Seq<char>>(
            ProgressView::Done(
                tiled(
                    cut.data,
                    cut.dims,
                    cut.cdims,
                    cut.size,
                    i as nat,
                    stored.len(),
                    out,
                ),
            ),
        ),
    decreases stored.len() - i,
{
    let chunks = chunks_of(cut.dims, cut.cdims, stored, addrs);
    if i < stored.len() {
        let c = chunks[i];
        assert(stands(data, base + addrs[i], stored[i]));
        assert(cut.filtered(i as nat, Ok(AppliedView::Bytes(stored[i]))));
        assert(kept(cut.filters, 0, cut.size, cut.chunk(i as nat)));
        lemma_decoded(data, base, cut, i as nat, c, g, stored[i]);
        let b = cut.chunk(i as nat);
        assert(fitted(b, g.bytes) =~= b);
        lemma_filled(
            data,
            base,
            cut,
            stored,
            addrs,
            g,
            i + 1,
            placed(out, b, g, c.offsets),
        );
    }
}

/// Chunks that were cut out of an array, filtered and written give the array when they
/// are read back.
pub proof fn law_chunks_read(
    data: Seq<u8>,
    base: u64,
    cut: CutView,
    stored: Seq<Seq<u8>>,
    addrs: Seq<u64>,
    g: ChunkGeometry,
)
    requires
        cut.all_filtered(0, stored),
        stored.len() == count(chunk_counts(cut.dims, cut.cdims)),
        addrs.len() == stored.len(),
        forall|k: int| 0 <= k < stored.len() ==> stands(data, base + #[trigger] addrs[k], stored[k]),
        g.dims == cut.dims,
        g.cdims == cut.cdims,
        g.filters == cut.filters,
        g.elem == cut.size,
        g.bytes == count(cut.cdims) * cut.size,
        cut.filters.len() <= 32,
        forall|k: int|
            0 <= k < stored.len() ==> kept(
                cut.filters,
                0,
                cut.size,
                #[trigger] cut.chunk(k as nat),
            ),
        cut.cdims.len() == cut.dims.len(),
        !has_zero(cut.cdims),
        cut.size > 0,
        cut.data.len() == count(cut.dims) * cut.size,
    ensures
        filled(
            data,
            base,
            chunks_of(cut.dims, cut.cdims, stored, addrs),
            0,
            g,
            zeroes(cut.data.len()),
        ) == Ok::<ProgressView, Seq<char>>(ProgressView::Done(cut.data)),
{
    lemma_filled(data, base, cut, stored, addrs, g, 0, zeroes(cut.data.len()));
    law_chunks_restore_array(cut.data, cut.dims, cut.cdims, cut.size);
}

} // verus!
