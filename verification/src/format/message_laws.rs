//! Header messages are read as they are written.

use vstd::prelude::*;
use vstd::utf8::encode_utf8;

use crate::format::datatype_laws::{lemma_nul, lemma_uint, plain_name};
use crate::format::encode::{
    dataspace_message, fill_message, filter_message, filter_messages, padded_name,
    pipeline_message, stored_limits, words32, words64,
};
use crate::format::filters::FilterView;
use crate::format::lower::word;
use crate::format::messages::{
    c_text, dataspace_parsed, filter_head, filter_taken, filters_taken, layout_parsed, limits,
    pipeline_parsed, words_of, ChunkIndex, LayoutView, SpaceView,
};
use crate::format::object::new_fill;
use crate::format::object_write::{block_message, chunked_message, mapped_message};
use crate::format::vds::numbers_taken;
use crate::format::{
    aligned8, dropped, law_le_round_trip, le, le_bytes, lemma_le_bytes_len, lemma_pow256, UNDEF,
};
use crate::model::FillView;
use crate::text::law_text_of_utf8;

verus! {

proof fn lemma_words_front(v: Seq<u64>)
    requires
        v.len() > 0,
    ensures
        words64(v) == le_bytes(v[0] as nat, 8) + words64(v.skip(1)),
    decreases v.len(),
{
    if v.len() > 1 {
        lemma_words_front(v.drop_last());
        assert(v.drop_last().skip(1) =~= v.skip(1).drop_last());
        assert(v.skip(1).last() == v.last());
        assert(words64(v) =~= le_bytes(v[0] as nat, 8) + words64(v.skip(1)));
    } else {
        assert(v.drop_last() =~= Seq::empty());
        assert(v.skip(1) =~= Seq::empty());
        assert(words64(v) =~= le_bytes(v[0] as nat, 8) + words64(v.skip(1)));
    }
}

pub proof fn lemma_numbers64(v: Seq<u64>, acc: Seq<u64>, s: Seq<u8>)
    ensures
        numbers_taken(words64(v) + s, 8, v.len(), acc) == Ok::<(Seq<u64>, Seq<u8>), Seq<char>>(
            (acc + v, s),
        ),
    decreases v.len(),
{
    if v.len() > 0 {
        lemma_words_front(v);
        let rest = words64(v.skip(1)) + s;
        assert(words64(v) + s =~= le_bytes(v[0] as nat, 8) + rest);
        lemma_pow256();
        lemma_uint(v[0] as nat, 8, rest);
        lemma_numbers64(v.skip(1), acc.push(v[0]), s);
        assert(acc.push(v[0]) + v.skip(1) =~= acc + v);
    } else {
        assert(words64(v) + s =~= s);
        assert(acc + v =~= acc);
    }
}

proof fn lemma_words32_front(v: Seq<u32>)
    requires
        v.len() > 0,
    ensures
        words32(v) == le_bytes(v[0] as nat, 4) + words32(v.skip(1)),
    decreases v.len(),
{
    if v.len() > 1 {
        lemma_words32_front(v.drop_last());
        assert(v.drop_last().skip(1) =~= v.skip(1).drop_last());
        assert(v.skip(1).last() == v.last());
        assert(words32(v) =~= le_bytes(v[0] as nat, 4) + words32(v.skip(1)));
    } else {
        assert(v.drop_last() =~= Seq::empty());
        assert(v.skip(1) =~= Seq::empty());
        assert(words32(v) =~= le_bytes(v[0] as nat, 4) + words32(v.skip(1)));
    }
}

/// Words as numbers.
pub open spec fn wide(v: Seq<u32>) -> Seq<u64> {
    v.map_values(|x: u32| x as u64)
}

pub proof fn lemma_numbers32(v: Seq<u32>, acc: Seq<u64>, s: Seq<u8>)
    ensures
        numbers_taken(words32(v) + s, 4, v.len(), acc) == Ok::<(Seq<u64>, Seq<u8>), Seq<char>>(
            (acc + wide(v), s),
        ),
    decreases v.len(),
{
    if v.len() > 0 {
        lemma_words32_front(v);
        let rest = words32(v.skip(1)) + s;
        assert(words32(v) + s =~= le_bytes(v[0] as nat, 4) + rest);
        lemma_pow256();
        lemma_uint(v[0] as nat, 4, rest);
        lemma_numbers32(v.skip(1), acc.push(v[0] as u64), s);
        assert(acc.push(v[0] as u64) + wide(v.skip(1)) =~= acc + wide(v));
    } else {
        assert(words32(v) + s =~= s);
        assert(acc + wide(v) =~= acc);
    }
}

/// Whether a dataspace can be told from its message: one that is null or scalar has no
/// dimensions, any other has some, with a limit for each.
pub open spec fn space_plain(s: SpaceView) -> bool {
    &&& s.is_null || s.is_scalar ==> s.dims.len() == 0
    &&& !(s.is_null && s.is_scalar)
    &&& !s.is_null && !s.is_scalar ==> 0 < s.dims.len() < 256
    &&& s.maxdims.len() == s.dims.len()
    &&& forall|i: int| 0 <= i < s.maxdims.len() ==> #[trigger] s.maxdims[i] != Some(UNDEF)
}

/// Reading the message of a dataspace gives the dataspace, and leaves what follows it.
pub proof fn law_dataspace_read(x: SpaceView, s: Seq<u8>)
    requires
        space_plain(x),
    ensures
        dataspace_parsed(dataspace_message(x.dims, x.maxdims, x.is_scalar, x.is_null) + s) == Ok::<
            (SpaceView, Seq<u8>),
            Seq<char>,
        >((x, s)),
{
    let m = dataspace_message(x.dims, x.maxdims, x.is_scalar, x.is_null);
    let all = m + s;
    let none = Seq::<u64>::empty();
    reveal_with_fuel(le, 2);
    if x.is_null {
        assert(all.take(1) =~= seq![2u8]);
        let r = all.skip(1);
        assert(r.take(3) =~= seq![0u8, 0u8, 2u8]);
        assert(r.skip(3) =~= s);
        assert(numbers_taken(s, 8, 0, none) == Ok::<(Seq<u64>, Seq<u8>), Seq<char>>((none, s)));
        assert(crate::format::messages::own_limits(none) =~= Seq::empty());
        assert(x =~= SpaceView {
            dims: none,
            maxdims: Seq::empty(),
            is_scalar: false,
            is_null: true,
        });
    } else if x.is_scalar {
        assert(all.take(1) =~= seq![1u8]);
        let r = all.skip(1);
        assert(r.take(2) =~= seq![0u8, 0u8]);
        assert(dropped(r.skip(2), 5) =~= s);
        assert(numbers_taken(s, 8, 0, none) == Ok::<(Seq<u64>, Seq<u8>), Seq<char>>((none, s)));
        assert(crate::format::messages::own_limits(none) =~= Seq::empty());
        assert(x =~= SpaceView {
            dims: none,
            maxdims: Seq::empty(),
            is_scalar: true,
            is_null: false,
        });
    } else {
        let n = x.dims.len();
        let max = stored_limits(x.dims, x.maxdims);
        assert(max.len() == n);
        assert(all.take(1) =~= seq![1u8]);
        let r = all.skip(1);
        assert(r.take(2) =~= seq![n as u8, 1u8]);
        let tail = words64(max) + s;
        let body = words64(x.dims) + tail;
        assert(dropped(r.skip(2), 5) =~= body);
        lemma_numbers64(x.dims, none, tail);
        lemma_numbers64(max, none, s);
        assert(none + x.dims =~= x.dims);
        assert(none + max =~= max);
        assert(limits(max) =~= x.maxdims) by {
            assert forall|i: int| 0 <= i < n implies limits(max)[i] == x.maxdims[i] by {
                assert(x.maxdims[i] != Some(UNDEF));
            }
        }
    }
}

/// Reading the message of a fill value gives the fill value; what follows the message
/// does not matter.
pub proof fn law_fill_read(fill: FillView, s: Seq<u8>)
    requires
        fill matches FillView::UserDefined(v) ==> 0 < v.len() < 0x1_0000_0000,
    ensures
        new_fill(fill_message(fill) + s, FillView::Undefined) == Ok::<FillView, Seq<char>>(fill),
{
    let m = fill_message(fill) + s;
    lemma_pow256();
    match fill {
        FillView::Undefined => {},
        FillView::Default => {
            lemma_le_bytes_len(0, 4);
            assert(m.skip(4) =~= le_bytes(0, 4) + s);
            lemma_uint(0, 4, s);
        },
        FillView::UserDefined(v) => {
            lemma_le_bytes_len(v.len(), 4);
            assert(m.skip(4) =~= le_bytes(v.len(), 4) + (v + s));
            lemma_uint(v.len(), 4, v + s);
            assert((v + s).take(v.len() as int) =~= v);
        },
    }
}

/// Whether a filter can be told from its message.
pub open spec fn filter_plain(f: FilterView) -> bool {
    &&& plain_name(f.name)
    &&& encode_utf8(f.name).len() < 0xfff0
    &&& f.cdata.len() < 0x1_0000
}

/// What follows the head of a filter.
spec fn filter_rest(f: FilterView, s: Seq<u8>) -> Seq<u8> {
    padded_name(encode_utf8(f.name)) + (words32(f.cdata) + (filter_pad(f) + s))
}

spec fn filter_pad(f: FilterView) -> Seq<u8> {
    if f.cdata.len() % 2 == 1 {
        le_bytes(0, 4)
    } else {
        Seq::empty()
    }
}

proof fn lemma_filter_head(f: FilterView, s: Seq<u8>)
    requires
        filter_plain(f),
    ensures
        filter_head(filter_message(f) + s, 1) == Ok::<(nat, nat, nat, Seq<u8>), Seq<char>>(
            (
                f.id as nat,
                padded_name(encode_utf8(f.name)).len(),
                f.cdata.len(),
                filter_rest(f, s),
            ),
        ),
{
    let name = padded_name(encode_utf8(f.name));
    let n = f.cdata.len();
    lemma_pow256();
    lemma_le_bytes_len(f.id as nat, 2);
    lemma_le_bytes_len(name.len(), 2);
    lemma_le_bytes_len(1, 2);
    lemma_le_bytes_len(n, 2);
    let r3 = filter_rest(f, s);
    let r2 = le_bytes(1, 2) + le_bytes(n, 2) + r3;
    let r1 = le_bytes(name.len(), 2) + r2;
    assert(filter_message(f) + s =~= le_bytes(f.id as nat, 2) + r1);
    lemma_uint(f.id as nat, 2, r1);
    lemma_uint(name.len(), 2, r2);
    let b = r2.take(4);
    assert(b =~= le_bytes(1, 2) + le_bytes(n, 2));
    assert(b.subrange(2, 4) =~= le_bytes(n, 2));
    law_le_round_trip(n, 2);
    assert(r2.skip(4) =~= r3);
}

proof fn lemma_filter_name(f: FilterView)
    requires
        filter_plain(f),
    ensures
        padded_name(encode_utf8(f.name)).len() > 0 ==> c_text(padded_name(encode_utf8(f.name)))
            == f.name,
        padded_name(encode_utf8(f.name)).len() == 0 ==> f.name == Seq::<char>::empty(),
{
    let text = encode_utf8(f.name);
    let name = padded_name(text);
    law_text_of_utf8(f.name);
    if text.len() > 0 {
        assert(aligned8(text.len() as int + 1) > text.len());
        assert forall|i: int| 0 <= i < text.len() implies #[trigger] name[i] != 0 by {
            assert(name[i] == text[i]);
        }
        lemma_nul(name, text.len() as int, 0);
        assert(name.take(text.len() as int) =~= text);
    } else {
        let none = Seq::<char>::empty();
        law_text_of_utf8(none);
        assert(encode_utf8(none) =~= text);
    }
}

proof fn lemma_filter_read(f: FilterView, s: Seq<u8>)
    requires
        filter_plain(f),
    ensures
        filter_taken(filter_message(f) + s, 1) == Ok::<(FilterView, Seq<u8>), Seq<char>>((f, s)),
{
    let name = padded_name(encode_utf8(f.name));
    let pad = filter_pad(f);
    let r3 = filter_rest(f, s);
    lemma_filter_head(f, s);
    lemma_filter_name(f);
    lemma_le_bytes_len(0, 4);
    assert(r3.take(name.len() as int) =~= name);
    assert(r3.skip(name.len() as int) =~= words32(f.cdata) + (pad + s));
    let none = Seq::<u64>::empty();
    lemma_numbers32(f.cdata, none, pad + s);
    assert(none + wide(f.cdata) =~= wide(f.cdata));
    assert(words_of(wide(f.cdata)) =~= f.cdata);
    if f.cdata.len() % 2 == 1 {
        assert(dropped(pad + s, 4) =~= s);
    } else {
        assert(pad + s =~= s);
    }
}

/// Whether the filters of a pipeline can be told from their messages.
pub open spec fn filters_plain(fs: Seq<FilterView>) -> bool {
    fs.len() < 256 && forall|i: int| 0 <= i < fs.len() ==> filter_plain(#[trigger] fs[i])
}

proof fn lemma_filters_front(fs: Seq<FilterView>)
    requires
        fs.len() > 0,
    ensures
        filter_messages(fs) == filter_message(fs[0]) + filter_messages(fs.skip(1)),
    decreases fs.len(),
{
    if fs.len() > 1 {
        lemma_filters_front(fs.drop_last());
        assert(fs.drop_last().skip(1) =~= fs.skip(1).drop_last());
        assert(fs.skip(1).last() == fs.last());
        assert(filter_messages(fs) =~= filter_message(fs[0]) + filter_messages(fs.skip(1)));
    } else {
        assert(fs.drop_last() =~= Seq::empty());
        assert(fs.skip(1) =~= Seq::empty());
        assert(filter_messages(fs) =~= filter_message(fs[0]) + filter_messages(fs.skip(1)));
    }
}

proof fn lemma_filters_read(fs: Seq<FilterView>, acc: Seq<FilterView>, s: Seq<u8>)
    requires
        forall|i: int| 0 <= i < fs.len() ==> filter_plain(#[trigger] fs[i]),
    ensures
        filters_taken(filter_messages(fs) + s, 1, fs.len(), acc) == Ok::<
            (Seq<FilterView>, Seq<u8>),
            Seq<char>,
        >((acc + fs, s)),
    decreases fs.len(),
{
    if fs.len() > 0 {
        lemma_filters_front(fs);
        let rest = filter_messages(fs.skip(1)) + s;
        assert(filter_messages(fs) + s =~= filter_message(fs[0]) + rest);
        lemma_filter_read(fs[0], rest);
        assert forall|i: int| 0 <= i < fs.skip(1).len() implies filter_plain(
            #[trigger] fs.skip(1)[i],
        ) by {
            assert(fs.skip(1)[i] == fs[i + 1]);
        }
        lemma_filters_read(fs.skip(1), acc.push(fs[0]), s);
        assert(acc.push(fs[0]) + fs.skip(1) =~= acc + fs);
    } else {
        assert(filter_messages(fs) + s =~= s);
        assert(acc + fs =~= acc);
    }
}

/// Reading the message of a pipeline gives the filters, and leaves what follows it.
pub proof fn law_pipeline_read(fs: Seq<FilterView>, s: Seq<u8>)
    requires
        filters_plain(fs),
    ensures
        pipeline_parsed(pipeline_message(fs) + s) == Ok::<
            (Seq<FilterView>, Seq<u8>),
            Seq<char>,
        >((fs, s)),
{
    let all = pipeline_message(fs) + s;
    assert(all.take(2) =~= seq![1u8, fs.len() as u8]);
    assert(dropped(all.skip(2), 6) =~= filter_messages(fs) + s);
    lemma_filters_read(fs, Seq::empty(), s);
    assert(Seq::<FilterView>::empty() + fs =~= fs);
}

/// Reading the layout message of one block gives its place and its size; what follows
/// the message does not matter.
pub proof fn law_block_layout_read(addr: u64, size: u64, s: Seq<u8>)
    ensures
        layout_parsed(block_message(addr, size as nat) + s) == Ok::<LayoutView, Seq<char>>(
            LayoutView::Contiguous { addr, size },
        ),
{
    let all = block_message(addr, size as nat) + s;
    lemma_le_bytes_len(addr as nat, 8);
    lemma_le_bytes_len(size as nat, 8);
    reveal_with_fuel(le, 2);
    reveal_with_fuel(words64, 3);
    assert(all.take(1) =~= seq![3u8]);
    let r = all.skip(1);
    assert(r.take(1) =~= seq![1u8]);
    let v = seq![addr, size];
    assert(v.drop_last() =~= seq![addr]);
    assert(v.drop_last().drop_last() =~= Seq::empty());
    assert(words64(v) =~= le_bytes(addr as nat, 8) + le_bytes(size as nat, 8));
    assert(r.skip(1) =~= words64(v) + s);
    lemma_numbers64(v, Seq::empty(), s);
    assert(Seq::<u64>::empty() + v =~= v);
}

/// Reading the layout message of chunks gives the place of their tree, their dimensions
/// and the size of an element; what follows the message does not matter.
pub proof fn law_chunk_layout_read(rank: nat, tree: u64, cdims: Seq<u64>, size: nat, s: Seq<u8>)
    requires
        rank < 255,
        cdims.len() == rank,
        size < 0x1_0000_0000,
        forall|i: int| 0 <= i < cdims.len() ==> #[trigger] cdims[i] < 0x1_0000_0000,
    ensures
        layout_parsed(chunked_message(rank, tree, cdims, size) + s) == Ok::<
            LayoutView,
            Seq<char>,
        >(
            LayoutView::Chunked {
                index: ChunkIndex::BtreeV1 { addr: tree },
                chunk_dims: cdims.push(size as u64),
            },
        ),
{
    let all = chunked_message(rank, tree, cdims, size) + s;
    lemma_pow256();
    lemma_le_bytes_len(rank + 1, 1);
    lemma_le_bytes_len(tree as nat, 8);
    lemma_le_bytes_len(size, 4);
    reveal_with_fuel(le, 2);
    assert(all.take(1) =~= seq![3u8]);
    let r = all.skip(1);
    assert(r.take(1) =~= seq![2u8]);
    let ws = cdims.map_values(|c: u64| word(c as nat)).push(size as u32);
    assert(ws.drop_last() =~= cdims.map_values(|c: u64| word(c as nat)));
    let rest = words32(ws) + s;
    let r2 = le_bytes(tree as nat, 8) + rest;
    assert(r.skip(1) =~= le_bytes(rank + 1, 1) + r2);
    lemma_uint(rank + 1, 1, r2);
    lemma_uint(tree as nat, 8, rest);
    lemma_numbers32(ws, Seq::empty(), s);
    assert(Seq::<u64>::empty() + wide(ws) =~= wide(ws));
    assert(wide(ws) =~= cdims.push(size as u64)) by {
        assert forall|i: int| 0 <= i < cdims.len() implies wide(ws)[i] == cdims[i] by {
            assert(cdims[i] < 0x1_0000_0000);
        }
    }
}

/// Reading the layout message of mappings gives the place of the heap object that holds
/// them; what follows the message does not matter.
pub proof fn law_mapped_layout_read(heap: u64, s: Seq<u8>)
    ensures
        layout_parsed(mapped_message(heap) + s) == Ok::<LayoutView, Seq<char>>(
            LayoutView::Virtual { gh_addr: heap, gh_idx: 1 },
        ),
{
    let all = mapped_message(heap) + s;
    lemma_pow256();
    lemma_le_bytes_len(heap as nat, 8);
    lemma_le_bytes_len(1, 4);
    reveal_with_fuel(le, 2);
    assert(all.take(1) =~= seq![4u8]);
    let r = all.skip(1);
    assert(r.take(1) =~= seq![3u8]);
    let b = r.skip(1).take(12);
    assert(b.subrange(0, 8) =~= le_bytes(heap as nat, 8));
    assert(b.subrange(8, 12) =~= le_bytes(1, 4));
    law_le_round_trip(heap as nat, 8);
    law_le_round_trip(1, 4);
}

} // verus!
