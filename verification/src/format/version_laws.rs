//! What the messages of all versions say, field by field.

use vstd::prelude::*;

use crate::format::attribute::{attr_finished, attr_head, attr_pad, attr_parsed};
use crate::format::datatype::{decoded, Decoded};
use crate::format::filters::FilterView;
use crate::format::header::size_width;
use crate::format::messages::{
    c_text, dataspace_parsed, filter_taken, index_taken, layout_parsed, limits, own_limits,
    words_of, ChunkIndex, LayoutView, SpaceView,
};
use crate::format::object::{
    link_parsed, maybe_taken, new_fill, old_fill, target_taken, RawLinkView, RawTargetView,
};
use crate::format::superblock::{file_signature, signature_at, superblock_parsed};
use crate::format::vds::numbers_taken;
use crate::format::{
    aligned8, dropped, law_le_round_trip, le, le_at, le_bytes, lemma_le_bytes_len, lemma_pow256,
    pow256, taken_bytes, taken_uint,
};
use crate::model::{AttrView, FillView};
use crate::text::text_of;

verus! {

// Numbers.

/// Numbers of `w` bytes, one behind the other.
pub open spec fn numbers(v: Seq<u64>, w: nat) -> Seq<u8>
    decreases v.len(),
{
    if v.len() == 0 {
        Seq::empty()
    } else {
        le_bytes(v[0] as nat, w) + numbers(v.skip(1), w)
    }
}

/// Whether all numbers fit in `w` bytes.
pub open spec fn all_fit(v: Seq<u64>, w: nat) -> bool {
    forall|i: int| 0 <= i < v.len() ==> (#[trigger] v[i]) < pow256(w)
}

proof fn lemma_uint(v: nat, n: nat, s: Seq<u8>)
    requires
        v < pow256(n),
    ensures
        taken_uint(le_bytes(v, n) + s, n) == Ok::<(nat, Seq<u8>), Seq<char>>((v, s)),
        le_bytes(v, n).len() == n,
{
    lemma_le_bytes_len(v, n);
    law_le_round_trip(v, n);
    assert((le_bytes(v, n) + s).take(n as int) =~= le_bytes(v, n));
    assert((le_bytes(v, n) + s).skip(n as int) =~= s);
}

pub(crate) proof fn lemma_byte(b: u8, s: Seq<u8>)
    ensures
        taken_uint(seq![b] + s, 1) == Ok::<(nat, Seq<u8>), Seq<char>>((b as nat, s)),
{
    reveal_with_fuel(le, 2);
    assert((seq![b] + s).take(1) =~= seq![b]);
    assert((seq![b] + s).skip(1) =~= s);
}

proof fn lemma_block(b: Seq<u8>, s: Seq<u8>)
    ensures
        taken_bytes(b + s, b.len()) == Ok::<(Seq<u8>, Seq<u8>), Seq<char>>((b, s)),
{
    assert((b + s).take(b.len() as int) =~= b);
    assert((b + s).skip(b.len() as int) =~= s);
}

pub(crate) proof fn lemma_numbers(v: Seq<u64>, w: nat, s: Seq<u8>, acc: Seq<u64>)
    requires
        1 <= w <= 8,
        all_fit(v, w),
    ensures
        numbers_taken(numbers(v, w) + s, w, v.len(), acc) == Ok::<(Seq<u64>, Seq<u8>), Seq<char>>(
            (acc + v, s),
        ),
    decreases v.len(),
{
    if v.len() == 0 {
        assert(numbers(v, w) + s =~= s);
        assert(acc + v =~= acc);
    } else {
        let rest = v.skip(1);
        assert(v[0] < pow256(w));
        lemma_uint(v[0] as nat, w, numbers(rest, w) + s);
        assert(le_bytes(v[0] as nat, w) + (numbers(rest, w) + s) =~= numbers(v, w) + s);
        assert(all_fit(rest, w)) by {
            assert forall|i: int| 0 <= i < rest.len() implies (#[trigger] rest[i]) < pow256(w) by {
                assert(v[i + 1] < pow256(w));
            }
        }
        lemma_numbers(rest, w, s, acc.push(v[0]));
        assert(acc.push(v[0]) + rest =~= acc + v);
    }
}

// Layouts.

/// The start of a layout of version 1 or 2: the version, the rank, the class and five
/// bytes that say nothing.
pub open spec fn early_head(version: u8, rank: nat, class: u8, reserved: Seq<u8>) -> Seq<u8> {
    seq![version] + (seq![rank as u8, class] + reserved)
}

proof fn lemma_early(version: u8, rank: nat, class: u8, reserved: Seq<u8>, body: Seq<u8>)
    requires
        rank < 256,
        reserved.len() == 5,
    ensures
        ({
            let s = early_head(version, rank, class, reserved) + body;
            &&& taken_uint(s, 1) == Ok::<(nat, Seq<u8>), Seq<char>>(
                (version as nat, seq![rank as u8, class] + (reserved + body)),
            )
            &&& taken_bytes(seq![rank as u8, class] + (reserved + body), 2) == Ok::<
                (Seq<u8>, Seq<u8>),
                Seq<char>,
            >((seq![rank as u8, class], reserved + body))
            &&& dropped(reserved + body, 5) == body
        }),
{
    let s = early_head(version, rank, class, reserved) + body;
    let r = seq![rank as u8, class] + (reserved + body);
    lemma_byte(version, r);
    assert(seq![version] + r =~= s);
    lemma_block(seq![rank as u8, class], reserved + body);
    assert(dropped(reserved + body, 5) =~= body);
}

/// An early compact layout holds its data behind the dimensions and their length.
pub proof fn law_early_compact(
    version: u8,
    dims: Seq<u64>,
    reserved: Seq<u8>,
    b: Seq<u8>,
    s: Seq<u8>,
)
    requires
        version == 1 || version == 2,
        dims.len() < 256,
        reserved.len() == 5,
        all_fit(dims, 4),
        b.len() < 0x1_0000_0000,
    ensures
        layout_parsed(
            early_head(version, dims.len(), 0, reserved) + (numbers(dims, 4) + (le_bytes(b.len(), 4)
                + (b + s))),
        ) == Ok::<LayoutView, Seq<char>>(LayoutView::Compact(b)),
{
    lemma_pow256();
    let rest = le_bytes(b.len(), 4) + (b + s);
    lemma_early(version, dims.len(), 0, reserved, numbers(dims, 4) + rest);
    lemma_numbers(dims, 4, rest, Seq::empty());
    lemma_uint(b.len(), 4, b + s);
    lemma_block(b, s);
}

/// An early contiguous layout gives the address of the data before the dimensions. How
/// many bytes are stored it does not say.
pub proof fn law_early_contiguous(
    version: u8,
    dims: Seq<u64>,
    reserved: Seq<u8>,
    addr: u64,
    s: Seq<u8>,
)
    requires
        version == 1 || version == 2,
        dims.len() < 256,
        reserved.len() == 5,
        all_fit(dims, 4),
    ensures
        layout_parsed(
            early_head(version, dims.len(), 1, reserved) + (le_bytes(addr as nat, 8) + (numbers(
                dims,
                4,
            ) + s)),
        ) == Ok::<LayoutView, Seq<char>>(LayoutView::Contiguous { addr, size: u64::MAX }),
{
    lemma_pow256();
    let rest = numbers(dims, 4) + s;
    lemma_early(version, dims.len(), 1, reserved, le_bytes(addr as nat, 8) + rest);
    lemma_uint(addr as nat, 8, rest);
    lemma_numbers(dims, 4, s, Seq::empty());
}

/// An early chunked layout gives the address of the B-tree of the chunks and their shape.
pub proof fn law_early_chunked(
    version: u8,
    dims: Seq<u64>,
    reserved: Seq<u8>,
    addr: u64,
    s: Seq<u8>,
)
    requires
        version == 1 || version == 2,
        dims.len() < 256,
        reserved.len() == 5,
        all_fit(dims, 4),
    ensures
        layout_parsed(
            early_head(version, dims.len(), 2, reserved) + (le_bytes(addr as nat, 8) + (numbers(
                dims,
                4,
            ) + s)),
        ) == Ok::<LayoutView, Seq<char>>(
            LayoutView::Chunked { index: ChunkIndex::BtreeV1 { addr }, chunk_dims: dims },
        ),
{
    lemma_pow256();
    let rest = numbers(dims, 4) + s;
    lemma_early(version, dims.len(), 2, reserved, le_bytes(addr as nat, 8) + rest);
    lemma_uint(addr as nat, 8, rest);
    lemma_numbers(dims, 4, s, Seq::empty());
    assert(Seq::<u64>::empty() + dims =~= dims);
}

/// Later compact layouts hold their data behind their length.
pub proof fn law_compact_layout(version: u8, b: Seq<u8>, s: Seq<u8>)
    requires
        3 <= version <= 5,
        b.len() < 0x1_0000,
    ensures
        layout_parsed(seq![version] + (seq![0u8] + (le_bytes(b.len(), 2) + (b + s)))) == Ok::<
            LayoutView,
            Seq<char>,
        >(LayoutView::Compact(b)),
{
    lemma_pow256();
    let r = le_bytes(b.len(), 2) + (b + s);
    lemma_byte(version, seq![0u8] + r);
    lemma_byte(0, r);
    lemma_uint(b.len(), 2, b + s);
    lemma_block(b, s);
}

/// Later contiguous layouts give the address and the size of the data.
pub proof fn law_contiguous_layout(version: u8, addr: u64, size: u64, s: Seq<u8>)
    requires
        3 <= version <= 5,
    ensures
        layout_parsed(
            seq![version] + (seq![1u8] + (numbers(seq![addr, size], 8) + s)),
        ) == Ok::<LayoutView, Seq<char>>(LayoutView::Contiguous { addr, size }),
{
    lemma_pow256();
    let v = seq![addr, size];
    let r = numbers(v, 8) + s;
    lemma_byte(version, seq![1u8] + r);
    lemma_byte(1, r);
    lemma_numbers(v, 8, s, Seq::empty());
    assert(Seq::<u64>::empty() + v =~= v);
}

/// The last chunked layouts give the shape of a chunk in numbers of a given width, and then
/// the index.
pub proof fn law_late_chunked(
    version: u8,
    flags: u8,
    width: u8,
    dims: Seq<u64>,
    index: ChunkIndex,
    b: Seq<u8>,
    s: Seq<u8>,
)
    requires
        version == 4 || version == 5,
        1 <= width <= 8,
        dims.len() < 256,
        all_fit(dims, width as nat),
        index_taken(b, flags) == Ok::<(ChunkIndex, Seq<u8>), Seq<char>>((index, s)),
    ensures
        layout_parsed(
            seq![version] + (seq![2u8] + (seq![flags, dims.len() as u8, width] + (numbers(
                dims,
                width as nat,
            ) + b))),
        ) == Ok::<LayoutView, Seq<char>>(LayoutView::Chunked { index, chunk_dims: dims }),
{
    let head = seq![flags, dims.len() as u8, width];
    let r = numbers(dims, width as nat) + b;
    lemma_byte(version, seq![2u8] + (head + r));
    lemma_byte(2, head + r);
    lemma_block(head, r);
    lemma_numbers(dims, width as nat, b, Seq::empty());
    assert(Seq::<u64>::empty() + dims =~= dims);
}

/// The index of a single chunk gives its address; of a filtered one, its stored size and
/// its mask before that.
pub proof fn law_single_index(flags: u8, addr: u64, size: u32, mask: u32, s: Seq<u8>)
    ensures
        flags / 2 % 2 == 0 ==> index_taken(seq![1u8] + (le_bytes(addr as nat, 8) + s), flags)
            == Ok::<(ChunkIndex, Seq<u8>), Seq<char>>(
            (ChunkIndex::Single { addr, filtered_size: None, filter_mask: 0 }, s),
        ),
        flags / 2 % 2 == 1 ==> index_taken(
            seq![1u8] + (le_bytes(size as nat, 8) + le_bytes(mask as nat, 4) + le_bytes(
                addr as nat,
                8,
            ) + s),
            flags,
        ) == Ok::<(ChunkIndex, Seq<u8>), Seq<char>>(
            (ChunkIndex::Single { addr, filtered_size: Some(size), filter_mask: mask }, s),
        ),
{
    lemma_pow256();
    lemma_byte(1, le_bytes(addr as nat, 8) + s);
    lemma_uint(addr as nat, 8, s);
    law_le_round_trip(size as nat, 8);
    law_le_round_trip(mask as nat, 4);
    law_le_round_trip(addr as nat, 8);
    let b = le_bytes(size as nat, 8) + le_bytes(mask as nat, 4) + le_bytes(addr as nat, 8);
    lemma_byte(1, b + s);
    lemma_block(b, s);
    assert(b.subrange(0, 8) =~= le_bytes(size as nat, 8));
    assert(b.subrange(8, 12) =~= le_bytes(mask as nat, 4));
    assert(b.subrange(12, 20) =~= le_bytes(addr as nat, 8));
}

/// The other indexes give their address behind what tells how they were made: nothing for
/// implicit chunks, one byte for a fixed array, five for an extensible array, six for a
/// B-tree.
pub proof fn law_other_index(flags: u8, skipped: Seq<u8>, addr: u64, s: Seq<u8>)
    ensures
        skipped.len() == 0 ==> index_taken(
            seq![2u8] + (skipped + (le_bytes(addr as nat, 8) + s)),
            flags,
        ) == Ok::<(ChunkIndex, Seq<u8>), Seq<char>>((ChunkIndex::Implicit { addr }, s)),
        skipped.len() == 1 ==> index_taken(
            seq![3u8] + (skipped + (le_bytes(addr as nat, 8) + s)),
            flags,
        ) == Ok::<(ChunkIndex, Seq<u8>), Seq<char>>(
            (ChunkIndex::FixedArray { header_addr: addr }, s),
        ),
        skipped.len() == 5 ==> index_taken(
            seq![4u8] + (skipped + (le_bytes(addr as nat, 8) + s)),
            flags,
        ) == Ok::<(ChunkIndex, Seq<u8>), Seq<char>>((ChunkIndex::ExtArray { header_addr: addr }, s)),
        skipped.len() == 6 ==> index_taken(
            seq![5u8] + (skipped + (le_bytes(addr as nat, 8) + s)),
            flags,
        ) == Ok::<(ChunkIndex, Seq<u8>), Seq<char>>((ChunkIndex::BtreeV2 { header_addr: addr }, s)),
{
    lemma_pow256();
    let r = skipped + (le_bytes(addr as nat, 8) + s);
    lemma_byte(2, r);
    lemma_byte(3, r);
    lemma_byte(4, r);
    lemma_byte(5, r);
    lemma_uint(addr as nat, 8, s);
    assert(dropped(r, skipped.len() as int) =~= le_bytes(addr as nat, 8) + s);
}

// Dataspaces.

/// A dataspace of version 2 gives its rank, whether it is limited and its class, then its
/// dimensions and, where it is limited, its maximal dimensions.
pub proof fn law_late_dataspace(flags: u8, class: u8, dims: Seq<u64>, max: Seq<u64>, s: Seq<u8>)
    requires
        dims.len() < 256,
        max.len() == dims.len(),
    ensures
        flags % 2 == 0 ==> dataspace_parsed(
            seq![2u8] + (seq![dims.len() as u8, flags, class] + (numbers(dims, 8) + s)),
        ) == Ok::<(SpaceView, Seq<u8>), Seq<char>>(
            (
                SpaceView {
                    dims,
                    maxdims: own_limits(dims),
                    is_scalar: class == 0,
                    is_null: class == 2,
                },
                s,
            ),
        ),
        flags % 2 == 1 ==> dataspace_parsed(
            seq![2u8] + (seq![dims.len() as u8, flags, class] + (numbers(dims, 8) + (numbers(max, 8)
                + s))),
        ) == Ok::<(SpaceView, Seq<u8>), Seq<char>>(
            (
                SpaceView {
                    dims,
                    maxdims: limits(max),
                    is_scalar: class == 0,
                    is_null: class == 2,
                },
                s,
            ),
        ),
{
    lemma_pow256();
    let head = seq![dims.len() as u8, flags, class];
    let more = numbers(max, 8) + s;
    lemma_byte(2, head + (numbers(dims, 8) + s));
    lemma_byte(2, head + (numbers(dims, 8) + more));
    lemma_block(head, numbers(dims, 8) + s);
    lemma_block(head, numbers(dims, 8) + more);
    lemma_numbers(dims, 8, s, Seq::empty());
    lemma_numbers(dims, 8, more, Seq::empty());
    lemma_numbers(max, 8, s, Seq::empty());
    assert(Seq::<u64>::empty() + dims =~= dims);
    assert(Seq::<u64>::empty() + max =~= max);
}

// Fill values.

/// An old fill-value message gives a value behind its size, and keeps the one that was
/// there where the size is zero.
pub proof fn law_old_fill(v: Seq<u8>, s: Seq<u8>, fill: FillView)
    requires
        v.len() < 0x1_0000_0000,
    ensures
        old_fill(le_bytes(v.len(), 4) + (v + s), fill) == Ok::<FillView, Seq<char>>(
            if v.len() > 0 {
                FillView::UserDefined(v)
            } else {
                fill
            },
        ),
{
    lemma_pow256();
    lemma_uint(v.len(), 4, v + s);
    lemma_block(v, s);
}

/// A fill-value message of version 3 gives a value behind its size where a bit of its flags
/// says so; a value of no bytes is the default one. Without that bit it changes nothing.
pub proof fn law_late_fill(flags: u8, v: Seq<u8>, s: Seq<u8>, fill: FillView)
    requires
        v.len() < 0x1_0000_0000,
    ensures
        flags / 32 % 2 == 1 ==> new_fill(
            seq![3u8, flags] + (le_bytes(v.len(), 4) + (v + s)),
            fill,
        ) == Ok::<FillView, Seq<char>>(
            if v.len() > 0 {
                FillView::UserDefined(v)
            } else {
                FillView::Default
            },
        ),
        flags / 32 % 2 == 0 ==> new_fill(seq![3u8, flags] + s, fill) == Ok::<FillView, Seq<char>>(
            fill,
        ),
{
    lemma_pow256();
    lemma_uint(v.len(), 4, v + s);
    lemma_block(v, s);
    let body = seq![3u8, flags] + (le_bytes(v.len(), 4) + (v + s));
    assert(body.skip(2) =~= le_bytes(v.len(), 4) + (v + s));
    assert(body[0] == 3 && body[1] == flags);
    let plain = seq![3u8, flags] + s;
    assert(plain[0] == 3 && plain[1] == flags);
}

/// A fill-value message of version 1 or 2 gives a value behind four bytes and its size. The
/// last of the four says whether there is one in version 2.
pub proof fn law_middle_fill(head: Seq<u8>, v: Seq<u8>, s: Seq<u8>, fill: FillView)
    requires
        v.len() < 0x1_0000_0000,
        head.len() == 4,
        head[0] == 1 || head[0] == 2,
    ensures
        head[0] == 1 || head[3] != 0 ==> new_fill(head + (le_bytes(v.len(), 4) + (v + s)), fill)
            == Ok::<FillView, Seq<char>>(
            if v.len() > 0 {
                FillView::UserDefined(v)
            } else if head[3] != 0 {
                FillView::Default
            } else {
                fill
            },
        ),
        head[0] == 2 && head[3] == 0 ==> new_fill(head + s, fill) == Ok::<FillView, Seq<char>>(fill),
{
    lemma_pow256();
    lemma_uint(v.len(), 4, v + s);
    lemma_block(v, s);
    let body = head + (le_bytes(v.len(), 4) + (v + s));
    assert(body.skip(4) =~= le_bytes(v.len(), 4) + (v + s));
    assert(body[0] == head[0] && body[3] == head[3]);
    let plain = head + s;
    assert(plain[0] == head[0] && plain[3] == head[3]);
}

// Filters.

/// A filter of a pipeline of version 2: the number of the filter, the length of its name
/// where the number is not one of the format's own, its flags, the number of its client
/// data, its name and its client data.
pub proof fn law_late_filter(id: u16, flags: u16, name: Seq<u8>, words: Seq<u64>, s: Seq<u8>)
    requires
        all_fit(words, 4),
        words.len() < 0x1_0000,
        name.len() < 0x1_0000,
        id < 256 ==> name.len() == 0,
    ensures
        filter_taken(
            le_bytes(id as nat, 2) + ((if id >= 256 {
                le_bytes(name.len(), 2)
            } else {
                Seq::empty()
            }) + (le_bytes(flags as nat, 2) + le_bytes(words.len(), 2) + (name + (numbers(words, 4)
                + s)))),
            2,
        ) == Ok::<(FilterView, Seq<u8>), Seq<char>>(
            (
                FilterView {
                    id,
                    cdata: words_of(words),
                    name: if name.len() > 0 {
                        c_text(name)
                    } else {
                        Seq::empty()
                    },
                },
                s,
            ),
        ),
{
    lemma_pow256();
    let tail = name + (numbers(words, 4) + s);
    let b = le_bytes(flags as nat, 2) + le_bytes(words.len(), 2);
    let named = if id >= 256 {
        le_bytes(name.len(), 2)
    } else {
        Seq::empty()
    };
    lemma_uint(id as nat, 2, named + (b + tail));
    lemma_uint(name.len(), 2, b + tail);
    law_le_round_trip(flags as nat, 2);
    law_le_round_trip(words.len(), 2);
    assert(b.subrange(2, 4) =~= le_bytes(words.len(), 2));
    lemma_block(b, tail);
    lemma_block(name, numbers(words, 4) + s);
    lemma_numbers(words, 4, s, Seq::empty());
    assert(Seq::<u64>::empty() + words =~= words);
    assert(id < 256 ==> named + (b + tail) =~= b + tail);
}

// Links.

/// Bytes that are there only where something says so.
pub open spec fn present(there: bool, b: Seq<u8>) -> Seq<u8> {
    if there {
        b
    } else {
        Seq::empty()
    }
}

proof fn lemma_present(there: bool, b: Seq<u8>, v: nat, n: nat, rest: Seq<u8>)
    requires
        there ==> taken_uint(b + rest, n) == Ok::<(nat, Seq<u8>), Seq<char>>((v, rest)),
        !there ==> v == 0,
    ensures
        maybe_taken(present(there, b) + rest, there, n) == Ok::<(nat, Seq<u8>), Seq<char>>(
            (v, rest),
        ),
{
    assert(Seq::<u8>::empty() + rest =~= rest);
}

/// The optional parts of a link message stand in a fixed order, each where a bit of the
/// flags says so: the type, the creation order, the character set; then the length of the
/// name, the name and the target.
#[verifier::rlimit(60)]
#[verifier::spinoff_prover]
pub proof fn law_link_parts(
    flags: u8,
    kind: u8,
    order: u64,
    charset: u8,
    name: Seq<u8>,
    target: Seq<u8>,
    to: RawTargetView,
)
    requires
        name.len() < pow256(size_width(flags)),
        flags / 8 % 2 == 0 ==> kind == 0,
        flags / 4 % 2 == 0 ==> order == 0,
        flags / 16 % 2 == 0 ==> charset == 0,
        target_taken(target, kind as nat) == Ok::<Option<RawTargetView>, Seq<char>>(Some(to)),
    ensures
        link_parsed(
            seq![1u8, flags] + (present(flags / 8 % 2 == 1, seq![kind]) + (present(
                flags / 4 % 2 == 1,
                le_bytes(order as nat, 8),
            ) + (present(flags / 16 % 2 == 1, seq![charset]) + (le_bytes(
                name.len(),
                size_width(flags),
            ) + (name + target))))),
        ) == Ok::<Option<RawLinkView>, Seq<char>>(
            Some(
                RawLinkView {
                    name: text_of(name),
                    target: to,
                    creation_order: order as i64,
                    utf8: charset == 1,
                },
            ),
        ),
{
    lemma_pow256();
    let r4 = name + target;
    let r3 = le_bytes(name.len(), size_width(flags)) + r4;
    let r2 = present(flags / 16 % 2 == 1, seq![charset]) + r3;
    let r1 = present(flags / 4 % 2 == 1, le_bytes(order as nat, 8)) + r2;
    let r0 = present(flags / 8 % 2 == 1, seq![kind]) + r1;
    let body = seq![1u8, flags] + r0;
    assert(body.skip(2) =~= r0);
    assert(body[0] == 1 && body[1] == flags);
    lemma_byte(kind, r1);
    lemma_present(flags / 8 % 2 == 1, seq![kind], kind as nat, 1, r1);
    lemma_uint(order as nat, 8, r2);
    lemma_present(flags / 4 % 2 == 1, le_bytes(order as nat, 8), order as nat, 8, r2);
    lemma_byte(charset, r3);
    lemma_present(flags / 16 % 2 == 1, seq![charset], charset as nat, 1, r3);
    lemma_uint(name.len(), size_width(flags), r4);
    lemma_block(name, target);
}

// Attributes.

/// Bytes that take their place in a message: in version 1 zeros fill it up.
pub open spec fn padded_to(version: u8, b: Seq<u8>, pad: Seq<u8>) -> bool {
    if version == 1 {
        b.len() + pad.len() == aligned8(b.len() as int)
    } else {
        pad.len() == 0
    }
}

/// The parts of an attribute message.
pub struct AttributeParts {
    pub version: u8,
    pub flags: u8,
    pub charset: u8,
    pub name: Seq<u8>,
    pub ty: Seq<u8>,
    pub space: Seq<u8>,
    pub data: Seq<u8>,
    /// What fills up the places of the name, the type and the dataspace.
    pub fills: (Seq<u8>, Seq<u8>, Seq<u8>),
}

impl AttributeParts {
    /// Whether the parts can stand in a message.
    pub open spec fn sound(self) -> bool {
        &&& 1 <= self.version <= 3
        &&& self.name.len() < 0x1_0000
        &&& self.ty.len() < 0x1_0000
        &&& self.space.len() < 0x1_0000
        &&& padded_to(self.version, self.name, self.fills.0)
        &&& padded_to(self.version, self.ty, self.fills.1)
        &&& padded_to(self.version, self.space, self.fills.2)
    }

    /// What stands before the name.
    pub open spec fn head(self) -> Seq<u8> {
        seq![self.version, self.flags] + le_bytes(self.name.len(), 2) + le_bytes(self.ty.len(), 2)
            + le_bytes(self.space.len(), 2) + present(self.version == 3, seq![self.charset])
    }

    /// The dataspace and what follows it.
    pub open spec fn space_on(self) -> Seq<u8> {
        self.space + self.fills.2 + self.data
    }

    /// The type and what follows it.
    pub open spec fn type_on(self) -> Seq<u8> {
        self.ty + self.fills.1 + self.space_on()
    }

    /// The message.
    pub open spec fn message(self) -> Seq<u8> {
        self.head() + (self.name + self.fills.0 + self.type_on())
    }
}

proof fn lemma_attribute_head(a: AttributeParts)
    requires
        a.sound(),
    ensures
        ({
            let m = a.message();
            let h = a.head();
            &&& h.len() == (if a.version == 3 {
                9int
            } else {
                8
            })
            &&& m.len() >= h.len()
            &&& m[0] == a.version
            &&& le_at(m, 2, 2) == a.name.len()
            &&& le_at(m, 4, 2) == a.ty.len()
            &&& le_at(m, 6, 2) == a.space.len()
        }),
{
    lemma_pow256();
    law_le_round_trip(a.name.len(), 2);
    law_le_round_trip(a.ty.len(), 2);
    law_le_round_trip(a.space.len(), 2);
    let m = a.message();
    assert(m.subrange(2, 4) =~= le_bytes(a.name.len(), 2));
    assert(m.subrange(4, 6) =~= le_bytes(a.ty.len(), 2));
    assert(m.subrange(6, 8) =~= le_bytes(a.space.len(), 2));
}

proof fn lemma_attribute_tail(a: AttributeParts)
    requires
        a.sound(),
    ensures
        ({
            let m = a.message();
            let h = a.head().len() as int;
            let p = h + a.name.len() + a.fills.0.len();
            let q = p + a.ty.len() + a.fills.1.len();
            let r = q + a.space.len() + a.fills.2.len();
            &&& m.subrange(h, h + a.name.len()) == a.name
            &&& m.skip(p) == a.type_on()
            &&& dropped(m, q) == a.space_on()
            &&& m.skip(r) == a.data
            &&& r <= m.len()
        }),
{
    let m = a.message();
    let h = a.head().len() as int;
    let p = h + a.name.len() + a.fills.0.len();
    let q = p + a.ty.len() + a.fills.1.len();
    let r = q + a.space.len() + a.fills.2.len();
    assert(m.subrange(h, h + a.name.len()) =~= a.name);
    assert(m.skip(p) =~= a.type_on());
    assert(dropped(m, q) =~= a.space_on());
    assert(m.skip(r) =~= a.data);
}

/// An attribute message of any version holds the name, the type, the dataspace and the
/// data, in this order.
#[verifier::rlimit(60)]
#[verifier::spinoff_prover]
pub proof fn law_attribute_parts(
    data: Seq<u8>,
    base: u64,
    a: AttributeParts,
    d: Decoded,
    x: SpaceView,
    after: Seq<u8>,
)
    requires
        a.sound(),
        decoded(a.type_on()) == Ok::<Decoded, Seq<char>>(d),
        dataspace_parsed(a.space_on()) == Ok::<(SpaceView, Seq<u8>), Seq<char>>((x, after)),
        attr_finished(data, base, c_text(a.name), d.ty, d.order, x, a.data) is Ok,
    ensures
        attr_parsed(data, base, a.message()) == Ok::<Option<AttrView>, Seq<char>>(
            Some(attr_finished(data, base, c_text(a.name), d.ty, d.order, x, a.data)->Ok_0),
        ),
{
    lemma_attribute_head(a);
    lemma_attribute_tail(a);
    lemma_attribute_message(
        data,
        base,
        a.message(),
        a.version,
        a.name,
        a.ty.len(),
        a.space.len(),
        a.type_on(),
        a.space_on(),
        a.data,
        d,
        x,
        after,
        attr_finished(data, base, c_text(a.name), d.ty, d.order, x, a.data)->Ok_0,
    );
}

#[verifier::rlimit(60)]
#[verifier::spinoff_prover]
proof fn lemma_attribute_message(
    data: Seq<u8>,
    base: u64,
    m: Seq<u8>,
    version: u8,
    name: Seq<u8>,
    ty: nat,
    space: nat,
    type_on: Seq<u8>,
    space_on: Seq<u8>,
    bytes: Seq<u8>,
    d: Decoded,
    x: SpaceView,
    after: Seq<u8>,
    out: AttrView,
)
    requires
        1 <= version <= 3,
        m.len() > 0,
        m[0] == version,
        le_at(m, 2, 2) == name.len(),
        le_at(m, 4, 2) == ty,
        le_at(m, 6, 2) == space,
        ({
            let h = attr_head(version);
            let p = h + attr_pad(version, name.len());
            let q = p + attr_pad(version, ty);
            let r = q + attr_pad(version, space);
            &&& h <= p <= q <= r <= m.len()
            &&& m.subrange(h, h + name.len()) == name
            &&& m.skip(p) == type_on
            &&& dropped(m, q) == space_on
            &&& m.skip(r) == bytes
        }),
        decoded(type_on) == Ok::<Decoded, Seq<char>>(d),
        dataspace_parsed(space_on) == Ok::<(SpaceView, Seq<u8>), Seq<char>>((x, after)),
        attr_finished(data, base, c_text(name), d.ty, d.order, x, bytes) == Ok::<
            AttrView,
            Seq<char>,
        >(out),
    ensures
        attr_parsed(data, base, m) == Ok::<Option<AttrView>, Seq<char>>(Some(out)),
{
}

// The superblock.

/// Where the superblock may stand: at the start, or at 512 or a double of a place behind it.
pub open spec fn superblock_place(n: nat) -> int
    decreases n,
{
    if n == 0 {
        0
    } else if n == 1 {
        512
    } else {
        2 * superblock_place((n - 1) as nat)
    }
}

/// The superblock is found at the first place where its signature stands.
pub proof fn law_signature_found(data: Seq<u8>, i: nat, n: nat)
    requires
        i <= n,
        superblock_place(n) + 96 <= data.len(),
        data.subrange(superblock_place(n), superblock_place(n) + 8) == file_signature(),
        forall|k: nat|
            i <= k < n ==> data.subrange(superblock_place(k), #[trigger] superblock_place(k) + 8)
                != file_signature(),
    ensures
        signature_at(data, superblock_place(i)) == Some(superblock_place(n)),
    decreases n - i,
{
    lemma_places(i, n);
    if i < n {
        let p = superblock_place(i);
        assert(data.subrange(p, superblock_place(i) + 8) != file_signature());
        lemma_places(i, i + 1);
        law_signature_found(data, i + 1, n);
        if i >= 1 {
            lemma_places(1, i);
        }
    }
}

proof fn lemma_places(i: nat, n: nat)
    requires
        i <= n,
    ensures
        0 <= superblock_place(i) <= superblock_place(n),
        i >= 1 ==> superblock_place(i) >= 512,
    decreases n,
{
    if i < n {
        lemma_places(i, (n - 1) as nat);
    } else if n > 1 {
        lemma_places((n - 1) as nat, (n - 1) as nat);
    }
}

// Superblocks of other versions.

/// A superblock of version 1 says what one of version 0 does; it only holds four bytes more
/// before the addresses.
pub proof fn law_superblock_longer(head: Seq<u8>, more: Seq<u8>, rest: Seq<u8>)
    requires
        head.len() == 24,
        head[8] == 0,
        more.len() == 4,
        rest.len() >= 48,
    ensures
        superblock_parsed(head.update(8, 1) + (more + rest)) == superblock_parsed(head + rest),
{
    let a = head + rest;
    let b = head.update(8, 1) + (more + rest);
    assert(b[13] == a[13] && b[14] == a[14] && b[8] == 1 && a[8] == 0);
    assert(b.subrange(28, 36) =~= a.subrange(24, 32));
    assert(b.subrange(68, 76) =~= a.subrange(64, 72));
}

/// A superblock of version 3 says what one of version 2 does.
pub proof fn law_superblock_alike(s: Seq<u8>)
    requires
        s.len() >= 44,
        s[8] == 2,
    ensures
        superblock_parsed(s.update(8, 3)) == superblock_parsed(s),
{
    let t = s.update(8, 3);
    assert(t.subrange(36, 44) =~= s.subrange(36, 44));
    assert(t.subrange(12, 20) =~= s.subrange(12, 20));
    assert(t.subrange(20, 28) =~= s.subrange(20, 28));
}

} // verus!
