//! What the selections and the entries of stored mappings say, in all versions.

use vstd::prelude::*;

use crate::format::datatype_laws::lemma_uint;
use crate::format::vds::{
    blocks_taken, dset_taken, file_taken, hyperslab_head, hyperslab_parsed, numbers_taken,
    points_parsed, points_taken, selection_parsed, slabs_taken, MappingView, SelectionView, Slab,
};
use crate::format::version_laws::{all_fit, lemma_byte, lemma_numbers, numbers};
use crate::format::{dropped, le_bytes, lemma_pow256, pow256, taken_sized};

verus! {

/// Lists of numbers of `w` bytes, one behind the other.
pub open spec fn rows(v: Seq<Seq<u64>>, w: nat) -> Seq<u8>
    decreases v.len(),
{
    if v.len() == 0 {
        Seq::empty()
    } else {
        numbers(v[0], w) + rows(v.skip(1), w)
    }
}

/// Whether all lists have `n` numbers that fit in `w` bytes.
pub open spec fn rows_fit(v: Seq<Seq<u64>>, n: nat, w: nat) -> bool {
    forall|i: int| 0 <= i < v.len() ==> (#[trigger] v[i]).len() == n && all_fit(v[i], w)
}

proof fn lemma_rows_rest(v: Seq<Seq<u64>>, n: nat, w: nat)
    requires
        rows_fit(v, n, w),
        v.len() > 0,
    ensures
        v[0].len() == n,
        all_fit(v[0], w),
        rows_fit(v.skip(1), n, w),
{
    let rest = v.skip(1);
    assert forall|i: int| 0 <= i < rest.len() implies (#[trigger] rest[i]).len() == n && all_fit(
        rest[i],
        w,
    ) by {
        assert(rest[i] == v[i + 1]);
    }
}

proof fn lemma_row(v: Seq<u64>, w: nat, s: Seq<u8>)
    requires
        1 <= w <= 8,
        all_fit(v, w),
    ensures
        numbers_taken(numbers(v, w) + s, w, v.len(), Seq::empty()) == Ok::<
            (Seq<u64>, Seq<u8>),
            Seq<char>,
        >((v, s)),
{
    lemma_numbers(v, w, s, Seq::empty());
    assert(Seq::<u64>::empty() + v =~= v);
}

proof fn lemma_sized(v: nat, w: nat, s: Seq<u8>)
    requires
        1 <= w <= 8,
        v < pow256(w),
    ensures
        taken_sized(le_bytes(v, w) + s, w) == Ok::<(nat, Seq<u8>), Seq<char>>((v, s)),
{
    lemma_uint(v, w, s);
}

// Points.

proof fn lemma_points(v: Seq<Seq<u64>>, rank: nat, w: nat, s: Seq<u8>, acc: Seq<Seq<u64>>)
    requires
        1 <= w <= 8,
        rows_fit(v, rank, w),
    ensures
        points_taken(rows(v, w) + s, w, rank, v.len(), acc) == Ok::<
            (Seq<Seq<u64>>, Seq<u8>),
            Seq<char>,
        >((acc + v, s)),
    decreases v.len(),
{
    if v.len() == 0 {
        assert(rows(v, w) + s =~= s);
        assert(acc + v =~= acc);
    } else {
        let rest = v.skip(1);
        lemma_rows_rest(v, rank, w);
        lemma_row(v[0], w, rows(rest, w) + s);
        assert(numbers(v[0], w) + (rows(rest, w) + s) =~= rows(v, w) + s);
        lemma_points(rest, rank, w, s, acc.push(v[0]));
        assert(acc.push(v[0]) + rest =~= acc + v);
    }
}

/// Points are of the kind 1. In version 1 eight bytes that say nothing stand before the
/// rank, and numbers have four bytes; from version 2 on a byte gives their width.
pub proof fn law_points_message(
    version: nat,
    gap: Seq<u8>,
    width: u8,
    rank: nat,
    v: Seq<Seq<u64>>,
    s: Seq<u8>,
)
    requires
        1 <= version < 0x1_0000_0000,
        version == 1 ==> gap.len() == 8 && width == 4,
        1 <= width <= 8,
        rank < 0x1_0000_0000,
        v.len() < pow256(width as nat),
        rows_fit(v, rank, width as nat),
    ensures
        selection_parsed(
            le_bytes(1, 4) + (le_bytes(version, 4) + ((if version == 1 {
                gap
            } else {
                seq![width]
            }) + (le_bytes(rank, 4) + (le_bytes(v.len(), width as nat) + (rows(v, width as nat)
                + s))))),
        ) == Ok::<(SelectionView, Seq<u8>), Seq<char>>((SelectionView::Points(v), s)),
{
    let w = width as nat;
    lemma_pow256();
    let r4 = rows(v, w) + s;
    let r3 = le_bytes(v.len(), w) + r4;
    let r2 = le_bytes(rank, 4) + r3;
    let r1 = (if version == 1 {
        gap
    } else {
        seq![width]
    }) + r2;
    let r0 = le_bytes(version, 4) + r1;
    lemma_uint(1, 4, r0);
    lemma_uint(version, 4, r1);
    if version == 1 {
        assert(dropped(r1, 8) =~= r2);
    } else {
        lemma_byte(width, r2);
    }
    lemma_uint(rank, 4, r3);
    lemma_sized(v.len(), w, r4);
    lemma_points(v, rank, w, s, Seq::empty());
    assert(Seq::<Seq<u64>>::empty() + v =~= v);
    assert(points_parsed(r0) == Ok::<(SelectionView, Seq<u8>), Seq<char>>(
        (SelectionView::Points(v), s),
    ));
}

// Hyperslabs.

/// The start of a hyperslab of a version: in the first eight bytes that say nothing, in the
/// second the flags and four such bytes, in the third the flags and the width of numbers.
pub open spec fn slab_head(version: nat, flags: u8, width: u8, gap: Seq<u8>) -> Seq<u8> {
    if version == 1 {
        gap
    } else if version == 2 {
        seq![flags] + gap
    } else {
        seq![flags, width]
    }
}

/// Whether the width of numbers, and what says nothing, are those of the version.
pub open spec fn slab_head_sound(version: nat, flags: u8, width: u8, gap: Seq<u8>) -> bool {
    &&& 1 <= version <= 3
    &&& 1 <= width <= 8
    &&& version == 1 ==> gap.len() == 8 && width == 4 && flags == 0
    &&& version == 2 ==> gap.len() == 4 && width == 8
}

proof fn lemma_slab_head(version: nat, flags: u8, width: u8, gap: Seq<u8>, s: Seq<u8>)
    requires
        slab_head_sound(version, flags, width, gap),
    ensures
        hyperslab_head(slab_head(version, flags, width, gap) + s, version) == Ok::<
            (nat, nat, Seq<u8>),
            Seq<char>,
        >((flags as nat, width as nat, s)),
{
    if version == 1 {
        assert(dropped(gap + s, 8) =~= s);
    } else if version == 2 {
        lemma_byte(flags, gap + s);
        assert(seq![flags] + gap + s =~= seq![flags] + (gap + s));
        assert(dropped(gap + s, 4) =~= s);
    } else {
        lemma_byte(flags, seq![width] + s);
        lemma_byte(width, s);
        assert(seq![flags, width] + s =~= seq![flags] + (seq![width] + s));
    }
}

/// The lowest and the highest corners of boxes, in turn.
pub open spec fn corners(v: Seq<(Seq<u64>, Seq<u64>)>) -> Seq<Seq<u64>> {
    Seq::new(
        2 * v.len(),
        |i: int|
            if i % 2 == 0 {
                v[i / 2].0
            } else {
                v[i / 2].1
            },
    )
}

proof fn lemma_boxes(
    v: Seq<(Seq<u64>, Seq<u64>)>,
    rank: nat,
    w: nat,
    s: Seq<u8>,
    acc: Seq<(Seq<u64>, Seq<u64>)>,
)
    requires
        1 <= w <= 8,
        rows_fit(corners(v), rank, w),
    ensures
        blocks_taken(rows(corners(v), w) + s, w, rank, v.len(), acc) == Ok::<
            (Seq<(Seq<u64>, Seq<u64>)>, Seq<u8>),
            Seq<char>,
        >((acc + v, s)),
    decreases v.len(),
{
    let c = corners(v);
    if v.len() == 0 {
        assert(rows(c, w) + s =~= s);
        assert(acc + v =~= acc);
    } else {
        let rest = v.skip(1);
        let (a, b) = v[0];
        let c1 = c.skip(1);
        assert(c[0] == a);
        assert(c1[0] == c[1] && c[1] == b);
        assert(c1.skip(1) =~= corners(rest)) by {
            assert forall|i: int| 0 <= i < 2 * rest.len() implies c1.skip(1)[i] == corners(
                rest,
            )[i] by {
                assert((i + 2) / 2 == i / 2 + 1 && (i + 2) % 2 == i % 2);
                assert(rest[i / 2] == v[i / 2 + 1]);
            }
        }
        lemma_rows_rest(c, rank, w);
        lemma_rows_rest(c1, rank, w);
        let more = rows(corners(rest), w) + s;
        lemma_row(a, w, numbers(b, w) + more);
        lemma_row(b, w, more);
        assert(rows(c, w) == numbers(a, w) + rows(c1, w));
        assert(rows(c1, w) == numbers(b, w) + rows(corners(rest), w));
        assert(rows(c, w) + s =~= numbers(a, w) + (numbers(b, w) + more));
        lemma_boxes(rest, rank, w, s, acc.push((a, b)));
        assert(acc.push((a, b)) + rest =~= acc + v);
    }
}

/// Hyperslabs are of the kind 2. Where the lowest flag is not set, they are boxes, each
/// given by its corners.
pub proof fn law_boxes_message(
    version: nat,
    flags: u8,
    width: u8,
    gap: Seq<u8>,
    rank: nat,
    v: Seq<(Seq<u64>, Seq<u64>)>,
    s: Seq<u8>,
)
    requires
        slab_head_sound(version, flags, width, gap),
        flags % 2 == 0,
        rank < 0x1_0000_0000,
        v.len() < pow256(width as nat),
        rows_fit(corners(v), rank, width as nat),
    ensures
        selection_parsed(
            le_bytes(2, 4) + (le_bytes(version, 4) + (slab_head(version, flags, width, gap) + (
            le_bytes(rank, 4) + (le_bytes(v.len(), width as nat) + (rows(corners(v), width as nat)
                + s))))),
        ) == Ok::<(SelectionView, Seq<u8>), Seq<char>>((SelectionView::Blocks(v), s)),
{
    let w = width as nat;
    lemma_pow256();
    let r4 = rows(corners(v), w) + s;
    let r3 = le_bytes(v.len(), w) + r4;
    let r2 = le_bytes(rank, 4) + r3;
    let r1 = slab_head(version, flags, width, gap) + r2;
    let r0 = le_bytes(version, 4) + r1;
    lemma_uint(2, 4, r0);
    lemma_uint(version, 4, r1);
    lemma_slab_head(version, flags, width, gap, r2);
    lemma_uint(rank, 4, r3);
    lemma_sized(v.len(), w, r4);
    lemma_boxes(v, rank, w, s, Seq::empty());
    assert(Seq::<(Seq<u64>, Seq<u64>)>::empty() + v =~= v);
    assert(hyperslab_parsed(r0) == Ok::<(SelectionView, Seq<u8>), Seq<char>>(
        (SelectionView::Blocks(v), s),
    ));
}

/// What the four numbers of a dimension say: its start, its stride, how many blocks it has
/// and how long they are. The largest number stands for no limit.
pub open spec fn slab_said(v: Seq<u64>, w: nat) -> Slab {
    (
        v[0],
        v[1],
        if v[2] + 1 == pow256(w) {
            None
        } else {
            Some(v[2])
        },
        if v[3] + 1 == pow256(w) {
            u64::MAX
        } else {
            v[3]
        },
    )
}

proof fn lemma_slabs(v: Seq<Seq<u64>>, w: nat, s: Seq<u8>, acc: Seq<Slab>)
    requires
        w == 2 || w == 4 || w == 8,
        rows_fit(v, 4, w),
    ensures
        slabs_taken(rows(v, w) + s, w, v.len(), acc) == Ok::<(Seq<Slab>, Seq<u8>), Seq<char>>(
            (acc + Seq::new(v.len(), |i: int| slab_said(v[i], w)), s),
        ),
    decreases v.len(),
{
    let all = Seq::new(v.len(), |i: int| slab_said(v[i], w));
    if v.len() == 0 {
        assert(rows(v, w) + s =~= s);
        assert(acc + all =~= acc);
    } else {
        let rest = v.skip(1);
        let x = slab_said(v[0], w);
        lemma_rows_rest(v, 4, w);
        lemma_pow256();
        reveal_with_fuel(pow256, 3);
        lemma_row(v[0], w, rows(rest, w) + s);
        assert(numbers(v[0], w) + (rows(rest, w) + s) =~= rows(v, w) + s);
        lemma_slabs(rest, w, s, acc.push(x));
        assert(acc.push(x) + Seq::new(rest.len(), |i: int| slab_said(rest[i], w)) =~= acc + all);
    }
}

/// Where the lowest flag of a hyperslab is set, from version 2 on, it is regular: four
/// numbers for each dimension.
pub proof fn law_slabs_message(
    version: nat,
    flags: u8,
    width: u8,
    gap: Seq<u8>,
    v: Seq<Seq<u64>>,
    s: Seq<u8>,
)
    requires
        slab_head_sound(version, flags, width, gap),
        version >= 2,
        flags % 2 == 1,
        width == 2 || width == 4 || width == 8,
        v.len() < 0x1_0000_0000,
        rows_fit(v, 4, width as nat),
    ensures
        selection_parsed(
            le_bytes(2, 4) + (le_bytes(version, 4) + (slab_head(version, flags, width, gap) + (
            le_bytes(v.len(), 4) + (rows(v, width as nat) + s)))),
        ) == Ok::<(SelectionView, Seq<u8>), Seq<char>>(
            (
                SelectionView::Regular(
                    Seq::new(v.len(), |i: int| slab_said(v[i], width as nat)),
                ),
                s,
            ),
        ),
{
    let w = width as nat;
    lemma_pow256();
    let r3 = rows(v, w) + s;
    let r2 = le_bytes(v.len(), 4) + r3;
    let r1 = slab_head(version, flags, width, gap) + r2;
    let r0 = le_bytes(version, 4) + r1;
    let all = Seq::new(v.len(), |i: int| slab_said(v[i], w));
    lemma_uint(2, 4, r0);
    lemma_uint(version, 4, r1);
    lemma_slab_head(version, flags, width, gap, r2);
    lemma_uint(v.len(), 4, r3);
    lemma_slabs(v, w, s, Seq::empty());
    assert(Seq::<Slab>::empty() + all =~= all);
    assert(hyperslab_parsed(r0) == Ok::<(SelectionView, Seq<u8>), Seq<char>>(
        (SelectionView::Regular(all), s),
    ));
}

// Entries.

/// The third flag of an entry says that its source is in the file itself; the first, that
/// its file is that of an earlier entry, and the second, that its dataset is, which the
/// number of that entry then stands for.
pub proof fn law_entry_flags(flags: nat, k: nat, earlier: Seq<MappingView>, s: Seq<u8>)
    requires
        k < earlier.len(),
        k <= u64::MAX,
    ensures
        flags / 4 % 2 == 1 ==> file_taken(s, flags, earlier) == Ok::<
            (Seq<char>, Seq<u8>),
            Seq<char>,
        >(("."@, s)),
        flags / 4 % 2 == 0 && flags % 2 == 1 ==> file_taken(le_bytes(k, 8) + s, flags, earlier)
            == Ok::<(Seq<char>, Seq<u8>), Seq<char>>((earlier[k as int].source_file, s)),
        flags / 2 % 2 == 1 ==> dset_taken(le_bytes(k, 8) + s, flags, earlier) == Ok::<
            (Seq<char>, Seq<u8>),
            Seq<char>,
        >((earlier[k as int].source_dset, s)),
{
    lemma_pow256();
    lemma_uint(k, 8, s);
}

} // verus!
