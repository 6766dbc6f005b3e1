//! Stored selections and mappings read back as they were written.

use vstd::prelude::*;
use vstd::utf8::encode_utf8;

use crate::format::datatype::nul_at;
use crate::format::datatype_laws::plain_name;
use crate::format::vds::{
    entries_encoded, entries_taken, entry_encoded, entry_taken, hyperslab_head, hyperslab_parsed,
    numbers_taken, selection_encoded, selection_parsed, slabs_encoded, slabs_taken, text_taken,
    vds_encoded, vds_parsed, MappingView, SelectionView, Slab,
};
use crate::format::{
    law_le_round_trip, le_bytes, lemma_le_bytes_len, lemma_pow256, pow256, taken_uint,
};
use crate::text::law_text_of_utf8;

verus! {

/// Whether a selection can be written, and holds nothing that reads as something
/// else: strides are not zero, and no count is the number that stands for no limit.
pub open spec fn writable(sel: SelectionView) -> bool {
    match sel {
        SelectionView::All => true,
        SelectionView::Nothing => true,
        SelectionView::Regular(v) => v.len() < 0x1_0000_0000 && forall|i: int|
            0 <= i < v.len() ==> (#[trigger] v[i]).1 != 0 && v[i].2 != Some(u64::MAX),
        _ => false,
    }
}

proof fn join3(a: Seq<u8>, b: Seq<u8>, c: Seq<u8>)
    ensures
        (a + b) + c == a + (b + c),
{
    assert((a + b) + c =~= a + (b + c));
}

proof fn lemma_uint(v: nat, n: nat, s: Seq<u8>)
    requires
        v < pow256(n),
    ensures
        taken_uint(le_bytes(v, n) + s, n) == Ok::<(nat, Seq<u8>), Seq<char>>((v, s)),
{
    law_le_round_trip(v, n);
    let all = le_bytes(v, n) + s;
    assert(all.take(n as int) =~= le_bytes(v, n));
    assert(all.skip(n as int) =~= s);
}

/// The four numbers of a dimension of a hyperslab.
spec fn slab_message(slab: Slab) -> Seq<u8> {
    let (start, stride, count, block) = slab;
    le_bytes(start as nat, 8) + le_bytes(
        if stride == 0 {
            1
        } else {
            stride as nat
        },
        8,
    ) + le_bytes(
        match count {
            Some(c) => c as nat,
            None => u64::MAX as nat,
        },
        8,
    ) + le_bytes(block as nat, 8)
}

proof fn lemma_slabs_front(v: Seq<Slab>)
    requires
        v.len() > 0,
    ensures
        slabs_encoded(v) == slab_message(v[0]) + slabs_encoded(v.skip(1)),
    decreases v.len(),
{
    let init = v.drop_last();
    assert(slabs_encoded(v) =~= slabs_encoded(init) + slab_message(v.last()));
    if v.len() == 1 {
        assert(init =~= Seq::empty());
        assert(v.skip(1) =~= Seq::empty());
        assert(slabs_encoded(v) =~= slab_message(v[0]) + slabs_encoded(v.skip(1)));
    } else {
        lemma_slabs_front(init);
        assert(init.skip(1) =~= v.skip(1).drop_last());
        assert(slabs_encoded(v.skip(1)) =~= slabs_encoded(v.skip(1).drop_last()) + slab_message(
            v.last(),
        ));
        assert(slabs_encoded(v) =~= slab_message(v[0]) + slabs_encoded(v.skip(1)));
    }
}

proof fn lemma_four(a: u64, b: u64, c: u64, d: u64, s: Seq<u8>)
    ensures
        numbers_taken(
            le_bytes(a as nat, 8) + le_bytes(b as nat, 8) + le_bytes(c as nat, 8) + le_bytes(
                d as nat,
                8,
            ) + s,
            8,
            4,
            Seq::empty(),
        ) == Ok::<(Seq<u64>, Seq<u8>), Seq<char>>((seq![a, b, c, d], s)),
{
    lemma_pow256();
    reveal_with_fuel(numbers_taken, 5);
    let s3 = le_bytes(d as nat, 8) + s;
    let s2 = le_bytes(c as nat, 8) + s3;
    let s1 = le_bytes(b as nat, 8) + s2;
    let s0 = le_bytes(a as nat, 8) + s1;
    assert(le_bytes(a as nat, 8) + le_bytes(b as nat, 8) + le_bytes(c as nat, 8) + le_bytes(
        d as nat,
        8,
    ) + s =~= s0);
    lemma_uint(a as nat, 8, s1);
    lemma_uint(b as nat, 8, s2);
    lemma_uint(c as nat, 8, s3);
    lemma_uint(d as nat, 8, s);
    assert(Seq::<u64>::empty().push(a).push(b).push(c).push(d) =~= seq![a, b, c, d]);
}

proof fn lemma_slabs(v: Seq<Slab>, acc: Seq<Slab>, s: Seq<u8>)
    requires
        forall|i: int| 0 <= i < v.len() ==> (#[trigger] v[i]).1 != 0 && v[i].2 != Some(u64::MAX),
    ensures
        slabs_taken(slabs_encoded(v) + s, 8, v.len(), acc) == Ok::<(Seq<Slab>, Seq<u8>), Seq<char>>(
            (acc + v, s),
        ),
    decreases v.len(),
{
    if v.len() == 0 {
        assert(slabs_encoded(v) + s =~= s);
        assert(acc + v =~= acc);
    } else {
        let slab = v[0];
        let rest = v.skip(1);
        let tail = slabs_encoded(rest) + s;
        lemma_slabs_front(v);
        assert(slab.1 != 0 && slab.2 != Some(u64::MAX));
        let count = match slab.2 {
            Some(c) => c,
            None => u64::MAX,
        };
        assert(slabs_encoded(v) + s =~= le_bytes(slab.0 as nat, 8) + le_bytes(slab.1 as nat, 8)
            + le_bytes(count as nat, 8) + le_bytes(slab.3 as nat, 8) + tail);
        lemma_four(slab.0, slab.1, count, slab.3, tail);
        assert forall|i: int| 0 <= i < rest.len() implies (#[trigger] rest[i]).1 != 0 && rest[i].2
            != Some(u64::MAX) by {
            assert(rest[i] == v[i + 1]);
        }
        lemma_slabs(rest, acc.push(slab), s);
        assert(acc.push(slab) + rest =~= acc + v);
    }
}

proof fn lemma_regular(v: Seq<Slab>, s: Seq<u8>)
    requires
        writable(SelectionView::Regular(v)),
    ensures
        hyperslab_parsed(
            le_bytes(2, 4) + (seq![1u8] + (le_bytes(0, 4) + (le_bytes(v.len(), 4) + (slabs_encoded(
                v,
            ) + s)))),
        ) == Ok::<(SelectionView, Seq<u8>), Seq<char>>((SelectionView::Regular(v), s)),
{
    let body = slabs_encoded(v) + s;
    let r3 = le_bytes(v.len(), 4) + body;
    let r2 = le_bytes(0, 4) + r3;
    let r1 = seq![1u8] + r2;
    assert(pow256(1) == 256 && pow256(4) == 0x1_0000_0000) by {
        reveal_with_fuel(pow256, 5);
    }
    lemma_uint(2, 4, r1);
    assert(le_bytes(1, 1) =~= seq![1u8]) by {
        reveal_with_fuel(le_bytes, 2);
    }
    lemma_uint(1, 1, r2);
    lemma_le_bytes_len(0, 4);
    assert(r2.skip(4) =~= r3);
    lemma_uint(v.len(), 4, body);
    lemma_slabs(v, Seq::empty(), s);
    assert(Seq::<Slab>::empty() + v =~= v);
    assert(hyperslab_head(r1, 2) == Ok::<(nat, nat, Seq<u8>), Seq<char>>((1, 8, r3)));
}

proof fn lemma_whole(kind: nat, s: Seq<u8>)
    requires
        kind == 0 || kind == 3,
    ensures
        selection_parsed(
            le_bytes(kind, 4) + (le_bytes(1, 4) + (le_bytes(0, 4) + (le_bytes(0, 4) + s))),
        ) == Ok::<(SelectionView, Seq<u8>), Seq<char>>(
            (
                if kind == 0 {
                    SelectionView::Nothing
                } else {
                    SelectionView::All
                },
                s,
            ),
        ),
{
    assert(pow256(4) == 0x1_0000_0000) by {
        reveal_with_fuel(pow256, 5);
    }
    let tail = le_bytes(0, 4) + (le_bytes(0, 4) + s);
    lemma_uint(kind, 4, le_bytes(1, 4) + tail);
    lemma_uint(1, 4, tail);
    lemma_le_bytes_len(0, 4);
    assert(tail.skip(8) =~= s);
}

/// A selection reads back as it was written, and leaves what follows it.
pub proof fn law_selection_round_trip(sel: SelectionView, s: Seq<u8>)
    requires
        writable(sel),
    ensures
        selection_encoded(sel) is Ok,
        selection_parsed(selection_encoded(sel)->Ok_0 + s) == Ok::<
            (SelectionView, Seq<u8>),
            Seq<char>,
        >((sel, s)),
{
    let enc = selection_encoded(sel)->Ok_0;
    match sel {
        SelectionView::Regular(v) => {
            let r0 = le_bytes(2, 4) + (seq![1u8] + (le_bytes(0, 4) + (le_bytes(v.len(), 4) + (
            slabs_encoded(v) + s))));
            let (a, c, d) = (le_bytes(2, 4), seq![1u8], le_bytes(0, 4));
            let (e, f) = (le_bytes(v.len(), 4), slabs_encoded(v));
            join3(a + a + c + d + e, f, s);
            join3(a + a + c + d, e, f + s);
            join3(a + a + c, d, e + (f + s));
            join3(a + a, c, d + (e + (f + s)));
            join3(a, a, c + (d + (e + (f + s))));
            assert(enc + s == le_bytes(2, 4) + r0);
            assert(pow256(4) == 0x1_0000_0000) by {
                reveal_with_fuel(pow256, 5);
            }
            lemma_uint(2, 4, r0);
            lemma_regular(v, s);
        },
        _ => {
            let kind: nat = if sel is All {
                3
            } else {
                0
            };
            lemma_whole(kind, s);
            let (a, b, c) = (le_bytes(kind, 4), le_bytes(1, 4), le_bytes(0, 4));
            join3(a + b + c, c, s);
            join3(a + b, c, c + s);
            join3(a, b, c + (c + s));
        },
    }
}

proof fn lemma_nul(s: Seq<u8>, k: int, from: int)
    requires
        0 <= from <= k < s.len(),
        s[k] == 0,
        forall|i: int| 0 <= i < k ==> #[trigger] s[i] != 0,
    ensures
        nul_at(s, from) == Some(k),
    decreases k - from,
{
    if from < k {
        lemma_nul(s, k, from + 1);
    }
}

proof fn lemma_text(name: Seq<char>, s: Seq<u8>)
    requires
        plain_name(name),
    ensures
        text_taken(encode_utf8(name) + (seq![0u8] + s)) == Ok::<(Seq<char>, Seq<u8>), Seq<char>>(
            (name, s),
        ),
{
    let text = encode_utf8(name);
    let k = text.len() as int;
    let all = text + (seq![0u8] + s);
    law_text_of_utf8(name);
    assert(all[k] == 0);
    assert forall|i: int| 0 <= i < k implies #[trigger] all[i] != 0 by {
        assert(text[i] != 0);
    }
    lemma_nul(all, k, 0);
    assert(all.take(k) =~= text);
    assert(all.skip(k + 1) =~= s);
}

/// Whether a mapping can be written.
pub open spec fn mapping_writable(m: MappingView) -> bool {
    plain_name(m.source_file) && plain_name(m.source_dset) && writable(m.src_sel) && writable(
        m.virt_sel,
    )
}

#[verifier::rlimit(60)]
proof fn lemma_entry(m: MappingView, earlier: Seq<MappingView>, s: Seq<u8>)
    requires
        mapping_writable(m),
    ensures
        entry_encoded(m) is Ok,
        entry_taken(entry_encoded(m)->Ok_0 + s, 0, earlier) == Ok::<
            (MappingView, Seq<u8>),
            Seq<char>,
        >((m, s)),
{
    law_selection_round_trip(m.virt_sel, s);
    let b = selection_encoded(m.virt_sel)->Ok_0;
    law_selection_round_trip(m.src_sel, b + s);
    let a = selection_encoded(m.src_sel)->Ok_0;
    let r2 = a + (b + s);
    lemma_text(m.source_dset, r2);
    let r1 = encode_utf8(m.source_dset) + (seq![0u8] + r2);
    lemma_text(m.source_file, r1);
    let (u, v, z) = (encode_utf8(m.source_file), encode_utf8(m.source_dset), seq![0u8]);
    join3(u + z + v + z + a, b, s);
    join3(u + z + v + z, a, b + s);
    join3(u + z + v, z, r2);
    join3(u + z, v, z + r2);
    join3(u, z, r1);
    assert(entry_encoded(m)->Ok_0 + s == u + (z + r1));
}

/// The entries of the mappings from `v[i]` on.
spec fn entries_from(v: Seq<MappingView>, i: int) -> Seq<u8>
    decreases v.len() - i,
{
    if i < 0 || i >= v.len() {
        Seq::empty()
    } else {
        entry_encoded(v[i])->Ok_0 + entries_from(v, i + 1)
    }
}

proof fn lemma_entries_encoded(v: Seq<MappingView>, i: int, acc: Seq<u8>)
    requires
        0 <= i <= v.len(),
        forall|k: int| 0 <= k < v.len() ==> mapping_writable(#[trigger] v[k]),
    ensures
        entries_encoded(v, i, acc) == Ok::<Seq<u8>, Seq<char>>(acc + entries_from(v, i)),
    decreases v.len() - i,
{
    if i == v.len() {
        assert(acc + entries_from(v, i) =~= acc);
    } else {
        assert(mapping_writable(v[i]));
        lemma_entry(v[i], Seq::empty(), Seq::empty());
        let e = entry_encoded(v[i])->Ok_0;
        lemma_entries_encoded(v, i + 1, acc + e);
        assert(acc + e + entries_from(v, i + 1) =~= acc + entries_from(v, i));
    }
}

proof fn lemma_entries_taken(v: Seq<MappingView>, i: int, s: Seq<u8>)
    requires
        0 <= i <= v.len(),
        forall|k: int| 0 <= k < v.len() ==> mapping_writable(#[trigger] v[k]),
    ensures
        entries_taken(entries_from(v, i) + s, 0, (v.len() - i) as nat, v.take(i)) == Ok::<
            Seq<MappingView>,
            Seq<char>,
        >(v),
    decreases v.len() - i,
{
    if i == v.len() {
        assert(v.take(i) =~= v);
    } else {
        assert(mapping_writable(v[i]));
        let tail = entries_from(v, i + 1) + s;
        lemma_entry(v[i], v.take(i), tail);
        assert(entries_from(v, i) + s =~= entry_encoded(v[i])->Ok_0 + tail);
        assert(v.take(i).push(v[i]) =~= v.take(i + 1));
        lemma_entries_taken(v, i + 1, s);
    }
}

/// A list of mappings reads back as it was written.
#[verifier::rlimit(60)]
pub proof fn law_vds_round_trip(v: Seq<MappingView>)
    requires
        v.len() <= u64::MAX,
        forall|k: int| 0 <= k < v.len() ==> mapping_writable(#[trigger] v[k]),
    ensures
        vds_encoded(v) is Ok,
        vds_parsed(vds_encoded(v)->Ok_0) == Ok::<Seq<MappingView>, Seq<char>>(v),
{
    let head = seq![0u8] + le_bytes(v.len(), 8);
    lemma_entries_encoded(v, 0, head);
    let b = head + entries_from(v, 0);
    let sum = le_bytes(crate::format::checksum::lookup3(b) as nat, 4);
    let body = entries_from(v, 0) + sum;
    let all = vds_encoded(v)->Ok_0;
    assert(pow256(8) == 0x1_0000_0000_0000_0000 && pow256(1) == 256) by {
        lemma_pow256();
        reveal_with_fuel(pow256, 2);
    }
    assert(le_bytes(0, 1) =~= seq![0u8]) by {
        reveal_with_fuel(le_bytes, 2);
    }
    assert(all =~= le_bytes(0, 1) + (le_bytes(v.len(), 8) + body));
    lemma_uint(0, 1, le_bytes(v.len(), 8) + body);
    lemma_uint(v.len(), 8, body);
    assert(v.take(0) =~= Seq::empty());
    lemma_entries_taken(v, 0, sum);
}

} // verus!
