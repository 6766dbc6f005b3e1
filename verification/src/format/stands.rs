//! What stands at a place of a file image.

use vstd::prelude::*;

use crate::format::gheap::rest_at;
use crate::format::{law_le_round_trip, le_at, le_bytes, pow256};

verus! {

/// Whether some bytes stand at a place of an image.
pub open spec fn stands(data: Seq<u8>, pos: int, s: Seq<u8>) -> bool {
    0 <= pos && pos + s.len() <= data.len() && data.subrange(pos, pos + s.len()) == s
}

/// Bytes stand at a place byte by byte.
pub proof fn lemma_stands(data: Seq<u8>, pos: int, s: Seq<u8>)
    requires
        stands(data, pos, s),
    ensures
        forall|i: int| 0 <= i < s.len() ==> #[trigger] s[i] == data[pos + i],
        rest_at(data, pos).len() >= s.len(),
        rest_at(data, pos).take(s.len() as int) == s,
{
    assert forall|i: int| 0 <= i < s.len() implies #[trigger] s[i] == data[pos + i] by {
        assert(data.subrange(pos, pos + s.len())[i] == s[i]);
    }
    assert(rest_at(data, pos).take(s.len() as int) =~= data.subrange(pos, pos + s.len()));
}

/// Two parts stand one behind the other.
pub proof fn lemma_stands_both(data: Seq<u8>, pos: int, a: Seq<u8>, b: Seq<u8>)
    requires
        stands(data, pos, a + b),
    ensures
        stands(data, pos, a),
        stands(data, pos + a.len(), b),
{
    lemma_stands(data, pos, a + b);
    assert forall|i: int| 0 <= i < a.len() implies data[pos + i] == a[i] by {
        assert((a + b)[i] == data[pos + i]);
    }
    assert forall|i: int| 0 <= i < b.len() implies data[pos + a.len() + i] == b[i] by {
        assert((a + b)[a.len() + i] == data[pos + (a.len() + i)]);
    }
    assert(data.subrange(pos, pos + a.len()) =~= a);
    assert(data.subrange(pos + a.len(), pos + a.len() + b.len()) =~= b);
}

/// A part stands at its place.
pub proof fn lemma_stands_part(data: Seq<u8>, pos: int, s: Seq<u8>, from: int, to: int)
    requires
        stands(data, pos, s),
        0 <= from <= to <= s.len(),
    ensures
        stands(data, pos + from, s.subrange(from, to)),
{
    assert(data.subrange(pos + from, pos + to) =~= data.subrange(pos, pos + s.len()).subrange(
        from,
        to,
    ));
}

/// A number that stands at a place is read there.
pub proof fn lemma_stands_number(data: Seq<u8>, pos: int, v: nat, n: nat)
    requires
        stands(data, pos, le_bytes(v, n)),
        v < pow256(n),
    ensures
        le_at(data, pos, n as int) == v,
        pos + n <= data.len(),
{
    law_le_round_trip(v, n);
}

} // verus!
