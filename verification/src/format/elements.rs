//! The elements of datasets and attributes once their bytes were read: their
//! variable-length payloads are loaded, their byte order and their signs settled.

use vstd::prelude::*;

use crate::error::Error;
use crate::format::bits::{lemma_pow2_monotone, lemma_pow2_sum, lemma_pow2_values, pow2};
use crate::format::convert::{disk_size, has_vlen, payloads, VlenStore};
use crate::format::datatype::{OrderTree, OrderView};
use crate::format::gheap::{load_cells, vlen_cells_loaded, GlobalHeap, Loaded};
use crate::format::order::{lemma_cells_len, order_cells, ordered_cells};
use crate::format::v2::power2;
use crate::format::{le, le_bytes, lemma_le_bytes_len, push_le, uint_of, zeroes};
use crate::types::{TypeDescriptor, TypeView};

verus! {

/// Bytes cut or filled up with zeroes to a length.
pub open spec fn fitted(s: Seq<u8>, n: nat) -> Seq<u8> {
    if s.len() >= n {
        s.take(n as int)
    } else {
        s + zeroes((n - s.len()) as nat)
    }
}

/// Cuts bytes or fills them up with zeroes.
pub fn fit(bytes: Vec<u8>, n: usize) -> (r: Vec<u8>)
    ensures
        r@ == fitted(bytes@, n as nat),
        r@.len() == n,
{
    let ghost s = bytes@;
    let mut v = bytes;
    if v.len() >= n {
        v.truncate(n);
        assert(v@ =~= fitted(s, n as nat));
        return v;
    }
    while v.len() < n
        invariant
            s.len() <= v@.len() <= n,
            v@ == s + zeroes((v@.len() - s.len()) as nat),
        decreases n - v@.len(),
    {
        let ghost before = v@;
        v.push(0);
        assert(v@ =~= s + zeroes((v@.len() - s.len()) as nat));
    }
    v
}

/// `n` elements in byte order `order`, turned around where they need it.
pub open spec fn turned(
    order: OrderView,
    size: nat,
    n: nat,
    bytes: Seq<u8>,
    store: Seq<Seq<u8>>,
) -> (Seq<u8>, Seq<Seq<u8>>) {
    if order is Plain || size == 0 {
        (bytes, store)
    } else {
        ordered_cells(order, size, n, bytes, store)
    }
}

/// Turns elements around where they need it.
pub fn turn(order: &OrderTree, size: usize, n: usize, bytes: Vec<u8>, store: &mut VlenStore) -> (r:
    Vec<u8>)
    ensures
        (r@, payloads(final(store)@)) == turned(
            order@,
            size as nat,
            n as nat,
            bytes@,
            payloads(old(store)@),
        ),
        r@.len() == bytes@.len(),
{
    if order.is_none() || size == 0 {
        return bytes;
    }
    proof {
        lemma_cells_len(order@, size as nat, n as nat, bytes@, payloads(store@));
    }
    order_cells(order, size, n, bytes, store)
}

/// `n` elements with their heap references turned into slots, and the payloads.
pub open spec fn loaded(data: Seq<u8>, base: u64, ty: TypeView, n: nat, bytes: Seq<u8>) -> Loaded {
    if ty.has_vlen() && bytes.len() > 0 {
        vlen_cells_loaded(data, base, ty, n, bytes, Seq::empty())
    } else {
        Ok((bytes, Seq::empty()))
    }
}

/// Loads the payloads of `n` elements.
pub fn load(heap: &mut GlobalHeap, ty: &TypeDescriptor, n: usize, bytes: Vec<u8>) -> (r: Result<
    (Vec<u8>, VlenStore),
    Error,
>)
    requires
        old(heap).wf(),
        ty@.sized(),
        bytes@.len() == ty@.disk_size() * n,
    ensures
        final(heap).wf(),
        final(heap).data@ == old(heap).data@,
        final(heap).base == old(heap).base,
        match (r, loaded(old(heap).data@, old(heap).base, ty@, n as nat, bytes@)) {
            (Ok((v, st)), Ok((w, s))) => v@ == w && payloads(st@) == s && v@.len() == bytes@.len(),
            (Err(e), Err(m)) => e@ == m,
            _ => false,
        },
{
    let mut store: VlenStore = Vec::new();
    assert(payloads(store@) =~= Seq::<Seq<u8>>::empty());
    if has_vlen(ty) && bytes.len() > 0 {
        let v = load_cells(heap, ty, n, bytes, &mut store)?;
        Ok((v, store))
    } else {
        Ok((bytes, store))
    }
}

/// A number of `p` bits as a two's complement number of `size` bytes.
pub open spec fn extended(v: nat, p: nat, size: nat) -> nat {
    if 0 < p && v / pow2((p - 1) as nat) % 2 == 1 {
        // the bits from `p` on are set
        (v % pow2(p) + (pow2(8 * size) - pow2(p))) as nat
    } else {
        v
    }
}

/// `n` elements of `size` bytes, of which the low `p` bits hold a signed number, with
/// the sign carried on to the other bits.
pub open spec fn sign_extended(bytes: Seq<u8>, size: nat, p: nat, n: nat) -> Seq<u8>
    decreases n,
{
    if n == 0 || bytes.len() < size {
        bytes
    } else {
        le_bytes(extended(le(bytes.take(size as int)), p, size), size) + sign_extended(
            bytes.skip(size as int),
            size,
            p,
            (n - 1) as nat,
        )
    }
}

fn extend_one(v: u64, p: u32, size: usize) -> (r: u64)
    requires
        1 <= size <= 8,
        1 <= p <= 8 * size,
        v < pow2(8 * size as nat),
    ensures
        r == extended(v as nat, p as nat, size as nat),
        r < pow2(8 * size as nat),
{
    proof {
        lemma_pow2_values();
        lemma_pow2_monotone(p as nat, 8 * size as nat);
        lemma_pow2_monotone(8 * size as nat, 64);
        lemma_pow2_monotone((p - 1) as nat, p as nat);
    }
    let low: u64 = power2(p - 1);
    if v / low % 2 == 0 {
        return v;
    }
    if p == 64 {
        assert(v as int % 0x1_0000_0000_0000_0000int == v);
        return v;
    }
    let top: u128 = if size == 8 {
        0x1_0000_0000_0000_0000
    } else {
        power2(8 * size as u32) as u128
    };
    let full: u64 = power2(p);
    assert((v as nat) % (full as nat) < full);
    (v as u128 % full as u128 + (top - full as u128)) as u64
}

/// Carries the signs of `n` elements on.
pub fn extend_signs(bytes: Vec<u8>, size: usize, p: u32, n: usize) -> (r: Vec<u8>)
    requires
        1 <= size <= 8,
        1 <= p <= 8 * size,
    ensures
        r@ == sign_extended(bytes@, size as nat, p as nat, n as nat),
        r@.len() == bytes@.len(),
{
    let ghost whole = sign_extended(bytes@, size as nat, p as nat, n as nat);
    let total: usize = bytes.len();
    let mut out: Vec<u8> = Vec::new();
    let mut at: usize = 0;
    let mut i: usize = 0;
    assert(bytes@.skip(0) =~= bytes@);
    assert(out@ + whole =~= whole);
    while i < n && total - at >= size
        invariant
            1 <= size <= 8,
            1 <= p <= 8 * size,
            i <= n,
            at <= total == bytes@.len(),
            out@.len() == at,
            whole == out@ + sign_extended(
                bytes@.skip(at as int),
                size as nat,
                p as nat,
                (n - i) as nat,
            ),
        decreases n - i,
    {
        let ghost rest = bytes@.skip(at as int);
        let ghost before = out@;
        let part = vstd::slice::slice_subrange(bytes.as_slice(), at, at + size);
        assert(part@ =~= rest.take(size as int));
        assert(rest.skip(size as int) =~= bytes@.skip(at + size));
        let v: u64 = uint_of(part);
        proof {
            lemma_le_pow2(part@);
        }
        let w: u64 = extend_one(v, p, size);
        push_le(&mut out, w, size);
        proof {
            lemma_le_bytes_len(w as nat, size as nat);
            let tail = sign_extended(
                bytes@.skip(at + size),
                size as nat,
                p as nat,
                (n - i - 1) as nat,
            );
            assert(before + (le_bytes(w as nat, size as nat) + tail) =~= (before + le_bytes(
                w as nat,
                size as nat,
            )) + tail);
        }
        at = at + size;
        i += 1;
    }
    let mut tail = vstd::slice::slice_to_vec(
        vstd::slice::slice_subrange(bytes.as_slice(), at, total),
    );
    assert(tail@ =~= bytes@.skip(at as int));
    out.append(&mut tail);
    out
}

proof fn lemma_le_pow2(s: Seq<u8>)
    ensures
        le(s) < pow2(8 * s.len()),
{
    crate::format::lemma_le_bound(s);
    lemma_pow256_pow2(s.len());
}

pub(crate) proof fn lemma_pow256_pow2(n: nat)
    ensures
        crate::format::pow256(n) == pow2(8 * n),
    decreases n,
{
    if n > 0 {
        lemma_pow256_pow2((n - 1) as nat);
        lemma_pow2_sum(8, (8 * (n - 1)) as nat);
        lemma_pow2_values();
    } else {
        lemma_pow2_values();
    }
}

} // verus!
