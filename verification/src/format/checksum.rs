//! The lookup3 checksum of version-2 metadata structures.

use vstd::prelude::*;

use crate::format::{le, lemma_le_small};

verus! {

/// The three words that the hash carries along.
pub struct Lanes {
    pub a: u32,
    pub b: u32,
    pub c: u32,
}

/// `x` rotated left by `k` bits, for `0 < k < 32`.
pub open spec fn rotated(x: u32, k: u32) -> u32 {
    (x << k) | (x >> ((32 - k) as u32))
}

fn rot(x: u32, k: u32) -> (r: u32)
    requires
        0 < k < 32,
    ensures
        r == rotated(x, k),
{
    (x << k) | (x >> (32 - k))
}

/// One line of the mixing: subtract `c`, exclusive-or with `c` rotated.
pub open spec fn subtract_rotated(x: u32, y: u32, k: u32) -> u32 {
    x.wrapping_sub(y) ^ rotated(y, k)
}

/// The mixing of the three lanes after each whole block.
pub open spec fn mixed(s: Lanes) -> Lanes {
    let a = subtract_rotated(s.a, s.c, 4);
    let c = s.c.wrapping_add(s.b);
    let b = subtract_rotated(s.b, a, 6);
    let a = a.wrapping_add(c);
    let c = subtract_rotated(c, b, 8);
    let b = b.wrapping_add(a);
    let a = subtract_rotated(a, c, 16);
    let c = c.wrapping_add(b);
    let b = subtract_rotated(b, a, 19);
    let a = a.wrapping_add(c);
    let c = subtract_rotated(c, b, 4);
    let b = b.wrapping_add(a);
    Lanes { a, b, c }
}

/// Exclusive-or with `y`, then subtract `y` rotated.
pub open spec fn xor_rotated(x: u32, y: u32, k: u32) -> u32 {
    (x ^ y).wrapping_sub(rotated(y, k))
}

/// The mixing after the last block; the hash is the third lane.
pub open spec fn finished(s: Lanes) -> u32 {
    let c = xor_rotated(s.c, s.b, 14);
    let a = xor_rotated(s.a, c, 11);
    let b = xor_rotated(s.b, a, 25);
    let c = xor_rotated(c, b, 16);
    let a = xor_rotated(a, c, 4);
    let b = xor_rotated(b, a, 14);
    xor_rotated(c, b, 24)
}

/// The little-endian word at `p`, bytes past the end counting as zero.
pub open spec fn word_at(d: Seq<u8>, p: int) -> u32 {
    le(Seq::new(4, |i: int| if p + i < d.len() { d[p + i] } else { 0u8 })) as u32
}

/// The lanes after the next twelve bytes were added.
pub open spec fn absorbed(d: Seq<u8>, s: Lanes) -> Lanes {
    Lanes {
        a: s.a.wrapping_add(word_at(d, 0)),
        b: s.b.wrapping_add(word_at(d, 4)),
        c: s.c.wrapping_add(word_at(d, 8)),
    }
}

/// The hash of `d`, from the lanes `s` on.
pub open spec fn hashed(d: Seq<u8>, s: Lanes) -> u32
    decreases d.len(),
{
    if d.len() == 0 {
        s.c
    } else if d.len() <= 12 {
        finished(absorbed(d, s))
    } else {
        hashed(d.skip(12), mixed(absorbed(d, s)))
    }
}

/// The lookup3 hash of `d` with the initial value zero.
pub open spec fn lookup3(d: Seq<u8>) -> u32 {
    let x = 0xdead_beefu32.wrapping_add((d.len() % 0x1_0000_0000) as u32);
    hashed(d, Lanes { a: x, b: x, c: x })
}

fn mix(s: Lanes) -> (r: Lanes)
    ensures
        r == mixed(s),
{
    let a: u32 = s.a.wrapping_sub(s.c) ^ rot(s.c, 4);
    let c: u32 = s.c.wrapping_add(s.b);
    let b: u32 = s.b.wrapping_sub(a) ^ rot(a, 6);
    let a: u32 = a.wrapping_add(c);
    let c: u32 = c.wrapping_sub(b) ^ rot(b, 8);
    let b: u32 = b.wrapping_add(a);
    let a: u32 = a.wrapping_sub(c) ^ rot(c, 16);
    let c: u32 = c.wrapping_add(b);
    let b: u32 = b.wrapping_sub(a) ^ rot(a, 19);
    let a: u32 = a.wrapping_add(c);
    let c: u32 = c.wrapping_sub(b) ^ rot(b, 4);
    let b: u32 = b.wrapping_add(a);
    Lanes { a, b, c }
}

fn finish(s: Lanes) -> (r: u32)
    ensures
        r == finished(s),
{
    let c: u32 = (s.c ^ s.b).wrapping_sub(rot(s.b, 14));
    let a: u32 = (s.a ^ c).wrapping_sub(rot(c, 11));
    let b: u32 = (s.b ^ a).wrapping_sub(rot(a, 25));
    let c: u32 = (c ^ b).wrapping_sub(rot(b, 16));
    let a: u32 = (a ^ c).wrapping_sub(rot(c, 4));
    let b: u32 = (b ^ a).wrapping_sub(rot(a, 14));
    (c ^ b).wrapping_sub(rot(b, 24))
}

fn byte_or_zero(d: &[u8], from: usize, p: usize) -> (r: u32)
    requires
        from <= d@.len(),
    ensures
        r == (if from + p < d@.len() {
            d@[from + p]
        } else {
            0
        }),
{
    if p < d.len() - from {
        d[from + p] as u32
    } else {
        0
    }
}

fn word(d: &[u8], from: usize, p: usize) -> (r: u32)
    requires
        from < d@.len(),
        p <= 8,
    ensures
        r == word_at(d@.skip(from as int), p as int),
{
    proof {
        let rest = d@.skip(from as int);
        let s = Seq::new(4, |i: int| if p + i < rest.len() { rest[p + i] } else { 0u8 });
        lemma_le_small(s);
    }
    byte_or_zero(d, from, p) + 0x100 * byte_or_zero(d, from, p + 1) + 0x1_0000 * byte_or_zero(
        d,
        from,
        p + 2,
    ) + 0x100_0000 * byte_or_zero(d, from, p + 3)
}

fn absorb(d: &[u8], from: usize, s: Lanes) -> (r: Lanes)
    requires
        from < d@.len(),
    ensures
        r == absorbed(d@.skip(from as int), s),
{
    Lanes {
        a: s.a.wrapping_add(word(d, from, 0)),
        b: s.b.wrapping_add(word(d, from, 4)),
        c: s.c.wrapping_add(word(d, from, 8)),
    }
}

/// Computes the HDF5 metadata checksum over `data`.
pub fn checksum(data: &[u8]) -> (r: u32)
    ensures
        r == lookup3(data@),
{
    let n: usize = data.len();
    let low: u32 = (n as u64 % 0x1_0000_0000) as u32;
    let x: u32 = 0xdead_beefu32.wrapping_add(low);
    let mut s = Lanes { a: x, b: x, c: x };
    let mut offset: usize = 0;
    assert(data@.skip(0) =~= data@);
    while n - offset > 12
        invariant
            offset <= n == data@.len(),
            lookup3(data@) == hashed(data@.skip(offset as int), s),
        decreases n - offset,
    {
        proof {
            assert(data@.skip(offset as int).skip(12) =~= data@.skip(offset + 12));
        }
        s = mix(absorb(data, offset, s));
        offset += 12;
    }
    if offset == n {
        return s.c;
    }
    finish(absorb(data, offset, s))
}

} // verus!
