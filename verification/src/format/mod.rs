//! The on-disk format: little-endian primitives and the structures above them.

use vstd::prelude::*;

use crate::error::Error;

pub mod aec;
pub mod aec_laws;
pub mod array_laws;
pub mod attr_laws;
pub mod attr_write;
pub mod attribute;
pub mod bits;
pub mod bitshuffle;
pub mod blosc;
pub mod blosclz;
pub mod checksum;
pub mod chunk_index;
pub mod chunk_laws;
pub mod chunk_list_laws;
pub mod chunk_read_laws;
pub mod chunk_write;
pub mod chunks;
pub mod class_laws;
pub mod codec_bounds;
pub mod codecs;
pub mod continuation_laws;
pub mod conversion_laws;
pub mod convert;
pub mod dataset;
pub mod dataset_laws;
pub mod datatype;
pub mod datatype_laws;
pub mod dense;
pub mod dense_laws;
pub mod earray;
pub mod file_laws;
pub mod filters;
pub mod fixup;
pub mod element_laws;
pub mod elements;
pub mod encode;
pub mod fheap;
pub mod fletcher;
pub mod gheap;
pub mod grid;
pub mod group;
pub mod group_laws;
pub mod group_write;
pub mod header;
pub mod heap_laws;
pub mod index_laws;
pub mod header_laws;
pub mod header_write;
pub mod link_laws;
pub mod lower;
pub mod lzf;
pub mod message_laws;
pub mod messages;
pub mod nbit;
pub mod node_laws;
pub mod number_laws;
pub mod object;
pub mod object_laws;
pub mod object_write;
pub mod order;
pub mod packing_laws;
pub mod parse_laws;
pub mod reader;
pub mod scaleoffset;
pub mod share;
pub mod share_laws;
pub mod select_laws;
pub mod selection_message_laws;
pub mod shuffle;
pub mod stands;
pub mod superblock;
pub mod szip;
pub mod szip_laws;
pub mod table_laws;
pub mod token_laws;
pub mod tree;
pub mod tree_laws;
pub mod v2;
pub mod value_laws;
pub mod vds;
pub mod vds_data;
pub mod vds_laws;
pub mod version_laws;
pub mod vlen_laws;
pub mod writer;

verus! {

/// HDF5 superblock signature.
pub const SIGNATURE: [u8; 8] = [0x89, 0x48, 0x44, 0x46, 0x0d, 0x0a, 0x1a, 0x0a];

/// Undefined 8-byte address / length.
pub const UNDEF: u64 = 0xffff_ffff_ffff_ffff;

/// Size of file offsets and lengths (bytes) used by the writer.
pub const SIZEOF_ADDR: usize = 8;

/// Default group leaf-node K (max 2K symbols per symbol-table node).
pub const GROUP_LEAF_K: u16 = 4;

/// Default group internal-node K (B-tree fan-out for group nodes).
pub const GROUP_INTERNAL_K: u16 = 16;

/// Default chunk B-tree K.
pub const CHUNK_K: u16 = 32;

/// The number that the bytes `s` denote, least significant byte first.
pub open spec fn le(s: Seq<u8>) -> nat
    decreases s.len(),
{
    if s.len() == 0 {
        0
    } else {
        s[0] as nat + 256 * le(s.skip(1))
    }
}

/// The `n` low bytes of `v`, least significant byte first.
pub open spec fn le_bytes(v: nat, n: nat) -> Seq<u8>
    decreases n,
{
    if n == 0 {
        Seq::empty()
    } else {
        seq![(v % 256) as u8] + le_bytes(v / 256, (n - 1) as nat)
    }
}

/// 256 to the power `n`.
pub open spec fn pow256(n: nat) -> nat
    decreases n,
{
    if n == 0 {
        1
    } else {
        256 * pow256((n - 1) as nat)
    }
}

pub proof fn lemma_le_bytes_len(v: nat, n: nat)
    ensures
        le_bytes(v, n).len() == n,
    decreases n,
{
    if n > 0 {
        lemma_le_bytes_len(v / 256, (n - 1) as nat);
    }
}

/// Reading back the `n` low bytes of a number that fits in them gives the number.
pub proof fn law_le_round_trip(v: nat, n: nat)
    requires
        v < pow256(n),
    ensures
        le(le_bytes(v, n)) == v,
        le_bytes(v, n).len() == n,
    decreases n,
{
    lemma_le_bytes_len(v, n);
    if n > 0 {
        let rest = le_bytes(v / 256, (n - 1) as nat);
        assert(v / 256 < pow256((n - 1) as nat));
        law_le_round_trip(v / 256, (n - 1) as nat);
        assert(le_bytes(v, n).skip(1) =~= rest);
    }
}

/// The value of a byte string is bounded by its width.
pub proof fn lemma_le_bound(s: Seq<u8>)
    ensures
        le(s) < pow256(s.len()),
    decreases s.len(),
{
    if s.len() > 0 {
        lemma_le_bound(s.skip(1));
    }
}

/// Writing the value of a byte string at its own width gives the bytes back.
pub proof fn law_le_bytes_of_le(s: Seq<u8>)
    ensures
        le_bytes(le(s), s.len()) == s,
    decreases s.len(),
{
    if s.len() > 0 {
        law_le_bytes_of_le(s.skip(1));
        assert(s =~= seq![s[0]] + s.skip(1));
        assert(le(s) % 256 == s[0]);
        assert(le(s) / 256 == le(s.skip(1)));
    }
}

/// The low bytes of a number depend only on its residue.
pub proof fn lemma_le_bytes_residue(v: nat, k: nat, n: nat)
    requires
        n <= k,
    ensures
        le_bytes(v % pow256(k), n) == le_bytes(v, n),
    decreases n,
{
    lemma_pow256_positive(k);
    if n > 0 {
        let p = pow256((k - 1) as nat);
        lemma_pow256_positive((k - 1) as nat);
        vstd::arithmetic::div_mod::lemma_mod_breakdown(v as int, 256, p as int);
        let w = v % pow256(k);
        assert(w == 256 * ((v / 256) % p) + v % 256);
        assert(w / 256 == (v / 256) % p);
        assert(w % 256 == v % 256);
        lemma_le_bytes_residue(v / 256, (k - 1) as nat, (n - 1) as nat);
        assert(le_bytes(w, n) =~= le_bytes(v, n));
    }
}

pub proof fn lemma_pow256_positive(n: nat)
    ensures
        pow256(n) > 0,
    decreases n,
{
    if n > 0 {
        lemma_pow256_positive((n - 1) as nat);
    }
}

pub proof fn lemma_pow256()
    ensures
        pow256(0) == 1,
        pow256(1) == 0x100,
        pow256(2) == 0x1_0000,
        pow256(3) == 0x100_0000,
        pow256(4) == 0x1_0000_0000,
        pow256(5) == 0x100_0000_0000,
        pow256(6) == 0x1_0000_0000_0000,
        pow256(7) == 0x100_0000_0000_0000,
        pow256(8) == 0x1_0000_0000_0000_0000,
{
    reveal_with_fuel(pow256, 9);
}

/// The text of the error that every read past the end of the data gives.
pub open spec fn eof_text() -> Seq<char> {
    "unexpected end of file"@
}

/// Whether `n` bytes can be read at `p`.
pub open spec fn readable(s: Seq<u8>, p: int, n: int) -> bool {
    0 <= p && 0 <= n && p + n <= s.len()
}

/// The number in the `n` bytes at `p`.
pub open spec fn le_at(s: Seq<u8>, p: int, n: int) -> nat {
    le(s.subrange(p, p + n))
}

/// The least multiple of 8 that is at least `n`.
pub open spec fn aligned8(n: int) -> int {
    (n + 7) / 8 * 8
}

/// Rounds `n` up to the next multiple of 8.
pub fn align8(n: usize) -> (r: usize)
    requires
        n + 7 <= usize::MAX,
    ensures
        r == aligned8(n as int),
        r % 8 == 0,
        n <= r < n + 8,
{
    (n + 7) / 8 * 8
}

/// Rounds `n` up to the next multiple of `a`.
pub fn align_up(n: u64, a: u64) -> (r: u64)
    requires
        a > 0,
        n + a - 1 <= u64::MAX,
    ensures
        r % a == 0,
        n <= r < n + a,
{
    let q: u64 = (n + (a - 1)) / a;
    proof {
        let m = n + a - 1;
        vstd::arithmetic::div_mod::lemma_fundamental_div_mod(m as int, a as int);
        vstd::arithmetic::div_mod::lemma_mod_multiples_basic(q as int, a as int);
        vstd::arithmetic::mul::lemma_mul_is_commutative(q as int, a as int);
        vstd::arithmetic::div_mod::lemma_mod_bound(m as int, a as int);
    }
    q * a
}

/// A little-endian byte writer that supports back-patching.
#[derive(Default)]
pub struct Buf {
    pub bytes: Vec<u8>,
}

impl View for Buf {
    type V = Seq<u8>;

    open spec fn view(&self) -> Seq<u8> {
        self.bytes@
    }
}

/// `s` with the bytes from `at` on replaced by `v`.
pub open spec fn patched(s: Seq<u8>, at: int, v: Seq<u8>) -> Seq<u8> {
    s.subrange(0, at) + v + s.subrange(at + v.len(), s.len() as int)
}

/// `n` zero bytes.
pub open spec fn zeroes(n: nat) -> Seq<u8> {
    Seq::new(n, |i: int| 0u8)
}

/// Appends the `n` low bytes of `v`.
pub fn push_le(bytes: &mut Vec<u8>, v: u64, n: usize)
    requires
        n <= 8,
    ensures
        final(bytes)@ == old(bytes)@ + le_bytes(v as nat, n as nat),
{
    let ghost start = bytes@;
    let mut rest: u64 = v;
    let mut i: usize = 0;
    assert(bytes@ + le_bytes(v as nat, n as nat) =~= start + le_bytes(v as nat, n as nat));
    while i < n
        invariant
            i <= n,
            bytes@ + le_bytes(rest as nat, (n - i) as nat) == start + le_bytes(v as nat, n as nat),
        decreases n - i,
    {
        let ghost before = bytes@;
        let b: u8 = (rest % 256) as u8;
        bytes.push(b);
        proof {
            let tail = le_bytes((rest / 256) as nat, (n - i - 1) as nat);
            assert(before.push(b) + tail =~= before + (seq![b] + tail));
        }
        rest = rest / 256;
        i += 1;
    }
    assert(bytes@ + le_bytes(rest as nat, 0) =~= bytes@);
}

impl Buf {
    pub fn new() -> (r: Self)
        ensures
            r@ == Seq::<u8>::empty(),
    {
        Buf { bytes: Vec::new() }
    }

    pub fn len(&self) -> (r: usize)
        ensures
            r == self@.len(),
    {
        self.bytes.len()
    }

    pub fn is_empty(&self) -> (r: bool)
        ensures
            r == (self@.len() == 0),
    {
        self.bytes.is_empty()
    }

    pub fn u8(&mut self, v: u8)
        ensures
            final(self)@ == old(self)@.push(v),
    {
        self.bytes.push(v);
    }

    pub fn u16(&mut self, v: u16)
        ensures
            final(self)@ == old(self)@ + le_bytes(v as nat, 2),
    {
        push_le(&mut self.bytes, v as u64, 2);
    }

    pub fn u32(&mut self, v: u32)
        ensures
            final(self)@ == old(self)@ + le_bytes(v as nat, 4),
    {
        push_le(&mut self.bytes, v as u64, 4);
    }

    pub fn u64(&mut self, v: u64)
        ensures
            final(self)@ == old(self)@ + le_bytes(v as nat, 8),
    {
        push_le(&mut self.bytes, v, 8);
    }

    pub fn addr(&mut self, v: u64)
        ensures
            final(self)@ == old(self)@ + le_bytes(v as nat, 8),
    {
        self.u64(v);
    }

    pub fn raw(&mut self, s: &[u8])
        ensures
            final(self)@ == old(self)@ + s@,
    {
        self.bytes.extend_from_slice(s);
        assert(self@ =~= old(self)@ + s@);
    }

    pub fn zeros(&mut self, n: usize)
        ensures
            final(self)@ == old(self)@ + zeroes(n as nat),
    {
        let mut i: usize = 0;
        assert(self@ =~= old(self)@ + zeroes(0));
        while i < n
            invariant
                i <= n,
                self@ == old(self)@ + zeroes(i as nat),
            decreases n - i,
        {
            self.bytes.push(0);
            i += 1;
            assert(self@ =~= old(self)@ + zeroes(i as nat));
        }
    }

    /// Pads with zeros to the next multiple of 8.
    pub fn pad8(&mut self)
        requires
            old(self)@.len() + 7 <= usize::MAX,
        ensures
            final(self)@ == old(self)@ + zeroes(
                (aligned8(old(self)@.len() as int) - old(self)@.len()) as nat,
            ),
            final(self)@.len() % 8 == 0,
    {
        let target: usize = align8(self.bytes.len());
        self.zeros(target - self.bytes.len());
    }

    fn patch_le(&mut self, at: usize, v: u64, n: usize)
        requires
            n <= 8,
            at + n <= old(self)@.len(),
        ensures
            final(self)@ == patched(old(self)@, at as int, le_bytes(v as nat, n as nat)),
    {
        let mut new_bytes: Vec<u8> = Vec::new();
        push_le(&mut new_bytes, v, n);
        proof {
            lemma_le_bytes_len(v as nat, n as nat);
            assert(new_bytes@ =~= le_bytes(v as nat, n as nat));
        }
        let total: usize = self.bytes.len();
        let mut i: usize = 0;
        while i < n
            invariant
                i <= n,
                at + n <= total,
                total == old(self)@.len(),
                new_bytes@.len() == n,
                self@.len() == old(self)@.len(),
                forall|k: int|
                    0 <= k < self@.len() ==> #[trigger] self@[k] == (if at <= k < at + i {
                        new_bytes@[k - at]
                    } else {
                        old(self)@[k]
                    }),
            decreases n - i,
        {
            self.bytes.set(at + i, new_bytes[i]);
            i += 1;
        }
        assert(self@ =~= patched(old(self)@, at as int, new_bytes@));
    }

    pub fn patch_u16(&mut self, at: usize, v: u16)
        requires
            at + 2 <= old(self)@.len(),
        ensures
            final(self)@ == patched(old(self)@, at as int, le_bytes(v as nat, 2)),
    {
        self.patch_le(at, v as u64, 2);
    }

    pub fn patch_u32(&mut self, at: usize, v: u32)
        requires
            at + 4 <= old(self)@.len(),
        ensures
            final(self)@ == patched(old(self)@, at as int, le_bytes(v as nat, 4)),
    {
        self.patch_le(at, v as u64, 4);
    }

    pub fn patch_u64(&mut self, at: usize, v: u64)
        requires
            at + 8 <= old(self)@.len(),
        ensures
            final(self)@ == patched(old(self)@, at as int, le_bytes(v as nat, 8)),
    {
        self.patch_le(at, v, 8);
    }
}

/// A little-endian byte reader over an in-memory file image.
pub struct Cursor<'a> {
    pub data: &'a [u8],
    pub pos: usize,
}

/// What a read of `n` bytes at the position of `c` gives: on success the value
/// `v` and a position `n` further on, past the end the end-of-file error and an
/// unmoved position.
pub open spec fn read_result<T>(
    c: Cursor,
    after: Cursor,
    n: int,
    r: Result<T, Error>,
    v: T,
) -> bool {
    &&& after.data@ == c.data@
    &&& readable(c.data@, c.pos as int, n) ==> r == Ok::<T, Error>(v) && after.pos == c.pos + n
    &&& !readable(c.data@, c.pos as int, n) ==> (r matches Err(e) && e@ == eof_text()) && after.pos
        == c.pos
}

/// `s` without its first `n` bytes, as far as it has them.
pub open spec fn dropped(s: Seq<u8>, n: int) -> Seq<u8> {
    if n <= s.len() {
        s.skip(n)
    } else {
        Seq::empty()
    }
}

/// The number in the first `n` bytes of `s`, and what follows them.
pub open spec fn taken_uint(s: Seq<u8>, n: nat) -> Result<(nat, Seq<u8>), Seq<char>> {
    if s.len() < n {
        Err(eof_text())
    } else {
        Ok((le(s.take(n as int)), s.skip(n as int)))
    }
}

/// The number in the first `n` bytes of `s`, where a number may have so many.
pub open spec fn taken_sized(s: Seq<u8>, n: nat) -> Result<(nat, Seq<u8>), Seq<char>> {
    if n > 8 {
        Err("integer wider than 8 bytes"@)
    } else if n == 0 {
        Ok((0, s))
    } else {
        taken_uint(s, n)
    }
}

/// The first `n` bytes of `s`, and what follows them.
pub open spec fn taken_bytes(s: Seq<u8>, n: nat) -> Result<(Seq<u8>, Seq<u8>), Seq<char>> {
    if s.len() < n {
        Err(eof_text())
    } else {
        Ok((s.take(n as int), s.skip(n as int)))
    }
}

/// Whether reading a number came out as `s` says, with `after` still to be read.
pub open spec fn read_uint_as(
    r: Result<u64, Error>,
    after: Seq<u8>,
    s: Result<(nat, Seq<u8>), Seq<char>>,
) -> bool {
    match (r, s) {
        (Ok(v), Ok((w, rest))) => v == w && after == rest,
        (Err(e), Err(m)) => e@ == m,
        _ => false,
    }
}

/// The same for bytes.
pub open spec fn read_bytes_as(
    r: Result<&[u8], Error>,
    after: Seq<u8>,
    s: Result<(Seq<u8>, Seq<u8>), Seq<char>>,
) -> bool {
    match (r, s) {
        (Ok(v), Ok((w, rest))) => v@ == w && after == rest,
        (Err(e), Err(m)) => e@ == m,
        _ => false,
    }
}

impl<'a> Cursor<'a> {
    /// What is still to be read.
    pub open spec fn rest(self) -> Seq<u8> {
        if self.pos <= self.data@.len() {
            self.data@.skip(self.pos as int)
        } else {
            Seq::empty()
        }
    }

    /// Whether the position is not past the end of the data. It then follows from what
    /// is still to be read.
    pub open spec fn within(self) -> bool {
        self.pos <= self.data@.len()
    }

    /// Reads a number of `n` bytes.
    pub fn next_uint(&mut self, n: usize) -> (r: Result<u64, Error>)
        requires
            1 <= n <= 8,
        ensures
            final(self).data@ == old(self).data@,
            old(self).within() ==> final(self).within(),
            read_uint_as(r, final(self).rest(), taken_uint(old(self).rest(), n as nat)),
    {
        let ghost before = self.rest();
        let total: usize = self.data.len();
        let r = self.uint(n);
        proof {
            let (d, p) = (old(self).data@, old(self).pos as int);
            if readable(d, p, n as int) {
                assert(d.subrange(p, p + n) =~= before.take(n as int));
                assert(self.rest() =~= before.skip(n as int));
                lemma_le_bound(before.take(n as int));
                lemma_pow256();
            }
        }
        r
    }

    /// Reads `n` bytes.
    pub fn next_bytes(&mut self, n: usize) -> (r: Result<&'a [u8], Error>)
        ensures
            final(self).data@ == old(self).data@,
            old(self).within() ==> final(self).within(),
            read_bytes_as(r, final(self).rest(), taken_bytes(old(self).rest(), n as nat)),
    {
        let ghost before = self.rest();
        let total: usize = self.data.len();
        if n == 0 {
            let r = vstd::slice::slice_subrange(self.data, 0, 0);
            assert(before.take(0) =~= r@);
            assert(before.skip(0) =~= before);
            return Ok(r);
        }
        let r = self.take(n);
        proof {
            let (d, p) = (old(self).data@, old(self).pos as int);
            if readable(d, p, n as int) {
                assert(d.subrange(p, p + n) =~= before.take(n as int));
                assert(self.rest() =~= before.skip(n as int));
            }
        }
        r
    }

    /// Reads a number of a stored width. A width of zero takes no bytes.
    pub fn next_sized(&mut self, n: usize) -> (r: Result<u64, Error>)
        ensures
            final(self).data@ == old(self).data@,
            old(self).within() ==> final(self).within(),
            read_uint_as(r, final(self).rest(), taken_sized(old(self).rest(), n as nat)),
    {
        if n > 8 {
            return Err(Error::new("integer wider than 8 bytes"));
        }
        if n == 0 {
            return Ok(0);
        }
        self.next_uint(n)
    }

    /// Passes over `n` bytes, up to the end of the data at most.
    pub fn pass(&mut self, n: usize)
        ensures
            final(self).data@ == old(self).data@,
            old(self).within() ==> final(self).within(),
            final(self).rest() == dropped(old(self).rest(), n as int),
    {
        let ghost before = self.rest();
        let total: usize = self.data.len();
        let left: usize = self.remaining();
        self.skip(
            if n <= left {
                n
            } else {
                left
            },
        );
        assert(self.rest() =~= dropped(before, n as int));
    }

    pub fn new(data: &'a [u8]) -> (r: Self)
        ensures
            r.data@ == data@,
            r.pos == 0,
    {
        Cursor { data, pos: 0 }
    }

    pub fn at(data: &'a [u8], pos: usize) -> (r: Self)
        ensures
            r.data@ == data@,
            r.pos == pos,
    {
        Cursor { data, pos }
    }

    pub fn seek(&mut self, pos: usize)
        ensures
            final(self).data@ == old(self).data@,
            final(self).pos == pos,
    {
        self.pos = pos;
    }

    pub fn remaining(&self) -> (r: usize)
        ensures
            r == (if self.pos <= self.data@.len() {
                self.data@.len() - self.pos
            } else {
                0
            }),
    {
        if self.pos <= self.data.len() {
            self.data.len() - self.pos
        } else {
            0
        }
    }

    pub fn eof(&self) -> (r: bool)
        ensures
            r == (self.pos >= self.data@.len()),
    {
        self.pos >= self.data.len()
    }

    pub fn u8(&mut self) -> (r: Result<u8, Error>)
        ensures
            read_result(*old(self), *final(self), 1, r, old(self).data@[old(self).pos as int]),
    {
        if self.pos >= self.data.len() {
            return Err(Error::new("unexpected end of file"));
        }
        let b: u8 = self.data[self.pos];
        self.pos += 1;
        Ok(b)
    }

    pub fn u16(&mut self) -> (r: Result<u16, Error>)
        ensures
            read_result(
                *old(self),
                *final(self),
                2,
                r,
                le_at(old(self).data@, old(self).pos as int, 2) as u16,
            ),
    {
        let s = self.take(2)?;
        proof {
            reveal_with_fuel(le, 3);
            lemma_le_small(s@);
        }
        Ok(s[0] as u16 + 256 * (s[1] as u16))
    }

    pub fn u32(&mut self) -> (r: Result<u32, Error>)
        ensures
            read_result(
                *old(self),
                *final(self),
                4,
                r,
                le_at(old(self).data@, old(self).pos as int, 4) as u32,
            ),
    {
        let s = self.take(4)?;
        proof {
            lemma_le_small(s@);
        }
        Ok(
            s[0] as u32 + 0x100 * (s[1] as u32) + 0x1_0000 * (s[2] as u32) + 0x100_0000 * (
            s[3] as u32),
        )
    }

    pub fn u64(&mut self) -> (r: Result<u64, Error>)
        ensures
            read_result(
                *old(self),
                *final(self),
                8,
                r,
                le_at(old(self).data@, old(self).pos as int, 8) as u64,
            ),
    {
        let s = self.take(8)?;
        Ok(uint_of(s))
    }

    pub fn addr(&mut self) -> (r: Result<u64, Error>)
        ensures
            read_result(
                *old(self),
                *final(self),
                8,
                r,
                le_at(old(self).data@, old(self).pos as int, 8) as u64,
            ),
    {
        self.u64()
    }

    /// Reads an integer of `size` bytes. No number of the format is wider than
    /// eight bytes: a wider one is refused.
    pub fn uint(&mut self, size: usize) -> (r: Result<u64, Error>)
        ensures
            size <= 8 ==> read_result(
                *old(self),
                *final(self),
                size as int,
                r,
                le_at(old(self).data@, old(self).pos as int, size as int) as u64,
            ),
            size > 8 ==> (r matches Err(e) && e@ == "integer wider than 8 bytes"@)
                && final(self).data@ == old(self).data@ && final(self).pos == old(self).pos,
    {
        if size > 8 {
            return Err(Error::new("integer wider than 8 bytes"));
        }
        let s = self.take(size)?;
        Ok(uint_of(s))
    }

    pub fn take(&mut self, n: usize) -> (r: Result<&'a [u8], Error>)
        ensures
            final(self).data@ == old(self).data@,
            readable(old(self).data@, old(self).pos as int, n as int) ==> (r matches Ok(s) && s@
                == old(self).data@.subrange(old(self).pos as int, old(self).pos + n))
                && final(self).pos == old(self).pos + n,
            !readable(old(self).data@, old(self).pos as int, n as int) ==> (r matches Err(e) && e@
                == eof_text()) && final(self).pos == old(self).pos,
    {
        if self.pos > self.data.len() || n > self.data.len() - self.pos {
            return Err(Error::new("unexpected end of file"));
        }
        let s = vstd::slice::slice_subrange(self.data, self.pos, self.pos + n);
        self.pos = self.pos + n;
        Ok(s)
    }

    /// Moves `n` bytes on, without looking at them; the position stays within
    /// the range of the address type.
    pub fn skip(&mut self, n: usize)
        ensures
            final(self).data@ == old(self).data@,
            final(self).pos == (if old(self).pos + n <= usize::MAX {
                old(self).pos + n
            } else {
                usize::MAX as int
            }),
    {
        self.pos = self.pos.saturating_add(n);
    }

    /// Aligns the current position up to a multiple of 8.
    pub fn align8(&mut self)
        requires
            old(self).pos + 7 <= usize::MAX,
        ensures
            final(self).data@ == old(self).data@,
            final(self).pos == aligned8(old(self).pos as int),
    {
        self.pos = align8(self.pos);
    }
}

pub proof fn lemma_le_small(s: Seq<u8>)
    ensures
        s.len() == 0 ==> le(s) == 0,
        s.len() == 1 ==> le(s) == s[0],
        s.len() == 2 ==> le(s) == s[0] + 0x100 * s[1],
        s.len() == 4 ==> le(s) == s[0] + 0x100 * s[1] + 0x1_0000 * s[2] + 0x100_0000 * s[3],
{
    reveal_with_fuel(le, 5);
    if s.len() == 4 {
        assert(s.skip(1).skip(1).skip(1).skip(1).len() == 0);
    }
}

/// The number that at most eight bytes denote.
pub fn uint_of(s: &[u8]) -> (r: u64)
    requires
        s@.len() <= 8,
    ensures
        r == le(s@),
{
    let mut v: u64 = 0;
    let n: usize = s.len();
    let mut i: usize = n;
    proof {
        lemma_pow256();
    }
    assert(s@.skip(n as int) =~= Seq::<u8>::empty());
    while i > 0
        invariant
            i <= n <= 8,
            n == s@.len(),
            v == le(s@.skip(i as int)),
            v < pow256((n - i) as nat),
        decreases i,
    {
        i -= 1;
        proof {
            assert(s@.skip(i as int).skip(1) =~= s@.skip(i + 1));
            lemma_le_bound(s@.skip(i as int));
            lemma_pow256();
        }
        v = v * 256 + s[i] as u64;
    }
    assert(s@.skip(0) =~= s@);
    v
}

} // verus!
