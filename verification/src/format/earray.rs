//! Extensible arrays: an index block, data blocks whose sizes double, and super blocks
//! that refer to the larger ones.

use vstd::prelude::*;

use crate::error::Error;
use crate::format::bits::{
    lemma_pow2_monotone, lemma_pow2_positive, lemma_pow2_sum, lemma_pow2_values, pow2,
};
use crate::format::fheap::part;
use crate::format::gheap::{cursor_at, is_signature, rest_at};
use crate::format::v2::{
    field, lemma_field_bound, lemma_log2, lemma_one_byte, lemma_tail_fields, log2_floor, log2_gen,
    log2_of2, power2, trailing,
};
use crate::format::{dropped, eof_text, le_at, taken_bytes, taken_sized, taken_uint, Cursor, UNDEF};
use crate::text::{decimal, with_number};

verus! {

/// What an array header says.
pub struct ArrayInfo {
    pub elem: nat,
    pub bits: nat,
    pub in_index: nat,
    pub min_elems: nat,
    pub min_blocks: nat,
    pub page_bits: nat,
    pub index: u64,
}

impl ArrayInfo {
    /// Whether the block sizes are possible.
    pub open spec fn sound(self) -> bool {
        self.min_elems > 0 && trailing(self.min_elems) <= self.bits
    }

    /// The number of super blocks.
    pub open spec fn groups(self) -> nat {
        (1 + self.bits - trailing(self.min_elems)) as nat
    }

    /// The number of data blocks of the super block `u`.
    pub open spec fn blocks(self, u: nat) -> nat {
        pow2(u / 2)
    }

    /// The number of elements in each of them.
    pub open spec fn per_block(self, u: nat) -> nat {
        pow2((u + 1) / 2) * self.min_elems
    }

    /// The number of elements before the super block `u`.
    pub open spec fn elems_before(self, u: nat) -> nat
        decreases u,
    {
        if u == 0 {
            0
        } else {
            self.elems_before((u - 1) as nat) + self.blocks((u - 1) as nat) * self.per_block(
                (u - 1) as nat,
            )
        }
    }

    /// The number of data blocks before the super block `u`.
    pub open spec fn blocks_before(self, u: nat) -> nat
        decreases u,
    {
        if u == 0 {
            0
        } else {
            self.blocks_before((u - 1) as nat) + self.blocks((u - 1) as nat)
        }
    }

    /// The super block of the element `x`, counted without those in the index block.
    pub open spec fn group_of(self, x: nat) -> nat {
        log2_floor(x / self.min_elems + 1)
    }

    /// The number of super blocks whose data blocks the index block refers to.
    pub open spec fn direct_groups(self) -> nat {
        2 * trailing(self.min_blocks)
    }

    /// The width of a block offset.
    pub open spec fn off_size(self) -> nat {
        (self.bits + 7) / 8
    }

    /// The size of the page bitmap of a data block of `n` elements.
    pub open spec fn bitmap(self, n: nat) -> nat {
        if n <= pow2(self.page_bits) {
            0
        } else {
            (n / pow2(self.page_bits) + 7) / 8
        }
    }
}

proof fn lemma_elems_before(h: ArrayInfo, u: nat)
    ensures
        h.elems_before(u) == h.min_elems * (pow2(u) - 1),
    decreases u,
{
    if u > 0 {
        let v = (u - 1) as nat;
        lemma_elems_before(h, v);
        lemma_pow2_sum(v / 2, (v + 1) / 2);
        assert(v / 2 + (v + 1) / 2 == v);
        let (p, q, m) = (pow2(v / 2) as int, pow2((v + 1) / 2) as int, h.min_elems as int);
        assert(p * (q * m) == m * (p * q)) by (nonlinear_arith);
        let w = pow2(v) as int;
        assert(m * (w - 1) + m * w == m * (2 * w - 1)) by (nonlinear_arith);
    } else {
        assert(h.min_elems * (pow2(0) - 1) == 0) by (nonlinear_arith)
            requires
                pow2(0) == 1,
        ;
    }
}

/// The super block that is computed for an element holds it, in one of its data
/// blocks.
pub proof fn law_group_holds_element(h: ArrayInfo, x: nat)
    requires
        h.min_elems > 0,
    ensures
        h.elems_before(h.group_of(x)) <= x < h.elems_before(h.group_of(x) + 1),
        (x - h.elems_before(h.group_of(x))) as nat / h.per_block(h.group_of(x)) < h.blocks(
            h.group_of(x),
        ),
{
    let u = h.group_of(x);
    let m = h.min_elems;
    lemma_log2(x / m + 1);
    lemma_elems_before(h, u);
    lemma_elems_before(h, u + 1);
    let (p, q, d) = (pow2(u) as int, pow2(u + 1) as int, (x / m) as int);
    assert(m * (p - 1) <= x < m * (q - 1)) by (nonlinear_arith)
        requires
            m > 0,
            d == x as int / m as int,
            p - 1 <= d,
            d < q - 1,
    ;
    let w = (x - h.elems_before(u)) as nat;
    let (n, b) = (h.per_block(u), h.blocks(u));
    assert(w < b * n);
    lemma_pow2_positive((u + 1) / 2);
    assert(n > 0) by (nonlinear_arith)
        requires
            n == pow2((u + 1) / 2) * m,
            pow2((u + 1) / 2) > 0,
            m > 0,
    ;
    assert(w / n < b) by (nonlinear_arith)
        requires
            w < b * n,
            n > 0,
    ;
}

/// The array header that starts with `s`.
pub open spec fn array_parsed(s: Seq<u8>) -> Result<ArrayInfo, Seq<char>> {
    if s.len() < 4 {
        Err(eof_text())
    } else if s.take(4) != seq![69u8, 65u8, 72u8, 68u8] {
        Err("bad EAHD signature"@)
    } else if s.len() < 5 {
        Err(eof_text())
    } else if s[4] != 0 {
        Err("unsupported extensible array version "@ + decimal(s[4] as nat))
    } else if s.len() < 72 {
        Err(eof_text())
    } else {
        let h = ArrayInfo {
            elem: s[6] as nat,
            bits: s[7] as nat,
            in_index: s[8] as nat,
            min_elems: s[9] as nat,
            min_blocks: s[10] as nat,
            page_bits: s[11] as nat,
            index: le_at(s, 60, 8) as u64,
        };
        if h.sound() {
            Ok(h)
        } else {
            Err("bad extensible array geometry"@)
        }
    }
}

/// The start of a block: its signature, and what is common to all of them.
pub open spec fn block_head(data: Seq<u8>, pos: int, sig: Seq<u8>, error: Seq<char>) -> Result<
    Seq<u8>,
    Seq<char>,
> {
    match taken_bytes(rest_at(data, pos), 4) {
        Err(e) => Err(e),
        Ok((b, r)) => if b != sig {
            Err(error)
        } else {
            match taken_bytes(r, 10) {
                Err(e) => Err(e),
                Ok((head, rest)) => Ok(rest),
            }
        },
    }
}

/// The element `i` of the data block at `addr`, which holds `n` elements.
pub open spec fn block_element(
    data: Seq<u8>,
    base: u64,
    h: ArrayInfo,
    addr: u64,
    n: nat,
    i: nat,
) -> Result<Seq<u8>, Seq<char>> {
    match block_head(data, base + addr, seq![69u8, 65u8, 68u8, 66u8], "bad EADB signature"@) {
        Err(e) => Err(e),
        Ok(r) => match taken_sized(r, h.off_size()) {
            Err(e) => Err(e),
            Ok((off, r2)) => {
                let page = pow2(h.page_bits);
                let at = if n <= page {
                    i * h.elem
                } else {
                    4 + (i / page) * (page * h.elem + 4) + (i % page) * h.elem
                };
                part(r2, at as int, h.elem as int, "extensible array element out of bounds"@)
            },
        },
    }
}

/// The element that a reference to a data block leads to.
pub open spec fn referred(
    data: Seq<u8>,
    base: u64,
    h: ArrayInfo,
    reference: Result<(nat, Seq<u8>), Seq<char>>,
    n: nat,
    i: nat,
) -> Result<Option<Seq<u8>>, Seq<char>> {
    match reference {
        Err(e) => Err(e),
        Ok((addr, r)) => if addr == UNDEF {
            Ok(None)
        } else {
            match block_element(data, base, h, addr as u64, n, i) {
                Err(e) => Err(e),
                Ok(b) => Ok(Some(b)),
            }
        },
    }
}

/// The element number `idx`: nothing where its block was not stored.
pub open spec fn array_element(data: Seq<u8>, base: u64, h: ArrayInfo, idx: nat) -> Result<
    Option<Seq<u8>>,
    Seq<char>,
> {
    if h.index == UNDEF {
        Ok(None)
    } else {
        match block_head(
            data,
            base + h.index,
            seq![69u8, 65u8, 73u8, 66u8],
            "bad EAIB signature"@,
        ) {
            Err(e) => Err(e),
            Ok(elems) => if h.min_blocks == 0 {
                Err("bad extensible array geometry"@)
            } else if idx < h.in_index {
                match part(
                    elems,
                    (idx * h.elem) as int,
                    h.elem as int,
                    "extensible array element out of bounds"@,
                ) {
                    Err(e) => Err(e),
                    Ok(b) => Ok(Some(b)),
                }
            } else {
                let x = (idx - h.in_index) as nat;
                let u = h.group_of(x);
                let within = (x - h.elems_before(u)) as nat;
                let n = h.per_block(u);
                let refs = h.in_index * h.elem;
                if x / h.min_elems >= u64::MAX || u >= h.groups() {
                    Err("extensible array index out of range"@)
                } else if u < h.direct_groups() {
                    referred(
                        data,
                        base,
                        h,
                        taken_uint(
                            dropped(elems, (refs + (h.blocks_before(u) + within / n) * 8) as int),
                            8,
                        ),
                        n,
                        within % n,
                    )
                } else {
                    match taken_uint(
                        dropped(
                            elems,
                            refs + 2 * (h.min_blocks - 1) * 8 + (u - h.direct_groups()) * 8,
                        ),
                        8,
                    ) {
                        Err(e) => Err(e),
                        Ok((addr, r)) => if addr == UNDEF {
                            Ok(None)
                        } else {
                            match block_head(
                                data,
                                (base + addr) as int,
                                seq![69u8, 65u8, 83u8, 66u8],
                                "bad EASB signature"@,
                            ) {
                                Err(e) => Err(e),
                                Ok(r) => match taken_sized(r, h.off_size()) {
                                    Err(e) => Err(e),
                                    Ok((off, r2)) => referred(
                                        data,
                                        base,
                                        h,
                                        taken_uint(
                                            dropped(
                                                r2,
                                                (h.blocks(u) * h.bitmap(n) + (within / n)
                                                    * 8) as int,
                                            ),
                                            8,
                                        ),
                                        n,
                                        within % n,
                                    ),
                                },
                            }
                        },
                    }
                }
            },
        }
    }
}

/// An extensible array of a file image.
#[derive(Debug)]
pub struct ExtensibleArray<'a> {
    pub data: &'a [u8],
    pub base: u64,
    pub elmt_size: u8,
    pub max_nelmts_bits: u8,
    pub idx_blk_elmts: u8,
    pub data_blk_min_elmts: u8,
    pub sup_blk_min_data_ptrs: u8,
    pub max_dblk_page_nelmts_bits: u8,
    pub index_blk_addr: u64,
}

impl<'a> View for ExtensibleArray<'a> {
    type V = ArrayInfo;

    open spec fn view(&self) -> ArrayInfo {
        ArrayInfo {
            elem: self.elmt_size as nat,
            bits: self.max_nelmts_bits as nat,
            in_index: self.idx_blk_elmts as nat,
            min_elems: self.data_blk_min_elmts as nat,
            min_blocks: self.sup_blk_min_data_ptrs as nat,
            page_bits: self.max_dblk_page_nelmts_bits as nat,
            index: self.index_blk_addr,
        }
    }
}

/// Passes over `n` bytes.
pub(crate) fn pass_far(c: &mut Cursor, n: u128)
    ensures
        final(c).data@ == old(c).data@,
        final(c).rest() == dropped(old(c).rest(), n as int),
{
    let left: usize = c.remaining();
    if n <= left as u128 {
        c.pass(n as usize);
    } else {
        let end: usize = c.data.len();
        c.seek(end);
        assert(c.rest() =~= Seq::<u8>::empty());
    }
}

/// Copies `n` bytes that stand `at` bytes ahead.
fn copy_ahead(c: &Cursor, at: u128, n: u8, error: &str) -> (r: Result<Vec<u8>, Error>)
    requires
        at <= 0x1000_0000_0000_0000_0000_0000_0000,
    ensures
        crate::error::same_bytes(r, part(c.rest(), at as int, n as int, error@)),
{
    let left: usize = c.remaining();
    if at + n as u128 > left as u128 {
        return Err(Error::new(error));
    }
    if n == 0 {
        let r: Vec<u8> = Vec::new();
        assert(r@ =~= c.rest().subrange(at as int, at as int));
        return Ok(r);
    }
    let total: usize = c.data.len();
    let from: usize = c.pos + at as usize;
    let r = vstd::slice::slice_to_vec(
        vstd::slice::slice_subrange(c.data, from, from + n as usize),
    );
    assert(r@ =~= c.rest().subrange(at as int, at + n));
    Ok(r)
}

/// Whether a lookup came out as `s` says.
pub open spec fn element_as(
    r: Result<Option<Vec<u8>>, Error>,
    s: Result<Option<Seq<u8>>, Seq<char>>,
) -> bool {
    match (r, s) {
        (Ok(None), Ok(None)) => true,
        (Ok(Some(v)), Ok(Some(w))) => v@ == w,
        (Err(e), Err(m)) => e@ == m,
        _ => false,
    }
}

impl<'a> ExtensibleArray<'a> {
    /// Reads the header at an address.
    pub fn parse(data: &'a [u8], base: u64, addr: u64) -> (r: Result<Self, Error>)
        ensures
            match (r, array_parsed(rest_at(data@, base + addr))) {
                (Ok(h), Ok(info)) => h@ == info && h.data@ == data@ && h.base == base,
                (Err(e), Err(m)) => e@ == m,
                _ => false,
            },
    {
        let mut c = cursor_at(data, base, addr);
        let ghost s = c.rest();
        let sig = c.next_bytes(4)?;
        if !is_signature(sig, 69, 65, 72, 68) {
            return Err(Error::new("bad EAHD signature"));
        }
        let version: u64 = c.next_uint(1)?;
        proof {
            lemma_one_byte(s, 4);
        }
        if version != 0 {
            return Err(
                Error::from_text(with_number("unsupported extensible array version ", version)),
            );
        }
        let h = c.next_bytes(67)?;
        proof {
            assert(s.skip(4).skip(1) =~= s.skip(5));
            lemma_tail_fields(s, 5, 67);
            lemma_field_bound(h@, 55, 8);
        }
        let (min_elems, min_blocks): (u8, u8) = (h[4], h[5]);
        if min_elems == 0 || log2_of2(min_elems as u64) > h[2] as u32 {
            return Err(Error::new("bad extensible array geometry"));
        }
        Ok(
            ExtensibleArray {
                data,
                base,
                elmt_size: h[1],
                max_nelmts_bits: h[2],
                idx_blk_elmts: h[3],
                data_blk_min_elmts: min_elems,
                sup_blk_min_data_ptrs: min_blocks,
                max_dblk_page_nelmts_bits: h[6],
                index_blk_addr: field(h, 55, 8),
            },
        )
    }
}

/// Reads the start of a block; `third` and `fourth` are the last two letters of its
/// signature.
fn open_block<'a>(
    data: &'a [u8],
    base: u64,
    addr: u64,
    third: u8,
    fourth: u8,
    error: &str,
) -> (r: Result<Cursor<'a>, Error>)
    ensures
        match (r, block_head(data@, base + addr, seq![69u8, 65u8, third, fourth], error@)) {
            (Ok(c), Ok(rest)) => c.data@ == data@ && c.rest() == rest,
            (Err(e), Err(m)) => e@ == m,
            _ => false,
        },
{
    let mut c = cursor_at(data, base, addr);
    let sig = c.next_bytes(4)?;
    if !is_signature(sig, 69, 65, third, fourth) {
        return Err(Error::new(error));
    }
    let _head = c.next_bytes(10)?;
    Ok(c)
}

/// What is needed of the super block of an element.
struct Group {
    number: u32,
    blocks: u64,
    blocks_before: u64,
    per_block: u64,
    block: u64,
    place: u64,
}

impl<'a> ExtensibleArray<'a> {
    /// The number of elements in a page of a data block of `n` elements, where it has
    /// pages.
    fn page_elems(&self, n: u64) -> (r: Option<u64>)
        requires
            n < 0x200_0000_0000,
        ensures
            match r {
                Some(p) => p == pow2(self@.page_bits) && p < n,
                None => n <= pow2(self@.page_bits),
            },
    {
        let bits: u32 = self.max_dblk_page_nelmts_bits as u32;
        proof {
            lemma_pow2_values();
            reveal_with_fuel(pow2, 10);
            lemma_pow2_sum(32, 9);
            assert(0x1_0000_0000 * 0x200 == 0x200_0000_0000) by (nonlinear_arith);
            if bits >= 41 {
                lemma_pow2_monotone(41, bits as nat);
            }
        }
        if bits >= 41 {
            return None;
        }
        let page: u64 = power2(bits);
        if n <= page {
            None
        } else {
            Some(page)
        }
    }

    fn read_dblock_element(&self, addr: u64, n: u64, i: u64) -> (r: Result<Vec<u8>, Error>)
        requires
            i < n < 0x200_0000_0000,
        ensures
            crate::error::same_bytes(
                r,
                block_element(self.data@, self.base, self@, addr, n as nat, i as nat),
            ),
    {
        let mut c = open_block(self.data, self.base, addr, 68, 66, "bad EADB signature")?;
        let _off: u64 = c.next_sized((self.max_nelmts_bits as usize + 7) / 8)?;
        let size: u8 = self.elmt_size;
        let at: u128 = match self.page_elems(n) {
            None => {
                assert(i * size <= 0x200_0000_0000 * 0xff) by (nonlinear_arith)
                    requires
                        0 <= i <= 0x200_0000_0000,
                        0 <= size <= 0xff,
                ;
                i as u128 * size as u128
            },
            Some(page) => {
                proof {
                    lemma_pow2_positive(self@.page_bits);
                }
                let (q, m): (u64, u64) = (i / page, i % page);
                assert(q <= i && m <= i) by (nonlinear_arith)
                    requires
                        page >= 1,
                        i >= 0,
                        q == i / page,
                        m == i % page,
                ;
                assert(page * size <= 0x200_0000_0000 * 0xff && m * size <= 0x200_0000_0000 * 0xff)
                    by (nonlinear_arith)
                    requires
                        0 <= page <= 0x200_0000_0000,
                        0 <= m <= 0x200_0000_0000,
                        0 <= size <= 0xff,
                ;
                let stride: u128 = page as u128 * size as u128 + 4;
                assert(q * stride <= 0x200_0000_0000 * 0x2_0000_0000_0000) by (nonlinear_arith)
                    requires
                        0 <= q <= 0x200_0000_0000,
                        0 <= stride <= 0x2_0000_0000_0000,
                ;
                4 + q as u128 * stride + m as u128 * size as u128
            },
        };
        copy_ahead(&c, at, size, "extensible array element out of bounds")
    }

    /// Follows the reference to a data block that comes next.
    fn follow(&self, c: &mut Cursor, n: u64, i: u64) -> (r: Result<Option<Vec<u8>>, Error>)
        requires
            i < n < 0x200_0000_0000,
        ensures
            element_as(
                r,
                referred(
                    self.data@,
                    self.base,
                    self@,
                    taken_uint(old(c).rest(), 8),
                    n as nat,
                    i as nat,
                ),
            ),
    {
        let addr: u64 = c.next_uint(8)?;
        if addr == UNDEF {
            return Ok(None);
        }
        let b = self.read_dblock_element(addr, n, i)?;
        Ok(Some(b))
    }

    /// Finds the super block of the element `x`.
    fn group(&self, x: u64) -> (r: Group)
        requires
            self@.sound(),
            x as nat / self@.min_elems < u64::MAX,
        ensures
            r.number == self@.group_of(x as nat),
            r.number <= 63,
            r.blocks == self@.blocks(r.number as nat),
            r.blocks_before == self@.blocks_before(r.number as nat),
            r.per_block == self@.per_block(r.number as nat),
            r.block == (x - self@.elems_before(r.number as nat)) as nat / self@.per_block(
                r.number as nat,
            ),
            r.place == (x - self@.elems_before(r.number as nat)) as nat % self@.per_block(
                r.number as nat,
            ),
            r.place < r.per_block < 0x200_0000_0000,
            r.block < r.blocks <= 0x8000_0000,
            r.blocks_before <= 64 * 0x8000_0000,
    {
        let ghost h = self@;
        let m: u64 = self.data_blk_min_elmts as u64;
        let u: u32 = log2_gen(x / m + 1);
        proof {
            law_group_holds_element(h, x as nat);
            lemma_elems_before(h, u as nat);
            lemma_pow2_values();
            lemma_pow2_monotone((u / 2) as nat, 31);
            lemma_pow2_monotone(((u + 1) / 2) as nat, 32);
            assert(pow2(31) == 0x8000_0000) by {
                reveal_with_fuel(pow2, 2);
            }
            lemma_pow2_positive(((u + 1) / 2) as nat);
        }
        let blocks: u64 = power2(u / 2);
        let half: u64 = power2((u + 1) / 2);
        assert(0 < half * m <= 0x1_0000_0000 * 0xff) by (nonlinear_arith)
            requires
                0 < half <= 0x1_0000_0000,
                0 < m <= 0xff,
        ;
        let per_block: u64 = half * m;
        let mut before: u64 = 0;
        let mut v: u32 = 0;
        while v < u
            invariant
                v <= u <= 63,
                before == h.blocks_before(v as nat),
                before <= v * 0x8000_0000,
                pow2(31) == 0x8000_0000,
            decreases u - v,
        {
            proof {
                lemma_pow2_monotone((v / 2) as nat, 31);
            }
            before = before + power2(v / 2);
            v += 1;
        }
        let full: u64 = power2(u);
        assert(m * (full - 1) >= 0) by (nonlinear_arith)
            requires
                m > 0,
                full >= 1,
        ;
        let within: u64 = x - m * (full - 1);
        Group {
            number: u,
            blocks,
            blocks_before: before,
            per_block,
            block: within / per_block,
            place: within % per_block,
        }
    }

    /// Fetches the element number `idx`, nothing where its block was not stored.
    pub fn element(&self, idx: u64) -> (r: Result<Option<Vec<u8>>, Error>)
        requires
            self@.sound(),
        ensures
            element_as(r, array_element(self.data@, self.base, self@, idx as nat)),
    {
        let ghost h = self@;
        if self.index_blk_addr == UNDEF {
            return Ok(None);
        }
        let mut c = open_block(
            self.data,
            self.base,
            self.index_blk_addr,
            73,
            66,
            "bad EAIB signature",
        )?;
        if self.sup_blk_min_data_ptrs == 0 {
            return Err(Error::new("bad extensible array geometry"));
        }
        let size: u64 = self.elmt_size as u64;
        let in_index: u64 = self.idx_blk_elmts as u64;
        assert(in_index * size <= 0xff * 0xff) by (nonlinear_arith)
            requires
                0 <= in_index <= 0xff,
                0 <= size <= 0xff,
        ;
        if idx < in_index {
            assert(idx * size <= 0xff * 0xff) by (nonlinear_arith)
                requires
                    0 <= idx <= 0xff,
                    0 <= size <= 0xff,
            ;
            let b = copy_ahead(
                &c,
                (idx * size) as u128,
                self.elmt_size,
                "extensible array element out of bounds",
            )?;
            return Ok(Some(b));
        }
        let x: u64 = idx - in_index;
        let min: u64 = self.data_blk_min_elmts as u64;
        if x / min >= u64::MAX {
            return Err(Error::new("extensible array index out of range"));
        }
        let g = self.group(x);
        let log_min: u32 = log2_of2(min);
        if g.number >= 1 + self.max_nelmts_bits as u32 - log_min {
            return Err(Error::new("extensible array index out of range"));
        }
        let refs: u64 = in_index * size;
        let direct: u32 = 2 * log2_of2(self.sup_blk_min_data_ptrs as u64);
        if g.number < direct {
            pass_far(&mut c, refs as u128 + (g.blocks_before as u128 + g.block as u128) * 8);
            return self.follow(&mut c, g.per_block, g.place);
        }
        pass_far(
            &mut c,
            refs as u128 + 2 * (self.sup_blk_min_data_ptrs as u128 - 1) * 8 + (g.number
                - direct) as u128 * 8,
        );
        let addr: u64 = c.next_uint(8)?;
        if addr == UNDEF {
            return Ok(None);
        }
        let mut s = open_block(self.data, self.base, addr, 83, 66, "bad EASB signature")?;
        let _off: u64 = s.next_sized((self.max_nelmts_bits as usize + 7) / 8)?;
        let bitmap: u64 = match self.page_elems(g.per_block) {
            None => 0,
            Some(page) => {
                proof {
                    lemma_pow2_positive(h.page_bits);
                    let n = g.per_block;
                    assert(n / page <= n) by (nonlinear_arith)
                        requires
                            page >= 1,
                            n >= 0,
                    ;
                }
                (g.per_block / page + 7) / 8
            },
        };
        let blocks: u64 = g.blocks;
        assert(blocks * bitmap <= 0x8000_0000 * 0x200_0000_0000) by (nonlinear_arith)
            requires
                0 <= blocks <= 0x8000_0000,
                0 <= bitmap <= 0x200_0000_0000,
        ;
        pass_far(&mut s, blocks as u128 * bitmap as u128 + g.block as u128 * 8);
        self.follow(&mut s, g.per_block, g.place)
    }
}

} // verus!
