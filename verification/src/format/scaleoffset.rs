//! The scale-offset filter: each element is stored as its distance from the
//! smallest one, in as few bits as the distances need.
//!
//! Integers are scaled and restored here. For floating-point elements the bit
//! packing is done here, and the arithmetic on the values is left to the caller.

use vstd::prelude::*;

use crate::error::Error;
use crate::format::bits::{
    bits, law_number_bits, law_packed_bits, law_packed_bytes_of_bits, lemma_number_bits_len,
    lemma_pow2_monotone, lemma_pow2_positive, lemma_pow2_sum, lemma_pow2_values, number,
    number_bits, packed_bytes, pow2, zero_bits, BitReader, BitWriter,
};
use crate::format::elements::lemma_pow256_pow2;
use crate::format::{
    law_le_bytes_of_le, law_le_round_trip, le, le_at, le_bytes, lemma_le_bound,
    lemma_le_bytes_residue, lemma_pow256, lemma_pow256_positive, pow256, push_le, uint_of, zeroes,
};

verus! {

/// The client data of the filter: `[0]` scale type, `[1]` scale factor, `[2]` number
/// of elements, `[3]` class (0 integer, 1 float), `[4]` element size, `[5]` signed,
/// `[6]` byte order, `[7]` fill value defined, from `[8]` on the fill value.
pub struct Settings {
    pub scale_type: int,
    pub factor: int,
    pub nelmts: int,
    pub class: int,
    pub size: int,
    pub signed: bool,
    pub order: int,
    pub fill: Option<nat>,
}

pub open spec fn client_word(cdata: Seq<u32>, i: int) -> nat {
    if i < cdata.len() {
        cdata[i] as nat
    } else {
        0
    }
}

/// The fill value: the bytes of the client data words from `[8]` on.
pub open spec fn fill_number(cdata: Seq<u32>, size: nat) -> nat {
    le(Seq::new(size, |i: int| le_bytes(client_word(cdata, 8 + i / 4), 4)[i % 4]))
}

pub open spec fn settings(cdata: Seq<u32>) -> Settings {
    Settings {
        scale_type: cdata[0] as int,
        factor: cdata[1] as int,
        nelmts: cdata[2] as int,
        class: cdata[3] as int,
        size: cdata[4] as int,
        signed: cdata[5] == 1,
        order: cdata[6] as int,
        fill: if cdata[7] == 1 {
            Some(fill_number(cdata, cdata[4] as nat))
        } else {
            None
        },
    }
}

/// The stored numbers of a chunk of floating-point elements, and what is needed to
/// turn them back into elements.
#[derive(Debug)]
pub struct FloatBlock {
    /// Bytes of an element, 4 or 8.
    pub size: usize,
    /// The decimal scale factor.
    pub factor: u32,
    /// The bit pattern of the smallest element.
    pub minval: u64,
    /// The stored number that stands for the fill value.
    pub mask: u64,
    /// The bit pattern of the fill value, where it is defined.
    pub fill: Option<u64>,
    /// The stored number of each element.
    pub raws: Vec<u64>,
}

/// A chunk after its bits were unpacked.
#[derive(Debug)]
pub enum Unscaled {
    /// The restored elements.
    Bytes(Vec<u8>),
    /// Floating-point elements, still scaled.
    Float(FloatBlock),
}

/// The views of an [`Unscaled`].
pub enum UnscaledView {
    Bytes(Seq<u8>),
    Float {
        size: int,
        factor: int,
        minval: int,
        mask: int,
        fill: Option<nat>,
        raws: Seq<nat>,
    },
}

impl View for Unscaled {
    type V = UnscaledView;

    open spec fn view(&self) -> UnscaledView {
        match *self {
            Unscaled::Bytes(b) => UnscaledView::Bytes(b@),
            Unscaled::Float(f) => UnscaledView::Float {
                size: f.size as int,
                factor: f.factor as int,
                minval: f.minval as int,
                mask: f.mask as int,
                fill: match f.fill {
                    Some(v) => Some(v as nat),
                    None => None,
                },
                raws: nats(f.raws@),
            },
        }
    }
}

/// Machine words as numbers.
pub open spec fn nats(v: Seq<u64>) -> Seq<nat> {
    v.map_values(|x: u64| x as nat)
}

/// The stored numbers: consecutive groups of `m` bits.
pub open spec fn stored(packed: Seq<bool>, m: int, n: nat) -> Seq<nat> {
    Seq::new(n, |e: int| number(packed.subrange(e * m, (e + 1) * m)))
}

/// Numbers as consecutive groups of `size` bytes.
pub open spec fn cells(vals: Seq<nat>, size: nat) -> Seq<u8>
    decreases vals.len(),
{
    if vals.len() == 0 {
        Seq::empty()
    } else {
        cells(vals.drop_last(), size) + le_bytes(vals.last(), size)
    }
}

/// The element that a stored number stands for: the number itself where it has all
/// the bits of the type, else a distance from the smallest element or the fill value.
pub open spec fn restored(s: Settings, m: nat, minval: nat, raw: nat) -> nat {
    if m == 8 * s.size {
        raw
    } else if s.fill is Some && raw == pow2(m) - 1 {
        s.fill->0
    } else {
        raw + minval
    }
}

/// The number of bits per element in the header of a chunk.
pub open spec fn header_minbits(data: Seq<u8>) -> int {
    le_at(data, 0, 4) as int
}

/// The smallest element in the header of a chunk.
pub open spec fn header_minval(data: Seq<u8>) -> nat {
    le_at(
        data,
        5,
        if data[4] < 8 {
            data[4] as int
        } else {
            8
        },
    )
}

/// What a chunk unpacks to.
pub open spec fn unscaled(cdata: Seq<u32>, data: Seq<u8>) -> Result<UnscaledView, Seq<char>> {
    let s = settings(cdata);
    let m = header_minbits(data);
    if cdata.len() < 8 {
        Err("scaleoffset: missing parameters"@)
    } else if s.order != 0 {
        Err("scaleoffset: big-endian datasets are not supported"@)
    } else if !(1 <= s.size <= 8) {
        Err("scaleoffset: bad element size"@)
    } else if data.len() < 21 {
        Err("scaleoffset: buffer too short"@)
    } else if m > s.size * 8 {
        Err("scaleoffset: minbits exceeds type size"@)
    } else if s.nelmts * m > 8 * (data.len() - 21) {
        Err("bit-packed stream too short"@)
    } else {
        let raws = stored(bits(data.skip(21)), m, s.nelmts as nat);
        let minval = header_minval(data);
        if s.class == 0 {
            Ok(
                UnscaledView::Bytes(
                    cells(
                        raws.map_values(|raw: nat| restored(s, m as nat, minval, raw)),
                        s.size as nat,
                    ),
                ),
            )
        } else if s.class == 1 && s.scale_type == 0 {
            if s.nelmts > 0 && s.size != 4 && s.size != 8 {
                Err("scaleoffset: unsupported float size"@)
            } else if m == 8 * s.size {
                Ok(UnscaledView::Bytes(cells(raws, s.size as nat)))
            } else {
                Ok(
                    UnscaledView::Float {
                        size: s.size,
                        factor: s.factor,
                        minval: minval as int,
                        mask: pow2(m as nat) - 1,
                        fill: s.fill,
                        raws,
                    },
                )
            }
        } else {
            Err("scaleoffset: unsupported scale type"@)
        }
    }
}

/// Whether an unpacking came out as `s` says.
pub open spec fn same_unscaled(
    r: Result<Unscaled, Error>,
    s: Result<UnscaledView, Seq<char>>,
) -> bool {
    match (r, s) {
        (Ok(v), Ok(w)) => v@ == w,
        (Err(e), Err(m)) => e@ == m,
        _ => false,
    }
}

fn word_or_zero(cdata: &[u32], i: usize) -> (r: u32)
    ensures
        r == client_word(cdata@, i as int),
{
    if i < cdata.len() {
        cdata[i]
    } else {
        0
    }
}

fn fill_value(cdata: &[u32], size: usize) -> (r: u64)
    requires
        size <= 8,
    ensures
        r == fill_number(cdata@, size as nat),
{
    let mut b: Vec<u8> = Vec::new();
    let ghost wanted = Seq::new(
        size as nat,
        |i: int| le_bytes(client_word(cdata@, 8 + i / 4), 4)[i % 4],
    );
    let mut i: usize = 0;
    while i < size
        invariant
            i <= size <= 8,
            wanted == Seq::new(
                size as nat,
                |i: int| le_bytes(client_word(cdata@, 8 + i / 4), 4)[i % 4],
            ),
            b@ == wanted.take(i as int),
        decreases size - i,
    {
        let w: u32 = word_or_zero(cdata, 8 + i / 4);
        proof {
            reveal_with_fuel(le_bytes, 5);
        }
        let byte: u8 = match i % 4 {
            0 => (w % 256) as u8,
            1 => (w / 256 % 256) as u8,
            2 => (w / 256 / 256 % 256) as u8,
            _ => (w / 256 / 256 / 256 % 256) as u8,
        };
        assert(byte == wanted[i as int]);
        b.push(byte);
        i += 1;
        assert(b@ =~= wanted.take(i as int));
    }
    assert(b@ =~= wanted);
    uint_of(b.as_slice())
}

proof fn lemma_groups(n: int, m: int, e: int)
    requires
        0 <= e < n,
        m >= 0,
    ensures
        0 <= e * m,
        (e + 1) * m == e * m + m,
        (e + 1) * m <= n * m,
{
    assert(0 <= e * m && (e + 1) * m == e * m + m && (e + 1) * m <= n * m) by (nonlinear_arith)
        requires
            0 <= e < n,
            m >= 0,
    ;
}

/// Reads `n` numbers of `m` bits each.
fn read_stored(packed: &[u8], m: u32, n: u32) -> (r: Option<Vec<u64>>)
    requires
        m <= 64,
    ensures
        r is None <==> n * m > 8 * packed@.len(),
        r matches Some(v) ==> nats(v@) == stored(bits(packed@), m as int, n as nat),
{
    let mut reader = BitReader::new(packed);
    let ghost all = bits(packed@);
    let mut v: Vec<u64> = Vec::new();
    let mut e: u32 = 0;
    assert(all.skip(0) =~= all);
    while e < n
        invariant
            reader.wf(),
            m <= 64,
            e <= n,
            all == bits(packed@),
            all.len() == 8 * packed@.len(),
            e * m <= all.len(),
            reader.rest() == all.skip(e * m),
            v@.len() == e,
            forall|k: int|
                0 <= k < e ==> #[trigger] v@[k] == number(all.subrange(k * m, (k + 1) * m)),
        decreases n - e,
    {
        proof {
            lemma_groups(n as int, m as int, e as int);
        }
        match reader.take(m) {
            None => {
                return None;
            },
            Some(x) => {
                proof {
                    assert(all.skip(e * m).take(m as int) =~= all.subrange(e * m, (e + 1) * m));
                    assert(all.skip(e * m).skip(m as int) =~= all.skip((e + 1) * m));
                }
                v.push(x);
                e += 1;
            },
        }
    }
    assert(nats(v@) =~= stored(all, m as int, n as nat));
    Some(v)
}

proof fn lemma_cells_push(vals: Seq<nat>, v: nat, size: nat)
    ensures
        cells(vals.push(v), size) == cells(vals, size) + le_bytes(v, size),
{
    assert(vals.push(v).drop_last() =~= vals);
}

/// 2 to the power `m`, less one.
fn mask_of(m: u32) -> (r: u64)
    requires
        m <= 64,
    ensures
        r == pow2(m as nat) - 1,
{
    let mut r: u64 = 0;
    let mut i: u32 = 0;
    while i < m
        invariant
            i <= m <= 64,
            r == pow2(i as nat) - 1,
        decreases m - i,
    {
        proof {
            lemma_pow2_values();
            lemma_pow2_monotone((i + 1) as nat, 64);
        }
        r = 2 * r + 1;
        i += 1;
    }
    r
}

/// Unpacks a chunk of the scale-offset filter, and restores integer elements.
pub fn scaleoffset_decompress(cdata: &[u32], data: &[u8]) -> (r: Result<Unscaled, Error>)
    ensures
        same_unscaled(r, unscaled(cdata@, data@)),
{
    if cdata.len() < 8 {
        return Err(Error::new("scaleoffset: missing parameters"));
    }
    let ghost s = settings(cdata@);
    let scale_type: u32 = cdata[0];
    let factor: u32 = cdata[1];
    let nelmts: u32 = cdata[2];
    let class: u32 = cdata[3];
    let size: u32 = cdata[4];
    if cdata[6] != 0 {
        return Err(Error::new("scaleoffset: big-endian datasets are not supported"));
    }
    if size < 1 || size > 8 {
        return Err(Error::new("scaleoffset: bad element size"));
    }
    let total: usize = data.len();
    if total < 21 {
        return Err(Error::new("scaleoffset: buffer too short"));
    }
    let head = vstd::slice::slice_subrange(data, 0, 4);
    proof {
        lemma_le_bound(head@);
        lemma_pow256();
    }
    let m: u64 = uint_of(head);
    let width: usize = if data[4] < 8 {
        data[4] as usize
    } else {
        8
    };
    let minval: u64 = uint_of(vstd::slice::slice_subrange(data, 5, 5 + width));
    if m > size as u64 * 8 {
        return Err(Error::new("scaleoffset: minbits exceeds type size"));
    }
    let packed = vstd::slice::slice_subrange(data, 21, total);
    assert(packed@ =~= data@.skip(21));
    let raws = match read_stored(packed, m as u32, nelmts) {
        Some(v) => v,
        None => {
            return Err(Error::new("bit-packed stream too short"));
        },
    };
    let ghost raw_numbers = nats(raws@);
    let mask: u64 = mask_of(m as u32);
    let fill: Option<u64> = if cdata[7] == 1 {
        Some(fill_value(cdata, size as usize))
    } else {
        None
    };
    let full: bool = m == 8 * size as u64;
    if class == 1 && scale_type == 0 && nelmts > 0 && size != 4 && size != 8 {
        return Err(Error::new("scaleoffset: unsupported float size"));
    }
    if class == 0 || (full && class == 1 && scale_type == 0) {
        let ghost wanted = raw_numbers.map_values(
            |raw: nat| restored(s, m as nat, minval as nat, raw),
        );
        let mut out: Vec<u8> = Vec::new();
        let n: usize = raws.len();
        let mut e: usize = 0;
        assert(wanted.take(0) =~= Seq::<nat>::empty());
        while e < n
            invariant
                e <= n == raws@.len(),
                1 <= size <= 8,
                s.size == size,
                full == (m == 8 * size),
                raw_numbers == nats(raws@),
                mask == pow2(m as nat) - 1,
                s.fill == (match fill {
                    Some(v) => Some(v as nat),
                    None => None::<nat>,
                }),
                wanted == raw_numbers.map_values(
                    |raw: nat| restored(s, m as nat, minval as nat, raw),
                ),
                out@ == cells(wanted.take(e as int), size as nat),
            decreases n - e,
        {
            let raw: u64 = raws[e];
            let v: u64 = match fill {
                _ if full => raw,
                Some(f) if raw == mask => f,
                _ => raw.wrapping_add(minval),
            };
            push_le(&mut out, v, size as usize);
            proof {
                lemma_pow256();
                lemma_le_bytes_residue((raw + minval) as nat, 8, size as nat);
                assert(raw.wrapping_add(minval) == (raw + minval) % 0x1_0000_0000_0000_0000);
                assert(wanted.take(e + 1) =~= wanted.take(e as int).push(wanted[e as int]));
                lemma_cells_push(wanted.take(e as int), wanted[e as int], size as nat);
            }
            e += 1;
        }
        assert(wanted.take(n as int) =~= wanted);
        if full {
            assert(wanted =~= raw_numbers);
        }
        Ok(Unscaled::Bytes(out))
    } else if class == 1 && scale_type == 0 {
        Ok(
            Unscaled::Float(
                FloatBlock { size: size as usize, factor, minval, mask, fill, raws },
            ),
        )
    } else {
        Err(Error::new("scaleoffset: unsupported scale type"))
    }
}

/// The number in the cell `e` of an array of `size`-byte numbers.
pub open spec fn cell(data: Seq<u8>, size: int, e: int) -> nat {
    le_at(data, e * size, size)
}

/// The numbers in the first `n` cells.
pub open spec fn cell_numbers(data: Seq<u8>, size: int, n: nat) -> Seq<nat> {
    Seq::new(n, |e: int| cell(data, size, e))
}

/// The integer that a cell stands for.
pub open spec fn key(signed: bool, size: nat, raw: nat) -> int {
    if signed && 2 * raw >= pow256(size) {
        raw - pow256(size)
    } else {
        raw as int
    }
}

/// The smallest and the largest integer among the cells that do not hold the fill
/// value.
pub open spec fn extent(s: Settings, raws: Seq<nat>) -> Option<(int, int)>
    decreases raws.len(),
{
    if raws.len() == 0 {
        None
    } else {
        let before = extent(s, raws.drop_last());
        let k = key(s.signed, s.size as nat, raws.last());
        if s.fill == Some(raws.last()) {
            before
        } else {
            match before {
                None => Some((k, k)),
                Some((low, high)) => Some(
                    (
                        if k < low {
                            k
                        } else {
                            low
                        },
                        if k > high {
                            k
                        } else {
                            high
                        },
                    ),
                ),
            }
        }
    }
}

/// The extent, zero where every cell holds the fill value.
pub open spec fn range_of(s: Settings, raws: Seq<nat>) -> (int, int) {
    match extent(s, raws) {
        Some(p) => p,
        None => (0, 0),
    }
}

/// The number of bits that hold `n` distinct values.
pub open spec fn bits_for(n: nat) -> nat
    decreases n,
{
    if n <= 1 {
        0
    } else {
        1 + bits_for((n + 1) / 2)
    }
}

/// The bits per element: enough for every distance from the smallest element, and
/// for one more number where there is a fill value; at most those of the type.
pub open spec fn chosen_minbits(s: Settings, raws: Seq<nat>) -> nat {
    let (low, high) = range_of(s, raws);
    let span = (high - low + 1) as nat;
    let b = bits_for(
        if s.fill is Some {
            span + 1
        } else {
            span
        },
    );
    if b < 8 * s.size {
        b
    } else {
        (8 * s.size) as nat
    }
}

/// The number that is stored for a cell.
pub open spec fn stored_number(s: Settings, m: nat, low: int, raw: nat) -> nat {
    if m == 8 * s.size {
        raw
    } else if s.fill == Some(raw) {
        (pow2(m) - 1) as nat
    } else {
        (key(s.signed, s.size as nat, raw) - low) as nat
    }
}

/// Numbers as consecutive groups of `m` bits.
pub open spec fn flat_bits(vals: Seq<nat>, m: nat) -> Seq<bool>
    decreases vals.len(),
{
    if vals.len() == 0 {
        Seq::empty()
    } else {
        flat_bits(vals.drop_last(), m) + number_bits(vals.last(), m)
    }
}

/// A packed chunk: the header, then the numbers, filled up with one to eight zero
/// bits.
pub open spec fn packed_chunk(m: nat, minval: nat, vals: Seq<nat>) -> Seq<u8> {
    let flat = flat_bits(vals, m);
    le_bytes(m, 4) + seq![8u8] + le_bytes(minval, 8) + zeroes(8) + packed_bytes(
        flat + zero_bits((8 - flat.len() % 8) as nat),
    )
}

/// The smallest element as a 64-bit pattern.
pub open spec fn low_pattern(low: int) -> nat {
    if low < 0 {
        (low + 0x1_0000_0000_0000_0000) as nat
    } else {
        low as nat
    }
}

/// The cells of a chunk of floating-point elements that are to be scaled.
#[derive(Debug)]
pub struct FloatCells {
    /// Bytes of an element, 4 or 8.
    pub size: usize,
    /// The decimal scale factor.
    pub factor: u32,
    /// The bit pattern of the fill value, where it is defined.
    pub fill: Option<u64>,
    /// The bit pattern of each element.
    pub cells: Vec<u64>,
}

/// A chunk that is to be packed.
#[derive(Debug)]
pub enum Scaled {
    /// The packed chunk.
    Bytes(Vec<u8>),
    /// Floating-point elements, not yet scaled.
    Float(FloatCells),
}

/// The views of a [`Scaled`].
pub enum ScaledView {
    Bytes(Seq<u8>),
    Float { size: int, factor: int, fill: Option<nat>, cells: Seq<nat> },
}

impl View for Scaled {
    type V = ScaledView;

    open spec fn view(&self) -> ScaledView {
        match *self {
            Scaled::Bytes(b) => ScaledView::Bytes(b@),
            Scaled::Float(f) => ScaledView::Float {
                size: f.size as int,
                factor: f.factor as int,
                fill: match f.fill {
                    Some(v) => Some(v as nat),
                    None => None,
                },
                cells: nats(f.cells@),
            },
        }
    }
}

/// What a chunk is packed to.
pub open spec fn scaled(cdata: Seq<u32>, data: Seq<u8>) -> Result<ScaledView, Seq<char>> {
    let s = settings(cdata);
    if cdata.len() < 8 {
        Err("scaleoffset: missing parameters"@)
    } else if !(1 <= s.size <= 8) {
        Err("scaleoffset: bad element size"@)
    } else if data.len() < s.nelmts * s.size {
        Err("scaleoffset: short input"@)
    } else {
        let raws = cell_numbers(data, s.size, s.nelmts as nat);
        if s.class == 0 {
            let m = chosen_minbits(s, raws);
            let low = range_of(s, raws).0;
            Ok(
                ScaledView::Bytes(
                    packed_chunk(
                        m,
                        low_pattern(low),
                        raws.map_values(|raw: nat| stored_number(s, m, low, raw)),
                    ),
                ),
            )
        } else if s.class == 1 && s.scale_type == 0 {
            if s.size != 4 && s.size != 8 {
                Err("scaleoffset: unsupported float size"@)
            } else {
                Ok(
                    ScaledView::Float {
                        size: s.size,
                        factor: s.factor,
                        fill: s.fill,
                        cells: raws,
                    },
                )
            }
        } else {
            Err("scaleoffset: unsupported scale type"@)
        }
    }
}

/// Whether a packing came out as `s` says.
pub open spec fn same_scaled(r: Result<Scaled, Error>, s: Result<ScaledView, Seq<char>>) -> bool {
    match (r, s) {
        (Ok(v), Ok(w)) => v@ == w,
        (Err(e), Err(m)) => e@ == m,
        _ => false,
    }
}

/// Number of bits needed to hold `num` distinct values.
fn so_log2(num: u128) -> (r: u32)
    requires
        num <= 0x1_0000_0000_0000_0001,
    ensures
        r == bits_for(num as nat),
        r <= 65,
{
    proof {
        lemma_pow2_values();
        lemma_pow2_sum(64, 1);
        lemma_bits_for_bound(num as nat, 65);
    }
    bits_for_exec(num)
}

proof fn lemma_bits_for_bound(n: nat, b: nat)
    requires
        n <= pow2(b),
    ensures
        bits_for(n) <= b,
    decreases b,
{
    if n > 1 {
        lemma_pow2_values();
        assert(b > 0);
        lemma_bits_for_bound((n + 1) / 2, (b - 1) as nat);
    }
}

/// The bits suffice.
proof fn lemma_bits_for_enough(n: nat)
    ensures
        n <= pow2(bits_for(n)),
    decreases n,
{
    if n > 1 {
        lemma_bits_for_enough((n + 1) / 2);
    } else {
        lemma_pow2_positive(bits_for(n));
    }
}

fn bits_for_exec(num: u128) -> (r: u32)
    requires
        num <= 0x1_0000_0000_0000_0001,
        bits_for(num as nat) <= 65,
    ensures
        r == bits_for(num as nat),
    decreases num,
{
    if num <= 1 {
        0
    } else {
        1 + bits_for_exec((num + 1) / 2)
    }
}

fn top_of(size: u32) -> (r: i128)
    requires
        1 <= size <= 8,
    ensures
        r == pow256(size as nat),
        0 < r <= 0x1_0000_0000_0000_0000,
{
    proof {
        lemma_pow256();
    }
    match size {
        1 => 0x100,
        2 => 0x1_0000,
        3 => 0x100_0000,
        4 => 0x1_0000_0000,
        5 => 0x100_0000_0000,
        6 => 0x1_0000_0000_0000,
        7 => 0x100_0000_0000_0000,
        _ => 0x1_0000_0000_0000_0000,
    }
}

fn key_of(signed: bool, top: i128, raw: u64, Ghost(size): Ghost<nat>) -> (r: i128)
    requires
        top == pow256(size),
        0 < top <= 0x1_0000_0000_0000_0000,
    ensures
        r == key(signed, size, raw as nat),
        -0x1_0000_0000_0000_0000 <= r < 0x1_0000_0000_0000_0000,
{
    if signed && 2 * (raw as i128) >= top {
        raw as i128 - top
    } else {
        raw as i128
    }
}

fn read_cells(data: &[u8], size: u32, n: u32) -> (r: Vec<u64>)
    requires
        1 <= size <= 8,
        n * size <= data@.len(),
    ensures
        nats(r@) == cell_numbers(data@, size as int, n as nat),
        forall|k: int| 0 <= k < r@.len() ==> #[trigger] r@[k] < pow256(size as nat),
{
    let total: usize = data.len();
    let mut v: Vec<u64> = Vec::new();
    let mut at: usize = 0;
    let mut e: u32 = 0;
    while e < n
        invariant
            1 <= size <= 8,
            e <= n,
            total == data@.len(),
            n * size <= total,
            at == e * size,
            v@.len() == e,
            forall|k: int|
                0 <= k < e ==> #[trigger] v@[k] == cell(data@, size as int, k) && v@[k] < pow256(
                    size as nat,
                ),
        decreases n - e,
    {
        proof {
            lemma_groups(n as int, size as int, e as int);
        }
        let s = vstd::slice::slice_subrange(data, at, at + size as usize);
        proof {
            lemma_le_bound(s@);
            lemma_pow256();
        }
        v.push(uint_of(s));
        at += size as usize;
        e += 1;
    }
    assert(nats(v@) =~= cell_numbers(data@, size as int, n as nat));
    v
}

fn min_max(raws: &Vec<u64>, signed: bool, top: i128, fill: Option<u64>, Ghost(s): Ghost<Settings>) -> (r: (
    i128,
    i128,
))
    requires
        s.signed == signed,
        s.size >= 0,
        top == pow256(s.size as nat),
        0 < top <= 0x1_0000_0000_0000_0000,
        s.fill == (match fill {
            Some(v) => Some(v as nat),
            None => None::<nat>,
        }),
    ensures
        (r.0 as int, r.1 as int) == range_of(s, nats(raws@)),
        -0x1_0000_0000_0000_0000 <= r.0 <= r.1 < 0x1_0000_0000_0000_0000,
{
    let ghost all = nats(raws@);
    let n: usize = raws.len();
    let mut found: bool = false;
    let mut low: i128 = 0;
    let mut high: i128 = 0;
    let mut e: usize = 0;
    assert(all.take(0) =~= Seq::<nat>::empty());
    while e < n
        invariant
            e <= n == raws@.len(),
            all == nats(raws@),
            s.signed == signed,
            s.size >= 0,
            top == pow256(s.size as nat),
            0 < top <= 0x1_0000_0000_0000_0000,
            s.fill == (match fill {
                Some(v) => Some(v as nat),
                None => None::<nat>,
            }),
            !found ==> low == 0 && high == 0,
            -0x1_0000_0000_0000_0000 <= low <= high < 0x1_0000_0000_0000_0000,
            extent(s, all.take(e as int)) == (if found {
                Some((low as int, high as int))
            } else {
                None::<(int, int)>
            }),
        decreases n - e,
    {
        let raw: u64 = raws[e];
        proof {
            assert(all.take(e + 1).drop_last() =~= all.take(e as int));
            assert(all.take(e + 1).last() == raw as nat);
        }
        let skipped: bool = match fill {
            Some(f) => f == raw,
            None => false,
        };
        if !skipped {
            let k: i128 = key_of(signed, top, raw, Ghost(s.size as nat));
            if !found {
                low = k;
                high = k;
                found = true;
            } else {
                if k < low {
                    low = k;
                }
                if k > high {
                    high = k;
                }
            }
        }
        e += 1;
    }
    assert(all.take(n as int) =~= all);
    (low, high)
}

proof fn lemma_flat_push(vals: Seq<nat>, v: nat, m: nat)
    ensures
        flat_bits(vals.push(v), m) == flat_bits(vals, m) + number_bits(v, m),
{
    assert(vals.push(v).drop_last() =~= vals);
}

proof fn lemma_flat_len(vals: Seq<nat>, m: nat)
    ensures
        flat_bits(vals, m).len() == vals.len() * m,
    decreases vals.len(),
{
    if vals.len() > 0 {
        lemma_flat_len(vals.drop_last(), m);
        lemma_number_bits_len(vals.last(), m);
        let n = vals.len() - 1;
        assert((n + 1) * m == n * m + m) by (nonlinear_arith);
    } else {
        assert(0 * m == 0);
    }
}

/// Packs numbers of `minbits` bits each behind the header that records `minbits`
/// and the smallest element.
pub fn scaleoffset_pack(minbits: u32, minval: u64, vals: &Vec<u64>) -> (r: Vec<u8>)
    ensures
        r@ == packed_chunk(minbits as nat, minval as nat, nats(vals@)),
{
    let mut out: Vec<u8> = Vec::new();
    push_le(&mut out, minbits as u64, 4);
    out.push(8);
    push_le(&mut out, minval, 8);
    push_le(&mut out, 0, 8);
    let ghost head = out@;
    proof {
        assert(le_bytes(0, 8) =~= zeroes(8)) by {
            reveal_with_fuel(le_bytes, 9);
        }
        assert(head =~= le_bytes(minbits as nat, 4) + seq![8u8] + le_bytes(minval as nat, 8)
            + zeroes(8));
    }
    let ghost all = nats(vals@);
    let n: usize = vals.len();
    let mut w = BitWriter::new();
    let mut e: usize = 0;
    assert(all.take(0) =~= Seq::<nat>::empty());
    while e < n
        invariant
            e <= n == vals@.len(),
            all == nats(vals@),
            w.wf(),
            w@ == flat_bits(all.take(e as int), minbits as nat),
        decreases n - e,
    {
        w.put(vals[e], minbits);
        proof {
            assert(all.take(e + 1) =~= all.take(e as int).push(vals@[e as int] as nat));
            lemma_flat_push(all.take(e as int), vals@[e as int] as nat, minbits as nat);
        }
        e += 1;
    }
    assert(all.take(n as int) =~= all);
    let ghost flat = w@;
    let mut packed = w.finish();
    let ghost made = packed@;
    let odd: u64 = n as u64 % 8;
    assert(minbits * odd <= 0xffff_ffff * 8) by (nonlinear_arith)
        requires
            0 <= minbits <= 0xffff_ffff,
            0 <= odd <= 8,
    ;
    if minbits as u64 * odd % 8 == 0 {
        packed.push(0);
        proof {
            lemma_flat_len(all, minbits as nat);
            assert((n * minbits) % 8 == (minbits * (n % 8)) % 8) by {
                let q = n as int / 8;
                let t = n as int % 8;
                let mb = minbits as int;
                assert(n * mb == 8 * (q * mb) + mb * t) by (nonlinear_arith)
                    requires
                        n == 8 * q + t,
                ;
            }
            assert(flat.len() % 8 == 0);
            crate::format::bits::lemma_bits_push(made, 0u8);
            assert(crate::format::bits::byte_bits(0u8) =~= zero_bits(8));
            assert(bits(packed@) =~= flat + zero_bits((8 - flat.len() % 8) as nat));
        }
    } else {
        proof {
            lemma_flat_len(all, minbits as nat);
            assert((n * minbits) % 8 == (minbits * (n % 8)) % 8) by {
                let q = n as int / 8;
                let t = n as int % 8;
                let mb = minbits as int;
                assert(n * mb == 8 * (q * mb) + mb * t) by (nonlinear_arith)
                    requires
                        n == 8 * q + t,
                ;
            }
            assert(flat.len() % 8 != 0);
            assert(bits(packed@) =~= flat + zero_bits((8 - flat.len() % 8) as nat));
        }
    }
    proof {
        law_packed_bytes_of_bits(packed@);
    }
    let ghost tail = packed@;
    out.append(&mut packed);
    assert(out@ =~= head + tail);
    out
}

proof fn lemma_extent_bounds(s: Settings, raws: Seq<nat>, e: int)
    requires
        0 <= e < raws.len(),
        s.fill != Some(raws[e]),
    ensures
        extent(s, raws) is Some,
        range_of(s, raws).0 <= key(s.signed, s.size as nat, raws[e]) <= range_of(s, raws).1,
    decreases raws.len(),
{
    if e < raws.len() - 1 {
        lemma_extent_bounds(s, raws.drop_last(), e);
        assert(raws.drop_last()[e] == raws[e]);
    }
}

/// Packs a chunk with the scale-offset filter. Integer elements are scaled here.
pub fn scaleoffset_compress(cdata: &[u32], data: &[u8]) -> (r: Result<Scaled, Error>)
    ensures
        same_scaled(r, scaled(cdata@, data@)),
{
    if cdata.len() < 8 {
        return Err(Error::new("scaleoffset: missing parameters"));
    }
    let ghost s = settings(cdata@);
    let scale_type: u32 = cdata[0];
    let factor: u32 = cdata[1];
    let nelmts: u32 = cdata[2];
    let class: u32 = cdata[3];
    let size: u32 = cdata[4];
    let signed: bool = cdata[5] == 1;
    if size < 1 || size > 8 {
        return Err(Error::new("scaleoffset: bad element size"));
    }
    assert(nelmts * size <= 0xffff_ffff * 8) by (nonlinear_arith)
        requires
            nelmts <= 0xffff_ffff,
            size <= 8,
    ;
    if (data.len() as u64) < nelmts as u64 * size as u64 {
        return Err(Error::new("scaleoffset: short input"));
    }
    let fill: Option<u64> = if cdata[7] == 1 {
        Some(fill_value(cdata, size as usize))
    } else {
        None
    };
    let raws = read_cells(data, size, nelmts);
    if class == 0 {
        let top: i128 = top_of(size);
        let (low, high) = min_max(&raws, signed, top, fill, Ghost(s));
        proof {
            lemma_key_range(s, nats(raws@));
        }
        let span: u128 = (high - low + 1) as u128;
        let wanted: u32 = if fill.is_some() {
            so_log2(span + 1)
        } else {
            so_log2(span)
        };
        let m: u32 = if wanted < 8 * size {
            wanted
        } else {
            8 * size
        };
        assert(m == chosen_minbits(s, nats(raws@)));
        let minval: u64 = if low < 0 {
            (low + 0x1_0000_0000_0000_0000) as u64
        } else {
            low as u64
        };
        let mask: u64 = mask_of(m);
        let mut vals: Vec<u64> = Vec::new();
        let n: usize = raws.len();
        let mut e: usize = 0;
        while e < n
            invariant
                e <= n == raws@.len(),
                1 <= size <= 8,
                s == settings(cdata@),
                s.size == size,
                s.signed == signed,
                top == pow256(size as nat),
                0 < top <= 0x1_0000_0000_0000_0000,
                s.fill == (match fill {
                    Some(v) => Some(v as nat),
                    None => None::<nat>,
                }),
                m <= 8 * size,
                mask == pow2(m as nat) - 1,
                (low as int, high as int) == range_of(s, nats(raws@)),
                -0x1_0000_0000_0000_0000 <= low <= high < 0x1_0000_0000_0000_0000,
                forall|k: int| 0 <= k < raws@.len() ==> #[trigger] raws@[k] < pow256(size as nat),
                vals@.len() == e,
                forall|k: int|
                    0 <= k < e ==> #[trigger] vals@[k] == stored_number(
                        s,
                        m as nat,
                        low as int,
                        raws@[k] as nat,
                    ),
            decreases n - e,
        {
            let raw: u64 = raws[e];
            let is_fill: bool = match fill {
                Some(f) => f == raw,
                None => false,
            };
            let v: u64 = if m == 8 * size {
                raw
            } else if is_fill {
                mask
            } else {
                proof {
                    assert(nats(raws@)[e as int] == raw as nat);
                    lemma_extent_bounds(s, nats(raws@), e as int);
                    lemma_key_range(s, nats(raws@));
                }
                (key_of(signed, top, raw, Ghost(size as nat)) - low) as u64
            };
            vals.push(v);
            e += 1;
        }
        proof {
            assert(nats(vals@) =~= nats(raws@).map_values(
                |raw: nat| stored_number(s, m as nat, low as int, raw),
            ));
        }
        Ok(Scaled::Bytes(scaleoffset_pack(m, minval, &vals)))
    } else if class == 1 && scale_type == 0 {
        if size != 4 && size != 8 {
            return Err(Error::new("scaleoffset: unsupported float size"));
        }
        Ok(Scaled::Float(FloatCells { size: size as usize, factor, fill, cells: raws }))
    } else {
        Err(Error::new("scaleoffset: unsupported scale type"))
    }
}

/// The integers of cells of one size lie within one 64-bit range.
proof fn lemma_key_range(s: Settings, raws: Seq<nat>)
    requires
        1 <= s.size <= 8,
        forall|k: int| 0 <= k < raws.len() ==> #[trigger] raws[k] < pow256(s.size as nat),
    ensures
        ({
            let half = pow256(s.size as nat);
            let (low, high) = range_of(s, raws);
            &&& pow256(s.size as nat) <= 0x1_0000_0000_0000_0000
            &&& high - low < pow256(s.size as nat)
            &&& s.signed ==> -pow256(s.size as nat) <= 2 * low && 2 * high < pow256(s.size as nat)
            &&& !s.signed ==> 0 <= low && high < pow256(s.size as nat)
            &&& low <= high
        }),
    decreases raws.len(),
{
    lemma_pow256();
    lemma_pow256_positive(s.size as nat);
    if raws.len() > 0 {
        lemma_key_range(s, raws.drop_last());
        assert(raws.last() < pow256(s.size as nat));
    }
}

proof fn lemma_flat_group(vals: Seq<nat>, m: nat, e: int)
    requires
        0 <= e < vals.len(),
    ensures
        0 <= e * m,
        (e + 1) * m <= flat_bits(vals, m).len(),
        flat_bits(vals, m).subrange(e * m, (e + 1) * m) == number_bits(vals[e], m),
    decreases vals.len(),
{
    lemma_flat_len(vals, m);
    lemma_flat_len(vals.drop_last(), m);
    lemma_groups(vals.len() as int, m as int, e);
    lemma_number_bits_len(vals.last(), m);
    let flat = flat_bits(vals, m);
    let head = flat_bits(vals.drop_last(), m);
    if e < vals.len() - 1 {
        lemma_flat_group(vals.drop_last(), m, e);
        assert(flat.subrange(e * m, (e + 1) * m) =~= head.subrange(e * m, (e + 1) * m));
    } else {
        assert(flat.subrange(e * m, (e + 1) * m) =~= number_bits(vals[e], m));
    }
}

/// Adding the smallest element back gives the cell, in the width of the type.
proof fn lemma_cell_back(signed: bool, size: nat, raw: nat, low: int)
    requires
        1 <= size <= 8,
        raw < pow256(size),
        low <= key(signed, size, raw),
        -0x1_0000_0000_0000_0000 <= low,
    ensures
        le_bytes((key(signed, size, raw) - low) as nat + low_pattern(low), size) == le_bytes(
            raw,
            size,
        ),
{
    lemma_pow256();
    let k = key(signed, size, raw);
    let v = (k - low) as nat + low_pattern(low);
    let top = pow256(size);
    assert(v % top == raw) by {
        if size == 1 {
            assert(v as int % 0x100 == raw);
        } else if size == 2 {
            assert(v as int % 0x1_0000 == raw);
        } else if size == 3 {
            assert(v as int % 0x100_0000 == raw);
        } else if size == 4 {
            assert(v as int % 0x1_0000_0000 == raw);
        } else if size == 5 {
            assert(v as int % 0x100_0000_0000 == raw);
        } else if size == 6 {
            assert(v as int % 0x1_0000_0000_0000 == raw);
        } else if size == 7 {
            assert(v as int % 0x100_0000_0000_0000 == raw);
        } else if size == 8 {
            assert(v as int % 0x1_0000_0000_0000_0000 == raw);
        }
    }
    lemma_le_bytes_residue(v, size, size);
}

proof fn lemma_cells_of_data(data: Seq<u8>, size: nat, vals: Seq<nat>)
    requires
        size > 0,
        vals.len() * size <= data.len(),
        forall|e: int|
            0 <= e < vals.len() ==> le_bytes(#[trigger] vals[e], size) == le_bytes(
                cell(data, size as int, e),
                size,
            ),
    ensures
        cells(vals, size) == data.take((vals.len() * size) as int),
    decreases vals.len(),
{
    if vals.len() > 0 {
        let e = vals.len() - 1;
        lemma_groups(vals.len() as int, size as int, e);
        assert(vals.drop_last().len() * size == e * size);
        assert forall|i: int| 0 <= i < vals.drop_last().len() implies le_bytes(
            #[trigger] vals.drop_last()[i],
            size,
        ) == le_bytes(cell(data, size as int, i), size) by {
            assert(vals[i] == vals.drop_last()[i]);
        }
        lemma_cells_of_data(data, size, vals.drop_last());
        let sub = data.subrange(e * size, e * size + size);
        law_le_bytes_of_le(sub);
        assert(le_bytes(vals[e], size) == le_bytes(cell(data, size as int, e), size));
        assert(data.take(e * size) + sub =~= data.take((e + 1) * size));
    } else {
        assert(0 * size == 0);
        assert(data.take(0) =~= Seq::<u8>::empty());
    }
}

/// What the header of a packed chunk says, and which bits follow it.
proof fn lemma_packed_chunk(m: nat, minval: nat, vals: Seq<nat>)
    requires
        m <= 64,
        minval < 0x1_0000_0000_0000_0000,
    ensures
        ({
            let c = packed_chunk(m, minval, vals);
            let flat = flat_bits(vals, m);
            &&& c.len() >= 21
            &&& header_minbits(c) == m
            &&& header_minval(c) == minval
            &&& bits(c.skip(21)) == flat + zero_bits((8 - flat.len() % 8) as nat)
            &&& 8 * (c.len() - 21) == flat.len() + (8 - flat.len() % 8)
        }),
{
    let c = packed_chunk(m, minval, vals);
    let flat = flat_bits(vals, m);
    let all = flat + zero_bits((8 - flat.len() % 8) as nat);
    lemma_pow256();
    law_le_round_trip(m, 4);
    law_le_round_trip(minval, 8);
    law_packed_bits(all);
    assert(c.subrange(0, 4) =~= le_bytes(m, 4));
    assert(c[4] == 8);
    assert(c.subrange(5, 13) =~= le_bytes(minval, 8));
    assert(c.skip(21) =~= packed_bytes(all));
    assert(bits(c.skip(21)).len() == 8 * (c.len() - 21));
}

/// Integer chunks survive the scale-offset filter: unpacking a packed chunk gives
/// its elements back.
pub proof fn law_scaleoffset_round_trip(cdata: Seq<u32>, data: Seq<u8>)
    requires
        cdata.len() >= 8,
        ({
            let s = settings(cdata);
            &&& s.class == 0
            &&& s.order == 0
            &&& 1 <= s.size <= 8
            &&& s.nelmts * s.size <= data.len()
        }),
    ensures
        scaled(cdata, data) matches Ok(ScaledView::Bytes(chunk)) && unscaled(cdata, chunk) == Ok::<
            UnscaledView,
            Seq<char>,
        >(UnscaledView::Bytes(data.take(settings(cdata).nelmts * settings(cdata).size))),
{
    let s = settings(cdata);
    let n = s.nelmts as nat;
    let size = s.size as nat;
    let raws = cell_numbers(data, s.size, n);
    let (low, high) = range_of(s, raws);
    let m = chosen_minbits(s, raws);
    let vals = raws.map_values(|raw: nat| stored_number(s, m, low, raw));
    let chunk = packed_chunk(m, low_pattern(low), vals);
    let span = (high - low + 1) as nat;
    lemma_pow256();
    assert forall|e: int| 0 <= e < n implies #[trigger] raws[e] < pow256(size) by {
        lemma_groups(n as int, s.size, e);
        lemma_le_bound(data.subrange(e * s.size, e * s.size + s.size));
    }
    lemma_key_range(s, raws);
    lemma_bits_for_enough(
        if s.fill is Some {
            span + 1
        } else {
            span
        },
    );
    lemma_pow256_pow2(size);
    lemma_packed_chunk(m, low_pattern(low), vals);
    lemma_flat_len(vals, m);
    let flat = flat_bits(vals, m);
    let all = bits(chunk.skip(21));
    assert(n * m <= 8 * (chunk.len() - 21));
    let read = stored(all, m as int, n);
    assert forall|e: int| 0 <= e < n implies #[trigger] read[e] == vals[e] && vals[e] < pow2(m) && (
    m < 8 * s.size && s.fill is Some && s.fill != Some(raws[e]) ==> vals[e] != pow2(m) - 1) by {
        lemma_flat_group(vals, m, e);
        lemma_groups(n as int, m as int, e);
        assert(all.subrange(e * m, (e + 1) * m) =~= flat.subrange(e * m, (e + 1) * m));
        lemma_pow2_positive(m);
        if m < 8 * s.size && s.fill != Some(raws[e]) {
            lemma_extent_bounds(s, raws, e);
        }
        law_number_bits(vals[e], m);
    }
    let back = read.map_values(|raw: nat| restored(s, m, low_pattern(low), raw));
    assert forall|e: int| 0 <= e < back.len() implies le_bytes(#[trigger] back[e], size)
        == le_bytes(cell(data, s.size, e), size) by {
        assert(read[e] == vals[e]);
        assert(raws[e] == cell(data, s.size, e));
        if m == 8 * s.size || s.fill == Some(raws[e]) {
            assert(back[e] == raws[e]);
        } else {
            lemma_extent_bounds(s, raws, e);
            lemma_cell_back(s.signed, size, raws[e], low);
        }
    }
    lemma_cells_of_data(data, size, back);
}

} // verus!
