//! The N-bit filter: only the significant bits of each element are stored.

use vstd::prelude::*;

use crate::error::{same_bytes, Error};
use crate::format::bits::{bits, BitReader};

verus! {

/// What the client data of the filter say of packed chunks.
pub struct Packing {
    pub nelmts: int,
    pub size: int,
    pub precision: int,
    pub offset: int,
}

/// Bit `p` (counted from the lowest) of element `e`: one of its `precision`
/// significant bits, stored highest first, or zero.
pub open spec fn element_bit(packed: Seq<bool>, k: Packing, e: int, p: int) -> bool {
    k.offset <= p < k.offset + k.precision && packed[e * k.precision + (k.precision - 1 - (p
        - k.offset))]
}

/// A byte with its bits given from the lowest.
pub open spec fn byte_with(f: spec_fn(int) -> bool) -> u8 {
    (bit_value(f(0)) + 2 * bit_value(f(1)) + 4 * bit_value(f(2)) + 8 * bit_value(f(3)) + 16
        * bit_value(f(4)) + 32 * bit_value(f(5)) + 64 * bit_value(f(6)) + 128 * bit_value(
        f(7),
    )) as u8
}

pub open spec fn bit_value(b: bool) -> int {
    if b {
        1
    } else {
        0
    }
}

/// Byte `i` of the unpacked chunk.
pub open spec fn unpacked_byte(packed: Seq<bool>, k: Packing, i: int) -> u8 {
    byte_with(|b: int| element_bit(packed, k, i / k.size, 8 * (i % k.size) + b))
}

/// What a chunk decodes to under the client data `cdata`: `[1]` says that it is
/// stored as it is, `[2]` the number of elements, `[3]` the class, `[4]` the size,
/// `[5]` the byte order, `[6]` the precision and `[7]` the bit offset.
pub open spec fn nbit_decoded(cdata: Seq<u32>, data: Seq<u8>) -> Result<Seq<u8>, Seq<char>> {
    if cdata.len() < 3 {
        Err("nbit: missing parameters"@)
    } else if cdata[1] != 0 {
        Ok(data)
    } else if cdata.len() < 8 {
        Err("nbit: missing parameters"@)
    } else if cdata[3] != 1 {
        Err("nbit: only atomic datatypes are supported"@)
    } else if cdata[5] != 0 {
        Err("nbit: big-endian datasets are not supported"@)
    } else if cdata[6] + cdata[7] > cdata[4] * 8 || cdata[6] == 0 {
        Err("nbit: bad precision/offset"@)
    } else if cdata[2] * cdata[6] > 8 * data.len() {
        Err("bit-packed stream too short"@)
    } else {
        let k = Packing {
            nelmts: cdata[2] as int,
            size: cdata[4] as int,
            precision: cdata[6] as int,
            offset: cdata[7] as int,
        };
        Ok(Seq::new((k.nelmts * k.size) as nat, |i: int| unpacked_byte(bits(data), k, i)))
    }
}

/// Reads the significant bits of one element.
fn read_element(r: &mut BitReader, precision: u64) -> (out: Option<Vec<bool>>)
    requires
        old(r).wf(),
    ensures
        final(r).wf(),
        out is None <==> old(r).rest().len() < precision,
        out matches Some(v) ==> v@ == old(r).rest().take(precision as int) && final(r).rest() == old(
            r,
        ).rest().skip(precision as int),
{
    let mut v: Vec<bool> = Vec::new();
    let ghost start = r.rest();
    let mut i: u64 = 0;
    assert(start.skip(0) =~= start);
    while i < precision
        invariant
            r.wf(),
            i <= precision,
            start == old(r).rest(),
            i <= start.len(),
            v@ == start.take(i as int),
            r.rest() == start.skip(i as int),
        decreases precision - i,
    {
        match r.next_bit() {
            None => {
                return None;
            },
            Some(b) => {
                v.push(b);
                proof {
                    assert(start.skip(i as int).skip(1) =~= start.skip(i + 1));
                    assert(v@ =~= start.take(i + 1));
                }
                i += 1;
            },
        }
    }
    Some(v)
}

fn bit_at(v: &Vec<bool>, offset: u64, p: u64) -> (r: bool)
    requires
        offset + v@.len() <= u64::MAX,
    ensures
        r == (offset <= p < offset + v@.len() && v@[v@.len() - 1 - (p - offset)]),
{
    if p < offset {
        return false;
    }
    let d: u64 = p - offset;
    if d >= v.len() as u64 {
        return false;
    }
    v[v.len() - 1 - d as usize]
}

fn as_byte(b: bool) -> (r: u8)
    ensures
        r == bit_value(b),
{
    if b {
        1
    } else {
        0
    }
}

/// The bytes of one element whose significant bits are `v`.
fn push_element(out: &mut Vec<u8>, v: &Vec<bool>, size: u64, offset: u64)
    requires
        offset + v@.len() <= 8 * size <= u64::MAX,
    ensures
        final(out)@.len() == old(out)@.len() + size,
        forall|i: int| 0 <= i < old(out)@.len() ==> #[trigger] final(out)@[i] == old(out)@[i],
        forall|i: int|
            0 <= i < size ==> #[trigger] final(out)@[old(out)@.len() + i] == byte_with(
                |b: int|
                    offset <= 8 * i + b < offset + v@.len() && v@[v@.len() - 1 - (8 * i + b
                        - offset)],
            ),
{
    let ghost start = out@;
    let mut k: u64 = 0;
    while k < size
        invariant
            k <= size,
            offset + v@.len() <= 8 * size <= u64::MAX,
            start == old(out)@,
            out@.len() == start.len() + k,
            forall|i: int| 0 <= i < start.len() ==> #[trigger] out@[i] == start[i],
            forall|i: int|
                0 <= i < k ==> #[trigger] out@[start.len() + i] == byte_with(
                    |b: int|
                        offset <= 8 * i + b < offset + v@.len() && v@[v@.len() - 1 - (8 * i + b
                            - offset)],
                ),
        decreases size - k,
    {
        let p: u64 = 8 * k;
        let byte: u8 = as_byte(bit_at(v, offset, p)) + 2 * as_byte(bit_at(v, offset, p + 1)) + 4
            * as_byte(bit_at(v, offset, p + 2)) + 8 * as_byte(bit_at(v, offset, p + 3)) + 16
            * as_byte(bit_at(v, offset, p + 4)) + 32 * as_byte(bit_at(v, offset, p + 5)) + 64
            * as_byte(bit_at(v, offset, p + 6)) + 128 * as_byte(bit_at(v, offset, p + 7));
        proof {
            let f = |b: int|
                offset <= 8 * (k as int) + b < offset + v@.len() && v@[v@.len() - 1 - (8 * (
                k as int) + b - offset)];
            assert(byte == byte_with(f));
        }
        out.push(byte);
        k += 1;
    }
}

proof fn lemma_element_span(n: int, p: int, e: int, total: int)
    requires
        0 <= e < n,
        p > 0,
        total >= 0,
    ensures
        n * p <= total ==> (e + 1) * p <= total,
        (e + 1) * p == e * p + p,
        (e + 1) * p > total ==> n * p > total,
        0 <= e * p,
{
    assert((e + 1) * p == e * p + p && 0 <= e * p && (e + 1) * p <= n * p) by (nonlinear_arith)
        requires
            0 <= e < n,
            p > 0,
    ;
}

/// Decodes a chunk of the N-bit filter.
pub fn nbit_decompress(cdata: &[u32], data: &[u8]) -> (r: Result<Vec<u8>, Error>)
    ensures
        same_bytes(r, nbit_decoded(cdata@, data@)),
{
    if cdata.len() < 3 {
        return Err(Error::new("nbit: missing parameters"));
    }
    if cdata[1] != 0 {
        return Ok(vstd::slice::slice_to_vec(data));
    }
    if cdata.len() < 8 {
        return Err(Error::new("nbit: missing parameters"));
    }
    if cdata[3] != 1 {
        return Err(Error::new("nbit: only atomic datatypes are supported"));
    }
    if cdata[5] != 0 {
        return Err(Error::new("nbit: big-endian datasets are not supported"));
    }
    let nelmts: u64 = cdata[2] as u64;
    let size: u64 = cdata[4] as u64;
    let precision: u64 = cdata[6] as u64;
    let offset: u64 = cdata[7] as u64;
    if precision + offset > size * 8 || precision == 0 {
        return Err(Error::new("nbit: bad precision/offset"));
    }
    let ghost k = Packing {
        nelmts: nelmts as int,
        size: size as int,
        precision: precision as int,
        offset: offset as int,
    };
    let ghost packed = bits(data@);
    let mut reader = BitReader::new(data);
    let mut out: Vec<u8> = Vec::new();
    let mut e: u64 = 0;
    assert(packed.skip(0) =~= packed);
    while e < nelmts
        invariant
            reader.wf(),
            e <= nelmts,
            precision > 0,
            k == (Packing {
                nelmts: nelmts as int,
                size: size as int,
                precision: precision as int,
                offset: offset as int,
            }),
            offset + precision <= 8 * size <= u64::MAX,
            size > 0,
            packed == bits(data@),
            packed.len() == 8 * data@.len(),
            e * precision <= packed.len(),
            reader.rest() == packed.skip(e * precision),
            out@.len() == e * size,
            forall|i: int| 0 <= i < e * size ==> #[trigger] out@[i] == unpacked_byte(packed, k, i),
            nbit_decoded(cdata@, data@) == (if nelmts * precision > packed.len() {
                Err("bit-packed stream too short"@)
            } else {
                Ok(Seq::new((k.nelmts * k.size) as nat, |i: int| unpacked_byte(packed, k, i)))
            }),
        decreases nelmts - e,
    {
        proof {
            lemma_element_span(nelmts as int, precision as int, e as int, packed.len() as int);
            lemma_element_span(nelmts as int, size as int, e as int, 0);
        }
        match read_element(&mut reader, precision) {
            None => {
                return Err(Error::new("bit-packed stream too short"));
            },
            Some(v) => {
                let ghost before = out@;
                push_element(&mut out, &v, size, offset);
                proof {
                    assert(packed.skip(e * precision).skip(precision as int) =~= packed.skip(
                        (e + 1) * precision,
                    ));
                    assert forall|i: int| 0 <= i < (e + 1) * size implies #[trigger] out@[i]
                        == unpacked_byte(packed, k, i) by {
                        if i < e * size {
                            assert(out@[i] == before[i]);
                        } else {
                            let j = i - e * size;
                            vstd::arithmetic::div_mod::lemma_fundamental_div_mod_converse(
                                i,
                                size as int,
                                e as int,
                                j,
                            );
                            assert(out@[before.len() + j] == out@[i]);
                            let f = |b: int|
                                offset <= 8 * j + b < offset + v@.len() && v@[v@.len() - 1 - (8 * j
                                    + b - offset)];
                            let g = |b: int| element_bit(packed, k, i / k.size, 8 * (i % k.size) + b);
                            assert forall|b: int| 0 <= b < 8 implies #[trigger] f(b) == g(b) by {
                                let p = 8 * j + b;
                                if offset <= p < offset + precision {
                                    let t = precision - 1 - (p - offset);
                                    assert(v@[t] == packed[e * precision + t]);
                                }
                            }
                            assert(out@[i] == byte_with(f));
                            assert(f(0) == g(0));
                            assert(f(1) == g(1));
                            assert(f(2) == g(2));
                            assert(f(3) == g(3));
                            assert(f(4) == g(4));
                            assert(f(5) == g(5));
                            assert(f(6) == g(6));
                            assert(f(7) == g(7));
                        }
                    }
                }
                e += 1;
            },
        }
    }
    assert(out@ =~= Seq::new((k.nelmts * k.size) as nat, |i: int| unpacked_byte(packed, k, i)));
    Ok(out)
}

} // verus!
