//! The blosc frame: a 16-byte header, one start offset per block, and per block
//! one or more streams, each with its compressed size in front.

use vstd::arithmetic::div_mod::{lemma_fundamental_div_mod, lemma_mod_bound};
use vstd::prelude::*;

use crate::error::{bytes_view, same_bytes, Error};
use crate::format::bitshuffle::{
    bitshuffle_block, bitshuffled, bitunshuffle_block, bitunshuffled, law_bitunshuffle_bitshuffle,
};
use crate::format::blosclz::{
    blosclz_compress, blosclz_decoded, blosclz_decompress, blosclz_encoding, law_blosclz_round_trip,
};
use crate::format::codec_bounds::{
    is_lz4_bounded, is_zstd_bounded, lemma_short_block, lz4_bounded, zstd_bounded,
};
use crate::format::codecs::{
    gives, lz4_compress, lz4_decompress, lz4_plain, snappy_block, snappy_compress,
    snappy_decompress, snappy_plain, zlib_compress, zlib_decompress, zlib_plain, zlib_stream,
    zstd_decompress, zstd_plain,
};
use crate::format::shuffle::{law_unshuffle_shuffle, shuffle, shuffled, unshuffle, unshuffled};
use crate::format::{
    law_le_round_trip, le_at, le_bytes, lemma_le_bytes_len, lemma_pow256, lemma_le_bound, uint_of,
    zeroes, Buf,
};
use crate::text::{decimal, join, with_number};

verus! {

pub const CODEC_BLOSCLZ: u8 = 0;

pub const CODEC_LZ4: u8 = 1;

pub const CODEC_SNAPPY: u8 = 2;

pub const CODEC_ZLIB: u8 = 3;

pub const CODEC_ZSTD: u8 = 4;

const MAX_BLOCK: usize = 262144;

/// The fields of a frame header.
pub struct Header {
    pub flags: int,
    pub typesize: int,
    pub nbytes: int,
    pub blocksize: int,
    pub cbytes: int,
}

pub open spec fn header_of(src: Seq<u8>) -> Header {
    Header {
        flags: src[2] as int,
        typesize: src[3] as int,
        nbytes: le_at(src, 4, 4) as int,
        blocksize: if le_at(src, 8, 4) == 0 {
            1
        } else {
            le_at(src, 8, 4) as int
        },
        cbytes: le_at(src, 12, 4) as int,
    }
}

pub open spec fn byte_shuffled(h: Header) -> bool {
    h.flags % 2 == 1 && h.typesize > 1
}

pub open spec fn bit_shuffled(h: Header) -> bool {
    (h.flags / 4) % 2 == 1 && h.typesize >= 1
}

pub open spec fn stored_whole(h: Header) -> bool {
    (h.flags / 2) % 2 == 1
}

/// `n / d`, rounded up.
pub open spec fn ceil_div(n: int, d: int) -> int {
    (n + d - 1) / d
}

pub open spec fn block_count(h: Header) -> int {
    ceil_div(h.nbytes, h.blocksize)
}

/// Whether block `j` is a shorter last one.
pub open spec fn is_leftover(h: Header, j: int) -> bool {
    j == block_count(h) - 1 && h.nbytes % h.blocksize > 0
}

pub open spec fn block_len(h: Header, j: int) -> int {
    if is_leftover(h, j) {
        h.nbytes % h.blocksize
    } else {
        h.blocksize
    }
}

/// The number of streams of block `j`: one per byte of an element, if blocks may be
/// split and are large enough.
pub open spec fn split_count(h: Header, j: int) -> int {
    if (h.flags / 16) % 2 == 0 && 1 <= h.typesize <= 16 && h.blocksize / h.typesize >= 128
        && !is_leftover(h, j) {
        h.typesize
    } else {
        1
    }
}

/// `r`, with `prefix` before the text of an error.
pub open spec fn prefixed(prefix: Seq<char>, r: Result<Seq<u8>, Seq<char>>) -> Result<
    Seq<u8>,
    Seq<char>,
> {
    match r {
        Ok(v) => Ok(v),
        Err(e) => Err(prefix + e),
    }
}

/// What a codec decompresses a stream to, when `size` bytes are wanted.
pub open spec fn stream_plain(codec: int, payload: Seq<u8>, size: nat) -> Result<
    Seq<u8>,
    Seq<char>,
> {
    if codec == 0 {
        blosclz_decoded(payload, size)
    } else if codec == 1 {
        if lz4_bounded(payload, size) {
            prefixed("blosc/lz4: "@, lz4_plain(payload, size))
        } else {
            Err("blosc/lz4: length out of range"@)
        }
    } else if codec == 2 {
        prefixed("blosc/snappy: "@, snappy_plain(payload))
    } else if codec == 3 {
        prefixed("blosc/zlib: "@, zlib_plain(payload))
    } else if codec == 4 {
        if zstd_bounded(payload) {
            prefixed("blosc/zstd: "@, zstd_plain(payload))
        } else {
            Err("blosc/zstd: block out of range"@)
        }
    } else {
        Err("blosc: unknown codec "@ + decimal(codec as nat))
    }
}

/// What the `n` streams from `off` on decompress to, `size` bytes each.
pub open spec fn streams_decoded(src: Seq<u8>, codec: int, off: int, size: nat, n: nat) -> Result<
    Seq<u8>,
    Seq<char>,
>
    decreases n,
{
    if n == 0 {
        Ok(Seq::empty())
    } else if off + 4 > src.len() {
        Err("blosc: truncated stream size"@)
    } else {
        let csize = le_at(src, off, 4) as int;
        if csize >= 0x8000_0000 {
            Err("blosc: negative stream size"@)
        } else if csize == 0 {
            match streams_decoded(src, codec, off + 4, size, (n - 1) as nat) {
                Ok(tail) => Ok(zeroes(size) + tail),
                Err(e) => Err(e),
            }
        } else if off + 4 + csize > src.len() {
            Err("blosc: truncated stream"@)
        } else {
            let payload = src.subrange(off + 4, off + 4 + csize);
            let plain = if csize == size {
                Ok(payload)
            } else {
                stream_plain(codec, payload, size)
            };
            match plain {
                Err(e) => Err(e),
                Ok(p) => if p.len() != size {
                    Err("blosc: stream decompressed to wrong size"@)
                } else {
                    match streams_decoded(src, codec, off + 4 + csize, size, (n - 1) as nat) {
                        Ok(tail) => Ok(p + tail),
                        Err(e) => Err(e),
                    }
                },
            }
        }
    }
}

/// A block after its shuffling was undone.
pub open spec fn block_restored(h: Header, block: Seq<u8>) -> Seq<u8> {
    let b = if byte_shuffled(h) {
        unshuffled(h.typesize, block)
    } else {
        block
    };
    if bit_shuffled(h) {
        bitunshuffled(h.typesize, b)
    } else {
        b
    }
}

/// What block `j` decompresses to.
pub open spec fn block_decoded(src: Seq<u8>, h: Header, j: int) -> Result<Seq<u8>, Seq<char>> {
    let n = split_count(h, j);
    let size = block_len(h, j) / n;
    match streams_decoded(src, h.flags / 32, le_at(src, 16 + 4 * j, 4) as int, size as nat, n as nat) {
        Err(e) => Err(e),
        Ok(block) => if block.len() != block_len(h, j) {
            Err("blosc: block decompressed to wrong size"@)
        } else {
            Ok(block_restored(h, block))
        },
    }
}

/// What the blocks from `j` on decompress to.
pub open spec fn blocks_decoded(src: Seq<u8>, h: Header, j: int) -> Result<Seq<u8>, Seq<char>>
    decreases block_count(h) - j,
{
    if j >= block_count(h) {
        Ok(Seq::empty())
    } else {
        match block_decoded(src, h, j) {
            Err(e) => Err(e),
            Ok(b) => match blocks_decoded(src, h, j + 1) {
                Err(e) => Err(e),
                Ok(tail) => Ok(b + tail),
            },
        }
    }
}

/// What a frame decompresses to.
pub open spec fn blosc_decoded(src: Seq<u8>) -> Result<Seq<u8>, Seq<char>> {
    let h = header_of(src);
    if src.len() < 16 {
        Err("blosc: frame too short"@)
    } else if h.cbytes > src.len() {
        Err("blosc: cbytes exceeds input"@)
    } else if h.nbytes == 0 {
        Ok(Seq::empty())
    } else if stored_whole(h) {
        if 16 + h.nbytes > src.len() {
            Err("blosc: memcpyed frame too short"@)
        } else {
            Ok(src.subrange(16, 16 + h.nbytes))
        }
    } else if 16 + 4 * block_count(h) > src.len() {
        Err("blosc: truncated block starts"@)
    } else {
        blocks_decoded(src, h, 0)
    }
}

fn read_u32(src: &[u8], at: usize) -> (r: u32)
    requires
        at + 4 <= src@.len(),
    ensures
        r == le_at(src@, at as int, 4),
{
    let total: usize = src.len();
    assert(at + 4 <= total);
    let s = vstd::slice::slice_subrange(src, at, at + 4);
    proof {
        lemma_le_bound(s@);
        lemma_pow256();
    }
    uint_of(s) as u32
}

fn with_prefix(prefix: &str, r: Result<Vec<u8>, String>) -> (out: Result<Vec<u8>, Error>)
    ensures
        match r {
            Ok(v) => out matches Ok(w) && w@ == v@,
            Err(e) => out matches Err(f) && f@ == prefix@ + e@,
        },
{
    match r {
        Ok(v) => Ok(v),
        Err(e) => Err(Error::from_text(join(prefix, e.as_str()))),
    }
}

fn decompress_stream(codec: u8, payload: &[u8], size: usize) -> (r: Result<Vec<u8>, Error>)
    ensures
        same_bytes(r, stream_plain(codec as int, payload@, size as nat)),
{
    match codec {
        0 => blosclz_decompress(payload, size),
        1 => if is_lz4_bounded(payload, size) {
            with_prefix("blosc/lz4: ", lz4_decompress(payload, size))
        } else {
            Err(Error::new("blosc/lz4: length out of range"))
        },
        2 => with_prefix("blosc/snappy: ", snappy_decompress(payload)),
        3 => with_prefix("blosc/zlib: ", zlib_decompress(payload)),
        4 => if is_zstd_bounded(payload) {
            with_prefix("blosc/zstd: ", zstd_decompress(payload))
        } else {
            Err(Error::new("blosc/zstd: block out of range"))
        },
        c => Err(Error::from_text(with_number("blosc: unknown codec ", c as u64))),
    }
}

fn read_streams(src: &[u8], codec: u8, start: usize, size: usize, n: usize) -> (r: Result<
    Vec<u8>,
    Error,
>)
    ensures
        same_bytes(r, streams_decoded(src@, codec as int, start as int, size as nat, n as nat)),
{
    let total: usize = src.len();
    let mut block: Vec<u8> = Vec::new();
    let mut off: usize = start;
    let mut k: usize = 0;
    let ghost whole = streams_decoded(src@, codec as int, start as int, size as nat, n as nat);
    assert(match whole {
        Ok(t) => block@ + t =~= t,
        Err(e) => true,
    });
    while k < n
        invariant
            k <= n,
            total == src@.len(),
            whole == (match streams_decoded(
                src@,
                codec as int,
                off as int,
                size as nat,
                (n - k) as nat,
            ) {
                Ok(t) => Ok(block@ + t),
                Err(e) => Err(e),
            }),
            whole == streams_decoded(src@, codec as int, start as int, size as nat, n as nat),
        decreases n - k,
    {
        if off > total || total - off < 4 {
            return Err(Error::new("blosc: truncated stream size"));
        }
        let csize: u32 = read_u32(src, off);
        let ghost off0 = off as int;
        let ghost before = block@;
        off += 4;
        if csize >= 0x8000_0000u32 {
            return Err(Error::new("blosc: negative stream size"));
        }
        let csize: usize = csize as usize;
        if csize == 0 {
            let mut z: Vec<u8> = vec![0u8; size];
            assert(z@ =~= zeroes(size as nat));
            block.append(&mut z);
            proof {
                let rest = streams_decoded(
                    src@,
                    codec as int,
                    off as int,
                    size as nat,
                    (n - k - 1) as nat,
                );
                if let Ok(t) = rest {
                    assert(before + (zeroes(size as nat) + t) =~= block@ + t);
                }
            }
        } else {
            if csize > total - off {
                return Err(Error::new("blosc: truncated stream"));
            }
            let payload = vstd::slice::slice_subrange(src, off, off + csize);
            off += csize;
            let mut plain: Vec<u8> = if csize == size {
                vstd::slice::slice_to_vec(payload)
            } else {
                decompress_stream(codec, payload, size)?
            };
            if plain.len() != size {
                return Err(Error::new("blosc: stream decompressed to wrong size"));
            }
            let ghost p = plain@;
            block.append(&mut plain);
            proof {
                let rest = streams_decoded(
                    src@,
                    codec as int,
                    off as int,
                    size as nat,
                    (n - k - 1) as nat,
                );
                if let Ok(t) = rest {
                    assert(before + (p + t) =~= block@ + t);
                }
            }
        }
        k += 1;
    }
    assert(block@ + Seq::<u8>::empty() =~= block@);
    Ok(block)
}

/// The header fields of a frame that holds blocks.
struct FrameInfo {
    flags: u8,
    typesize: usize,
    nbytes: u32,
    blocksize: u32,
    nblocks: u64,
}

impl FrameInfo {
    spec fn describes(self, h: Header) -> bool {
        &&& h.flags == self.flags
        &&& h.typesize == self.typesize
        &&& h.nbytes == self.nbytes
        &&& h.blocksize == self.blocksize
        &&& self.blocksize >= 1
        &&& self.nblocks == block_count(h)
    }
}

fn read_block(src: &[u8], f: &FrameInfo, j: u64, Ghost(h): Ghost<Header>) -> (r: Result<
    Vec<u8>,
    Error,
>)
    requires
        f.describes(h),
        j < f.nblocks,
        16 + 4 * f.nblocks <= src@.len(),
    ensures
        same_bytes(r, block_decoded(src@, h, j as int)),
{
    let total: usize = src.len();
    let start: u32 = read_u32(src, (16 + 4 * j) as usize);
    let leftover: u32 = f.nbytes % f.blocksize;
    let short: bool = j == f.nblocks - 1 && leftover > 0;
    let bsize: usize = if short {
        leftover as usize
    } else {
        f.blocksize as usize
    };
    let may_split: bool = (f.flags / 16) % 2 == 0 && 1 <= f.typesize && f.typesize <= 16
        && f.blocksize as usize / f.typesize >= 128;
    let nsplits: usize = if may_split && !short {
        f.typesize
    } else {
        1
    };
    let mut block = read_streams(src, f.flags / 32, start as usize, bsize / nsplits, nsplits)?;
    if block.len() != bsize {
        return Err(Error::new("blosc: block decompressed to wrong size"));
    }
    if f.flags % 2 == 1 && f.typesize > 1 {
        block = unshuffle(f.typesize, block.as_slice());
    }
    if (f.flags / 4) % 2 == 1 && f.typesize >= 1 {
        block = bitunshuffle_block(f.typesize, block.as_slice());
    }
    Ok(block)
}

/// Decompresses a blosc frame.
pub fn decompress(src: &[u8]) -> (r: Result<Vec<u8>, Error>)
    ensures
        same_bytes(r, blosc_decoded(src@)),
{
    let total: usize = src.len();
    if total < 16 {
        return Err(Error::new("blosc: frame too short"));
    }
    let ghost h = header_of(src@);
    let flags: u8 = src[2];
    let nbytes: u32 = read_u32(src, 4);
    let field: u32 = read_u32(src, 8);
    let blocksize: u32 = if field == 0 {
        1
    } else {
        field
    };
    let cbytes: u32 = read_u32(src, 12);
    if cbytes as u64 > total as u64 {
        return Err(Error::new("blosc: cbytes exceeds input"));
    }
    if nbytes == 0 {
        return Ok(Vec::new());
    }
    if (flags / 2) % 2 == 1 {
        if nbytes as u64 > (total - 16) as u64 {
            return Err(Error::new("blosc: memcpyed frame too short"));
        }
        let whole = vstd::slice::slice_subrange(src, 16, 16 + nbytes as usize);
        return Ok(vstd::slice::slice_to_vec(whole));
    }
    proof {
        lemma_blocks(nbytes as int, blocksize as int);
    }
    let nblocks: u64 = (nbytes as u64 + (blocksize as u64 - 1)) / blocksize as u64;
    if 16 + 4 * nblocks > total as u64 {
        return Err(Error::new("blosc: truncated block starts"));
    }
    let f = FrameInfo { flags, typesize: src[3] as usize, nbytes, blocksize, nblocks };
    let mut out: Vec<u8> = Vec::new();
    let mut j: u64 = 0;
    let ghost whole = blocks_decoded(src@, h, 0);
    assert(match whole {
        Ok(t) => out@ + t =~= t,
        Err(e) => true,
    });
    while j < nblocks
        invariant
            f.describes(h),
            f.nblocks == nblocks,
            16 + 4 * nblocks <= src@.len(),
            j <= nblocks,
            whole == (match blocks_decoded(src@, h, j as int) {
                Ok(t) => Ok(out@ + t),
                Err(e) => Err(e),
            }),
            whole == blosc_decoded(src@),
        decreases nblocks - j,
    {
        let mut block = read_block(src, &f, j, Ghost(h))?;
        let ghost before = out@;
        let ghost b = block@;
        out.append(&mut block);
        proof {
            if let Ok(t) = blocks_decoded(src@, h, j + 1) {
                assert(before + (b + t) =~= out@ + t);
            }
        }
        j += 1;
    }
    assert(out@ + Seq::<u8>::empty() =~= out@);
    Ok(out)
}

/// The element size that a frame records for a requested one.
pub open spec fn frame_typesize(typesize: int) -> int {
    if 1 <= typesize <= 255 {
        typesize
    } else {
        1
    }
}

/// The block size of a frame: 256 KiB or the whole data, down to a whole number of
/// elements.
pub open spec fn frame_blocksize(nbytes: int, ts: int) -> int {
    let whole = if nbytes == 0 {
        1
    } else {
        nbytes
    };
    let b = if whole < 262144 {
        whole
    } else {
        262144
    };
    if b % ts == 0 {
        b
    } else if b - b % ts < ts {
        ts
    } else {
        b - b % ts
    }
}

pub open spec fn block_prepared(shuffle: int, ts: int, raw: Seq<u8>) -> Seq<u8> {
    if shuffle == 1 && ts > 1 {
        shuffled(ts, raw)
    } else if shuffle == 2 {
        bitshuffled(ts, raw)
    } else {
        raw
    }
}

/// The LZ4 block that is given for block `j`, if any.
pub open spec fn lz4_at(lz4: Seq<Seq<u8>>, j: int) -> Option<Seq<u8>> {
    if 0 <= j < lz4.len() {
        Some(lz4[j])
    } else {
        None
    }
}

/// What a codec makes of a block, given its LZ4 block; `None` where it makes nothing,
/// and the block is stored.
pub open spec fn block_compressed(codec: int, block: Seq<u8>, lz4: Option<Seq<u8>>) -> Option<
    Seq<u8>,
> {
    if codec == 0 {
        if block.len() >= 16 && blosclz_encoding(block).len() < block.len() {
            Some(blosclz_encoding(block))
        } else {
            None
        }
    } else if codec == 1 {
        lz4
    } else if codec == 2 {
        snappy_block(block).ok()
    } else if codec == 3 {
        zlib_stream(block, 6).ok()
    } else {
        None
    }
}

/// The stream of a block: the compressed form if it is shorter, else the block.
pub open spec fn block_stream(codec: int, block: Seq<u8>, lz4: Option<Seq<u8>>) -> Seq<u8> {
    match block_compressed(codec, block, lz4) {
        Some(c) => if c.len() < block.len() {
            le_bytes(c.len(), 4) + c
        } else {
            le_bytes(block.len(), 4) + block
        },
        None => le_bytes(block.len(), 4) + block,
    }
}

/// The parameters of a frame to be written, with the LZ4 blocks of its blocks.
pub struct Plan {
    pub codec: int,
    pub shuffle: int,
    pub ts: int,
    pub bs: int,
    pub lz4: Seq<Seq<u8>>,
}

pub open spec fn plan_block(p: Plan, data: Seq<u8>, j: int) -> Seq<u8> {
    data.subrange(
        j * p.bs,
        if (j + 1) * p.bs < data.len() {
            (j + 1) * p.bs
        } else {
            data.len() as int
        },
    )
}

/// Block `j` as the codec gets it.
pub open spec fn plan_prepared(p: Plan, data: Seq<u8>, j: int) -> Seq<u8> {
    block_prepared(p.shuffle, p.ts, plan_block(p, data, j))
}

pub open spec fn plan_stream(p: Plan, data: Seq<u8>, j: int) -> Seq<u8> {
    block_stream(p.codec, plan_prepared(p, data, j), lz4_at(p.lz4, j))
}

/// The streams of the blocks from `j` to `n`.
pub open spec fn plan_body(p: Plan, data: Seq<u8>, j: int, n: int) -> Seq<u8>
    decreases n - j,
{
    if j >= n {
        Seq::empty()
    } else {
        plan_stream(p, data, j) + plan_body(p, data, j + 1, n)
    }
}

/// The start offsets of the blocks from `j` to `n`, the first at `off`.
pub open spec fn plan_starts(p: Plan, data: Seq<u8>, off: nat, j: int, n: int) -> Seq<u8>
    decreases n - j,
{
    if j >= n {
        Seq::empty()
    } else {
        le_bytes(off, 4) + plan_starts(p, data, off + plan_stream(p, data, j).len(), j + 1, n)
    }
}

pub open spec fn frame_flags(codec: int, shuffle: int, ts: int) -> int {
    (codec % 8) * 32 + 16 + (if shuffle == 1 && ts > 1 {
        1int
    } else {
        0
    }) + (if shuffle == 2 {
        4int
    } else {
        0
    })
}

/// The plan of a frame.
pub open spec fn frame_plan(
    codec: int,
    shuffle: int,
    typesize: int,
    nbytes: int,
    lz4: Seq<Seq<u8>>,
) -> Plan {
    let ts = frame_typesize(typesize);
    Plan { codec, shuffle, ts, bs: frame_blocksize(nbytes, ts), lz4 }
}

/// The frame that holds `data`, given the LZ4 blocks of its blocks.
pub open spec fn blosc_frame(
    codec: int,
    shuffle: int,
    typesize: int,
    data: Seq<u8>,
    lz4: Seq<Seq<u8>>,
) -> Seq<u8> {
    let p = frame_plan(codec, shuffle, typesize, data.len() as int, lz4);
    let n = ceil_div(data.len() as int, p.bs);
    let body = plan_body(p, data, 0, n);
    let first = (16 + 4 * n) as nat;
    seq![2u8, 1u8, frame_flags(codec, shuffle, p.ts) as u8, p.ts as u8] + le_bytes(data.len(), 4)
        + le_bytes(p.bs as nat, 4) + le_bytes((first + body.len()) as nat, 4) + plan_starts(
        p,
        data,
        first,
        0,
        n,
    ) + body
}

/// The frame that holds `data`, refused if its sizes do not fit their 32-bit fields.
pub open spec fn blosc_framed(
    codec: int,
    shuffle: int,
    typesize: int,
    data: Seq<u8>,
    lz4: Seq<Seq<u8>>,
) -> Result<Seq<u8>, Seq<char>> {
    let frame = blosc_frame(codec, shuffle, typesize, data, lz4);
    if data.len() <= u32::MAX && frame.len() <= u32::MAX {
        Ok(frame)
    } else {
        Err("blosc: data too large for a frame"@)
    }
}

/// Whether `lz4` holds LZ4 blocks of the blocks of `data`, for the LZ4 codec, and
/// nothing for the others. Data beyond 32-bit sizes have none.
pub open spec fn lz4_made(
    codec: int,
    shuffle: int,
    typesize: int,
    data: Seq<u8>,
    lz4: Seq<Seq<u8>>,
) -> bool {
    let p = frame_plan(codec, shuffle, typesize, data.len() as int, lz4);
    if codec == CODEC_LZ4 && data.len() <= u32::MAX {
        &&& lz4.len() == ceil_div(data.len() as int, p.bs)
        &&& forall|k: int|
            0 <= k < lz4.len() ==> lz4[k].len() > 0 && gives(
                lz4_plain(lz4[k], #[trigger] plan_prepared(p, data, k).len()),
                plan_prepared(p, data, k),
            )
    } else {
        lz4.len() == 0
    }
}

/// The bytes of some streams.
pub open spec fn stream_views(v: Seq<Vec<u8>>) -> Seq<Seq<u8>> {
    v.map_values(|s: Vec<u8>| s@)
}

fn compress_block(codec: u8, block: &[u8], lz4: Option<&Vec<u8>>) -> (r: Option<Vec<u8>>)
    requires
        block@.len() <= 0x10_0000,
    ensures
        match (r, block_compressed(codec as int, block@, given(lz4))) {
            (Some(v), Some(w)) => v@ == w,
            (None, None) => true,
            _ => false,
        },
        codec != CODEC_LZ4 ==> codec_faithful(codec as int, block@, given(lz4)),
{
    let n: usize = block.len();
    proof {
        lemma_own_codecs_faithful(if codec == 0 { 0 } else { 4 }, block@, given(lz4));
    }
    match codec {
        0 => blosclz_compress(block),
        1 => match lz4 {
            Some(v) => Some(vstd::slice::slice_to_vec(v.as_slice())),
            None => None,
        },
        2 => match snappy_compress(block) {
            Ok(v) => Some(v),
            Err(_) => None,
        },
        3 => match zlib_compress(block, 6) {
            Ok(v) => Some(v),
            Err(_) => None,
        },
        _ => None,
    }
}

spec fn given(lz4: Option<&Vec<u8>>) -> Option<Seq<u8>> {
    match lz4 {
        Some(v) => Some(v@),
        None => None,
    }
}

fn append_stream(out: &mut Buf, codec: u8, block: &[u8], lz4: Option<&Vec<u8>>)
    requires
        block@.len() <= 0x10_0000,
    ensures
        final(out)@ == old(out)@ + block_stream(codec as int, block@, given(lz4)),
        codec != CODEC_LZ4 ==> codec_faithful(codec as int, block@, given(lz4)),
{
    let ghost start = out@;
    let ghost stream = block_stream(codec as int, block@, given(lz4));
    match compress_block(codec, block, lz4) {
        Some(c) => {
            if c.len() < block.len() {
                out.u32(c.len() as u32);
                out.raw(c.as_slice());
                assert(out@ =~= start + stream);
            } else {
                out.u32(block.len() as u32);
                out.raw(block);
                assert(out@ =~= start + stream);
            }
        },
        None => {
            out.u32(block.len() as u32);
            out.raw(block);
            assert(out@ =~= start + stream);
        },
    }
}

proof fn lemma_plan_lengths(p: Plan, data: Seq<u8>, off: nat, j: int, n: int)
    requires
        0 <= j <= n,
    ensures
        plan_starts(p, data, off, j, n).len() == 4 * (n - j),
    decreases n - j,
{
    if j < n {
        lemma_le_bytes_len(off, 4);
        lemma_plan_lengths(p, data, off + plan_stream(p, data, j).len(), j + 1, n);
    }
}

proof fn lemma_blocks(nbytes: int, bs: int)
    requires
        bs > 0,
        nbytes >= 0,
    ensures
        0 <= ceil_div(nbytes, bs) <= nbytes,
        nbytes <= ceil_div(nbytes, bs) * bs,
        ceil_div(nbytes, bs) > 0 ==> (ceil_div(nbytes, bs) - 1) * bs < nbytes,
        nbytes == 0 ==> ceil_div(nbytes, bs) == 0,
        forall|j: int| 0 <= j < ceil_div(nbytes, bs) ==> 0 <= #[trigger] (j * bs) < nbytes,
{
    let m = nbytes + bs - 1;
    let n = m / bs;
    lemma_fundamental_div_mod(m, bs);
    lemma_mod_bound(m, bs);
    vstd::arithmetic::div_mod::lemma_div_pos_is_pos(m, bs);
    let r = m % bs;
    assert(nbytes <= n * bs && (n > 0 ==> (n - 1) * bs < nbytes)) by (nonlinear_arith)
        requires
            nbytes + bs - 1 == bs * n + r,
            0 <= r < bs,
    ;
    assert(n <= nbytes) by (nonlinear_arith)
        requires
            nbytes + bs - 1 == bs * n + r,
            0 <= r < bs,
            bs >= 1,
            nbytes >= 0,
    ;
    if nbytes == 0 {
        assert(n == 0) by (nonlinear_arith)
            requires
                bs - 1 == bs * n + r,
                0 <= r < bs,
                n >= 0,
        ;
    }
    assert forall|j: int| 0 <= j < n implies 0 <= #[trigger] (j * bs) < nbytes by {
        assert(0 <= j * bs <= (n - 1) * bs) by (nonlinear_arith)
            requires
                0 <= j <= n - 1,
                bs > 0,
        ;
    }
}

proof fn lemma_blocksize(nbytes: int, ts: int)
    requires
        nbytes >= 0,
        1 <= ts <= 255,
    ensures
        1 <= frame_blocksize(nbytes, ts) <= 262144,
{
    let b = if nbytes == 0 {
        1
    } else if nbytes < 262144 {
        nbytes
    } else {
        262144
    };
    lemma_mod_bound(b, ts);
}

fn choose_blocksize(nbytes: usize, ts: usize) -> (r: usize)
    requires
        1 <= ts <= 255,
    ensures
        r == frame_blocksize(nbytes as int, ts as int),
        1 <= r <= 262144,
{
    let whole: usize = if nbytes == 0 {
        1
    } else {
        nbytes
    };
    let b: usize = if whole < MAX_BLOCK {
        whole
    } else {
        MAX_BLOCK
    };
    proof {
        lemma_blocksize(nbytes as int, ts as int);
        lemma_mod_bound(b as int, ts as int);
        vstd::arithmetic::div_mod::lemma_mod_decreases(b as nat, ts as nat);
    }
    let extra: usize = b % ts;
    if extra == 0 {
        b
    } else if b - extra < ts {
        ts
    } else {
        b - extra
    }
}

/// Block `j` of `data`, as the codec gets it.
fn prepare_block(p: Ghost<Plan>, shuffle_mode: u8, ts: usize, bs: usize, data: &[u8], j: u64) -> (r:
    Vec<u8>)
    requires
        p@.shuffle == shuffle_mode,
        p@.ts == ts,
        p@.bs == bs,
        1 <= ts <= 255,
        1 <= bs <= 262144,
        data@.len() <= u32::MAX,
        j < ceil_div(data@.len() as int, bs as int),
    ensures
        r@ == plan_prepared(p@, data@, j as int),
        r@.len() <= 0x10_0000,
{
    let nbytes: usize = data.len();
    proof {
        lemma_blocks(nbytes as int, bs as int);
        assert(0 <= j * bs < nbytes);
        assert((j + 1) * bs == j * bs + bs) by (nonlinear_arith);
    }
    let start: usize = j as usize * bs;
    let end: usize = if nbytes - start < bs {
        nbytes
    } else {
        start + bs
    };
    let raw = vstd::slice::slice_subrange(data, start, end);
    assert(raw@ =~= plan_block(p@, data@, j as int));
    proof {
        law_unshuffle_shuffle(ts as int, raw@);
        law_bitunshuffle_bitshuffle(ts as int, raw@);
    }
    if shuffle_mode == 1 && ts > 1 {
        shuffle(ts, raw)
    } else if shuffle_mode == 2 {
        bitshuffle_block(ts, raw)
    } else {
        vstd::slice::slice_to_vec(raw)
    }
}

/// The start offsets and the streams of all blocks; `None` if the offsets grow
/// beyond 32 bits.
fn write_blocks(
    plan: Ghost<Plan>,
    codec: u8,
    shuffle_mode: u8,
    ts: usize,
    bs: usize,
    nblocks: u64,
    data: &[u8],
    lz4: &Vec<Vec<u8>>,
) -> (r: Option<(Buf, Buf)>)
    requires
        plan@ == (Plan {
            codec: codec as int,
            shuffle: shuffle_mode as int,
            ts: ts as int,
            bs: bs as int,
            lz4: stream_views(lz4@),
        }),
        1 <= ts <= 255,
        1 <= bs <= 262144,
        data@.len() <= u32::MAX,
        nblocks == ceil_div(data@.len() as int, bs as int),
        nblocks <= data@.len(),
    ensures
        ({
            let body = plan_body(plan@, data@, 0, nblocks as int);
            match r {
                Some((s, b)) => b@ == body && s@ == plan_starts(
                    plan@,
                    data@,
                    (16 + 4 * nblocks) as nat,
                    0,
                    nblocks as int,
                ) && (codec != CODEC_LZ4 ==> all_faithful(plan@, data@, nblocks as int)),
                None => 16 + 4 * nblocks + body.len() > u32::MAX,
            }
        }),
{
    let nbytes: usize = data.len();
    let ghost n = nblocks as int;
    let ghost p = plan@;
    let first: u64 = 16 + 4 * nblocks;
    let ghost all_starts = plan_starts(p, data@, first as nat, 0, n);
    let ghost all_body = plan_body(p, data@, 0, n);
    let mut starts = Buf::new();
    let mut body = Buf::new();
    let mut j: u64 = 0;
    assert(starts@ + all_starts =~= all_starts);
    assert(body@ + all_body =~= all_body);
    while j < nblocks
        invariant
            nbytes == data@.len(),
            nbytes <= u32::MAX,
            1 <= ts <= 255,
            1 <= bs <= 262144,
            n == nblocks,
            n == ceil_div(nbytes as int, bs as int),
            n <= nbytes,
            p == plan@,
            p == (Plan {
                codec: codec as int,
                shuffle: shuffle_mode as int,
                ts: ts as int,
                bs: bs as int,
                lz4: stream_views(lz4@),
            }),
            first == 16 + 4 * n,
            j <= nblocks,
            all_body == plan_body(p, data@, 0, n),
            starts@ + plan_starts(p, data@, first as nat + body@.len(), j as int, n) == all_starts,
            body@ + plan_body(p, data@, j as int, n) == all_body,
            codec != CODEC_LZ4 ==> all_faithful(p, data@, j as int),
        decreases nblocks - j,
    {
        if body.len() as u64 > 0xffff_ffffu64 || first + body.len() as u64 > 0xffff_ffffu64 {
            assert(all_body.len() >= body@.len());
            return None;
        }
        let ghost starts0 = starts@;
        let ghost body0 = body@;
        let off: u64 = first + body.len() as u64;
        starts.u32(off as u32);
        let block = prepare_block(Ghost(p), shuffle_mode, ts, bs, data, j);
        let stream: Option<&Vec<u8>> = if j < lz4.len() as u64 {
            Some(&lz4[j as usize])
        } else {
            None
        };
        assert(given(stream) == lz4_at(p.lz4, j as int));
        append_stream(&mut body, codec, block.as_slice(), stream);
        proof {
            let s = plan_stream(p, data@, j as int);
            assert(body@ == body0 + s);
            let tail = plan_body(p, data@, j + 1, n);
            assert(body@ + tail =~= body0 + (s + tail));
            let stail = plan_starts(p, data@, first as nat + body@.len(), j + 1, n);
            assert(starts@ + stail =~= starts0 + (le_bytes(off as nat, 4) + stail));
            assert(first as nat + body0.len() + s.len() == first as nat + body@.len());
        }
        j += 1;
    }
    proof {
        assert(starts@ + plan_starts(p, data@, first as nat + body@.len(), n, n) =~= starts@);
        assert(body@ + plan_body(p, data@, n, n) =~= body@);
    }
    Some((starts, body))
}

/// The length of a frame.
proof fn lemma_frame_len(
    codec: int,
    shuffle_mode: int,
    typesize: int,
    data: Seq<u8>,
    lz4: Seq<Seq<u8>>,
)
    ensures
        ({
            let p = frame_plan(codec, shuffle_mode, typesize, data.len() as int, lz4);
            let n = ceil_div(data.len() as int, p.bs);
            &&& 1 <= p.ts <= 255
            &&& 1 <= p.bs <= 262144
            &&& 0 <= n <= data.len()
            &&& blosc_frame(codec, shuffle_mode, typesize, data, lz4).len() == 16 + 4 * n
                + plan_body(p, data, 0, n).len()
        }),
{
    let p = frame_plan(codec, shuffle_mode, typesize, data.len() as int, lz4);
    lemma_blocksize(data.len() as int, p.ts);
    lemma_blocks(data.len() as int, p.bs);
    let n = ceil_div(data.len() as int, p.bs);
    let first = (16 + 4 * n) as nat;
    lemma_plan_lengths(p, data, first, 0, n);
    lemma_le_bytes_len(data.len(), 4);
    lemma_le_bytes_len(p.bs as nat, 4);
    lemma_le_bytes_len((first + plan_body(p, data, 0, n).len()) as nat, 4);
}

/// Puts `data` into a blosc frame of single-stream blocks with the requested codec; a
/// block that does not get shorter is stored. What the LZ4 codec makes of the blocks
/// is given. Data whose sizes do not fit the 32-bit fields of a frame are refused.
pub fn frame_with(
    codec: u8,
    shuffle_mode: u8,
    typesize: usize,
    data: &[u8],
    lz4: &Vec<Vec<u8>>,
) -> (r: Result<Vec<u8>, Error>)
    ensures
        same_bytes(
            r,
            blosc_framed(
                codec as int,
                shuffle_mode as int,
                typesize as int,
                data@,
                stream_views(lz4@),
            ),
        ),
        codec < 8 && lz4_made(
            codec as int,
            shuffle_mode as int,
            typesize as int,
            data@,
            stream_views(lz4@),
        ) ==> (r matches Ok(v) ==> blosc_decoded(v@) == Ok::<Seq<u8>, Seq<char>>(data@)),
{
    let ghost views = stream_views(lz4@);
    let ghost p = frame_plan(
        codec as int,
        shuffle_mode as int,
        typesize as int,
        data@.len() as int,
        views,
    );
    let ghost frame = blosc_frame(
        codec as int,
        shuffle_mode as int,
        typesize as int,
        data@,
        views,
    );
    proof {
        lemma_frame_len(codec as int, shuffle_mode as int, typesize as int, data@, views);
    }
    let nbytes: usize = data.len();
    if nbytes as u64 > 0xffff_ffffu64 {
        return Err(Error::new("blosc: data too large for a frame"));
    }
    let ts: usize = if 1 <= typesize && typesize <= 255 {
        typesize
    } else {
        1
    };
    let bs: usize = choose_blocksize(nbytes, ts);
    let nblocks: u64 = (nbytes as u64 + (bs as u64 - 1)) / bs as u64;
    let first: u64 = 16 + 4 * nblocks;
    let (starts, body) = match write_blocks(
        Ghost(p),
        codec,
        shuffle_mode,
        ts,
        bs,
        nblocks,
        data,
        lz4,
    ) {
        Some(pair) => pair,
        None => {
            return Err(Error::new("blosc: data too large for a frame"));
        },
    };
    if body.len() as u64 > 0xffff_ffffu64 || first + body.len() as u64 > 0xffff_ffffu64 {
        return Err(Error::new("blosc: data too large for a frame"));
    }
    let flags: u8 = (codec % 8) * 32 + 16 + (if shuffle_mode == 1 && ts > 1 {
        1u8
    } else {
        0u8
    }) + (if shuffle_mode == 2 {
        4u8
    } else {
        0u8
    });
    let mut out = Buf::new();
    out.u8(2);
    out.u8(1);
    out.u8(flags);
    out.u8(ts as u8);
    assert(out@ =~= seq![2u8, 1u8, flags, ts as u8]);
    out.u32(nbytes as u32);
    out.u32(bs as u32);
    out.u32((first + body.len() as u64) as u32);
    out.raw(starts.bytes.as_slice());
    out.raw(body.bytes.as_slice());
    assert(out@ == frame);
    proof {
        if codec < 8 && lz4_made(
            codec as int,
            shuffle_mode as int,
            typesize as int,
            data@,
            views,
        ) {
            if codec == CODEC_LZ4 {
                lemma_lz4_faithful(shuffle_mode as int, typesize as int, data@, views);
            }
            lemma_frame_decodes(codec as int, shuffle_mode as int, typesize as int, data@, views);
        }
    }
    Ok(out.bytes)
}

/// LZ4 blocks of the blocks of `data`.
fn lz4_blocks(shuffle_mode: u8, typesize: usize, data: &[u8]) -> (r: Vec<Vec<u8>>)
    requires
        data@.len() <= u32::MAX,
    ensures
        lz4_made(
            CODEC_LZ4 as int,
            shuffle_mode as int,
            typesize as int,
            data@,
            stream_views(r@),
        ),
{
    let nbytes: usize = data.len();
    let ts: usize = if 1 <= typesize && typesize <= 255 {
        typesize
    } else {
        1
    };
    let bs: usize = choose_blocksize(nbytes, ts);
    let ghost p = frame_plan(
        CODEC_LZ4 as int,
        shuffle_mode as int,
        typesize as int,
        nbytes as int,
        Seq::empty(),
    );
    let nblocks: u64 = (nbytes as u64 + (bs as u64 - 1)) / bs as u64;
    proof {
        lemma_blocks(nbytes as int, bs as int);
    }
    let mut out: Vec<Vec<u8>> = Vec::new();
    let mut j: u64 = 0;
    while j < nblocks
        invariant
            nbytes == data@.len(),
            nbytes <= u32::MAX,
            1 <= ts <= 255,
            1 <= bs <= 262144,
            p.shuffle == shuffle_mode,
            p.ts == ts,
            p.bs == bs,
            nblocks == ceil_div(nbytes as int, bs as int),
            j <= nblocks,
            out@.len() == j,
            forall|k: int|
                0 <= k < j ==> out@[k]@.len() > 0 && gives(
                    lz4_plain(out@[k]@, #[trigger] plan_prepared(p, data@, k).len()),
                    plan_prepared(p, data@, k),
                ),
        decreases nblocks - j,
    {
        let block = prepare_block(Ghost(p), shuffle_mode, ts, bs, data, j);
        out.push(lz4_compress(block.as_slice()));
        j += 1;
    }
    proof {
        let views = stream_views(out@);
        let q = frame_plan(
            CODEC_LZ4 as int,
            shuffle_mode as int,
            typesize as int,
            nbytes as int,
            views,
        );
        assert forall|k: int| 0 <= k < views.len() implies views[k].len() > 0 && gives(
            lz4_plain(views[k], #[trigger] plan_prepared(q, data@, k).len()),
            plan_prepared(q, data@, k),
        ) by {
            assert(plan_prepared(q, data@, k) == plan_prepared(p, data@, k));
            assert(views[k] == out@[k]@);
        }
    }
    out
}

/// Whether `r` is the frame of `data`, for some LZ4 blocks of its blocks where the
/// codec is LZ4.
pub open spec fn compressed_as(
    codec: int,
    shuffle: int,
    typesize: int,
    data: Seq<u8>,
    r: Result<Seq<u8>, Seq<char>>,
) -> bool {
    &&& exists|lz4: Seq<Seq<u8>>| #[trigger]
        lz4_made(codec, shuffle, typesize, data, lz4) && r == blosc_framed(
            codec,
            shuffle,
            typesize,
            data,
            lz4,
        )
    &&& codec < 8 ==> (r matches Ok(v) ==> blosc_decoded(v) == Ok::<Seq<u8>, Seq<char>>(data))
}

/// Compresses into a blosc frame of single-stream blocks with the requested codec;
/// a block that does not get shorter is stored. Data whose sizes do not fit the
/// 32-bit fields of a frame are refused.
pub fn compress(codec: u8, _clevel: u8, shuffle_mode: u8, typesize: usize, data: &[u8]) -> (r: Result<
    Vec<u8>,
    Error,
>)
    ensures
        compressed_as(
            codec as int,
            shuffle_mode as int,
            typesize as int,
            data@,
            bytes_view(r),
        ),
{
    let lz4: Vec<Vec<u8>> = if codec == CODEC_LZ4 && data.len() as u64 <= 0xffff_ffffu64 {
        lz4_blocks(shuffle_mode, typesize, data)
    } else {
        Vec::new()
    };
    assert(lz4_made(
        codec as int,
        shuffle_mode as int,
        typesize as int,
        data@,
        stream_views(lz4@),
    ));
    frame_with(codec, shuffle_mode, typesize, data, &lz4)
}

/// A codec other than LZ4 makes one frame of the data.
pub proof fn law_frame_determined(
    codec: int,
    shuffle: int,
    typesize: int,
    data: Seq<u8>,
    r: Result<Seq<u8>, Seq<char>>,
)
    requires
        compressed_as(codec, shuffle, typesize, data, r),
        codec != CODEC_LZ4,
    ensures
        r == blosc_framed(codec, shuffle, typesize, data, Seq::empty()),
{
    let lz4 = choose|lz4: Seq<Seq<u8>>| #[trigger]
        lz4_made(codec, shuffle, typesize, data, lz4) && r == blosc_framed(
            codec,
            shuffle,
            typesize,
            data,
            lz4,
        );
    assert(lz4 =~= Seq::<Seq<u8>>::empty());
}

proof fn lemma_plan_start(p: Plan, data: Seq<u8>, off: nat, j: int, k: int, n: int)
    requires
        0 <= j <= k < n,
    ensures
        plan_starts(p, data, off, j, n).len() == 4 * (n - j),
        plan_starts(p, data, off, j, n).subrange(4 * (k - j), 4 * (k - j) + 4) == le_bytes(
            off + (plan_body(p, data, j, n).len() - plan_body(p, data, k, n).len()) as nat,
            4,
        ),
        plan_body(p, data, k, n).len() <= plan_body(p, data, j, n).len(),
    decreases k - j,
{
    lemma_plan_lengths(p, data, off, j, n);
    lemma_le_bytes_len(off, 4);
    let all = plan_starts(p, data, off, j, n);
    if j == k {
        assert(all.subrange(0, 4) =~= le_bytes(off, 4));
    } else {
        let s = plan_stream(p, data, j);
        lemma_plan_start(p, data, off + s.len(), j + 1, k, n);
        lemma_plan_lengths(p, data, off + s.len(), j + 1, n);
        let rest = plan_starts(p, data, off + s.len(), j + 1, n);
        assert(all.subrange(4 * (k - j), 4 * (k - j) + 4) =~= rest.subrange(
            4 * (k - j - 1),
            4 * (k - j - 1) + 4,
        ));
    }
}

/// The streams of the blocks from `k` on stand at the end of all streams.
proof fn lemma_plan_tail(p: Plan, data: Seq<u8>, j: int, k: int, n: int)
    requires
        0 <= j <= k <= n,
    ensures
        plan_body(p, data, k, n).len() <= plan_body(p, data, j, n).len(),
        plan_body(p, data, j, n).skip(
            plan_body(p, data, j, n).len() - plan_body(p, data, k, n).len(),
        ) == plan_body(p, data, k, n),
    decreases k - j,
{
    let all = plan_body(p, data, j, n);
    let tail = plan_body(p, data, k, n);
    if j == k {
        assert(all.skip(0) =~= all);
    } else {
        lemma_plan_tail(p, data, j + 1, k, n);
        let s = plan_stream(p, data, j);
        let rest = plan_body(p, data, j + 1, n);
        assert(all.skip(all.len() - tail.len()) =~= rest.skip(rest.len() - tail.len()));
    }
}

/// What a codec makes of a block, if it is stored, is not empty and gives the block
/// back.
pub open spec fn codec_faithful(codec: int, block: Seq<u8>, lz4: Option<Seq<u8>>) -> bool {
    block_compressed(codec, block, lz4) matches Some(c) ==> c.len() < block.len() ==> c.len() > 0
        && stream_plain(codec, c, block.len()) == Ok::<Seq<u8>, Seq<char>>(block)
}

/// Whether the codec is faithful on the first `n` blocks.
pub open spec fn all_faithful(p: Plan, data: Seq<u8>, n: int) -> bool {
    forall|k: int|
        0 <= k < n ==> codec_faithful(
            p.codec,
            #[trigger] plan_prepared(p, data, k),
            lz4_at(p.lz4, k),
        )
}

/// The built-in codec and the stored blocks are faithful.
pub proof fn lemma_own_codecs_faithful(codec: int, block: Seq<u8>, lz4: Option<Seq<u8>>)
    requires
        codec == 0 || codec >= 4,
        block.len() <= usize::MAX,
    ensures
        codec_faithful(codec, block, lz4),
{
    if codec == 0 && block.len() >= 16 {
        law_blosclz_round_trip(block);
    }
}

/// LZ4 blocks of the blocks are faithful.
proof fn lemma_lz4_faithful(
    shuffle_mode: int,
    typesize: int,
    data: Seq<u8>,
    lz4: Seq<Seq<u8>>,
)
    requires
        data.len() <= u32::MAX,
        lz4_made(CODEC_LZ4 as int, shuffle_mode, typesize, data, lz4),
    ensures
        ({
            let p = frame_plan(CODEC_LZ4 as int, shuffle_mode, typesize, data.len() as int, lz4);
            all_faithful(p, data, ceil_div(data.len() as int, p.bs))
        }),
{
    let p = frame_plan(CODEC_LZ4 as int, shuffle_mode, typesize, data.len() as int, lz4);
    lemma_blocksize(data.len() as int, p.ts);
    lemma_blocks(data.len() as int, p.bs);
    assert forall|k: int| 0 <= k < lz4.len() implies codec_faithful(
        p.codec,
        #[trigger] plan_prepared(p, data, k),
        lz4_at(p.lz4, k),
    ) by {
        let raw = plan_block(p, data, k);
        assert(0 <= k * p.bs < data.len());
        assert((k + 1) * p.bs == k * p.bs + p.bs) by (nonlinear_arith);
        law_unshuffle_shuffle(p.ts, raw);
        law_bitunshuffle_bitshuffle(p.ts, raw);
        if lz4[k].len() < plan_prepared(p, data, k).len() {
            lemma_short_block(lz4[k], plan_prepared(p, data, k).len());
        }
    }
}

proof fn lemma_stream_decodes(
    codec: int,
    block: Seq<u8>,
    lz4: Option<Seq<u8>>,
    src: Seq<u8>,
    off: int,
)
    requires
        0 <= codec < 8,
        0 < block.len() <= 0x10_0000,
        codec_faithful(codec, block, lz4),
        0 <= off,
        off + block_stream(codec, block, lz4).len() <= src.len(),
        src.subrange(off, off + block_stream(codec, block, lz4).len()) == block_stream(
            codec,
            block,
            lz4,
        ),
    ensures
        streams_decoded(src, codec, off, block.len(), 1) == Ok::<Seq<u8>, Seq<char>>(block),
{
    let stream = block_stream(codec, block, lz4);
    let payload = match block_compressed(codec, block, lz4) {
        Some(c) => if c.len() < block.len() {
            c
        } else {
            block
        },
        None => block,
    };
    assert(stream == le_bytes(payload.len(), 4) + payload);
    lemma_pow256();
    law_le_round_trip(payload.len(), 4);
    assert(src.subrange(off, off + 4) =~= le_bytes(payload.len(), 4)) by {
        assert(src.subrange(off, off + stream.len() as int).subrange(0, 4) =~= src.subrange(
            off,
            off + 4,
        ));
        assert(stream.subrange(0, 4) =~= le_bytes(payload.len(), 4));
    }
    assert(le_at(src, off, 4) == payload.len());
    assert(src.subrange(off + 4, off + 4 + payload.len() as int) =~= payload) by {
        assert(src.subrange(off, off + stream.len() as int).subrange(4, stream.len() as int)
            =~= src.subrange(off + 4, off + stream.len() as int));
        assert(stream.subrange(4, stream.len() as int) =~= payload);
    }
    reveal_with_fuel(streams_decoded, 2);
    assert(block + Seq::<u8>::empty() =~= block);
}

proof fn lemma_prepared(shuffle_mode: int, ts: int, raw: Seq<u8>, h: Header)
    requires
        1 <= ts <= 255,
        h.typesize == ts,
        byte_shuffled(h) == (shuffle_mode == 1 && ts > 1),
        bit_shuffled(h) == (shuffle_mode == 2),
    ensures
        block_restored(h, block_prepared(shuffle_mode, ts, raw)) == raw,
        block_prepared(shuffle_mode, ts, raw).len() == raw.len(),
{
    law_unshuffle_shuffle(ts, raw);
    law_bitunshuffle_bitshuffle(ts, raw);
}

/// The sizes of the blocks that a reader computes are those that the writer used.
proof fn lemma_block_len(h: Header, j: int)
    requires
        h.blocksize > 0,
        h.nbytes > 0,
        0 <= j < block_count(h),
    ensures
        0 <= j * h.blocksize < h.nbytes,
        block_len(h, j) == (if (j + 1) * h.blocksize < h.nbytes {
            h.blocksize
        } else {
            h.nbytes - j * h.blocksize
        }),
        0 < block_len(h, j) <= h.blocksize,
{
    let bs = h.blocksize;
    let n = block_count(h);
    lemma_blocks(h.nbytes, bs);
    assert((j + 1) * bs == j * bs + bs) by (nonlinear_arith);
    let r = h.nbytes % bs;
    lemma_fundamental_div_mod(h.nbytes, bs);
    lemma_mod_bound(h.nbytes, bs);
    let q = h.nbytes / bs;
    assert(bs * q == q * bs) by (nonlinear_arith);
    if r == 0 {
        assert(n == q) by (nonlinear_arith)
            requires
                h.nbytes == q * bs,
                h.nbytes <= n * bs,
                (n - 1) * bs < h.nbytes,
                bs > 0,
        ;
    } else {
        assert(n == q + 1) by (nonlinear_arith)
            requires
                h.nbytes == q * bs + r,
                0 < r < bs,
                h.nbytes <= n * bs,
                (n - 1) * bs < h.nbytes,
                bs > 0,
        ;
    }
    if j == n - 1 {
        if r == 0 {
            assert((j + 1) * bs == h.nbytes);
        }
    } else {
        assert((j + 1) * bs <= (n - 1) * bs) by (nonlinear_arith)
            requires
                j + 1 <= n - 1,
                bs > 0,
        ;
    }
}

/// Whether `frame` holds the blocks of `data` as planned, under the header `h`.
spec fn holds_blocks(p: Plan, data: Seq<u8>, frame: Seq<u8>, h: Header) -> bool {
    let n = block_count(h);
    let body = plan_body(p, data, 0, n);
    &&& 0 <= p.codec < 8
    &&& 1 <= p.ts <= 255
    &&& 1 <= p.bs <= 262144
    &&& 0 < data.len() <= u32::MAX
    &&& h.flags == frame_flags(p.codec, p.shuffle, p.ts)
    &&& h.typesize == p.ts
    &&& h.nbytes == data.len()
    &&& h.blocksize == p.bs
    &&& frame.len() == 16 + 4 * n + body.len()
    &&& frame.len() <= u32::MAX
    &&& frame.subrange(16, 16 + 4 * n) == plan_starts(p, data, (16 + 4 * n) as nat, 0, n)
    &&& frame.skip(16 + 4 * n) == body
    &&& all_faithful(p, data, n)
}

/// Where block `j` stands in the frame.
proof fn lemma_block_place(p: Plan, data: Seq<u8>, frame: Seq<u8>, h: Header, j: int) -> (off: int)
    requires
        holds_blocks(p, data, frame, h),
        0 <= j < block_count(h),
    ensures
        off == le_at(frame, 16 + 4 * j, 4),
        0 <= off,
        off + plan_stream(p, data, j).len() <= frame.len(),
        frame.subrange(off, off + plan_stream(p, data, j).len()) == plan_stream(p, data, j),
{
    let n = block_count(h);
    let body = plan_body(p, data, 0, n);
    lemma_plan_start(p, data, (16 + 4 * n) as nat, 0, j, n);
    lemma_plan_tail(p, data, 0, j, n);
    let tail = plan_body(p, data, j, n);
    let off = 16 + 4 * n + (body.len() - tail.len());
    let starts = plan_starts(p, data, (16 + 4 * n) as nat, 0, n);
    assert(frame.subrange(16 + 4 * j, 16 + 4 * j + 4) =~= starts.subrange(4 * j, 4 * j + 4)) by {
        assert(frame.subrange(16, 16 + 4 * n).subrange(4 * j, 4 * j + 4) =~= frame.subrange(
            16 + 4 * j,
            16 + 4 * j + 4,
        ));
    }
    lemma_pow256();
    law_le_round_trip(off as nat, 4);
    let s = plan_stream(p, data, j);
    assert(tail == s + plan_body(p, data, j + 1, n));
    assert(frame.skip(off) =~= tail) by {
        assert(frame.skip(16 + 4 * n).skip((body.len() - tail.len()) as int) =~= frame.skip(off));
    }
    assert(frame.subrange(off, off + s.len() as int) =~= s) by {
        assert(frame.skip(off).subrange(0, s.len() as int) =~= frame.subrange(
            off,
            off + s.len() as int,
        ));
        assert(tail.subrange(0, s.len() as int) =~= s);
    }
    off
}

proof fn lemma_flags(codec: int, shuffle_mode: int, ts: int)
    requires
        0 <= codec < 8,
        1 <= ts <= 255,
    ensures
        ({
            let f = frame_flags(codec, shuffle_mode, ts);
            &&& 0 <= f < 256
            &&& f / 32 == codec
            &&& (f / 16) % 2 == 1
            &&& (f / 2) % 2 == 0
            &&& (f % 2 == 1) == (shuffle_mode == 1 && ts > 1)
            &&& ((f / 4) % 2 == 1) == (shuffle_mode == 2)
        }),
{
}

proof fn lemma_block_decodes(p: Plan, data: Seq<u8>, frame: Seq<u8>, h: Header, j: int)
    requires
        holds_blocks(p, data, frame, h),
        0 <= j < block_count(h),
    ensures
        block_decoded(frame, h, j) == Ok::<Seq<u8>, Seq<char>>(plan_block(p, data, j)),
{
    lemma_block_len(h, j);
    lemma_flags(p.codec, p.shuffle, p.ts);
    let raw = plan_block(p, data, j);
    let block = plan_prepared(p, data, j);
    assert((j + 1) * p.bs == j * p.bs + p.bs) by (nonlinear_arith);
    assert(raw.len() == block_len(h, j));
    lemma_prepared(p.shuffle, p.ts, raw, h);
    let off = lemma_block_place(p, data, frame, h, j);
    lemma_stream_decodes(p.codec, block, lz4_at(p.lz4, j), frame, off);
}

proof fn lemma_blocks_decode(p: Plan, data: Seq<u8>, frame: Seq<u8>, h: Header, j: int)
    requires
        holds_blocks(p, data, frame, h),
        0 <= j <= block_count(h),
    ensures
        blocks_decoded(frame, h, j) == Ok::<Seq<u8>, Seq<char>>(
            data.skip(if j * p.bs < data.len() {
                j * p.bs
            } else {
                data.len() as int
            }),
        ),
    decreases block_count(h) - j,
{
    let n = block_count(h);
    lemma_blocks(h.nbytes, p.bs);
    assert((j + 1) * p.bs == j * p.bs + p.bs) by (nonlinear_arith);
    if j == n {
        assert(data.skip(data.len() as int) =~= Seq::<u8>::empty());
    } else {
        lemma_blocks_decode(p, data, frame, h, j + 1);
        lemma_block_decodes(p, data, frame, h, j);
        let raw = plan_block(p, data, j);
        let from = j * p.bs;
        assert(0 <= from < data.len());
        let next = if (j + 1) * p.bs < data.len() {
            (j + 1) * p.bs
        } else {
            data.len() as int
        };
        assert(raw + data.skip(next) =~= data.skip(from));
    }
}

/// A frame that fits its fields decompresses to the data that it was made of,
/// whatever the shuffling and the element size, if its codec gives back each block.
pub proof fn lemma_frame_decodes(
    codec: int,
    shuffle_mode: int,
    typesize: int,
    data: Seq<u8>,
    lz4: Seq<Seq<u8>>,
)
    requires
        0 <= codec < 8,
        blosc_framed(codec, shuffle_mode, typesize, data, lz4) is Ok,
        ({
            let p = frame_plan(codec, shuffle_mode, typesize, data.len() as int, lz4);
            all_faithful(p, data, ceil_div(data.len() as int, p.bs))
        }),
    ensures
        blosc_decoded(blosc_frame(codec, shuffle_mode, typesize, data, lz4)) == Ok::<
            Seq<u8>,
            Seq<char>,
        >(data),
{
    let p = frame_plan(codec, shuffle_mode, typesize, data.len() as int, lz4);
    let ts = p.ts;
    let bs = p.bs;
    let n = ceil_div(data.len() as int, bs);
    let body = plan_body(p, data, 0, n);
    let first = (16 + 4 * n) as nat;
    let starts = plan_starts(p, data, first, 0, n);
    let frame = blosc_frame(codec, shuffle_mode, typesize, data, lz4);
    lemma_frame_len(codec, shuffle_mode, typesize, data, lz4);
    lemma_plan_lengths(p, data, first, 0, n);
    lemma_pow256();
    lemma_flags(codec, shuffle_mode, ts);
    let head = seq![2u8, 1u8, frame_flags(codec, shuffle_mode, ts) as u8, ts as u8];
    let b4 = le_bytes(data.len(), 4);
    let b8 = le_bytes(bs as nat, 4);
    let b12 = le_bytes((first + body.len()) as nat, 4);
    law_le_round_trip(data.len(), 4);
    law_le_round_trip(bs as nat, 4);
    law_le_round_trip((first + body.len()) as nat, 4);
    assert(frame == head + b4 + b8 + b12 + starts + body);
    assert(frame.subrange(4, 8) =~= b4);
    assert(frame.subrange(8, 12) =~= b8);
    assert(frame.subrange(12, 16) =~= b12);
    assert(frame.subrange(16, 16 + 4 * n) =~= starts);
    assert(frame.skip(16 + 4 * n) =~= body);
    let h = header_of(frame);
    lemma_blocks(data.len() as int, bs);
    if data.len() > 0 {
        lemma_blocks_decode(p, data, frame, h, 0);
        assert(data.skip(0) =~= data);
    } else {
        assert(data =~= Seq::<u8>::empty());
    }
}

} // verus!
