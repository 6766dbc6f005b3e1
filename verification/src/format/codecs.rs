//! General-purpose compressors of other crates.
//!
//! What these compressors produce takes pages to state, so a result that depends on
//! the arguments alone has a name. Beside the names stands that decompression gives
//! back what was compressed.

use vstd::prelude::*;

use crate::format::codec_bounds::{lz4_bounded, zstd_bounded};

verus! {

/// What `lz4_flex` decompresses `block` to in a buffer of `size` bytes, or the text
/// of its error.
pub uninterp spec fn lz4_plain(block: Seq<u8>, size: nat) -> Result<Seq<u8>, Seq<char>>;

/// The raw Snappy block that `snap` makes of `plain`, or the text of its error.
pub uninterp spec fn snappy_block(plain: Seq<u8>) -> Result<Seq<u8>, Seq<char>>;

/// What `snap` decompresses a raw Snappy block to, or the text of its error.
pub uninterp spec fn snappy_plain(block: Seq<u8>) -> Result<Seq<u8>, Seq<char>>;

/// The zlib stream that `flate2` makes of `plain` at a level, or the text of its
/// error.
pub uninterp spec fn zlib_stream(plain: Seq<u8>, level: nat) -> Result<Seq<u8>, Seq<char>>;

/// What `flate2` decompresses a zlib stream to, or the text of its error.
pub uninterp spec fn zlib_plain(stream: Seq<u8>) -> Result<Seq<u8>, Seq<char>>;

/// What `ruzstd` decompresses a Zstandard frame to, or the text of its error.
pub uninterp spec fn zstd_plain(frame: Seq<u8>) -> Result<Seq<u8>, Seq<char>>;

/// Whether a call of an outside codec came out as its name says.
pub open spec fn codec_result(r: Result<Vec<u8>, String>, s: Result<Seq<u8>, Seq<char>>) -> bool {
    match (r, s) {
        (Ok(v), Ok(w)) => v@ == w,
        (Err(e), Err(m)) => e@ == m,
        _ => false,
    }
}

/// Whether a decompression succeeded with `plain`.
pub open spec fn gives(r: Result<Seq<u8>, Seq<char>>, plain: Seq<u8>) -> bool {
    r matches Ok(p) && p == plain
}

/// `lz4_flex::block::compress`. A block holds at least its first token, and
/// decompresses into a buffer of the right size to what it was made of. Which block
/// that is depends on the width and the byte order of the machine.
#[verifier::external_body]
pub(crate) fn lz4_compress(data: &[u8]) -> (r: Vec<u8>)
    requires
        data@.len() <= 0x10_0000,
    ensures
        r@.len() > 0,
        gives(lz4_plain(r@, data@.len()), data@),
{
    lz4_flex::block::compress(data)
}

/// `lz4_flex::block::decompress` with a buffer of `size` bytes. It adds the extra
/// bytes of a length up in 32 bits, and a length to a position in a machine word, so
/// the block is within [`lz4_bounded`].
#[verifier::external_body]
pub(crate) fn lz4_decompress(block: &[u8], size: usize) -> (r: Result<Vec<u8>, String>)
    requires
        lz4_bounded(block@, size as nat),
    ensures
        codec_result(r, lz4_plain(block@, size as nat)),
{
    lz4_flex::block::decompress(block, size).map_err(|e| e.to_string())
}

/// `snap::raw::Encoder::compress_vec`. A block holds at least its length prefix,
/// and decompresses to what it was made of.
#[verifier::external_body]
pub(crate) fn snappy_compress(data: &[u8]) -> (r: Result<Vec<u8>, String>)
    ensures
        codec_result(r, snappy_block(data@)),
        r matches Ok(v) ==> v@.len() > 0 && gives(snappy_plain(v@), data@),
{
    snap::raw::Encoder::new().compress_vec(data).map_err(|e| e.to_string())
}

/// `snap::raw::Decoder::decompress_vec`.
#[verifier::external_body]
pub(crate) fn snappy_decompress(block: &[u8]) -> (r: Result<Vec<u8>, String>)
    ensures
        codec_result(r, snappy_plain(block@)),
{
    snap::raw::Decoder::new().decompress_vec(block).map_err(|e| e.to_string())
}

/// `flate2::write::ZlibEncoder` over all of `data`. A stream holds at least its
/// header, and decompresses to what it was made of.
#[verifier::external_body]
pub(crate) fn zlib_compress(data: &[u8], level: u32) -> (r: Result<Vec<u8>, String>)
    requires
        level <= 9,
    ensures
        codec_result(r, zlib_stream(data@, level as nat)),
        r matches Ok(v) ==> v@.len() > 0 && gives(zlib_plain(v@), data@),
{
    let mut enc = flate2::write::ZlibEncoder::new(Vec::new(), flate2::Compression::new(level));
    match std::io::Write::write_all(&mut enc, data) {
        Ok(()) => enc.finish().map_err(|e| e.to_string()),
        Err(e) => Err(e.to_string()),
    }
}

/// `flate2::read::ZlibDecoder`, read to its end.
#[verifier::external_body]
pub(crate) fn zlib_decompress(stream: &[u8]) -> (r: Result<Vec<u8>, String>)
    ensures
        codec_result(r, zlib_plain(stream@)),
{
    let mut dec = flate2::read::ZlibDecoder::new(stream);
    let mut out = Vec::new();
    match std::io::Read::read_to_end(&mut dec, &mut out) {
        Ok(_) => Ok(out),
        Err(e) => Err(e.to_string()),
    }
}

/// `ruzstd::StreamingDecoder`, read to its end. It adds up in 32 bits what the
/// sequences of a block produce, and keeps the size of the window in a machine word, so
/// the frame is within [`zstd_bounded`].
#[verifier::external_body]
pub(crate) fn zstd_decompress(frame: &[u8]) -> (r: Result<Vec<u8>, String>)
    requires
        zstd_bounded(frame@),
    ensures
        codec_result(r, zstd_plain(frame@)),
{
    let mut dec = match ruzstd::StreamingDecoder::new(frame) {
        Ok(dec) => dec,
        Err(e) => return Err(e.to_string()),
    };
    let mut out = Vec::new();
    match std::io::Read::read_to_end(&mut dec, &mut out) {
        Ok(_) => Ok(out),
        Err(e) => Err(e.to_string()),
    }
}

} // verus!
