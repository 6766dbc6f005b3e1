//! Bounds on what is handed to the decompressors of other crates.
//!
//! `lz4_flex` adds the extra bytes of a length up in 32 bits, and a length to a
//! position in a machine word. `ruzstd` adds up in 32 bits what the sequences of one
//! block produce, and keeps the window in a machine word. The tests here refuse a
//! stream on which such a sum could leave its 32 bits.

use vstd::prelude::*;

use crate::format::{le_at, lemma_le_bound, lemma_pow256, uint_of};

verus! {

/// The number of extra bytes 255 that no length of an LZ4 block may have.
pub const LONG_RUN: usize = 0x80_0000;

/// The bytes that an LZ4 block may decompress to.
pub const LZ4_LIMIT: usize = 0x7fff_ffff;

/// How many bytes 255 stand in a row from `pos` on.
pub open spec fn run_at(block: Seq<u8>, pos: int) -> int
    decreases block.len() - pos,
{
    if pos < 0 || pos >= block.len() || block[pos] != 255 {
        0
    } else {
        1 + run_at(block, pos + 1)
    }
}

/// Whether the lengths of an LZ4 block from the token at `pos` on have fewer extra
/// bytes than are forbidden, up to the end or to a place where the block is cut
/// short.
pub open spec fn lengths_bounded(block: Seq<u8>, pos: int) -> bool
    decreases block.len() - pos,
{
    if pos < 0 || pos >= block.len() {
        true
    } else {
        let token = block[pos] as int;
        let run = run_at(block, pos + 1);
        let long = token / 16 == 15;
        if long && run >= LONG_RUN {
            false
        } else if long && (run < 0 || pos + 1 + run >= block.len()) {
            true
        } else {
            let literals = if long {
                pos + 2 + run
            } else {
                pos + 1
            };
            let count = if long {
                15 + 255 * run + block[pos + 1 + run]
            } else {
                token / 16
            };
            let behind = literals + count + 2;
            if behind > block.len() {
                true
            } else if token % 16 < 15 {
                lengths_bounded(block, behind)
            } else {
                let more = run_at(block, behind);
                if more >= LONG_RUN {
                    false
                } else {
                    more < 0 || behind + more >= block.len() || lengths_bounded(
                        block,
                        behind + more + 1,
                    )
                }
            }
        }
    }
}

/// Whether no sum over the lengths of an LZ4 block can leave 32 bits when it is
/// decompressed into a buffer of `size` bytes.
pub open spec fn lz4_bounded(block: Seq<u8>, size: nat) -> bool {
    size <= LZ4_LIMIT && lengths_bounded(block, 0)
}

proof fn lemma_run(block: Seq<u8>, pos: int)
    requires
        0 <= pos,
    ensures
        0 <= run_at(block, pos),
        pos <= block.len() ==> pos + run_at(block, pos) <= block.len(),
    decreases block.len() - pos,
{
    if pos < block.len() && block[pos] == 255 {
        lemma_run(block, pos + 1);
    }
}

proof fn lemma_short_from(block: Seq<u8>, pos: int)
    requires
        block.len() < LONG_RUN,
    ensures
        lengths_bounded(block, pos),
    decreases block.len() - pos,
{
    if 0 <= pos < block.len() {
        let token = block[pos] as int;
        let run = run_at(block, pos + 1);
        lemma_run(block, pos + 1);
        let long = token / 16 == 15;
        if !(long && pos + 1 + run >= block.len()) {
            let literals = if long {
                pos + 2 + run
            } else {
                pos + 1
            };
            let count = if long {
                15 + 255 * run + block[pos + 1 + run]
            } else {
                token / 16
            };
            let behind = literals + count + 2;
            if behind <= block.len() {
                lemma_run(block, behind);
                if token % 16 < 15 {
                    lemma_short_from(block, behind);
                } else {
                    let next = behind + run_at(block, behind) + 1;
                    assert(next > pos);
                    if next < block.len() {
                        lemma_short_from(block, next);
                    } else {
                        assert(lengths_bounded(block, next));
                    }
                }
            }
        }
    }
}

/// A block shorter than the forbidden run is within the bound.
pub proof fn lemma_short_block(block: Seq<u8>, size: nat)
    requires
        block.len() < LONG_RUN,
        size <= LZ4_LIMIT,
    ensures
        lz4_bounded(block, size),
{
    lemma_short_from(block, 0);
}

fn count_run(block: &[u8], pos: usize) -> (r: usize)
    requires
        pos <= block@.len(),
    ensures
        r == run_at(block@, pos as int),
        pos + r <= block@.len(),
{
    let n: usize = block.len();
    let mut i: usize = pos;
    while i < n && block[i] == 255
        invariant
            pos <= i <= n == block@.len(),
            run_at(block@, pos as int) == i - pos + run_at(block@, i as int),
        decreases n - i,
    {
        i += 1;
    }
    i - pos
}

/// Tests [`lz4_bounded`].
pub fn is_lz4_bounded(block: &[u8], size: usize) -> (r: bool)
    ensures
        r == lz4_bounded(block@, size as nat),
{
    if size > LZ4_LIMIT {
        return false;
    }
    let n: usize = block.len();
    let mut pos: usize = 0;
    while pos < n
        invariant
            n == block@.len(),
            size <= LZ4_LIMIT,
            lz4_bounded(block@, size as nat) == lengths_bounded(block@, pos as int),
        decreases n - pos,
    {
        let token: u8 = block[pos];
        let mut literals: usize = pos + 1;
        let mut count: u64 = (token / 16) as u64;
        if token / 16 == 15 {
            let run: usize = count_run(block, pos + 1);
            if run >= LONG_RUN {
                return false;
            }
            if run >= n - pos - 1 {
                return true;
            }
            count = 15 + 255 * run as u64 + block[pos + 1 + run] as u64;
            literals = pos + 2 + run;
        }
        if count + 2 > (n - literals) as u64 {
            return true;
        }
        let behind: usize = literals + count as usize + 2;
        if token % 16 < 15 {
            pos = behind;
        } else {
            let more: usize = count_run(block, behind);
            if more >= LONG_RUN {
                return false;
            }
            if more >= n - behind {
                return true;
            }
            pos = behind + more + 1;
        }
    }
    true
}

/// Where the first block of a Zstandard frame stands: behind the magic number, the
/// descriptor, and the window, dictionary and content-size fields.
pub open spec fn zstd_body(frame: Seq<u8>) -> Option<int> {
    if frame.len() < 5 || le_at(frame, 0, 4) != 0xFD2F_B528 {
        None
    } else {
        let d = frame[4] as int;
        let single = (d / 32) % 2 == 1;
        let window: int = if single {
            0
        } else {
            1
        };
        let dictionary: int = if d % 4 == 3 {
            4
        } else {
            d % 4
        };
        let content: int = if d / 64 == 0 {
            1 - window
        } else if d / 64 == 1 {
            2
        } else if d / 64 == 2 {
            4
        } else {
            8
        };
        Some(5 + window + dictionary + content)
    }
}

/// The length of the header of a literals section, by its first byte.
pub open spec fn literals_header(first: int) -> int {
    let format = (first / 4) % 4;
    if first % 4 < 2 {
        if format % 2 == 0 {
            1
        } else if format == 1 {
            2
        } else {
            3
        }
    } else if format < 2 {
        3
    } else {
        format + 2
    }
}

/// How many bytes follow the header of a literals section that reads `value`.
pub open spec fn literals_held(first: int, value: int) -> int {
    let format = (first / 4) % 4;
    if first % 4 == 1 {
        1
    } else if first % 4 == 0 {
        if format % 2 == 0 {
            value / 8
        } else {
            value / 16
        }
    } else if format < 2 {
        value / 0x4000
    } else if format == 2 {
        value / 0x4_0000
    } else {
        value / 0x40_0000
    }
}

/// The number of sequences that a sequences section states; 0 where the section is
/// cut short.
pub open spec fn sequence_count(section: Seq<u8>) -> int {
    if section.len() == 0 {
        0
    } else if section[0] < 128 {
        section[0] as int
    } else if section[0] < 255 {
        if section.len() < 2 {
            0
        } else {
            (section[0] - 128) * 256 + section[1]
        }
    } else if section.len() < 3 {
        0
    } else {
        section[1] + section[2] * 256 + 0x7F00
    }
}

/// Whether the sequences of a section produce less than 4 GiB: there are few enough
/// of them, or their bits are, a match of 131074 bytes taking 16 of these.
pub open spec fn sequences_bounded(section: Seq<u8>) -> bool {
    sequence_count(section) <= 32_759 || section.len() <= 65_400
}

/// Whether a compressed block has its sequences bounded. One that is cut short has
/// none.
pub open spec fn block_bounded(block: Seq<u8>) -> bool {
    if block.len() == 0 {
        true
    } else {
        let head = literals_header(block[0] as int);
        if block.len() < head {
            true
        } else {
            let at = head + literals_held(block[0] as int, le_at(block, 0, head) as int);
            at > block.len() || sequences_bounded(block.skip(at))
        }
    }
}

/// Whether the blocks from `pos` on have their sequences bounded, up to the last one
/// or one that is cut short, too long or of no kind.
pub open spec fn blocks_bounded(frame: Seq<u8>, pos: int) -> bool
    decreases frame.len() - pos,
{
    if pos < 0 || pos + 3 > frame.len() {
        true
    } else {
        let h = le_at(frame, pos, 3) as int;
        let kind = (h / 2) % 4;
        let size = h / 8;
        let next = pos + 3 + (if kind == 1 {
            1
        } else {
            size
        });
        if kind == 3 || size > 0x2_0000 || next > frame.len() {
            true
        } else if kind == 2 && !block_bounded(frame.subrange(pos + 3, next)) {
            false
        } else {
            h % 2 == 1 || blocks_bounded(frame, next)
        }
    }
}

/// Whether the window of a Zstandard frame, whose first block stands at `body`, is
/// smaller than 4 GiB: its descriptor states at least 2 to the power of 10 and of the
/// upper five bits, and a frame of one segment has its content for a window.
pub open spec fn window_bounded(frame: Seq<u8>, body: int) -> bool {
    if (frame[4] / 32) % 2 == 1 {
        frame[4] / 64 < 3 || body > frame.len() || le_at(frame, body - 8, 8) < 0x1_0000_0000
    } else {
        frame.len() < 6 || frame[5] / 8 < 22
    }
}

/// Whether a Zstandard frame has a window smaller than 4 GiB, and no block with
/// sequences that could produce as much.
pub open spec fn zstd_bounded(frame: Seq<u8>) -> bool {
    match zstd_body(frame) {
        None => true,
        Some(pos) => window_bounded(frame, pos) && blocks_bounded(frame, pos),
    }
}

fn field(s: &[u8], at: usize, n: usize) -> (r: u64)
    requires
        n <= 8,
        at + n <= s@.len(),
    ensures
        r == le_at(s@, at as int, n as int),
        n == 3 ==> r < 0x100_0000,
{
    let total: usize = s.len();
    assert(at + n <= total);
    let part = vstd::slice::slice_subrange(s, at, at + n);
    proof {
        lemma_le_bound(part@);
        lemma_pow256();
    }
    uint_of(part)
}

fn body_of(frame: &[u8]) -> (r: Option<usize>)
    ensures
        match (r, zstd_body(frame@)) {
            (Some(p), Some(q)) => p == q && frame@.len() >= 5,
            (None, None) => true,
            _ => false,
        },
{
    if frame.len() < 5 {
        return None;
    }
    if field(frame, 0, 4) != 0xFD2F_B528 {
        return None;
    }
    let d: u8 = frame[4];
    let window: usize = if (d / 32) % 2 == 1 {
        0
    } else {
        1
    };
    let dictionary: usize = if d % 4 == 3 {
        4
    } else {
        (d % 4) as usize
    };
    let content: usize = match d / 64 {
        0 => 1 - window,
        1 => 2,
        2 => 4,
        _ => 8,
    };
    Some(5 + window + dictionary + content)
}

fn is_window_bounded(frame: &[u8], body: usize) -> (r: bool)
    requires
        frame@.len() >= 5,
        zstd_body(frame@) == Some(body as int),
    ensures
        r == window_bounded(frame@, body as int),
{
    let n: usize = frame.len();
    if (frame[4] / 32) % 2 == 1 {
        frame[4] / 64 < 3 || body > n || field(frame, body - 8, 8) < 0x1_0000_0000
    } else {
        n < 6 || frame[5] / 8 < 22
    }
}

fn header_len(first: u8) -> (r: usize)
    ensures
        r == literals_header(first as int),
        1 <= r <= 5,
{
    let format: u8 = (first / 4) % 4;
    if first % 4 < 2 {
        if format % 2 == 0 {
            1
        } else if format == 1 {
            2
        } else {
            3
        }
    } else if format < 2 {
        3
    } else {
        format as usize + 2
    }
}

fn held_len(first: u8, value: u64) -> (r: u64)
    ensures
        r == literals_held(first as int, value as int),
{
    let format: u8 = (first / 4) % 4;
    if first % 4 == 1 {
        1
    } else if first % 4 == 0 {
        if format % 2 == 0 {
            value / 8
        } else {
            value / 16
        }
    } else if format < 2 {
        value / 0x4000
    } else if format == 2 {
        value / 0x4_0000
    } else {
        value / 0x40_0000
    }
}

fn count_sequences(section: &[u8]) -> (r: u32)
    ensures
        r == sequence_count(section@),
{
    let n: usize = section.len();
    if n == 0 {
        0
    } else if section[0] < 128 {
        section[0] as u32
    } else if section[0] < 255 {
        if n < 2 {
            0
        } else {
            (section[0] as u32 - 128) * 256 + section[1] as u32
        }
    } else if n < 3 {
        0
    } else {
        section[1] as u32 + section[2] as u32 * 256 + 0x7F00
    }
}

fn is_block_bounded(block: &[u8]) -> (r: bool)
    ensures
        r == block_bounded(block@),
{
    let n: usize = block.len();
    if n == 0 {
        return true;
    }
    let first: u8 = block[0];
    let head: usize = header_len(first);
    if n < head {
        return true;
    }
    let held: u64 = held_len(first, field(block, 0, head));
    if held > (n - head) as u64 {
        return true;
    }
    let at: usize = head + held as usize;
    let section = vstd::slice::slice_subrange(block, at, n);
    assert(section@ =~= block@.skip(at as int));
    count_sequences(section) <= 32_759 || section.len() <= 65_400
}

/// Tests [`zstd_bounded`].
pub fn is_zstd_bounded(frame: &[u8]) -> (r: bool)
    ensures
        r == zstd_bounded(frame@),
{
    let n: usize = frame.len();
    let mut pos: usize = match body_of(frame) {
        None => {
            return true;
        },
        Some(p) => p,
    };
    if !is_window_bounded(frame, pos) {
        return false;
    }
    while pos <= n && n - pos >= 3
        invariant
            n == frame@.len(),
            zstd_bounded(frame@) == blocks_bounded(frame@, pos as int),
        decreases n - pos,
    {
        let h: u64 = field(frame, pos, 3);
        let kind: u64 = (h / 2) % 4;
        let size: u64 = h / 8;
        let held: u64 = if kind == 1 {
            1
        } else {
            size
        };
        if kind == 3 || size > 0x2_0000 || held > (n - pos - 3) as u64 {
            return true;
        }
        let next: usize = pos + 3 + held as usize;
        if kind == 2 && !is_block_bounded(vstd::slice::slice_subrange(frame, pos + 3, next)) {
            return false;
        }
        if h % 2 == 1 {
            return true;
        }
        pos = next;
    }
    true
}

} // verus!
