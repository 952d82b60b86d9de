//! The outline of a zstd frame: its blocks, and how many sequences each of them
//! runs. A block can ask for far more output than it takes input, and the
//! pure-Rust decoder adds up a block's output in 32 bits.

use vstd::prelude::*;

use crate::bytes::{u16_at, u24_at, u32_at};

verus! {

/// The magic number of a zstd frame.
pub const FRAME_MAGIC: u32 = 0xFD2F_B528;

/// The largest block a frame may hold.
pub const BLOCK_MAX: u32 = 0x2_0000;

/// A block below this size can run any sequences: a match longer than 34 bytes
/// takes bits of its own, at best two bytes of input for 131,074 of output, and
/// the others add less than 2^22 bytes in all.
pub const SMALL_BLOCK: u32 = 65_000;

/// So many sequences, each a match of at most 131,074 bytes, and all literals of
/// a block together stay below 2^32 bytes of output.
pub const FEW_SEQUENCES: u32 = 32_759;

/// The size of a frame header with descriptor `d`, from the magic number to the
/// first block.
pub open spec fn frame_header_len(d: u8) -> int {
    let single = d as int / 32 % 2;
    let dict: int = if d % 4 == 3 {
        4
    } else {
        d as int % 4
    };
    let size: int = if d < 64 {
        single
    } else if d < 128 {
        2
    } else if d < 192 {
        4
    } else {
        8
    };
    5 + (1 - single) + dict + size
}

/// The size of the literals section at the start of a block: its header, and
/// what the header says follows. None where the header is cut short.
pub open spec fn literals_len(block: Seq<u8>) -> Option<int> {
    if block.len() < 5 {
        None
    } else {
        let (kind, format) = (block[0] as int % 4, block[0] as int / 4 % 4);
        let (header, raw, packed) = if kind < 2 {
            if format % 2 == 0 {
                (1int, block[0] as int / 8, 0int)
            } else if format == 1 {
                (2, u16_at(block, 0) / 16, 0)
            } else {
                (3, u24_at(block, 0) / 16, 0)
            }
        } else if format < 2 {
            (3, 0, u24_at(block, 0) / 0x4000)
        } else if format == 2 {
            (4, 0, u32_at(block, 0) / 0x4_0000)
        } else {
            (5, 0, u24_at(block, 2) / 0x40)
        };
        Some(
            header + if kind == 0 {
                raw
            } else if kind == 1 {
                1
            } else {
                packed
            },
        )
    }
}

/// How many sequences a block runs: the number behind its literals, none where
/// it is cut short.
pub open spec fn sequence_count(block: Seq<u8>) -> int {
    match literals_len(block) {
        None => 0,
        Some(at) => if at + 3 > block.len() {
            0
        } else if block[at] < 128 {
            block[at] as int
        } else if block[at] < 255 {
            (block[at] - 128) * 256 + block[at + 1]
        } else {
            u16_at(block, at + 1) + 0x7F00
        },
    }
}

/// Whether a compressed block's output is sure to stay below 2^32 bytes.
pub open spec fn block_bounded(block: Seq<u8>) -> bool {
    block.len() < SMALL_BLOCK || sequence_count(block) <= FEW_SEQUENCES
}

/// Whether every compressed block from `at` on is bounded, up to the last block
/// or to where no whole block is left.
pub open spec fn blocks_bounded(body: Seq<u8>, at: int) -> bool
    decreases body.len() - at,
{
    if at < 0 || at + 3 > body.len() {
        true
    } else {
        let head = u24_at(body, at);
        let (last, kind, size) = (head % 2 == 1, head / 2 % 4, head / 8);
        let end = at + 3 + if kind == 1 {
            1
        } else {
            size
        };
        if kind == 3 || size > BLOCK_MAX || end > body.len() {
            true
        } else {
            &&& kind == 2 ==> block_bounded(body.subrange(at + 3, end))
            &&& !last ==> blocks_bounded(body, end)
        }
    }
}

/// Whether the frame at the start of `body`, if there is one, holds no block
/// whose output may reach 2^32 bytes.
pub open spec fn frame_bounded(body: Seq<u8>) -> bool {
    body.len() >= 5 && u32_at(body, 0) == FRAME_MAGIC ==> blocks_bounded(
        body,
        frame_header_len(body[4]),
    )
}

/// Reads three bytes as a number.
fn read_u24(bytes: &[u8], at: usize) -> (v: u32)
    requires
        at + 3 <= bytes@.len(),
    ensures
        v == u24_at(bytes@, at as int),
{
    bytes[at] as u32 + bytes[at + 1] as u32 * 0x100 + bytes[at + 2] as u32 * 0x1_0000
}

/// Whether a compressed block's output is sure to stay below 2^32 bytes.
fn is_bounded(body: &[u8], start: usize, end: usize) -> (bounded: bool)
    requires
        start <= end <= body@.len(),
        end - start <= BLOCK_MAX,
    ensures
        bounded == block_bounded(body@.subrange(start as int, end as int)),
{
    let block = vstd::slice::slice_subrange(body, start, end);
    let len = block.len();
    if len < SMALL_BLOCK as usize {
        return true;
    }
    let kind: u8 = block[0] % 4;
    let format: u8 = block[0] / 4 % 4;
    let low: u32 = read_u24(block, 0);
    let at: usize = if kind < 2 {
        let (header, raw): (u32, u32) = if format % 2 == 0 {
            (1, block[0] as u32 / 8)
        } else if format == 1 {
            (2, (block[0] as u32 + block[1] as u32 * 0x100) / 16)
        } else {
            (3, low / 16)
        };
        (header + if kind == 0 {
            raw
        } else {
            1
        }) as usize
    } else if format < 2 {
        (3 + low / 0x4000) as usize
    } else if format == 2 {
        (4 + (low as u64 + block[3] as u64 * 0x100_0000) / 0x4_0000) as usize
    } else {
        (5 + read_u24(block, 2) / 0x40) as usize
    };
    assert(literals_len(block@) == Some(at as int));
    if at + 3 > len {
        return true;
    }
    let count: u32 = if block[at] < 128 {
        block[at] as u32
    } else if block[at] < 255 {
        (block[at] - 128) as u32 * 0x100 + block[at + 1] as u32
    } else {
        block[at + 1] as u32 + block[at + 2] as u32 * 0x100 + 0x7F00
    };
    assert(count == sequence_count(block@));
    count <= FEW_SEQUENCES
}

/// Whether the frame at the start of `body`, if there is one, holds no block
/// whose output may reach 2^32 bytes.
pub fn is_frame_bounded(body: &[u8]) -> (bounded: bool)
    ensures
        bounded == frame_bounded(body@),
{
    let len = body.len();
    if len < 5 || crate::format::read_u32(body, 0) != FRAME_MAGIC {
        return true;
    }
    let d: u8 = body[4];
    let single: u8 = d / 32 % 2;
    let dict: u8 = if d % 4 == 3 {
        4
    } else {
        d % 4
    };
    let size: u8 = if d < 64 {
        single
    } else if d < 128 {
        2
    } else if d < 192 {
        4
    } else {
        8
    };
    let mut at: usize = (5 + (1 - single) + dict + size) as usize;
    assert(at == frame_header_len(body@[4]));
    while at <= len && len - at >= 3
        invariant
            len == body@.len(),
            frame_bounded(body@) == blocks_bounded(body@, at as int),
        ensures
            frame_bounded(body@) == blocks_bounded(body@, at as int),
            at + 3 > len,
        decreases len - at,
    {
        let head: u32 = read_u24(body, at);
        let (last, kind, size): (bool, u32, u32) = (head % 2 == 1, head / 2 % 4, head / 8);
        let room = len - at - 3;
        let content: usize = if kind == 1 {
            1
        } else {
            size as usize
        };
        if kind == 3 || size > BLOCK_MAX || content > room {
            return true;
        }
        let end = at + 3 + content;
        if kind == 2 && !is_bounded(body, at + 3, end) {
            return false;
        }
        if last {
            return true;
        }
        at = end;
    }
    true
}

/// A body shorter than the smallest block that could ask for too much is bounded,
/// and so is one that does not start with a frame's number.
pub proof fn lemma_short_bodies_are_bounded(body: Seq<u8>)
    ensures
        body.len() < 65_000 ==> frame_bounded(body),
        body.len() < 5 ==> frame_bounded(body),
        body.len() >= 5 && !(body[0] == 0x28 && body[1] == 0xB5 && body[2] == 0x2F && body[3]
            == 0xFD) ==> frame_bounded(body),
{
    if body.len() >= 5 {
        if body.len() < 65_000 {
            lemma_short_blocks(body, frame_header_len(body[4]));
        }
        if u32_at(body, 0) == FRAME_MAGIC {
            lemma_number_bytes(
                body[0] as int,
                body[1] as int,
                body[2] as int,
                body[3] as int,
            );
        }
    }
}

/// The bytes of a frame's number.
proof fn lemma_number_bytes(a: int, b: int, c: int, d: int)
    requires
        0 <= a < 256,
        0 <= b < 256,
        0 <= c < 256,
        0 <= d < 256,
        a + 256 * b + 65536 * c + 16777216 * d == 0xFD2F_B528,
    ensures
        a == 0x28 && b == 0xB5 && c == 0x2F && d == 0xFD,
{
    let (x, y) = (b + 256 * c + 65536 * d, c + 256 * d);
    assert(a + 256 * x == 0xFD2F_B528);
    assert(x == 0xFD2F_B5 && a == 0x28);
    assert(b + 256 * y == 0xFD2F_B5);
    assert(y == 0xFD2F && b == 0xB5);
}

proof fn lemma_short_blocks(body: Seq<u8>, at: int)
    requires
        body.len() < 65_000,
    ensures
        blocks_bounded(body, at),
    decreases body.len() - at,
{
    if 0 <= at && at + 3 <= body.len() {
        let head = u24_at(body, at);
        let (last, kind, size) = (head % 2 == 1, head / 2 % 4, head / 8);
        let end = at + 3 + if kind == 1 {
            1
        } else {
            size
        };
        if !(kind == 3 || size > BLOCK_MAX || end > body.len()) && !last {
            lemma_short_blocks(body, end);
        }
    }
}

/// A frame is bounded block by block: a compressed block of 65,000 bytes or more is
/// too much where it runs more than 32,759 sequences, and a block that is not the
/// last leaves what follows it to be looked at.
pub proof fn lemma_frames_are_bounded_by_their_blocks(body: Seq<u8>, at: int)
    requires
        0 <= at,
        at + 3 <= body.len(),
    ensures
        ({
            let head = body[at] + 256 * (body[at + 1] + 256 * body[at + 2]);
            let (kind, size) = (head / 2 % 4, head / 8);
            let end = at + 3 + size;
            &&& kind == 2 && 65_000 <= size <= 131_072 && end <= body.len() && sequence_count(
                body.subrange(at + 3, end),
            ) > 32_759 ==> !blocks_bounded(body, at)
            &&& kind == 2 && size <= 131_072 && end <= body.len() && (size < 65_000
                || sequence_count(body.subrange(at + 3, end)) <= 32_759) ==> blocks_bounded(
                body,
                at,
            ) == (head % 2 == 1 || blocks_bounded(body, end))
            &&& kind == 0 && size <= 131_072 && end <= body.len() ==> blocks_bounded(body, at) == (
            head % 2 == 1 || blocks_bounded(body, end))
            &&& kind == 1 && size <= 131_072 && at + 4 <= body.len() ==> blocks_bounded(body, at)
                == (head % 2 == 1 || blocks_bounded(body, at + 4))
        }),
{
    let head = body[at] + 256 * (body[at + 1] + 256 * body[at + 2]);
    assert(u24_at(body, at) == head);
}

} // verus!
