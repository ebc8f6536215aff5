//! A fast 64-bit hash that is not cryptographic. Inputs of 32 bytes and more
//! are taken in blocks of four 64-bit lanes; the rest goes word by word, and
//! the last seven bytes or fewer go into one word of their own.
//!
//! Words are read in little-endian byte order on every machine.

use crate::bloom::{slots_from_digest, valid_params, HashStrategy};
use vstd::prelude::*;
use vstd::wrapping::u64_specs::{wrapping_add, wrapping_mul, wrapping_sub};

verus! {

pub const MAGIC_SEED: u64 = 0xbc4a78eb0e083fb5;

pub const MAGIC_SHIFT_1: u64 = 0xc2d4f379500c363f;

pub const MAGIC_SHIFT_2: u64 = 0xa696a85adffcf585;

pub const MAGIC_SHIFT_3: u64 = 0xfcb5791894673fd3;

pub const MAGIC_SHIFT_4: u64 = 0xb828e5548ad84c69;

pub const MAGIC_OFFSET_1: u64 = 0xff43a9d0c1c914cd;

pub const MAGIC_OFFSET_2: u64 = 0xf049ed58f79e6153;

pub const MAGIC_MIX: u64 = 0xed27a0e9f72a6d47;

/// The 64-bit word that the eight bytes from `at` on spell in little-endian
/// order.
pub open spec fn le_word(s: Seq<u8>, at: int) -> u64 {
    (s[at] as u64) | ((s[at + 1] as u64) << 8) | ((s[at + 2] as u64) << 16) | ((s[at + 3] as u64)
        << 24) | ((s[at + 4] as u64) << 32) | ((s[at + 5] as u64) << 40) | ((s[at + 6] as u64)
        << 48) | ((s[at + 7] as u64) << 56)
}

/// The word that the last `n` bytes (seven at most) from `at` on spell in
/// little-endian order.
pub open spec fn tail_word(s: Seq<u8>, at: int, n: int) -> u64 {
    let v6: u64 = if n > 6 { 0u64 ^ ((s[at + 6] as u64) << 48) } else { 0u64 };
    let v5: u64 = if n > 5 { v6 ^ ((s[at + 5] as u64) << 40) } else { v6 };
    let v4: u64 = if n > 4 { v5 ^ ((s[at + 4] as u64) << 32) } else { v5 };
    let v3: u64 = if n > 3 { v4 ^ ((s[at + 3] as u64) << 24) } else { v4 };
    let v2: u64 = if n > 2 { v3 ^ ((s[at + 2] as u64) << 16) } else { v3 };
    let v1: u64 = if n > 1 { v2 ^ ((s[at + 1] as u64) << 8) } else { v2 };
    if n > 0 { v1 ^ (s[at] as u64) } else { v1 }
}

/// Scrambles one word.
pub open spec fn mix_spec(v: u64) -> u64 {
    let a: u64 = v ^ (v >> 23);
    let b: u64 = wrapping_mul(a, MAGIC_MIX);
    b ^ (b >> 47)
}

/// Folds one word into a lane of the block loop.
pub open spec fn stir(w: u64) -> u64 {
    let a: u64 = w ^ (w >> 23);
    a ^ (a >> 47)
}

/// The multiplier of each of the four lanes.
pub open spec fn lane_multiplier(lane: int) -> u64 {
    if lane == 0 {
        MAGIC_SHIFT_1
    } else if lane == 1 {
        MAGIC_SHIFT_2
    } else if lane == 2 {
        MAGIC_SHIFT_3
    } else {
        MAGIC_SHIFT_4
    }
}

/// What each of the four lanes starts from.
pub open spec fn lane_start(lane: int, h: u64) -> u64 {
    if lane == 0 {
        wrapping_add(wrapping_add(h, MAGIC_OFFSET_1), MAGIC_OFFSET_2)
    } else if lane == 1 {
        wrapping_add(h, MAGIC_OFFSET_1)
    } else if lane == 2 {
        h
    } else {
        wrapping_sub(h, MAGIC_OFFSET_2)
    }
}

/// A lane after the first `blocks` blocks of 32 bytes: in each block the lane
/// takes the word at its own place.
pub open spec fn lane_after(lane: int, h: u64, s: Seq<u8>, blocks: int) -> u64
    decreases blocks,
{
    if blocks <= 0 {
        h
    } else {
        let before = lane_after(lane, h, s, blocks - 1);
        wrapping_mul(before ^ stir(le_word(s, 32 * (blocks - 1) + 8 * lane)), lane_multiplier(lane))
    }
}

/// The state after `count` whole words from `from` on have been folded in,
/// one by one.
pub open spec fn words_after(h: u64, s: Seq<u8>, from: int, count: int) -> u64
    decreases count,
{
    if count <= 0 {
        h
    } else {
        let before = words_after(h, s, from, count - 1);
        wrapping_mul(before ^ mix_spec(le_word(s, from + 8 * (count - 1))), MAGIC_SHIFT_1)
    }
}

/// `x` turned right by `r` bits.
pub open spec fn rotr(x: u64, r: u64) -> u64 {
    (x >> r) | (x << ((64 - r) as u64))
}

/// The four lanes folded into one word.
pub open spec fn lanes_joined(h: u64, s: Seq<u8>, blocks: int) -> u64 {
    rotr(lane_after(0, lane_start(0, h), s, blocks), 1) ^ rotr(
        lane_after(1, lane_start(1, h), s, blocks),
        3,
    ) ^ rotr(lane_after(2, lane_start(2, h), s, blocks), 6) ^ rotr(
        lane_after(3, lane_start(3, h), s, blocks),
        11,
    )
}

/// The hash of a byte string.
pub open spec fn sfhash64_spec(s: Seq<u8>) -> u64 {
    let seeded: u64 = MAGIC_SEED ^ wrapping_mul(s.len() as u64, MAGIC_SHIFT_1);
    let blocks = s.len() as int / 32;
    let words = s.len() as int / 8;
    let joined: u64 = if s.len() < 32 {
        seeded
    } else {
        lanes_joined(seeded, s, blocks)
    };
    let folded: u64 = words_after(joined, s, 32 * blocks, words - 4 * blocks);
    let last: u64 = tail_word(s, 8 * words, s.len() as int % 8);
    mix_spec(wrapping_mul(folded ^ mix_spec(last), MAGIC_SHIFT_4))
}

/// Scrambles one word.
pub fn mix(v: u64) -> (r: u64)
    ensures
        r == mix_spec(v),
{
    let a: u64 = v ^ (v >> 23);
    let b: u64 = a.wrapping_mul(MAGIC_MIX);
    b ^ (b >> 47)
}

fn read_word(buffer: &[u8], at: usize) -> (w: u64)
    requires
        at + 8 <= buffer@.len(),
    ensures
        w == le_word(buffer@, at as int),
{
    let n: usize = buffer.len();
    (buffer[at] as u64) | ((buffer[at + 1] as u64) << 8) | ((buffer[at + 2] as u64) << 16) | ((
    buffer[at + 3] as u64) << 24) | ((buffer[at + 4] as u64) << 32) | ((buffer[at + 5] as u64)
        << 40) | ((buffer[at + 6] as u64) << 48) | ((buffer[at + 7] as u64) << 56)
}

fn read_tail(buffer: &[u8], at: usize, n: usize) -> (v: u64)
    requires
        n <= 7,
        at + n <= buffer@.len(),
    ensures
        v == tail_word(buffer@, at as int, n as int),
{
    let len: usize = buffer.len();
    let mut v: u64 = 0;
    if n > 6 {
        v ^= (buffer[at + 6] as u64) << 48;
    }
    if n > 5 {
        v ^= (buffer[at + 5] as u64) << 40;
    }
    if n > 4 {
        v ^= (buffer[at + 4] as u64) << 32;
    }
    if n > 3 {
        v ^= (buffer[at + 3] as u64) << 24;
    }
    if n > 2 {
        v ^= (buffer[at + 2] as u64) << 16;
    }
    if n > 1 {
        v ^= (buffer[at + 1] as u64) << 8;
    }
    if n > 0 {
        v ^= buffer[at] as u64;
    }
    v
}

fn rotate_right(x: u64, r: u64) -> (y: u64)
    requires
        0 < r < 64,
    ensures
        y == rotr(x, r),
{
    (x >> r) | (x << (64 - r))
}

/// Hashes a byte string to 64 bits.
pub fn sfhash64(buffer: &[u8]) -> (h: u64)
    ensures
        h == sfhash64_spec(buffer@),
{
    let len: usize = buffer.len();
    let words: usize = len / 8;
    let blocks: usize = len / 32;
    let seeded: u64 = MAGIC_SEED ^ (len as u64).wrapping_mul(MAGIC_SHIFT_1);
    let mut h: u64 = seeded;
    let mut word: usize = 0;
    if len >= 32 {
        let mut h0: u64 = seeded.wrapping_add(MAGIC_OFFSET_1).wrapping_add(MAGIC_OFFSET_2);
        let mut h1: u64 = seeded.wrapping_add(MAGIC_OFFSET_1);
        let mut h2: u64 = seeded;
        let mut h3: u64 = seeded.wrapping_sub(MAGIC_OFFSET_2);
        let mut block: usize = 0;
        while block < blocks
            invariant
                len == buffer@.len(),
                blocks == len / 32,
                block <= blocks,
                h0 == lane_after(0, lane_start(0, seeded), buffer@, block as int),
                h1 == lane_after(1, lane_start(1, seeded), buffer@, block as int),
                h2 == lane_after(2, lane_start(2, seeded), buffer@, block as int),
                h3 == lane_after(3, lane_start(3, seeded), buffer@, block as int),
            decreases blocks - block,
        {
            let at: usize = block * 32;
            let w0: u64 = read_word(buffer, at);
            let w1: u64 = read_word(buffer, at + 8);
            let w2: u64 = read_word(buffer, at + 16);
            let w3: u64 = read_word(buffer, at + 24);
            let v0: u64 = w0 ^ (w0 >> 23);
            let v1: u64 = w1 ^ (w1 >> 23);
            let v2: u64 = w2 ^ (w2 >> 23);
            let v3: u64 = w3 ^ (w3 >> 23);
            h0 = (h0 ^ (v0 ^ (v0 >> 47))).wrapping_mul(MAGIC_SHIFT_1);
            h1 = (h1 ^ (v1 ^ (v1 >> 47))).wrapping_mul(MAGIC_SHIFT_2);
            h2 = (h2 ^ (v2 ^ (v2 >> 47))).wrapping_mul(MAGIC_SHIFT_3);
            h3 = (h3 ^ (v3 ^ (v3 >> 47))).wrapping_mul(MAGIC_SHIFT_4);
            block += 1;
        }
        h = rotate_right(h0, 1) ^ rotate_right(h1, 3) ^ rotate_right(h2, 6) ^ rotate_right(h3, 11);
        word = blocks * 4;
    }
    let ghost joined = h;
    let first: usize = word;
    while word < words
        invariant
            len == buffer@.len(),
            words == len / 8,
            first == 4 * (len / 32),
            first <= word <= words,
            h == words_after(joined, buffer@, 8 * first, word - first),
        decreases words - word,
    {
        let v: u64 = read_word(buffer, word * 8);
        h = (h ^ mix(v)).wrapping_mul(MAGIC_SHIFT_1);
        word += 1;
    }
    let v: u64 = read_tail(buffer, words * 8, len % 8);
    h = (h ^ mix(v)).wrapping_mul(MAGIC_SHIFT_4);
    mix(h)
}

/// The strategy that takes its slots from `sfhash64`.
pub struct SfHash64<const ML: usize, const K: usize> {}

impl<const ML: usize, const K: usize> HashStrategy<ML, K> for SfHash64<ML, K> {
    open spec fn digest(message: Seq<u8>) -> u64 {
        sfhash64_spec(message)
    }

    fn hash(message: &[u8]) -> (slots: [u32; K]) {
        slots_from_digest::<ML, K>(sfhash64(message))
    }
}

} // verus!
