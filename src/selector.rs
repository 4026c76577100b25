//! Choice of the shard that holds a given string.
//!
//! The choice depends on the content alone and reads at most four bytes of
//! it: a cheap spread over the shards, not a hash that identifies content.

use vstd::prelude::*;
use vstd::string::StringSliceAdditionalSpecFns;
use vstd::utf8::encode_utf8;

verus! {

/// Number of shards in a pool.
pub const SHARD_COUNT: usize = 64;

/// The byte at position `i` of `b`, or 0 where `b` is too short.
pub open spec fn byte_or_zero(b: Seq<u8>, i: int) -> u8 {
    if 0 <= i < b.len() {
        b[i]
    } else {
        0
    }
}

/// The 32-bit word made, high byte first, of the first byte, the middle
/// byte, the last byte and the length truncated to one byte.
pub open spec fn seed_word(b: Seq<u8>) -> u32 {
    let first = byte_or_zero(b, 0);
    let middle = byte_or_zero(b, (b.len() / 2) as int);
    let last = byte_or_zero(b, b.len() - 1);
    let len = (b.len() % 256) as u8;
    ((first as u32) << 24u32) | ((middle as u32) << 16u32) | ((last as u32) << 8u32) | (len as u32)
}

/// Three xor-folds that move high bits of `h` down.
pub open spec fn fold_word(h: u32) -> u32 {
    let h1 = h ^ (h >> 19u32);
    let h2 = h1 ^ (h1 >> 13u32);
    h2 ^ (h2 >> 5u32)
}

/// The shard of a string whose UTF-8 encoding is `b`.
pub open spec fn shard_of_bytes(b: Seq<u8>) -> int {
    (fold_word(seed_word(b)) as int) % (SHARD_COUNT as int)
}

/// The shard of a string with content `s`.
pub open spec fn shard_of(s: Seq<char>) -> int {
    shard_of_bytes(encode_utf8(s))
}

/// Index of the shard that holds `s`.
pub fn get_shard(s: &str) -> (r: usize)
    ensures
        r == shard_of(s@),
        r < SHARD_COUNT,
{
    let bytes = s.as_bytes();
    let n = bytes.len();
    let first: u8 = if n > 0 { bytes[0] } else { 0 };
    let middle: u8 = if n / 2 < n { bytes[n / 2] } else { 0 };
    let last: u8 = if n > 0 { bytes[n - 1] } else { 0 };
    let len: u8 = (n % 256) as u8;
    let seed: u32 = ((first as u32) << 24u32) | ((middle as u32) << 16u32) | ((last as u32) << 8u32)
        | (len as u32);
    proof {
        assert(bytes@ == s.spec_bytes());
        assert(seed == seed_word(bytes@));
    }
    let mut hash: u32 = seed;
    hash = hash ^ (hash >> 19u32);
    hash = hash ^ (hash >> 13u32);
    hash = hash ^ (hash >> 5u32);
    assert(hash == fold_word(seed));
    (hash as usize) % SHARD_COUNT
}

} // verus!
