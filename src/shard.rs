//! One shard of a pool: a hashbrown map from string content to the slot of
//! the atom that holds it.
//!
//! The map itself is opaque to the verifier. What it holds is named by
//! `shard_entries`, and each method below states over that name what
//! hashbrown's `HashMap` does.

use vstd::prelude::*;

verus! {

/// A deduplication map of one shard.
#[verifier::external_body]
pub struct Shard {
    map: hashbrown::HashMap<String, usize>,
}

/// The entries of a shard: each content with the slot of its atom.
pub uninterp spec fn shard_entries(s: Shard) -> Map<Seq<char>, usize>;

/// The room of a shard: hashbrown's `capacity()`, its entries plus the free
/// places left before its table grows.
pub uninterp spec fn shard_room(s: Shard) -> usize;

/// The least power of two that is at least `x`.
pub open spec fn next_pow2(x: int) -> int
    decreases x,
{
    if x <= 1 {
        1
    } else {
        2 * next_pow2((x + 1) / 2)
    }
}

/// The room of the smallest table that hashbrown builds for `n` entries of
/// this map: none for no entry; tables of 4, 8 and 16 buckets, one of them
/// kept empty, below 15 entries; above that a power of two of buckets with an
/// eighth kept empty.
pub open spec fn tight_room(n: int) -> int {
    if n <= 0 {
        0
    } else if n < 4 {
        3
    } else if n < 8 {
        7
    } else if n < 15 {
        14
    } else {
        next_pow2(n * 8 / 7) / 8 * 7
    }
}

impl Shard {
    /// Relies on hashbrown::HashMap::new: a map with no entries.
    #[verifier::external_body]
    pub(crate) fn new() -> (r: Shard)
        ensures
            shard_entries(r) =~= Map::empty(),
            shard_room(r) == 0,
    {
        Shard { map: hashbrown::HashMap::new() }
    }

    /// Relies on hashbrown::HashMap::get: the value stored under a key equal
    /// to `key`, if there is one. `String` hashes and compares as `str` does.
    #[verifier::external_body]
    pub(crate) fn lookup(&self, key: &str) -> (r: Option<usize>)
        ensures
            r == (if shard_entries(*self).contains_key(key@) {
                Some(shard_entries(*self)[key@])
            } else {
                None
            }),
    {
        self.map.get(key).copied()
    }

    /// Relies on hashbrown::HashMap::insert: afterwards `key` maps to `slot`
    /// and every other entry is as it was.
    #[verifier::external_body]
    pub(crate) fn insert(&mut self, key: String, slot: usize)
        ensures
            shard_entries(*final(self)) == shard_entries(*old(self)).insert(key@, slot),
    {
        self.map.insert(key, slot);
    }

    /// Relies on hashbrown::HashMap::remove: the entry of `key` is gone, its
    /// value is returned, and every other entry is as it was.
    #[verifier::external_body]
    pub(crate) fn remove(&mut self, key: &str) -> (r: Option<usize>)
        ensures
            shard_entries(*final(self)) == shard_entries(*old(self)).remove(key@),
            r == (if shard_entries(*old(self)).contains_key(key@) {
                Some(shard_entries(*old(self))[key@])
            } else {
                None
            }),
    {
        self.map.remove(key)
    }

    /// Relies on hashbrown::HashMap::len: the number of entries.
    #[verifier::external_body]
    pub(crate) fn len(&self) -> (r: usize)
        ensures
            r == shard_entries(*self).len(),
    {
        self.map.len()
    }

    /// Relies on hashbrown::HashMap::capacity, which is the number of entries
    /// plus the room left before the table grows: never below `len`.
    #[verifier::external_body]
    pub(crate) fn capacity(&self) -> (r: usize)
        ensures
            r == shard_room(*self),
            r >= shard_entries(*self).len(),
    {
        self.map.capacity()
    }

    /// Relies on hashbrown::HashMap::shrink_to_fit: it leaves the entries as
    /// they were, and its table is then no larger than the smallest one that
    /// hashbrown builds for that many entries (an empty map drops its table).
    #[verifier::external_body]
    pub(crate) fn shrink_to_fit(&mut self)
        ensures
            shard_entries(*final(self)) == shard_entries(*old(self)),
            shard_room(*final(self)) <= tight_room(shard_entries(*old(self)).len() as int),
    {
        self.map.shrink_to_fit();
    }
}

} // verus!
