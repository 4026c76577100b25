//! The interning pool: shards that map content to atoms, the atoms with their
//! reference counts, and the symbols that refer to them.
//!
//! A pool is modelled by two maps over string content: `slots`, the atom that
//! holds each interned string, and `counts`, the number of live symbols that
//! refer to it. Every interned string has at least one live symbol: the last
//! release of a string removes it.

use vstd::prelude::*;
use std::cmp::Ordering;
use vstd::string::StringSliceAdditionalSpecFns;
use vstd::utf8::encode_utf8;
use crate::selector::{get_shard, shard_of, SHARD_COUNT};
use crate::shard::{shard_entries, shard_room, tight_room, Shard};

verus! {

/// The storage of one distinct string: its content and the number of live
/// symbols that refer to it.
struct Atom {
    buf: String,
    count: usize,
}

/// A handle to an interned string. It is one word: the slot of the string's
/// atom in its pool.
///
/// A symbol is not `Clone`: a copy must be counted, so it is made by
/// [`Symbol::retain`], and it is given back by [`Symbol::release`].
#[derive(PartialEq, Eq, Structural, Hash, PartialOrd, Ord, Debug)]
pub struct Symbol {
    slot: usize,
}

impl Symbol {
    /// The slot of the atom that this symbol refers to.
    pub closed spec fn id(self) -> usize {
        self.slot
    }

    /// A symbol is determined by the slot it refers to.
    pub proof fn lemma_id_determines(s: Symbol, t: Symbol)
        requires
            s.id() == t.id(),
        ensures
            s == t,
    {
    }
}

/// The entries of `m` whose content falls in shard `i`.
pub open spec fn in_shard(m: Map<Seq<char>, usize>, i: int) -> Map<Seq<char>, usize> {
    Map::new(|k: Seq<char>| m.contains_key(k) && shard_of(k) == i, |k: Seq<char>| m[k])
}

/// A pool of interned strings.
pub struct Pool {
    /// One map per shard, from content to the slot of its atom.
    shards: Vec<Shard>,
    /// The atoms by slot; an empty slot is listed in `free`.
    atoms: Vec<Option<Atom>>,
    /// Empty slots, each once, reused before the table grows.
    free: Vec<usize>,
    /// The union of the shards' maps.
    index: Ghost<Map<Seq<char>, usize>>,
}

impl Pool {
    /// The slot of the atom of each interned string.
    pub closed spec fn slots(&self) -> Map<Seq<char>, usize> {
        self.index@
    }

    spec fn count_at(&self, j: usize) -> nat {
        match self.atoms@[j as int] {
            Some(a) => a.count as nat,
            None => 0,
        }
    }

    /// The room of each shard, as hashbrown counts it.
    pub closed spec fn rooms(&self) -> Seq<usize> {
        self.shards@.map_values(|s: Shard| shard_room(s))
    }

    /// The number of live symbols of each interned string.
    pub closed spec fn counts(&self) -> Map<Seq<char>, nat> {
        Map::new(|k: Seq<char>| self.index@.contains_key(k), |k: Seq<char>| self.count_at(self.index@[k]))
    }

    /// The content of the atom that `s` refers to.
    pub closed spec fn content(&self, s: Symbol) -> Seq<char> {
        match self.atoms@[s.slot as int] {
            Some(a) => a.buf@,
            None => Seq::empty(),
        }
    }

    /// `s` refers to a string interned in this pool.
    pub open spec fn holds(&self, s: Symbol) -> bool {
        &&& self.slots().contains_key(self.content(s))
        &&& self.slots()[self.content(s)] == s.id()
    }

    /// The number of live symbols of `k`: zero where `k` is not interned.
    pub open spec fn count_spec(&self, k: Seq<char>) -> nat {
        if self.counts().contains_key(k) {
            self.counts()[k]
        } else {
            0
        }
    }

    /// One more symbol of `k` can be counted.
    pub open spec fn can_intern(&self, k: Seq<char>) -> bool {
        self.count_spec(k) < usize::MAX
    }

    /// The model is consistent: finitely many strings, each with one atom of
    /// its own and at least one live symbol.
    pub open spec fn model_ok(&self) -> bool {
        &&& self.rooms().len() == SHARD_COUNT
        &&& self.slots().dom().finite()
        &&& self.counts().dom() == self.slots().dom()
        &&& forall|k: Seq<char>| #[trigger]
            self.counts().contains_key(k) ==> 1 <= self.counts()[k] <= usize::MAX
        &&& forall|k1: Seq<char>, k2: Seq<char>|
            #![trigger self.slots()[k1], self.slots()[k2]]
            self.slots().contains_key(k1) && self.slots().contains_key(k2) && self.slots()[k1]
                == self.slots()[k2] ==> k1 == k2
    }

    spec fn shard_ok(&self, i: int) -> bool {
        shard_entries(self.shards@[i]) == in_shard(self.index@, i)
    }

    /// The shards, atoms and free list agree with the model.
    pub closed spec fn inner_ok(&self) -> bool {
        &&& self.shards@.len() == SHARD_COUNT
        &&& forall|i: int| 0 <= i < SHARD_COUNT ==> #[trigger] self.shard_ok(i)
        &&& forall|k: Seq<char>| #[trigger]
            self.index@.contains_key(k) ==> {
                let j = self.index@[k] as int;
                &&& 0 <= j < self.atoms@.len()
                &&& self.atoms@[j] is Some
                &&& self.atoms@[j]->Some_0.buf@ == k
            }
        &&& forall|j: int|
            0 <= j < self.atoms@.len() && (#[trigger] self.atoms@[j]) is Some ==> {
                let a = self.atoms@[j]->Some_0;
                &&& self.index@.contains_key(a.buf@)
                &&& self.index@[a.buf@] == j
                &&& a.count >= 1
            }
        &&& forall|i: int|
            0 <= i < self.free@.len() ==> {
                &&& #[trigger] self.free@[i] < self.atoms@.len()
                &&& self.atoms@[self.free@[i] as int] is None
            }
        &&& forall|i: int, j: int|
            0 <= i < j < self.free@.len() ==> #[trigger] self.free@[i] != #[trigger] self.free@[j]
        &&& self.index@.dom().finite()
        &&& self.index@.dom().len() + self.free@.len() == self.atoms@.len()
    }

    /// The pool is well formed.
    pub open spec fn wf(&self) -> bool {
        self.model_ok() && self.inner_ok()
    }

    proof fn lemma_model(&self)
        requires
            self.inner_ok(),
        ensures
            self.model_ok(),
    {
        assert(self.rooms().len() == SHARD_COUNT);
        assert(self.counts().dom() =~= self.slots().dom());
        assert forall|k: Seq<char>| #[trigger] self.counts().contains_key(k) implies 1
            <= self.counts()[k] <= usize::MAX by {
            let j = self.index@[k] as int;
            assert(self.atoms@[j] is Some);
        }
        assert forall|k1: Seq<char>, k2: Seq<char>|
            self.slots().contains_key(k1) && self.slots().contains_key(k2) && #[trigger] self.slots()[k1]
                == #[trigger] self.slots()[k2] implies k1 == k2 by {
            assert(self.index@.contains_key(k1));
            assert(self.index@.contains_key(k2));
        }
    }

    /// A pool with no interned strings.
    pub fn new() -> (r: Pool)
        ensures
            r.wf(),
            r.slots() == Map::<Seq<char>, usize>::empty(),
            forall|i: int| 0 <= i < SHARD_COUNT ==> #[trigger] r.rooms()[i] == 0,
    {
        let mut shards: Vec<Shard> = Vec::new();
        let mut i: usize = 0;
        while i < SHARD_COUNT
            invariant
                i <= SHARD_COUNT,
                shards@.len() == i,
                forall|j: int| 0 <= j < i ==> shard_entries(#[trigger] shards@[j]) == Map::<Seq<char>, usize>::empty(),
                forall|j: int| 0 <= j < i ==> shard_room(#[trigger] shards@[j]) == 0,
            decreases SHARD_COUNT - i,
        {
            shards.push(Shard::new());
            i = i + 1;
        }
        let r = Pool { shards, atoms: Vec::new(), free: Vec::new(), index: Ghost(Map::empty()) };
        assert forall|j: int| 0 <= j < SHARD_COUNT implies #[trigger] r.shard_ok(j) by {
            assert(in_shard(r.index@, j) =~= Map::<Seq<char>, usize>::empty());
        }
        proof {
            r.lemma_model();
        }
        r
    }
}

/// Every symbol held by `old` is held by `new` and refers to the same content.
pub open spec fn keeps_held(old: Pool, new: Pool) -> bool {
    forall|t: Symbol| #[trigger] old.holds(t) ==> new.holds(t) && new.content(t) == old.content(t)
}

/// `new` and `s` are what interning `key` in `old` gives.
pub open spec fn interns(old: Pool, key: Seq<char>, new: Pool, s: Symbol) -> bool {
    &&& new.wf()
    &&& new.holds(s)
    &&& new.content(s) == key
    &&& new.slots() == old.slots().insert(key, s.id())
    &&& new.counts() == old.counts().insert(key, old.count_spec(key) + 1)
    &&& old.slots().contains_key(key) ==> s.id() == old.slots()[key]
    &&& !old.slots().contains_key(key) ==> forall|k: Seq<char>|
        #[trigger] old.slots().contains_key(k) ==> old.slots()[k] != s.id()
    &&& forall|t: Symbol| #[trigger] old.holds(t) ==> (t == s <==> old.content(t) == key)
    &&& keeps_held(old, new)
}

/// Interns `key` in `pool` and returns a symbol of it.
///
/// Where `key` is already interned the symbol refers to its atom, whose
/// count goes up by one. Otherwise a new atom with count one is stored.
pub fn intern(pool: &mut Pool, key: &str) -> (r: Symbol)
    requires
        old(pool).wf(),
        old(pool).can_intern(key@),
    ensures
        interns(*old(pool), key@, *final(pool), r),
{
    let ghost p0 = *pool;
    let i = get_shard(key);
    match pool.shards[i].lookup(key) {
        Some(slot) => {
            assert(p0.shard_ok(i as int));
            assert(in_shard(p0.index@, i as int).contains_key(key@));
            assert(p0.index@.contains_key(key@));
            let r = Symbol { slot };
            assert(p0.holds(r));
            pool.bump(&r);
            proof {
                assert(p0.count_spec(key@) == p0.counts()[key@]);
                assert(pool.slots() =~= p0.slots().insert(key@, r.id()));
                assert forall|t: Symbol| #[trigger] p0.holds(t) implies (t == r <==> p0.content(t)
                    == key@) by {
                    assert(p0.index@.contains_key(p0.content(t)));
                }
            }
            r
        },
        None => {
            assert(p0.shard_ok(i as int));
            assert(!p0.index@.contains_key(key@)) by {
                if p0.index@.contains_key(key@) {
                    assert(in_shard(p0.index@, i as int).contains_key(key@));
                }
            }
            let atom = Atom { buf: key.to_owned(), count: 1 };
            let slot: usize;
            match pool.free.pop() {
                Some(j) => {
                    slot = j;
                    assert(p0.free@[p0.free@.len() - 1] == j);
                    pool.atoms.set(j, Some(atom));
                },
                None => {
                    slot = pool.atoms.len();
                    pool.atoms.push(Some(atom));
                },
            }
            pool.shards[i].insert(key.to_owned(), slot);
            proof {
                pool.index@ = p0.index@.insert(key@, slot);
            }
            let r = Symbol { slot };
            proof {
                assert forall|k: Seq<char>| #[trigger] p0.index@.contains_key(k) implies p0.index@[k]
                    != slot by {
                    let jj = p0.index@[k] as int;
                    assert(p0.atoms@[jj] is Some);
                }
                assert forall|j: int| 0 <= j < SHARD_COUNT implies #[trigger] pool.shard_ok(j) by {
                    assert(p0.shard_ok(j));
                    if j == i as int {
                        assert(shard_entries(pool.shards@[j]) =~= in_shard(pool.index@, j));
                    } else {
                        assert(pool.shards@[j] == p0.shards@[j]);
                        assert(in_shard(pool.index@, j) =~= in_shard(p0.index@, j));
                    }
                }
                assert forall|k: Seq<char>| #[trigger] pool.index@.contains_key(k) implies {
                    let j = pool.index@[k] as int;
                    &&& 0 <= j < pool.atoms@.len()
                    &&& pool.atoms@[j] is Some
                    &&& pool.atoms@[j]->Some_0.buf@ == k
                } by {
                    if k != key@ {
                        assert(p0.index@.contains_key(k));
                    }
                }
                assert forall|j: int|
                    0 <= j < pool.atoms@.len() && (#[trigger] pool.atoms@[j]) is Some implies {
                    let a = pool.atoms@[j]->Some_0;
                    &&& pool.index@.contains_key(a.buf@)
                    &&& pool.index@[a.buf@] == j
                    &&& a.count >= 1
                } by {
                    if j != slot as int {
                        assert(p0.atoms@[j] is Some);
                        assert(p0.atoms@[j]->Some_0.buf@ != key@);
                    }
                }
                assert forall|ii: int| 0 <= ii < pool.free@.len() implies {
                    &&& #[trigger] pool.free@[ii] < pool.atoms@.len()
                    &&& pool.atoms@[pool.free@[ii] as int] is None
                } by {
                    assert(pool.free@[ii] == p0.free@[ii]);
                    if p0.free@.len() > pool.free@.len() {
                        assert(p0.free@[ii] != p0.free@[p0.free@.len() - 1]);
                    }
                }
                assert forall|ii: int, jj: int| 0 <= ii < jj < pool.free@.len() implies #[trigger] pool.free@[ii]
                    != #[trigger] pool.free@[jj] by {
                    assert(pool.free@[ii] == p0.free@[ii]);
                    assert(pool.free@[jj] == p0.free@[jj]);
                }
                assert(pool.index@.dom() == p0.index@.dom().insert(key@));
                pool.lemma_model();
                assert(pool.counts() =~= p0.counts().insert(key@, p0.count_spec(key@) + 1));
                assert(pool.slots() =~= p0.slots().insert(key@, r.id()));
                assert forall|t: Symbol| #[trigger] p0.holds(t) implies pool.holds(t)
                    && pool.content(t) == p0.content(t) && (t == r <==> p0.content(t) == key@) by {
                    assert(p0.index@.contains_key(p0.content(t)));
                }
            }
            r
        },
    }
}

/// `new` is what releasing `s` from `old` gives: the count of its content
/// goes down by one, and the content leaves the pool when none is left.
pub open spec fn releases(old: Pool, s: Symbol, new: Pool) -> bool {
    let key = old.content(s);
    &&& new.wf()
    &&& if old.counts()[key] == 1 {
        &&& new.slots() == old.slots().remove(key)
        &&& new.counts() == old.counts().remove(key)
    } else {
        &&& new.slots() == old.slots()
        &&& new.counts() == old.counts().insert(key, (old.counts()[key] - 1) as nat)
    }
    &&& forall|t: Symbol| #[trigger] old.holds(t) && new.slots().contains_key(old.content(t))
        ==> new.holds(t) && new.content(t) == old.content(t)
}

/// The order of byte strings that `str` uses: by the first byte where they
/// differ, and a proper prefix before the longer string.
pub open spec fn byte_order(a: Seq<u8>, b: Seq<u8>) -> Ordering
    decreases a.len(),
{
    if a.len() == 0 {
        if b.len() == 0 {
            Ordering::Equal
        } else {
            Ordering::Less
        }
    } else if b.len() == 0 {
        Ordering::Greater
    } else if a[0] < b[0] {
        Ordering::Less
    } else if a[0] > b[0] {
        Ordering::Greater
    } else {
        byte_order(a.drop_first(), b.drop_first())
    }
}

/// `new` and `t` are what taking one more symbol of `s` from `old` gives.
pub open spec fn retains(old: Pool, s: Symbol, new: Pool, t: Symbol) -> bool {
    let key = old.content(s);
    &&& new.wf()
    &&& t == s
    &&& new.slots() == old.slots()
    &&& new.counts() == old.counts().insert(key, old.counts()[key] + 1)
    &&& keeps_held(old, new)
}

impl Symbol {
    /// Interns `key` in `pool`: the same as [`intern`].
    pub fn new(pool: &mut Pool, key: &str) -> (r: Symbol)
        requires
            old(pool).wf(),
            old(pool).can_intern(key@),
        ensures
            interns(*old(pool), key@, *final(pool), r),
    {
        intern(pool, key)
    }

    /// The content that this symbol refers to.
    pub fn as_str<'a>(&self, pool: &'a Pool) -> (r: &'a str)
        requires
            pool.wf(),
            pool.holds(*self),
        ensures
            r@ == pool.content(*self),
    {
        assert(pool.index@.contains_key(pool.content(*self)));
        match &pool.atoms[self.slot] {
            Some(atom) => atom.buf.as_str(),
            None => "",
        }
    }

    /// The number of live symbols of this symbol's content.
    pub fn count(&self, pool: &Pool) -> (r: usize)
        requires
            pool.wf(),
            pool.holds(*self),
        ensures
            r == pool.counts()[pool.content(*self)],
    {
        assert(pool.index@.contains_key(pool.content(*self)));
        match &pool.atoms[self.slot] {
            Some(atom) => atom.count,
            None => 0,
        }
    }

    /// Compares the contents of two symbols of `pool` in the order of `str`,
    /// which is the order of their UTF-8 bytes. Symbols of equal content are
    /// equal, so this order agrees with `==`.
    pub fn cmp_content(&self, other: &Symbol, pool: &Pool) -> (r: Ordering)
        requires
            pool.wf(),
            pool.holds(*self),
            pool.holds(*other),
        ensures
            r == byte_order(encode_utf8(pool.content(*self)), encode_utf8(pool.content(*other))),
    {
        let x = self.as_str(pool);
        let y = other.as_str(pool);
        let a = x.as_bytes();
        let b = y.as_bytes();
        assert(a@ == x.spec_bytes());
        assert(b@ == y.spec_bytes());
        let mut i: usize = 0;
        assert(a@.subrange(0, a@.len() as int) =~= a@);
        assert(b@.subrange(0, b@.len() as int) =~= b@);
        while i < a.len() && i < b.len()
            invariant
                a@ == encode_utf8(pool.content(*self)),
                b@ == encode_utf8(pool.content(*other)),
                i <= a@.len(),
                i <= b@.len(),
                byte_order(a@, b@) == byte_order(
                    a@.subrange(i as int, a@.len() as int),
                    b@.subrange(i as int, b@.len() as int),
                ),
            decreases a@.len() - i,
        {
            assert(a@.subrange(i as int, a@.len() as int)[0] == a@[i as int]);
            assert(b@.subrange(i as int, b@.len() as int)[0] == b@[i as int]);
            let ai = a[i];
            let bi = b[i];
            assert(ai == a@[i as int] && bi == b@[i as int]);
            if ai < bi {
                return Ordering::Less;
            }
            if ai > bi {
                return Ordering::Greater;
            }
            assert(a@.subrange(i as int, a@.len() as int).drop_first() =~= a@.subrange(
                i + 1,
                a@.len() as int,
            ));
            assert(b@.subrange(i as int, b@.len() as int).drop_first() =~= b@.subrange(
                i + 1,
                b@.len() as int,
            ));
            i = i + 1;
        }
        if i < b.len() {
            Ordering::Less
        } else if i < a.len() {
            Ordering::Greater
        } else {
            Ordering::Equal
        }
    }

    /// Another symbol of the same content, counted as one more live symbol.
    pub fn retain(&self, pool: &mut Pool) -> (r: Symbol)
        requires
            old(pool).wf(),
            old(pool).holds(*self),
            old(pool).counts()[old(pool).content(*self)] < usize::MAX,
        ensures
            retains(*old(pool), *self, *final(pool), r),
    {
        pool.bump(self);
        Symbol { slot: self.slot }
    }

    /// Gives this symbol back. Where it was the last live symbol of its
    /// content, the content leaves the pool and its slot is free for reuse.
    pub fn release(self, pool: &mut Pool)
        requires
            old(pool).wf(),
            old(pool).holds(self),
        ensures
            releases(*old(pool), self, *final(pool)),
    {
        let ghost p0 = *pool;
        let ghost key = p0.content(self);
        assert(p0.index@.contains_key(key));
        let slot = self.slot;
        let mut cell: Option<Atom> = None;
        std::mem::swap(&mut pool.atoms[slot], &mut cell);
        let mut atom = cell.unwrap();
        atom.count = atom.count - 1;
        if atom.count > 0 {
            let mut cell = Some(atom);
            std::mem::swap(&mut pool.atoms[slot], &mut cell);
            proof {
                assert(pool.atoms@ == p0.atoms@.update(slot as int, Some(atom)));
                assert forall|j: int| 0 <= j < SHARD_COUNT implies #[trigger] pool.shard_ok(j) by {
                    assert(p0.shard_ok(j));
                }
                pool.lemma_model();
                assert(pool.counts() =~= p0.counts().insert(key, (p0.counts()[key] - 1) as nat));
                assert(pool.slots() =~= p0.slots());
                assert forall|t: Symbol| #[trigger] p0.holds(t) implies pool.holds(t)
                    && pool.content(t) == p0.content(t) by {
                    assert(p0.index@.contains_key(p0.content(t)));
                }
            }
        } else {
            // No live symbol is left: the atom stays out of its slot, and
            // the entry of its content leaves the shard.
            let i = get_shard(atom.buf.as_str());
            pool.shards[i].remove(atom.buf.as_str());
            pool.free.push(slot);
            proof {
                pool.index@ = p0.index@.remove(key);
                assert(pool.atoms@ == p0.atoms@.update(slot as int, None));
                assert forall|j: int| 0 <= j < SHARD_COUNT implies #[trigger] pool.shard_ok(j) by {
                    assert(p0.shard_ok(j));
                    if j == i as int {
                        assert(shard_entries(pool.shards@[j]) =~= in_shard(pool.index@, j));
                    } else {
                        assert(pool.shards@[j] == p0.shards@[j]);
                        assert(in_shard(pool.index@, j) =~= in_shard(p0.index@, j));
                    }
                }
                assert forall|k: Seq<char>| #[trigger] pool.index@.contains_key(k) implies {
                    let j = pool.index@[k] as int;
                    &&& 0 <= j < pool.atoms@.len()
                    &&& pool.atoms@[j] is Some
                    &&& pool.atoms@[j]->Some_0.buf@ == k
                } by {
                    assert(p0.index@.contains_key(k));
                    assert(p0.index@[k] != slot);
                }
                assert forall|j: int|
                    0 <= j < pool.atoms@.len() && (#[trigger] pool.atoms@[j]) is Some implies {
                    let a = pool.atoms@[j]->Some_0;
                    &&& pool.index@.contains_key(a.buf@)
                    &&& pool.index@[a.buf@] == j
                    &&& a.count >= 1
                } by {
                    assert(p0.atoms@[j] is Some);
                    assert(p0.atoms@[j]->Some_0.buf@ != key);
                }
                assert forall|ii: int| 0 <= ii < pool.free@.len() implies {
                    &&& #[trigger] pool.free@[ii] < pool.atoms@.len()
                    &&& pool.atoms@[pool.free@[ii] as int] is None
                } by {
                    if ii < p0.free@.len() {
                        assert(pool.free@[ii] == p0.free@[ii]);
                    }
                }
                assert forall|ii: int, jj: int| 0 <= ii < jj < pool.free@.len() implies #[trigger] pool.free@[ii]
                    != #[trigger] pool.free@[jj] by {
                    assert(pool.free@[ii] == p0.free@[ii]);
                    if jj < p0.free@.len() {
                        assert(pool.free@[jj] == p0.free@[jj]);
                    } else {
                        assert(p0.atoms@[p0.free@[ii] as int] is None);
                    }
                }
                assert(pool.index@.dom() == p0.index@.dom().remove(key));
                pool.lemma_model();
                assert(pool.counts() =~= p0.counts().remove(key));
                assert(pool.slots() =~= p0.slots().remove(key));
                assert forall|t: Symbol| #[trigger] p0.holds(t) && pool.slots().contains_key(p0.content(t))
                    implies pool.holds(t) && pool.content(t) == p0.content(t) by {
                    assert(p0.index@.contains_key(p0.content(t)));
                }
            }
        }
    }
}

/// The interned strings of `m` whose shard is below `i`.
pub open spec fn keys_below(m: Map<Seq<char>, usize>, i: int) -> Set<Seq<char>> {
    m.dom().filter(|k: Seq<char>| shard_of(k) < i)
}

impl Pool {
    /// The entries of shard `i` are the pool's strings of that shard, and
    /// together with those of the shards below it they make up
    /// `keys_below(i + 1)`.
    proof fn lemma_shard_step(&self, i: int)
        requires
            self.wf(),
            0 <= i < SHARD_COUNT,
        ensures
            keys_below(self.index@, i).finite(),
            shard_entries(self.shards@[i]).dom().finite(),
            keys_below(self.index@, i + 1).len() == keys_below(self.index@, i).len()
                + shard_entries(self.shards@[i]).len(),
            keys_below(self.index@, i + 1).len() <= self.index@.dom().len(),
    {
        let m = self.index@;
        assert(self.shard_ok(i));
        let own = shard_entries(self.shards@[i]).dom();
        assert(own =~= m.dom().filter(|k: Seq<char>| shard_of(k) == i));
        vstd::set_lib::lemma_len_subset(own, m.dom());
        vstd::set_lib::lemma_len_subset(keys_below(m, i), m.dom());
        vstd::set_lib::lemma_len_subset(keys_below(m, i + 1), m.dom());
        assert(keys_below(m, i + 1) =~= keys_below(m, i) + own);
        assert(keys_below(m, i).disjoint(own));
        vstd::set_lib::lemma_set_disjoint_lens(keys_below(m, i), own);
    }

    /// Every interned string lies in one of the shards.
    proof fn lemma_all_shards(&self)
        requires
            self.wf(),
        ensures
            keys_below(self.index@, SHARD_COUNT as int) == self.index@.dom(),
    {
        assert(keys_below(self.index@, SHARD_COUNT as int) =~= self.index@.dom());
    }

    /// Counts one more live symbol of the content of `s`.
    fn bump(&mut self, s: &Symbol)
        requires
            old(self).wf(),
            old(self).holds(*s),
            old(self).counts()[old(self).content(*s)] < usize::MAX,
        ensures
            final(self).wf(),
            final(self).slots() == old(self).slots(),
            final(self).counts() == old(self).counts().insert(
                old(self).content(*s),
                old(self).counts()[old(self).content(*s)] + 1,
            ),
            final(self).rooms() == old(self).rooms(),
            keeps_held(*old(self), *final(self)),
    {
        let ghost p0 = *self;
        let ghost key = p0.content(*s);
        assert(p0.index@.contains_key(key));
        let slot = s.slot;
        let mut cell: Option<Atom> = None;
        std::mem::swap(&mut self.atoms[slot], &mut cell);
        let mut atom = cell.unwrap();
        atom.count = atom.count + 1;
        let mut cell = Some(atom);
        std::mem::swap(&mut self.atoms[slot], &mut cell);
        proof {
            assert(self.atoms@ == p0.atoms@.update(slot as int, Some(atom)));
            assert forall|j: int| 0 <= j < SHARD_COUNT implies #[trigger] self.shard_ok(j) by {
                assert(p0.shard_ok(j));
            }
            self.lemma_model();
            assert(self.counts() =~= p0.counts().insert(key, p0.counts()[key] + 1));
            assert(self.slots() =~= p0.slots());
            assert forall|t: Symbol| #[trigger] p0.holds(t) implies self.holds(t) && self.content(t)
                == p0.content(t) by {
                assert(p0.index@.contains_key(p0.content(t)));
            }
        }
    }

    /// The number of live symbols of `key`, zero where it is not interned.
    pub fn count_of(&self, key: &str) -> (r: usize)
        requires
            self.wf(),
        ensures
            r == self.count_spec(key@),
    {
        let i = get_shard(key);
        assert(self.shard_ok(i as int));
        match self.shards[i].lookup(key) {
            Some(slot) => {
                assert(in_shard(self.index@, i as int).contains_key(key@));
                match &self.atoms[slot] {
                    Some(atom) => atom.count,
                    None => 0,
                }
            },
            None => {
                assert(!self.index@.contains_key(key@)) by {
                    if self.index@.contains_key(key@) {
                        assert(in_shard(self.index@, i as int).contains_key(key@));
                    }
                }
                0
            },
        }
    }
}

/// The number of strings interned in `pool`: the sum of the shards' sizes.
pub fn size(pool: &Pool) -> (r: usize)
    requires
        pool.wf(),
    ensures
        r == pool.slots().len(),
{
    let n_atoms = pool.atoms.len();
    let mut total: usize = 0;
    let mut i: usize = 0;
    assert(keys_below(pool.index@, 0) =~= Set::empty());
    while i < SHARD_COUNT
        invariant
            pool.wf(),
            n_atoms == pool.atoms@.len(),
            i <= SHARD_COUNT,
            keys_below(pool.index@, i as int).finite(),
            total == keys_below(pool.index@, i as int).len(),
        decreases SHARD_COUNT - i,
    {
        proof {
            pool.lemma_shard_step(i as int);
        }
        total = total + pool.shards[i].len();
        i = i + 1;
    }
    proof {
        pool.lemma_all_shards();
    }
    total
}

/// The sum of the first `i` rooms of `rooms`.
pub open spec fn sum_rooms(rooms: Seq<usize>, i: int) -> int
    decreases i,
{
    if i <= 0 {
        0
    } else {
        sum_rooms(rooms, i - 1) + rooms[i - 1]
    }
}

/// `x`, or `usize::MAX` where `x` is larger.
pub open spec fn capped(x: int) -> int {
    if x > usize::MAX {
        usize::MAX as int
    } else {
        x
    }
}

/// The number of entries that the shards can hold without growing: the sum
/// of their rooms, or `usize::MAX` where the sum is larger. Never below
/// [`size`].
pub fn capacity(pool: &Pool) -> (r: usize)
    requires
        pool.wf(),
    ensures
        r == capped(sum_rooms(pool.rooms(), SHARD_COUNT as int)),
        r >= pool.slots().len(),
{
    let n_atoms = pool.atoms.len();
    let mut total: usize = 0;
    let mut i: usize = 0;
    assert(keys_below(pool.index@, 0) =~= Set::empty());
    while i < SHARD_COUNT
        invariant
            pool.wf(),
            n_atoms == pool.atoms@.len(),
            i <= SHARD_COUNT,
            keys_below(pool.index@, i as int).finite(),
            total >= keys_below(pool.index@, i as int).len(),
            total == capped(sum_rooms(pool.rooms(), i as int)),
            sum_rooms(pool.rooms(), i as int) >= 0,
        decreases SHARD_COUNT - i,
    {
        proof {
            pool.lemma_shard_step(i as int);
        }
        let room = pool.shards[i].capacity();
        assert(room == pool.rooms()[i as int]);
        total = total.saturating_add(room);
        i = i + 1;
    }
    proof {
        pool.lemma_all_shards();
    }
    total
}

/// `new` holds what `old` holds: the same strings, counts and symbols.
pub open spec fn same_contents(old: Pool, new: Pool) -> bool {
    &&& new.wf()
    &&& new.slots() == old.slots()
    &&& new.counts() == old.counts()
    &&& keeps_held(old, new)
}

/// Asks each shard to release the room it holds beyond its entries. What
/// the pool holds does not change, and each shard's room is then at most
/// that of the smallest table that hashbrown builds for its entries.
pub fn shrink_to_fit(pool: &mut Pool)
    requires
        old(pool).wf(),
    ensures
        same_contents(*old(pool), *final(pool)),
        forall|i: int|
            0 <= i < SHARD_COUNT ==> #[trigger] final(pool).rooms()[i] <= tight_room(
                in_shard(final(pool).slots(), i).len() as int,
            ),
{
    let ghost p0 = *pool;
    let mut i: usize = 0;
    while i < SHARD_COUNT
        invariant
            i <= SHARD_COUNT,
            p0.wf(),
            pool.shards@.len() == SHARD_COUNT,
            pool.atoms == p0.atoms,
            pool.free == p0.free,
            pool.index == p0.index,
            forall|j: int| 0 <= j < SHARD_COUNT ==> shard_entries(#[trigger] pool.shards@[j])
                == shard_entries(p0.shards@[j]),
            forall|j: int| 0 <= j < i ==> shard_room(#[trigger] pool.shards@[j]) <= tight_room(
                shard_entries(p0.shards@[j]).len() as int,
            ),
        decreases SHARD_COUNT - i,
    {
        pool.shards[i].shrink_to_fit();
        i = i + 1;
    }
    proof {
        assert forall|j: int| 0 <= j < SHARD_COUNT implies #[trigger] pool.shard_ok(j) by {
            assert(p0.shard_ok(j));
            assert(shard_entries(pool.shards@[j]) == shard_entries(p0.shards@[j]));
        }
        assert(pool.counts() =~= p0.counts());
        pool.lemma_model();
        assert forall|j: int| 0 <= j < SHARD_COUNT implies #[trigger] pool.rooms()[j] <= tight_room(
            in_shard(pool.slots(), j).len() as int,
        ) by {
            assert(pool.shard_ok(j));
            assert(shard_room(pool.shards@[j]) <= tight_room(shard_entries(p0.shards@[j]).len() as int));
        }
    }
}

} // verus!
