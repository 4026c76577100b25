//! Properties that relate several operations on a pool, proved from the
//! operations' own contracts.

use vstd::prelude::*;
use crate::pool::{interns, releases, Pool, Symbol};

verus! {

/// Interning equal content twice gives equal symbols, and both refer to that
/// content.
pub proof fn law_dedup(
    p0: Pool,
    a: Seq<char>,
    p1: Pool,
    s1: Symbol,
    b: Seq<char>,
    p2: Pool,
    s2: Symbol,
)
    requires
        p0.wf(),
        interns(p0, a, p1, s1),
        interns(p1, b, p2, s2),
        a == b,
    ensures
        s1 == s2,
        p2.content(s1) == a,
        p2.content(s2) == b,
{
    assert(p1.slots().contains_key(a));
    Symbol::lemma_id_determines(s1, s2);
}

/// Interning different contents gives different symbols.
pub proof fn law_distinct(
    p0: Pool,
    a: Seq<char>,
    p1: Pool,
    s1: Symbol,
    b: Seq<char>,
    p2: Pool,
    s2: Symbol,
)
    requires
        p0.wf(),
        interns(p0, a, p1, s1),
        interns(p1, b, p2, s2),
        a != b,
    ensures
        s1 != s2,
{
    assert(p2.slots()[a] == s1.id());
    assert(p2.slots()[b] == s2.id());
}

/// After `i` of the interns of `key` in the chain, all symbols so far are
/// equal and the count of `key` is `i`.
proof fn lemma_refcount_prefix(pools: Seq<Pool>, key: Seq<char>, syms: Seq<Symbol>, i: int)
    requires
        pools.len() == syms.len() + 1,
        pools[0].wf(),
        !pools[0].slots().contains_key(key),
        forall|j: int| 0 <= j < syms.len() ==> interns(pools[j], key, pools[j + 1], #[trigger] syms[j]),
        1 <= i <= syms.len(),
    ensures
        pools[i].counts()[key] == i,
        pools[i].holds(syms[0]),
        pools[i].content(syms[0]) == key,
        forall|j: int| 0 <= j < i ==> #[trigger] syms[j] == syms[0],
    decreases i,
{
    assert(interns(pools[0], key, pools[1], syms[0]));
    assert(!pools[0].counts().contains_key(key));
    if i > 1 {
        lemma_refcount_prefix(pools, key, syms, i - 1);
        assert(interns(pools[i - 1], key, pools[i], syms[i - 1]));
        assert(interns(pools[i - 2], key, pools[i - 1], syms[i - 2]));
        assert(pools[i - 1].slots().contains_key(key));
        assert(pools[i - 1].counts().contains_key(key));
        Symbol::lemma_id_determines(syms[i - 1], syms[0]);
        assert forall|j: int| 0 <= j < i implies #[trigger] syms[j] == syms[0] by {
            if j < i - 1 {
            }
        }
    }
}

/// Interning one content `n` times into a pool that does not hold it, and
/// releasing nothing, gives `n` equal symbols, each with count `n`.
pub proof fn law_refcount(pools: Seq<Pool>, key: Seq<char>, syms: Seq<Symbol>)
    requires
        pools.len() == syms.len() + 1,
        pools[0].wf(),
        !pools[0].slots().contains_key(key),
        forall|j: int| 0 <= j < syms.len() ==> interns(pools[j], key, pools[j + 1], #[trigger] syms[j]),
    ensures
        forall|j: int|
            0 <= j < syms.len() ==> {
                &&& pools.last().holds(#[trigger] syms[j])
                &&& pools.last().content(syms[j]) == key
                &&& pools.last().counts()[pools.last().content(syms[j])] == syms.len()
            },
{
    if syms.len() > 0 {
        lemma_refcount_prefix(pools, key, syms, syms.len() as int);
    }
}

/// After `i` of the releases in the chain, `key` has `n - i` live symbols.
proof fn lemma_release_prefix(pools: Seq<Pool>, key: Seq<char>, syms: Seq<Symbol>, i: int)
    requires
        pools.len() == syms.len() + 1,
        pools[0].wf(),
        pools[0].slots().contains_key(key),
        pools[0].counts()[key] == syms.len(),
        forall|j: int|
            0 <= j < syms.len() ==> {
                &&& pools[j].holds(syms[j])
                &&& pools[j].content(syms[j]) == key
                &&& releases(pools[j], #[trigger] syms[j], pools[j + 1])
            },
        0 <= i < syms.len(),
    ensures
        pools[i].slots() == pools[0].slots(),
        pools[i].counts()[key] == syms.len() - i,
        pools[i].counts().remove(key) == pools[0].counts().remove(key),
    decreases i,
{
    if i > 0 {
        lemma_release_prefix(pools, key, syms, i - 1);
        assert(releases(pools[i - 1], syms[i - 1], pools[i]));
        assert(pools[i].counts().remove(key) =~= pools[0].counts().remove(key));
    }
}

/// Releasing all `n` live symbols of `key` removes `key` from the pool, the
/// pool then holds one string less, and interning `key` again stores it
/// afresh: in a slot that no string of the pool uses, with count one.
pub proof fn law_cleanup(
    pools: Seq<Pool>,
    key: Seq<char>,
    syms: Seq<Symbol>,
    again: Pool,
    t: Symbol,
)
    requires
        pools.len() == syms.len() + 1,
        pools[0].wf(),
        pools[0].slots().contains_key(key),
        pools[0].counts()[key] == syms.len(),
        forall|j: int|
            0 <= j < syms.len() ==> {
                &&& pools[j].holds(syms[j])
                &&& pools[j].content(syms[j]) == key
                &&& releases(pools[j], #[trigger] syms[j], pools[j + 1])
            },
        interns(pools.last(), key, again, t),
    ensures
        pools.last().slots() == pools[0].slots().remove(key),
        pools.last().slots().len() + 1 == pools[0].slots().len(),
        again.counts()[key] == 1,
        forall|k: Seq<char>| #[trigger]
            pools.last().slots().contains_key(k) ==> pools.last().slots()[k] != t.id(),
{
    let n = syms.len() as int;
    assert(pools[0].counts()[key] >= 1);
    lemma_release_prefix(pools, key, syms, n - 1);
    assert(releases(pools[n - 1], syms[n - 1], pools[n]));
    assert(pools.last() == pools[n]);
    assert(pools[0].slots().remove(key).dom() == pools[0].slots().dom().remove(key));
}

/// Interning `n` pairwise different contents, none of them held before,
/// adds exactly `n` strings to the pool.
pub proof fn law_distinct_size(pools: Seq<Pool>, keys: Seq<Seq<char>>, syms: Seq<Symbol>)
    requires
        pools.len() == keys.len() + 1,
        syms.len() == keys.len(),
        pools[0].wf(),
        forall|j: int| 0 <= j < keys.len() ==> !pools[0].slots().contains_key(#[trigger] keys[j]),
        forall|i: int, j: int| 0 <= i < j < keys.len() ==> #[trigger] keys[i] != #[trigger] keys[j],
        forall|j: int| 0 <= j < keys.len() ==> interns(pools[j], keys[j], pools[j + 1], #[trigger] syms[j]),
    ensures
        pools.last().slots().len() == pools[0].slots().len() + keys.len(),
    decreases keys.len(),
{
    let n = keys.len() as int;
    if n > 0 {
        let pre = pools.drop_last();
        let pre_keys = keys.drop_last();
        let pre_syms = syms.drop_last();
        assert forall|j: int| 0 <= j < pre_keys.len() implies interns(pre[j], pre_keys[j], pre[j + 1], #[trigger] pre_syms[j]) by {
            assert(interns(pools[j], keys[j], pools[j + 1], syms[j]));
        }
        assert forall|i: int, j: int| 0 <= i < j < pre_keys.len() implies #[trigger] pre_keys[i] != #[trigger] pre_keys[j] by {
            assert(keys[i] != keys[j]);
        }
        law_distinct_size(pre, pre_keys, pre_syms);
        assert(interns(pools[n - 1], keys[n - 1], pools[n], syms[n - 1]));
        assert(!pools[n - 1].slots().contains_key(keys[n - 1])) by {
            lemma_fresh_key(pools, keys, syms, n - 1);
        }
        assert(pools.last() == pools[n]);
        assert(pre.last() == pools[n - 1]);
        assert(pre[0] == pools[0]);
        if n > 1 {
            assert(interns(pools[n - 2], keys[n - 2], pools[n - 1], syms[n - 2]));
        }
        assert(pools[n - 1].wf());
        assert(pools[n].slots().dom() == pools[n - 1].slots().dom().insert(keys[n - 1]));
    }
}

/// The `i`-th content of the chain is not yet held before its own intern.
proof fn lemma_fresh_key(pools: Seq<Pool>, keys: Seq<Seq<char>>, syms: Seq<Symbol>, i: int)
    requires
        pools.len() == keys.len() + 1,
        syms.len() == keys.len(),
        pools[0].wf(),
        forall|j: int| 0 <= j < keys.len() ==> !pools[0].slots().contains_key(#[trigger] keys[j]),
        forall|a: int, b: int| 0 <= a < b < keys.len() ==> #[trigger] keys[a] != #[trigger] keys[b],
        forall|j: int| 0 <= j < keys.len() ==> interns(pools[j], keys[j], pools[j + 1], #[trigger] syms[j]),
        0 <= i < keys.len(),
    ensures
        forall|k: Seq<char>| #[trigger] pools[i].slots().contains_key(k) ==> pools[0].slots().contains_key(k)
            || exists|j: int| 0 <= j < i && keys[j] == k,
        !pools[i].slots().contains_key(keys[i]),
    decreases i,
{
    if i > 0 {
        lemma_fresh_key(pools, keys, syms, i - 1);
        assert(interns(pools[i - 1], keys[i - 1], pools[i], syms[i - 1]));
        assert forall|k: Seq<char>| #[trigger] pools[i].slots().contains_key(k) implies pools[0].slots().contains_key(k)
            || exists|j: int| 0 <= j < i && keys[j] == k by {
            if k != keys[i - 1] {
                assert(pools[i - 1].slots().contains_key(k));
                if !pools[0].slots().contains_key(k) {
                    let j = choose|j: int| 0 <= j < i - 1 && keys[j] == k;
                    assert(0 <= j < i && keys[j] == k);
                }
            }
        }
        if pools[i].slots().contains_key(keys[i]) {
            if !pools[0].slots().contains_key(keys[i]) {
                let j = choose|j: int| 0 <= j < i && keys[j] == keys[i];
                assert(keys[j] != keys[i]);
            }
        }
    }
}

} // verus!
