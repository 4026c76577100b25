use asylum::selector::get_shard;
use std::cmp::Ordering;

use asylum::{capacity, intern, shrink_to_fit, size, Pool, Symbol};

#[test]
fn no_contention() {
    let mut pool = Pool::new();
    let k1 = intern(&mut pool, "foo");
    let k2 = intern(&mut pool, "foo");
    let k3 = k1.retain(&mut pool);

    assert_eq!(k1.count(&pool), 3);
    assert_eq!(k1.as_str(&pool), "foo");

    assert_eq!(k2.count(&pool), 3);
    assert_eq!(k2.as_str(&pool), "foo");

    assert_eq!(k3.count(&pool), 3);
    assert_eq!(k3.as_str(&pool), "foo");

    assert_eq!(k1, k2);
    assert_eq!(k2, k3);
    assert_eq!(k3, k1);

    k1.release(&mut pool);

    assert_eq!(k2.count(&pool), 2);
    assert_eq!(k2.as_str(&pool), "foo");

    assert_eq!(k3.count(&pool), 2);
    assert_eq!(k3.as_str(&pool), "foo");

    assert_eq!(k2, k3);
    assert_eq!(k3, k2);

    k2.release(&mut pool);

    assert_eq!(k3.count(&pool), 1);
    assert_eq!(k3.as_str(&pool), "foo");

    k3.release(&mut pool);

    let k4 = intern(&mut pool, "bar");
    let k5 = intern(&mut pool, "spam");

    assert_ne!(k4, k5);
}

#[test]
fn repeated_word_lists() {
    let mut pool = Pool::new();
    let seeds = ["foo", "bar", "spam", "lorem", "ipsum", "dolor"];
    let mut rounds: Vec<Vec<Symbol>> = Vec::new();
    for _ in 0..3 {
        let mut round = Vec::new();
        for seed in seeds.iter() {
            round.push(intern(&mut pool, seed));
        }
        rounds.push(round);
    }
    for (i, seed) in seeds.iter().enumerate() {
        let (s1, s2, s3) = (&rounds[0][i], &rounds[1][i], &rounds[2][i]);
        assert_eq!(s1.count(&pool), 3);
        assert_eq!(s2.count(&pool), 3);
        assert_eq!(s3.count(&pool), 3);
        assert_eq!(s1, s2);
        assert_eq!(s2, s3);
        assert_eq!(s3, s1);
        assert_eq!(*seed, s1.as_str(&pool));
    }
    assert_eq!(size(&pool), 6);
}

#[test]
fn new_pool_is_empty() {
    let pool = Pool::new();
    assert_eq!(size(&pool), 0);
    assert_eq!(pool.count_of("foo"), 0);
}

#[test]
fn size_returns_after_last_release() {
    let mut pool = Pool::new();
    let other = intern(&mut pool, "other");
    let before = size(&pool);
    let a = intern(&mut pool, "foo");
    let b = intern(&mut pool, "foo");
    let c = a.retain(&mut pool);
    assert_eq!(size(&pool), before + 1);
    a.release(&mut pool);
    assert_eq!(size(&pool), before + 1);
    b.release(&mut pool);
    assert_eq!(size(&pool), before + 1);
    c.release(&mut pool);
    assert_eq!(size(&pool), before);
    assert_eq!(pool.count_of("foo"), 0);
    assert_eq!(other.count(&pool), 1);
    assert_eq!(other.as_str(&pool), "other");
}

#[test]
fn reintern_after_cleanup_starts_fresh() {
    let mut pool = Pool::new();
    let keep = intern(&mut pool, "keep");
    let a = intern(&mut pool, "foo");
    a.release(&mut pool);
    let b = intern(&mut pool, "foo");
    assert_eq!(b.count(&pool), 1);
    assert_eq!(b.as_str(&pool), "foo");
    assert_ne!(b, keep);
    assert_eq!(keep.as_str(&pool), "keep");
    assert_eq!(size(&pool), 2);
}

#[test]
fn distinct_contents_give_distinct_symbols() {
    let mut pool = Pool::new();
    let a = intern(&mut pool, "a");
    let b = intern(&mut pool, "b");
    let ab = intern(&mut pool, "ab");
    assert_ne!(a, b);
    assert_ne!(a, ab);
    assert_ne!(b, ab);
    assert_eq!(a.count(&pool), 1);
    assert_eq!(ab.as_str(&pool), "ab");
}

#[test]
fn disjoint_contents_are_all_counted() {
    let mut pool = Pool::new();
    let mut held = Vec::new();
    for i in 0..500 {
        let key = format!("key-{}", i);
        held.push(intern(&mut pool, &key));
    }
    assert_eq!(size(&pool), 500);
    for (i, s) in held.iter().enumerate() {
        assert_eq!(s.as_str(&pool), format!("key-{}", i));
        assert_eq!(s.count(&pool), 1);
    }
}

#[test]
fn empty_string_is_interned() {
    let mut pool = Pool::new();
    let a = intern(&mut pool, "");
    let b = Symbol::new(&mut pool, "");
    assert_eq!(a, b);
    assert_eq!(a.as_str(&pool), "");
    assert_eq!(b.count(&pool), 2);
    assert_eq!(size(&pool), 1);
}

#[test]
fn reads_are_stable() {
    let mut pool = Pool::new();
    let a = intern(&mut pool, "stable");
    let b = intern(&mut pool, "stable");
    assert_eq!(a.as_str(&pool), a.as_str(&pool));
    assert_eq!(a.count(&pool), 2);
    assert_eq!(a.count(&pool), 2);
    assert_eq!(b.count(&pool), 2);
    assert_eq!(pool.count_of("stable"), 2);
}

#[test]
fn capacity_covers_size() {
    let mut pool = Pool::new();
    let mut held = Vec::new();
    for i in 0..200 {
        held.push(intern(&mut pool, &format!("w{}", i)));
    }
    assert!(capacity(&pool) >= size(&pool));
    for s in held.drain(100..) {
        s.release(&mut pool);
    }
    assert_eq!(size(&pool), 100);
    assert!(capacity(&pool) >= size(&pool));
    shrink_to_fit(&mut pool);
    assert!(capacity(&pool) >= size(&pool));
    assert_eq!(size(&pool), 100);
    for (i, s) in held.iter().enumerate() {
        assert_eq!(s.as_str(&pool), format!("w{}", i));
    }
}

#[test]
fn shard_choice_reads_four_bytes() {
    assert_eq!(get_shard("foo"), 48);
    assert_eq!(get_shard(""), 0);
    assert_eq!(get_shard("bar"), 46);
    assert_eq!(get_shard("h\u{e9}llo"), 35);
    assert_eq!(get_shard(&"a".repeat(300)), 59);
}

#[test]
fn new_pool_has_no_room() {
    let pool = Pool::new();
    assert_eq!(capacity(&pool), 0);
}

#[test]
fn capacity_is_stable_between_calls() {
    let mut pool = Pool::new();
    let _a = intern(&mut pool, "one");
    let _b = intern(&mut pool, "two");
    assert_eq!(capacity(&pool), capacity(&pool));
}

#[test]
fn shrink_leaves_the_smallest_tables() {
    let mut pool = Pool::new();
    let mut held = Vec::new();
    for i in 0..50 {
        held.push(intern(&mut pool, &format!("k{}", i)));
    }
    for s in held.drain(1..) {
        s.release(&mut pool);
    }
    shrink_to_fit(&mut pool);
    // One entry is left: one shard with at most a table of 4 buckets, 3 of
    // them usable, and every other shard without a table.
    assert_eq!(size(&pool), 1);
    assert!(capacity(&pool) >= 1);
    assert!(capacity(&pool) <= 3);
    for s in held.drain(..) {
        s.release(&mut pool);
    }
    shrink_to_fit(&mut pool);
    assert_eq!(capacity(&pool), 0);
}

#[test]
fn symbols_compare_by_content() {
    let mut pool = Pool::new();
    let zeta = intern(&mut pool, "zeta");
    let alpha = intern(&mut pool, "alpha");
    let alp = intern(&mut pool, "alp");
    let alpha2 = intern(&mut pool, "alpha");
    let accent = intern(&mut pool, "\u{e9}");
    assert_eq!(alpha.cmp_content(&zeta, &pool), Ordering::Less);
    assert_eq!(zeta.cmp_content(&alpha, &pool), Ordering::Greater);
    assert_eq!(alp.cmp_content(&alpha, &pool), Ordering::Less);
    assert_eq!(alpha.cmp_content(&alp, &pool), Ordering::Greater);
    assert_eq!(alpha.cmp_content(&alpha2, &pool), Ordering::Equal);
    assert_eq!(zeta.cmp_content(&accent, &pool), "zeta".cmp("\u{e9}"));
}
