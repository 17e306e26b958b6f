use splashmap::hash::ConstantHashBuilder;
use splashmap::hash::DefaultHashBuilder;
use splashmap::hash::HashProvider;
use splashmap::hash::make_hash;
use splashmap::map::SplashMap;

#[test]
fn test_hash_capacity_grows() {
    let mut sm = SplashMap::new();
    assert_eq!(sm.capacity(), 1);
    let mut cap: usize = 0;

    for i in 0..10u64 {
        assert_eq!(sm.len(), i as usize);
        sm.insert(i, i);

        // make sure it's growing
        assert!(sm.capacity() >= cap);
        cap = sm.capacity();
    }
}

#[test]
fn test_hash_capacity_shrinks() {
    let mut sm = SplashMap::new();

    for i in 0..10u64 {
        sm.insert(i, i);
    }

    assert_eq!(sm.len(), 10);

    let mut cap = sm.capacity();

    for i in 0..10u64 {
        assert_eq!(sm.get(&i), Some(&i));
        assert_eq!(sm.remove(&i), Some(i));
        assert_eq!(sm.get(&i), None);
        assert_eq!(sm.remove(&i), None);
        assert!(sm.capacity() <= cap);
        cap = sm.capacity();
    }
}

#[test]
fn test_collisions() {
    let mut sm = SplashMap::new();

    for i in 0..10000u64 {
        sm.insert(i, i + i);
    }
}

#[test]
fn test_constant_digest_collisions() {
    // Worst-case hashing: every key gets digest 1337, so every entry lands
    // in the same chain; every key must still be retrievable.
    let mut sm = SplashMap::with_capacity_and_hasher(1, ConstantHashBuilder::new(1337));

    for i in 0..10000u64 {
        sm.insert(i, i.wrapping_mul(3));
    }

    assert_eq!(sm.len(), 10000);
    for i in 0..10000u64 {
        assert_eq!(sm.get(&i), Some(&i.wrapping_mul(3)));
    }
}

#[test]
fn test_update_existing_key() {
    let mut sm = SplashMap::new();
    sm.insert(5, 100);
    sm.insert(5, 200);
    assert_eq!(sm.len(), 1);
    assert_eq!(sm.get(&5), Some(&200));
}

#[test]
fn test_remove_in_order_keeps_rest() {
    let mut sm = SplashMap::new();
    for i in 0..10u64 {
        sm.insert(i, i);
    }

    let mut cap = sm.capacity();
    for i in 0..10u64 {
        assert_eq!(sm.remove(&i), Some(i));
        assert_eq!(sm.get(&i), None);
        for j in (i + 1)..10u64 {
            assert_eq!(sm.get(&j), Some(&j));
        }
        assert!(sm.capacity() <= cap);
        cap = sm.capacity();
    }
    assert!(sm.is_empty());
}

#[test]
fn test_resize_and_rehash_round_trip() {
    let mut sm = SplashMap::with_capacity_and_hasher(4, DefaultHashBuilder::with_seed(42));
    for i in 0..50u64 {
        sm.insert(i, 1000 + i);
    }
    let len_before = sm.len();

    sm.resize_and_rehash(128);
    assert_eq!(sm.len(), len_before);
    for i in 0..50u64 {
        assert_eq!(sm.get(&i), Some(&(1000 + i)));
    }

    sm.resize_and_rehash(3);
    assert_eq!(sm.len(), len_before);
    for i in 0..50u64 {
        assert_eq!(sm.get(&i), Some(&(1000 + i)));
    }
}

#[test]
fn test_zero_capacity_clamps_to_one_bucket() {
    let mut sm = SplashMap::with_capacity(0);
    assert_eq!(sm.capacity(), 1);
    sm.insert(7, 8);
    assert_eq!(sm.get(&7), Some(&8));

    let mut sm2 = SplashMap::new();
    sm2.resize_and_rehash(0);
    sm2.insert(1, 2);
    assert_eq!(sm2.get(&1), Some(&2));
    assert_eq!(sm2.len(), 1);
}

#[test]
fn test_load_factor_triggers_exact() {
    // With a constant digest the bucket counts depend only on the entry
    // count: grow doubles at load factor 3/4, shrink halves under 1/4, and
    // capacity reports floor(3/4 * buckets), at least 1.
    let mut sm = SplashMap::with_capacity_and_hasher(1, ConstantHashBuilder::new(0));
    sm.insert(1, 1);
    assert_eq!(sm.capacity(), 1); // 2 buckets
    sm.insert(2, 2);
    assert_eq!(sm.capacity(), 3); // 4 buckets
    sm.insert(3, 3);
    assert_eq!(sm.capacity(), 6); // 8 buckets
    sm.insert(4, 4);
    assert_eq!(sm.capacity(), 6); // still 8 buckets

    assert_eq!(sm.remove(&4), Some(4));
    assert_eq!(sm.capacity(), 6); // 3 of 8: no shrink
    assert_eq!(sm.remove(&3), Some(3));
    assert_eq!(sm.capacity(), 6); // 2 of 8: no shrink
    assert_eq!(sm.remove(&2), Some(2));
    assert_eq!(sm.capacity(), 3); // 1 of 8 is under 1/4: 4 buckets
    assert_eq!(sm.remove(&1), Some(1));
    assert_eq!(sm.capacity(), 1); // 0 of 4 is under 1/4: 2 buckets
    assert_eq!(sm.get(&1), None);
}

#[test]
fn test_default_is_empty() {
    let sm: SplashMap = Default::default();
    assert!(sm.is_empty());
    assert_eq!(sm.len(), 0);
    assert_eq!(sm.capacity(), 1);
}

#[test]
fn test_extreme_keys() {
    let mut sm = SplashMap::new();
    sm.insert(u64::MAX, 1);
    sm.insert(0, 2);
    assert_eq!(sm.get(&u64::MAX), Some(&1));
    assert_eq!(sm.get(&0), Some(&2));
    assert_eq!(sm.len(), 2);
}

#[test]
fn test_constant_provider_digest() {
    let p = ConstantHashBuilder::new(1337);
    assert_eq!(p.hash(&0), 1337);
    assert_eq!(p.hash(&u64::MAX), 1337);
}

#[test]
fn test_default_provider_deterministic() {
    let p = DefaultHashBuilder::with_seed(99);
    let q = DefaultHashBuilder::with_seed(99);
    assert_eq!(p.hash(&12345), q.hash(&12345));
    // the mixer's exact value: xor with the seed, multiply by the odd constant
    assert_eq!(p.hash(&12345), (12345u64 ^ 99).wrapping_mul(0x9E37_79B9_7F4A_7C15));
}

#[test]
fn test_make_hash_stable_per_builder() {
    let p = DefaultHashBuilder::new();
    let a = make_hash(&p, &42u64);
    let b = make_hash(&p, &42u64);
    assert_eq!(a, b);
    assert_eq!(a, p.hash(&42u64));
}
