use dashmap::hash::{
    fnv_hash_str, DefaultHashBuilder, HashBuilder, MapKey, FNV_OFFSET, GOLDEN_GAMMA,
};
use dashmap::table::Table;
use dashmap::{hash2idx, make_shift, DashMap, TABLES_PER_MAP};

#[test]
fn shard_routing_uses_high_bits() {
    let shift = make_shift(TABLES_PER_MAP);
    assert_eq!(shift, 63);
    assert_eq!(hash2idx(0, shift), 0);
    assert_eq!(hash2idx(1 << 62, shift), 0);
    assert_eq!(hash2idx(1 << 63, shift), 1);
    assert_eq!(hash2idx(u64::MAX, shift), 1);
}

#[test]
fn fnv_known_values() {
    // Standard FNV-1a 64-bit test vectors.
    assert_eq!(fnv_hash_str(""), FNV_OFFSET);
    assert_eq!(fnv_hash_str("a"), 0xaf63dc4c8601ec8c);
    assert_eq!(fnv_hash_str("abc"), 0xe71fa2190541574b);
}

#[test]
fn integer_key_hash_mixes() {
    assert_eq!(5u64.key_hash(), 5u64.wrapping_mul(GOLDEN_GAMMA));
    let b = DefaultHashBuilder;
    assert_eq!(HashBuilder::<u64>::hash(&b, &5u64), 5u64.key_hash());
}

#[test]
fn key_eq_agrees_with_contents() {
    assert!(String::from("ab").key_eq(&String::from("ab")));
    assert!(!String::from("ab").key_eq(&String::from("ba")));
    assert!(7u64.key_eq(&7u64));
    assert!(!7u64.key_eq(&8u64));
}

#[test]
fn table_insert_get_grow() {
    let mut t: Table<u64, u64> = Table::new(4);
    let mut k: u64 = 0;
    while k < 64 {
        t.insert(k, k.key_hash(), k * 3);
        k += 1;
    }
    assert_eq!(t.len(), 64);
    let mut k: u64 = 0;
    while k < 64 {
        let e = t.get(&k, k.key_hash()).unwrap();
        assert_eq!(e.value, k * 3);
        assert_eq!(e.hash, k.key_hash());
        assert_eq!(e.key, k);
        k += 1;
    }
    assert!(t.get(&1000, 1000u64.key_hash()).is_none());
}

#[test]
fn with_hasher_builds_empty_map() {
    let mut m: DashMap<String, u64, DefaultHashBuilder> =
        DashMap::with_hasher(DefaultHashBuilder);
    assert_eq!(m.len(), 0);
    m.insert(String::from("k"), 9);
    assert_eq!(*m.get(&String::from("k")).unwrap().value(), 9);
}

#[test]
fn with_capacity_and_hasher_honors_hint() {
    let mut m: DashMap<u64, u64, DefaultHashBuilder> =
        DashMap::with_capacity_and_hasher(64, DefaultHashBuilder);
    let mut k: u64 = 0;
    while k < 32 {
        m.insert(k, k);
        k += 1;
    }
    assert_eq!(m.len(), 32);
    assert_eq!(*m.get(&31).unwrap().value(), 31);
}
