use dashmap::DashMap;

#[test]
fn example_scenario_strings() {
    let mut m: DashMap<String, i32> = DashMap::new();
    m.insert(String::from("a"), 1);
    m.insert(String::from("b"), 2);
    {
        let g = m.get(&String::from("a"));
        assert!(g.is_some());
        assert_eq!(*g.unwrap().value(), 1);
    }
    assert!(m.get(&String::from("c")).is_none());
    m.insert(String::from("a"), 3);
    let g = m.get(&String::from("a"));
    assert_eq!(*g.unwrap().value(), 3);
}

#[test]
fn capacity_hint_thousand_keys() {
    let mut m: DashMap<u64, u64> = DashMap::with_capacity(1000);
    let mut k: u64 = 0;
    while k < 1000 {
        m.insert(k, k * 7);
        k += 1;
    }
    assert_eq!(m.len(), 1000);
    let mut k: u64 = 0;
    while k < 1000 {
        assert_eq!(*m.get(&k).unwrap().value(), k * 7);
        k += 1;
    }
}

#[test]
fn growth_loses_no_keys() {
    // A fresh map starts with a handful of buckets per shard, so these
    // inserts force several rounds of growth in both shards.
    let mut m: DashMap<u64, u64> = DashMap::new();
    let mut k: u64 = 0;
    while k < 256 {
        m.insert(k, k + 1);
        k += 1;
    }
    assert_eq!(m.len(), 256);
    let mut k: u64 = 0;
    while k < 256 {
        assert_eq!(*m.get(&k).unwrap().value(), k + 1);
        k += 1;
    }
}

#[test]
fn last_writer_wins() {
    let mut m: DashMap<String, u64> = DashMap::new();
    let mut i: u64 = 0;
    while i < 10 {
        m.insert(String::from("key"), i);
        assert_eq!(*m.get(&String::from("key")).unwrap().value(), i);
        i += 1;
    }
    assert_eq!(m.len(), 1);
}

#[test]
fn interleaved_disjoint_keys() {
    // Two interleaved write streams to disjoint keys: neither loses an
    // update of the other.
    let mut m: DashMap<String, u64> = DashMap::new();
    let mut i: u64 = 0;
    while i < 50 {
        m.insert(format!("x{}", i), i);
        m.insert(format!("y{}", i), 1000 + i);
        i += 1;
    }
    assert_eq!(m.len(), 100);
    let mut i: u64 = 0;
    while i < 50 {
        assert_eq!(*m.get(&format!("x{}", i)).unwrap().value(), i);
        assert_eq!(*m.get(&format!("y{}", i)).unwrap().value(), 1000 + i);
        i += 1;
    }
}

#[test]
fn get_is_idempotent() {
    let mut m: DashMap<u64, u64> = DashMap::new();
    m.insert(42, 7);
    let g1 = m.get(&42).unwrap();
    let g2 = m.get(&42).unwrap();
    // Two live guards at once observe the same value.
    assert_eq!(*g1.value(), *g2.value());
    drop(g1);
    drop(g2);
    let g3 = m.get(&42).unwrap();
    assert_eq!(*g3.value(), 7);
}

#[test]
fn batch_returns_work_result() {
    let mut m: DashMap<u64, u64> = DashMap::new();
    m.insert(1, 10);
    m.insert(2, 20);
    let total = m.batch(|mm| {
        let a = *mm.get(&1).unwrap().value();
        let b = *mm.get(&2).unwrap().value();
        a + b
    });
    assert_eq!(total, 30);
}

#[test]
fn empty_map_lookups() {
    let m: DashMap<u64, u64> = DashMap::new();
    assert_eq!(m.len(), 0);
    assert!(m.get(&0).is_none());
    assert!(m.get(&u64::MAX).is_none());
}

#[test]
fn zero_capacity_hint_is_usable() {
    let mut m: DashMap<u64, u64> = DashMap::with_capacity(0);
    m.insert(5, 50);
    assert_eq!(*m.get(&5).unwrap().value(), 50);
    assert_eq!(m.len(), 1);
}

#[test]
fn extreme_integer_keys() {
    let mut m: DashMap<u64, u64> = DashMap::new();
    m.insert(u64::MAX, 1);
    m.insert(0, 2);
    m.insert(1 << 63, 3);
    assert_eq!(*m.get(&u64::MAX).unwrap().value(), 1);
    assert_eq!(*m.get(&0).unwrap().value(), 2);
    assert_eq!(*m.get(&(1 << 63)).unwrap().value(), 3);
    assert_eq!(m.len(), 3);
}

#[test]
fn multibyte_string_keys() {
    let mut m: DashMap<String, u64> = DashMap::new();
    m.insert(String::from("cl\u{e9}"), 1);
    m.insert(String::from("\u{43a}\u{43b}\u{44e}\u{447}"), 2);
    assert_eq!(*m.get(&String::from("cl\u{e9}")).unwrap().value(), 1);
    assert_eq!(*m.get(&String::from("\u{43a}\u{43b}\u{44e}\u{447}")).unwrap().value(), 2);
    assert!(m.get(&String::from("cle")).is_none());
}
