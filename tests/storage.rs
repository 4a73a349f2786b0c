use kvwire::storage::Storage;

fn s(x: &str) -> String {
    x.to_string()
}

#[test]
fn ttl_value_reads_until_expiry_then_is_removed() {
    let mut store = Storage::new();
    store.set(s("k"), s("v"), Some(100), 1000);
    assert_eq!(store.get(&s("k"), 1000), Some(s("v")));
    assert_eq!(store.get(&s("k"), 1100), Some(s("v")));
    assert!(store.contains_key(&s("k")));
    assert_eq!(store.get(&s("k"), 1101), None);
    assert!(!store.contains_key(&s("k")));
}

#[test]
fn value_without_ttl_persists() {
    let mut store = Storage::new();
    store.set(s("k"), s("v"), None, 5);
    assert_eq!(store.get(&s("k"), u64::MAX), Some(s("v")));
    assert!(store.contains_key(&s("k")));
}

#[test]
fn overwrite_clears_stale_ttl() {
    let mut store = Storage::new();
    store.set(s("k"), s("v1"), Some(50), 0);
    store.set(s("k"), s("v2"), None, 100);
    assert_eq!(store.get(&s("k"), 1000), Some(s("v2")));
}

#[test]
fn zero_ttl_means_none() {
    let mut store = Storage::new();
    store.set(s("k"), s("v"), Some(0), 10);
    assert_eq!(store.get(&s("k"), 1_000_000), Some(s("v")));
}

#[test]
fn expiry_saturates_at_the_clock_end() {
    let mut store = Storage::new();
    store.set(s("k"), s("v"), Some(10), u64::MAX - 5);
    assert_eq!(store.get(&s("k"), u64::MAX), Some(s("v")));
}

#[test]
fn missing_key_reads_as_absent() {
    let mut store = Storage::new();
    assert_eq!(store.get(&s("nope"), 0), None);
}

#[test]
fn interleaved_writes_on_distinct_keys_are_kept() {
    let mut store = Storage::new();
    for i in 0..20u64 {
        store.set(format!("a{}", i), format!("x{}", i), None, i);
        store.set(format!("b{}", i), format!("y{}", i), Some(1000), i);
        assert_eq!(store.get(&format!("a{}", i), i), Some(format!("x{}", i)));
    }
    for i in 0..20u64 {
        assert_eq!(store.get(&format!("a{}", i), 500), Some(format!("x{}", i)));
        assert_eq!(store.get(&format!("b{}", i), 500), Some(format!("y{}", i)));
    }
    assert_eq!(store.get(&s("b0"), 1001), None);
    assert_eq!(store.get(&s("b1"), 1001), Some(s("y1")));
    assert_eq!(store.get(&s("a0"), 5000), Some(s("x0")));
}
