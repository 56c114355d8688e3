use arc_cache::{CacheError, Insert, PseudoLru};

#[test]
fn zero_bound_is_refused() {
    assert!(matches!(PseudoLru::<u8>::new(0), Err(CacheError::InvalidCapacity)));
}

#[test]
fn insert_reports_replacement_eviction_and_nothing() {
    let mut m: PseudoLru<&str> = PseudoLru::new(2).unwrap();
    assert!(matches!(m.insert(1, "a"), Insert::Nothing));
    assert!(matches!(m.insert(2, "b"), Insert::Nothing));
    assert!(matches!(m.insert(1, "c"), Insert::Replacement("a")));
    // 1 was touched last, so 2 is the oldest
    assert!(matches!(m.insert(3, "d"), Insert::Eviction(2, "b")));
    assert_eq!(m.len(), 2);
    assert!(m.contains(1));
    assert!(!m.contains(2));
    assert_eq!(m.peek(1), Some(&"c"));
}

#[test]
fn replacement_of_insert() {
    assert_eq!(Insert::Replacement(4u8).replacement(), Some(4));
    assert_eq!(Insert::Eviction(1, 4u8).replacement(), None);
    assert_eq!(Insert::<u8>::Nothing.replacement(), None);
}

#[test]
fn refresh_changes_the_eviction_order() {
    let mut m: PseudoLru<u32> = PseudoLru::new(3).unwrap();
    m.insert(1, 10);
    m.insert(2, 20);
    m.insert(3, 30);
    assert!(m.refresh(1));
    assert!(!m.refresh(9));
    assert_eq!(m.pop_lru(), Some((2, 20)));
    assert_eq!(m.pop_lru(), Some((3, 30)));
    assert_eq!(m.pop_lru(), Some((1, 10)));
    assert_eq!(m.pop_lru(), None);
}

#[test]
fn remove_returns_the_value() {
    let mut m: PseudoLru<u32> = PseudoLru::new(3).unwrap();
    m.insert(1, 10);
    m.insert(2, 20);
    assert_eq!(m.remove(1), Some(10));
    assert_eq!(m.remove(1), None);
    assert_eq!(m.len(), 1);
    assert_eq!(m.pop_lru(), Some((2, 20)));
}

#[test]
fn set_capacity_evicts_oldest_first() {
    let mut m: PseudoLru<u32> = PseudoLru::new(4).unwrap();
    for k in 1..=4 {
        m.insert(k, k as u32 * 10);
    }
    assert_eq!(m.set_capacity(4), vec![]);
    assert_eq!(m.set_capacity(2), vec![(1, 10), (2, 20)]);
    assert_eq!(m.capacity(), 2);
    assert_eq!(m.len(), 2);
    assert_eq!(m.set_capacity(5), vec![]);
    assert_eq!(m.capacity(), 5);
    assert_eq!(m.len(), 2);
}

#[test]
fn capacity_steps() {
    let mut m: PseudoLru<u32> = PseudoLru::new(2).unwrap();
    m.insert(1, 10);
    m.insert(2, 20);
    m.increase_capacity();
    assert_eq!(m.capacity(), 3);
    assert_eq!(m.decrease_capacity(), None);
    assert_eq!(m.decrease_capacity(), Some((1, 10)));
    assert_eq!(m.capacity(), 1);
    assert_eq!(m.decrease_capacity(), Some((2, 20)));
    assert_eq!(m.capacity(), 0);
    assert_eq!(m.decrease_capacity(), None);
    assert_eq!(m.capacity(), 0);
}

#[test]
fn clone_keeps_order_and_values() {
    let mut m: PseudoLru<String> = PseudoLru::new(3).unwrap();
    m.insert(1, "a".to_string());
    m.insert(2, "b".to_string());
    m.refresh(1);
    let mut c = m.clone();
    m.remove(2);
    assert_eq!(c.pop_lru(), Some((2, "b".to_string())));
    assert_eq!(c.pop_lru(), Some((1, "a".to_string())));
    assert_eq!(m.len(), 1);
}

#[test]
fn peek_mut_writes_in_place() {
    let mut m: PseudoLru<u32> = PseudoLru::new(2).unwrap();
    m.insert(1, 10);
    if let Some(v) = m.peek_mut(1) {
        *v = 11;
    }
    assert_eq!(m.peek(1), Some(&11));
    assert!(m.peek_mut(5).is_none());
}
