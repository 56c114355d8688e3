use arc_cache::{Arc, CacheError, Place};

fn filled(capacity: usize, keys: &[u64]) -> Arc<String> {
    let mut a: Arc<String> = Arc::new(capacity).unwrap();
    for k in keys {
        a.insert(*k, format!("v{}", k));
    }
    a
}

#[test]
fn it_works() {
    assert_eq!(2 + 2, 4);
}

#[test]
fn zero_capacity_is_refused() {
    assert!(matches!(Arc::<u32>::new(0), Err(CacheError::InvalidCapacity)));
}

#[test]
fn new_cache_is_empty_with_even_split() {
    let a: Arc<u32> = Arc::new(5).unwrap();
    assert_eq!(a.len(), 0);
    assert_eq!(a.capacity(), 5);
    assert_eq!(a.partition(), 2);
    assert_eq!(a.directory_len(), 0);
    assert!(!a.contains(1));
    assert_eq!(a.place(1), Place::Absent);
}

#[test]
fn pure_recency_workload_capacity_four() {
    let a = filled(4, &[1, 2, 3, 4, 5]);
    assert_eq!(a.len(), 4);
    assert!(!a.contains(1));
    // the recency list was full, so the oldest entry leaves for good
    assert_eq!(a.place(1), Place::Absent);
    for k in 2..=5 {
        assert_eq!(a.place(k), Place::Recent);
    }
    assert_eq!(a.partition(), 2);
}

#[test]
fn recency_then_re_request() {
    let mut a = filled(4, &[1, 2, 3, 4, 5]);
    assert_eq!(a.insert(1, "again".to_string()), None);
    assert_eq!(a.place(1), Place::Recent);
    assert_eq!(a.place(2), Place::Absent);
    assert_eq!(a.len(), 4);
    assert_eq!(a.partition(), 2);
}

#[test]
fn recency_history_hit_grows_partition() {
    let mut a = filled(4, &[1, 2, 3]);
    assert_eq!(a.get(3), Some(&"v3".to_string()));
    a.insert(4, "v4".to_string());
    a.insert(5, "v5".to_string());
    assert_eq!(a.place(1), Place::RecentHistory);
    assert_eq!(a.len(), 4);
    let before = a.partition();
    assert_eq!(before, 2);
    assert_eq!(a.insert(1, "back".to_string()), None);
    assert_eq!(a.partition(), 3);
    assert!(a.partition() > before);
    assert_eq!(a.place(1), Place::Frequent);
    assert_eq!(a.place(3), Place::FrequentHistory);
    assert_eq!(a.len(), 4);
    assert_eq!(a.get(1), Some(&"back".to_string()));
}

#[test]
fn frequency_history_hit_shrinks_partition() {
    let mut a: Arc<u64> = Arc::new(2).unwrap();
    a.insert(1, 10);
    assert_eq!(a.get(1), Some(&10));
    a.insert(2, 20);
    a.insert(3, 30);
    assert_eq!(a.place(1), Place::FrequentHistory);
    assert_eq!(a.partition(), 1);
    assert_eq!(a.insert(1, 11), None);
    assert_eq!(a.partition(), 0);
    assert_eq!(a.place(1), Place::Frequent);
    assert_eq!(a.place(2), Place::RecentHistory);
    assert_eq!(a.place(3), Place::Recent);
    assert_eq!(a.len(), 2);
}

#[test]
fn frequency_reinforcement() {
    let mut a: Arc<String> = Arc::new(4).unwrap();
    a.insert(7, "seven".to_string());
    assert_eq!(a.place(7), Place::Recent);
    let p = a.partition();
    assert_eq!(a.get(7), Some(&"seven".to_string()));
    assert_eq!(a.place(7), Place::Frequent);
    assert_eq!(a.partition(), p);
    assert_eq!(a.len(), 1);
}

#[test]
fn insert_on_resident_key_returns_previous_value() {
    let mut a: Arc<u32> = Arc::new(3).unwrap();
    assert_eq!(a.insert(1, 100), None);
    assert_eq!(a.insert(1, 200), Some(100));
    assert_eq!(a.place(1), Place::Frequent);
    assert_eq!(a.insert(1, 300), Some(200));
    assert_eq!(a.get(1), Some(&300));
    assert_eq!(a.len(), 1);
}

#[test]
fn repeated_get_changes_nothing_more() {
    let mut a = filled(3, &[1, 2, 3]);
    a.get(2);
    let len = a.len();
    let p = a.partition();
    assert_eq!(a.get(2), Some(&"v2".to_string()));
    assert_eq!(a.len(), len);
    assert_eq!(a.partition(), p);
    assert_eq!(a.get(2), Some(&"v2".to_string()));
}

#[test]
fn get_of_unknown_or_history_key_changes_nothing() {
    let mut a: Arc<u64> = Arc::new(2).unwrap();
    a.insert(1, 10);
    a.get(1);
    a.insert(2, 20);
    a.insert(3, 30);
    assert_eq!(a.place(1), Place::FrequentHistory);
    let p = a.partition();
    assert_eq!(a.get(1), None);
    assert_eq!(a.get(99), None);
    assert_eq!(a.place(1), Place::FrequentHistory);
    assert_eq!(a.partition(), p);
    assert_eq!(a.len(), 2);
}

#[test]
fn full_directory_then_fresh_key() {
    let mut a: Arc<u64> = Arc::new(2).unwrap();
    a.insert(1, 1);
    a.get(1);
    a.insert(2, 2);
    a.get(2);
    a.insert(3, 3);
    a.insert(4, 4);
    assert_eq!(a.directory_len(), 4);
    assert_eq!(a.place(1), Place::FrequentHistory);
    assert_eq!(a.place(2), Place::FrequentHistory);
    a.insert(5, 5);
    assert!(a.directory_len() <= 4);
    assert_eq!(a.place(3), Place::Absent);
    assert_eq!(a.place(1), Place::FrequentHistory);
    assert_eq!(a.place(4), Place::Recent);
    assert_eq!(a.place(5), Place::Recent);
}

#[test]
fn bounds_hold_over_a_mixed_workload() {
    let c = 5usize;
    let mut a: Arc<u64> = Arc::new(c).unwrap();
    let mut x: u64 = 12345;
    for i in 0..2000u64 {
        x = x.wrapping_mul(6364136223846793005).wrapping_add(1442695040888963407);
        let k = (x >> 33) % 13;
        if i % 3 == 0 {
            a.get(k);
        } else {
            a.insert(k, i);
        }
        assert!(a.len() <= c);
        assert!(a.partition() <= c);
        assert!(a.directory_len() <= 2 * c as u128);
        let mut recent_side = 0;
        let mut frequent_side = 0;
        for key in 0..13 {
            match a.place(key) {
                Place::Recent | Place::RecentHistory => recent_side += 1,
                Place::Frequent | Place::FrequentHistory => frequent_side += 1,
                Place::Absent => {}
            }
        }
        assert!(recent_side <= c);
        assert!(frequent_side <= c);
        assert_eq!(a.directory_len(), (recent_side + frequent_side) as u128);
    }
}

#[test]
fn get_mut_promotes_and_writes() {
    let mut a: Arc<u32> = Arc::new(3).unwrap();
    a.insert(1, 5);
    match a.get_mut(1) {
        Some(v) => *v = 6,
        None => panic!("resident key"),
    }
    assert_eq!(a.place(1), Place::Frequent);
    assert_eq!(a.get(1), Some(&6));
    assert!(a.get_mut(2).is_none());
}

#[test]
fn clone_is_independent() {
    let mut a = filled(3, &[1, 2]);
    let b = a.clone();
    a.insert(1, "changed".to_string());
    a.insert(3, "v3".to_string());
    assert_eq!(b.place(1), Place::Recent);
    assert_eq!(b.len(), 2);
    assert!(!b.contains(3));
    assert_eq!(a.place(1), Place::Frequent);
    assert_eq!(b.partition(), a.partition());
}
