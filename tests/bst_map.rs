use deques::BSTMap;

#[test]
fn bst_map_starts_empty() {
    let m: BSTMap<i32, String> = BSTMap::new();
    assert_eq!(m.len(), 0);
    assert!(!m.contains_key(&1));
    assert_eq!(m.get(&1), None);
}

#[test]
fn bst_map_insert_and_get() {
    let mut m = BSTMap::new();
    assert_eq!(m.insert(5, "five".to_string()), None);
    assert_eq!(m.insert(2, "two".to_string()), None);
    assert_eq!(m.insert(8, "eight".to_string()), None);
    assert_eq!(m.insert(7, "seven".to_string()), None);
    assert_eq!(m.len(), 4);
    assert_eq!(m.get(&7), Some(&"seven".to_string()));
    assert_eq!(m.get(&2), Some(&"two".to_string()));
    assert_eq!(m.get(&3), None);
    assert!(m.contains_key(&8));
    assert!(!m.contains_key(&9));
}

#[test]
fn bst_map_insert_existing_key_replaces_value() {
    let mut m = BSTMap::new();
    m.insert("b", 1);
    m.insert("a", 2);
    assert_eq!(m.insert("b", 3), Some(1));
    assert_eq!(m.len(), 2);
    assert_eq!(m.get(&"b"), Some(&3));
}

#[test]
fn bst_map_get_mut_changes_in_place() {
    let mut m = BSTMap::new();
    for k in [50, 30, 70, 20, 40, 60, 80] {
        m.insert(k, k * 10);
    }
    *m.get_mut(&40).unwrap() += 1;
    assert_eq!(m.get(&40), Some(&401));
    assert!(m.get_mut(&45).is_none());
    assert_eq!(m.len(), 7);
}

#[test]
fn bst_map_clear_removes_everything() {
    let mut m = BSTMap::new();
    for k in 0..100 {
        m.insert(k, k);
    }
    assert_eq!(m.len(), 100);
    m.clear();
    assert_eq!(m.len(), 0);
    assert_eq!(m.get(&5), None);
}
