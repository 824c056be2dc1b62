use extended_collections::splay_tree::SplaySet;

#[test]
fn test_len_empty() {
    let set: SplaySet = SplaySet::new();
    assert_eq!(set.len(), 0);
}

#[test]
fn set_test_is_empty() {
    let set: SplaySet = SplaySet::new();
    assert!(set.is_empty());
}

#[test]
fn set_test_min_max_empty() {
    let set: SplaySet = SplaySet::new();
    assert_eq!(set.min(), None);
    assert_eq!(set.max(), None);
}

#[test]
fn set_test_insert() {
    let mut set = SplaySet::new();
    assert_eq!(set.insert(1), None);
    assert!(set.contains(&1));
}

#[test]
fn set_test_insert_replace() {
    let mut set = SplaySet::new();
    assert_eq!(set.insert(1), None);
    assert_eq!(set.insert(1), Some(1));
}

#[test]
fn set_test_remove() {
    let mut set = SplaySet::new();
    set.insert(1);
    assert_eq!(set.remove(&1), Some(1));
    assert!(!set.contains(&1));
}

#[test]
fn set_test_min_max() {
    let mut set = SplaySet::new();
    set.insert(1);
    set.insert(3);
    set.insert(5);

    assert_eq!(set.min(), Some(1));
    assert_eq!(set.max(), Some(5));
}

#[test]
fn set_test_floor_ceil() {
    let mut set = SplaySet::new();
    set.insert(1);
    set.insert(3);
    set.insert(5);

    assert_eq!(set.floor(&0), None);
    assert_eq!(set.floor(&2), Some(1));
    assert_eq!(set.floor(&4), Some(3));
    assert_eq!(set.floor(&6), Some(5));

    assert_eq!(set.ceil(&0), Some(1));
    assert_eq!(set.ceil(&2), Some(3));
    assert_eq!(set.ceil(&4), Some(5));
    assert_eq!(set.ceil(&6), None);
}

#[test]
fn set_test_into_iter() {
    let mut set = SplaySet::new();
    set.insert(1);
    set.insert(5);
    set.insert(3);

    let mut iter = set.into_iter();
    let mut collected: Vec<u64> = Vec::new();
    while let Some(x) = iter.next() {
        collected.push(x);
    }
    assert_eq!(collected, vec![1, 3, 5]);
}

#[test]
fn set_test_iter() {
    let mut set = SplaySet::new();
    set.insert(1);
    set.insert(5);
    set.insert(3);

    let mut iter = set.iter();
    let mut collected: Vec<u64> = Vec::new();
    while let Some(x) = iter.next() {
        collected.push(x);
    }
    assert_eq!(collected, vec![1, 3, 5]);
}
