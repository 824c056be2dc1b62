use extended_collections::compaction::SizeTieredStrategy;
use extended_collections::map::LsmMap;
use extended_collections::Error;
use rand::Rng;

fn strategy(
    min_w: usize,
    max_w: usize,
    low_num: u64,
    low_den: u64,
    high_num: u64,
    high_den: u64,
    threshold: u64,
) -> SizeTieredStrategy {
    SizeTieredStrategy::new(min_w, max_w, low_num, low_den, high_num, high_den, threshold)
        .unwrap()
}

#[test]
fn int_test_lsm_map_size_tiered_strategy() {
    let sts = strategy(4, 4, 1, 2, 3, 2, 100);
    let mut map = LsmMap::new(400, sts).unwrap();
    let mut rng: rand::XorShiftRng = rand::SeedableRng::from_seed([1, 1, 1, 1]);
    let mut expected = Vec::new();

    for _ in 0..10_000 {
        let key = rng.gen::<u32>();
        let val = rng.gen::<u64>();

        map.insert(key as u64, val).unwrap();
        expected.push((key as u64, val));
    }

    expected.reverse();
    expected.sort_by(|l, r| l.0.cmp(&r.0));
    expected.dedup_by_key(|pair| pair.0);

    for &(key, val) in &expected {
        assert_eq!(map.get(key).unwrap(), Some(val));
    }
}

#[test]
fn test_scenario_two_hundred_inserts() {
    // memory stage bound of 50 entries: 200 inserts make four flushed runs
    let sts = strategy(2, 10, 1, 2, 3, 2, 1_000_000);
    let mut map = LsmMap::new(50, sts).unwrap();
    for i in 1u64..=200 {
        map.insert(i, i).unwrap();
    }
    assert_eq!(map.run_count(), 4);

    map.remove(50).unwrap();
    map.compact_once().unwrap();
    // the four similarly sized runs merge into one
    assert_eq!(map.run_count(), 1);

    assert_eq!(map.get(50).unwrap(), None);
    assert_eq!(map.get(75).unwrap(), Some(75));

    let mut reachable = 0;
    for i in 1u64..=200 {
        if map.get(i).unwrap().is_some() {
            reachable += 1;
        }
    }
    assert_eq!(reachable, 199);
}

#[test]
fn test_insert_returns_previous_value() {
    let sts = strategy(2, 4, 1, 2, 3, 2, 1_000_000);
    let mut map = LsmMap::new(10, sts).unwrap();
    assert_eq!(map.insert(1, 5).unwrap(), None);
    assert_eq!(map.insert(1, 7).unwrap(), Some(5));
    assert_eq!(map.remove(1).unwrap(), Some(7));
    assert_eq!(map.remove(1).unwrap(), None);
    assert_eq!(map.get(1).unwrap(), None);
}

#[test]
fn test_tombstone_shadows_older_runs() {
    let sts = strategy(2, 4, 1, 2, 3, 2, 1_000_000);
    let mut map = LsmMap::new(100, sts).unwrap();
    map.insert(1, 10).unwrap();
    map.insert(2, 20).unwrap();
    map.flush().unwrap();
    map.remove(1).unwrap();
    map.flush().unwrap();
    // the older run still holds key 1, but the newer tombstone wins
    assert_eq!(map.run_count(), 2);
    assert_eq!(map.get(1).unwrap(), None);
    assert_eq!(map.get(2).unwrap(), Some(20));
}

#[test]
fn test_flush_empty_stage_is_noop() {
    let sts = strategy(2, 4, 1, 2, 3, 2, 1_000_000);
    let mut map = LsmMap::new(10, sts).unwrap();
    map.flush().unwrap();
    assert_eq!(map.run_count(), 0);
    map.insert(3, 4).unwrap();
    map.flush().unwrap();
    assert_eq!(map.run_count(), 1);
    map.flush().unwrap();
    assert_eq!(map.run_count(), 1);
}

#[test]
fn test_compact_without_eligible_set_is_noop() {
    // a single run can never form a wide enough bucket
    let sts = strategy(2, 4, 1, 2, 3, 2, 1_000_000);
    let mut map = LsmMap::new(10, sts).unwrap();
    map.insert(1, 1).unwrap();
    map.flush().unwrap();
    assert_eq!(map.run_count(), 1);
    map.compact_once().unwrap();
    assert_eq!(map.run_count(), 1);
    assert_eq!(map.get(1).unwrap(), Some(1));
}

#[test]
fn test_compaction_preserves_overwrites() {
    let sts = strategy(2, 10, 1, 2, 3, 2, 1_000_000);
    let mut map = LsmMap::new(4, sts).unwrap();
    // the same keys written twice land in different runs
    for i in 0u64..4 {
        map.insert(i, i).unwrap();
    }
    for i in 0u64..4 {
        map.insert(i, i + 100).unwrap();
    }
    assert_eq!(map.run_count(), 2);
    map.compact_once().unwrap();
    assert_eq!(map.run_count(), 1);
    for i in 0u64..4 {
        assert_eq!(map.get(i).unwrap(), Some(i + 100));
    }
}

#[test]
fn test_configuration_errors() {
    // merge width below two
    assert_eq!(
        SizeTieredStrategy::new(1, 4, 1, 2, 3, 2, 100).unwrap_err(),
        Error::ConfigurationError
    );
    // maximum width below minimum
    assert_eq!(
        SizeTieredStrategy::new(4, 2, 1, 2, 3, 2, 100).unwrap_err(),
        Error::ConfigurationError
    );
    // zero denominator
    assert_eq!(
        SizeTieredStrategy::new(2, 4, 1, 0, 3, 2, 100).unwrap_err(),
        Error::ConfigurationError
    );
    // bucket_low at or above bucket_high
    assert_eq!(
        SizeTieredStrategy::new(2, 4, 3, 2, 1, 2, 100).unwrap_err(),
        Error::ConfigurationError
    );
    // zero stage capacity
    let sts = strategy(2, 4, 1, 2, 3, 2, 100);
    match LsmMap::new(0, sts) {
        Err(e) => assert_eq!(e, Error::ConfigurationError),
        Ok(_) => panic!("a zero stage capacity must be rejected"),
    }
}
