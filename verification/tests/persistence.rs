use extended_collections::compaction::SizeTieredStrategy;
use extended_collections::map::LsmMap;
use extended_collections::Error;

fn strategy() -> SizeTieredStrategy {
    SizeTieredStrategy::new(2, 4, 1, 2, 3, 2, 1_000_000).unwrap()
}

fn persisted_runs(map: &LsmMap) -> Vec<(u64, Vec<u8>)> {
    let ids = map.run_ids();
    let mut out = Vec::new();
    for (i, id) in ids.iter().enumerate() {
        out.push((*id, map.run_bytes(i)));
    }
    out
}

#[test]
fn test_restart_round_trip() {
    let mut map = LsmMap::new(4, strategy()).unwrap();
    for i in 0u64..10 {
        map.insert(i, i * 3).unwrap();
    }
    map.remove(7).unwrap();
    map.flush().unwrap();

    let raw = persisted_runs(&map);
    let restored = LsmMap::from_runs(4, strategy(), raw).unwrap();
    assert_eq!(restored.run_count(), map.run_count());
    for i in 0u64..10 {
        let want = if i == 7 { None } else { Some(i * 3) };
        assert_eq!(restored.get(i).unwrap(), want);
    }
}

#[test]
fn test_restart_after_compaction() {
    let mut map = LsmMap::new(3, strategy()).unwrap();
    for i in 0u64..12 {
        map.insert(i, i + 1).unwrap();
    }
    map.compact_once().unwrap();
    let raw = persisted_runs(&map);
    let restored = LsmMap::from_runs(3, strategy(), raw).unwrap();
    for i in 0u64..12 {
        assert_eq!(restored.get(i).unwrap(), Some(i + 1));
    }
}

#[test]
fn test_open_rejects_truncated_run() {
    let mut map = LsmMap::new(2, strategy()).unwrap();
    map.insert(1, 1).unwrap();
    map.insert(2, 2).unwrap();
    let mut raw = persisted_runs(&map);
    assert_eq!(raw.len(), 1);
    // cut the footer short
    let len = raw[0].1.len();
    raw[0].1.truncate(len - 1);
    match LsmMap::from_runs(2, strategy(), raw) {
        Err(e) => assert_eq!(e, Error::CorruptionError),
        Ok(_) => panic!("a truncated run must be rejected"),
    }
}

#[test]
fn test_open_rejects_empty_file() {
    let raw = vec![(0u64, Vec::new())];
    match LsmMap::from_runs(2, strategy(), raw) {
        Err(e) => assert_eq!(e, Error::CorruptionError),
        Ok(_) => panic!("an empty run file must be rejected"),
    }
}

#[test]
fn test_open_rejects_bad_entry_header() {
    let mut map = LsmMap::new(2, strategy()).unwrap();
    map.insert(1, 1).unwrap();
    map.insert(2, 2).unwrap();
    let mut raw = persisted_runs(&map);
    // the first eight bytes are the first entry's key length; break it
    raw[0].1[0] = 7;
    match LsmMap::from_runs(2, strategy(), raw) {
        Err(e) => assert_eq!(e, Error::SerializationError),
        Ok(_) => panic!("a broken entry header must be rejected"),
    }
}

#[test]
fn test_open_rejects_unsorted_ids() {
    let mut map = LsmMap::new(2, strategy()).unwrap();
    map.insert(1, 1).unwrap();
    map.insert(2, 2).unwrap();
    map.insert(3, 3).unwrap();
    map.insert(4, 4).unwrap();
    let mut raw = persisted_runs(&map);
    assert_eq!(raw.len(), 2);
    raw.swap(0, 1);
    match LsmMap::from_runs(2, strategy(), raw) {
        Err(e) => assert_eq!(e, Error::CorruptionError),
        Ok(_) => panic!("runs out of order must be rejected"),
    }
}

#[test]
fn test_flush_fails_when_ids_exhausted() {
    // restore a run published under the greatest usable sequence number:
    // the next flush has no number left and fails, leaving the stage intact
    let mut donor = LsmMap::new(2, strategy()).unwrap();
    donor.insert(1, 1).unwrap();
    donor.insert(2, 2).unwrap();
    let bytes = donor.run_bytes(0);
    let raw = vec![(u64::MAX - 1, bytes)];
    let mut map = LsmMap::from_runs(2, strategy(), raw).unwrap();
    map.insert(9, 9).unwrap();
    match map.flush() {
        Err(e) => assert_eq!(e, Error::IOError),
        Ok(_) => panic!("an exhausted sequence space must fail the flush"),
    }
    // the write is still readable and retryable
    assert_eq!(map.get(9).unwrap(), Some(9));
    assert_eq!(map.get(1).unwrap(), Some(1));
}

#[test]
fn test_run_bytes_stable_across_reads() {
    let mut map = LsmMap::new(2, strategy()).unwrap();
    map.insert(1, 1).unwrap();
    map.insert(2, 2).unwrap();
    let a = map.run_bytes(0);
    let b = map.run_bytes(0);
    assert_eq!(a, b);
}

fn le(x: u64) -> Vec<u8> {
    x.to_le_bytes().to_vec()
}

#[test]
fn test_run_byte_layout_value_entry() {
    // one run holding the single entry (key 1, value 2):
    //   data:   [key_len = 8][key = 1][value_len = 8][value = 2]
    //   index:  [key = 1][offset = 0]
    //   footer: [data_len = 32][index entries = 1][entries = 1][min = 1][max = 1]
    let mut map = LsmMap::new(1, strategy()).unwrap();
    map.insert(1, 2).unwrap();
    assert_eq!(map.run_count(), 1);
    let bytes = map.run_bytes(0);

    let mut expected = Vec::new();
    for part in [8, 1, 8, 2, 1, 0, 32, 1, 1, 1, 1] {
        expected.extend(le(part));
    }
    assert_eq!(bytes, expected);
}

#[test]
fn test_run_byte_layout_tombstone_entry() {
    // a tombstone stores the marker in the value-length field and no value
    let mut map = LsmMap::new(1, strategy()).unwrap();
    map.remove(5).unwrap();
    assert_eq!(map.run_count(), 1);
    let bytes = map.run_bytes(0);

    let mut expected = Vec::new();
    for part in [8, 5, u64::MAX, 5, 0, 24, 1, 1, 5, 5] {
        expected.extend(le(part));
    }
    assert_eq!(bytes, expected);
}
