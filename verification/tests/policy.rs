use extended_collections::compaction::{RunMeta, SizeTieredStrategy};

fn meta(id: u64, size: u64, tombstones: u64) -> RunMeta {
    RunMeta {
        id,
        size,
        entry_count: 10,
        tombstone_count: tombstones,
        min_key: 0,
        max_key: 9,
        }
}

#[test]
fn test_select_merges_similar_sizes_oldest_first() {
    let sts = SizeTieredStrategy::new(2, 10, 1, 2, 3, 2, 1_000_000).unwrap();
    // newest first; all three runs the same size form one bucket
    let metas = vec![meta(3, 100, 0), meta(2, 100, 0), meta(1, 100, 0)];
    let sets = sts.select_merge_sets(&metas);
    assert_eq!(sets, vec![vec![3, 2, 1]]);
}

#[test]
fn test_select_respects_max_merge_width() {
    let sts = SizeTieredStrategy::new(2, 2, 1, 2, 3, 2, 1_000_000).unwrap();
    let metas = vec![meta(3, 100, 0), meta(2, 100, 0), meta(1, 100, 0)];
    let sets = sts.select_merge_sets(&metas);
    // only the two oldest members of the bucket are taken
    assert_eq!(sets, vec![vec![2, 1]]);
}

#[test]
fn test_select_nothing_for_dissimilar_sizes() {
    let sts = SizeTieredStrategy::new(2, 10, 1, 2, 3, 2, 1_000_000).unwrap();
    // the ratio 100 : 10_000 lies outside [0.5, 1.5]
    let metas = vec![meta(2, 10_000, 0), meta(1, 100, 0)];
    let sets = sts.select_merge_sets(&metas);
    assert_eq!(sets.len(), 0);
}

#[test]
fn test_select_major_compaction_over_size_threshold() {
    // a bucket of two runs is below min_merge_width = 3, but its combined
    // size exceeds the threshold, so it is selected anyway
    let sts = SizeTieredStrategy::new(3, 10, 1, 2, 3, 2, 150).unwrap();
    let metas = vec![meta(2, 100, 0), meta(1, 100, 0)];
    let sets = sts.select_merge_sets(&metas);
    assert_eq!(sets, vec![vec![2, 1]]);
}

#[test]
fn test_select_major_compaction_over_tombstone_threshold() {
    let sts = SizeTieredStrategy::new(3, 10, 1, 2, 3, 2, 150).unwrap();
    let metas = vec![meta(2, 100, 90), meta(1, 100, 80)];
    let sets = sts.select_merge_sets(&metas);
    assert_eq!(sets, vec![vec![2, 1]]);
}

#[test]
fn test_select_smaller_bucket_preferred() {
    let sts = SizeTieredStrategy::new(2, 10, 1, 2, 3, 2, 1_000_000).unwrap();
    // two buckets: the small pair (ids 4, 3) and the large pair (ids 2, 1);
    // the bucket of smaller runs wins
    let metas = vec![
        meta(4, 100, 0),
        meta(3, 100, 0),
        meta(2, 10_000, 0),
        meta(1, 10_000, 0),
    ];
    let sets = sts.select_merge_sets(&metas);
    assert_eq!(sets, vec![vec![4, 3]]);
}
