use compaction_planner::chains::{
    merge_small_l0_chains, sort_files_by_min_time, split_into_chains,
};
use compaction_planner::file::{total_file_size, CompactionLevel, ParquetFile};

fn l0(id: i64, min_time: i64, max_time: i64, file_size_bytes: u64) -> ParquetFile {
    ParquetFile {
        id,
        compaction_level: CompactionLevel::Initial,
        min_time,
        max_time,
        file_size_bytes,
        max_l0_created_at: id,
    }
}

fn ids(chains: &[Vec<ParquetFile>]) -> Vec<Vec<i64>> {
    chains
        .iter()
        .map(|chain| chain.iter().map(|f| f.id).collect())
        .collect()
}

#[test]
fn no_files_make_no_chains() {
    assert!(split_into_chains(vec![]).is_empty());
    assert!(merge_small_l0_chains(vec![], 100).is_empty());
}

#[test]
fn one_file_is_one_chain() {
    let f = l0(1, 5, 5, 10);
    assert_eq!(split_into_chains(vec![f]), vec![vec![f]]);
}

#[test]
fn chains_are_groups_of_transitively_overlapping_files() {
    let a = l0(1, 0, 10, 1);
    let b = l0(2, 5, 20, 1);
    let c = l0(3, 21, 30, 1);
    let d = l0(4, 30, 40, 1);
    let e = l0(5, 100, 200, 1);
    // Whatever the order of the files, the chains come in order of time.
    let chains = split_into_chains(vec![e, c, a, d, b]);
    assert_eq!(ids(&chains), vec![vec![1, 2], vec![3, 4], vec![5]]);
}

#[test]
fn a_long_file_holds_a_chain_together() {
    let long = l0(1, 0, 100, 1);
    let early = l0(2, 10, 20, 1);
    let late = l0(3, 90, 95, 1);
    let after = l0(4, 101, 110, 1);
    let chains = split_into_chains(vec![late, after, early, long]);
    assert_eq!(ids(&chains), vec![vec![1, 2, 3], vec![4]]);
}

#[test]
fn files_that_touch_in_one_timestamp_overlap() {
    let a = l0(1, 0, 10, 1);
    let b = l0(2, 10, 20, 1);
    let c = l0(3, 21, 30, 1);
    let chains = split_into_chains(vec![a, b, c]);
    assert_eq!(ids(&chains), vec![vec![1, 2], vec![3]]);
}

#[test]
fn every_file_is_in_exactly_one_chain() {
    let files = vec![
        l0(7, 50, 60, 1),
        l0(3, 0, 10, 1),
        l0(9, 55, 58, 1),
        l0(1, 300, 300, 1),
        l0(4, 8, 12, 1),
        l0(2, 61, 70, 1),
    ];
    let chains = split_into_chains(files.clone());
    let mut seen: Vec<i64> = chains.iter().flatten().map(|f| f.id).collect();
    seen.sort();
    let mut given: Vec<i64> = files.iter().map(|f| f.id).collect();
    given.sort();
    assert_eq!(seen, given);
    assert_eq!(ids(&chains), vec![vec![3, 4], vec![7, 9], vec![2], vec![1]]);
}

#[test]
fn files_with_the_same_start_keep_their_order() {
    let a = l0(1, 5, 6, 1);
    let b = l0(2, 5, 9, 1);
    let c = l0(3, 1, 2, 1);
    let d = l0(4, 5, 7, 1);
    let sorted = sort_files_by_min_time(&vec![a, b, c, d]);
    let order: Vec<i64> = sorted.iter().map(|f| f.id).collect();
    assert_eq!(order, vec![3, 1, 2, 4]);
}

#[test]
fn small_neighbours_are_coalesced_up_to_the_size() {
    let a = vec![l0(1, 0, 10, 40)];
    let b = vec![l0(2, 20, 30, 30), l0(3, 25, 35, 30)];
    let c = vec![l0(4, 40, 50, 1)];
    let d = vec![l0(5, 60, 70, 100)];
    let e = vec![l0(6, 80, 90, 0)];
    // 40 + 60 is not over 100; one more byte is. 100 + 0 is not over 100.
    let merged = merge_small_l0_chains(vec![a, b, c, d, e], 100);
    assert_eq!(ids(&merged), vec![vec![1, 2, 3], vec![4], vec![5, 6]]);
}

#[test]
fn a_chain_over_the_size_stays_alone() {
    let a = vec![l0(1, 0, 10, 500)];
    let b = vec![l0(2, 20, 30, 1)];
    let merged = merge_small_l0_chains(vec![a, b], 100);
    assert_eq!(ids(&merged), vec![vec![1], vec![2]]);
}

#[test]
fn coalescing_keeps_every_file_in_its_place() {
    let chains = vec![
        vec![l0(1, 0, 10, 10), l0(2, 5, 15, 10)],
        vec![l0(3, 20, 30, 10)],
        vec![l0(4, 40, 50, 10)],
    ];
    let merged = merge_small_l0_chains(chains.clone(), 1000);
    assert_eq!(merged.len(), 1);
    let before: Vec<ParquetFile> = chains.into_iter().flatten().collect();
    assert_eq!(merged[0], before);
    // With no room at all nothing is coalesced.
    let apart = merge_small_l0_chains(vec![vec![l0(1, 0, 1, 1)], vec![l0(2, 2, 3, 1)]], 0);
    assert_eq!(ids(&apart), vec![vec![1], vec![2]]);
}

#[test]
fn the_size_of_files_is_the_sum_of_their_sizes() {
    assert_eq!(total_file_size(&[]), 0);
    let files = [l0(1, 0, 1, u64::MAX), l0(2, 0, 1, u64::MAX), l0(3, 0, 1, 2)];
    assert_eq!(total_file_size(&files), 2 * (u64::MAX as u128) + 2);
}
