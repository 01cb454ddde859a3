use compaction_planner::chains::{merge_small_l0_chains, split_into_chains};
use compaction_planner::file::{total_file_size, CompactionLevel, ParquetFile};
use compaction_planner::ranges::{estimate_bytes, linear_dist_ranges};
use compaction_planner::round_info::LevelBasedRoundInfo;
use compaction_planner::split_times::select_split_times;
use compaction_planner::times::sort_and_dedup;
use rand::rngs::StdRng;
use rand::{Rng, SeedableRng};

fn random_files(rng: &mut StdRng, count: usize) -> Vec<ParquetFile> {
    (0..count)
        .map(|id| {
            let min_time = rng.gen_range(-200..200);
            let compaction_level = match rng.gen_range(0..4) {
                0 => CompactionLevel::FileNonOverlapped,
                1 => CompactionLevel::Final,
                _ => CompactionLevel::Initial,
            };
            ParquetFile {
                id: id as i64,
                compaction_level,
                min_time,
                max_time: min_time + rng.gen_range(0..40),
                file_size_bytes: rng.gen_range(0..500),
                max_l0_created_at: rng.gen_range(0..5),
            }
        })
        .collect()
}

fn overlap(a: &ParquetFile, b: &ParquetFile) -> bool {
    a.min_time <= b.max_time && b.min_time <= a.max_time
}

/// The groups of files that hang together, found by joining groups until
/// no two of them overlap.
fn connected_groups(files: &[ParquetFile]) -> Vec<Vec<i64>> {
    let mut groups: Vec<Vec<ParquetFile>> = files.iter().map(|f| vec![*f]).collect();
    loop {
        let mut joined = false;
        'search: for i in 0..groups.len() {
            for j in (i + 1)..groups.len() {
                if groups[i].iter().any(|a| groups[j].iter().any(|b| overlap(a, b))) {
                    let other = groups.remove(j);
                    groups[i].extend(other);
                    joined = true;
                    break 'search;
                }
            }
        }
        if !joined {
            break;
        }
    }
    let mut ids: Vec<Vec<i64>> = groups
        .iter()
        .map(|g| {
            let mut ids: Vec<i64> = g.iter().map(|f| f.id).collect();
            ids.sort();
            ids
        })
        .collect();
    ids.sort();
    ids
}

#[test]
fn chains_are_the_groups_of_files_that_hang_together() {
    let mut rng = StdRng::seed_from_u64(7);
    for round in 0..200 {
        let files = random_files(&mut rng, round % 25);
        let chains = split_into_chains(files.clone());
        let mut found: Vec<Vec<i64>> = chains
            .iter()
            .map(|chain| {
                let mut ids: Vec<i64> = chain.iter().map(|f| f.id).collect();
                ids.sort();
                ids
            })
            .collect();
        found.sort();
        assert_eq!(found, connected_groups(&files));
        // The chains come in order of time, and so do their files.
        let starts: Vec<i64> = chains.iter().flatten().map(|f| f.min_time).collect();
        assert!(starts.windows(2).all(|w| w[0] <= w[1]));
    }
}

#[test]
fn coalesced_chains_hold_the_same_files_within_the_size() {
    let mut rng = StdRng::seed_from_u64(11);
    for round in 0..200 {
        let chains = split_into_chains(random_files(&mut rng, round % 25));
        let max_total_size = rng.gen_range(0..2000);
        let merged = merge_small_l0_chains(chains.clone(), max_total_size);
        let before: Vec<ParquetFile> = chains.iter().flatten().copied().collect();
        let after: Vec<ParquetFile> = merged.iter().flatten().copied().collect();
        assert_eq!(before, after);
        assert!(merged.len() <= chains.len());
        for group in &merged {
            assert!(
                total_file_size(group) <= max_total_size as u128 || chains.contains(group)
            );
        }
    }
}

#[test]
fn sorting_timestamps_agrees_with_the_standard_library() {
    let mut rng = StdRng::seed_from_u64(13);
    for round in 0..200 {
        let times: Vec<i64> = (0..round % 40).map(|_| rng.gen_range(-20..20)).collect();
        let mut expected = times.clone();
        expected.sort();
        expected.dedup();
        assert_eq!(sort_and_dedup(&times), expected);
    }
}

#[test]
fn ranges_fill_the_time_span_without_a_gap() {
    let mut rng = StdRng::seed_from_u64(17);
    for round in 0..200 {
        let chain = random_files(&mut rng, 1 + round % 20);
        let max_compact_size = rng.gen_range(1..3000);
        let ranges = linear_dist_ranges(&chain, max_compact_size);
        let lo = chain.iter().map(|f| f.min_time).min().unwrap();
        let hi = chain.iter().map(|f| f.max_time).max().unwrap();
        assert_eq!(ranges.first().unwrap().min, lo);
        assert_eq!(ranges.last().unwrap().max, hi);
        assert!(ranges.iter().all(|r| r.min <= r.max));
        assert!(ranges.windows(2).all(|w| w[0].max + 1 == w[1].min));
        // A range holds what its files are estimated to hold in it, and all
        // ranges together hold what the files hold in all.
        for r in &ranges {
            assert_eq!(r.cap, estimate_bytes(&chain, r.min, r.max));
        }
        let sum: u128 = ranges.iter().map(|r| r.cap).sum();
        assert_eq!(sum, total_file_size(&chain));
        // A range over the limit cannot be told apart by the estimate: the
        // range before it and the range behind it did not take it in.
        for w in ranges.windows(2) {
            assert!(w[0].cap + w[1].cap > max_compact_size as u128);
        }
    }
}

#[test]
fn split_times_lie_within_the_range_in_order() {
    let mut rng = StdRng::seed_from_u64(19);
    for _ in 0..500 {
        let min_time = rng.gen_range(-1000..1000);
        let max_time = min_time + rng.gen_range(0..300);
        let cap = rng.gen_range(0..5000);
        let max_compact_size = rng.gen_range(1..1000);
        let hints: Vec<i64> = (0..rng.gen_range(0..10))
            .map(|_| rng.gen_range(min_time - 10..max_time + 10))
            .collect();
        let splits = select_split_times(cap, max_compact_size, min_time, max_time, &hints);
        assert!(splits.iter().all(|t| min_time <= *t && *t < max_time));
        assert!(splits.windows(2).all(|w| w[0] < w[1]));
        let pieces = (2 * (cap / max_compact_size as u128) + 1)
            .min((max_time - min_time + 1) as u128);
        assert_eq!(splits.len() as u128, pieces - 1);
        // Without hints the pieces are of even width, give or take one.
        let even = select_split_times(cap, max_compact_size, min_time, max_time, &vec![]);
        let mut edges = vec![min_time - 1];
        edges.extend(&even);
        edges.push(max_time);
        let widths: Vec<i64> = edges.windows(2).map(|w| w[1] - w[0]).collect();
        let narrow = widths.iter().min().unwrap();
        let wide = widths.iter().max().unwrap();
        assert!(wide - narrow <= 1);
    }
}

#[test]
fn vertical_split_times_lie_within_the_initial_level_in_order() {
    let mut rng = StdRng::seed_from_u64(23);
    let planner = LevelBasedRoundInfo::new(10, 1000);
    let mut split = 0;
    for round in 0..300 {
        let files = random_files(&mut rng, round % 30);
        let max_compact_size = rng.gen_range(1..2000);
        let split_times = planner.vertical_split_times(files.clone(), max_compact_size);
        assert!(split_times.windows(2).all(|w| w[0] < w[1]));
        let initial: Vec<&ParquetFile> = files
            .iter()
            .filter(|f| f.compaction_level == CompactionLevel::Initial)
            .collect();
        if let (Some(lo), Some(hi)) = (
            initial.iter().map(|f| f.min_time).min(),
            initial.iter().map(|f| f.max_time).max(),
        ) {
            assert!(split_times.iter().all(|t| lo <= *t && *t < hi));
        } else {
            assert!(split_times.is_empty());
        }
        // A chain that holds more than the limit is split.
        for chain in split_into_chains(initial.iter().map(|f| **f).collect()) {
            let first = chain.iter().map(|f| f.min_time).min().unwrap();
            let last = chain.iter().map(|f| f.max_time).max().unwrap();
            if chain.len() > 1
                && total_file_size(&chain) > max_compact_size as u128
                && first < last
            {
                assert!(split_times.iter().any(|t| first <= *t && *t < last));
            }
        }
        // The same files give the same split times.
        assert_eq!(planner.vertical_split_times(files, max_compact_size), split_times);
        if !split_times.is_empty() {
            split += 1;
        }
    }
    assert!(split > 0);
}
