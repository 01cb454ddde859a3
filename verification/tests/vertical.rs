use compaction_planner::file::{CompactionLevel, ParquetFile};
use compaction_planner::ranges::{
    earliest_start, estimate_bytes, estimate_file_bytes, file_bytes_up_to, latest_end,
    linear_dist_ranges, FileRange,
};
use compaction_planner::round_info::LevelBasedRoundInfo;
use compaction_planner::split_times::select_split_times;
use compaction_planner::times::sort_and_dedup;

fn file(
    id: i64,
    level: CompactionLevel,
    min_time: i64,
    max_time: i64,
    file_size_bytes: u64,
) -> ParquetFile {
    ParquetFile {
        id,
        compaction_level: level,
        min_time,
        max_time,
        file_size_bytes,
        max_l0_created_at: id,
    }
}

fn l0(id: i64, min_time: i64, max_time: i64, file_size_bytes: u64) -> ParquetFile {
    file(id, CompactionLevel::Initial, min_time, max_time, file_size_bytes)
}

fn l1(id: i64, min_time: i64, max_time: i64) -> ParquetFile {
    file(id, CompactionLevel::FileNonOverlapped, min_time, max_time, 1)
}

#[test]
fn timestamps_are_sorted_and_each_kept_once() {
    assert_eq!(sort_and_dedup(&vec![]), Vec::<i64>::new());
    assert_eq!(sort_and_dedup(&vec![5, 1, 5, -3, 1, 1, 9]), vec![-3, 1, 5, 9]);
    assert_eq!(
        sort_and_dedup(&vec![i64::MAX, i64::MIN, 0, i64::MAX]),
        vec![i64::MIN, 0, i64::MAX]
    );
}

#[test]
fn the_bytes_of_a_file_are_spread_evenly_over_its_time_range() {
    let f = l0(1, 0, 99, 1000);
    assert_eq!(estimate_file_bytes(&f, 0, 99), 1000);
    assert_eq!(estimate_file_bytes(&f, -50, 500), 1000);
    assert_eq!(estimate_file_bytes(&f, 0, 49), 500);
    assert_eq!(estimate_file_bytes(&f, 90, 200), 100);
    assert_eq!(estimate_file_bytes(&f, 99, 99), 10);
    assert_eq!(estimate_file_bytes(&f, 100, 200), 0);
    assert_eq!(estimate_file_bytes(&f, -10, -1), 0);
    // The estimate is rounded down.
    let g = l0(2, 0, 2, 10);
    assert_eq!(estimate_file_bytes(&g, 0, 0), 3);
    assert_eq!(estimate_file_bytes(&g, 0, 1), 6);
    // A file with one timestamp holds all its bytes there.
    let h = l0(3, 7, 7, 42);
    assert_eq!(estimate_file_bytes(&h, 7, 7), 42);
    assert_eq!(estimate_file_bytes(&h, 8, 9), 0);
}

#[test]
fn the_estimate_works_at_the_limits_of_time_and_size() {
    let f = l0(1, i64::MIN, i64::MAX, u64::MAX);
    assert_eq!(estimate_file_bytes(&f, i64::MIN, i64::MAX), u64::MAX as u128);
    // Half of the bytes lie before 0; what is lost there in rounding is found here.
    assert_eq!(estimate_file_bytes(&f, i64::MIN, -1), (u64::MAX as u128) / 2);
    assert_eq!(estimate_file_bytes(&f, 0, i64::MAX), (u64::MAX as u128) / 2 + 1);
}

#[test]
fn the_bytes_of_a_file_are_counted_from_its_start() {
    let f = l0(1, 10, 12, 10);
    assert_eq!(file_bytes_up_to(&f, i64::MIN), 0);
    assert_eq!(file_bytes_up_to(&f, 9), 0);
    assert_eq!(file_bytes_up_to(&f, 10), 3);
    assert_eq!(file_bytes_up_to(&f, 11), 6);
    assert_eq!(file_bytes_up_to(&f, 12), 10);
    assert_eq!(file_bytes_up_to(&f, i64::MAX), 10);
    // A range holds what lies up to its end less what lies before its start.
    assert_eq!(estimate_file_bytes(&f, 10, 10), 3);
    assert_eq!(estimate_file_bytes(&f, 11, 11), 3);
    assert_eq!(estimate_file_bytes(&f, 12, 12), 4);
    assert_eq!(estimate_file_bytes(&f, 11, 12), 7);
    assert_eq!(estimate_file_bytes(&f, 12, 11), 0);
}

#[test]
fn rounding_loses_no_byte() {
    // One byte spread over twenty timestamps lies at the last of them.
    let f = l0(1, 0, 19, 1);
    assert_eq!(estimate_file_bytes(&f, 0, 9), 0);
    assert_eq!(estimate_file_bytes(&f, 10, 19), 1);
    assert_eq!(estimate_file_bytes(&f, 0, 18), 0);
    assert_eq!(estimate_file_bytes(&f, 19, 19), 1);
    let chain = vec![l0(1, 0, 9, 50), l0(2, 0, 9, 50), l0(3, 0, 19, 1)];
    assert_eq!(
        linear_dist_ranges(&chain, 100),
        vec![
            FileRange { min: 0, max: 9, cap: 100 },
            FileRange { min: 10, max: 19, cap: 1 },
        ]
    );
    assert_eq!(
        linear_dist_ranges(&chain, 101),
        vec![FileRange { min: 0, max: 19, cap: 101 }]
    );
}

#[test]
fn a_file_that_ends_before_it_starts_holds_nothing() {
    let f = l0(1, 10, 5, 100);
    assert_eq!(estimate_file_bytes(&f, 0, 20), 0);
}

#[test]
fn the_estimate_for_files_is_the_sum_of_their_estimates() {
    let files = vec![l0(1, 0, 99, 100), l0(2, 50, 149, 100), l0(3, 100, 199, 100)];
    assert_eq!(estimate_bytes(&files, 0, 49), 50);
    assert_eq!(estimate_bytes(&files, 50, 99), 100);
    assert_eq!(estimate_bytes(&files, 0, 199), 300);
    assert_eq!(estimate_bytes(&vec![], 0, 199), 0);
    assert_eq!(earliest_start(&files), 0);
    assert_eq!(latest_end(&files), 199);
}

#[test]
fn ranges_fill_the_time_span_of_the_chain() {
    let chain = vec![l0(1, 0, 99, 100), l0(2, 50, 149, 100), l0(3, 100, 199, 100)];
    // The data volume changes at 50, 100 and 150. The segments hold 50, 100,
    // 100 and 50 bytes.
    assert_eq!(
        linear_dist_ranges(&chain, 200),
        vec![
            FileRange { min: 0, max: 99, cap: 150 },
            FileRange { min: 100, max: 199, cap: 150 },
        ]
    );
    assert_eq!(
        linear_dist_ranges(&chain, 100),
        vec![
            FileRange { min: 0, max: 49, cap: 50 },
            FileRange { min: 50, max: 99, cap: 100 },
            FileRange { min: 100, max: 149, cap: 100 },
            FileRange { min: 150, max: 199, cap: 50 },
        ]
    );
    assert_eq!(
        linear_dist_ranges(&chain, 1000),
        vec![FileRange { min: 0, max: 199, cap: 300 }]
    );
}

#[test]
fn a_segment_over_the_limit_is_a_range_of_its_own() {
    let chain = vec![l0(1, 0, 99, 1000), l0(2, 0, 99, 1000), l0(3, 50, 149, 10)];
    // Segments: 0..=49 with 1000 bytes, 50..=99 with 1005, 100..=149 with 5.
    assert_eq!(
        linear_dist_ranges(&chain, 500),
        vec![
            FileRange { min: 0, max: 49, cap: 1000 },
            FileRange { min: 50, max: 99, cap: 1005 },
            FileRange { min: 100, max: 149, cap: 5 },
        ]
    );
}

#[test]
fn no_files_have_no_ranges() {
    assert_eq!(linear_dist_ranges(&vec![], 100), vec![]);
    assert_eq!(linear_dist_ranges(&vec![l0(1, 10, 5, 100)], 100), vec![]);
}

#[test]
fn a_range_is_split_into_pieces_of_even_width() {
    // Three pieces where 100 bytes are to fit into 60.
    assert_eq!(select_split_times(100, 60, 0, 299, &vec![]), vec![99, 199]);
    // Nine pieces where 2000 bytes are to fit into 500.
    assert_eq!(
        select_split_times(2000, 500, 0, 99, &vec![]),
        vec![10, 21, 32, 43, 54, 65, 76, 87]
    );
    assert_eq!(select_split_times(100, 60, -150, 149, &vec![]), vec![-51, 49]);
}

#[test]
fn a_range_below_the_limit_is_not_split() {
    assert_eq!(select_split_times(59, 60, 0, 299, &vec![]), Vec::<i64>::new());
    assert_eq!(select_split_times(0, 60, 0, 299, &vec![7]), Vec::<i64>::new());
    // From the limit on it is.
    assert_eq!(select_split_times(60, 60, 0, 299, &vec![]), vec![99, 199]);
}

#[test]
fn a_range_of_one_timestamp_cannot_be_split() {
    assert_eq!(select_split_times(1000, 10, 5, 5, &vec![]), Vec::<i64>::new());
    assert_eq!(select_split_times(1000, 10, 5, 4, &vec![]), Vec::<i64>::new());
}

#[test]
fn there_are_no_more_pieces_than_timestamps() {
    assert_eq!(select_split_times(1000, 10, 0, 1, &vec![]), vec![0]);
    assert_eq!(select_split_times(u128::MAX, 1, 10, 13, &vec![]), vec![10, 11, 12]);
}

#[test]
fn a_split_moves_to_the_closest_hint_within_reach() {
    // Pieces are 100 wide, so a hint is within reach up to 25 away.
    assert_eq!(select_split_times(100, 60, 0, 299, &vec![110, 150, 190]), vec![110, 190]);
    assert_eq!(select_split_times(100, 60, 0, 299, &vec![124, 174]), vec![124, 174]);
    assert_eq!(select_split_times(100, 60, 0, 299, &vec![125, 173]), vec![99, 199]);
    assert_eq!(select_split_times(100, 60, 0, 299, &vec![120, 80, 95, 101]), vec![101, 199]);
}

#[test]
fn of_two_hints_equally_close_the_first_is_taken() {
    assert_eq!(select_split_times(100, 60, 0, 299, &vec![95, 103]), vec![95, 199]);
    assert_eq!(select_split_times(100, 60, 0, 299, &vec![103, 95]), vec![103, 199]);
}

#[test]
fn splitting_works_at_the_limits_of_time() {
    let splits = select_split_times(100, 60, i64::MIN, i64::MAX, &vec![]);
    assert_eq!(splits.len(), 2);
    assert!(i64::MIN < splits[0] && splits[0] < splits[1] && splits[1] < i64::MAX);
}

#[test]
fn a_chain_over_the_limit_is_split_between_its_ends() {
    let planner = LevelBasedRoundInfo::new(10, 200);
    let files = vec![l0(1, 0, 99, 100), l0(2, 50, 149, 100), l0(3, 100, 199, 100)];
    let split_times = planner.vertical_split_times(files, 200);
    assert_eq!(split_times, vec![99]);
    assert!(split_times.iter().all(|t| 0 < *t && *t < 199));
}

#[test]
fn a_chain_one_byte_over_the_limit_is_split() {
    let planner = LevelBasedRoundInfo::new(10, 100);
    let files = vec![l0(1, 0, 9, 50), l0(2, 0, 9, 50), l0(3, 0, 19, 1)];
    assert_eq!(planner.vertical_split_times(files.clone(), 100), vec![9]);
    // At the limit it is not.
    assert_eq!(planner.vertical_split_times(files, 101), Vec::<i64>::new());
    // Files of the same time range in one range over the limit.
    let files = vec![l0(1, 0, 1, 50), l0(2, 0, 1, 51)];
    assert_eq!(planner.vertical_split_times(files, 100), vec![0]);
    let files = vec![l0(1, 0, 2, 50), l0(2, 0, 2, 50), l0(3, 0, 2, 1)];
    assert_eq!(planner.vertical_split_times(files, 100), vec![0, 1]);
}

#[test]
fn files_far_away_give_no_hints() {
    let planner = LevelBasedRoundInfo::new(10, 200);
    let files = vec![
        l0(1, 0, 99, 1000),
        l0(2, 0, 99, 1000),
        l1(3, 1000, 2000),
        l1(4, -500, -100),
    ];
    assert_eq!(
        planner.vertical_split_times(files.clone(), 500),
        vec![10, 21, 32, 43, 54, 65, 76, 87]
    );
    // The split times are those of the files of the initial level alone.
    assert_eq!(
        planner.vertical_split_times(files[..2].to_vec(), 500),
        planner.vertical_split_times(files, 500)
    );
}

#[test]
fn splits_are_drawn_to_the_ends_of_files_of_the_next_level() {
    let planner = LevelBasedRoundInfo::new(10, 200);
    let files = vec![l0(1, 0, 99, 1000), l1(3, 34, 60), l0(2, 0, 99, 1000)];
    // One before the file starts is 33, next to the even split at 32. Its
    // end at 60 is out of reach of the even splits at 54 and 65.
    assert_eq!(
        planner.vertical_split_times(files, 500),
        vec![10, 21, 33, 43, 54, 65, 76, 87]
    );
}

#[test]
fn small_chains_and_single_files_are_not_split() {
    let planner = LevelBasedRoundInfo::new(10, 200);
    assert_eq!(planner.vertical_split_times(vec![], 100), Vec::<i64>::new());
    // One file, however large.
    assert_eq!(
        planner.vertical_split_times(vec![l0(1, 0, 99, 1_000_000)], 100),
        Vec::<i64>::new()
    );
    // Files that do not overlap are chains of one file each.
    assert_eq!(
        planner.vertical_split_times(vec![l0(1, 0, 99, 1000), l0(2, 100, 199, 1000)], 100),
        Vec::<i64>::new()
    );
    // A chain at the limit.
    assert_eq!(
        planner.vertical_split_times(vec![l0(1, 0, 99, 50), l0(2, 50, 149, 50)], 100),
        Vec::<i64>::new()
    );
}

#[test]
fn only_files_of_the_initial_level_are_split() {
    let planner = LevelBasedRoundInfo::new(10, 200);
    let files = vec![
        file(1, CompactionLevel::FileNonOverlapped, 0, 99, 1000),
        file(2, CompactionLevel::FileNonOverlapped, 0, 99, 1000),
        file(3, CompactionLevel::Final, 0, 99, 1000),
        file(4, CompactionLevel::Final, 0, 99, 1000),
    ];
    assert_eq!(planner.vertical_split_times(files, 100), Vec::<i64>::new());
}

#[test]
fn split_times_increase_strictly() {
    let planner = LevelBasedRoundInfo::new(10, 200);
    let files = vec![
        l0(1, 0, 99, 1000),
        l0(2, 0, 99, 1000),
        l0(3, 50, 149, 1000),
        l0(4, 500, 600, 700),
        l0(5, 550, 580, 700),
        l1(6, 20, 30),
        l1(7, 31, 70),
        l1(8, 540, 560),
    ];
    let split_times = planner.vertical_split_times(files, 300);
    assert!(!split_times.is_empty());
    assert!(split_times.windows(2).all(|w| w[0] < w[1]));
}
