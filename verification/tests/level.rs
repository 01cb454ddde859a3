use compaction_planner::file::{select_level, CompactionLevel, ParquetFile};
use compaction_planner::level::get_start_level;

fn file(id: i64, level: CompactionLevel, file_size_bytes: u64) -> ParquetFile {
    ParquetFile {
        id,
        compaction_level: level,
        min_time: 0,
        max_time: 10,
        file_size_bytes,
        max_l0_created_at: id,
    }
}

#[test]
fn only_initial_files_start_at_the_initial_level() {
    let files = [
        file(1, CompactionLevel::Initial, 10),
        file(2, CompactionLevel::Initial, 20_000),
        file(3, CompactionLevel::Initial, 1),
    ];
    // Whatever the limits are.
    assert_eq!(get_start_level(&files, 1, 1), CompactionLevel::Initial);
    assert_eq!(get_start_level(&files, 0, 0), CompactionLevel::Initial);
    assert_eq!(get_start_level(&files, 100, 1_000_000), CompactionLevel::Initial);
    assert_eq!(get_start_level(&files, usize::MAX, usize::MAX), CompactionLevel::Initial);
}

#[test]
fn a_large_middle_level_goes_first_when_the_initial_level_has_too_many_files() {
    let files = [
        file(1, CompactionLevel::Initial, 1),
        file(2, CompactionLevel::Initial, 1),
        file(3, CompactionLevel::FileNonOverlapped, 400),
    ];
    // 400 bytes are four times the limit, and two files are more than one.
    assert_eq!(get_start_level(&files, 1, 100), CompactionLevel::FileNonOverlapped);
}

#[test]
fn a_large_middle_level_goes_first_when_the_initial_level_has_too_many_bytes() {
    let files = [
        file(1, CompactionLevel::Initial, 101),
        file(2, CompactionLevel::FileNonOverlapped, 200),
        file(3, CompactionLevel::FileNonOverlapped, 101),
    ];
    assert_eq!(get_start_level(&files, 10, 100), CompactionLevel::FileNonOverlapped);
}

#[test]
fn the_middle_level_must_be_over_three_plans_to_go_first() {
    let files = [
        file(1, CompactionLevel::Initial, 1),
        file(2, CompactionLevel::Initial, 1),
        file(3, CompactionLevel::FileNonOverlapped, 300),
    ];
    assert_eq!(get_start_level(&files, 1, 100), CompactionLevel::Initial);
}

#[test]
fn a_large_middle_level_waits_while_the_initial_level_is_small() {
    let files = [
        file(1, CompactionLevel::Initial, 100),
        file(2, CompactionLevel::FileNonOverlapped, 1000),
    ];
    assert_eq!(get_start_level(&files, 1, 100), CompactionLevel::Initial);
}

#[test]
fn without_initial_data_the_middle_level_is_the_start() {
    let files = [
        file(1, CompactionLevel::FileNonOverlapped, 5),
        file(2, CompactionLevel::Final, 500),
    ];
    assert_eq!(get_start_level(&files, 10, 100), CompactionLevel::FileNonOverlapped);
}

#[test]
fn with_data_in_the_top_level_only_the_top_level_is_the_start() {
    let files = [file(1, CompactionLevel::Final, 5)];
    assert_eq!(get_start_level(&files, 10, 100), CompactionLevel::Final);
}

#[test]
fn empty_files_below_the_top_level_do_not_count() {
    let files = [
        file(1, CompactionLevel::Initial, 0),
        file(2, CompactionLevel::FileNonOverlapped, 0),
    ];
    assert_eq!(get_start_level(&files, 10, 100), CompactionLevel::Final);
}

#[test]
fn the_start_level_holds_a_file() {
    let sets = [
        vec![file(1, CompactionLevel::Initial, 1)],
        vec![file(1, CompactionLevel::FileNonOverlapped, 1)],
        vec![file(1, CompactionLevel::Final, 0)],
        vec![
            file(1, CompactionLevel::Initial, 7),
            file(2, CompactionLevel::FileNonOverlapped, 700),
            file(3, CompactionLevel::Final, 7),
        ],
    ];
    for files in sets {
        let level = get_start_level(&files, 1, 5);
        assert!(!select_level(&files, level).is_empty());
    }
}

#[test]
fn the_levels_follow_each_other() {
    assert_eq!(CompactionLevel::Initial.next(), CompactionLevel::FileNonOverlapped);
    assert_eq!(CompactionLevel::FileNonOverlapped.next(), CompactionLevel::Final);
    assert_eq!(CompactionLevel::Final.next(), CompactionLevel::Final);
}

#[test]
fn the_files_of_a_level_keep_their_order() {
    let files = [
        file(1, CompactionLevel::Initial, 1),
        file(2, CompactionLevel::Final, 1),
        file(3, CompactionLevel::Initial, 1),
    ];
    let selected: Vec<i64> = select_level(&files, CompactionLevel::Initial)
        .iter()
        .map(|f| f.id)
        .collect();
    assert_eq!(selected, vec![1, 3]);
    assert!(select_level(&files, CompactionLevel::FileNonOverlapped).is_empty());
}
