//! Choice of the level that a compaction round starts from.
use crate::file::{
    files_at_level, lemma_files_at_level_empty, lemma_files_at_level_push, total_bytes, CompactionLevel, ParquetFile,
};
use vstd::prelude::*;

verus! {

/// The number of plans that the bytes of the middle level must exceed for
/// that level to go first. The value was found by trial and may change as
/// more is learned about the cost of rewriting data.
pub const MIDDLE_LEVEL_BACKLOG: u128 = 3;

/// The level to start from. This is the lowest level that holds data, unless
/// the middle level has outgrown `MIDDLE_LEVEL_BACKLOG` plans while the initial level holds
/// more than one plan takes: then the middle level is cleared first, which
/// needs few splits and leaves less for the initial level to overlap with.
pub open spec fn start_level(files: Seq<ParquetFile>, max_files: int, max_bytes: int) -> CompactionLevel {
    let l0_count = files_at_level(files, CompactionLevel::Initial).len();
    let l0_bytes = total_bytes(files_at_level(files, CompactionLevel::Initial));
    let l1_bytes = total_bytes(files_at_level(files, CompactionLevel::FileNonOverlapped));
    if l1_bytes > MIDDLE_LEVEL_BACKLOG * max_bytes && (l0_count > max_files || l0_bytes
        > max_bytes) {
        CompactionLevel::FileNonOverlapped
    } else if l0_bytes > 0 {
        CompactionLevel::Initial
    } else if l1_bytes > 0 {
        CompactionLevel::FileNonOverlapped
    } else {
        CompactionLevel::Final
    }
}

/// The start level holds a file, provided that the top level holds one or
/// that some file below it is not empty.
pub proof fn lemma_start_level_has_files(files: Seq<ParquetFile>, max_files: int, max_bytes: int)
    requires
        0 <= max_bytes,
        files_at_level(files, CompactionLevel::Final).len() > 0 || total_bytes(
            files_at_level(files, CompactionLevel::Initial),
        ) > 0 || total_bytes(files_at_level(files, CompactionLevel::FileNonOverlapped)) > 0,
    ensures
        files_at_level(files, start_level(files, max_files, max_bytes)).len() > 0,
{
}

/// Decides which level this round of compaction starts from.
pub fn get_start_level(files: &[ParquetFile], max_files: usize, max_bytes: usize) -> (level:
    CompactionLevel)
    requires
        files@.len() > 0,
    ensures
        level == start_level(files@, max_files as int, max_bytes as int),
        level != CompactionLevel::Final ==> files_at_level(files@, level).len() > 0,
{
    let mut l0_count: usize = 0;
    let mut l0_bytes: u128 = 0;
    let mut l1_bytes: u128 = 0;
    let mut i: usize = 0;
    proof {
        lemma_files_at_level_empty(CompactionLevel::Initial);
        lemma_files_at_level_empty(CompactionLevel::FileNonOverlapped);
        assert(files@.take(0) =~= Seq::<ParquetFile>::empty());
    }
    while i < files.len()
        invariant
            i <= files.len(),
            l0_count == files_at_level(files@.take(i as int), CompactionLevel::Initial).len(),
            l0_bytes == total_bytes(files_at_level(files@.take(i as int), CompactionLevel::Initial)),
            l1_bytes == total_bytes(
                files_at_level(files@.take(i as int), CompactionLevel::FileNonOverlapped),
            ),
            l0_count <= i,
            l0_bytes <= i * u64::MAX,
            l1_bytes <= i * u64::MAX,
        decreases files.len() - i,
    {
        let f = &files[i];
        proof {
            let seen = files@.take(i as int);
            lemma_files_at_level_push(seen, *f, CompactionLevel::Initial);
            lemma_files_at_level_push(seen, *f, CompactionLevel::FileNonOverlapped);
            assert(files@.take(i + 1) =~= seen.push(*f));
            assert(files_at_level(seen, CompactionLevel::Initial).push(*f).drop_last()
                =~= files_at_level(seen, CompactionLevel::Initial));
            assert(files_at_level(seen, CompactionLevel::FileNonOverlapped).push(*f).drop_last()
                =~= files_at_level(seen, CompactionLevel::FileNonOverlapped));
        }
        match f.compaction_level {
            CompactionLevel::Initial => {
                l0_count += 1;
                l0_bytes = l0_bytes + f.file_size_bytes as u128;
            },
            CompactionLevel::FileNonOverlapped => {
                l1_bytes = l1_bytes + f.file_size_bytes as u128;
            },
            CompactionLevel::Final => {},
        }
        i += 1;
    }
    proof {
        assert(files@.take(files@.len() as int) =~= files@);
    }
    if l1_bytes > MIDDLE_LEVEL_BACKLOG * (max_bytes as u128) && (l0_count > max_files
        || l0_bytes > max_bytes as u128) {
        CompactionLevel::FileNonOverlapped
    } else if l0_bytes > 0 {
        CompactionLevel::Initial
    } else if l1_bytes > 0 {
        CompactionLevel::FileNonOverlapped
    } else {
        CompactionLevel::Final
    }
}

} // verus!
