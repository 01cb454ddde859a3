//! Detection of a backlog of many small files.
//!
//! Compacting a level into the next takes, in the worst case, all its files
//! and all files of the next level that they overlap in one plan. Where that is
//! more than a plan may take, the files of the level are first compacted among
//! themselves. Three checks keep this from undoing what an earlier round did,
//! which would make the rounds go in circles.
use crate::chains::{
    chains_of, chains_view, lemma_files_alone_stay_apart, max_time_of, merge_small_chains,
    merge_small_l0_chains, split_into_chains, stay_alone,
};
use crate::file::{
    count_files_in_range, count_overlapping, files_at_level, lemma_files_at_level_empty,
    lemma_files_at_level_push, select_level, total_bytes, total_file_size, CompactionLevel,
    ParquetFile,
};
use crate::ranges::{earliest_start, latest_end, min_time_of};
use crate::round_info::LevelBasedRoundInfo;
use itertools::Itertools;
use vstd::prelude::*;
use vstd::slice::slice_to_vec;

verus! {

/// The number of files of the next level that overlap the time span of the
/// files of the start level.
pub open spec fn num_overlapped_files(
    start_level_files: Seq<ParquetFile>,
    next_level_files: Seq<ParquetFile>,
) -> int {
    count_overlapping(
        next_level_files,
        min_time_of(start_level_files),
        max_time_of(start_level_files),
    )
}

/// The values of `max_l0_created_at` of the files, in their order.
pub open spec fn created_at_of(files: Seq<ParquetFile>) -> Seq<i64> {
    files.map_values(|f: ParquetFile| f.max_l0_created_at)
}

/// The values of `s` in the order in which each occurs first.
pub open spec fn first_occurrences(s: Seq<i64>) -> Seq<i64>
    decreases s.len(),
{
    if s.len() == 0 {
        s
    } else if s.drop_last().contains(s.last()) {
        first_occurrences(s.drop_last())
    } else {
        first_occurrences(s.drop_last()).push(s.last())
    }
}

/// The largest number of files of the given level that one chain holds.
pub open spec fn most_at_level(chains: Seq<Seq<ParquetFile>>, level: CompactionLevel) -> int
    decreases chains.len(),
{
    if chains.len() == 0 {
        0
    } else {
        let before = most_at_level(chains.drop_last(), level);
        let here = files_at_level(chains.last(), level).len() as int;
        if here > before {
            here
        } else {
            before
        }
    }
}

/// The number of files of the longest chain.
pub open spec fn longest_chain(chains: Seq<Seq<ParquetFile>>) -> int
    decreases chains.len(),
{
    if chains.len() == 0 {
        0
    } else {
        let before = longest_chain(chains.drop_last());
        let here = chains.last().len() as int;
        if here > before {
            here
        } else {
            before
        }
    }
}

/// The values in the order of their first occurrence are all different, and
/// they are the values that occur.
pub proof fn lemma_first_occurrences(s: Seq<i64>)
    ensures
        first_occurrences(s).no_duplicates(),
        first_occurrences(s).to_set() == s.to_set(),
        first_occurrences(s).len() == s.to_set().len(),
    decreases s.len(),
{
    if s.len() > 0 {
        let rest = s.drop_last();
        let v = s.last();
        lemma_first_occurrences(rest);
        assert(s =~= rest.push(v));
        rest.lemma_push_to_set_commute(v);
        let before = first_occurrences(rest);
        if rest.contains(v) {
            assert(rest.to_set().contains(v));
            assert(rest.to_set().insert(v) =~= rest.to_set());
        } else {
            assert(!before.contains(v)) by {
                if before.contains(v) {
                    assert(before.to_set().contains(v));
                    assert(rest.to_set().contains(v));
                }
            }
            before.lemma_push_to_set_commute(v);
            assert(before.push(v).no_duplicates()) by {
                assert forall|i: int, j: int|
                    0 <= i < before.len() + 1 && 0 <= j < before.len() + 1 && i != j implies before.push(
                    v,
                )[i] != before.push(v)[j] by {
                    if i < before.len() && j < before.len() {
                        assert(before[i] != before[j]);
                    } else if i < before.len() {
                        assert(before.contains(before[i]));
                    } else {
                        assert(before.contains(before[j]));
                    }
                }
            }
        }
    }
    first_occurrences(s).unique_seq_to_set();
}

/// The distinct values of `values`, in the order in which each occurs first.
///
/// This is `Itertools::unique` on the values: an adaptor that lets an element
/// through unless an equal one has come before, so that of equal elements the
/// first is kept and the order of what is kept does not change.
#[verifier::external_body]
fn unique_values(values: &Vec<i64>) -> (unique: Vec<i64>)
    ensures
        unique@ == first_occurrences(values@),
{
    values.iter().copied().unique().collect()
}

/// Returns the number of files of the next level that overlap the time span
/// of the files of the start level.
pub fn get_num_overlapped_files(
    start_level_files: &Vec<ParquetFile>,
    next_level_files: &Vec<ParquetFile>,
) -> (n: usize)
    requires
        start_level_files@.len() > 0,
    ensures
        n == num_overlapped_files(start_level_files@, next_level_files@),
        n <= next_level_files@.len(),
{
    let min_time = earliest_start(start_level_files);
    let max_time = latest_end(start_level_files);
    count_files_in_range(next_level_files, min_time, max_time)
}

/// Returns the values of `max_l0_created_at` of the files, in their order.
fn created_at_values(files: &Vec<ParquetFile>) -> (values: Vec<i64>)
    ensures
        values@ == created_at_of(files@),
{
    let mut values: Vec<i64> = Vec::with_capacity(files.len());
    let mut i: usize = 0;
    while i < files.len()
        invariant
            i <= files.len(),
            values@ == created_at_of(files@.take(i as int)),
        decreases files.len() - i,
    {
        values.push(files[i].max_l0_created_at);
        proof {
            assert(values@ =~= created_at_of(files@.take(i + 1)));
        }
        i += 1;
    }
    proof {
        assert(files@.take(files@.len() as int) =~= files@);
    }
    values
}

/// Returns the number of files of the given level.
fn count_at_level(files: &Vec<ParquetFile>, level: CompactionLevel) -> (n: usize)
    ensures
        n == files_at_level(files@, level).len(),
{
    let mut n: usize = 0;
    let mut i: usize = 0;
    proof {
        lemma_files_at_level_empty(level);
        assert(files@.take(0) =~= Seq::<ParquetFile>::empty());
    }
    while i < files.len()
        invariant
            i <= files.len(),
            n == files_at_level(files@.take(i as int), level).len(),
            n <= i,
        decreases files.len() - i,
    {
        proof {
            lemma_files_at_level_push(files@.take(i as int), files@[i as int], level);
            assert(files@.take(i + 1) =~= files@.take(i as int).push(files@[i as int]));
        }
        if files[i].compaction_level == level {
            n += 1;
        }
        i += 1;
    }
    proof {
        assert(files@.take(files@.len() as int) =~= files@);
    }
    n
}

impl LevelBasedRoundInfo {
    /// Whether the files of `start_level` are a backlog of many small files:
    /// there are several, they and the files of the next level that overlap
    /// their time span are more than one plan takes, and none of these holds:
    /// - they all share one `max_l0_created_at`, so they were split from one
    ///   file;
    /// - their mean size is above the mean size that the limits of a plan
    ///   imply, so they are many but not small;
    /// - no chain of all the files holds more than one file of the next level
    ///   or more files than a plan takes, so the files are already aligned
    ///   with the next level.
    pub open spec fn spec_too_many_small_files_to_compact(
        &self,
        files: Seq<ParquetFile>,
        start_level: CompactionLevel,
    ) -> bool {
        let start = files_at_level(files, start_level);
        let next = files_at_level(files, start_level.spec_next());
        let chains = chains_of(files);
        &&& start.len() > 1
        &&& start.len() + num_overlapped_files(start, next) > self.max_num_files_per_plan
        &&& created_at_of(start).to_set().len() != 1
        &&& total_bytes(start) / (start.len() as int) <= self.max_total_file_size_per_plan
            / self.max_num_files_per_plan
        &&& !(most_at_level(chains, start_level.spec_next()) <= 1 && longest_chain(chains)
            <= self.max_num_files_per_plan)
    }

    /// Returns true if the files of `start_level` and the files of the next
    /// level that they overlap are more than one plan takes, and the files of
    /// `start_level` are small enough for compacting them among themselves to
    /// help.
    pub fn too_many_small_files_to_compact(
        &self,
        files: &[ParquetFile],
        start_level: CompactionLevel,
    ) -> (many: bool)
        requires
            self.max_num_files_per_plan > 0,
        ensures
            many == self.spec_too_many_small_files_to_compact(files@, start_level),
    {
        let start_level_files = select_level(files, start_level);
        let num_start_level = start_level_files.len();
        if num_start_level <= 1 {
            return false;
        }
        let next_level_files = select_level(files, start_level.next());
        let num_overlapped = get_num_overlapped_files(&start_level_files, &next_level_files);
        if num_start_level as u128 + num_overlapped as u128 <= self.max_num_files_per_plan as u128 {
            return false;
        }
        // Files split from one file are left as they are.
        let created_at = created_at_values(&start_level_files);
        let distinct = unique_values(&created_at);
        proof {
            lemma_first_occurrences(created_at@);
        }
        if distinct.len() == 1 {
            return false;
        }
        // Many large files cannot be made fewer.
        let size_start_level = total_file_size(start_level_files.as_slice());
        if size_start_level / (num_start_level as u128) > (self.max_total_file_size_per_plan
            / self.max_num_files_per_plan) as u128 {
            return false;
        }
        // Files aligned with the next level are left aligned.
        let chains = split_into_chains(slice_to_vec(files));
        let next_level = start_level.next();
        let mut max_target_level_files: usize = 0;
        let mut max_chain_len: usize = 0;
        let mut i: usize = 0;
        while i < chains.len()
            invariant
                i <= chains.len(),
                max_target_level_files == most_at_level(
                    chains_view(chains@).take(i as int),
                    next_level,
                ),
                max_chain_len == longest_chain(chains_view(chains@).take(i as int)),
            decreases chains.len() - i,
        {
            proof {
                assert(chains_view(chains@).take(i + 1).drop_last() =~= chains_view(chains@).take(
                    i as int,
                ));
            }
            let target_file_cnt = count_at_level(&chains[i], next_level);
            if target_file_cnt > max_target_level_files {
                max_target_level_files = target_file_cnt;
            }
            let chain_len = chains[i].len();
            if chain_len > max_chain_len {
                max_chain_len = chain_len;
            }
            i += 1;
        }
        proof {
            assert(chains_view(chains@).take(chains@.len() as int) =~= chains_view(chains@));
        }
        !(max_target_level_files <= 1 && max_chain_len <= self.max_num_files_per_plan)
    }

    /// Whether the files look like a backlog of many small files that chains
    /// do not bring together: the initial level is such a backlog, and the
    /// chains of the files of `start_level`, coalesced up to
    /// `max_total_file_size_to_group` bytes, are still several and more than a
    /// third of the number of these files.
    pub open spec fn spec_many_ungroupable_files(
        &self,
        files: Seq<ParquetFile>,
        start_level: CompactionLevel,
        max_total_file_size_to_group: int,
    ) -> bool {
        let start = files_at_level(files, start_level);
        let groups = merge_small_chains(chains_of(start), max_total_file_size_to_group);
        &&& self.spec_too_many_small_files_to_compact(files, CompactionLevel::Initial)
        &&& groups.len() > 1
        &&& groups.len() > start.len() / 3
    }

    /// Returns true if the files look like a backlog of many small files, but
    /// grouping them by overlap brings too few of them together.
    pub fn many_ungroupable_files(
        &self,
        files: &[ParquetFile],
        start_level: CompactionLevel,
        max_total_file_size_to_group: usize,
    ) -> (many: bool)
        requires
            self.max_num_files_per_plan > 0,
        ensures
            many == self.spec_many_ungroupable_files(
                files@,
                start_level,
                max_total_file_size_to_group as int,
            ),
    {
        if self.too_many_small_files_to_compact(files, CompactionLevel::Initial) {
            let start_level_files = select_level(files, start_level);
            let start_count = start_level_files.len();
            let chains = split_into_chains(start_level_files);
            let groups = merge_small_l0_chains(chains, max_total_file_size_to_group);
            proof {
                assert(chains_view(groups@).len() == groups@.len());
            }
            if groups.len() > 1 && groups.len() > start_count / 3 {
                return true;
            }
        }
        false
    }
}

/// Files that share one `max_l0_created_at` were split from one file, and are
/// never taken for a backlog of small files: whenever the files are looked at
/// again, the answer is the same, so that a split is not undone.
pub proof fn lemma_split_files_are_left_alone(
    planner: LevelBasedRoundInfo,
    files: Seq<ParquetFile>,
    start_level: CompactionLevel,
)
    requires
        created_at_of(files_at_level(files, start_level)).to_set().len() == 1,
    ensures
        !planner.spec_too_many_small_files_to_compact(files, start_level),
{
}

/// A backlog of files that can only stay alone is ungroupable: where the
/// files of the start level share no timestamp and any two of them hold more
/// than the size to group, each is a group of its own, and several groups of
/// one file are more than a third of the files.
pub proof fn lemma_files_alone_are_ungroupable(
    planner: LevelBasedRoundInfo,
    files: Seq<ParquetFile>,
    start_level: CompactionLevel,
    max_total_file_size_to_group: int,
)
    requires
        planner.spec_too_many_small_files_to_compact(files, CompactionLevel::Initial),
        files_at_level(files, start_level).len() >= 2,
        stay_alone(files_at_level(files, start_level), max_total_file_size_to_group),
    ensures
        planner.spec_many_ungroupable_files(files, start_level, max_total_file_size_to_group),
{
    lemma_files_alone_stay_apart(files_at_level(files, start_level), max_total_file_size_to_group);
}

} // verus!
