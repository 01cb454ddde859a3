//! The decision of what a compaction round does.
//!
//! One decision is made per round, from the files of the partition as they
//! are at that time and from nothing else: the same files always give the same
//! decision. What follows from the decision, which files are worked on now and
//! how they are grouped into plans, is left to two collaborators.
use crate::file::{CompactionLevel, ParquetFile};
use crate::level::{get_start_level, start_level};
use vstd::prelude::*;
use vstd::slice::slice_to_vec;

verus! {

/// What a round of compaction does.
#[derive(Debug, PartialEq, Eq)]
pub enum RoundInfo {
    /// Compact the start level into `target_level`.
    TargetLevel {
        /// The level to write to.
        target_level: CompactionLevel,
        /// The largest number of bytes to group into one plan.
        max_total_file_size_to_group: usize,
    },
    /// Compact files of `start_level` among themselves to make them fewer.
    ManySmallFiles {
        /// The level whose files are compacted.
        start_level: CompactionLevel,
        /// The largest number of files to group into one plan.
        max_num_files_to_group: usize,
        /// The largest number of bytes to group into one plan.
        max_total_file_size_to_group: usize,
    },
    /// There are many small files that grouping by overlap does not bring
    /// together: compact them as a leading edge would have.
    SimulatedLeadingEdge {
        /// The largest number of files to group into one plan.
        max_num_files_to_group: usize,
        /// The largest number of bytes to group into one plan.
        max_total_file_size_to_group: usize,
    },
    /// Split the files of the start level at the given timestamps, which
    /// increase strictly, before anything is compacted.
    VerticalSplit {
        /// The last timestamp of each piece but the last.
        split_times: Vec<i64>,
    },
}

/// What a round of compaction does, as a mathematical value.
pub enum RoundDecision {
    /// Compact the start level into `target_level`.
    TargetLevel { target_level: CompactionLevel, max_total_file_size_to_group: usize },
    /// Compact files of `start_level` among themselves.
    ManySmallFiles {
        start_level: CompactionLevel,
        max_num_files_to_group: usize,
        max_total_file_size_to_group: usize,
    },
    /// Compact many small files as a leading edge would have.
    SimulatedLeadingEdge { max_num_files_to_group: usize, max_total_file_size_to_group: usize },
    /// Split the files of the start level at the given timestamps.
    VerticalSplit { split_times: Seq<i64> },
}

impl View for RoundInfo {
    type V = RoundDecision;

    open spec fn view(&self) -> RoundDecision {
        match self {
            RoundInfo::TargetLevel {
                target_level,
                max_total_file_size_to_group,
            } => RoundDecision::TargetLevel {
                target_level: *target_level,
                max_total_file_size_to_group: *max_total_file_size_to_group,
            },
            RoundInfo::ManySmallFiles {
                start_level,
                max_num_files_to_group,
                max_total_file_size_to_group,
            } => RoundDecision::ManySmallFiles {
                start_level: *start_level,
                max_num_files_to_group: *max_num_files_to_group,
                max_total_file_size_to_group: *max_total_file_size_to_group,
            },
            RoundInfo::SimulatedLeadingEdge {
                max_num_files_to_group,
                max_total_file_size_to_group,
            } => RoundDecision::SimulatedLeadingEdge {
                max_num_files_to_group: *max_num_files_to_group,
                max_total_file_size_to_group: *max_total_file_size_to_group,
            },
            RoundInfo::VerticalSplit { split_times } => RoundDecision::VerticalSplit {
                split_times: split_times@,
            },
        }
    }
}

impl Clone for RoundInfo {
    fn clone(&self) -> (copy: Self)
        ensures
            copy@ == self@,
    {
        match self {
            RoundInfo::TargetLevel {
                target_level,
                max_total_file_size_to_group,
            } => RoundInfo::TargetLevel {
                target_level: *target_level,
                max_total_file_size_to_group: *max_total_file_size_to_group,
            },
            RoundInfo::ManySmallFiles {
                start_level,
                max_num_files_to_group,
                max_total_file_size_to_group,
            } => RoundInfo::ManySmallFiles {
                start_level: *start_level,
                max_num_files_to_group: *max_num_files_to_group,
                max_total_file_size_to_group: *max_total_file_size_to_group,
            },
            RoundInfo::SimulatedLeadingEdge {
                max_num_files_to_group,
                max_total_file_size_to_group,
            } => RoundInfo::SimulatedLeadingEdge {
                max_num_files_to_group: *max_num_files_to_group,
                max_total_file_size_to_group: *max_total_file_size_to_group,
            },
            RoundInfo::VerticalSplit { split_times } => {
                let copy = split_times.clone();
                proof {
                    assert(copy@ =~= split_times@);
                }
                RoundInfo::VerticalSplit { split_times: copy }
            },
        }
    }
}

/// Decides what a round does from the levels, sizes and time ranges of the
/// files of a partition.
#[derive(Debug)]
pub struct LevelBasedRoundInfo {
    /// The largest number of files that one plan may take.
    pub max_num_files_per_plan: usize,
    /// The largest number of bytes that one plan may take.
    pub max_total_file_size_per_plan: usize,
}

impl LevelBasedRoundInfo {
    /// A planner with the given limits for one plan.
    pub fn new(max_num_files_per_plan: usize, max_total_file_size_per_plan: usize) -> (planner:
        Self)
        ensures
            planner.max_num_files_per_plan == max_num_files_per_plan,
            planner.max_total_file_size_per_plan == max_total_file_size_per_plan,
    {
        Self { max_num_files_per_plan, max_total_file_size_per_plan }
    }

    /// What the round does. Starting from the initial level, the first of
    /// these that applies: split the files, compact a backlog that chains do
    /// not bring together, compact a backlog of small files, compact into the
    /// next level. Starting from a higher level, compact into the level above
    /// it. To tell whether chains bring a backlog together, they are coalesced
    /// up to as many bytes as a plan takes files.
    pub open spec fn round_decision(&self, files: Seq<ParquetFile>) -> RoundDecision {
        let start = start_level(
            files,
            self.max_num_files_per_plan as int,
            self.max_total_file_size_per_plan as int,
        );
        let split_times = self.spec_vertical_split_times(
            files,
            self.max_total_file_size_per_plan as int,
        );
        if start != CompactionLevel::Initial {
            RoundDecision::TargetLevel {
                target_level: start.spec_next(),
                max_total_file_size_to_group: self.max_total_file_size_per_plan,
            }
        } else if split_times.len() > 0 {
            RoundDecision::VerticalSplit { split_times }
        } else if self.spec_many_ungroupable_files(files, start, self.max_num_files_per_plan as int) {
            RoundDecision::SimulatedLeadingEdge {
                max_num_files_to_group: self.max_num_files_per_plan,
                max_total_file_size_to_group: self.max_total_file_size_per_plan,
            }
        } else if self.spec_too_many_small_files_to_compact(files, start) {
            RoundDecision::ManySmallFiles {
                start_level: start,
                max_num_files_to_group: self.max_num_files_per_plan,
                max_total_file_size_to_group: self.max_total_file_size_per_plan,
            }
        } else {
            RoundDecision::TargetLevel {
                target_level: CompactionLevel::FileNonOverlapped,
                max_total_file_size_to_group: self.max_total_file_size_per_plan,
            }
        }
    }

    /// Decides what this round does with the files of a partition. This is
    /// the decision that matters most for the round: what comes later works
    /// out how to do what it says.
    pub fn decide(&self, files: &[ParquetFile]) -> (round_info: RoundInfo)
        requires
            files@.len() > 0,
            self.max_num_files_per_plan > 0,
            self.max_total_file_size_per_plan > 0,
        ensures
            round_info@ == self.round_decision(files@),
    {
        // Mostly the lowest level that holds files, but now and then the
        // middle level is compacted while the initial level still holds files.
        let start_level = get_start_level(
            files,
            self.max_num_files_per_plan,
            self.max_total_file_size_per_plan,
        );
        if start_level == CompactionLevel::Initial {
            let split_times = self.vertical_split_times(
                slice_to_vec(files),
                self.max_total_file_size_per_plan,
            );
            if split_times.len() > 0 {
                RoundInfo::VerticalSplit { split_times }
            } else if self.many_ungroupable_files(files, start_level, self.max_num_files_per_plan) {
                RoundInfo::SimulatedLeadingEdge {
                    max_num_files_to_group: self.max_num_files_per_plan,
                    max_total_file_size_to_group: self.max_total_file_size_per_plan,
                }
            } else if self.too_many_small_files_to_compact(files, start_level) {
                RoundInfo::ManySmallFiles {
                    start_level,
                    max_num_files_to_group: self.max_num_files_per_plan,
                    max_total_file_size_to_group: self.max_total_file_size_per_plan,
                }
            } else {
                RoundInfo::TargetLevel {
                    target_level: CompactionLevel::FileNonOverlapped,
                    max_total_file_size_to_group: self.max_total_file_size_per_plan,
                }
            }
        } else {
            RoundInfo::TargetLevel {
                target_level: start_level.next(),
                max_total_file_size_to_group: self.max_total_file_size_per_plan,
            }
        }
    }
}

/// The same files always give the same decision: a round that is planned
/// again for files that have not changed is planned as before.
pub proof fn lemma_same_files_same_round(
    planner: LevelBasedRoundInfo,
    files: Seq<ParquetFile>,
    first: RoundInfo,
    second: RoundInfo,
)
    requires
        first@ == planner.round_decision(files),
        second@ == planner.round_decision(files),
    ensures
        first@ == second@,
{
}

/// What a collaborator gives back: what to go on with and the files that
/// are put off, or a failure.
pub type Parted<T, E> = Result<(T, Vec<ParquetFile>), E>;

/// What a round comes to: the decision, the branches to compact now and the
/// files left for a later round; or the failure of a collaborator.
pub type Round<E> = Result<(RoundInfo, Vec<Vec<ParquetFile>>, Vec<ParquetFile>), E>;

/// Puts together what a round comes to: the decision, the branches, and the
/// files for later, which are those that the split put off followed by those
/// that the division put off.
pub fn assemble_round(
    round_info: RoundInfo,
    files_later: Vec<ParquetFile>,
    branches: Vec<Vec<ParquetFile>>,
    more_for_later: Vec<ParquetFile>,
) -> (round: (RoundInfo, Vec<Vec<ParquetFile>>, Vec<ParquetFile>))
    ensures
        round.0 == round_info,
        round.1 == branches,
        round.2@ == files_later@ + more_for_later@,
{
    let mut files_later = files_later;
    let mut more_for_later = more_for_later;
    files_later.append(&mut more_for_later);
    (round_info, branches, files_later)
}

impl LevelBasedRoundInfo {
    /// Whether `outcome` is what a round for `files` comes to with the given
    /// collaborators. On success the decision is the one that the files call
    /// for, `round_split` was handed all files and the decision,
    /// `divide_initial` was handed the files that `round_split` gave for now
    /// and the decision, the branches are what `divide_initial` gave, and the
    /// files for later are those that `round_split` put off followed by those
    /// that `divide_initial` put off. A failure is the failure of
    /// `round_split`, or that of `divide_initial` after `round_split` did its
    /// part.
    pub open spec fn is_round<S, D, E>(
        &self,
        round_split: S,
        divide_initial: D,
        files: Vec<ParquetFile>,
        outcome: Round<E>,
    ) -> bool where
        S: Fn(Vec<ParquetFile>, &RoundInfo) -> Parted<Vec<ParquetFile>, E>,
        D: Fn(Vec<ParquetFile>, &RoundInfo) -> Parted<Vec<Vec<ParquetFile>>, E>,
     {
        match outcome {
            Ok((round_info, branches, files_later)) => {
                &&& round_info@ == self.round_decision(files@)
                &&& exists|
                    files_now: Vec<ParquetFile>,
                    put_off: Vec<ParquetFile>,
                    more_for_later: Vec<ParquetFile>,
                |
                    {
                        &&& call_ensures(
                            round_split,
                            (files, &round_info),
                            Ok((files_now, put_off)),
                        )
                        &&& call_ensures(
                            divide_initial,
                            (files_now, &round_info),
                            Ok((branches, more_for_later)),
                        )
                        &&& files_later@ == put_off@ + more_for_later@
                    }
            },
            Err(e) => exists|round_info: RoundInfo|
                {
                    &&& round_info@ == self.round_decision(files@)
                    &&& (call_ensures(round_split, (files, &round_info), Err(e)) || exists|
                        files_now: Vec<ParquetFile>,
                        put_off: Vec<ParquetFile>,
                    |
                        {
                            &&& call_ensures(
                                round_split,
                                (files, &round_info),
                                Ok((files_now, put_off)),
                            )
                            &&& call_ensures(divide_initial, (files_now, &round_info), Err(e))
                        })
                },
        }
    }

    /// Plans a round for the files of a partition: decides what the round
    /// does, has `round_split` part the files into those for now and those for
    /// later, and has `divide_initial` group the files for now into branches,
    /// each of which goes into one plan. `divide_initial` may put more files
    /// off. Where a collaborator fails, its failure is handed on as it is, and
    /// nothing is tried again.
    pub fn calculate<S, D, E>(
        &self,
        round_split: S,
        divide_initial: D,
        files: Vec<ParquetFile>,
    ) -> (outcome: Round<E>) where
        S: Fn(Vec<ParquetFile>, &RoundInfo) -> Parted<Vec<ParquetFile>, E>,
        D: Fn(Vec<ParquetFile>, &RoundInfo) -> Parted<Vec<Vec<ParquetFile>>, E>,

        requires
            files@.len() > 0,
            self.max_num_files_per_plan > 0,
            self.max_total_file_size_per_plan > 0,
            forall|info: &RoundInfo|
                info@ == self.round_decision(files@) ==> #[trigger] call_requires(
                    round_split,
                    (files, info),
                ),
            forall|info: &RoundInfo, now: Vec<ParquetFile>, put_off: Vec<ParquetFile>|
                info@ == self.round_decision(files@) && #[trigger] call_ensures(
                    round_split,
                    (files, info),
                    Ok((now, put_off)),
                ) ==> call_requires(divide_initial, (now, info)),
        ensures
            self.is_round(round_split, divide_initial, files, outcome),
    {
        let round_info = self.decide(files.as_slice());
        let (files_now, files_later) = match round_split(files, &round_info) {
            Ok(parts) => parts,
            Err(e) => {
                return Err(e);
            },
        };
        let (branches, more_for_later) = match divide_initial(files_now, &round_info) {
            Ok(parts) => parts,
            Err(e) => {
                return Err(e);
            },
        };
        Ok(assemble_round(round_info, files_later, branches, more_for_later))
    }
}

} // verus!
