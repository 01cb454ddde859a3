//! Vertical splits: where the files of the initial level are cut in time
//! before they are compacted.
//!
//! A chain of overlapping files that holds more than one plan takes cannot be
//! compacted in one go. Its files are cut at the same timestamps, so that the
//! pieces between two cuts form chains that are small enough.
use crate::chains::{
    chains_of, chains_view, lemma_chains_hold_given_files, lemma_max_time_of, max_time_of,
    split_into_chains,
};
use crate::file::{
    all_well_formed, count_files_in_range, count_overlapping, files_at_level,
    lemma_count_overlapping_all, lemma_files_at_level_members, lemma_files_at_level_twice, select_level, total_bytes, total_file_size, CompactionLevel,
    ParquetFile,
};
use crate::ranges::{
    is_tiling, lemma_linear_ranges, lemma_linear_ranges_carry_all, lemma_min_time_of,
    lemma_tiling_ends, lemma_tiling_starts, linear_dist_ranges, linear_ranges, min_time_of,
    total_cap, FileRange,
};
use crate::round_info::LevelBasedRoundInfo;
use crate::split_times::{lemma_split_times_of, piece_count, select_split_times, split_times_of};
use crate::times::{is_strictly_increasing, lemma_sort_dedup, sort_and_dedup, sort_dedup};
use vstd::prelude::*;

verus! {

/// The split times that a file of the target level suggests for the range
/// `[lo, hi]`: just before it starts and where it ends, each if it lies
/// strictly inside the range. A start-level file cut there does not reach
/// across the boundary of the target-level file.
pub open spec fn file_hints(f: ParquetFile, lo: int, hi: int) -> Seq<i64> {
    let before_start = if f.min_time - 1 > lo && f.min_time < hi {
        seq![(f.min_time - 1) as i64]
    } else {
        Seq::empty()
    };
    let at_end = if f.max_time > lo && f.max_time < hi {
        seq![f.max_time]
    } else {
        Seq::empty()
    };
    before_start + at_end
}

/// The split times that the files of the target level suggest for the range
/// `[lo, hi]`.
pub open spec fn split_hints(targets: Seq<ParquetFile>, lo: int, hi: int) -> Seq<i64>
    decreases targets.len(),
{
    if targets.len() == 0 {
        Seq::empty()
    } else {
        split_hints(targets.drop_last(), lo, hi) + file_hints(targets.last(), lo, hi)
    }
}

/// The split times that the range at position `r` of a chain brings: the
/// timestamp before the range, unless the range is the first, and, where
/// several files of the chain reach into the range and it still holds more
/// than `max_compact_size` bytes, the split times chosen inside it.
pub open spec fn range_split_times(
    chain: Seq<ParquetFile>,
    targets: Seq<ParquetFile>,
    range: FileRange,
    r: int,
    max_compact_size: int,
) -> Seq<i64> {
    let boundary = if r > 0 {
        seq![(range.min - 1) as i64]
    } else {
        Seq::empty()
    };
    let inside = if count_overlapping(chain, range.min as int, range.max as int) > 1 && range.cap
        > max_compact_size {
        split_times_of(
            range.cap as int,
            max_compact_size,
            range.min as int,
            range.max as int,
            split_hints(targets, range.min as int, range.max as int),
        )
    } else {
        Seq::empty()
    };
    boundary + inside
}

/// The split times that the first `n` ranges of a chain bring.
pub open spec fn ranges_split_times(
    chain: Seq<ParquetFile>,
    targets: Seq<ParquetFile>,
    ranges: Seq<FileRange>,
    max_compact_size: int,
    n: int,
) -> Seq<i64>
    decreases n,
{
    if n <= 0 {
        Seq::empty()
    } else {
        ranges_split_times(chain, targets, ranges, max_compact_size, n - 1) + range_split_times(
            chain,
            targets,
            ranges[n - 1],
            n - 1,
            max_compact_size,
        )
    }
}

/// The split times that a chain brings: none unless it has several files
/// that together hold more than `max_compact_size` bytes. One file of any
/// size moves up a level as it is.
pub open spec fn chain_split_times(
    chain: Seq<ParquetFile>,
    targets: Seq<ParquetFile>,
    max_compact_size: int,
) -> Seq<i64> {
    if chain.len() > 1 && total_bytes(chain) > max_compact_size {
        let ranges = linear_ranges(chain, max_compact_size);
        ranges_split_times(chain, targets, ranges, max_compact_size, ranges.len() as int)
    } else {
        Seq::empty()
    }
}

/// The split times that the first `n` chains bring.
pub open spec fn chains_split_times(
    chains: Seq<Seq<ParquetFile>>,
    targets: Seq<ParquetFile>,
    max_compact_size: int,
    n: int,
) -> Seq<i64>
    decreases n,
{
    if n <= 0 {
        Seq::empty()
    } else {
        chains_split_times(chains, targets, max_compact_size, n - 1) + chain_split_times(
            chains[n - 1],
            targets,
            max_compact_size,
        )
    }
}

/// All split times that the files bring, as they are found: the files of the
/// initial level are the ones to split, the files of the level above it give
/// the hints, and the files of the top level play no part.
pub open spec fn split_candidates(files: Seq<ParquetFile>, max_compact_size: int) -> Seq<i64> {
    let chains = chains_of(files_at_level(files, CompactionLevel::Initial));
    chains_split_times(
        chains,
        files_at_level(files, CompactionLevel::FileNonOverlapped),
        max_compact_size,
        chains.len() as int,
    )
}

/// Appends the timestamps of `src` to `dst`.
fn append_times(dst: &mut Vec<i64>, src: &Vec<i64>)
    ensures
        final(dst)@ == old(dst)@ + src@,
{
    let mut i: usize = 0;
    while i < src.len()
        invariant
            i <= src.len(),
            dst@ == old(dst)@ + src@.take(i as int),
        decreases src.len() - i,
    {
        dst.push(src[i]);
        proof {
            assert(src@.take(i + 1) =~= src@.take(i as int).push(src@[i as int]));
        }
        i += 1;
    }
    proof {
        assert(src@.take(src@.len() as int) =~= src@);
    }
}

/// Returns the split times that the files of the target level suggest for
/// the range `[lo, hi]`.
fn collect_split_hints(targets: &Vec<ParquetFile>, lo: i64, hi: i64) -> (hints: Vec<i64>)
    ensures
        hints@ == split_hints(targets@, lo as int, hi as int),
{
    let mut hints: Vec<i64> = Vec::new();
    let mut i: usize = 0;
    while i < targets.len()
        invariant
            i <= targets.len(),
            hints@ == split_hints(targets@.take(i as int), lo as int, hi as int),
        decreases targets.len() - i,
    {
        let f = &targets[i];
        let ghost before = hints@;
        proof {
            assert(targets@.take(i + 1).drop_last() =~= targets@.take(i as int));
        }
        if f.min_time > lo && f.min_time - 1 > lo && f.min_time < hi {
            hints.push(f.min_time - 1);
        }
        if f.max_time > lo && f.max_time < hi {
            hints.push(f.max_time);
        }
        proof {
            assert(hints@ =~= before + file_hints(*f, lo as int, hi as int));
        }
        i += 1;
    }
    proof {
        assert(targets@.take(targets@.len() as int) =~= targets@);
    }
    hints
}

/// Appends to `split_times` the split times that one chain brings.
fn add_chain_split_times(
    split_times: &mut Vec<i64>,
    chain: &Vec<ParquetFile>,
    targets: &Vec<ParquetFile>,
    max_compact_size: usize,
)
    requires
        max_compact_size > 0,
    ensures
        final(split_times)@ == old(split_times)@ + chain_split_times(
            chain@,
            targets@,
            max_compact_size as int,
        ),
{
    let chain_cap = total_file_size(chain.as_slice());
    if !(chain.len() > 1 && chain_cap > max_compact_size as u128) {
        proof {
            assert(split_times@ =~= old(split_times)@ + Seq::<i64>::empty());
        }
        return;
    }
    let ranges = linear_dist_ranges(chain, max_compact_size);
    let mut r: usize = 0;
    proof {
        assert(split_times@ =~= old(split_times)@ + Seq::<i64>::empty());
    }
    while r < ranges.len()
        invariant
            r <= ranges.len(),
            max_compact_size > 0,
            ranges@ == linear_ranges(chain@, max_compact_size as int),
            ranges@.len() > 0 ==> is_tiling(
                ranges@,
                min_time_of(chain@),
                max_time_of(chain@),
            ),
            split_times@ == old(split_times)@ + ranges_split_times(
                chain@,
                targets@,
                ranges@,
                max_compact_size as int,
                r as int,
            ),
        decreases ranges.len() - r,
    {
        let range = ranges[r];
        let ghost before = split_times@;
        if r > 0 {
            proof {
                assert(ranges@[r as int].min == ranges@[r - 1].max + 1);
            }
            split_times.push(range.min - 1);
        }
        let overlaps = count_files_in_range(chain, range.min, range.max);
        if overlaps > 1 && range.cap > max_compact_size as u128 {
            let hints = collect_split_hints(targets, range.min, range.max);
            let splits = select_split_times(
                range.cap,
                max_compact_size,
                range.min,
                range.max,
                &hints,
            );
            append_times(split_times, &splits);
        }
        proof {
            assert(split_times@ =~= before + range_split_times(
                chain@,
                targets@,
                range,
                r as int,
                max_compact_size as int,
            ));
        }
        r += 1;
    }
}

impl LevelBasedRoundInfo {
    /// The timestamps at which the files of the initial level are to be
    /// split: all split times that the files bring, in increasing order, each
    /// one once.
    pub open spec fn spec_vertical_split_times(
        &self,
        files: Seq<ParquetFile>,
        max_compact_size: int,
    ) -> Seq<i64> {
        sort_dedup(split_candidates(files, max_compact_size))
    }

    /// Looks at the files to tell whether files of the initial level must be
    /// split in time before they can be compacted, and returns the timestamps
    /// to split them at, in increasing order. A split time is the last
    /// timestamp of the piece to its left. With no split times, splitting is
    /// not called for, and the round does something else. A chain of several
    /// files that holds more than `max_compact_size` bytes and spans more than
    /// one timestamp is always split.
    pub fn vertical_split_times(&self, files: Vec<ParquetFile>, max_compact_size: usize) -> (split_times:
        Vec<i64>)
        requires
            max_compact_size > 0,
        ensures
            split_times@ == self.spec_vertical_split_times(files@, max_compact_size as int),
            is_strictly_increasing(split_times@),
            split_times@.to_set() == split_candidates(files@, max_compact_size as int).to_set(),
            all_within(
                split_times@,
                min_time_of(files_at_level(files@, CompactionLevel::Initial)),
                max_time_of(files_at_level(files@, CompactionLevel::Initial)),
            ),
            splits_chains_over_the_limit(
                split_times@,
                files_at_level(files@, CompactionLevel::Initial),
                max_compact_size as int,
            ),
    {
        proof {
            lemma_vertical_split_times(*self, files@, max_compact_size as int);
        }
        let start_level_files = select_level(files.as_slice(), CompactionLevel::Initial);
        let target_level_files = select_level(
            files.as_slice(),
            CompactionLevel::FileNonOverlapped,
        );
        let mut split_times: Vec<i64> = Vec::with_capacity(start_level_files.len());
        proof {
            lemma_chains_over_the_limit_are_split(*self, files@, max_compact_size as int);
        }
        // Each chain of overlapping files is looked at by itself.
        let chains = split_into_chains(start_level_files);
        let mut i: usize = 0;
        while i < chains.len()
            invariant
                i <= chains.len(),
                max_compact_size > 0,
                split_times@ == chains_split_times(
                    chains_view(chains@),
                    target_level_files@,
                    max_compact_size as int,
                    i as int,
                ),
            decreases chains.len() - i,
        {
            add_chain_split_times(
                &mut split_times,
                &chains[i],
                &target_level_files,
                max_compact_size,
            );
            i += 1;
        }
        sort_and_dedup(&split_times)
    }
}

/// Whether every timestamp is `lo` or later and before `hi`.
pub open spec fn all_within(times: Seq<i64>, lo: int, hi: int) -> bool {
    forall|i: int| 0 <= i < times.len() ==> lo <= (#[trigger] times[i]) < hi
}

proof fn lemma_all_within_add(a: Seq<i64>, b: Seq<i64>, lo: int, hi: int)
    requires
        all_within(a, lo, hi),
        all_within(b, lo, hi),
    ensures
        all_within(a + b, lo, hi),
{
    assert forall|i: int| 0 <= i < (a + b).len() implies lo <= (#[trigger] (a + b)[i]) < hi by {
        if i < a.len() {
            assert((a + b)[i] == a[i]);
        } else {
            assert((a + b)[i] == b[i - a.len()]);
        }
    }
}

proof fn lemma_ranges_split_times_within(
    chain: Seq<ParquetFile>,
    targets: Seq<ParquetFile>,
    ranges: Seq<FileRange>,
    max_compact_size: int,
    n: int,
    lo: int,
    hi: int,
)
    requires
        is_tiling(ranges, lo, hi),
        0 <= n <= ranges.len(),
        0 < max_compact_size,
    ensures
        all_within(ranges_split_times(chain, targets, ranges, max_compact_size, n), lo, hi),
    decreases n,
{
    if n > 0 {
        let r = n - 1;
        let range = ranges[r];
        lemma_ranges_split_times_within(chain, targets, ranges, max_compact_size, r, lo, hi);
        lemma_tiling_starts(ranges, lo, hi, r);
        lemma_tiling_ends(ranges, lo, hi, r);
        assert(range.min <= range.max);
        let hints = split_hints(targets, range.min as int, range.max as int);
        lemma_split_times_of(
            range.cap as int,
            max_compact_size,
            range.min as int,
            range.max as int,
            hints,
        );
        let here = range_split_times(chain, targets, range, r, max_compact_size);
        assert forall|i: int| 0 <= i < here.len() implies lo <= (#[trigger] here[i]) < hi by {
            if r > 0 && i == 0 {
                assert(here[i] == (range.min - 1) as i64);
            } else {
                let inside = split_times_of(
                    range.cap as int,
                    max_compact_size,
                    range.min as int,
                    range.max as int,
                    hints,
                );
                let j = if r > 0 {
                    i - 1
                } else {
                    i
                };
                assert(here[i] == inside[j]);
                assert(range.min <= inside[j] < range.max);
            }
        }
        lemma_all_within_add(
            ranges_split_times(chain, targets, ranges, max_compact_size, r),
            here,
            lo,
            hi,
        );
    }
}

/// The split times that a chain brings lie within its time span.
proof fn lemma_chain_split_times_within(
    chain: Seq<ParquetFile>,
    targets: Seq<ParquetFile>,
    max_compact_size: int,
)
    requires
        0 < max_compact_size,
    ensures
        all_within(
            chain_split_times(chain, targets, max_compact_size),
            min_time_of(chain),
            max_time_of(chain),
        ),
{
    if chain.len() > 1 && total_bytes(chain) > max_compact_size {
        let ranges = linear_ranges(chain, max_compact_size);
        if min_time_of(chain) <= max_time_of(chain) {
            lemma_linear_ranges(chain, max_compact_size);
            lemma_ranges_split_times_within(
                chain,
                targets,
                ranges,
                max_compact_size,
                ranges.len() as int,
                min_time_of(chain),
                max_time_of(chain),
            );
        }
    }
}

/// No chain reaches beyond the time span of all the files.
proof fn lemma_chain_span(files: Seq<ParquetFile>, c: int)
    requires
        0 <= c < chains_of(files).len(),
    ensures
        min_time_of(files) <= min_time_of(chains_of(files)[c]),
        max_time_of(chains_of(files)[c]) <= max_time_of(files),
{
    let chain = chains_of(files)[c];
    crate::chains::lemma_chains_partition(files);
    lemma_min_time_of(chain);
    lemma_max_time_of(chain);
    lemma_min_time_of(files);
    lemma_max_time_of(files);
    let first = choose|j: int| 0 <= j < chain.len() && chain[j].min_time == min_time_of(chain);
    lemma_chains_hold_given_files(files, c, first);
    let at = choose|i: int| 0 <= i < files.len() && files[i] == chain[first];
    assert(files[at].min_time >= min_time_of(files));
    let last = choose|j: int| 0 <= j < chain.len() && chain[j].max_time == max_time_of(chain);
    lemma_chains_hold_given_files(files, c, last);
    let to = choose|i: int| 0 <= i < files.len() && files[i] == chain[last];
    assert(files[to].max_time <= max_time_of(files));
}

proof fn lemma_chains_split_times_within(
    files: Seq<ParquetFile>,
    targets: Seq<ParquetFile>,
    max_compact_size: int,
    n: int,
)
    requires
        0 < max_compact_size,
        0 <= n <= chains_of(files).len(),
    ensures
        all_within(
            chains_split_times(chains_of(files), targets, max_compact_size, n),
            min_time_of(files),
            max_time_of(files),
        ),
    decreases n,
{
    if n > 0 {
        let chain = chains_of(files)[n - 1];
        lemma_chains_split_times_within(files, targets, max_compact_size, n - 1);
        lemma_chain_split_times_within(chain, targets, max_compact_size);
        lemma_chain_span(files, n - 1);
        let here = chain_split_times(chain, targets, max_compact_size);
        assert(all_within(here, min_time_of(files), max_time_of(files))) by {
            assert forall|i: int| 0 <= i < here.len() implies min_time_of(files) <= (
            #[trigger] here[i]) < max_time_of(files) by {
                assert(min_time_of(chain) <= here[i] < max_time_of(chain));
            }
        }
        lemma_all_within_add(
            chains_split_times(chains_of(files), targets, max_compact_size, n - 1),
            here,
            min_time_of(files),
            max_time_of(files),
        );
    }
}

/// Whether a chain holds more than one plan takes and can be split: it has
/// several files, none with an empty time range, that together hold more than
/// `max_compact_size` bytes, and it spans more than one timestamp.
pub open spec fn is_over_the_limit(chain: Seq<ParquetFile>, max_compact_size: int) -> bool {
    &&& chain.len() > 1
    &&& total_bytes(chain) > max_compact_size
    &&& all_well_formed(chain)
    &&& min_time_of(chain) < max_time_of(chain)
}

/// Whether each chain of the files that is over the limit is split: one of
/// the split times lies in its time span and leaves its last timestamp to the
/// right-hand piece.
pub open spec fn splits_chains_over_the_limit(
    split_times: Seq<i64>,
    files: Seq<ParquetFile>,
    max_compact_size: int,
) -> bool {
    forall|c: int|
        0 <= c < chains_of(files).len() && is_over_the_limit(
            #[trigger] chains_of(files)[c],
            max_compact_size,
        ) ==> exists|i: int|
            0 <= i < split_times.len() && min_time_of(chains_of(files)[c]) <= (
            #[trigger] split_times[i]) < max_time_of(chains_of(files)[c])
}

/// The split times that a range brings are among those that the ranges
/// bring.
proof fn lemma_range_split_times_are_kept(
    chain: Seq<ParquetFile>,
    targets: Seq<ParquetFile>,
    ranges: Seq<FileRange>,
    max_compact_size: int,
    n: int,
    r: int,
)
    requires
        0 <= r < n <= ranges.len(),
        range_split_times(chain, targets, ranges[r], r, max_compact_size).len() > 0,
    ensures
        ranges_split_times(chain, targets, ranges, max_compact_size, n).len() > 0,
    decreases n,
{
    if r < n - 1 {
        lemma_range_split_times_are_kept(chain, targets, ranges, max_compact_size, n - 1, r);
    }
}

/// The split times that a chain brings are among those that the chains
/// bring.
proof fn lemma_chain_split_times_are_kept(
    chains: Seq<Seq<ParquetFile>>,
    targets: Seq<ParquetFile>,
    max_compact_size: int,
    n: int,
    c: int,
    t: i64,
)
    requires
        0 <= c < n <= chains.len(),
        chain_split_times(chains[c], targets, max_compact_size).contains(t),
    ensures
        chains_split_times(chains, targets, max_compact_size, n).contains(t),
    decreases n,
{
    let before = chains_split_times(chains, targets, max_compact_size, n - 1);
    let here = chain_split_times(chains[n - 1], targets, max_compact_size);
    if c < n - 1 {
        lemma_chain_split_times_are_kept(chains, targets, max_compact_size, n - 1, c, t);
        let i = choose|i: int| 0 <= i < before.len() && before[i] == t;
        assert((before + here)[i] == t);
    } else {
        let i = choose|i: int| 0 <= i < here.len() && here[i] == t;
        assert((before + here)[before.len() + i] == t);
    }
}

/// A chain over the limit brings a split time. Its ranges carry all its
/// bytes, so either there are several ranges, and a split lies between the
/// first two, or the one range holds more than the limit and is split inside.
pub proof fn lemma_chain_over_the_limit_is_split(
    chain: Seq<ParquetFile>,
    targets: Seq<ParquetFile>,
    max_compact_size: int,
)
    requires
        0 < max_compact_size,
        chain.len() <= usize::MAX,
        is_over_the_limit(chain, max_compact_size),
    ensures
        chain_split_times(chain, targets, max_compact_size).len() > 0,
{
    let lo = min_time_of(chain);
    let hi = max_time_of(chain);
    let ranges = linear_ranges(chain, max_compact_size);
    lemma_linear_ranges(chain, max_compact_size);
    lemma_linear_ranges_carry_all(chain, max_compact_size);
    if ranges.len() > 1 {
        assert(range_split_times(chain, targets, ranges[1], 1, max_compact_size).len() > 0);
        lemma_range_split_times_are_kept(
            chain,
            targets,
            ranges,
            max_compact_size,
            ranges.len() as int,
            1,
        );
    } else {
        let range = ranges[0];
        assert(ranges.drop_last() =~= Seq::<FileRange>::empty());
        assert(total_cap(ranges.drop_last()) == 0);
        assert(total_cap(ranges) == range.cap);
        assert(range.min == lo && range.max == hi);
        lemma_min_time_of(chain);
        lemma_max_time_of(chain);
        assert forall|j: int| 0 <= j < chain.len() implies (
        #[trigger] chain[j]).spec_overlaps_time_range(lo, hi) by {
            assert(chain[j].well_formed());
        }
        lemma_count_overlapping_all(chain, lo, hi);
        let cap = range.cap as int;
        let span = hi - lo + 1;
        assert(cap / max_compact_size >= 1) by (nonlinear_arith)
            requires
                cap > max_compact_size,
                max_compact_size > 0,
        ;
        assert(piece_count(cap, max_compact_size, span) >= 2);
        let inside = split_times_of(
            cap,
            max_compact_size,
            lo,
            hi,
            split_hints(targets, lo, hi),
        );
        assert(inside.len() > 0);
        assert(range_split_times(chain, targets, range, 0, max_compact_size) =~= inside);
        lemma_range_split_times_are_kept(chain, targets, ranges, max_compact_size, 1, 0);
    }
}

/// No chain holds more files than were given.
proof fn lemma_chain_len(files: Seq<ParquetFile>, c: int)
    requires
        0 <= c < chains_of(files).len(),
    ensures
        chains_of(files)[c].len() <= files.len(),
{
    let chains = chains_of(files);
    crate::chains::lemma_chains_partition(files);
    crate::chains::lemma_sort_by_min_time(files);
    chains.lemma_flatten_length_ge_single_element_length(c);
    chains.lemma_flatten_and_flatten_alt_are_equivalent();
}

/// Every chain of the files of the initial level that is over the limit is
/// split.
pub proof fn lemma_chains_over_the_limit_are_split(
    planner: LevelBasedRoundInfo,
    files: Seq<ParquetFile>,
    max_compact_size: int,
)
    requires
        0 < max_compact_size,
        files_at_level(files, CompactionLevel::Initial).len() <= usize::MAX,
    ensures
        splits_chains_over_the_limit(
            planner.spec_vertical_split_times(files, max_compact_size),
            files_at_level(files, CompactionLevel::Initial),
            max_compact_size,
        ),
{
    let start = files_at_level(files, CompactionLevel::Initial);
    let targets = files_at_level(files, CompactionLevel::FileNonOverlapped);
    let chains = chains_of(start);
    let found = split_candidates(files, max_compact_size);
    let sorted = planner.spec_vertical_split_times(files, max_compact_size);
    lemma_sort_dedup(found);
    assert forall|c: int|
        0 <= c < chains.len() && is_over_the_limit(
            #[trigger] chains[c],
            max_compact_size,
        ) implies exists|i: int|
        0 <= i < sorted.len() && min_time_of(chains[c]) <= (#[trigger] sorted[i]) < max_time_of(
            chains[c],
        ) by {
        let chain = chains[c];
        lemma_chain_len(start, c);
        lemma_chain_over_the_limit_is_split(chain, targets, max_compact_size);
        lemma_chain_split_times_within(chain, targets, max_compact_size);
        let here = chain_split_times(chain, targets, max_compact_size);
        let t = here[0];
        assert(here.contains(t));
        lemma_chain_split_times_are_kept(
            chains,
            targets,
            max_compact_size,
            chains.len() as int,
            c,
            t,
        );
        assert(found.contains(t));
        assert(found.to_set().contains(t));
        assert(sorted.contains(t));
        let i = choose|i: int| 0 <= i < sorted.len() && sorted[i] == t;
        assert(min_time_of(chain) <= sorted[i] < max_time_of(chain));
    }
}

/// Whether the file lies wholly before `lo` or wholly behind `hi`.
pub open spec fn is_far(f: ParquetFile, lo: int, hi: int) -> bool {
    (f.min_time < lo && f.max_time < lo) || (f.min_time > hi && f.max_time > hi)
}

/// Files that lie wholly before or wholly behind a time span give no hint
/// for a range within it.
proof fn lemma_far_files_give_no_hints(
    targets: Seq<ParquetFile>,
    lo: int,
    hi: int,
    first: int,
    last: int,
)
    requires
        forall|j: int| 0 <= j < targets.len() ==> is_far(#[trigger] targets[j], lo, hi),
        lo <= first,
        last <= hi,
    ensures
        split_hints(targets, first, last) == Seq::<i64>::empty(),
    decreases targets.len(),
{
    if targets.len() > 0 {
        let rest = targets.drop_last();
        assert forall|j: int| 0 <= j < rest.len() implies is_far(#[trigger] rest[j], lo, hi) by {
            assert(is_far(targets[j], lo, hi));
        }
        lemma_far_files_give_no_hints(rest, lo, hi, first, last);
        assert(is_far(targets[targets.len() - 1], lo, hi));
        assert(file_hints(targets.last(), first, last) =~= Seq::<i64>::empty());
        assert(split_hints(targets, first, last) =~= Seq::<i64>::empty());
    }
}

proof fn lemma_far_files_and_ranges(
    chain: Seq<ParquetFile>,
    targets: Seq<ParquetFile>,
    ranges: Seq<FileRange>,
    max_compact_size: int,
    n: int,
    lo: int,
    hi: int,
)
    requires
        forall|j: int| 0 <= j < targets.len() ==> is_far(#[trigger] targets[j], lo, hi),
        0 <= n <= ranges.len(),
        n > 0 ==> exists|from: int, to: int| lo <= from && to <= hi && is_tiling(ranges, from, to),
    ensures
        ranges_split_times(chain, targets, ranges, max_compact_size, n) == ranges_split_times(
            chain,
            Seq::empty(),
            ranges,
            max_compact_size,
            n,
        ),
    decreases n,
{
    if n > 0 {
        let (from, to) = choose|from: int, to: int|
            lo <= from && to <= hi && is_tiling(ranges, from, to);
        let range = ranges[n - 1];
        lemma_far_files_and_ranges(chain, targets, ranges, max_compact_size, n - 1, lo, hi);
        lemma_tiling_starts(ranges, from, to, n - 1);
        lemma_tiling_ends(ranges, from, to, n - 1);
        lemma_far_files_give_no_hints(targets, lo, hi, range.min as int, range.max as int);
        assert(split_hints(Seq::<ParquetFile>::empty(), range.min as int, range.max as int)
            =~= Seq::<i64>::empty());
    }
}

proof fn lemma_far_files_and_chains(
    files: Seq<ParquetFile>,
    targets: Seq<ParquetFile>,
    max_compact_size: int,
    n: int,
)
    requires
        forall|j: int|
            0 <= j < targets.len() ==> is_far(
                #[trigger] targets[j],
                min_time_of(files),
                max_time_of(files),
            ),
        0 <= max_compact_size,
        0 <= n <= chains_of(files).len(),
    ensures
        chains_split_times(chains_of(files), targets, max_compact_size, n) == chains_split_times(
            chains_of(files),
            Seq::empty(),
            max_compact_size,
            n,
        ),
    decreases n,
{
    if n > 0 {
        let chain = chains_of(files)[n - 1];
        let ranges = linear_ranges(chain, max_compact_size);
        lemma_far_files_and_chains(files, targets, max_compact_size, n - 1);
        lemma_chain_span(files, n - 1);
        if ranges.len() > 0 {
            lemma_linear_ranges(chain, max_compact_size);
            assert(min_time_of(files) <= min_time_of(chain) && max_time_of(chain) <= max_time_of(
                files,
            ) && is_tiling(ranges, min_time_of(chain), max_time_of(chain)));
        }
        lemma_far_files_and_ranges(
            chain,
            targets,
            ranges,
            max_compact_size,
            ranges.len() as int,
            min_time_of(files),
            max_time_of(files),
        );
    }
}

/// Files of the level above that lie wholly before or wholly behind the
/// files of the initial level move no split time: the split times are those
/// of the files of the initial level alone.
pub proof fn lemma_far_files_move_no_split(
    planner: LevelBasedRoundInfo,
    files: Seq<ParquetFile>,
    max_compact_size: int,
)
    requires
        0 <= max_compact_size,
        forall|j: int|
            0 <= j < files.len() && (#[trigger] files[j]).compaction_level
                == CompactionLevel::FileNonOverlapped ==> is_far(
                files[j],
                min_time_of(files_at_level(files, CompactionLevel::Initial)),
                max_time_of(files_at_level(files, CompactionLevel::Initial)),
            ),
    ensures
        planner.spec_vertical_split_times(files, max_compact_size)
            == planner.spec_vertical_split_times(
            files_at_level(files, CompactionLevel::Initial),
            max_compact_size,
        ),
{
    let start = files_at_level(files, CompactionLevel::Initial);
    let targets = files_at_level(files, CompactionLevel::FileNonOverlapped);
    lemma_files_at_level_twice(files, CompactionLevel::Initial, CompactionLevel::Initial);
    lemma_files_at_level_twice(files, CompactionLevel::Initial, CompactionLevel::FileNonOverlapped);
    assert forall|j: int| 0 <= j < targets.len() implies is_far(
        #[trigger] targets[j],
        min_time_of(start),
        max_time_of(start),
    ) by {
        lemma_files_at_level_members(files, CompactionLevel::FileNonOverlapped, j);
        let i = choose|i: int| 0 <= i < files.len() && files[i] == targets[j];
        assert(files[i].compaction_level == CompactionLevel::FileNonOverlapped);
    }
    lemma_far_files_and_chains(start, targets, max_compact_size, chains_of(start).len() as int);
}

/// The split times of a round never repeat and never go back in time,
/// whatever the limit is.
pub proof fn lemma_vertical_split_times_increase(
    planner: LevelBasedRoundInfo,
    files: Seq<ParquetFile>,
    max_compact_size: int,
)
    ensures
        is_strictly_increasing(planner.spec_vertical_split_times(files, max_compact_size)),
        planner.spec_vertical_split_times(files, max_compact_size).to_set() == split_candidates(
            files,
            max_compact_size,
        ).to_set(),
{
    lemma_sort_dedup(split_candidates(files, max_compact_size));
}

/// The split times of a round never repeat and never go back in time, and
/// each of them leaves data of the initial level on either side: it is no
/// earlier than the first timestamp of the files of that level, and earlier
/// than their last.
pub proof fn lemma_vertical_split_times(
    planner: LevelBasedRoundInfo,
    files: Seq<ParquetFile>,
    max_compact_size: int,
)
    requires
        0 < max_compact_size,
    ensures
        is_strictly_increasing(planner.spec_vertical_split_times(files, max_compact_size)),
        planner.spec_vertical_split_times(files, max_compact_size).to_set() == split_candidates(
            files,
            max_compact_size,
        ).to_set(),
        all_within(
            planner.spec_vertical_split_times(files, max_compact_size),
            min_time_of(files_at_level(files, CompactionLevel::Initial)),
            max_time_of(files_at_level(files, CompactionLevel::Initial)),
        ),
{
    let start = files_at_level(files, CompactionLevel::Initial);
    let targets = files_at_level(files, CompactionLevel::FileNonOverlapped);
    let found = split_candidates(files, max_compact_size);
    let sorted = planner.spec_vertical_split_times(files, max_compact_size);
    lemma_vertical_split_times_increase(planner, files, max_compact_size);
    lemma_chains_split_times_within(start, targets, max_compact_size, chains_of(start).len() as int);
    assert forall|i: int| 0 <= i < sorted.len() implies min_time_of(start) <= (
    #[trigger] sorted[i]) < max_time_of(start) by {
        assert(sorted.contains(sorted[i]));
        assert(sorted.to_set().contains(sorted[i]));
        assert(found.contains(sorted[i]));
        let j = choose|j: int| 0 <= j < found.len() && found[j] == sorted[i];
        assert(min_time_of(start) <= found[j] < max_time_of(start));
    }
}

} // verus!
