//! File metadata: the only input the planner ever reads.
use vstd::prelude::*;

verus! {

/// Compaction level of a file. Only files of the initial level may overlap
/// each other in time.
#[derive(Clone, Copy, Debug, PartialEq, Eq, Structural, Hash)]
pub enum CompactionLevel {
    /// Freshly ingested data (L0).
    Initial,
    /// Level of files that do not overlap each other (L1).
    FileNonOverlapped,
    /// Fully compacted data (L2).
    Final,
}

impl CompactionLevel {
    /// The level that files of this level are compacted into. The top level
    /// is its own successor.
    pub open spec fn spec_next(self) -> CompactionLevel {
        match self {
            CompactionLevel::Initial => CompactionLevel::FileNonOverlapped,
            CompactionLevel::FileNonOverlapped => CompactionLevel::Final,
            CompactionLevel::Final => CompactionLevel::Final,
        }
    }

    /// Returns the next level.
    #[verifier::when_used_as_spec(spec_next)]
    pub fn next(self) -> (r: CompactionLevel)
        ensures
            r == self.spec_next(),
    {
        match self {
            CompactionLevel::Initial => CompactionLevel::FileNonOverlapped,
            CompactionLevel::FileNonOverlapped => CompactionLevel::Final,
            CompactionLevel::Final => CompactionLevel::Final,
        }
    }
}

/// Metadata of one immutable data file.
#[derive(Clone, Copy, Debug, PartialEq, Eq, Structural, Hash)]
pub struct ParquetFile {
    /// Identity of the file.
    pub id: i64,
    /// Level the file currently sits in.
    pub compaction_level: CompactionLevel,
    /// Smallest timestamp held by the file (inclusive).
    pub min_time: i64,
    /// Largest timestamp held by the file (inclusive).
    pub max_time: i64,
    /// Size of the file in bytes.
    pub file_size_bytes: u64,
    /// Creation time of the newest initial-level file whose data ended up in
    /// this file. Files split from one file share this value.
    pub max_l0_created_at: i64,
}

impl ParquetFile {
    /// Whether the file holds a timestamp in `[min_time, max_time]`.
    pub open spec fn spec_overlaps_time_range(self, min_time: int, max_time: int) -> bool {
        self.min_time <= max_time && self.max_time >= min_time
    }

    /// Whether the two files share a timestamp.
    pub open spec fn overlaps(self, other: ParquetFile) -> bool {
        self.spec_overlaps_time_range(other.min_time as int, other.max_time as int)
    }

    /// Whether the time range of the file is not empty.
    pub open spec fn well_formed(self) -> bool {
        self.min_time <= self.max_time
    }

    /// Returns true if the file holds a timestamp in `[min_time, max_time]`.
    pub fn overlaps_time_range(&self, min_time: i64, max_time: i64) -> (r: bool)
        ensures
            r == self.spec_overlaps_time_range(min_time as int, max_time as int),
    {
        self.min_time <= max_time && self.max_time >= min_time
    }
}

/// Whether the time range of each file is not empty.
pub open spec fn all_well_formed(files: Seq<ParquetFile>) -> bool {
    forall|j: int| 0 <= j < files.len() ==> (#[trigger] files[j]).well_formed()
}

/// Sum of the sizes of the files, in bytes.
pub open spec fn total_bytes(files: Seq<ParquetFile>) -> int
    decreases files.len(),
{
    if files.len() == 0 {
        0
    } else {
        total_bytes(files.drop_last()) + files.last().file_size_bytes
    }
}

/// The test for a file of the given level.
pub open spec fn is_at_level(level: CompactionLevel) -> spec_fn(ParquetFile) -> bool {
    |f: ParquetFile| f.compaction_level == level
}

/// The files of the given level, in their order.
pub open spec fn files_at_level(files: Seq<ParquetFile>, level: CompactionLevel) -> Seq<
    ParquetFile,
> {
    files.filter(is_at_level(level))
}

/// The files of a level, found file by file.
pub proof fn lemma_files_at_level_push(
    files: Seq<ParquetFile>,
    f: ParquetFile,
    level: CompactionLevel,
)
    ensures
        files_at_level(files.push(f), level) == if f.compaction_level == level {
            files_at_level(files, level).push(f)
        } else {
            files_at_level(files, level)
        },
{
    files.lemma_filter_push(f, is_at_level(level));
}

/// No files, no files of a level.
pub proof fn lemma_files_at_level_empty(level: CompactionLevel)
    ensures
        files_at_level(Seq::<ParquetFile>::empty(), level) == Seq::<ParquetFile>::empty(),
{
    Seq::<ParquetFile>::empty().lemma_filter_len(is_at_level(level));
    assert(files_at_level(Seq::<ParquetFile>::empty(), level) =~= Seq::<ParquetFile>::empty());
}

/// The size of files put together is the sum of their sizes.
pub proof fn lemma_total_bytes_add(a: Seq<ParquetFile>, b: Seq<ParquetFile>)
    ensures
        total_bytes(a + b) == total_bytes(a) + total_bytes(b),
    decreases b.len(),
{
    if b.len() == 0 {
        assert(a + b =~= a);
    } else {
        lemma_total_bytes_add(a, b.drop_last());
        assert((a + b).drop_last() =~= a + b.drop_last());
    }
}

/// Returns the sum of the sizes of the files, in bytes.
pub fn total_file_size(files: &[ParquetFile]) -> (bytes: u128)
    ensures
        bytes == total_bytes(files@),
{
    let mut bytes: u128 = 0;
    let mut i: usize = 0;
    while i < files.len()
        invariant
            i <= files.len(),
            bytes == total_bytes(files@.take(i as int)),
            bytes <= i * u64::MAX,
        decreases files.len() - i,
    {
        proof {
            assert(files@.take(i + 1).drop_last() =~= files@.take(i as int));
        }
        bytes = bytes + files[i].file_size_bytes as u128;
        i += 1;
    }
    proof {
        assert(files@.take(files@.len() as int) =~= files@);
    }
    bytes
}

/// Returns the files of the given level, in their order.
pub fn select_level(files: &[ParquetFile], level: CompactionLevel) -> (selected: Vec<ParquetFile>)
    ensures
        selected@ == files_at_level(files@, level),
{
    let mut selected: Vec<ParquetFile> = Vec::new();
    let mut i: usize = 0;
    proof {
        lemma_files_at_level_empty(level);
        assert(files@.take(0) =~= Seq::<ParquetFile>::empty());
    }
    while i < files.len()
        invariant
            i <= files.len(),
            selected@ == files_at_level(files@.take(i as int), level),
        decreases files.len() - i,
    {
        proof {
            lemma_files_at_level_push(files@.take(i as int), files@[i as int], level);
            assert(files@.take(i + 1) =~= files@.take(i as int).push(files@[i as int]));
        }
        if files[i].compaction_level == level {
            selected.push(files[i]);
        }
        i += 1;
    }
    proof {
        assert(files@.take(files@.len() as int) =~= files@);
    }
    selected
}

/// The number of files that hold a timestamp in `[lo, hi]`.
pub open spec fn count_overlapping(files: Seq<ParquetFile>, lo: int, hi: int) -> int
    decreases files.len(),
{
    if files.len() == 0 {
        0
    } else {
        count_overlapping(files.drop_last(), lo, hi) + if files.last().spec_overlaps_time_range(
            lo,
            hi,
        ) {
            1int
        } else {
            0int
        }
    }
}

/// Returns the number of files that hold a timestamp in `[lo, hi]`.
pub fn count_files_in_range(files: &Vec<ParquetFile>, lo: i64, hi: i64) -> (n: usize)
    ensures
        n == count_overlapping(files@, lo as int, hi as int),
        n <= files@.len(),
{
    let mut n: usize = 0;
    let mut i: usize = 0;
    while i < files.len()
        invariant
            i <= files.len(),
            n == count_overlapping(files@.take(i as int), lo as int, hi as int),
            n <= i,
        decreases files.len() - i,
    {
        proof {
            assert(files@.take(i + 1).drop_last() =~= files@.take(i as int));
        }
        if files[i].overlaps_time_range(lo, hi) {
            n += 1;
        }
        i += 1;
    }
    proof {
        assert(files@.take(files@.len() as int) =~= files@);
    }
    n
}

/// Files that all hold a timestamp in `[lo, hi]` are all counted.
pub proof fn lemma_count_overlapping_all(files: Seq<ParquetFile>, lo: int, hi: int)
    requires
        forall|j: int|
            0 <= j < files.len() ==> (#[trigger] files[j]).spec_overlaps_time_range(lo, hi),
    ensures
        count_overlapping(files, lo, hi) == files.len(),
    decreases files.len(),
{
    if files.len() > 0 {
        let rest = files.drop_last();
        assert forall|j: int| 0 <= j < rest.len() implies (
        #[trigger] rest[j]).spec_overlaps_time_range(lo, hi) by {
            assert(files[j].spec_overlaps_time_range(lo, hi));
        }
        lemma_count_overlapping_all(rest, lo, hi);
        assert(files[files.len() - 1].spec_overlaps_time_range(lo, hi));
    }
}

/// The files of a level are files that were given, and they are of that
/// level.
pub proof fn lemma_files_at_level_members(files: Seq<ParquetFile>, level: CompactionLevel, j: int)
    requires
        0 <= j < files_at_level(files, level).len(),
    ensures
        files.contains(files_at_level(files, level)[j]),
        files_at_level(files, level)[j].compaction_level == level,
{
    let selected = files_at_level(files, level);
    files.lemma_filter_pred(is_at_level(level), j);
    assert(selected.contains(selected[j]));
    files.lemma_filter_contains_rev(is_at_level(level), selected[j]);
}

/// Among the files of a level, those of that level are all of them, and
/// those of another level are none.
pub proof fn lemma_files_at_level_twice(
    files: Seq<ParquetFile>,
    first: CompactionLevel,
    second: CompactionLevel,
)
    ensures
        files_at_level(files_at_level(files, first), second) == if first == second {
            files_at_level(files, first)
        } else {
            Seq::<ParquetFile>::empty()
        },
    decreases files.len(),
{
    lemma_files_at_level_empty(first);
    lemma_files_at_level_empty(second);
    if files.len() > 0 {
        let rest = files.drop_last();
        let f = files.last();
        assert(files =~= rest.push(f));
        lemma_files_at_level_twice(rest, first, second);
        lemma_files_at_level_push(rest, f, first);
        lemma_files_at_level_push(files_at_level(rest, first), f, second);
    } else {
        assert(files =~= Seq::<ParquetFile>::empty());
    }
}

} // verus!
