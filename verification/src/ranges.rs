//! Time ranges of roughly even data volume within a chain of files.
//!
//! Nothing is known of how the rows of a file are spread over its time range
//! without reading it, so the bytes of each file are taken to be spread
//! evenly. Between two neighbouring points at which some file starts or ends,
//! the data volume per timestamp is then constant.
//!
//! The bytes of a file are counted from its start: a range holds what lies up
//! to its end less what lies before its start. Rounding therefore loses no
//! byte, and ranges that follow each other hold together what the range that
//! they make up holds.
use crate::chains::{lemma_max_time_of, max_time_of};
use crate::file::{all_well_formed, total_bytes, ParquetFile};
use crate::times::{is_strictly_increasing, lemma_sort_dedup, sort_and_dedup, sort_dedup};
use vstd::prelude::*;

verus! {

/// A time range and the data volume estimated to lie in it.
#[derive(Clone, Copy, Debug, PartialEq, Eq, Structural)]
pub struct FileRange {
    /// First timestamp of the range.
    pub min: i64,
    /// Last timestamp of the range.
    pub max: i64,
    /// Estimated number of bytes in the range.
    pub cap: u128,
}

/// The earliest start among the files, and the largest timestamp there is
/// where there are no files.
pub open spec fn min_time_of(files: Seq<ParquetFile>) -> int
    decreases files.len(),
{
    if files.len() == 0 {
        i64::MAX as int
    } else {
        let before = min_time_of(files.drop_last());
        if files.last().min_time < before {
            files.last().min_time as int
        } else {
            before
        }
    }
}

/// The number of timestamps of the file up to `t`.
pub open spec fn timestamps_up_to(f: ParquetFile, t: int) -> int {
    if t < f.min_time || f.max_time < f.min_time {
        0
    } else if t >= f.max_time {
        f.max_time - f.min_time + 1
    } else {
        t - f.min_time + 1
    }
}

/// The bytes of the file that lie at timestamps up to `t` when its bytes are
/// spread evenly over its time range, rounded down.
pub open spec fn bytes_up_to(f: ParquetFile, t: int) -> int {
    if timestamps_up_to(f, t) == 0 {
        0
    } else {
        f.file_size_bytes * timestamps_up_to(f, t) / (f.max_time - f.min_time + 1)
    }
}

/// The bytes of the file estimated to lie in `[lo, hi]`: those up to `hi`
/// less those before `lo`.
pub open spec fn estimated_bytes(f: ParquetFile, lo: int, hi: int) -> int {
    if hi < lo {
        0
    } else {
        bytes_up_to(f, hi) - bytes_up_to(f, lo - 1)
    }
}

/// The bytes of all the files estimated to fall into `[lo, hi]`.
pub open spec fn estimated_total(files: Seq<ParquetFile>, lo: int, hi: int) -> int
    decreases files.len(),
{
    if files.len() == 0 {
        0
    } else {
        estimated_total(files.drop_last(), lo, hi) + estimated_bytes(files.last(), lo, hi)
    }
}

/// No file starts earlier than `min_time_of` says, and one of them starts then.
pub proof fn lemma_min_time_of(files: Seq<ParquetFile>)
    ensures
        forall|j: int| 0 <= j < files.len() ==> files[j].min_time >= min_time_of(files),
        files.len() > 0 ==> exists|j: int|
            0 <= j < files.len() && files[j].min_time == min_time_of(files),
        i64::MIN <= min_time_of(files) <= i64::MAX,
    decreases files.len(),
{
    if files.len() > 0 {
        let rest = files.drop_last();
        lemma_min_time_of(rest);
        assert forall|j: int| 0 <= j < files.len() implies files[j].min_time >= min_time_of(
            files,
        ) by {
            if j < rest.len() {
                assert(rest[j].min_time >= min_time_of(rest));
            }
        }
        if files.last().min_time < min_time_of(rest) || rest.len() == 0 {
            assert(files[files.len() - 1].min_time == min_time_of(files));
        } else {
            let j = choose|j: int| 0 <= j < rest.len() && rest[j].min_time == min_time_of(rest);
            assert(files[j].min_time == min_time_of(files));
        }
    }
}

/// The bytes of a file up to a timestamp grow with the timestamp, from none
/// before the file starts to all of them once it has ended.
pub proof fn lemma_bytes_up_to(f: ParquetFile, earlier: int, later: int)
    requires
        earlier <= later,
    ensures
        0 <= bytes_up_to(f, earlier) <= bytes_up_to(f, later) <= f.file_size_bytes,
        earlier < f.min_time ==> bytes_up_to(f, earlier) == 0,
        f.well_formed() && f.max_time <= later ==> bytes_up_to(f, later) == f.file_size_bytes,
{
    let size = f.file_size_bytes as int;
    let width = f.max_time - f.min_time + 1;
    let few = timestamps_up_to(f, earlier);
    let many = timestamps_up_to(f, later);
    if many > 0 {
        assert(0 <= size * few / width <= size * many / width <= size) by (nonlinear_arith)
            requires
                0 <= size,
                0 <= few <= many <= width,
                0 < width,
        ;
        if many == width {
            assert(size * width / width == size) by (nonlinear_arith)
                requires
                    0 < width,
            ;
        }
    }
}

/// A file is never estimated to hold more in a range than it holds in all.
pub proof fn lemma_estimated_bytes_bound(f: ParquetFile, lo: int, hi: int)
    ensures
        0 <= estimated_bytes(f, lo, hi) <= f.file_size_bytes,
{
    if lo <= hi {
        lemma_bytes_up_to(f, lo - 1, hi);
    }
}

/// Ranges that follow each other hold together what the range that they
/// make up holds.
pub proof fn lemma_estimated_total_add(files: Seq<ParquetFile>, lo: int, mid: int, hi: int)
    requires
        lo <= mid < hi,
    ensures
        estimated_total(files, lo, hi) == estimated_total(files, lo, mid) + estimated_total(
            files,
            mid + 1,
            hi,
        ),
    decreases files.len(),
{
    if files.len() > 0 {
        lemma_estimated_total_add(files.drop_last(), lo, mid, hi);
    }
}

/// A range that no file reaches beyond holds all bytes of the files.
pub proof fn lemma_estimated_total_all(files: Seq<ParquetFile>, lo: int, hi: int)
    requires
        all_well_formed(files),
        forall|j: int| 0 <= j < files.len() ==> lo <= (#[trigger] files[j]).min_time,
        forall|j: int| 0 <= j < files.len() ==> (#[trigger] files[j]).max_time <= hi,
    ensures
        estimated_total(files, lo, hi) == total_bytes(files),
    decreases files.len(),
{
    if files.len() > 0 {
        let rest = files.drop_last();
        let f = files.last();
        assert(all_well_formed(rest)) by {
            assert forall|j: int| 0 <= j < rest.len() implies (#[trigger] rest[j]).well_formed() by {
                assert(files[j].well_formed());
            }
        }
        assert forall|j: int| 0 <= j < rest.len() implies lo <= (#[trigger] rest[j]).min_time by {
            assert(lo <= files[j].min_time);
        }
        assert forall|j: int| 0 <= j < rest.len() implies (#[trigger] rest[j]).max_time <= hi by {
            assert(files[j].max_time <= hi);
        }
        lemma_estimated_total_all(rest, lo, hi);
        assert(f == files[files.len() - 1]);
        assert(f.well_formed());
        lemma_bytes_up_to(f, lo - 1, hi);
    }
}

/// The estimate for a set of files is bounded by their number.
pub proof fn lemma_estimated_total_bound(files: Seq<ParquetFile>, lo: int, hi: int)
    ensures
        0 <= estimated_total(files, lo, hi) <= files.len() * u64::MAX,
    decreases files.len(),
{
    if files.len() > 0 {
        lemma_estimated_total_bound(files.drop_last(), lo, hi);
        lemma_estimated_bytes_bound(files.last(), lo, hi);
    }
}

/// Returns the earliest start among the files.
pub fn earliest_start(files: &Vec<ParquetFile>) -> (t: i64)
    ensures
        t == min_time_of(files@),
{
    let mut t: i64 = i64::MAX;
    let mut i: usize = 0;
    while i < files.len()
        invariant
            i <= files.len(),
            t == min_time_of(files@.take(i as int)),
        decreases files.len() - i,
    {
        proof {
            assert(files@.take(i + 1).drop_last() =~= files@.take(i as int));
        }
        if files[i].min_time < t {
            t = files[i].min_time;
        }
        i += 1;
    }
    proof {
        assert(files@.take(files@.len() as int) =~= files@);
    }
    t
}

/// Returns the latest end among the files.
pub fn latest_end(files: &Vec<ParquetFile>) -> (t: i64)
    ensures
        t == max_time_of(files@),
{
    let mut t: i64 = i64::MIN;
    let mut i: usize = 0;
    while i < files.len()
        invariant
            i <= files.len(),
            t == max_time_of(files@.take(i as int)),
        decreases files.len() - i,
    {
        proof {
            assert(files@.take(i + 1).drop_last() =~= files@.take(i as int));
        }
        if files[i].max_time > t {
            t = files[i].max_time;
        }
        i += 1;
    }
    proof {
        assert(files@.take(files@.len() as int) =~= files@);
    }
    t
}

/// Returns the bytes of the file that lie at timestamps up to `t`.
pub fn file_bytes_up_to(f: &ParquetFile, t: i64) -> (bytes: u128)
    ensures
        bytes == bytes_up_to(*f, t as int),
        bytes <= f.file_size_bytes,
{
    proof {
        lemma_bytes_up_to(*f, t as int, t as int);
    }
    if t < f.min_time || f.max_time < f.min_time {
        return 0;
    }
    let last = if t >= f.max_time {
        f.max_time
    } else {
        t
    };
    let held: u128 = (last as i128 - f.min_time as i128 + 1) as u128;
    let width: u128 = (f.max_time as i128 - f.min_time as i128 + 1) as u128;
    let size: u128 = f.file_size_bytes as u128;
    assert(size * held <= u128::MAX) by (nonlinear_arith)
        requires
            size <= 0xffff_ffff_ffff_ffff,
            held <= 0x1_0000_0000_0000_0000,
    ;
    size * held / width
}

/// Returns the bytes of the file estimated to lie in `[lo, hi]`.
pub fn estimate_file_bytes(f: &ParquetFile, lo: i64, hi: i64) -> (bytes: u128)
    ensures
        bytes == estimated_bytes(*f, lo as int, hi as int),
        bytes <= f.file_size_bytes,
{
    if hi < lo {
        return 0;
    }
    proof {
        lemma_bytes_up_to(*f, lo - 1, hi as int);
    }
    let upper = file_bytes_up_to(f, hi);
    let lower = if lo == i64::MIN {
        0
    } else {
        file_bytes_up_to(f, lo - 1)
    };
    upper - lower
}

/// Returns the bytes of all the files estimated to fall into `[lo, hi]`.
pub fn estimate_bytes(files: &Vec<ParquetFile>, lo: i64, hi: i64) -> (bytes: u128)
    ensures
        bytes == estimated_total(files@, lo as int, hi as int),
{
    let mut bytes: u128 = 0;
    let mut i: usize = 0;
    while i < files.len()
        invariant
            i <= files.len(),
            bytes == estimated_total(files@.take(i as int), lo as int, hi as int),
            bytes <= i * u64::MAX,
        decreases files.len() - i,
    {
        proof {
            assert(files@.take(i + 1).drop_last() =~= files@.take(i as int));
        }
        let share = estimate_file_bytes(&files[i], lo, hi);
        bytes = bytes + share;
        i += 1;
    }
    proof {
        assert(files@.take(files@.len() as int) =~= files@);
    }
    bytes
}

/// The timestamps within `(lo, hi]` at which the data volume changes because
/// of the file: where it starts, and just behind where it ends.
pub open spec fn file_cuts(f: ParquetFile, lo: int, hi: int) -> Seq<i64> {
    let start = if lo < f.min_time <= hi {
        seq![f.min_time]
    } else {
        Seq::empty()
    };
    let end = if lo <= f.max_time < hi {
        seq![(f.max_time + 1) as i64]
    } else {
        Seq::empty()
    };
    start + end
}

/// The timestamps within `(lo, hi]` at which the data volume changes.
pub open spec fn chain_cuts(files: Seq<ParquetFile>, lo: int, hi: int) -> Seq<i64>
    decreases files.len(),
{
    if files.len() == 0 {
        Seq::empty()
    } else {
        chain_cuts(files.drop_last(), lo, hi) + file_cuts(files.last(), lo, hi)
    }
}

/// The first timestamps of the segments of constant data volume that the time
/// span of the files falls into, in increasing order.
pub open spec fn segment_starts(files: Seq<ParquetFile>) -> Seq<i64> {
    let lo = min_time_of(files);
    let hi = max_time_of(files);
    sort_dedup(seq![lo as i64] + chain_cuts(files, lo, hi))
}

/// The last timestamp of the segment that begins at `starts[k]`, where the
/// last segment ends at `hi`.
pub open spec fn segment_end(starts: Seq<i64>, k: int, hi: int) -> int {
    if k + 1 < starts.len() {
        starts[k + 1] - 1
    } else {
        hi
    }
}

/// The ranges that the first `n` segments make: a segment joins the range
/// before it while the estimate for the range stays at or below
/// `max_compact_size` bytes, and starts a range of its own otherwise.
pub open spec fn merge_segments(
    files: Seq<ParquetFile>,
    starts: Seq<i64>,
    hi: int,
    max_compact_size: int,
    n: int,
) -> Seq<FileRange>
    decreases n,
{
    if n <= 0 {
        Seq::empty()
    } else {
        let before = merge_segments(files, starts, hi, max_compact_size, n - 1);
        let first = starts[n - 1];
        let last = segment_end(starts, n - 1, hi);
        let bytes = estimated_total(files, first as int, last);
        if before.len() > 0 && before.last().cap + bytes <= max_compact_size {
            before.drop_last().push(
                FileRange {
                    min: before.last().min,
                    max: last as i64,
                    cap: (before.last().cap + bytes) as u128,
                },
            )
        } else {
            before.push(FileRange { min: first, max: last as i64, cap: bytes as u128 })
        }
    }
}

/// The time span of the files cut into ranges of roughly even data volume.
/// There are none where there are no files, or where no file holds a
/// timestamp.
pub open spec fn linear_ranges(files: Seq<ParquetFile>, max_compact_size: int) -> Seq<FileRange> {
    if files.len() == 0 || max_time_of(files) < min_time_of(files) {
        Seq::empty()
    } else {
        let starts = segment_starts(files);
        merge_segments(files, starts, max_time_of(files), max_compact_size, starts.len() as int)
    }
}

/// Whether the ranges are not empty, follow each other without a gap, and
/// fill `[lo, hi]`.
pub open spec fn is_tiling(ranges: Seq<FileRange>, lo: int, hi: int) -> bool {
    &&& ranges.len() > 0
    &&& ranges[0].min == lo
    &&& ranges.last().max == hi
    &&& forall|r: int| 0 <= r < ranges.len() ==> (#[trigger] ranges[r]).min <= ranges[r].max
    &&& forall|r: int| 0 < r < ranges.len() ==> (#[trigger] ranges[r]).min == ranges[r - 1].max + 1
}

/// A range that holds more than `max_compact_size` bytes is one segment: the
/// data volume per timestamp is constant in it.
pub open spec fn is_even_or_small(
    ranges: Seq<FileRange>,
    starts: Seq<i64>,
    hi: int,
    max_compact_size: int,
) -> bool {
    forall|r: int|
        0 <= r < ranges.len() && (#[trigger] ranges[r]).cap > max_compact_size ==> exists|k: int|
            0 <= k < starts.len() && ranges[r].min == starts[k] && ranges[r].max == segment_end(
                starts,
                k,
                hi,
            )
}

/// All cuts lie within `(lo, hi]`.
proof fn lemma_chain_cuts_bounds(files: Seq<ParquetFile>, lo: int, hi: int)
    requires
        i64::MIN <= lo <= hi <= i64::MAX,
    ensures
        forall|k: int|
            0 <= k < chain_cuts(files, lo, hi).len() ==> lo < (#[trigger] chain_cuts(
                files,
                lo,
                hi,
            )[k]) <= hi,
    decreases files.len(),
{
    if files.len() > 0 {
        let before = chain_cuts(files.drop_last(), lo, hi);
        let here = file_cuts(files.last(), lo, hi);
        lemma_chain_cuts_bounds(files.drop_last(), lo, hi);
        assert forall|k: int| 0 <= k < (before + here).len() implies lo < (#[trigger] (before
            + here)[k]) <= hi by {
            if k < before.len() {
                assert((before + here)[k] == before[k]);
            } else {
                assert((before + here)[k] == here[k - before.len()]);
            }
        }
    }
}

/// The segment starts are strictly increasing, begin with the earliest start
/// of a file and do not pass the latest end.
pub proof fn lemma_segment_starts(files: Seq<ParquetFile>)
    requires
        files.len() > 0,
        min_time_of(files) <= max_time_of(files),
    ensures
        is_strictly_increasing(segment_starts(files)),
        segment_starts(files).len() > 0,
        segment_starts(files)[0] == min_time_of(files),
        forall|k: int|
            0 <= k < segment_starts(files).len() ==> (#[trigger] segment_starts(files)[k])
                <= max_time_of(files),
{
    let lo = min_time_of(files);
    let hi = max_time_of(files);
    lemma_min_time_of(files);
    lemma_max_time_of(files);
    let cuts = seq![lo as i64] + chain_cuts(files, lo, hi);
    let starts = segment_starts(files);
    lemma_chain_cuts_bounds(files, lo, hi);
    lemma_sort_dedup(cuts);
    assert(cuts[0] == lo);
    assert(cuts.contains(lo as i64));
    assert(starts.to_set().contains(lo as i64));
    assert(starts.contains(lo as i64));
    let at = choose|i: int| 0 <= i < starts.len() && starts[i] == lo as i64;
    assert forall|k: int| 0 <= k < starts.len() implies lo <= (#[trigger] starts[k]) <= hi by {
        assert(starts.contains(starts[k]));
        assert(starts.to_set().contains(starts[k]));
        assert(cuts.contains(starts[k]));
        let i = choose|i: int| 0 <= i < cuts.len() && cuts[i] == starts[k];
        if i > 0 {
            assert(cuts[i] == chain_cuts(files, lo, hi)[i - 1]);
        }
    }
    if at > 0 {
        assert(starts[0] < starts[at]);
    }
}

/// Whether the file holds all timestamps of `[lo, hi]` or none of them.
pub open spec fn covers_or_misses(f: ParquetFile, lo: int, hi: int) -> bool {
    (f.min_time <= lo && hi <= f.max_time) || !f.spec_overlaps_time_range(lo, hi)
}

/// The cuts of each file are among the cuts of all files.
proof fn lemma_chain_cuts_hold_file_cuts(files: Seq<ParquetFile>, lo: int, hi: int, j: int, x: i64)
    requires
        0 <= j < files.len(),
        file_cuts(files[j], lo, hi).contains(x),
    ensures
        chain_cuts(files, lo, hi).contains(x),
    decreases files.len(),
{
    let before = chain_cuts(files.drop_last(), lo, hi);
    let here = file_cuts(files.last(), lo, hi);
    if j == files.len() - 1 {
        let i = choose|i: int| 0 <= i < here.len() && here[i] == x;
        assert((before + here)[before.len() + i] == x);
    } else {
        lemma_chain_cuts_hold_file_cuts(files.drop_last(), lo, hi, j, x);
        let i = choose|i: int| 0 <= i < before.len() && before[i] == x;
        assert((before + here)[i] == x);
    }
}

/// No cut of a file lies inside a segment: a cut that lies behind the start
/// of a segment lies behind its end.
proof fn lemma_no_cut_inside_segment(files: Seq<ParquetFile>, k: int, j: int, x: i64)
    requires
        files.len() > 0,
        min_time_of(files) <= max_time_of(files),
        0 <= k < segment_starts(files).len(),
        0 <= j < files.len(),
        file_cuts(files[j], min_time_of(files), max_time_of(files)).contains(x),
        segment_starts(files)[k] < x,
    ensures
        segment_end(segment_starts(files), k, max_time_of(files)) < x,
{
    let lo = min_time_of(files);
    let hi = max_time_of(files);
    let starts = segment_starts(files);
    let cuts = seq![lo as i64] + chain_cuts(files, lo, hi);
    lemma_min_time_of(files);
    lemma_chain_cuts_hold_file_cuts(files, lo, hi, j, x);
    let i = choose|i: int|
        0 <= i < chain_cuts(files, lo, hi).len() && chain_cuts(files, lo, hi)[i] == x;
    assert(cuts[i + 1] == x);
    assert(cuts.contains(x));
    lemma_sort_dedup(cuts);
    assert(starts.to_set().contains(x));
    assert(starts.contains(x));
    let m = choose|m: int| 0 <= m < starts.len() && starts[m] == x;
    if m <= k {
        if m < k {
            assert(starts[m] < starts[k]);
        }
    } else if m > k + 1 {
        assert(starts[k + 1] < starts[m]);
    }
}

/// In a segment the data volume per timestamp is constant: each file holds
/// all timestamps of the segment or none of them.
pub proof fn lemma_segments_are_even(files: Seq<ParquetFile>, k: int, j: int)
    requires
        files.len() > 0,
        min_time_of(files) <= max_time_of(files),
        0 <= k < segment_starts(files).len(),
        0 <= j < files.len(),
    ensures
        covers_or_misses(
            files[j],
            segment_starts(files)[k] as int,
            segment_end(segment_starts(files), k, max_time_of(files)),
        ),
{
    let lo = min_time_of(files);
    let hi = max_time_of(files);
    let starts = segment_starts(files);
    let first = starts[k] as int;
    let last = segment_end(starts, k, hi);
    let f = files[j];
    lemma_segment_starts(files);
    lemma_min_time_of(files);
    lemma_max_time_of(files);
    assert(lo <= first) by {
        if k > 0 {
            assert(starts[0] < starts[k]);
        }
    }
    assert(last <= hi) by {
        if k + 1 < starts.len() {
            assert(starts[k + 1] <= hi);
        }
    }
    if f.spec_overlaps_time_range(first, last) {
        if f.min_time > first {
            let x = f.min_time;
            assert(file_cuts(f, lo, hi)[0] == x);
            assert(file_cuts(f, lo, hi).contains(x));
            lemma_no_cut_inside_segment(files, k, j, x);
        }
        if f.max_time < last {
            let x = (f.max_time + 1) as i64;
            let own = file_cuts(f, lo, hi);
            assert(own[own.len() - 1] == x);
            assert(own.contains(x));
            lemma_no_cut_inside_segment(files, k, j, x);
        }
    }
}

/// The ranges made of the first `n` segments fill the time span up to the end
/// of the last of these segments, and a range over the size limit is a single
/// segment.
pub proof fn lemma_merge_segments(
    files: Seq<ParquetFile>,
    starts: Seq<i64>,
    hi: int,
    max_compact_size: int,
    n: int,
)
    requires
        is_strictly_increasing(starts),
        0 < n <= starts.len(),
        forall|k: int| 0 <= k < starts.len() ==> (#[trigger] starts[k]) <= hi,
        hi <= i64::MAX,
        0 <= max_compact_size,
    ensures
        is_tiling(
            merge_segments(files, starts, hi, max_compact_size, n),
            starts[0] as int,
            segment_end(starts, n - 1, hi),
        ),
        is_even_or_small(
            merge_segments(files, starts, hi, max_compact_size, n),
            starts,
            hi,
            max_compact_size,
        ),
        merge_segments(files, starts, hi, max_compact_size, n).len() <= n,
    decreases n,
{
    let now = merge_segments(files, starts, hi, max_compact_size, n);
    let before = merge_segments(files, starts, hi, max_compact_size, n - 1);
    let first = starts[n - 1];
    let last = segment_end(starts, n - 1, hi);
    let bytes = estimated_total(files, first as int, last);
    lemma_estimated_total_bound(files, first as int, last);
    assert(first <= last <= hi) by {
        if n < starts.len() {
            assert(starts[n - 1] < starts[n]);
        }
    }
    if n == 1 {
        assert(before.len() == 0);
        assert(now[0].min == starts[0]);
    } else {
        lemma_merge_segments(files, starts, hi, max_compact_size, n - 1);
        assert(segment_end(starts, n - 2, hi) == first - 1);
        if before.len() > 0 && before.last().cap + bytes <= max_compact_size {
            let e = before.len() - 1;
            assert forall|r: int| 0 <= r < now.len() implies (#[trigger] now[r]).min
                <= now[r].max by {
                if r < e {
                    assert(now[r] == before[r]);
                } else {
                    assert(before[e].min <= before[e].max);
                }
            }
            assert forall|r: int| 0 < r < now.len() implies (#[trigger] now[r]).min == now[r
                - 1].max + 1 by {
                assert(now[r - 1] == before[r - 1]);
                assert(before[r].min == before[r - 1].max + 1);
            }
            assert forall|r: int|
                0 <= r < now.len() && (#[trigger] now[r]).cap > max_compact_size implies exists|
                k: int,
            |
                0 <= k < starts.len() && now[r].min == starts[k] && now[r].max == segment_end(
                    starts,
                    k,
                    hi,
                ) by {
                assert(r < e);
                assert(now[r] == before[r]);
            }
        } else {
            let e = before.len() as int;
            assert forall|r: int| 0 <= r < now.len() implies (#[trigger] now[r]).min
                <= now[r].max by {
                if r < e {
                    assert(now[r] == before[r]);
                }
            }
            assert forall|r: int| 0 < r < now.len() implies (#[trigger] now[r]).min == now[r
                - 1].max + 1 by {
                assert(now[r - 1] == before[r - 1]);
                if r < e {
                    assert(before[r].min == before[r - 1].max + 1);
                }
            }
            assert forall|r: int|
                0 <= r < now.len() && (#[trigger] now[r]).cap > max_compact_size implies exists|
                k: int,
            |
                0 <= k < starts.len() && now[r].min == starts[k] && now[r].max == segment_end(
                    starts,
                    k,
                    hi,
                ) by {
                if r < e {
                    assert(now[r] == before[r]);
                } else {
                    assert(now[r].min == starts[n - 1] && now[r].max == segment_end(
                        starts,
                        n - 1,
                        hi,
                    ));
                }
            }
        }
    }
}

/// Ranges that fill a time span start in order, from the start of the span
/// on.
pub proof fn lemma_tiling_starts(ranges: Seq<FileRange>, lo: int, hi: int, r: int)
    requires
        is_tiling(ranges, lo, hi),
        0 <= r < ranges.len(),
    ensures
        lo + r <= ranges[r].min,
    decreases r,
{
    if r > 0 {
        lemma_tiling_starts(ranges, lo, hi, r - 1);
        assert(ranges[r].min == ranges[r - 1].max + 1);
        assert(ranges[r - 1].min <= ranges[r - 1].max);
    }
}

/// Ranges that fill a time span end in order, up to the end of the span.
pub proof fn lemma_tiling_ends(ranges: Seq<FileRange>, lo: int, hi: int, r: int)
    requires
        is_tiling(ranges, lo, hi),
        0 <= r < ranges.len(),
    ensures
        ranges[r].max <= hi,
    decreases ranges.len() - r,
{
    if r < ranges.len() - 1 {
        lemma_tiling_ends(ranges, lo, hi, r + 1);
        assert(ranges[r + 1].min == ranges[r].max + 1);
        assert(ranges[r + 1].min <= ranges[r + 1].max);
    }
}

/// Whether each range holds what the files are estimated to hold in it.
pub open spec fn holds_estimates(ranges: Seq<FileRange>, files: Seq<ParquetFile>) -> bool {
    forall|r: int|
        0 <= r < ranges.len() ==> (#[trigger] ranges[r]).cap == estimated_total(
            files,
            ranges[r].min as int,
            ranges[r].max as int,
        )
}

/// The bytes that the ranges hold together.
pub open spec fn total_cap(ranges: Seq<FileRange>) -> int
    decreases ranges.len(),
{
    if ranges.len() == 0 {
        0
    } else {
        total_cap(ranges.drop_last()) + ranges.last().cap
    }
}

/// A range made of segments holds what the files are estimated to hold in
/// it: joining segments loses no byte.
pub proof fn lemma_merge_segments_estimates(
    files: Seq<ParquetFile>,
    starts: Seq<i64>,
    hi: int,
    max_compact_size: int,
    n: int,
)
    requires
        is_strictly_increasing(starts),
        0 < n <= starts.len(),
        forall|k: int| 0 <= k < starts.len() ==> (#[trigger] starts[k]) <= hi,
        hi <= i64::MAX,
        0 <= max_compact_size,
        files.len() <= usize::MAX,
    ensures
        holds_estimates(merge_segments(files, starts, hi, max_compact_size, n), files),
    decreases n,
{
    let now = merge_segments(files, starts, hi, max_compact_size, n);
    let before = merge_segments(files, starts, hi, max_compact_size, n - 1);
    let first = starts[n - 1];
    let last = segment_end(starts, n - 1, hi);
    let bytes = estimated_total(files, first as int, last);
    lemma_estimated_total_bound(files, first as int, last);
    assert(first <= last <= hi) by {
        if n < starts.len() {
            assert(starts[n - 1] < starts[n]);
        }
    }
    assert(files.len() * u64::MAX <= u128::MAX) by (nonlinear_arith)
        requires
            files.len() <= usize::MAX,
            usize::MAX <= u64::MAX,
            u64::MAX == 0xffff_ffff_ffff_ffff,
            u128::MAX == 0xffff_ffff_ffff_ffff_ffff_ffff_ffff_ffff,
    ;
    if n > 1 {
        lemma_merge_segments_estimates(files, starts, hi, max_compact_size, n - 1);
        lemma_merge_segments(files, starts, hi, max_compact_size, n - 1);
        assert(segment_end(starts, n - 2, hi) == first - 1);
        if before.len() > 0 && before.last().cap + bytes <= max_compact_size {
            let e = before.len() - 1;
            assert(before[e].min <= before[e].max);
            assert(before[e].cap == estimated_total(
                files,
                before[e].min as int,
                before[e].max as int,
            ));
            lemma_estimated_total_add(files, before[e].min as int, first - 1, last);
            lemma_estimated_total_bound(files, before[e].min as int, last);
            assert forall|r: int| 0 <= r < now.len() implies (#[trigger] now[r]).cap
                == estimated_total(files, now[r].min as int, now[r].max as int) by {
                if r < e {
                    assert(now[r] == before[r]);
                }
            }
        } else {
            assert forall|r: int| 0 <= r < now.len() implies (#[trigger] now[r]).cap
                == estimated_total(files, now[r].min as int, now[r].max as int) by {
                if r < before.len() {
                    assert(now[r] == before[r]);
                }
            }
        }
    } else {
        assert(before.len() == 0);
    }
}

/// Ranges that fill a time span and hold what the files are estimated to
/// hold in them hold together what the files are estimated to hold in the
/// span.
pub proof fn lemma_total_cap(ranges: Seq<FileRange>, files: Seq<ParquetFile>, lo: int, hi: int)
    requires
        is_tiling(ranges, lo, hi),
        holds_estimates(ranges, files),
    ensures
        total_cap(ranges) == estimated_total(files, lo, hi),
    decreases ranges.len(),
{
    let rest = ranges.drop_last();
    let last = ranges.last();
    assert(last == ranges[ranges.len() - 1]);
    if ranges.len() == 1 {
        assert(total_cap(rest) == 0);
    } else {
        let e = ranges.len() - 2;
        assert(last.min == ranges[e].max + 1);
        assert(is_tiling(rest, lo, last.min - 1)) by {
            assert(rest[0] == ranges[0]);
            assert(rest.last() == ranges[e]);
            assert forall|r: int| 0 <= r < rest.len() implies (#[trigger] rest[r]).min
                <= rest[r].max by {
                assert(ranges[r].min <= ranges[r].max);
            }
            assert forall|r: int| 0 < r < rest.len() implies (#[trigger] rest[r]).min == rest[r
                - 1].max + 1 by {
                assert(ranges[r].min == ranges[r - 1].max + 1);
            }
        }
        assert(holds_estimates(rest, files)) by {
            assert forall|r: int| 0 <= r < rest.len() implies (#[trigger] rest[r]).cap
                == estimated_total(files, rest[r].min as int, rest[r].max as int) by {
                assert(ranges[r].cap == estimated_total(
                    files,
                    ranges[r].min as int,
                    ranges[r].max as int,
                ));
            }
        }
        lemma_total_cap(rest, files, lo, last.min - 1);
        assert(lo <= last.min - 1) by {
            lemma_tiling_starts(rest, lo, last.min - 1, e);
            assert(rest[e].min <= rest[e].max);
        }
        lemma_estimated_total_add(files, lo, last.min - 1, hi);
    }
}

/// The ranges of a chain carry all its bytes: each holds what the files are
/// estimated to hold in it, and together they hold what the files hold,
/// provided that no file has an empty time range.
pub proof fn lemma_linear_ranges_carry_all(files: Seq<ParquetFile>, max_compact_size: int)
    requires
        0 < files.len() <= usize::MAX,
        min_time_of(files) <= max_time_of(files),
        0 <= max_compact_size,
    ensures
        holds_estimates(linear_ranges(files, max_compact_size), files),
        all_well_formed(files) ==> total_cap(linear_ranges(files, max_compact_size))
            == total_bytes(files),
{
    let starts = segment_starts(files);
    let lo = min_time_of(files);
    let hi = max_time_of(files);
    let ranges = linear_ranges(files, max_compact_size);
    lemma_segment_starts(files);
    lemma_max_time_of(files);
    lemma_min_time_of(files);
    lemma_merge_segments(files, starts, hi, max_compact_size, starts.len() as int);
    lemma_merge_segments_estimates(files, starts, hi, max_compact_size, starts.len() as int);
    if all_well_formed(files) {
        lemma_total_cap(ranges, files, lo, hi);
        lemma_estimated_total_all(files, lo, hi);
    }
}

/// The ranges of a chain fill its time span without a gap, and a range over
/// the size limit is a single segment of constant data volume.
pub proof fn lemma_linear_ranges(files: Seq<ParquetFile>, max_compact_size: int)
    requires
        files.len() > 0,
        min_time_of(files) <= max_time_of(files),
        0 <= max_compact_size,
    ensures
        is_tiling(linear_ranges(files, max_compact_size), min_time_of(files), max_time_of(files)),
        is_even_or_small(
            linear_ranges(files, max_compact_size),
            segment_starts(files),
            max_time_of(files),
            max_compact_size,
        ),
{
    let starts = segment_starts(files);
    lemma_segment_starts(files);
    lemma_max_time_of(files);
    lemma_merge_segments(files, starts, max_time_of(files), max_compact_size, starts.len() as int);
}

/// Cuts the time span of a chain into ranges of roughly even data volume: no
/// range is estimated to hold more than `max_compact_size` bytes unless the
/// data volume per timestamp is constant in it. The ranges carry all bytes of
/// the chain, so that a chain over the limit is never one range within it.
pub fn linear_dist_ranges(chain: &Vec<ParquetFile>, max_compact_size: usize) -> (ranges: Vec<
    FileRange,
>)
    ensures
        ranges@ == linear_ranges(chain@, max_compact_size as int),
        chain@.len() > 0 && min_time_of(chain@) <= max_time_of(chain@) ==> is_tiling(
            ranges@,
            min_time_of(chain@),
            max_time_of(chain@),
        ),
        is_even_or_small(
            ranges@,
            segment_starts(chain@),
            max_time_of(chain@),
            max_compact_size as int,
        ),
        holds_estimates(ranges@, chain@),
        all_well_formed(chain@) ==> total_cap(ranges@) == total_bytes(chain@),
{
    let mut ranges: Vec<FileRange> = Vec::new();
    if chain.len() == 0 {
        return ranges;
    }
    let lo = earliest_start(chain);
    let hi = latest_end(chain);
    proof {
        lemma_min_time_of(chain@);
        lemma_max_time_of(chain@);
        if all_well_formed(chain@) {
            assert(chain@[0].well_formed());
            assert(lo <= chain@[0].min_time <= chain@[0].max_time <= hi);
        }
    }
    if hi < lo {
        return ranges;
    }
    let mut cuts: Vec<i64> = Vec::with_capacity(chain.len());
    cuts.push(lo);
    let mut i: usize = 0;
    while i < chain.len()
        invariant
            i <= chain.len(),
            lo <= hi,
            cuts@ == seq![lo] + chain_cuts(chain@.take(i as int), lo as int, hi as int),
        decreases chain.len() - i,
    {
        let f = &chain[i];
        let ghost before = cuts@;
        proof {
            assert(chain@.take(i + 1).drop_last() =~= chain@.take(i as int));
        }
        if lo < f.min_time && f.min_time <= hi {
            cuts.push(f.min_time);
        }
        if lo <= f.max_time && f.max_time < hi {
            cuts.push(f.max_time + 1);
        }
        proof {
            assert(cuts@ =~= before + file_cuts(*f, lo as int, hi as int));
            assert(cuts@ =~= seq![lo] + chain_cuts(chain@.take(i + 1), lo as int, hi as int));
        }
        i += 1;
    }
    proof {
        assert(chain@.take(chain@.len() as int) =~= chain@);
        lemma_segment_starts(chain@);
        lemma_linear_ranges(chain@, max_compact_size as int);
        lemma_linear_ranges_carry_all(chain@, max_compact_size as int);
    }
    let starts = sort_and_dedup(&cuts);
    let mut k: usize = 0;
    while k < starts.len()
        invariant
            k <= starts.len(),
            starts@ == segment_starts(chain@),
            is_strictly_increasing(starts@),
            forall|j: int| 0 <= j < starts@.len() ==> (#[trigger] starts@[j]) <= hi,
            ranges@ == merge_segments(
                chain@,
                starts@,
                hi as int,
                max_compact_size as int,
                k as int,
            ),
        decreases starts.len() - k,
    {
        let first = starts[k];
        let last = if k + 1 < starts.len() {
            proof {
                assert(starts@[k as int] < starts@[k + 1]);
            }
            starts[k + 1] - 1
        } else {
            hi
        };
        let bytes = estimate_bytes(chain, first, last);
        let n = ranges.len();
        if n > 0 && bytes <= max_compact_size as u128 && ranges[n - 1].cap
            <= max_compact_size as u128 - bytes {
            let ghost before = ranges@;
            let open = ranges[n - 1];
            ranges.set(n - 1, FileRange { min: open.min, max: last, cap: open.cap + bytes });
            proof {
                assert(ranges@ =~= before.drop_last().push(ranges@[n - 1]));
            }
        } else {
            ranges.push(FileRange { min: first, max: last, cap: bytes });
        }
        k += 1;
    }
    ranges
}

} // verus!
