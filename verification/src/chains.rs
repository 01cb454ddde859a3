//! Chains: maximal groups of files whose time ranges overlap transitively.
//!
//! Sorting the files by `min_time` turns the search for connected groups into
//! one sweep: a file continues the current chain exactly when it starts no
//! later than the latest end seen in that chain.
use crate::file::{lemma_total_bytes_add, total_bytes, total_file_size, ParquetFile};
use vstd::prelude::*;
use vstd::seq_lib::*;

verus! {

/// Whether the files are in order of non-decreasing `min_time`.
pub open spec fn is_sorted_by_min_time(s: Seq<ParquetFile>) -> bool {
    forall|i: int, j: int| 0 <= i <= j < s.len() ==> s[i].min_time <= s[j].min_time
}

/// Where `f` goes in `s` so that it follows every file that does not start
/// later than it: behind the last such file, looking from the end.
pub open spec fn insertion_point(s: Seq<ParquetFile>, f: ParquetFile) -> int
    decreases s.len(),
{
    if s.len() == 0 || s.last().min_time <= f.min_time {
        s.len() as int
    } else {
        insertion_point(s.drop_last(), f)
    }
}

/// The files in order of `min_time`; files with the same `min_time` keep
/// their order.
pub open spec fn sort_by_min_time(s: Seq<ParquetFile>) -> Seq<ParquetFile>
    decreases s.len(),
{
    if s.len() == 0 {
        s
    } else {
        let sorted = sort_by_min_time(s.drop_last());
        sorted.insert(insertion_point(sorted, s.last()), s.last())
    }
}

/// The insertion point lies behind every file that starts no later than `f`
/// and before every file that follows it.
pub proof fn lemma_insertion_point(s: Seq<ParquetFile>, f: ParquetFile)
    ensures
        0 <= insertion_point(s, f) <= s.len(),
        forall|k: int| insertion_point(s, f) <= k < s.len() ==> s[k].min_time > f.min_time,
        insertion_point(s, f) > 0 ==> s[insertion_point(s, f) - 1].min_time <= f.min_time,
    decreases s.len(),
{
    if s.len() == 0 || s.last().min_time <= f.min_time {
    } else {
        let rest = s.drop_last();
        lemma_insertion_point(rest, f);
        assert forall|k: int| insertion_point(s, f) <= k < s.len() implies s[k].min_time
            > f.min_time by {
            if k < rest.len() {
                assert(rest[k].min_time > f.min_time);
            }
        }
    }
}

/// Sorting keeps every file, exactly once, and puts the files in order.
pub proof fn lemma_sort_by_min_time(s: Seq<ParquetFile>)
    ensures
        is_sorted_by_min_time(sort_by_min_time(s)),
        sort_by_min_time(s).len() == s.len(),
        sort_by_min_time(s).to_multiset() == s.to_multiset(),
    decreases s.len(),
{
    if s.len() > 0 {
        let rest = s.drop_last();
        let f = s.last();
        let sorted = sort_by_min_time(rest);
        let p = insertion_point(sorted, f);
        lemma_sort_by_min_time(rest);
        lemma_insertion_point(sorted, f);
        to_multiset_insert(sorted, p, f);
        assert(s =~= rest.push(f));
        to_multiset_build(rest, f);
        let out = sorted.insert(p, f);
        assert forall|i: int, j: int| 0 <= i <= j < out.len() implies out[i].min_time
            <= out[j].min_time by {
            if i < p && j > p {
                assert(sorted[i].min_time <= sorted[j - 1].min_time);
            } else if i < p && j == p {
                assert(sorted[i].min_time <= sorted[p - 1].min_time);
            }
        }
    }
}

/// The test for a file that starts at `t`.
pub open spec fn starts_at(t: i64) -> spec_fn(ParquetFile) -> bool {
    |f: ParquetFile| f.min_time == t
}

/// Sorting is stable: the files that start at the same timestamp are in the
/// order in which they were given.
pub proof fn lemma_sort_is_stable(s: Seq<ParquetFile>, t: i64)
    ensures
        sort_by_min_time(s).filter(starts_at(t)) == s.filter(starts_at(t)),
    decreases s.len(),
{
    let same = starts_at(t);
    if s.len() > 0 {
        let rest = s.drop_last();
        let f = s.last();
        let sorted = sort_by_min_time(rest);
        let p = insertion_point(sorted, f);
        lemma_sort_is_stable(rest, t);
        lemma_insertion_point(sorted, f);
        let head = sorted.subrange(0, p);
        let tail = sorted.subrange(p, sorted.len() as int);
        assert(sorted =~= head + tail);
        assert(sorted.insert(p, f) =~= head.push(f) + tail);
        assert(s =~= rest.push(f));
        Seq::filter_distributes_over_add(head, tail, same);
        Seq::filter_distributes_over_add(head.push(f), tail, same);
        head.lemma_filter_push(f, same);
        rest.lemma_filter_push(f, same);
        if f.min_time == t {
            assert(tail.all(|x: ParquetFile| !same(x))) by {
                assert forall|i: int| 0 <= i < tail.len() implies !same(tail[i]) by {
                    assert(sorted[p + i].min_time > f.min_time);
                }
            }
            tail.lemma_all_neg_filter_empty(same);
            assert(head.filter(same) + tail.filter(same) =~= head.filter(same));
            assert(head.filter(same).push(f) + tail.filter(same) =~= head.filter(same).push(f));
        }
    }
}

/// Returns the files in order of `min_time`; files with the same `min_time`
/// keep their order.
pub fn sort_files_by_min_time(files: &Vec<ParquetFile>) -> (sorted: Vec<ParquetFile>)
    ensures
        sorted@ == sort_by_min_time(files@),
        is_sorted_by_min_time(sorted@),
        sorted@.to_multiset() == files@.to_multiset(),
{
    proof {
        lemma_sort_by_min_time(files@);
    }
    let mut sorted: Vec<ParquetFile> = Vec::with_capacity(files.len());
    let mut i: usize = 0;
    while i < files.len()
        invariant
            i <= files.len(),
            sorted@ == sort_by_min_time(files@.take(i as int)),
        decreases files.len() - i,
    {
        let f = files[i];
        let mut j: usize = sorted.len();
        proof {
            assert(sorted@.take(j as int) =~= sorted@);
        }
        while j > 0 && sorted[j - 1].min_time > f.min_time
            invariant
                j <= sorted.len(),
                insertion_point(sorted@, f) == insertion_point(sorted@.take(j as int), f),
            decreases j,
        {
            proof {
                assert(sorted@.take(j as int).drop_last() =~= sorted@.take(j - 1));
            }
            j -= 1;
        }
        proof {
            assert(files@.take(i + 1).drop_last() =~= files@.take(i as int));
        }
        sorted.insert(j, f);
        i += 1;
    }
    proof {
        assert(files@.take(files@.len() as int) =~= files@);
    }
    sorted
}

/// The latest end among the files, and the smallest timestamp there is where
/// there are no files.
pub open spec fn max_time_of(files: Seq<ParquetFile>) -> int
    decreases files.len(),
{
    if files.len() == 0 {
        i64::MIN as int
    } else {
        let before = max_time_of(files.drop_last());
        if files.last().max_time > before {
            files.last().max_time as int
        } else {
            before
        }
    }
}

/// The chains of files that are already in order of `min_time`: a file
/// continues the last chain when it starts no later than that chain ends, and
/// opens a new chain otherwise.
pub open spec fn chains_of_sorted(s: Seq<ParquetFile>) -> Seq<Seq<ParquetFile>>
    decreases s.len(),
{
    if s.len() == 0 {
        Seq::empty()
    } else {
        let before = chains_of_sorted(s.drop_last());
        let f = s.last();
        if before.len() > 0 && f.min_time <= max_time_of(before.last()) {
            before.drop_last().push(before.last().push(f))
        } else {
            before.push(seq![f])
        }
    }
}

/// The chains of a set of files, in order of time.
pub open spec fn chains_of(files: Seq<ParquetFile>) -> Seq<Seq<ParquetFile>> {
    chains_of_sorted(sort_by_min_time(files))
}

/// What a vector of chains holds.
pub open spec fn chains_view(chains: Seq<Vec<ParquetFile>>) -> Seq<Seq<ParquetFile>> {
    chains.map_values(|c: Vec<ParquetFile>| c@)
}

/// No file ends later than `max_time_of` says, and one of them ends then.
pub proof fn lemma_max_time_of(files: Seq<ParquetFile>)
    ensures
        forall|j: int| 0 <= j < files.len() ==> files[j].max_time <= max_time_of(files),
        files.len() > 0 ==> exists|j: int|
            0 <= j < files.len() && files[j].max_time == max_time_of(files),
        i64::MIN <= max_time_of(files) <= i64::MAX,
    decreases files.len(),
{
    if files.len() > 0 {
        let rest = files.drop_last();
        lemma_max_time_of(rest);
        assert forall|j: int| 0 <= j < files.len() implies files[j].max_time <= max_time_of(
            files,
        ) by {
            if j < rest.len() {
                assert(rest[j].max_time <= max_time_of(rest));
            }
        }
        if files.last().max_time > max_time_of(rest) || rest.len() == 0 {
            assert(files[files.len() - 1].max_time == max_time_of(files));
        } else {
            let j = choose|j: int| 0 <= j < rest.len() && rest[j].max_time == max_time_of(rest);
            assert(files[j].max_time == max_time_of(files));
        }
    }
}

/// Each file but the first starts no later than the files before it end: the
/// files hang together.
pub open spec fn is_linked(chain: Seq<ParquetFile>) -> bool {
    forall|k: int| 0 < k < chain.len() ==> (#[trigger] chain[k]).min_time <= max_time_of(chain.take(k))
}

/// Every file starts later than `bound`.
pub open spec fn starts_after(chain: Seq<ParquetFile>, bound: int) -> bool {
    forall|k: int| 0 <= k < chain.len() ==> (#[trigger] chain[k]).min_time > bound
}

/// No file starts later than `bound`.
pub open spec fn starts_by(chain: Seq<ParquetFile>, bound: int) -> bool {
    forall|k: int| 0 <= k < chain.len() ==> (#[trigger] chain[k]).min_time <= bound
}

/// What makes `chains` the chains of the sorted files `s`: together they are
/// `s`, none is empty, the files of each hang together, and every file of a
/// later chain starts after all of an earlier chain has ended.
pub open spec fn is_chain_partition(chains: Seq<Seq<ParquetFile>>, s: Seq<ParquetFile>) -> bool {
    &&& chains.flatten() == s
    &&& forall|c: int|
        0 <= c < chains.len() ==> {
            &&& (#[trigger] chains[c]).len() > 0
            &&& is_sorted_by_min_time(chains[c])
            &&& is_linked(chains[c])
        }
    &&& forall|c: int, d: int|
        0 <= c < d < chains.len() ==> starts_after(
            #[trigger] chains[d],
            max_time_of(#[trigger] chains[c]),
        )
}

proof fn lemma_push_keeps_chain(chain: Seq<ParquetFile>, f: ParquetFile)
    requires
        chain.len() > 0,
        is_sorted_by_min_time(chain),
        is_linked(chain),
        starts_by(chain, f.min_time as int),
        f.min_time <= max_time_of(chain),
    ensures
        is_sorted_by_min_time(chain.push(f)),
        is_linked(chain.push(f)),
        starts_by(chain.push(f), f.min_time as int),
{
    let grown = chain.push(f);
    assert forall|i: int, j: int| 0 <= i <= j < grown.len() implies grown[i].min_time
        <= grown[j].min_time by {
        if j < chain.len() {
            assert(chain[i].min_time <= chain[j].min_time);
        } else if i < chain.len() {
            assert(chain[i].min_time <= f.min_time);
        }
    }
    assert forall|k: int| 0 < k < grown.len() implies (#[trigger] grown[k]).min_time <= max_time_of(
        grown.take(k),
    ) by {
        if k == chain.len() {
            assert(grown.take(k) =~= chain);
        } else {
            assert(grown.take(k) =~= chain.take(k));
            assert(chain[k].min_time <= max_time_of(chain.take(k)));
        }
    }
    assert forall|k: int| 0 <= k < grown.len() implies (#[trigger] grown[k]).min_time
        <= f.min_time by {
        if k < chain.len() {
            assert(chain[k].min_time <= f.min_time);
        }
    }
}

proof fn lemma_push_starts_after(chain: Seq<ParquetFile>, f: ParquetFile, bound: int)
    requires
        starts_after(chain, bound),
        f.min_time > bound,
    ensures
        starts_after(chain.push(f), bound),
{
    let grown = chain.push(f);
    assert forall|k: int| 0 <= k < grown.len() implies (#[trigger] grown[k]).min_time > bound by {
        if k < chain.len() {
            assert(chain[k].min_time > bound);
        }
    }
}

/// No file of the chains starts later than `bound`.
spec fn all_start_by(chains: Seq<Seq<ParquetFile>>, bound: int) -> bool {
    forall|c: int| 0 <= c < chains.len() ==> starts_by(#[trigger] chains[c], bound)
}

proof fn lemma_extend_last_chain(before: Seq<Seq<ParquetFile>>, rest: Seq<ParquetFile>, f: ParquetFile)
    requires
        is_chain_partition(before, rest),
        all_start_by(before, f.min_time as int),
        before.len() > 0,
        f.min_time <= max_time_of(before.last()),
    ensures
        is_chain_partition(before.drop_last().push(before.last().push(f)), rest.push(f)),
        all_start_by(before.drop_last().push(before.last().push(f)), f.min_time as int),
{
    broadcast use Seq::lemma_flatten_push;

    let head = before.drop_last();
    let last = before.last();
    let grown = last.push(f);
    let now = head.push(grown);
    let e = before.len() - 1;
    assert(before =~= head.push(last));
    assert(now.flatten() =~= rest.push(f)) by {
        assert(head.push(last).flatten() =~= head.flatten() + last);
        assert(head.push(grown).flatten() =~= head.flatten() + grown);
    }
    assert(starts_by(before[e], f.min_time as int));
    lemma_push_keeps_chain(last, f);
    assert forall|c: int| 0 <= c < now.len() implies {
        &&& (#[trigger] now[c]).len() > 0
        &&& is_sorted_by_min_time(now[c])
        &&& is_linked(now[c])
        &&& starts_by(now[c], f.min_time as int)
    } by {
        if c < e {
            assert(now[c] == before[c]);
        }
    }
    assert forall|c: int, d: int| 0 <= c < d < now.len() implies starts_after(
        #[trigger] now[d],
        max_time_of(#[trigger] now[c]),
    ) by {
        assert(now[c] == before[c]);
        if d == e {
            assert(starts_after(before[d], max_time_of(before[c])));
            assert(before[d][0].min_time > max_time_of(before[c]));
            assert(before[d][0].min_time <= f.min_time);
            lemma_push_starts_after(last, f, max_time_of(before[c]));
        } else {
            assert(now[d] == before[d]);
        }
    }
}

proof fn lemma_open_new_chain(before: Seq<Seq<ParquetFile>>, rest: Seq<ParquetFile>, f: ParquetFile)
    requires
        is_chain_partition(before, rest),
        all_start_by(before, f.min_time as int),
        before.len() > 0 ==> f.min_time > max_time_of(before.last()),
    ensures
        is_chain_partition(before.push(seq![f]), rest.push(f)),
        all_start_by(before.push(seq![f]), f.min_time as int),
{
    broadcast use Seq::lemma_flatten_push;

    let single = seq![f];
    let now = before.push(single);
    let e = before.len() as int;
    assert(now.flatten() =~= rest.push(f)) by {
        assert(before.push(single).flatten() =~= before.flatten() + single);
    }
    assert(is_linked(single));
    assert(is_sorted_by_min_time(single));
    assert(starts_by(single, f.min_time as int));
    assert forall|c: int| 0 <= c < now.len() implies {
        &&& (#[trigger] now[c]).len() > 0
        &&& is_sorted_by_min_time(now[c])
        &&& is_linked(now[c])
        &&& starts_by(now[c], f.min_time as int)
    } by {
        if c < e {
            assert(now[c] == before[c]);
        }
    }
    assert forall|c: int, d: int| 0 <= c < d < now.len() implies starts_after(
        #[trigger] now[d],
        max_time_of(#[trigger] now[c]),
    ) by {
        assert(now[c] == before[c]);
        if d == e {
            if c < e - 1 {
                assert(starts_after(before[e - 1], max_time_of(before[c])));
                assert(before[e - 1][0].min_time > max_time_of(before[c]));
                assert(starts_by(before[e - 1], f.min_time as int));
                assert(before[e - 1][0].min_time <= f.min_time);
            }
            assert(single[0].min_time > max_time_of(before[c]));
        } else {
            assert(now[d] == before[d]);
        }
    }
}

proof fn lemma_chains_of_sorted_step(s: Seq<ParquetFile>)
    requires
        is_sorted_by_min_time(s),
    ensures
        is_chain_partition(chains_of_sorted(s), s),
        s.len() > 0 ==> all_start_by(chains_of_sorted(s), s.last().min_time as int),
    decreases s.len(),
{
    if s.len() == 0 {
        assert(chains_of_sorted(s).flatten() =~= s);
    } else {
        let rest = s.drop_last();
        let f = s.last();
        let before = chains_of_sorted(rest);
        assert(is_sorted_by_min_time(rest)) by {
            assert forall|i: int, j: int| 0 <= i <= j < rest.len() implies rest[i].min_time
                <= rest[j].min_time by {
                assert(s[i].min_time <= s[j].min_time);
            }
        }
        lemma_chains_of_sorted_step(rest);
        assert(s =~= rest.push(f));
        assert(all_start_by(before, f.min_time as int)) by {
            if rest.len() > 0 {
                assert(s[s.len() - 2].min_time <= s[s.len() - 1].min_time);
                assert forall|c: int| 0 <= c < before.len() implies starts_by(
                    #[trigger] before[c],
                    f.min_time as int,
                ) by {
                    assert(starts_by(before[c], rest.last().min_time as int));
                }
            }
        }
        if before.len() > 0 && f.min_time <= max_time_of(before.last()) {
            lemma_extend_last_chain(before, rest, f);
        } else {
            lemma_open_new_chain(before, rest, f);
        }
    }
}

/// The chains of a set of files hold every file exactly once, and they are
/// the maximal groups that hang together.
pub proof fn lemma_chains_partition(files: Seq<ParquetFile>)
    ensures
        is_chain_partition(chains_of(files), sort_by_min_time(files)),
        chains_of(files).flatten().to_multiset() == files.to_multiset(),
{
    lemma_sort_by_min_time(files);
    lemma_chains_of_sorted_step(sort_by_min_time(files));
}

/// What is in one of the sequences is in all of them put together.
proof fn lemma_flatten_contains(parts: Seq<Seq<ParquetFile>>, c: int, k: int)
    requires
        0 <= c < parts.len(),
        0 <= k < parts[c].len(),
    ensures
        parts.flatten().contains(parts[c][k]),
    decreases parts.len(),
{
    let rest = parts.drop_first();
    assert(parts.flatten() == parts.first() + rest.flatten());
    if c == 0 {
        assert(parts.flatten()[k] == parts[c][k]);
    } else {
        assert(rest[c - 1] == parts[c]);
        lemma_flatten_contains(rest, c - 1, k);
        let j = choose|j: int| 0 <= j < rest.flatten().len() && rest.flatten()[j] == parts[c][k];
        assert(parts.flatten()[parts.first().len() + j] == parts[c][k]);
    }
}

/// The files of the chains are files that were given.
pub proof fn lemma_chains_hold_given_files(files: Seq<ParquetFile>, c: int, k: int)
    requires
        0 <= c < chains_of(files).len(),
        0 <= k < chains_of(files)[c].len(),
    ensures
        files.contains(chains_of(files)[c][k]),
{
    let f = chains_of(files)[c][k];
    let sorted = sort_by_min_time(files);
    lemma_chains_partition(files);
    lemma_flatten_contains(chains_of(files), c, k);
    to_multiset_contains(sorted, f);
    to_multiset_contains(files, f);
}

/// Files of different chains never overlap in time.
pub proof fn lemma_chains_do_not_overlap(files: Seq<ParquetFile>, c: int, i: int, d: int, j: int)
    requires
        0 <= c < chains_of(files).len(),
        0 <= d < chains_of(files).len(),
        c != d,
        0 <= i < chains_of(files)[c].len(),
        0 <= j < chains_of(files)[d].len(),
    ensures
        !chains_of(files)[c][i].overlaps(chains_of(files)[d][j]),
{
    let chains = chains_of(files);
    lemma_chains_partition(files);
    lemma_max_time_of(chains[c]);
    lemma_max_time_of(chains[d]);
    if c < d {
        assert(starts_after(chains[d], max_time_of(chains[c])));
        assert(chains[d][j].min_time > max_time_of(chains[c]));
    } else {
        assert(starts_after(chains[c], max_time_of(chains[d])));
        assert(chains[c][i].min_time > max_time_of(chains[d]));
    }
}

/// Within a chain, every file but the first overlaps a file before it,
/// provided its own time range is not empty.
pub proof fn lemma_chain_hangs_together(files: Seq<ParquetFile>, c: int, k: int)
    requires
        0 <= c < chains_of(files).len(),
        0 < k < chains_of(files)[c].len(),
        chains_of(files)[c][k].well_formed(),
    ensures
        exists|j: int| 0 <= j < k && chains_of(files)[c][j].overlaps(chains_of(files)[c][k]),
{
    let chain = chains_of(files)[c];
    lemma_chains_partition(files);
    let before = chain.take(k);
    lemma_max_time_of(before);
    let j = choose|j: int| 0 <= j < before.len() && before[j].max_time == max_time_of(before);
    assert(chain[k].min_time <= max_time_of(before));
    assert(chain[j].min_time <= chain[k].min_time);
    assert(chain[j].overlaps(chain[k]));
}

/// Groups the files into chains: maximal groups of files whose time ranges
/// overlap transitively. The chains come in order of time, and so do the
/// files of each chain.
pub fn split_into_chains(files: Vec<ParquetFile>) -> (chains: Vec<Vec<ParquetFile>>)
    ensures
        chains_view(chains@) == chains_of(files@),
        is_chain_partition(chains_view(chains@), sort_by_min_time(files@)),
        chains_view(chains@).flatten().to_multiset() == files@.to_multiset(),
{
    let sorted = sort_files_by_min_time(&files);
    let mut chains: Vec<Vec<ParquetFile>> = Vec::new();
    let mut chain: Vec<ParquetFile> = Vec::new();
    let mut max_time: i64 = i64::MIN;
    let mut i: usize = 0;
    while i < sorted.len()
        invariant
            i <= sorted.len(),
            i == 0 ==> chains@.len() == 0 && chain@.len() == 0,
            i > 0 ==> chain@.len() > 0 && chains_view(chains@).push(chain@) == chains_of_sorted(
                sorted@.take(i as int),
            ),
            max_time == max_time_of(chain@),
        decreases sorted.len() - i,
    {
        let file = sorted[i];
        let ghost done = chains_view(chains@);
        let ghost open = chain@;
        let ghost upto = sorted@.take(i + 1);
        proof {
            assert(upto.drop_last() =~= sorted@.take(i as int));
            assert(upto.last() == file);
            assert(done.push(open).drop_last() =~= done);
            assert(open.push(file).drop_last() =~= open);
            assert(seq![file].drop_last() =~= Seq::<ParquetFile>::empty());
            assert(max_time_of(Seq::<ParquetFile>::empty()) == i64::MIN);
            assert(max_time_of(seq![file]) == file.max_time);
            lemma_max_time_of(open);
        }
        if chain.len() == 0 {
            max_time = file.max_time;
            chain.push(file);
            proof {
                assert(chain@ =~= seq![file]);
                assert(chains_of_sorted(upto.drop_last()) =~= Seq::<Seq<ParquetFile>>::empty());
                assert(done.push(chain@) =~= chains_of_sorted(upto));
            }
        } else if file.min_time <= max_time {
            if file.max_time > max_time {
                max_time = file.max_time;
            }
            chain.push(file);
            proof {
                assert(done.push(chain@) =~= chains_of_sorted(upto));
            }
        } else {
            chains.push(chain);
            chain = Vec::new();
            max_time = file.max_time;
            chain.push(file);
            proof {
                assert(chains_view(chains@) =~= done.push(open));
                assert(chain@ =~= seq![file]);
                assert(chains_view(chains@).push(chain@) =~= chains_of_sorted(upto));
            }
        }
        i += 1;
    }
    proof {
        assert(sorted@.take(sorted@.len() as int) =~= sorted@);
        lemma_chains_partition(files@);
    }
    if chain.len() > 0 {
        let ghost done = chains_view(chains@);
        let ghost closed = chain@;
        chains.push(chain);
        proof {
            assert(chains_view(chains@) =~= done.push(closed));
        }
    } else {
        proof {
            assert(chains_view(chains@) =~= Seq::<Seq<ParquetFile>>::empty());
        }
    }
    chains
}

/// Chains coalesced from the left: a chain joins the group before it while the
/// group stays at or below `max_total_size` bytes, and starts a group of its
/// own otherwise.
pub open spec fn merge_small_chains(chains: Seq<Seq<ParquetFile>>, max_total_size: int) -> Seq<
    Seq<ParquetFile>,
>
    decreases chains.len(),
{
    if chains.len() == 0 {
        Seq::empty()
    } else {
        let before = merge_small_chains(chains.drop_last(), max_total_size);
        let chain = chains.last();
        if before.len() > 0 && total_bytes(before.last()) + total_bytes(chain) <= max_total_size {
            before.drop_last().push(before.last() + chain)
        } else {
            before.push(chain)
        }
    }
}

/// Whether each group is one of the chains or holds no more than
/// `max_total_size` bytes.
pub open spec fn groups_are_chains_or_small(
    groups: Seq<Seq<ParquetFile>>,
    chains: Seq<Seq<ParquetFile>>,
    max_total_size: int,
) -> bool {
    forall|g: int|
        0 <= g < groups.len() ==> total_bytes(#[trigger] groups[g]) <= max_total_size || exists|
            c: int,
        |
            0 <= c < chains.len() && groups[g] == chains[c]
}

/// Coalescing keeps every file in its place, never makes more groups than
/// there were chains, and brings chains together only within the size that
/// is allowed.
pub proof fn lemma_merge_small_chains(chains: Seq<Seq<ParquetFile>>, max_total_size: int)
    ensures
        merge_small_chains(chains, max_total_size).flatten() == chains.flatten(),
        merge_small_chains(chains, max_total_size).len() <= chains.len(),
        chains.len() > 0 ==> merge_small_chains(chains, max_total_size).len() > 0,
        groups_are_chains_or_small(
            merge_small_chains(chains, max_total_size),
            chains,
            max_total_size,
        ),
    decreases chains.len(),
{
    broadcast use Seq::lemma_flatten_push;

    if chains.len() == 0 {
    } else {
        let rest = chains.drop_last();
        let chain = chains.last();
        let before = merge_small_chains(rest, max_total_size);
        let now = merge_small_chains(chains, max_total_size);
        lemma_merge_small_chains(rest, max_total_size);
        assert(chains =~= rest.push(chain));
        assert(rest.push(chain).flatten() =~= rest.flatten() + chain);
        if before.len() > 0 && total_bytes(before.last()) + total_bytes(chain) <= max_total_size {
            let head = before.drop_last();
            assert(before =~= head.push(before.last()));
            assert(head.push(before.last()).flatten() =~= head.flatten() + before.last());
            assert(head.push(before.last() + chain).flatten() =~= head.flatten() + (before.last()
                + chain));
            assert(head.flatten() + (before.last() + chain) =~= (head.flatten() + before.last())
                + chain);
            lemma_total_bytes_add(before.last(), chain);
        } else {
            assert(before.push(chain).flatten() =~= before.flatten() + chain);
        }
        assert forall|g: int| 0 <= g < now.len() implies total_bytes(#[trigger] now[g])
            <= max_total_size || exists|c: int| 0 <= c < chains.len() && now[g] == chains[c] by {
            if g < now.len() - 1 {
                assert(now[g] == before[g]);
                if total_bytes(before[g]) > max_total_size {
                    let c = choose|c: int| 0 <= c < rest.len() && before[g] == rest[c];
                    assert(now[g] == chains[c]);
                }
            } else if total_bytes(now[g]) > max_total_size {
                assert(now[g] == chains[chains.len() - 1]);
            }
        }
    }
}

/// Appends the files of `src` to `dst`.
fn append_files(dst: &mut Vec<ParquetFile>, src: &Vec<ParquetFile>)
    ensures
        final(dst)@ == old(dst)@ + src@,
{
    let mut i: usize = 0;
    while i < src.len()
        invariant
            i <= src.len(),
            dst@ == old(dst)@ + src@.take(i as int),
        decreases src.len() - i,
    {
        dst.push(src[i]);
        proof {
            assert(src@.take(i + 1) =~= src@.take(i as int).push(src@[i as int]));
        }
        i += 1;
    }
    proof {
        assert(src@.take(src@.len() as int) =~= src@);
    }
}

/// Coalesces adjacent chains while their combined size stays at or below
/// `max_total_size` bytes. The result serves to count groups of files, not to
/// decide what is compacted together.
pub fn merge_small_l0_chains(chains: Vec<Vec<ParquetFile>>, max_total_size: usize) -> (merged: Vec<
    Vec<ParquetFile>,
>)
    ensures
        chains_view(merged@) == merge_small_chains(chains_view(chains@), max_total_size as int),
        chains_view(merged@).flatten() == chains_view(chains@).flatten(),
        merged@.len() <= chains@.len(),
        groups_are_chains_or_small(
            chains_view(merged@),
            chains_view(chains@),
            max_total_size as int,
        ),
{
    let mut merged: Vec<Vec<ParquetFile>> = Vec::with_capacity(chains.len());
    let mut group_bytes: u128 = 0;
    let mut i: usize = 0;
    while i < chains.len()
        invariant
            i <= chains.len(),
            chains_view(merged@) == merge_small_chains(
                chains_view(chains@).take(i as int),
                max_total_size as int,
            ),
            merged@.len() > 0 ==> group_bytes == total_bytes(merged@.last()@),
        decreases chains.len() - i,
    {
        let chain = &chains[i];
        let bytes = total_file_size(chain.as_slice());
        let ghost before = chains_view(merged@);
        proof {
            assert(chains_view(chains@).take(i + 1).drop_last() =~= chains_view(chains@).take(
                i as int,
            ));
            assert(chains_view(chains@).take(i + 1).last() == chain@);
        }
        if merged.len() > 0 && bytes <= max_total_size as u128 && group_bytes
            <= max_total_size as u128 - bytes {
            let mut group = merged.pop().unwrap();
            proof {
                lemma_total_bytes_add(group@, chain@);
                assert(chains_view(merged@) =~= before.drop_last());
            }
            append_files(&mut group, chain);
            merged.push(group);
            group_bytes = group_bytes + bytes;
            proof {
                assert(chains_view(merged@) =~= before.drop_last().push(before.last() + chain@));
            }
        } else {
            let mut group: Vec<ParquetFile> = Vec::with_capacity(chain.len());
            append_files(&mut group, chain);
            merged.push(group);
            group_bytes = bytes;
            proof {
                assert(Seq::<ParquetFile>::empty() + chain@ =~= chain@);
                assert(chains_view(merged@) =~= before.push(chain@));
            }
        }
        i += 1;
    }
    proof {
        assert(chains_view(chains@).take(chains@.len() as int) =~= chains_view(chains@));
        lemma_merge_small_chains(chains_view(chains@), max_total_size as int);
    }
    merged
}

/// Whether the files can only stay alone: no two of them share a timestamp,
/// any two of them together hold more than `max_total_size` bytes, and where
/// there are several, none has an empty time range.
pub open spec fn stay_alone(files: Seq<ParquetFile>, max_total_size: int) -> bool {
    forall|i: int, j: int|
        0 <= i < files.len() && 0 <= j < files.len() && i != j ==> {
            &&& !(#[trigger] files[i]).overlaps(#[trigger] files[j])
            &&& files[i].file_size_bytes + files[j].file_size_bytes > max_total_size
            &&& files[i].well_formed()
        }
}

/// Each file as a chain of its own.
pub open spec fn each_alone(files: Seq<ParquetFile>) -> Seq<Seq<ParquetFile>> {
    files.map_values(|f: ParquetFile| seq![f])
}

/// Files that can only stay alone can only stay alone in whatever order
/// they come.
proof fn lemma_sort_keeps_alone(s: Seq<ParquetFile>, max_total_size: int)
    requires
        stay_alone(s, max_total_size),
    ensures
        stay_alone(sort_by_min_time(s), max_total_size),
    decreases s.len(),
{
    if s.len() > 0 {
        let rest = s.drop_last();
        let f = s.last();
        let e = s.len() - 1;
        let sorted = sort_by_min_time(rest);
        let p = insertion_point(sorted, f);
        let out = sorted.insert(p, f);
        assert(stay_alone(rest, max_total_size)) by {
            assert forall|i: int, j: int|
                0 <= i < rest.len() && 0 <= j < rest.len() && i != j implies {
                &&& !(#[trigger] rest[i]).overlaps(#[trigger] rest[j])
                &&& rest[i].file_size_bytes + rest[j].file_size_bytes > max_total_size
                &&& rest[i].well_formed()
            } by {
                assert(!s[i].overlaps(s[j]));
            }
        }
        lemma_sort_keeps_alone(rest, max_total_size);
        lemma_sort_by_min_time(rest);
        lemma_insertion_point(sorted, f);
        assert forall|i: int, j: int|
            0 <= i < out.len() && 0 <= j < out.len() && i != j implies {
            &&& !(#[trigger] out[i]).overlaps(#[trigger] out[j])
            &&& out[i].file_size_bytes + out[j].file_size_bytes > max_total_size
            &&& out[i].well_formed()
        } by {
            if i != p && j != p {
                let a = if i < p {
                    i
                } else {
                    i - 1
                };
                let b = if j < p {
                    j
                } else {
                    j - 1
                };
                assert(!sorted[a].overlaps(sorted[b]));
            } else {
                // One of the two is the new file, the other was given before it.
                let k = if i == p {
                    if j < p {
                        j
                    } else {
                        j - 1
                    }
                } else if i < p {
                    i
                } else {
                    i - 1
                };
                let other = sorted[k];
                assert(sorted.contains(other));
                to_multiset_contains(sorted, other);
                to_multiset_contains(rest, other);
                let m = choose|m: int| 0 <= m < rest.len() && rest[m] == other;
                assert(!s[m].overlaps(s[e]));
                assert(!s[e].overlaps(s[m]));
            }
        }
    }
}

/// Files in order that can only stay alone are chains of one file each.
proof fn lemma_chains_of_files_alone(s: Seq<ParquetFile>, max_total_size: int)
    requires
        is_sorted_by_min_time(s),
        stay_alone(s, max_total_size),
    ensures
        chains_of_sorted(s) == each_alone(s),
    decreases s.len(),
{
    if s.len() == 0 {
        assert(chains_of_sorted(s) =~= each_alone(s));
    } else {
        let rest = s.drop_last();
        let f = s.last();
        assert(is_sorted_by_min_time(rest)) by {
            assert forall|i: int, j: int| 0 <= i <= j < rest.len() implies rest[i].min_time
                <= rest[j].min_time by {
                assert(s[i].min_time <= s[j].min_time);
            }
        }
        assert(stay_alone(rest, max_total_size)) by {
            assert forall|i: int, j: int|
                0 <= i < rest.len() && 0 <= j < rest.len() && i != j implies {
                &&& !(#[trigger] rest[i]).overlaps(#[trigger] rest[j])
                &&& rest[i].file_size_bytes + rest[j].file_size_bytes > max_total_size
                &&& rest[i].well_formed()
            } by {
                assert(!s[i].overlaps(s[j]));
            }
        }
        lemma_chains_of_files_alone(rest, max_total_size);
        let before = each_alone(rest);
        if before.len() > 0 {
            let e = s.len() - 1;
            let single = seq![s[e - 1]];
            assert(before.last() == single);
            assert(single.drop_last() =~= Seq::<ParquetFile>::empty());
            assert(max_time_of(Seq::<ParquetFile>::empty()) == i64::MIN);
            assert(max_time_of(single) == s[e - 1].max_time);
            assert(!s[e - 1].overlaps(s[e]));
            assert(s[e].well_formed()) by {
                assert(!s[e].overlaps(s[e - 1]));
            }
            assert(s[e - 1].min_time <= s[e].min_time);
        }
        assert(before.push(seq![f]) =~= each_alone(s));
    }
}

/// Chains of one file each, of which any two hold more than
/// `max_total_size` bytes, are not coalesced.
proof fn lemma_merge_keeps_alone(s: Seq<ParquetFile>, max_total_size: int)
    requires
        stay_alone(s, max_total_size),
    ensures
        merge_small_chains(each_alone(s), max_total_size) == each_alone(s),
    decreases s.len(),
{
    if s.len() == 0 {
        assert(merge_small_chains(each_alone(s), max_total_size) =~= each_alone(s));
    } else {
        let rest = s.drop_last();
        let f = s.last();
        assert(stay_alone(rest, max_total_size)) by {
            assert forall|i: int, j: int|
                0 <= i < rest.len() && 0 <= j < rest.len() && i != j implies {
                &&& !(#[trigger] rest[i]).overlaps(#[trigger] rest[j])
                &&& rest[i].file_size_bytes + rest[j].file_size_bytes > max_total_size
                &&& rest[i].well_formed()
            } by {
                assert(!s[i].overlaps(s[j]));
            }
        }
        lemma_merge_keeps_alone(rest, max_total_size);
        assert(each_alone(s).drop_last() =~= each_alone(rest));
        assert(each_alone(s).last() == seq![f]);
        let before = each_alone(rest);
        let empty = Seq::<ParquetFile>::empty();
        assert(total_bytes(empty) == 0);
        assert(seq![f].drop_last() =~= empty);
        assert(total_bytes(seq![f]) == f.file_size_bytes);
        if before.len() > 0 {
            let e = s.len() - 1;
            let single = seq![s[e - 1]];
            assert(before.last() == single);
            assert(single.drop_last() =~= empty);
            assert(total_bytes(single) == s[e - 1].file_size_bytes);
            assert(!s[e - 1].overlaps(s[e]));
        }
        assert(before.push(seq![f]) =~= each_alone(s));
    }
}

/// Files that can only stay alone stay as many groups as they are: each is
/// a chain of its own, and no two chains are coalesced.
pub proof fn lemma_files_alone_stay_apart(files: Seq<ParquetFile>, max_total_size: int)
    requires
        stay_alone(files, max_total_size),
    ensures
        chains_of(files) == each_alone(sort_by_min_time(files)),
        merge_small_chains(chains_of(files), max_total_size) == chains_of(files),
        chains_of(files).len() == files.len(),
{
    let sorted = sort_by_min_time(files);
    lemma_sort_by_min_time(files);
    lemma_sort_keeps_alone(files, max_total_size);
    lemma_chains_of_files_alone(sorted, max_total_size);
    lemma_merge_keeps_alone(sorted, max_total_size);
}

} // verus!
