//! Ordered sets of timestamps, kept as strictly increasing sequences.
use vstd::prelude::*;

verus! {

/// Whether each timestamp is larger than the one before it.
pub open spec fn is_strictly_increasing(s: Seq<i64>) -> bool {
    forall|i: int, j: int| 0 <= i < j < s.len() ==> s[i] < s[j]
}

/// The number of timestamps at the front of `s` that come before `v`, found
/// from the end: what follows them is `v` or later.
pub open spec fn rank(s: Seq<i64>, v: i64) -> int
    decreases s.len(),
{
    if s.len() == 0 || s.last() < v {
        s.len() as int
    } else {
        rank(s.drop_last(), v)
    }
}

/// `s` with `v` put in its place, unless it is there already.
pub open spec fn insert_unique(s: Seq<i64>, v: i64) -> Seq<i64> {
    let r = rank(s, v);
    if r < s.len() && s[r] == v {
        s
    } else {
        s.insert(r, v)
    }
}

/// The timestamps of `s` in increasing order, each one once.
pub open spec fn sort_dedup(s: Seq<i64>) -> Seq<i64>
    decreases s.len(),
{
    if s.len() == 0 {
        s
    } else {
        insert_unique(sort_dedup(s.drop_last()), s.last())
    }
}

/// What `rank` says of a strictly increasing sequence.
pub proof fn lemma_rank(s: Seq<i64>, v: i64)
    requires
        is_strictly_increasing(s),
    ensures
        0 <= rank(s, v) <= s.len(),
        forall|k: int| 0 <= k < rank(s, v) ==> s[k] < v,
        forall|k: int| rank(s, v) <= k < s.len() ==> s[k] >= v,
    decreases s.len(),
{
    if s.len() == 0 {
    } else if s.last() < v {
        assert forall|k: int| 0 <= k < s.len() implies s[k] < v by {
            if k < s.len() - 1 {
                assert(s[k] < s[s.len() - 1]);
            }
        }
    } else {
        let rest = s.drop_last();
        assert(is_strictly_increasing(rest)) by {
            assert forall|i: int, j: int| 0 <= i < j < rest.len() implies rest[i] < rest[j] by {
                assert(s[i] < s[j]);
            }
        }
        lemma_rank(rest, v);
        assert forall|k: int| 0 <= k < rank(s, v) implies s[k] < v by {
            assert(rest[k] < v);
        }
        assert forall|k: int| rank(s, v) <= k < s.len() implies s[k] >= v by {
            if k < rest.len() {
                assert(rest[k] >= v);
            }
        }
    }
}

/// Putting a timestamp in its place keeps the order and adds just that
/// timestamp.
pub proof fn lemma_insert_unique(s: Seq<i64>, v: i64)
    requires
        is_strictly_increasing(s),
    ensures
        is_strictly_increasing(insert_unique(s, v)),
        insert_unique(s, v).to_set() == s.to_set().insert(v),
{
    let r = rank(s, v);
    let out = insert_unique(s, v);
    lemma_rank(s, v);
    if r < s.len() && s[r] == v {
        assert(s.contains(v));
        assert(out.to_set() =~= s.to_set().insert(v));
    } else {
        assert forall|i: int, j: int| 0 <= i < j < out.len() implies out[i] < out[j] by {
            if j < r {
                assert(s[i] < s[j]);
            } else if j == r {
                assert(s[i] < v);
            } else if i < r {
                assert(s[i] < v);
                assert(s[j - 1] >= v);
            } else if i == r {
                assert(s[j - 1] >= v);
            } else {
                assert(s[i - 1] < s[j - 1]);
            }
        }
        assert forall|x: i64| out.to_set().contains(x) <==> s.to_set().insert(v).contains(
            x,
        ) by {
            if out.contains(x) {
                let i = choose|i: int| 0 <= i < out.len() && out[i] == x;
                if i < r {
                    assert(s[i] == x);
                } else if i > r {
                    assert(s[i - 1] == x);
                }
            }
            if s.contains(x) {
                let i = choose|i: int| 0 <= i < s.len() && s[i] == x;
                if i < r {
                    assert(out[i] == x);
                } else {
                    assert(out[i + 1] == x);
                }
            }
            if x == v {
                assert(out[r] == x);
            }
        }
        assert(out.to_set() =~= s.to_set().insert(v));
    }
}

/// The result of `sort_dedup` is strictly increasing and holds exactly the
/// timestamps of its argument.
pub proof fn lemma_sort_dedup(s: Seq<i64>)
    ensures
        is_strictly_increasing(sort_dedup(s)),
        sort_dedup(s).to_set() == s.to_set(),
    decreases s.len(),
{
    if s.len() == 0 {
    } else {
        let rest = s.drop_last();
        lemma_sort_dedup(rest);
        lemma_insert_unique(sort_dedup(rest), s.last());
        assert(s =~= rest.push(s.last()));
        rest.lemma_push_to_set_commute(s.last());
    }
}

/// Returns the timestamps in increasing order, each one once.
pub fn sort_and_dedup(times: &Vec<i64>) -> (sorted: Vec<i64>)
    ensures
        sorted@ == sort_dedup(times@),
        is_strictly_increasing(sorted@),
        sorted@.to_set() == times@.to_set(),
{
    let mut sorted: Vec<i64> = Vec::with_capacity(times.len());
    let mut i: usize = 0;
    while i < times.len()
        invariant
            i <= times.len(),
            sorted@ == sort_dedup(times@.take(i as int)),
        decreases times.len() - i,
    {
        let v = times[i];
        let mut j: usize = sorted.len();
        proof {
            assert(sorted@.take(j as int) =~= sorted@);
        }
        while j > 0 && sorted[j - 1] >= v
            invariant
                j <= sorted.len(),
                rank(sorted@, v) == rank(sorted@.take(j as int), v),
            decreases j,
        {
            proof {
                assert(sorted@.take(j as int).drop_last() =~= sorted@.take(j - 1));
            }
            j -= 1;
        }
        proof {
            assert(times@.take(i + 1).drop_last() =~= times@.take(i as int));
        }
        if j < sorted.len() && sorted[j] == v {
        } else {
            sorted.insert(j, v);
        }
        i += 1;
    }
    proof {
        assert(times@.take(times@.len() as int) =~= times@);
        lemma_sort_dedup(times@);
    }
    sorted
}

} // verus!
