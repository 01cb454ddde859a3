//! Choice of the timestamps at which a time range is split.
//!
//! A range that holds more bytes than one plan may take is cut into pieces of
//! even width. The number of pieces is padded, because the data is rarely
//! spread as evenly as assumed and a piece that is too small costs little. The
//! padding leaves room to move a split to a nearby boundary of a file of the
//! next level, which saves that file from being split later.
use crate::times::is_strictly_increasing;
use vstd::prelude::*;

verus! {

/// How many times more splits are made than evenly spread data would call
/// for. Data is rarely spread evenly, and a piece that turns out too small
/// costs little, while one that turns out too large has to be split again.
pub const SPLIT_PADDING: u128 = 2;

/// A split may move to a hint that is no further away than the width of a
/// piece divided by this.
pub const HINT_REACH: u128 = 4;

/// The distance between two timestamps.
pub open spec fn distance(a: int, b: int) -> int {
    if a <= b {
        b - a
    } else {
        a - b
    }
}

/// The number of pieces that a range of `span` timestamps with `cap` bytes is
/// cut into: `SPLIT_PADDING` splits for each that evenly spread data would
/// call for, but no more pieces than there are timestamps.
pub open spec fn piece_count(cap: int, max_compact_size: int, span: int) -> int {
    if span < 2 {
        1
    } else if SPLIT_PADDING * (cap / max_compact_size) + 1 > span {
        span
    } else {
        SPLIT_PADDING * (cap / max_compact_size) + 1
    }
}

/// The last timestamp of the `k`-th of `pieces` pieces of even width that
/// `span` timestamps from `min_time` on fall into.
pub open spec fn even_split(min_time: int, span: int, pieces: int, k: int) -> int {
    min_time + k * span / pieces - 1
}

/// How far a split may be moved to meet a hint: the width of a piece divided
/// by `HINT_REACH`.
pub open spec fn tolerance(span: int, pieces: int) -> int {
    span / pieces / (HINT_REACH as int)
}

/// The hint closest to `ideal` among those no further than `tol` from it, and
/// the first of them where several are equally close.
pub open spec fn closest_hint(hints: Seq<i64>, ideal: int, tol: int) -> Option<int>
    decreases hints.len(),
{
    if hints.len() == 0 {
        None
    } else {
        let before = closest_hint(hints.drop_last(), ideal, tol);
        let h = hints.last() as int;
        if distance(h, ideal) <= tol && (before is None || distance(h, ideal) < distance(
            before->0,
            ideal,
        )) {
            Some(h)
        } else {
            before
        }
    }
}

/// The split chosen near `ideal`: the closest hint within reach, and `ideal`
/// itself where there is none.
pub open spec fn choose_split(hints: Seq<i64>, ideal: int, tol: int) -> int {
    match closest_hint(hints, ideal, tol) {
        Some(h) => h,
        None => ideal,
    }
}

/// The split times for the range `[min_time, max_time]` with `cap` bytes. A
/// split time is the last timestamp of the piece to its left.
pub open spec fn split_times_of(
    cap: int,
    max_compact_size: int,
    min_time: int,
    max_time: int,
    hints: Seq<i64>,
) -> Seq<i64> {
    let span = max_time - min_time + 1;
    let pieces = piece_count(cap, max_compact_size, span);
    Seq::new(
        (pieces - 1) as nat,
        |i: int|
            choose_split(
                hints,
                even_split(min_time, span, pieces, i + 1),
                tolerance(span, pieces),
            ) as i64,
    )
}

/// What the closest hint is: a hint within reach, with no hint closer; and
/// there is one whenever some hint is within reach.
pub proof fn lemma_closest_hint(hints: Seq<i64>, ideal: int, tol: int)
    ensures
        match closest_hint(hints, ideal, tol) {
            Some(h) => {
                &&& exists|i: int| 0 <= i < hints.len() && hints[i] == h
                &&& distance(h, ideal) <= tol
                &&& forall|i: int|
                    0 <= i < hints.len() ==> distance(#[trigger] hints[i] as int, ideal)
                        >= distance(h, ideal)
            },
            None => forall|i: int|
                0 <= i < hints.len() ==> distance(#[trigger] hints[i] as int, ideal) > tol,
        },
    decreases hints.len(),
{
    if hints.len() > 0 {
        let rest = hints.drop_last();
        let last = hints.last() as int;
        lemma_closest_hint(rest, ideal, tol);
        match closest_hint(hints, ideal, tol) {
            Some(h) => {
                match closest_hint(rest, ideal, tol) {
                    Some(g) => {
                        if h == g {
                            let i = choose|i: int| 0 <= i < rest.len() && rest[i] == g;
                            assert(hints[i] == h);
                        } else {
                            assert(hints[hints.len() - 1] == h);
                        }
                        assert forall|i: int| 0 <= i < hints.len() implies distance(
                            #[trigger] hints[i] as int,
                            ideal,
                        ) >= distance(h, ideal) by {
                            if i < rest.len() {
                                assert(distance(rest[i] as int, ideal) >= distance(g, ideal));
                            }
                        }
                    },
                    None => {
                        assert(hints[hints.len() - 1] == h);
                        assert forall|i: int| 0 <= i < hints.len() implies distance(
                            #[trigger] hints[i] as int,
                            ideal,
                        ) >= distance(h, ideal) by {
                            if i < rest.len() {
                                assert(distance(rest[i] as int, ideal) > tol);
                            }
                        }
                    },
                }
            },
            None => {
                assert forall|i: int| 0 <= i < hints.len() implies distance(
                    #[trigger] hints[i] as int,
                    ideal,
                ) > tol by {
                    if i < rest.len() {
                        assert(distance(rest[i] as int, ideal) > tol);
                    }
                }
            },
        }
    }
}

/// An even split lies within the range and leaves room on both sides: the
/// first piece and the last are not empty.
pub proof fn lemma_even_split_bounds(span: int, pieces: int, k: int)
    requires
        1 <= pieces <= span,
        1 <= k < pieces,
    ensures
        span / pieces <= k * span / pieces <= span - span / pieces,
        1 <= span / pieces,
        0 <= k * span,
{
    let width = span / pieces;
    let rem = span % pieces;
    assert(span == pieces * width + rem && 0 <= rem < pieces) by (nonlinear_arith)
        requires
            width == span / pieces,
            rem == span % pieces,
            pieces > 0,
    ;
    assert(1 <= width) by (nonlinear_arith)
        requires
            span == pieces * width + rem,
            0 <= rem < pieces,
            pieces <= span,
            1 <= pieces,
    ;
    // k * span = pieces * (k * width) + k * rem, with 0 <= k * rem < pieces * rem.
    assert(k * span / pieces >= width) by (nonlinear_arith)
        requires
            1 <= k,
            1 <= pieces,
            width == span / pieces,
            0 <= span,
    ;
    assert(k * span / pieces <= span - width) by (nonlinear_arith)
        requires
            1 <= k < pieces,
            span == pieces * width + rem,
            0 <= rem < pieces,
            1 <= width,
    ;
    assert(0 <= k * span) by (nonlinear_arith)
        requires
            1 <= k,
            0 <= span,
    ;
}

/// Even splits are at least the width of a piece apart.
pub proof fn lemma_even_split_gap(span: int, pieces: int, i: int, j: int)
    requires
        1 <= pieces <= span,
        0 <= i < j,
    ensures
        i * span / pieces + span / pieces <= j * span / pieces,
{
    let a = i * span;
    let b = (j - i) * span;
    assert(a >= 0 && b >= span && a + b == j * span) by (nonlinear_arith)
        requires
            a == i * span,
            b == (j - i) * span,
            0 <= i < j,
            1 <= span,
    ;
    assert(a / pieces + span / pieces <= (a + b) / pieces) by (nonlinear_arith)
        requires
            a >= 0,
            b >= span,
            span >= 1,
            pieces >= 1,
    ;
}

/// The split times are the chosen splits themselves; they lie within the
/// range, leave the last timestamp to the right-hand piece, and increase
/// strictly.
pub proof fn lemma_split_times_of(
    cap: int,
    max_compact_size: int,
    min_time: int,
    max_time: int,
    hints: Seq<i64>,
)
    requires
        0 <= cap,
        0 < max_compact_size,
        i64::MIN <= min_time,
        max_time <= i64::MAX,
    ensures
        forall|i: int|
            #![trigger split_times_of(cap, max_compact_size, min_time, max_time, hints)[i]]
            0 <= i < split_times_of(cap, max_compact_size, min_time, max_time, hints).len() ==> {
                &&& split_times_of(cap, max_compact_size, min_time, max_time, hints)[i]
                    == choose_split(
                    hints,
                    even_split(
                        min_time,
                        max_time - min_time + 1,
                        piece_count(cap, max_compact_size, max_time - min_time + 1),
                        i + 1,
                    ),
                    tolerance(
                        max_time - min_time + 1,
                        piece_count(cap, max_compact_size, max_time - min_time + 1),
                    ),
                )
                &&& min_time <= split_times_of(cap, max_compact_size, min_time, max_time, hints)[i]
                    < max_time
            },
        is_strictly_increasing(split_times_of(cap, max_compact_size, min_time, max_time, hints)),
{
    let span = max_time - min_time + 1;
    let pieces = piece_count(cap, max_compact_size, span);
    let width = span / pieces;
    let tol = tolerance(span, pieces);
    let out = split_times_of(cap, max_compact_size, min_time, max_time, hints);
    if span >= 2 {
        assert(0 <= cap / max_compact_size) by (nonlinear_arith)
            requires
                0 <= cap,
                0 < max_compact_size,
        ;
        assert(1 <= pieces <= span);
        assert forall|i: int| 0 <= i < out.len() implies {
            &&& #[trigger] out[i] == choose_split(
                hints,
                even_split(min_time, span, pieces, i + 1),
                tol,
            )
            &&& distance(out[i] as int, even_split(min_time, span, pieces, i + 1)) <= tol
            &&& min_time <= out[i] < max_time
        } by {
            lemma_closest_hint(hints, even_split(min_time, span, pieces, i + 1), tol);
            lemma_even_split_bounds(span, pieces, i + 1);
        }
        assert forall|i: int, j: int| 0 <= i < j < out.len() implies out[i] < out[j] by {
            lemma_even_split_gap(span, pieces, i + 1, j + 1);
            lemma_even_split_bounds(span, pieces, i + 1);
            assert(distance(out[i] as int, even_split(min_time, span, pieces, i + 1)) <= tol);
            assert(distance(out[j] as int, even_split(min_time, span, pieces, j + 1)) <= tol);
        }
    }
}

/// Returns the closest hint within `tol` of `ideal`, and `ideal` where there
/// is none.
fn pick_split(hints: &Vec<i64>, ideal: i64, tol: u128) -> (t: i64)
    ensures
        t == choose_split(hints@, ideal as int, tol as int),
{
    let mut best: i64 = ideal;
    let mut found: bool = false;
    let mut best_distance: u128 = 0;
    let mut i: usize = 0;
    while i < hints.len()
        invariant
            i <= hints.len(),
            match closest_hint(hints@.take(i as int), ideal as int, tol as int) {
                Some(h) => found && best == h && best_distance == distance(h, ideal as int),
                None => !found && best == ideal,
            },
        decreases hints.len() - i,
    {
        let h = hints[i];
        proof {
            assert(hints@.take(i + 1).drop_last() =~= hints@.take(i as int));
        }
        let d: u128 = if h <= ideal {
            (ideal as i128 - h as i128) as u128
        } else {
            (h as i128 - ideal as i128) as u128
        };
        if d <= tol && (!found || d < best_distance) {
            best = h;
            found = true;
            best_distance = d;
        }
        i += 1;
    }
    proof {
        assert(hints@.take(hints@.len() as int) =~= hints@);
    }
    best
}

/// Chooses the timestamps at which to split the range `[min_time, max_time]`,
/// which holds `cap` bytes, into pieces that a plan of `max_compact_size`
/// bytes can take. The pieces are of even width, except that a split moves to
/// the closest hint where one is within reach. A range of one timestamp cannot
/// be split.
pub fn select_split_times(
    cap: u128,
    max_compact_size: usize,
    min_time: i64,
    max_time: i64,
    split_hints: &Vec<i64>,
) -> (splits: Vec<i64>)
    requires
        max_compact_size > 0,
    ensures
        splits@ == split_times_of(
            cap as int,
            max_compact_size as int,
            min_time as int,
            max_time as int,
            split_hints@,
        ),
        is_strictly_increasing(splits@),
        forall|i: int| 0 <= i < splits@.len() ==> min_time <= (#[trigger] splits@[i]) < max_time,
{
    proof {
        lemma_split_times_of(
            cap as int,
            max_compact_size as int,
            min_time as int,
            max_time as int,
            split_hints@,
        );
    }
    let mut splits: Vec<i64> = Vec::new();
    if min_time >= max_time {
        proof {
            assert(splits@ =~= split_times_of(
                cap as int,
                max_compact_size as int,
                min_time as int,
                max_time as int,
                split_hints@,
            ));
        }
        return splits;
    }
    let span: u128 = (max_time as i128 - min_time as i128 + 1) as u128;
    let quota: u128 = cap / (max_compact_size as u128);
    let pieces: u128 = if quota >= span {
        span
    } else if SPLIT_PADDING * quota + 1 > span {
        span
    } else {
        SPLIT_PADDING * quota + 1
    };
    assert(pieces == piece_count(cap as int, max_compact_size as int, span as int));
    let tol: u128 = span / pieces / HINT_REACH;
    let mut k: u128 = 1;
    while k < pieces
        invariant
            1 <= k <= pieces <= span,
            span == max_time - min_time + 1,
            tol == tolerance(span as int, pieces as int),
            splits@.len() == k - 1,
            forall|i: int|
                0 <= i < k - 1 ==> (#[trigger] splits@[i]) == choose_split(
                    split_hints@,
                    even_split(min_time as int, span as int, pieces as int, i + 1),
                    tol as int,
                ),
        decreases pieces - k,
    {
        proof {
            lemma_even_split_bounds(span as int, pieces as int, k as int);
            assert(k * span <= u128::MAX) by (nonlinear_arith)
                requires
                    k < 0x1_0000_0000_0000_0000,
                    span <= 0x1_0000_0000_0000_0000,
            ;
        }
        let ideal: i64 = (min_time as i128 + (k * span / pieces) as i128 - 1) as i64;
        let t = pick_split(split_hints, ideal, tol);
        splits.push(t);
        k += 1;
    }
    proof {
        assert(splits@ =~= split_times_of(
            cap as int,
            max_compact_size as int,
            min_time as int,
            max_time as int,
            split_hints@,
        ));
    }
    splits
}

} // verus!
