//! Assignment of detections to trackers by overlap score.
//!
//! A score is an intersection over union in fixed point: 0 for none,
//! `SCORE_ONE` for identical boxes. Row `i`, column `j` of a score matrix is
//! the score of detection `i` against tracker `j`.

use vstd::prelude::*;

use crate::assignment::{linear_assignment, COST_LIMIT, UNASSIGNED};
use crate::insertion::best_assignment;

verus! {

/// The score of two identical boxes.
pub const SCORE_ONE: i64 = 0x4000_0000_0000_0000;

/// Every row of `scores` has `cols` entries, each within plus or minus
/// `SCORE_ONE`.
pub open spec fn is_score_matrix(scores: Seq<Vec<i64>>, cols: int) -> bool {
    crate::assignment::is_matrix(scores, cols)
}

/// The costs whose minimum is the maximum of the scores.
pub open spec fn negated(scores: Seq<Seq<int>>) -> Seq<Seq<int>> {
    scores.map_values(|row: Seq<int>| row.map_values(|s: int| -s))
}

/// Detection `i` overlaps tracker `j` by more than the threshold.
pub open spec fn overlaps(scores: Seq<Seq<int>>, cols: int, threshold: int, i: int, j: int) -> bool {
    0 <= i < scores.len() && 0 <= j < cols && scores[i][j] > threshold
}

/// Some detection overlaps a tracker, and no detection or tracker overlaps two.
pub open spec fn is_unambiguous(scores: Seq<Seq<int>>, cols: int, threshold: int) -> bool {
    &&& exists|i: int, j: int| #[trigger] overlaps(scores, cols, threshold, i, j)
    &&& forall|i: int, j: int, k: int| #[trigger]
        overlaps(scores, cols, threshold, i, j) && #[trigger] overlaps(
            scores,
            cols,
            threshold,
            i,
            k,
        ) ==> j == k
    &&& forall|i: int, j: int, k: int| #[trigger]
        overlaps(scores, cols, threshold, i, j) && #[trigger] overlaps(
            scores,
            cols,
            threshold,
            k,
            j,
        ) ==> i == k
}

/// `a` gives each detection the tracker that it overlaps, or none.
pub open spec fn follows_overlaps(
    scores: Seq<Seq<int>>,
    cols: int,
    threshold: int,
    a: Seq<usize>,
) -> bool {
    &&& a.len() == scores.len()
    &&& forall|i: int|
        0 <= i < a.len() && #[trigger] a[i] != UNASSIGNED ==> overlaps(
            scores,
            cols,
            threshold,
            i,
            a[i] as int,
        )
    &&& forall|i: int, j: int| #[trigger]
        overlaps(scores, cols, threshold, i, j) ==> a[i] != UNASSIGNED
}

/// `a` pairs detections with trackers before pairs of too low a score are
/// dropped: by overlap where that is unambiguous, else so that the total score
/// is the highest. Of several such pairings it is the one that `best_assignment`
/// gives.
pub open spec fn is_pairing(
    scores: Seq<Seq<int>>,
    cols: int,
    threshold: int,
    a: Seq<usize>,
) -> bool {
    if is_unambiguous(scores, cols, threshold) {
        follows_overlaps(scores, cols, threshold, a)
    } else {
        &&& crate::assignment::is_minimum_assignment(negated(scores), cols, a)
        &&& a == best_assignment(negated(scores), cols)
    }
}

/// Row `i` of a pairing has a tracker, with a score of at least the threshold.
pub open spec fn is_kept(scores: Seq<Seq<int>>, threshold: int, a: Seq<usize>, i: int) -> bool {
    a[i] != UNASSIGNED && scores[i][a[i] as int] >= threshold
}

/// Row `i` of a pairing has a tracker, with a score below the threshold.
pub open spec fn is_dropped(scores: Seq<Seq<int>>, threshold: int, a: Seq<usize>, i: int) -> bool {
    a[i] != UNASSIGNED && scores[i][a[i] as int] < threshold
}

/// The pairs kept among the first `k` detections, in order.
pub open spec fn kept_pairs(
    scores: Seq<Seq<int>>,
    threshold: int,
    a: Seq<usize>,
    k: int,
) -> Seq<(usize, usize)>
    decreases k,
{
    if k <= 0 {
        Seq::empty()
    } else if is_kept(scores, threshold, a, k - 1) {
        kept_pairs(scores, threshold, a, k - 1).push(((k - 1) as usize, a[k - 1]))
    } else {
        kept_pairs(scores, threshold, a, k - 1)
    }
}

/// The pairs dropped among the first `k` detections, in order.
pub open spec fn dropped_pairs(
    scores: Seq<Seq<int>>,
    threshold: int,
    a: Seq<usize>,
    k: int,
) -> Seq<(usize, usize)>
    decreases k,
{
    if k <= 0 {
        Seq::empty()
    } else if is_dropped(scores, threshold, a, k - 1) {
        dropped_pairs(scores, threshold, a, k - 1).push(((k - 1) as usize, a[k - 1]))
    } else {
        dropped_pairs(scores, threshold, a, k - 1)
    }
}

/// The first `k` detections that a pairing leaves alone, in order.
pub open spec fn lone_detections(a: Seq<usize>, k: int) -> Seq<usize>
    decreases k,
{
    if k <= 0 {
        Seq::empty()
    } else if a[k - 1] == UNASSIGNED {
        lone_detections(a, k - 1).push((k - 1) as usize)
    } else {
        lone_detections(a, k - 1)
    }
}

/// The first `k` trackers that a pairing leaves alone, in order.
pub open spec fn lone_trackers(a: Seq<usize>, k: int) -> Seq<usize>
    decreases k,
{
    if k <= 0 {
        Seq::empty()
    } else if a.contains((k - 1) as usize) {
        lone_trackers(a, k - 1)
    } else {
        lone_trackers(a, k - 1).push((k - 1) as usize)
    }
}

/// The outcome of a pairing: the pairs kept, then the detections and the
/// trackers without a match, those of the dropped pairs last.
pub open spec fn is_outcome(
    scores: Seq<Seq<int>>,
    cols: int,
    threshold: int,
    a: Seq<usize>,
    matches: Seq<(usize, usize)>,
    unmatched_dets: Seq<usize>,
    unmatched_trks: Seq<usize>,
) -> bool {
    let rows = scores.len() as int;
    let dropped = dropped_pairs(scores, threshold, a, rows);
    &&& matches == kept_pairs(scores, threshold, a, rows)
    &&& unmatched_dets == lone_detections(a, rows) + dropped.map_values(|p: (usize, usize)| p.0)
    &&& unmatched_trks == lone_trackers(a, cols) + dropped.map_values(|p: (usize, usize)| p.1)
}

/// An association of the detections of a score matrix to its trackers: the
/// outcome of some pairing.
pub open spec fn is_association(
    scores: Seq<Seq<int>>,
    cols: int,
    threshold: int,
    matches: Seq<(usize, usize)>,
    unmatched_dets: Seq<usize>,
    unmatched_trks: Seq<usize>,
) -> bool {
    exists|a: Seq<usize>| #[trigger]
        is_pairing(scores, cols, threshold, a) && is_outcome(
            scores,
            cols,
            threshold,
            a,
            matches,
            unmatched_dets,
            unmatched_trks,
        )
}

/// The matches and the unmatched detections of an association.
pub open spec fn is_matching(
    scores: Seq<Seq<int>>,
    cols: int,
    threshold: int,
    matches: Seq<(usize, usize)>,
    unmatched_dets: Seq<usize>,
) -> bool {
    exists|unmatched_trks: Seq<usize>| #[trigger]
        is_association(scores, cols, threshold, matches, unmatched_dets, unmatched_trks)
}

/// The matches of an association.
pub open spec fn are_matches(
    scores: Seq<Seq<int>>,
    cols: int,
    threshold: int,
    matches: Seq<(usize, usize)>,
) -> bool {
    exists|unmatched_dets: Seq<usize>| #[trigger]
        is_matching(scores, cols, threshold, matches, unmatched_dets)
}

/// The entries of a score matrix as integers.
pub open spec fn score_entries(scores: Seq<Vec<i64>>) -> Seq<Seq<int>> {
    crate::assignment::entries(scores)
}

/// Whether some detection overlaps a tracker and none overlaps two, nor any
/// tracker.
fn unambiguous(scores: &[Vec<i64>], cols: usize, threshold: i64) -> (r: bool)
    requires
        is_score_matrix(scores@, cols as int),
    ensures
        r == is_unambiguous(score_entries(scores@), cols as int, threshold as int),
{
    let ghost s = score_entries(scores@);
    let ghost t = threshold as int;
    let mut taken: Vec<Option<usize>> = vec![None; cols];
    let mut any: bool = false;
    let rows: usize = scores.len();
    let mut i: usize = 0;
    while i < rows
        invariant
            rows == scores@.len(),
            0 <= i <= rows,
            is_score_matrix(scores@, cols as int),
            s == score_entries(scores@),
            t == threshold as int,
            taken@.len() == cols,
            any <==> exists|k: int, j: int| #[trigger] overlaps(s, cols as int, t, k, j) && k < i,
            forall|k: int, j: int| #[trigger]
                overlaps(s, cols as int, t, k, j) && k < i ==> taken@[j] == Some(k as usize),
            forall|j: int|
                0 <= j < cols && (#[trigger] taken@[j]) is Some ==> overlaps(
                    s,
                    cols as int,
                    t,
                    taken@[j]->0 as int,
                    j,
                ) && taken@[j]->0 < i,
            forall|k: int, j: int, l: int| #[trigger]
                overlaps(s, cols as int, t, k, j) && #[trigger] overlaps(s, cols as int, t, k, l)
                    && k < i ==> j == l,
        decreases rows - i,
    {
        let mut hit: Option<usize> = None;
        let mut j: usize = 0;
        while j < cols
            invariant
                rows == scores@.len(),
                0 <= i < rows,
                0 <= j <= cols,
                is_score_matrix(scores@, cols as int),
                s == score_entries(scores@),
                t == threshold as int,
                taken@.len() == cols,
                any <==> exists|k: int, l: int| #[trigger]
                    overlaps(s, cols as int, t, k, l) && (k < i || k == i && l < j),
                forall|k: int, l: int| #[trigger]
                    overlaps(s, cols as int, t, k, l) && (k < i || k == i && l < j) ==> taken@[l]
                        == Some(k as usize),
                forall|l: int|
                    0 <= l < cols && (#[trigger] taken@[l]) is Some ==> overlaps(
                        s,
                        cols as int,
                        t,
                        taken@[l]->0 as int,
                        l,
                    ) && (taken@[l]->0 < i || taken@[l]->0 == i && l < j),
                forall|k: int, l: int, o: int| #[trigger]
                    overlaps(s, cols as int, t, k, l) && #[trigger] overlaps(
                        s,
                        cols as int,
                        t,
                        k,
                        o,
                    ) && k < i ==> l == o,
                forall|l: int| #[trigger]
                    overlaps(s, cols as int, t, i as int, l) && l < j ==> hit == Some(l as usize),
                hit is Some ==> overlaps(s, cols as int, t, i as int, hit->0 as int) && hit->0 < j,
            decreases cols - j,
        {
            assert(s[i as int][j as int] == scores@[i as int]@[j as int]);
            if scores[i][j] > threshold {
                assert(overlaps(s, cols as int, t, i as int, j as int));
                if hit.is_some() || taken[j].is_some() {
                    proof {
                        if hit is Some {
                            assert(overlaps(s, cols as int, t, i as int, hit->0 as int));
                        } else {
                            assert(overlaps(s, cols as int, t, taken@[j as int]->0 as int, j as int));
                        }
                    }
                    return false;
                }
                hit = Some(j);
                taken.set(j, Some(i));
                any = true;
            } else {
                assert(!overlaps(s, cols as int, t, i as int, j as int));
            }
            j = j + 1;
        }
        i = i + 1;
    }
    any
}

/// For each detection the tracker that it overlaps, or `UNASSIGNED`.
fn pair_by_overlap(scores: &[Vec<i64>], cols: usize, threshold: i64) -> (a: Vec<usize>)
    requires
        is_score_matrix(scores@, cols as int),
        cols < usize::MAX,
        is_unambiguous(score_entries(scores@), cols as int, threshold as int),
    ensures
        follows_overlaps(score_entries(scores@), cols as int, threshold as int, a@),
{
    let ghost s = score_entries(scores@);
    let ghost t = threshold as int;
    let rows: usize = scores.len();
    let mut a: Vec<usize> = Vec::new();
    let mut i: usize = 0;
    while i < rows
        invariant
            rows == scores@.len(),
            0 <= i <= rows,
            cols < usize::MAX,
            is_score_matrix(scores@, cols as int),
            s == score_entries(scores@),
            t == threshold as int,
            a@.len() == i,
            forall|k: int|
                0 <= k < i && #[trigger] a@[k] != UNASSIGNED ==> overlaps(
                    s,
                    cols as int,
                    t,
                    k,
                    a@[k] as int,
                ),
            forall|k: int, j: int| #[trigger]
                overlaps(s, cols as int, t, k, j) && k < i ==> a@[k] != UNASSIGNED,
        decreases rows - i,
    {
        let mut hit: usize = UNASSIGNED;
        let mut j: usize = 0;
        while j < cols
            invariant
                rows == scores@.len(),
                0 <= i < rows,
                0 <= j <= cols < usize::MAX,
                is_score_matrix(scores@, cols as int),
                s == score_entries(scores@),
                t == threshold as int,
                hit != UNASSIGNED ==> overlaps(s, cols as int, t, i as int, hit as int),
                forall|l: int| #[trigger]
                    overlaps(s, cols as int, t, i as int, l) && l < j ==> hit != UNASSIGNED,
            decreases cols - j,
        {
            assert(s[i as int][j as int] == scores@[i as int]@[j as int]);
            if scores[i][j] > threshold {
                hit = j;
            }
            j = j + 1;
        }
        a.push(hit);
        i = i + 1;
    }
    a
}

/// The pairing of the highest total score.
fn pair_by_total(scores: &[Vec<i64>], cols: usize) -> (a: Vec<usize>)
    requires
        is_score_matrix(scores@, cols as int),
        scores@.len() < usize::MAX,
        cols < usize::MAX,
    ensures
        crate::assignment::is_minimum_assignment(
            negated(score_entries(scores@)),
            cols as int,
            a@,
        ),
        a@ == best_assignment(negated(score_entries(scores@)), cols as int),
{
    let rows: usize = scores.len();
    let mut cost: Vec<Vec<i64>> = Vec::new();
    let mut i: usize = 0;
    while i < rows
        invariant
            rows == scores@.len(),
            0 <= i <= rows,
            is_score_matrix(scores@, cols as int),
            cost@.len() == i,
            forall|k: int| 0 <= k < i ==> (#[trigger] cost@[k])@.len() == cols,
            forall|k: int, j: int|
                0 <= k < i && 0 <= j < cols ==> #[trigger] cost@[k]@[j] == -scores@[k]@[j],
        decreases rows - i,
    {
        let mut row: Vec<i64> = Vec::new();
        let mut j: usize = 0;
        while j < cols
            invariant
                rows == scores@.len(),
                0 <= i < rows,
                0 <= j <= cols,
                is_score_matrix(scores@, cols as int),
                row@.len() == j,
                forall|l: int| 0 <= l < j ==> #[trigger] row@[l] == -scores@[i as int]@[l],
            decreases cols - j,
        {
            assert(-COST_LIMIT <= scores@[i as int]@[j as int] <= COST_LIMIT);
            row.push(-scores[i][j]);
            j = j + 1;
        }
        cost.push(row);
        i = i + 1;
    }
    proof {
        assert forall|k: int, j: int| 0 <= k < cost@.len() && 0 <= j < cols implies -COST_LIMIT
            <= #[trigger] cost@[k]@[j] <= COST_LIMIT by {
            let x = scores@[k]@[j];
        }
        let n = negated(score_entries(scores@));
        let e = crate::assignment::entries(cost@);
        assert(e.len() == n.len());
        assert forall|k: int| 0 <= k < e.len() implies #[trigger] e[k] == n[k] by {
            assert(e[k] =~= n[k]);
        }
        assert(e =~= n);
    }
    if rows == 0 {
        let none: Vec<usize> = Vec::new();
        assert(crate::assignment::is_minimum_assignment(
            negated(score_entries(scores@)),
            cols as int,
            none@,
        ));
        assert(none@ =~= best_assignment(negated(score_entries(scores@)), cols as int));
        return none;
    }
    linear_assignment(&cost)
}

/// Whether the pairing `a` pairs tracker `t`.
fn has_tracker(a: &[usize], t: usize) -> (r: bool)
    ensures
        r == a@.contains(t),
{
    let mut i: usize = 0;
    while i < a.len()
        invariant
            0 <= i <= a@.len(),
            forall|k: int| 0 <= k < i ==> #[trigger] a@[k] != t,
        decreases a@.len() - i,
    {
        if a[i] == t {
            return true;
        }
        i = i + 1;
    }
    false
}

/// Assigns detections to tracked objects. `scores` holds a row for each
/// detection with its score against each of `trackers` predictions. Returns
/// the matches as (detection, tracker), the unmatched detections and the
/// unmatched trackers.
pub fn associate_detections_to_trackers(
    scores: &[Vec<i64>],
    trackers: usize,
    iou_threshold: i64,
) -> (r: (Vec<(usize, usize)>, Vec<usize>, Vec<usize>))
    requires
        is_score_matrix(scores@, trackers as int),
        scores@.len() < usize::MAX,
        trackers < usize::MAX,
    ensures
        is_association(
            score_entries(scores@),
            trackers as int,
            iou_threshold as int,
            r.0@,
            r.1@,
            r.2@,
        ),
{
    let ghost s = score_entries(scores@);
    let ghost cols = trackers as int;
    let ghost t = iou_threshold as int;
    let a: Vec<usize> = if unambiguous(scores, trackers, iou_threshold) {
        pair_by_overlap(scores, trackers, iou_threshold)
    } else {
        pair_by_total(scores, trackers)
    };
    assert(is_pairing(s, cols, t, a@));
    let rows: usize = scores.len();
    let mut matches: Vec<(usize, usize)> = Vec::new();
    let mut unmatched_dets: Vec<usize> = Vec::new();
    let mut unmatched_trks: Vec<usize> = Vec::new();
    let mut d: usize = 0;
    while d < rows
        invariant
            0 <= d <= rows,
            a@.len() == rows,
            unmatched_dets@ == lone_detections(a@, d as int),
        decreases rows - d,
    {
        if a[d] == UNASSIGNED {
            unmatched_dets.push(d);
        }
        d = d + 1;
    }
    let mut k: usize = 0;
    while k < trackers
        invariant
            0 <= k <= trackers,
            unmatched_trks@ == lone_trackers(a@, k as int),
        decreases trackers - k,
    {
        if !has_tracker(&a, k) {
            unmatched_trks.push(k);
        }
        k = k + 1;
    }
    let mut i: usize = 0;
    while i < rows
        invariant
            0 <= i <= rows,
            rows == scores@.len(),
            a@.len() == rows,
            is_score_matrix(scores@, cols),
            cols == trackers,
            s == score_entries(scores@),
            t == iou_threshold as int,
            forall|l: int| 0 <= l < rows ==> #[trigger] a@[l] == UNASSIGNED || a@[l] < cols,
            matches@ == kept_pairs(s, t, a@, i as int),
            unmatched_dets@ == lone_detections(a@, rows as int) + dropped_pairs(
                s,
                t,
                a@,
                i as int,
            ).map_values(|p: (usize, usize)| p.0),
            unmatched_trks@ == lone_trackers(a@, cols) + dropped_pairs(
                s,
                t,
                a@,
                i as int,
            ).map_values(|p: (usize, usize)| p.1),
        decreases rows - i,
    {
        let j: usize = a[i];
        if j != UNASSIGNED {
            assert(s[i as int][j as int] == scores@[i as int]@[j as int]);
            if scores[i][j] < iou_threshold {
                unmatched_dets.push(i);
                unmatched_trks.push(j);
            } else {
                matches.push((i, j));
            }
        }
        i = i + 1;
    }
    assert(is_outcome(s, cols, t, a@, matches@, unmatched_dets@, unmatched_trks@));
    (matches, unmatched_dets, unmatched_trks)
}

/// A pairing pairs no tracker twice, and only trackers that there are.
pub(crate) proof fn lemma_pairing_is_injective(scores: Seq<Seq<int>>, cols: int, threshold: int, a: Seq<usize>)
    requires
        is_pairing(scores, cols, threshold, a),
    ensures
        a.len() == scores.len(),
        forall|i: int| 0 <= i < a.len() ==> #[trigger] a[i] == UNASSIGNED || a[i] < cols,
        forall|i: int, k: int|
            0 <= i < a.len() && 0 <= k < a.len() && #[trigger] a[i] == #[trigger] a[k] && a[i]
                != UNASSIGNED ==> i == k,
{
    if is_unambiguous(scores, cols, threshold) {
        assert forall|i: int, k: int|
            0 <= i < a.len() && 0 <= k < a.len() && #[trigger] a[i] == #[trigger] a[k] && a[i]
                != UNASSIGNED implies i == k by {
            assert(overlaps(scores, cols, threshold, i, a[i] as int));
            assert(overlaps(scores, cols, threshold, k, a[k] as int));
        }
    } else {
        assert(negated(scores).len() == scores.len());
    }
}

pub(crate) proof fn lemma_kept_pairs(scores: Seq<Seq<int>>, threshold: int, a: Seq<usize>, k: int)
    requires
        0 <= k <= a.len() <= usize::MAX,
    ensures
        forall|p: (usize, usize)| #[trigger]
            kept_pairs(scores, threshold, a, k).contains(p) <==> p.0 < k && is_kept(
                scores,
                threshold,
                a,
                p.0 as int,
            ) && p.1 == a[p.0 as int],
        forall|x: int, y: int|
            0 <= x < y < kept_pairs(scores, threshold, a, k).len() ==> (#[trigger] kept_pairs(
                scores,
                threshold,
                a,
                k,
            )[x]).0 < (#[trigger] kept_pairs(scores, threshold, a, k)[y]).0,
    decreases k,
{
    if k > 0 {
        lemma_kept_pairs(scores, threshold, a, k - 1);
        let before = kept_pairs(scores, threshold, a, k - 1);
        let after = kept_pairs(scores, threshold, a, k);
        if is_kept(scores, threshold, a, k - 1) {
            let last = ((k - 1) as usize, a[k - 1]);
            assert forall|x: int| 0 <= x < before.len() implies (#[trigger] before[x]).0 < k - 1 by {
                assert(before.contains(before[x]));
            }
            assert forall|p: (usize, usize)| #[trigger] after.contains(p) <==> before.contains(p)
                || p == last by {
                if before.contains(p) {
                    let x = choose|x: int| 0 <= x < before.len() && before[x] == p;
                    assert(after[x] == p);
                }
                assert(after[before.len() as int] == last);
            }
        }
    }
}

proof fn lemma_dropped_pairs(scores: Seq<Seq<int>>, threshold: int, a: Seq<usize>, k: int)
    requires
        0 <= k <= a.len() <= usize::MAX,
    ensures
        forall|p: (usize, usize)| #[trigger]
            dropped_pairs(scores, threshold, a, k).contains(p) <==> p.0 < k && is_dropped(
                scores,
                threshold,
                a,
                p.0 as int,
            ) && p.1 == a[p.0 as int],
        forall|x: int, y: int|
            0 <= x < y < dropped_pairs(scores, threshold, a, k).len() ==> (#[trigger] dropped_pairs(
                scores,
                threshold,
                a,
                k,
            )[x]).0 < (#[trigger] dropped_pairs(scores, threshold, a, k)[y]).0,
    decreases k,
{
    if k > 0 {
        lemma_dropped_pairs(scores, threshold, a, k - 1);
        let before = dropped_pairs(scores, threshold, a, k - 1);
        let after = dropped_pairs(scores, threshold, a, k);
        if is_dropped(scores, threshold, a, k - 1) {
            let last = ((k - 1) as usize, a[k - 1]);
            assert forall|x: int| 0 <= x < before.len() implies (#[trigger] before[x]).0 < k - 1 by {
                assert(before.contains(before[x]));
            }
            assert forall|p: (usize, usize)| #[trigger] after.contains(p) <==> before.contains(p)
                || p == last by {
                if before.contains(p) {
                    let x = choose|x: int| 0 <= x < before.len() && before[x] == p;
                    assert(after[x] == p);
                }
                assert(after[before.len() as int] == last);
            }
        }
    }
}

proof fn lemma_lone_detections(a: Seq<usize>, k: int)
    requires
        0 <= k <= a.len() <= usize::MAX,
    ensures
        forall|d: usize| #[trigger]
            lone_detections(a, k).contains(d) <==> d < k && a[d as int] == UNASSIGNED,
        lone_detections(a, k).no_duplicates(),
    decreases k,
{
    if k > 0 {
        lemma_lone_detections(a, k - 1);
        let before = lone_detections(a, k - 1);
        let after = lone_detections(a, k);
        if a[k - 1] == UNASSIGNED {
            let last = (k - 1) as usize;
            assert(!before.contains(last));
            assert forall|d: usize| #[trigger] after.contains(d) <==> before.contains(d) || d
                == last by {
                if before.contains(d) {
                    let x = choose|x: int| 0 <= x < before.len() && before[x] == d;
                    assert(after[x] == d);
                }
                assert(after[before.len() as int] == last);
            }
        }
    }
}

proof fn lemma_lone_trackers(a: Seq<usize>, k: int)
    requires
        0 <= k <= usize::MAX,
    ensures
        forall|t: usize| #[trigger]
            lone_trackers(a, k).contains(t) <==> t < k && !a.contains(t),
        lone_trackers(a, k).no_duplicates(),
    decreases k,
{
    if k > 0 {
        lemma_lone_trackers(a, k - 1);
        let before = lone_trackers(a, k - 1);
        let after = lone_trackers(a, k);
        let last = (k - 1) as usize;
        if !a.contains(last) {
            assert(!before.contains(last));
            assert forall|t: usize| #[trigger] after.contains(t) <==> before.contains(t) || t
                == last by {
                if before.contains(t) {
                    let x = choose|x: int| 0 <= x < before.len() && before[x] == t;
                    assert(after[x] == t);
                }
                assert(after[before.len() as int] == last);
            }
        }
    }
}

/// `all` holds each number below `n` once, and nothing else.
pub open spec fn lists_each_once(all: Seq<usize>, n: int) -> bool {
    &&& all.no_duplicates()
    &&& forall|x: usize| #[trigger] all.contains(x) <==> x < n
}

/// The detections of some pairs.
pub open spec fn pair_detections(pairs: Seq<(usize, usize)>) -> Seq<usize> {
    pairs.map_values(|p: (usize, usize)| p.0)
}

/// The trackers of some pairs.
pub open spec fn pair_trackers(pairs: Seq<(usize, usize)>) -> Seq<usize> {
    pairs.map_values(|p: (usize, usize)| p.1)
}

/// Every detection and every tracker comes out of an association once: in one
/// match, or among the unmatched. Every match scores at least the threshold.
pub proof fn law_association_accounts_for_all(
    scores: Seq<Seq<int>>,
    cols: int,
    threshold: int,
    matches: Seq<(usize, usize)>,
    unmatched_dets: Seq<usize>,
    unmatched_trks: Seq<usize>,
)
    requires
        scores.len() <= usize::MAX,
        0 <= cols <= usize::MAX,
        is_association(scores, cols, threshold, matches, unmatched_dets, unmatched_trks),
    ensures
        lists_each_once(pair_detections(matches) + unmatched_dets, scores.len() as int),
        lists_each_once(pair_trackers(matches) + unmatched_trks, cols),
        forall|x: int|
            0 <= x < matches.len() ==> scores[(#[trigger] matches[x]).0 as int][matches[x].1 as int]
                >= threshold,
{
    let a = choose|a: Seq<usize>| #[trigger]
        is_pairing(scores, cols, threshold, a) && is_outcome(
            scores,
            cols,
            threshold,
            a,
            matches,
            unmatched_dets,
            unmatched_trks,
        );
    let rows = scores.len() as int;
    lemma_pairing_is_injective(scores, cols, threshold, a);
    lemma_kept_pairs(scores, threshold, a, rows);
    lemma_dropped_pairs(scores, threshold, a, rows);
    lemma_lone_detections(a, rows);
    lemma_lone_trackers(a, cols);
    let dropped = dropped_pairs(scores, threshold, a, rows);
    let n = matches.len() as int;
    assert forall|x: int| 0 <= x < n implies {
        &&& (#[trigger] matches[x]).0 < rows
        &&& is_kept(scores, threshold, a, matches[x].0 as int)
        &&& matches[x].1 == a[matches[x].0 as int]
    } by {
        assert(matches.contains(matches[x]));
    }
    assert forall|x: int| 0 <= x < dropped.len() implies {
        &&& (#[trigger] dropped[x]).0 < rows
        &&& is_dropped(scores, threshold, a, dropped[x].0 as int)
        &&& dropped[x].1 == a[dropped[x].0 as int]
    } by {
        assert(dropped.contains(dropped[x]));
    }
    let lone_d = lone_detections(a, rows);
    let lone_t = lone_trackers(a, cols);
    let all_d = pair_detections(matches) + unmatched_dets;
    let all_t = pair_trackers(matches) + unmatched_trks;
    assert forall|x: int| 0 <= x < lone_d.len() implies #[trigger] lone_d[x] < rows && a[lone_d[x] as int]
        == UNASSIGNED by {
        assert(lone_d.contains(lone_d[x]));
    }
    assert forall|x: int| 0 <= x < lone_t.len() implies #[trigger] lone_t[x] < cols && !a.contains(
        lone_t[x],
    ) by {
        assert(lone_t.contains(lone_t[x]));
    }
    assert forall|x: int, y: int| 0 <= x < y < all_d.len() implies all_d[x] != all_d[y] by {
        if x < n {
            assert(all_d[x] == matches[x].0);
        } else if x < n + lone_d.len() {
            assert(all_d[x] == lone_d[x - n]);
        } else {
            assert(all_d[x] == dropped[x - n - lone_d.len()].0);
        }
        if y < n {
            assert(all_d[y] == matches[y].0);
        } else if y < n + lone_d.len() {
            assert(all_d[y] == lone_d[y - n]);
        } else {
            assert(all_d[y] == dropped[y - n - lone_d.len()].0);
        }
    }
    assert forall|x: int, y: int| 0 <= x < y < all_t.len() implies all_t[x] != all_t[y] by {
        if x < n {
            assert(all_t[x] == a[matches[x].0 as int]);
        } else if x < n + lone_t.len() {
            assert(all_t[x] == lone_t[x - n]);
        } else {
            assert(all_t[x] == a[dropped[x - n - lone_t.len()].0 as int]);
        }
        if y < n {
            assert(all_t[y] == a[matches[y].0 as int]);
        } else if y < n + lone_t.len() {
            assert(all_t[y] == lone_t[y - n]);
        } else {
            assert(all_t[y] == a[dropped[y - n - lone_t.len()].0 as int]);
        }
    }
    assert forall|d: usize| #[trigger] all_d.contains(d) <==> d < rows by {
        if all_d.contains(d) {
            let x = choose|x: int| 0 <= x < all_d.len() && all_d[x] == d;
            if x < n {
                assert(all_d[x] == matches[x].0);
            } else if x < n + lone_d.len() {
                assert(all_d[x] == lone_d[x - n]);
            } else {
                assert(all_d[x] == dropped[x - n - lone_d.len()].0);
            }
        }
        if d < rows {
            lemma_detection_placed(scores, threshold, a, d, matches, unmatched_dets);
        }
    }
    assert forall|t: usize| #[trigger] all_t.contains(t) <==> t < cols by {
        if all_t.contains(t) {
            let x = choose|x: int| 0 <= x < all_t.len() && all_t[x] == t;
            if x < n {
                assert(all_t[x] == a[matches[x].0 as int]);
            } else if x < n + lone_t.len() {
                assert(all_t[x] == lone_t[x - n]);
            } else {
                assert(all_t[x] == a[dropped[x - n - lone_t.len()].0 as int]);
            }
        }
        if t < cols {
            if a.contains(t) && t != UNASSIGNED {
                let i = choose|i: int| 0 <= i < a.len() && a[i] == t;
                let p = (i as usize, t);
                if is_kept(scores, threshold, a, i) {
                    assert(matches.contains(p));
                    let x = choose|x: int| 0 <= x < n && matches[x] == p;
                    assert(all_t[x] == t);
                } else {
                    assert(dropped.contains(p));
                    let x = choose|x: int| 0 <= x < dropped.len() && dropped[x] == p;
                    assert(all_t[x + n + lone_t.len()] == t);
                }
            } else {
                assert(!a.contains(t));
                assert(lone_t.contains(t));
                let x = choose|x: int| 0 <= x < lone_t.len() && lone_t[x] == t;
                assert(all_t[x + n] == t);
            }
        }
    }
}

proof fn lemma_detection_placed(
    scores: Seq<Seq<int>>,
    threshold: int,
    a: Seq<usize>,
    d: usize,
    matches: Seq<(usize, usize)>,
    unmatched_dets: Seq<usize>,
)
    requires
        a.len() == scores.len() <= usize::MAX,
        d < scores.len(),
        matches == kept_pairs(scores, threshold, a, scores.len() as int),
        unmatched_dets == lone_detections(a, scores.len() as int) + dropped_pairs(
            scores,
            threshold,
            a,
            scores.len() as int,
        ).map_values(|p: (usize, usize)| p.0),
    ensures
        (pair_detections(matches) + unmatched_dets).contains(d),
{
    let rows = scores.len() as int;
    let n = matches.len() as int;
    let all = pair_detections(matches) + unmatched_dets;
    let lone = lone_detections(a, rows);
    let dropped = dropped_pairs(scores, threshold, a, rows);
    lemma_kept_pairs(scores, threshold, a, rows);
    lemma_dropped_pairs(scores, threshold, a, rows);
    lemma_lone_detections(a, rows);
    let p = (d, a[d as int]);
    if is_kept(scores, threshold, a, d as int) {
        assert(matches.contains(p));
        let x = choose|x: int| 0 <= x < n && matches[x] == p;
        assert(all[x] == d);
    } else if is_dropped(scores, threshold, a, d as int) {
        assert(dropped.contains(p));
        let x = choose|x: int| 0 <= x < dropped.len() && dropped[x] == p;
        assert(all[x + n + lone.len()] == d);
    } else {
        assert(lone.contains(d));
        let x = choose|x: int| 0 <= x < lone.len() && lone[x] == d;
        assert(all[x + n] == d);
    }
}

/// What it means for the single lists that each number comes up once in them
/// together.
pub(crate) proof fn lemma_accounted(
    matches: Seq<(usize, usize)>,
    starts: Seq<usize>,
    others: Seq<usize>,
    rows: int,
    cols: int,
)
    requires
        0 <= rows,
        lists_each_once(
            pair_detections(matches) + starts,
            rows,
        ),
        lists_each_once(
            pair_trackers(matches) + others,
            cols,
        ),
    ensures
        starts.no_duplicates(),
        starts.len() <= rows,
        forall|x: int| 0 <= x < starts.len() ==> #[trigger] starts[x] < rows,
        forall|x: int| 0 <= x < matches.len() ==> (#[trigger] matches[x]).1 < cols,
        forall|x: int| 0 <= x < matches.len() ==> (#[trigger] matches[x]).0 < rows,
        forall|x: int, y: int|
            0 <= x < y < matches.len() ==> (#[trigger] matches[x]).1 != (#[trigger] matches[y]).1,
{
    let n = matches.len() as int;
    let dets = pair_detections(matches) + starts;
    let trks = pair_trackers(matches) + others;
    assert forall|x: int, y: int| 0 <= x < y < starts.len() implies starts[x] != starts[y] by {
        assert(dets[n + x] == starts[x] && dets[n + y] == starts[y]);
    }
    assert forall|x: int| 0 <= x < starts.len() implies #[trigger] starts[x] < rows by {
        assert(dets[n + x] == starts[x]);
        assert(dets.contains(starts[x]));
    }
    assert forall|x: int| 0 <= x < n implies (#[trigger] matches[x]).1 < cols && matches[x].0 < rows by {
        assert(trks[x] == matches[x].1);
        assert(trks.contains(matches[x].1));
        assert(dets[x] == matches[x].0);
        assert(dets.contains(matches[x].0));
    }
    assert forall|x: int, y: int| 0 <= x < y < n implies (#[trigger] matches[x]).1 != (
    #[trigger] matches[y]).1 by {
        assert(trks[x] == matches[x].1 && trks[y] == matches[y].1);
    }
    let wide = starts.map_values(|d: usize| d as int);
    let range = vstd::set_lib::set_int_range(0, rows);
    vstd::set_lib::lemma_int_range(0, rows);
    assert(wide.no_duplicates());
    wide.unique_seq_to_set();
    assert(wide.to_set().subset_of(range));
    vstd::set_lib::lemma_len_subset(wide.to_set(), range);
}

/// The matches of an association are between detections and trackers that
/// there are.
pub(crate) proof fn lemma_matches_in_range(
    scores: Seq<Seq<int>>,
    cols: int,
    threshold: int,
    matches: Seq<(usize, usize)>,
)
    requires
        scores.len() <= usize::MAX,
        0 <= cols <= usize::MAX,
        are_matches(scores, cols, threshold, matches),
    ensures
        forall|x: int| 0 <= x < matches.len() ==> (#[trigger] matches[x]).0 < scores.len(),
        forall|x: int| 0 <= x < matches.len() ==> (#[trigger] matches[x]).1 < cols,
{
    let dets = choose|dets: Seq<usize>| #[trigger]
        is_matching(scores, cols, threshold, matches, dets);
    let trks = choose|trks: Seq<usize>| #[trigger]
        is_association(scores, cols, threshold, matches, dets, trks);
    law_association_accounts_for_all(scores, cols, threshold, matches, dets, trks);
    lemma_accounted(matches, dets, trks, scores.len() as int, cols);
}

/// Scores have one association: every call with the same scores and the same threshold
/// returns the same.
pub proof fn law_association_is_unique(
    scores: Seq<Seq<int>>,
    cols: int,
    threshold: int,
    matches: Seq<(usize, usize)>,
    unmatched_dets: Seq<usize>,
    unmatched_trks: Seq<usize>,
    other_matches: Seq<(usize, usize)>,
    other_dets: Seq<usize>,
    other_trks: Seq<usize>,
)
    requires
        is_association(scores, cols, threshold, matches, unmatched_dets, unmatched_trks),
        is_association(scores, cols, threshold, other_matches, other_dets, other_trks),
    ensures
        matches == other_matches,
        unmatched_dets == other_dets,
        unmatched_trks == other_trks,
{
    let a = choose|a: Seq<usize>| #[trigger]
        is_pairing(scores, cols, threshold, a) && is_outcome(
            scores,
            cols,
            threshold,
            a,
            matches,
            unmatched_dets,
            unmatched_trks,
        );
    let b = choose|b: Seq<usize>| #[trigger]
        is_pairing(scores, cols, threshold, b) && is_outcome(
            scores,
            cols,
            threshold,
            b,
            other_matches,
            other_dets,
            other_trks,
        );
    if is_unambiguous(scores, cols, threshold) {
        assert forall|i: int| 0 <= i < a.len() implies a[i] == b[i] by {
            if a[i] != UNASSIGNED {
                assert(overlaps(scores, cols, threshold, i, a[i] as int));
                assert(b[i] != UNASSIGNED);
            }
            if b[i] != UNASSIGNED {
                assert(overlaps(scores, cols, threshold, i, b[i] as int));
                assert(a[i] != UNASSIGNED);
            }
        }
        assert(a =~= b);
    }
}

/// As `law_association_is_unique`, for the matches alone.
pub(crate) proof fn lemma_same_matches(
    scores: Seq<Seq<int>>,
    cols: int,
    threshold: int,
    matches: Seq<(usize, usize)>,
    others: Seq<(usize, usize)>,
)
    requires
        are_matches(scores, cols, threshold, matches),
        are_matches(scores, cols, threshold, others),
    ensures
        matches == others,
{
    let d = choose|d: Seq<usize>| #[trigger] is_matching(scores, cols, threshold, matches, d);
    let t = choose|t: Seq<usize>| #[trigger]
        is_association(scores, cols, threshold, matches, d, t);
    let e = choose|e: Seq<usize>| #[trigger] is_matching(scores, cols, threshold, others, e);
    let u = choose|u: Seq<usize>| #[trigger]
        is_association(scores, cols, threshold, others, e, u);
    law_association_is_unique(scores, cols, threshold, matches, d, t, others, e, u);
}

} // verus!
