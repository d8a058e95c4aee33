//! What an assignment and an association are the best of.

use vstd::prelude::*;

use crate::assignment::{
    entries, is_assignment, is_minimum_assignment, paid_by_first, total_cost, UNASSIGNED,
};
use crate::association::{
    dropped_pairs, is_association, is_outcome, is_pairing, is_unambiguous, kept_pairs,
    lemma_kept_pairs, lemma_pairing_is_injective, lone_detections, lone_trackers, negated,
    overlaps, score_entries,
};

verus! {

/// The sum of some values.
pub open spec fn sum_of(values: Seq<int>) -> int {
    values.fold_left(0, |sum: int, x: int| sum + x)
}

/// The entries of a matrix that rows have in the columns that `a` gives them, 0 for a row
/// without a column.
pub open spec fn chosen(matrix: Seq<Seq<int>>, a: Seq<usize>) -> Seq<int> {
    Seq::new(
        matrix.len(),
        |i: int|
            if a[i] == usize::MAX {
                0
            } else {
                matrix[i][a[i] as int]
            },
    )
}

/// `a` gives rows columns of their own, as many as can be: each row one if there are enough
/// columns, and each column to some row if there are enough rows. `usize::MAX` is none.
pub open spec fn pairs_up(a: Seq<usize>, rows: int, cols: int) -> bool {
    &&& a.len() == rows
    &&& forall|i: int| 0 <= i < rows ==> #[trigger] a[i] < cols || a[i] == usize::MAX
    &&& forall|i: int, k: int|
        0 <= i < k < rows ==> #[trigger] a[i] != #[trigger] a[k] || a[i] == usize::MAX
    &&& rows <= cols ==> forall|i: int| 0 <= i < rows ==> #[trigger] a[i] != usize::MAX
    &&& cols <= rows ==> forall|j: usize| j < cols ==> #[trigger] a.contains(j)
}

proof fn lemma_pairs_up(a: Seq<usize>, rows: int, cols: int)
    ensures
        pairs_up(a, rows, cols) <==> is_assignment(a, rows, cols),
{
    if pairs_up(a, rows, cols) {
        assert forall|i: int, k: int|
            0 <= i < rows && 0 <= k < rows && #[trigger] a[i] == #[trigger] a[k] && a[i]
                != UNASSIGNED implies i == k by {
            if i < k {
                assert(a[i] != a[k] || a[i] == usize::MAX);
            } else if k < i {
                assert(a[k] != a[i] || a[k] == usize::MAX);
            }
        }
    }
}

proof fn lemma_sum_of_chosen(matrix: Seq<Seq<int>>, a: Seq<usize>, k: int)
    requires
        0 <= k <= matrix.len(),
    ensures
        sum_of(chosen(matrix, a).take(k)) == paid_by_first(matrix, a, k),
    decreases k,
{
    if k > 0 {
        lemma_sum_of_chosen(matrix, a, k - 1);
        assert(chosen(matrix, a).take(k).drop_last() =~= chosen(matrix, a).take(k - 1));
    }
}

/// No way of giving rows columns of their own, as many as can be, costs less than an
/// assignment of minimum cost, which is such a way.
pub proof fn law_no_assignment_is_cheaper(
    cost: Seq<Seq<int>>,
    cols: int,
    a: Seq<usize>,
    b: Seq<usize>,
)
    requires
        is_minimum_assignment(cost, cols, a),
        pairs_up(b, cost.len() as int, cols),
    ensures
        pairs_up(a, cost.len() as int, cols),
        sum_of(chosen(cost, a)) <= sum_of(chosen(cost, b)),
{
    let n = cost.len() as int;
    lemma_pairs_up(a, n, cols);
    lemma_pairs_up(b, n, cols);
    lemma_sum_of_chosen(cost, a, n);
    lemma_sum_of_chosen(cost, b, n);
    assert(chosen(cost, a).take(n) =~= chosen(cost, a));
    assert(chosen(cost, b).take(n) =~= chosen(cost, b));
    assert(total_cost(cost, a) <= total_cost(cost, b));
}

/// Exchanging the columns of two rows of an assignment of minimum cost saves nothing.
pub proof fn law_no_exchange_is_cheaper(
    cost: Seq<Seq<int>>,
    cols: int,
    a: Seq<usize>,
    i: int,
    k: int,
)
    requires
        is_minimum_assignment(cost, cols, a),
        0 <= i < k < cost.len(),
        a[i] != usize::MAX,
        a[k] != usize::MAX,
    ensures
        cost[i][a[i] as int] + cost[k][a[k] as int] <= cost[i][a[k] as int] + cost[k][a[i] as int],
{
    let n = cost.len() as int;
    let b = a.update(i, a[k]).update(k, a[i]);
    assert(pairs_up(b, n, cols)) by {
        assert forall|x: int, y: int| 0 <= x < y < n implies #[trigger] b[x] != #[trigger] b[y] || b[x]
            == usize::MAX by {
            let s = if x == i {
                k
            } else if x == k {
                i
            } else {
                x
            };
            let t = if y == i {
                k
            } else if y == k {
                i
            } else {
                y
            };
            assert(b[x] == a[s] && b[y] == a[t]);
        }
        if cols <= n {
            assert forall|j: usize| j < cols implies #[trigger] b.contains(j) by {
                assert(a.contains(j));
                let x = choose|x: int| 0 <= x < a.len() && a[x] == j;
                let s = if x == i {
                    k
                } else if x == k {
                    i
                } else {
                    x
                };
                assert(b[s] == j);
            }
        }
    }
    law_no_assignment_is_cheaper(cost, cols, a, b);
    lemma_sum_of_chosen(cost, a, n);
    lemma_sum_of_chosen(cost, b, n);
    assert(chosen(cost, a).take(n) =~= chosen(cost, a));
    assert(chosen(cost, b).take(n) =~= chosen(cost, b));
    lemma_exchanged(cost, a, b, i, k, n);
}

proof fn lemma_exchanged(
    cost: Seq<Seq<int>>,
    a: Seq<usize>,
    b: Seq<usize>,
    i: int,
    k: int,
    n: int,
)
    requires
        0 <= i < k < a.len(),
        0 <= n <= a.len(),
        a[i] != usize::MAX,
        a[k] != usize::MAX,
        b == a.update(i, a[k]).update(k, a[i]),
    ensures
        paid_by_first(cost, b, n) - paid_by_first(cost, a, n) == (if i < n {
            cost[i][a[k] as int] - cost[i][a[i] as int]
        } else {
            0
        }) + (if k < n {
            cost[k][a[i] as int] - cost[k][a[k] as int]
        } else {
            0
        }),
    decreases n,
{
    if n > 0 {
        lemma_exchanged(cost, a, b, i, k, n - 1);
    }
}

/// Whether a score is above the threshold.
pub open spec fn is_over(scores: Seq<Seq<int>>, cols: int, threshold: int, i: int, j: int) -> bool {
    0 <= i < scores.len() && 0 <= j < cols && scores[i][j] > threshold
}

/// Some score is above the threshold, and no two in one row or in one column are.
pub open spec fn has_clear_pairs(scores: Seq<Seq<int>>, cols: int, threshold: int) -> bool {
    &&& exists|i: int, j: int| #[trigger] is_over(scores, cols, threshold, i, j)
    &&& forall|i: int, j: int, k: int, l: int| #[trigger]
        is_over(scores, cols, threshold, i, j) && #[trigger] is_over(scores, cols, threshold, k, l)
            ==> (i == k <==> j == l)
}

proof fn lemma_clear_pairs(scores: Seq<Seq<int>>, cols: int, threshold: int)
    ensures
        has_clear_pairs(scores, cols, threshold) <==> is_unambiguous(scores, cols, threshold),
{
    assert forall|i: int, j: int| #[trigger] is_over(scores, cols, threshold, i, j) == overlaps(
        scores,
        cols,
        threshold,
        i,
        j,
    ) by {}
    if has_clear_pairs(scores, cols, threshold) {
        let (i, j) = choose|i: int, j: int| #[trigger] is_over(scores, cols, threshold, i, j);
        assert(overlaps(scores, cols, threshold, i, j));
        assert forall|i: int, j: int, k: int| #[trigger]
            overlaps(scores, cols, threshold, i, j) && #[trigger] overlaps(
                scores,
                cols,
                threshold,
                i,
                k,
            ) implies j == k by {
            assert(is_over(scores, cols, threshold, i, j) && is_over(
                scores,
                cols,
                threshold,
                i,
                k,
            ));
        }
        assert forall|i: int, j: int, k: int| #[trigger]
            overlaps(scores, cols, threshold, i, j) && #[trigger] overlaps(
                scores,
                cols,
                threshold,
                k,
                j,
            ) implies i == k by {
            assert(is_over(scores, cols, threshold, i, j) && is_over(
                scores,
                cols,
                threshold,
                k,
                j,
            ));
        }
    }
    if is_unambiguous(scores, cols, threshold) {
        let (i, j) = choose|i: int, j: int| #[trigger] overlaps(scores, cols, threshold, i, j);
        assert(is_over(scores, cols, threshold, i, j));
        assert forall|i: int, j: int, k: int, l: int| #[trigger]
            is_over(scores, cols, threshold, i, j) && #[trigger] is_over(
                scores,
                cols,
                threshold,
                k,
                l,
            ) implies (i == k <==> j == l) by {
            assert(overlaps(scores, cols, threshold, i, j));
            assert(overlaps(scores, cols, threshold, k, l));
        }
    }
}

/// Where the scores above the threshold make clear pairs, these are the matches.
pub proof fn law_clear_pairs_are_matched(
    scores: Seq<Seq<int>>,
    cols: int,
    threshold: int,
    matches: Seq<(usize, usize)>,
    unmatched_dets: Seq<usize>,
    unmatched_trks: Seq<usize>,
    i: usize,
    j: usize,
)
    requires
        scores.len() < usize::MAX,
        0 <= cols < usize::MAX,
        is_association(scores, cols, threshold, matches, unmatched_dets, unmatched_trks),
        has_clear_pairs(scores, cols, threshold),
    ensures
        matches.contains((i, j)) <==> i < scores.len() && j < cols && scores[i as int][j as int]
            > threshold,
{
    let a = choose|a: Seq<usize>| #[trigger]
        is_pairing(scores, cols, threshold, a) && is_outcome(
            scores,
            cols,
            threshold,
            a,
            matches,
            unmatched_dets,
            unmatched_trks,
        );
    lemma_clear_pairs(scores, cols, threshold);
    lemma_pairing_is_injective(scores, cols, threshold, a);
    lemma_kept_pairs(scores, threshold, a, scores.len() as int);
    if i < scores.len() && j < cols && scores[i as int][j as int] > threshold {
        assert(overlaps(scores, cols, threshold, i as int, j as int));
        assert(a[i as int] != UNASSIGNED);
        assert(overlaps(scores, cols, threshold, i as int, a[i as int] as int));
    }
    if matches.contains((i, j)) {
        assert(a[i as int] != UNASSIGNED);
        assert(overlaps(scores, cols, threshold, i as int, a[i as int] as int));
    }
}

/// `a` pairs detections with trackers so that no other way has a higher total score.
pub open spec fn is_best(scores: Seq<Seq<int>>, cols: int, a: Seq<usize>) -> bool {
    &&& pairs_up(a, scores.len() as int, cols)
    &&& forall|b: Seq<usize>| #[trigger]
        pairs_up(b, scores.len() as int, cols) ==> sum_of(chosen(scores, b)) <= sum_of(
            chosen(scores, a),
        )
}

/// The numbers below `n`.
pub open spec fn numbers(n: int) -> Seq<usize> {
    Seq::new(n as nat, |i: int| i as usize)
}

/// The matches are the pairs of `a` that score the threshold. The unmatched detections are
/// those that `a` leaves alone, and then those of the other pairs, each in their order; so
/// are the unmatched trackers.
pub open spec fn is_outcome_of(
    scores: Seq<Seq<int>>,
    cols: int,
    threshold: int,
    a: Seq<usize>,
    matches: Seq<(usize, usize)>,
    unmatched_dets: Seq<usize>,
    unmatched_trks: Seq<usize>,
) -> bool {
    let rows = scores.len() as int;
    let low = numbers(rows).filter(
        |i: usize| a[i as int] != usize::MAX && scores[i as int][a[i as int] as int] < threshold,
    );
    &&& matches == numbers(rows).filter(
        |i: usize| a[i as int] != usize::MAX && scores[i as int][a[i as int] as int] >= threshold,
    ).map_values(|i: usize| (i, a[i as int]))
    &&& unmatched_dets == numbers(rows).filter(|i: usize| a[i as int] == usize::MAX) + low
    &&& unmatched_trks == numbers(cols).filter(|j: usize| !a.contains(j)) + low.map_values(
        |i: usize| a[i as int],
    )
}

proof fn lemma_numbers(n: int)
    requires
        0 < n <= usize::MAX,
    ensures
        numbers(n).drop_last() == numbers(n - 1),
        numbers(n).last() == n - 1,
        numbers(n).len() == n,
{
    assert(numbers(n).drop_last() =~= numbers(n - 1));
}

proof fn lemma_kept_numbers(scores: Seq<Seq<int>>, threshold: int, a: Seq<usize>, k: int)
    requires
        0 <= k <= usize::MAX,
    ensures
        kept_pairs(scores, threshold, a, k) == numbers(k).filter(
            |i: usize|
                a[i as int] != usize::MAX && scores[i as int][a[i as int] as int] >= threshold,
        ).map_values(|i: usize| (i, a[i as int])),
    decreases k,
{
    let keeps = |i: usize|
        a[i as int] != usize::MAX && scores[i as int][a[i as int] as int] >= threshold;
    let pair = |i: usize| (i, a[i as int]);
    reveal(Seq::filter);
    if k > 0 {
        lemma_kept_numbers(scores, threshold, a, k - 1);
        lemma_numbers(k);
        let before = numbers(k - 1).filter(keeps);
        assert(before.push((k - 1) as usize).map_values(pair) =~= before.map_values(pair).push(
            pair((k - 1) as usize),
        ));
    }
    assert(kept_pairs(scores, threshold, a, k) =~= numbers(k).filter(keeps).map_values(pair));
}

proof fn lemma_dropped_numbers(scores: Seq<Seq<int>>, threshold: int, a: Seq<usize>, k: int)
    requires
        0 <= k <= usize::MAX,
    ensures
        dropped_pairs(scores, threshold, a, k) == numbers(k).filter(
            |i: usize|
                a[i as int] != usize::MAX && scores[i as int][a[i as int] as int] < threshold,
        ).map_values(|i: usize| (i, a[i as int])),
    decreases k,
{
    let drops = |i: usize|
        a[i as int] != usize::MAX && scores[i as int][a[i as int] as int] < threshold;
    let pair = |i: usize| (i, a[i as int]);
    reveal(Seq::filter);
    if k > 0 {
        lemma_dropped_numbers(scores, threshold, a, k - 1);
        lemma_numbers(k);
        let before = numbers(k - 1).filter(drops);
        assert(before.push((k - 1) as usize).map_values(pair) =~= before.map_values(pair).push(
            pair((k - 1) as usize),
        ));
    }
    assert(dropped_pairs(scores, threshold, a, k) =~= numbers(k).filter(drops).map_values(pair));
}

proof fn lemma_lone_numbers(a: Seq<usize>, k: int)
    requires
        0 <= k <= usize::MAX,
    ensures
        lone_detections(a, k) == numbers(k).filter(|i: usize| a[i as int] == usize::MAX),
        lone_trackers(a, k) == numbers(k).filter(|j: usize| !a.contains(j)),
    decreases k,
{
    let alone = |i: usize| a[i as int] == usize::MAX;
    let free = |j: usize| !a.contains(j);
    reveal(Seq::filter);
    if k > 0 {
        lemma_lone_numbers(a, k - 1);
        lemma_numbers(k);
    }
    assert(lone_detections(a, k) =~= numbers(k).filter(alone));
    assert(lone_trackers(a, k) =~= numbers(k).filter(free));
}

proof fn lemma_outcome_of(
    scores: Seq<Seq<int>>,
    cols: int,
    threshold: int,
    a: Seq<usize>,
    matches: Seq<(usize, usize)>,
    unmatched_dets: Seq<usize>,
    unmatched_trks: Seq<usize>,
)
    requires
        scores.len() <= usize::MAX,
        0 <= cols <= usize::MAX,
        is_outcome(scores, cols, threshold, a, matches, unmatched_dets, unmatched_trks),
    ensures
        is_outcome_of(scores, cols, threshold, a, matches, unmatched_dets, unmatched_trks),
{
    let rows = scores.len() as int;
    let drops = |i: usize|
        a[i as int] != usize::MAX && scores[i as int][a[i as int] as int] < threshold;
    let low = numbers(rows).filter(drops);
    let dropped = dropped_pairs(scores, threshold, a, rows);
    lemma_kept_numbers(scores, threshold, a, rows);
    lemma_dropped_numbers(scores, threshold, a, rows);
    lemma_lone_numbers(a, rows);
    lemma_lone_numbers(a, cols);
    assert(dropped.map_values(|p: (usize, usize)| p.0) =~= low);
    assert(dropped.map_values(|p: (usize, usize)| p.1) =~= low.map_values(
        |i: usize| a[i as int],
    ));
}

proof fn lemma_sum_negated(scores: Seq<Seq<int>>, cols: int, b: Seq<usize>, k: int)
    requires
        0 <= k <= scores.len(),
        forall|i: int| 0 <= i < scores.len() ==> (#[trigger] scores[i]).len() == cols,
        pairs_up(b, scores.len() as int, cols),
    ensures
        paid_by_first(negated(scores), b, k) == -paid_by_first(scores, b, k),
    decreases k,
{
    if k > 0 {
        lemma_sum_negated(scores, cols, b, k - 1);
        assert(negated(scores)[k - 1] == scores[k - 1].map_values(|s: int| -s));
        let c = b[k - 1];
    }
}

/// Where the scores above the threshold make no clear pairs, the matches are those pairs of
/// a pairing with the highest total score that score the threshold.
pub proof fn law_association_has_the_best_total(
    scores: Seq<Seq<int>>,
    cols: int,
    threshold: int,
    matches: Seq<(usize, usize)>,
    unmatched_dets: Seq<usize>,
    unmatched_trks: Seq<usize>,
)
    requires
        scores.len() < usize::MAX,
        0 <= cols < usize::MAX,
        forall|i: int| 0 <= i < scores.len() ==> (#[trigger] scores[i]).len() == cols,
        is_association(scores, cols, threshold, matches, unmatched_dets, unmatched_trks),
        !has_clear_pairs(scores, cols, threshold),
    ensures
        exists|a: Seq<usize>| #[trigger]
            is_best(scores, cols, a) && is_outcome_of(
                scores,
                cols,
                threshold,
                a,
                matches,
                unmatched_dets,
                unmatched_trks,
            ),
{
    let a = choose|a: Seq<usize>| #[trigger]
        is_pairing(scores, cols, threshold, a) && is_outcome(
            scores,
            cols,
            threshold,
            a,
            matches,
            unmatched_dets,
            unmatched_trks,
        );
    let n = scores.len() as int;
    lemma_clear_pairs(scores, cols, threshold);
    lemma_outcome_of(scores, cols, threshold, a, matches, unmatched_dets, unmatched_trks);
    let cost = negated(scores);
    assert(cost.len() == n);
    lemma_pairs_up(a, n, cols);
    lemma_sum_negated(scores, cols, a, n);
    lemma_sum_of_chosen(scores, a, n);
    assert(chosen(scores, a).take(n) =~= chosen(scores, a));
    assert forall|b: Seq<usize>| #[trigger] pairs_up(b, n, cols) implies sum_of(chosen(scores, b))
        <= sum_of(chosen(scores, a)) by {
        lemma_pairs_up(b, n, cols);
        lemma_sum_negated(scores, cols, b, n);
        lemma_sum_of_chosen(scores, b, n);
        assert(chosen(scores, b).take(n) =~= chosen(scores, b));
        assert(total_cost(cost, a) <= total_cost(cost, b));
    }
    assert(is_best(scores, cols, a));
}

/// Where the scores above the threshold make clear pairs, the unmatched detections and the
/// unmatched trackers are those without one, in their order.
pub proof fn law_others_are_unmatched(
    scores: Seq<Seq<int>>,
    cols: int,
    threshold: int,
    matches: Seq<(usize, usize)>,
    unmatched_dets: Seq<usize>,
    unmatched_trks: Seq<usize>,
)
    requires
        scores.len() < usize::MAX,
        0 <= cols < usize::MAX,
        is_association(scores, cols, threshold, matches, unmatched_dets, unmatched_trks),
        has_clear_pairs(scores, cols, threshold),
    ensures
        exists|a: Seq<usize>|
            {
                &&& #[trigger] is_outcome_of(
                    scores,
                    cols,
                    threshold,
                    a,
                    matches,
                    unmatched_dets,
                    unmatched_trks,
                )
                &&& a.len() == scores.len()
                &&& forall|i: int|
                    0 <= i < a.len() ==> #[trigger] a[i] == usize::MAX || a[i] < cols
                        && scores[i][a[i] as int] > threshold
            },
{
    let a = choose|a: Seq<usize>| #[trigger]
        is_pairing(scores, cols, threshold, a) && is_outcome(
            scores,
            cols,
            threshold,
            a,
            matches,
            unmatched_dets,
            unmatched_trks,
        );
    lemma_clear_pairs(scores, cols, threshold);
    lemma_outcome_of(scores, cols, threshold, a, matches, unmatched_dets, unmatched_trks);
    assert forall|i: int| 0 <= i < a.len() implies #[trigger] a[i] == usize::MAX || a[i] < cols
        && scores[i][a[i] as int] > threshold by {
        if a[i] != UNASSIGNED {
            assert(overlaps(scores, cols, threshold, i, a[i] as int));
        }
    }
}

/// The entries of a matrix are its numbers, row by row and column by column.
pub proof fn law_entries_are_the_numbers(matrix: Seq<Vec<i64>>, i: int, j: int)
    requires
        0 <= i < matrix.len(),
        0 <= j < matrix[i]@.len(),
    ensures
        entries(matrix).len() == matrix.len(),
        entries(matrix)[i].len() == matrix[i]@.len(),
        entries(matrix)[i][j] == matrix[i]@[j],
        score_entries(matrix).len() == matrix.len(),
        score_entries(matrix)[i].len() == matrix[i]@.len(),
        score_entries(matrix)[i][j] == matrix[i]@[j],
{
}

} // verus!
