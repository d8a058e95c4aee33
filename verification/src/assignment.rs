//! Minimum-cost assignment on a rectangular integer cost matrix.

use vstd::prelude::*;

use crate::insertion::{
    best_assignment, column_of, is_first_nearest, is_visited_row, lemma_first_nearest,
    lemma_return_end, lemma_search_end, reduced_cost, Inserted, Return, Search,
};

verus! {

/// The largest magnitude of a cost: with it the dual variables of a matrix of
/// any size fit in 128 bits.
pub const COST_LIMIT: i64 = 0x4000_0000_0000_0000;

/// The column of a row that is assigned none.
pub const UNASSIGNED: usize = usize::MAX;

/// Every row of `cost` has `cols` entries, each within the cost limit.
pub open spec fn is_matrix(cost: Seq<Vec<i64>>, cols: int) -> bool {
    &&& forall|i: int| 0 <= i < cost.len() ==> (#[trigger] cost[i])@.len() == cols
    &&& forall|i: int, j: int|
        0 <= i < cost.len() && 0 <= j < cols ==> -COST_LIMIT <= #[trigger] cost[i]@[j] <= COST_LIMIT
}

/// The entries of a matrix as integers.
pub open spec fn entries(cost: Seq<Vec<i64>>) -> Seq<Seq<int>> {
    cost.map_values(|row: Vec<i64>| row@.map_values(|c: i64| c as int))
}

/// `a` gives each of `rows` rows a column below `cols` or none, no column
/// twice, and leaves no row without a column while a column is free.
pub open spec fn is_assignment(a: Seq<usize>, rows: int, cols: int) -> bool {
    &&& a.len() == rows
    &&& forall|i: int| 0 <= i < rows ==> #[trigger] a[i] == UNASSIGNED || a[i] < cols
    &&& forall|i: int, k: int|
        0 <= i < rows && 0 <= k < rows && #[trigger] a[i] == #[trigger] a[k] && a[i] != UNASSIGNED
            ==> i == k
    &&& rows <= cols ==> forall|i: int| 0 <= i < rows ==> #[trigger] a[i] != UNASSIGNED
    &&& cols <= rows ==> forall|j: usize| j < cols ==> #[trigger] a.contains(j)
}

/// What row `i` pays under the assignment `a`.
pub open spec fn paid(cost: Seq<Seq<int>>, a: Seq<usize>, i: int) -> int {
    if a[i] == UNASSIGNED {
        0
    } else {
        cost[i][a[i] as int]
    }
}

/// What the first `k` rows pay together.
pub open spec fn paid_by_first(cost: Seq<Seq<int>>, a: Seq<usize>, k: int) -> int
    decreases k,
{
    if k <= 0 {
        0
    } else {
        paid_by_first(cost, a, k - 1) + paid(cost, a, k - 1)
    }
}

/// The total cost of an assignment.
pub open spec fn total_cost(cost: Seq<Seq<int>>, a: Seq<usize>) -> int {
    paid_by_first(cost, a, cost.len() as int)
}

/// `a` is an assignment, and no assignment costs less.
pub open spec fn is_minimum_assignment(cost: Seq<Seq<int>>, cols: int, a: Seq<usize>) -> bool {
    &&& is_assignment(a, cost.len() as int, cols)
    &&& forall|b: Seq<usize>| #[trigger]
        is_assignment(b, cost.len() as int, cols) ==> total_cost(cost, a) <= total_cost(cost, b)
}

// The solver numbers rows and columns from 1. Columns past the matrix cost
// nothing; column 0 stands for the row that is being inserted.

/// The cost of row `r` in column `j` of the matrix padded with free columns.
spec fn pad(cost: Seq<Vec<i64>>, cols: int, r: int, j: int) -> int {
    if j - 1 < cols {
        cost[r - 1]@[j - 1] as int
    } else {
        0
    }
}

/// How much the cost of row `r` in column `j` exceeds the two dual variables.
spec fn slack(
    cost: Seq<Vec<i64>>,
    cols: int,
    u: Seq<i128>,
    v: Seq<i128>,
    r: int,
    j: int,
) -> int {
    pad(cost, cols, r, j) - u[r] - v[j]
}

/// The dual variables are feasible for the first `k` rows.
spec fn feasible(
    cost: Seq<Vec<i64>>,
    cols: int,
    m: int,
    u: Seq<i128>,
    v: Seq<i128>,
    k: int,
) -> bool {
    forall|r: int, j: int|
        1 <= r <= k && 1 <= j <= m ==> #[trigger] slack(cost, cols, u, v, r, j) >= 0
}

/// Matched rows and columns have no slack.
spec fn tight(
    cost: Seq<Vec<i64>>,
    cols: int,
    m: int,
    u: Seq<i128>,
    v: Seq<i128>,
    p: Seq<usize>,
) -> bool {
    forall|j: int|
        1 <= j <= m && #[trigger] p[j] != 0 ==> slack(cost, cols, u, v, p[j] as int, j) == 0
}

/// No two columns hold the same row.
spec fn distinct_rows(m: int, p: Seq<usize>) -> bool {
    forall|j: int, k: int|
        0 <= j <= m && 0 <= k <= m && #[trigger] p[j] == #[trigger] p[k] && p[j] != 0 ==> j == k
}

/// Some column from `lo` up holds row `r`.
spec fn holds_row(m: int, p: Seq<usize>, lo: int, r: int) -> bool {
    exists|j: int| lo <= j <= m && #[trigger] p[j] == r
}

/// Some column other than `hole` holds row `r`.
spec fn held_besides(m: int, p: Seq<usize>, hole: int, r: int) -> bool {
    exists|j: int| 0 <= j <= m && j != hole && #[trigger] p[j] == r
}

/// The columns from 1 up hold exactly the first `k` rows, each once.
spec fn matching(m: int, p: Seq<usize>, k: int) -> bool {
    &&& p.len() == m + 1
    &&& forall|j: int| 1 <= j <= m ==> 0 <= #[trigger] p[j] <= k
    &&& forall|j: int, l: int|
        1 <= j <= m && 1 <= l <= m && #[trigger] p[j] == #[trigger] p[l] && p[j] != 0 ==> j == l
    &&& forall|r: int| 1 <= r <= k ==> #[trigger] holds_row(m, p, 1, r)
}

/// How far a dual variable can have moved after `k` rows: twice the cost limit
/// for each.
spec fn reach(k: int) -> int {
    0x8000_0000_0000_0000 * k
}

/// The bounds on the dual variables after `k` rows.
spec fn bounded(m: int, u: Seq<i128>, v: Seq<i128>, p: Seq<usize>, k: int, n: int) -> bool {
    &&& u.len() == m + 1
    &&& v.len() == m + 1
    &&& forall|r: int|
        1 <= r <= k ==> -COST_LIMIT <= #[trigger] u[r] <= reach(k)
    &&& forall|r: int| k < r <= n ==> #[trigger] u[r] == 0
    &&& forall|j: int| 1 <= j <= m ==> -reach(k) <= #[trigger] v[j] <= 0
    &&& forall|j: int| 1 <= j <= m && p[j] == 0 ==> #[trigger] v[j] == 0
    &&& -reach(k) <= v[0] <= reach(k)
}

proof fn lemma_pad_bound(cost: Seq<Vec<i64>>, cols: int, r: int, j: int)
    requires
        is_matrix(cost, cols),
        1 <= r <= cost.len(),
        1 <= j,
    ensures
        -COST_LIMIT <= pad(cost, cols, r, j) <= COST_LIMIT,
{
    if j - 1 < cols {
        let c = cost[r - 1]@[j - 1];
    }
}

/// Rows fewer than columns leave a column free.
proof fn lemma_free_column(m: int, p: Seq<usize>, k: int)
    requires
        matching(m, p, k),
        0 <= k < m,
    ensures
        exists|j: int| 1 <= j <= m && #[trigger] p[j] == 0,
{
    if forall|j: int| 1 <= j <= m ==> #[trigger] p[j] != 0 {
        let cols = vstd::set_lib::set_int_range(1, m + 1);
        let rows = vstd::set_lib::set_int_range(1, k + 1);
        vstd::set_lib::lemma_int_range(1, m + 1);
        vstd::set_lib::lemma_int_range(1, k + 1);
        let f = |j: int| p[j] as int;
        let image = cols.map(f);
        assert(image.subset_of(rows));
        vstd::set_lib::lemma_map_size(cols, image, f);
        vstd::set_lib::lemma_len_subset(image, rows);
    }
}

/// Row `r` is held by a used column below `hi`.
spec fn row_used(hi: int, p: Seq<usize>, used: Seq<bool>, r: int) -> bool {
    exists|j: int| 0 <= j < hi && #[trigger] used[j] && p[j] == r
}

/// The change of the dual variable of row `r` when the used columns below `hi`
/// move by `delta`.
spec fn row_change(hi: int, p: Seq<usize>, used: Seq<bool>, r: int, delta: int) -> int {
    if row_used(hi, p, used, r) {
        delta
    } else {
        0
    }
}

/// The number of columns, among the first `k`, that are not used.
spec fn unused_count(used: Seq<bool>, k: int) -> int
    decreases k,
{
    if k <= 0 {
        0
    } else {
        unused_count(used, k - 1) + (if used[k - 1] {
            0int
        } else {
            1int
        })
    }
}

proof fn lemma_unused_count(used: Seq<bool>, j: int, k: int)
    requires
        0 <= j < used.len(),
        0 <= k <= used.len(),
        !used[j],
    ensures
        0 <= unused_count(used, k),
        unused_count(used.update(j, true), k) == unused_count(used, k) - (if j < k {
            1int
        } else {
            0int
        }),
    decreases k,
{
    if k > 0 {
        lemma_unused_count(used, j, k - 1);
    }
}

/// The cost of row `r` in column `j` of the padded matrix.
fn padded(cost: &[Vec<i64>], cols: usize, r: usize, j: usize) -> (c: i128)
    requires
        is_matrix(cost@, cols as int),
        1 <= r <= cost@.len(),
        1 <= j,
    ensures
        c == pad(cost@, cols as int, r as int, j as int),
        -COST_LIMIT <= c <= COST_LIMIT,
{
    proof {
        lemma_pad_bound(cost@, cols as int, r as int, j as int);
    }
    if j - 1 < cols {
        cost[r - 1][j - 1] as i128
    } else {
        0
    }
}

/// The tentative distances and predecessors `minv2` and `way2` are `minv1` and
/// `way1`, lowered for the unused columns by way of row `i0`, held by `j0`.
spec fn scanned(
    cost: Seq<Vec<i64>>,
    cols: int,
    m: int,
    i0: int,
    j0: int,
    u: Seq<i128>,
    v: Seq<i128>,
    used: Seq<bool>,
    minv1: Seq<i128>,
    way1: Seq<usize>,
    minv2: Seq<i128>,
    way2: Seq<usize>,
) -> bool {
    &&& minv2.len() == m + 1
    &&& way2.len() == m + 1
    &&& forall|j: int| 0 <= j <= m && (j == 0 || used[j]) ==> #[trigger] minv2[j] == minv1[j]
    &&& forall|j: int| 0 <= j <= m && (j == 0 || used[j]) ==> #[trigger] way2[j] == way1[j]
    &&& forall|j: int|
        #![trigger minv2[j]]
        #![trigger way2[j]]
        1 <= j <= m && !used[j] ==> {
            let cur = slack(cost, cols, u, v, i0, j);
            if cur < minv1[j] {
                minv2[j] == cur && way2[j] == j0
            } else {
                minv2[j] == minv1[j] && way2[j] == way1[j]
            }
        }
}

/// `j1` is the first unused column at the smallest distance, `delta`.
spec fn is_nearest(m: int, used: Seq<bool>, minv: Seq<i128>, delta: int, j1: int) -> bool {
    &&& 1 <= j1 <= m
    &&& !used[j1]
    &&& delta == minv[j1]
    &&& forall|j: int| 1 <= j <= m && !used[j] ==> delta <= #[trigger] minv[j]
    &&& forall|j: int| 1 <= j < j1 && !used[j] ==> delta < #[trigger] minv[j]
}

/// Values as integers.
spec fn ints(s: Seq<i128>) -> Seq<int> {
    s.map_values(|x: i128| x as int)
}

/// Rows or columns as integers.
spec fn indices(s: Seq<usize>) -> Seq<int> {
    s.map_values(|x: usize| x as int)
}

/// A search in the middle of its run.
spec fn search_state(
    u: Seq<i128>,
    v: Seq<i128>,
    minv: Seq<i128>,
    way: Seq<usize>,
    used: Seq<bool>,
    at: int,
) -> Search {
    Search { u: ints(u), v: ints(v), minv: ints(minv), way: indices(way), used, at }
}

/// Lowers the tentative distances of the unused columns by way of row `i0`,
/// held by column `j0`, and returns the smallest with its column.
fn scan(
    cost: &[Vec<i64>],
    cols: usize,
    m: usize,
    i0: usize,
    j0: usize,
    u: &Vec<i128>,
    v: &Vec<i128>,
    used: &Vec<bool>,
    minv: &mut Vec<i128>,
    way: &mut Vec<usize>,
) -> (nearest: (i128, usize))
    requires
        is_matrix(cost@, cols as int),
        1 <= i0 <= cost@.len() <= m < usize::MAX,
        u@.len() == m + 1,
        v@.len() == m + 1,
        used@.len() == m + 1,
        old(minv)@.len() == m + 1,
        old(way)@.len() == m + 1,
        -COST_LIMIT <= u@[i0 as int] <= reach(cost@.len() - 1) + COST_LIMIT,
        forall|j: int|
            1 <= j <= m && !used@[j] ==> -reach(cost@.len() - 1) <= #[trigger] v@[j] <= 0,
        exists|j: int| 1 <= j <= m && !#[trigger] used@[j],
    ensures
        scanned(
            cost@,
            cols as int,
            m as int,
            i0 as int,
            j0 as int,
            u@,
            v@,
            used@,
            old(minv)@,
            old(way)@,
            final(minv)@,
            final(way)@,
        ),
        is_nearest(m as int, used@, final(minv)@, nearest.0 as int, nearest.1 as int),
{
    let mut delta: i128 = i128::MAX;
    let mut j1: usize = 0;
    let mut j: usize = 1;
    while j <= m
        invariant
            is_matrix(cost@, cols as int),
            1 <= i0 <= cost@.len() <= m < usize::MAX,
            1 <= j <= m + 1,
            u@.len() == m + 1,
            v@.len() == m + 1,
            used@.len() == m + 1,
            minv@.len() == m + 1,
            way@.len() == m + 1,
            -COST_LIMIT <= u@[i0 as int] <= reach(cost@.len() - 1) + COST_LIMIT,
            forall|k: int|
                1 <= k <= m && !used@[k] ==> -reach(cost@.len() - 1) <= #[trigger] v@[k] <= 0,
            forall|k: int|
                0 <= k <= m && (k == 0 || k >= j || used@[k]) ==> #[trigger] minv@[k] == old(
                    minv,
                )@[k],
            forall|k: int|
                0 <= k <= m && (k == 0 || k >= j || used@[k]) ==> #[trigger] way@[k] == old(
                    way,
                )@[k],
            forall|k: int|
                #![trigger minv@[k]]
                #![trigger way@[k]]
                1 <= k < j && !used@[k] ==> {
                    let cur = slack(cost@, cols as int, u@, v@, i0 as int, k);
                    if cur < old(minv)@[k] {
                        minv@[k] == cur && way@[k] == j0
                    } else {
                        minv@[k] == old(minv)@[k] && way@[k] == old(way)@[k]
                    }
                },
            forall|k: int| 1 <= k < j && !used@[k] ==> delta <= #[trigger] minv@[k],
            forall|k: int| 1 <= k < j1 && !used@[k] ==> delta < #[trigger] minv@[k],
            forall|k: int| 1 <= k < j && !#[trigger] used@[k] ==> j1 != 0,
            j1 == 0 ==> delta == i128::MAX,
            j1 != 0 ==> 1 <= j1 < j && !used@[j1 as int] && delta == minv@[j1 as int],
        decreases m + 1 - j,
    {
        if !used[j] {
            let cur: i128 = padded(cost, cols, i0, j) - u[i0] - v[j];
            if cur < minv[j] {
                minv.set(j, cur);
                way.set(j, j0);
            }
            if minv[j] < delta {
                delta = minv[j];
                j1 = j;
            }
        }
        j = j + 1;
    }
    (delta, j1)
}

/// The dual variables and distances after the used columns moved by `delta`.
spec fn shifted(
    m: int,
    delta: int,
    p: Seq<usize>,
    used: Seq<bool>,
    u1: Seq<i128>,
    v1: Seq<i128>,
    minv1: Seq<i128>,
    u2: Seq<i128>,
    v2: Seq<i128>,
    minv2: Seq<i128>,
) -> bool {
    &&& u2.len() == m + 1
    &&& v2.len() == m + 1
    &&& minv2.len() == m + 1
    &&& forall|r: int|
        0 <= r <= m ==> #[trigger] u2[r] == u1[r] + row_change(m + 1, p, used, r, delta)
    &&& forall|j: int|
        0 <= j <= m ==> #[trigger] v2[j] == v1[j] - (if used[j] {
            delta
        } else {
            0
        })
    &&& forall|j: int|
        0 <= j <= m ==> #[trigger] minv2[j] == minv1[j] - (if used[j] {
            0
        } else {
            delta
        })
}

/// Moves the dual variables of the used columns and of their rows by `delta`,
/// and the tentative distances of the other columns with them.
fn shift(
    m: usize,
    delta: i128,
    p: &Vec<usize>,
    used: &Vec<bool>,
    u: &mut Vec<i128>,
    v: &mut Vec<i128>,
    minv: &mut Vec<i128>,
)
    requires
        m < usize::MAX,
        p@.len() == m + 1,
        used@.len() == m + 1,
        old(u)@.len() == m + 1,
        old(v)@.len() == m + 1,
        old(minv)@.len() == m + 1,
        distinct_rows(m as int, p@),
        forall|j: int| 0 <= j <= m && #[trigger] used@[j] ==> 1 <= p@[j] <= m,
        forall|j: int|
            0 <= j <= m && #[trigger] used@[j] ==> {
                &&& i128::MIN <= old(u)@[p@[j] as int] + delta <= i128::MAX
                &&& i128::MIN <= old(v)@[j] - delta <= i128::MAX
            },
        forall|j: int|
            0 <= j <= m && !#[trigger] used@[j] ==> i128::MIN <= old(minv)@[j] - delta <= i128::MAX,
    ensures
        shifted(
            m as int,
            delta as int,
            p@,
            used@,
            old(u)@,
            old(v)@,
            old(minv)@,
            final(u)@,
            final(v)@,
            final(minv)@,
        ),
{
    let mut j: usize = 0;
    while j <= m
        invariant
            m < usize::MAX,
            0 <= j <= m + 1,
            p@.len() == m + 1,
            used@.len() == m + 1,
            u@.len() == m + 1,
            v@.len() == m + 1,
            minv@.len() == m + 1,
            distinct_rows(m as int, p@),
            forall|k: int| 0 <= k <= m && #[trigger] used@[k] ==> 1 <= p@[k] <= m,
            forall|k: int|
                0 <= k <= m && #[trigger] used@[k] ==> {
                    &&& i128::MIN <= old(u)@[p@[k] as int] + delta <= i128::MAX
                    &&& i128::MIN <= old(v)@[k] - delta <= i128::MAX
                },
            forall|k: int|
                0 <= k <= m && !#[trigger] used@[k] ==> i128::MIN <= old(minv)@[k] - delta
                    <= i128::MAX,
            forall|r: int|
                0 <= r <= m ==> #[trigger] u@[r] == old(u)@[r] + row_change(
                    j as int,
                    p@,
                    used@,
                    r,
                    delta as int,
                ),
            forall|k: int|
                0 <= k <= m ==> #[trigger] v@[k] == old(v)@[k] - (if k < j && used@[k] {
                    delta as int
                } else {
                    0
                }),
            forall|k: int|
                0 <= k <= m ==> #[trigger] minv@[k] == old(minv)@[k] - (if k >= j || used@[k] {
                    0
                } else {
                    delta as int
                }),
        decreases m + 1 - j,
    {
        let ghost before = u@;
        if used[j] {
            let i0: usize = p[j];
            assert(used@[j as int]);
            assert(!row_used(j as int, p@, used@, i0 as int)) by {
                if row_used(j as int, p@, used@, i0 as int) {
                    let k = choose|k: int| 0 <= k < j && #[trigger] used@[k] && p@[k] == i0;
                    assert(p@[k] == p@[j as int]);
                }
            }
            u.set(i0, u[i0] + delta);
            v.set(j, v[j] - delta);
        } else {
            minv.set(j, minv[j] - delta);
        }
        proof {
            assert forall|r: int| 0 <= r <= m implies #[trigger] u@[r] == old(u)@[r] + row_change(
                j + 1,
                p@,
                used@,
                r,
                delta as int,
            ) by {
                assert(before[r] == old(u)@[r] + row_change(j as int, p@, used@, r, delta as int));
                if row_used(j as int, p@, used@, r) {
                    let k = choose|k: int| 0 <= k < j && #[trigger] used@[k] && p@[k] == r;
                    assert(0 <= k < j + 1 && used@[k] && p@[k] == r);
                    assert(row_used(j + 1, p@, used@, r));
                }
                if used@[j as int] && p@[j as int] == r {
                    assert(row_used(j + 1, p@, used@, r));
                }
            }
        }
        j = j + 1;
    }
}

/// The columns reached from column 0, each by a tight step from the row of an
/// earlier one; `step` numbers them in the order in which they were reached
/// and is -1 elsewhere.
spec fn is_tree(
    cost: Seq<Vec<i64>>,
    cols: int,
    m: int,
    u: Seq<i128>,
    v: Seq<i128>,
    p: Seq<usize>,
    way: Seq<usize>,
    step: Seq<int>,
) -> bool {
    &&& step.len() == m + 1
    &&& way.len() == m + 1
    &&& step[0] == 0
    &&& forall|j: int|
        1 <= j <= m && #[trigger] step[j] != -1 ==> {
            &&& step[j] > 0
            &&& way[j] <= m
            &&& 0 <= step[way[j] as int] < step[j]
            &&& p[way[j] as int] != 0
            &&& slack(cost, cols, u, v, p[way[j] as int] as int, j) == 0
        }
}

proof fn lemma_shift_slack(
    cost: Seq<Vec<i64>>,
    cols: int,
    m: int,
    p: Seq<usize>,
    used: Seq<bool>,
    delta: int,
    u1: Seq<i128>,
    v1: Seq<i128>,
    minv1: Seq<i128>,
    u2: Seq<i128>,
    v2: Seq<i128>,
    minv2: Seq<i128>,
)
    requires
        shifted(m, delta, p, used, u1, v1, minv1, u2, v2, minv2),
    ensures
        forall|r: int, j: int|
            0 <= r <= m && 0 <= j <= m ==> #[trigger] slack(cost, cols, u2, v2, r, j) == slack(
                cost,
                cols,
                u1,
                v1,
                r,
                j,
            ) - row_change(m + 1, p, used, r, delta) + (if used[j] {
                delta
            } else {
                0
            }),
{
    assert forall|r: int, j: int| 0 <= r <= m && 0 <= j <= m implies #[trigger] slack(
        cost,
        cols,
        u2,
        v2,
        r,
        j,
    ) == slack(cost, cols, u1, v1, r, j) - row_change(m + 1, p, used, r, delta) + (if used[j] {
        delta
    } else {
        0
    }) by {
        let a = u2[r];
        let b = v2[j];
    }
}

/// What the search for a free column keeps: `u0` and `v0` are the dual
/// variables at its start, `t` columns are used so far, and `j0` comes next.
#[verifier::opaque]
spec fn searching(
    cost: Seq<Vec<i64>>,
    cols: int,
    m: int,
    i: int,
    u0: Seq<i128>,
    v0: Seq<i128>,
    p: Seq<usize>,
    u: Seq<i128>,
    v: Seq<i128>,
    used: Seq<bool>,
    minv: Seq<i128>,
    way: Seq<usize>,
    step: Seq<int>,
    t: int,
    j0: int,
) -> bool {
    let gain = if t > 0 {
        u[i] + COST_LIMIT
    } else {
        0
    };
    &&& u.len() == m + 1
    &&& v.len() == m + 1
    &&& used.len() == m + 1
    &&& minv.len() == m + 1
    &&& way.len() == m + 1
    &&& step.len() == m + 1
    &&& 0 <= t
    &&& 0 <= j0 <= m
    &&& !used[j0]
    &&& forall|j: int| 0 <= j <= m ==> (#[trigger] used[j] <==> 0 <= step[j] < t)
    &&& forall|j: int| 0 <= j <= m && !#[trigger] used[j] ==> step[j] == -1
    &&& t == 0 ==> {
        &&& j0 == 0
        &&& u == u0
        &&& v == v0
        &&& forall|j: int| 0 <= j <= m ==> !#[trigger] used[j]
        &&& forall|j: int| 0 <= j <= m ==> #[trigger] minv[j] == i128::MAX
    }
    &&& t > 0 ==> {
        &&& used[0]
        &&& step[0] == 0
        &&& minv[j0] == 0
        &&& -COST_LIMIT <= u[i] <= COST_LIMIT
        &&& forall|j: int|
            1 <= j <= m && !#[trigger] used[j] ==> {
                &&& way[j] <= m
                &&& used[way[j] as int]
                &&& minv[j] >= 0
                &&& minv[j] == slack(cost, cols, u, v, p[way[j] as int] as int, j)
            }
        &&& forall|j: int, k: int|
            1 <= j <= m && 0 <= k <= m && !used[j] && used[k] ==> minv[j] <= #[trigger] slack(
                cost,
                cols,
                u,
                v,
                p[k] as int,
                j,
            )
        &&& feasible(cost, cols, m, u, v, i)
    }
    &&& forall|j: int| 0 <= j <= m && #[trigger] used[j] ==> p[j] != 0
    &&& forall|j: int|
        1 <= j <= m && #[trigger] used[j] ==> {
            &&& way[j] <= m
            &&& 0 <= step[way[j] as int] < step[j]
            &&& slack(cost, cols, u, v, p[way[j] as int] as int, j) == 0
        }
    &&& feasible(cost, cols, m, u, v, i - 1)
    &&& tight(cost, cols, m, u, v, p)
    &&& forall|r: int| 1 <= r < i ==> u0[r] <= #[trigger] u[r] <= u0[r] + gain
    &&& forall|r: int| i < r <= cost.len() ==> #[trigger] u[r] == 0
    &&& forall|j: int| 1 <= j <= m ==> v0[j] - gain <= #[trigger] v[j] <= v0[j]
    &&& forall|j: int| 1 <= j <= m && !used[j] ==> #[trigger] v[j] == v0[j]
    &&& v[0] == v0[0] - u[i]
}

/// What a scan needs, in the middle of a search.
proof fn lemma_scan_ready(
    cost: Seq<Vec<i64>>,
    cols: int,
    m: int,
    i: int,
    u0: Seq<i128>,
    v0: Seq<i128>,
    p: Seq<usize>,
    u: Seq<i128>,
    v: Seq<i128>,
    used: Seq<bool>,
    minv: Seq<i128>,
    way: Seq<usize>,
    step: Seq<int>,
    t: int,
    j0: int,
    free: int,
)
    requires
        is_matrix(cost, cols),
        1 <= i <= cost.len() <= m < usize::MAX,
        matching(m, p, i - 1),
        p[0] == i,
        p[j0] != 0,
        1 <= free <= m,
        p[free] == 0,
        bounded(m, u0, v0, p, i - 1, cost.len() as int),
        searching(cost, cols, m, i, u0, v0, p, u, v, used, minv, way, step, t, j0),
    ensures
        u.len() == m + 1,
        v.len() == m + 1,
        used.len() == m + 1,
        minv.len() == m + 1,
        way.len() == m + 1,
        step.len() == m + 1,
        0 <= j0 <= m,
        !used[j0],
        !used.update(j0, true)[free],
        1 <= p[j0] <= i,
        -COST_LIMIT <= u[p[j0] as int] <= reach(cost.len() - 1) + COST_LIMIT,
        forall|j: int|
            1 <= j <= m && !used.update(j0, true)[j] ==> -reach(cost.len() - 1) <= #[trigger] v[j]
                <= 0,
{
    reveal(searching);
    if p[j0] == i {
        assert(j0 == 0);
    } else {
        let r = p[j0] as int;
        assert(1 <= r < i);
        assert(-COST_LIMIT <= u0[r] <= reach(i - 1));
        assert(u0[r] <= u[r]);
    }
}

/// The distances that a scan leaves, and what the move by the smallest one
/// needs of them.
proof fn lemma_scan_bounds(
    cost: Seq<Vec<i64>>,
    cols: int,
    m: int,
    i: int,
    u0: Seq<i128>,
    v0: Seq<i128>,
    p: Seq<usize>,
    u: Seq<i128>,
    v: Seq<i128>,
    used: Seq<bool>,
    minv: Seq<i128>,
    way: Seq<usize>,
    step: Seq<int>,
    t: int,
    j0: int,
    free: int,
    minv2: Seq<i128>,
    way2: Seq<usize>,
    delta: int,
    j1: int,
)
    requires
        is_matrix(cost, cols),
        1 <= i <= cost.len() <= m < usize::MAX,
        matching(m, p, i - 1),
        p[0] == i,
        p[j0] != 0,
        1 <= free <= m,
        p[free] == 0,
        bounded(m, u0, v0, p, i - 1, cost.len() as int),
        searching(cost, cols, m, i, u0, v0, p, u, v, used, minv, way, step, t, j0),
        scanned(
            cost,
            cols,
            m,
            p[j0] as int,
            j0,
            u,
            v,
            used.update(j0, true),
            minv,
            way,
            minv2,
            way2,
        ),
        is_nearest(m, used.update(j0, true), minv2, delta, j1),
    ensures
        -COST_LIMIT <= delta,
        t > 0 ==> 0 <= delta,
        u[i] + delta <= COST_LIMIT,
        forall|j: int|
            1 <= j <= m && !used.update(j0, true)[j] ==> {
                &&& #[trigger] minv2[j] <= slack(cost, cols, u, v, i, j)
                &&& minv2[j] <= 2 * COST_LIMIT + reach(i - 1)
            },
        distinct_rows(m, p),
        forall|j: int| 0 <= j <= m && #[trigger] used.update(j0, true)[j] ==> 1 <= p[j] <= m,
        forall|j: int|
            0 <= j <= m && #[trigger] used.update(j0, true)[j] ==> {
                &&& i128::MIN <= u[p[j] as int] + delta <= i128::MAX
                &&& i128::MIN <= v[j] - delta <= i128::MAX
            },
        forall|j: int|
            0 <= j <= m && !#[trigger] used.update(j0, true)[j] ==> i128::MIN <= minv2[j] - delta
                <= i128::MAX,
{
    reveal(searching);
    let used2 = used.update(j0, true);
    assert(used2[0]);
    assert forall|j: int| 1 <= j <= m && !used2[j] implies {
        &&& #[trigger] minv2[j] <= slack(cost, cols, u, v, i, j)
        &&& minv2[j] <= 2 * COST_LIMIT + reach(i - 1)
        &&& -COST_LIMIT <= minv2[j]
        &&& t > 0 ==> 0 <= minv2[j]
    } by {
        assert(!used[j]);
        lemma_pad_bound(cost, cols, i, j);
        assert(v[j] == v0[j]);
        assert(v0[j] <= 0);
        if t > 0 {
            assert(minv[j] <= slack(cost, cols, u, v, p[0] as int, j));
            assert(feasible(cost, cols, m, u, v, i));
            assert(slack(cost, cols, u, v, p[j0] as int, j) >= 0);
        }
    }
    lemma_pad_bound(cost, cols, i, free);
    assert(!used2[free]);
    assert(v[free] == v0[free]);
    let a = minv2[free];
    let b = minv2[j1];
    assert forall|j: int| 0 <= j <= m && #[trigger] used2[j] implies {
        &&& i128::MIN <= u[p[j] as int] + delta <= i128::MAX
        &&& i128::MIN <= v[j] - delta <= i128::MAX
    } by {
        let r = p[j] as int;
        if r < i {
            assert(-COST_LIMIT <= u0[r] <= reach(i - 1));
            assert(u0[r] <= u[r]);
        }
        if j > 0 {
            assert(-reach(i - 1) <= v0[j] <= 0);
            assert(v[j] <= v0[j]);
        }
    }
}

/// One round of the search keeps what the search keeps.
#[verifier::rlimit(60)]
proof fn lemma_search_step(
    cost: Seq<Vec<i64>>,
    cols: int,
    m: int,
    i: int,
    u0: Seq<i128>,
    v0: Seq<i128>,
    p: Seq<usize>,
    u: Seq<i128>,
    v: Seq<i128>,
    used: Seq<bool>,
    minv: Seq<i128>,
    way: Seq<usize>,
    step: Seq<int>,
    t: int,
    j0: int,
    free: int,
    minv2: Seq<i128>,
    way2: Seq<usize>,
    delta: int,
    j1: int,
    u3: Seq<i128>,
    v3: Seq<i128>,
    minv3: Seq<i128>,
)
    requires
        is_matrix(cost, cols),
        1 <= i <= cost.len() <= m < usize::MAX,
        matching(m, p, i - 1),
        p[0] == i,
        p[j0] != 0,
        1 <= free <= m,
        p[free] == 0,
        bounded(m, u0, v0, p, i - 1, cost.len() as int),
        searching(cost, cols, m, i, u0, v0, p, u, v, used, minv, way, step, t, j0),
        scanned(
            cost,
            cols,
            m,
            p[j0] as int,
            j0,
            u,
            v,
            used.update(j0, true),
            minv,
            way,
            minv2,
            way2,
        ),
        is_nearest(m, used.update(j0, true), minv2, delta, j1),
        shifted(m, delta, p, used.update(j0, true), u, v, minv2, u3, v3, minv3),
    ensures
        searching(
            cost,
            cols,
            m,
            i,
            u0,
            v0,
            p,
            u3,
            v3,
            used.update(j0, true),
            minv3,
            way2,
            step.update(j0, t),
            t + 1,
            j1,
        ),
{
    reveal(searching);
    let used2 = used.update(j0, true);
    let step2 = step.update(j0, t);
    let i0 = p[j0] as int;
    lemma_scan_bounds(
        cost,
        cols,
        m,
        i,
        u0,
        v0,
        p,
        u,
        v,
        used,
        minv,
        way,
        step,
        t,
        j0,
        free,
        minv2,
        way2,
        delta,
        j1,
    );
    lemma_shift_slack(cost, cols, m, p, used2, delta, u, v, minv2, u3, v3, minv3);
    assert(used2[j0]);
    assert(used2[0]);
    // Rows of used columns are the used rows, and no others.
    assert forall|k: int| 0 <= k <= m && #[trigger] used2[k] implies row_used(
        m + 1,
        p,
        used2,
        p[k] as int,
    ) && 1 <= p[k] <= i by {
        assert(0 <= k < m + 1 && used2[k] && p[k] == p[k]);
    }
    assert forall|k: int| 1 <= k <= m && !#[trigger] used2[k] && p[k] != 0 implies !row_used(
        m + 1,
        p,
        used2,
        p[k] as int,
    ) by {
        if row_used(m + 1, p, used2, p[k] as int) {
            let l = choose|l: int| 0 <= l < m + 1 && #[trigger] used2[l] && p[l] == p[k];
            assert(p[l] == p[k]);
        }
    }
    assert(row_used(m + 1, p, used2, i)) by {
        assert(used2[0] && p[0] == i);
    }
    assert forall|r: int| i < r <= m implies !#[trigger] row_used(m + 1, p, used2, r) by {
        if row_used(m + 1, p, used2, r) {
            let l = choose|l: int| 0 <= l < m + 1 && #[trigger] used2[l] && p[l] == r;
            assert(p[l] == r);
        }
    }
    assert(u3[i] == u[i] + delta);
    // The unused columns: distances by way of a used row, none nearer.
    assert forall|j: int| 1 <= j <= m && !#[trigger] used2[j] implies {
        &&& way2[j] <= m
        &&& used2[way2[j] as int]
        &&& minv3[j] >= 0
        &&& minv3[j] == slack(cost, cols, u3, v3, p[way2[j] as int] as int, j)
    } by {
        assert(!used[j]);
        assert(delta <= minv2[j]);
        assert(minv3[j] == minv2[j] - delta);
        let w = way2[j] as int;
        if slack(cost, cols, u, v, i0, j) < minv[j] {
            assert(w == j0);
        } else {
            assert(t > 0);
            assert(w == way[j]);
            assert(used[w]);
        }
        assert(used2[w]);
        assert(minv2[j] == slack(cost, cols, u, v, p[w] as int, j));
        assert(row_used(m + 1, p, used2, p[w] as int));
    }
    assert forall|j: int, k: int|
        1 <= j <= m && 0 <= k <= m && !used2[j] && used2[k] implies minv3[j] <= #[trigger] slack(
        cost,
        cols,
        u3,
        v3,
        p[k] as int,
        j,
    ) by {
        assert(row_used(m + 1, p, used2, p[k] as int));
        assert(minv3[j] == minv2[j] - delta);
        if k == j0 {
            assert(minv2[j] <= slack(cost, cols, u, v, i0, j));
        } else {
            assert(used[k]);
            assert(minv[j] <= slack(cost, cols, u, v, p[k] as int, j));
        }
    }
    assert(minv3[j1] == 0);
    // Tight steps between used columns stay tight.
    assert forall|j: int| 1 <= j <= m && #[trigger] used2[j] implies {
        &&& way2[j] <= m
        &&& 0 <= step2[way2[j] as int] < step2[j]
        &&& slack(cost, cols, u3, v3, p[way2[j] as int] as int, j) == 0
    } by {
        let w = way2[j] as int;
        assert(w == way[j]);
        if j == j0 {
            assert(t > 0);
            assert(!used[j0]);
            assert(minv[j0] == slack(cost, cols, u, v, p[way[j0] as int] as int, j0));
            assert(used[w]);
        } else {
            assert(used[j]);
            assert(used[w]);
        }
        assert(used2[w]);
        assert(row_used(m + 1, p, used2, p[w] as int));
    }
    assert(feasible(cost, cols, m, u3, v3, i)) by {
        assert forall|r: int, j: int| 1 <= r <= i && 1 <= j <= m implies #[trigger] slack(
            cost,
            cols,
            u3,
            v3,
            r,
            j,
        ) >= 0 by {
            if row_used(m + 1, p, used2, r) {
                let k = choose|k: int| 0 <= k < m + 1 && #[trigger] used2[k] && p[k] == r;
                if !used2[j] {
                    assert(minv3[j] <= slack(cost, cols, u3, v3, p[k] as int, j));
                } else {
                    // Some column besides column 0 is used only after a first move.
                    assert(t > 0);
                    assert(feasible(cost, cols, m, u, v, i));
                    assert(slack(cost, cols, u, v, r, j) >= 0);
                }
            } else {
                assert(r < i);
                assert(slack(cost, cols, u, v, r, j) >= 0);
                if used2[j] {
                    assert(t > 0);
                }
            }
        }
    }
    assert(feasible(cost, cols, m, u3, v3, i - 1));
    assert(tight(cost, cols, m, u3, v3, p)) by {
        assert forall|j: int| 1 <= j <= m && #[trigger] p[j] != 0 implies slack(
            cost,
            cols,
            u3,
            v3,
            p[j] as int,
            j,
        ) == 0 by {
            assert(slack(cost, cols, u, v, p[j] as int, j) == 0);
            if used2[j] {
                assert(row_used(m + 1, p, used2, p[j] as int));
            }
        }
    }
    let gain = u3[i] + COST_LIMIT;
    assert forall|r: int| 1 <= r < i implies u0[r] <= #[trigger] u3[r] <= u0[r] + gain by {
        assert(u0[r] <= u[r]);
        if t == 0 {
            if row_used(m + 1, p, used2, r) {
                let k = choose|k: int| 0 <= k < m + 1 && #[trigger] used2[k] && p[k] == r;
                assert(k == 0);
            }
        }
    }
    assert forall|r: int| i < r <= cost.len() implies #[trigger] u3[r] == 0 by {
        assert(u[r] == 0);
        assert(!row_used(m + 1, p, used2, r));
    }
    assert forall|j: int| 1 <= j <= m implies v0[j] - gain <= #[trigger] v3[j] <= v0[j] by {
        assert(v0[j] - gain <= v[j] <= v0[j] || t == 0);
        if used2[j] {
            assert(t > 0);
        }
    }
    assert(v3[0] == v0[0] - u3[i]) by {
        assert(v3[0] == v[0] - delta);
    }
}

/// A scan and a shift are a step of the search.
proof fn lemma_state_step(
    cost: Seq<Vec<i64>>,
    cols: int,
    m: int,
    p: Seq<usize>,
    u1: Seq<i128>,
    v1: Seq<i128>,
    minv1: Seq<i128>,
    way1: Seq<usize>,
    used1: Seq<bool>,
    j0: int,
    minv2: Seq<i128>,
    way2: Seq<usize>,
    delta: int,
    j1: int,
    u2: Seq<i128>,
    v2: Seq<i128>,
    minv3: Seq<i128>,
)
    requires
        is_matrix(cost, cols),
        cost.len() <= m,
        0 <= j0 <= m,
        p.len() == m + 1,
        1 <= p[j0] <= cost.len(),
        u1.len() == m + 1,
        v1.len() == m + 1,
        minv1.len() == m + 1,
        way1.len() == m + 1,
        used1.len() == m + 1,
        scanned(
            cost,
            cols,
            m,
            p[j0] as int,
            j0,
            u1,
            v1,
            used1.update(j0, true),
            minv1,
            way1,
            minv2,
            way2,
        ),
        is_nearest(m, used1.update(j0, true), minv2, delta, j1),
        shifted(m, delta, p, used1.update(j0, true), u1, v1, minv2, u2, v2, minv3),
    ensures
        search_state(u2, v2, minv3, way2, used1.update(j0, true), j1) == search_state(
            u1,
            v1,
            minv1,
            way1,
            used1,
            j0,
        ).step(entries(cost), cols, indices(p)),
{
    let e = entries(cost);
    let q = indices(p);
    let used = used1.update(j0, true);
    let before = search_state(u1, v1, minv1, way1, used1, j0);
    let now = before.visiting();
    let after = before.step(e, cols, q);
    let i0 = p[j0] as int;
    assert forall|j: int| 1 <= j <= m implies #[trigger] reduced_cost(e, cols, now.u, now.v, i0, j)
        == slack(cost, cols, u1, v1, i0, j) by {
        assert(cost[i0 - 1]@.len() == cols);
    }
    assert forall|j: int| 0 <= j <= m implies ints(minv2)[j] == now.distances(e, cols, q)[j]
        && indices(way2)[j] == now.ways(e, cols, q)[j] by {
        let a = minv2[j];
        let b = way2[j];
    }
    assert(ints(minv2) =~= now.distances(e, cols, q));
    assert(indices(way2) =~= now.ways(e, cols, q));
    assert(is_first_nearest(used, ints(minv2), j1)) by {
        assert forall|k: int| 1 <= k < used.len() && !used[k] implies ints(minv2)[j1]
            <= #[trigger] ints(minv2)[k] by {
            let a = minv2[k];
        }
        assert forall|k: int| 1 <= k < j1 && !used[k] implies ints(minv2)[j1]
            < #[trigger] ints(minv2)[k] by {
            let a = minv2[k];
        }
    }
    lemma_first_nearest(used, ints(minv2), j1);
    assert forall|r: int| 0 <= r <= m implies ints(u2)[r] == after.u[r] by {
        let a = u2[r];
        if row_used(m + 1, p, used, r) {
            let j = choose|j: int| 0 <= j < m + 1 && #[trigger] used[j] && p[j] == r;
            assert(used[j] && q[j] == r);
        }
        if is_visited_row(q, used, r) {
            let j = choose|j: int| 0 <= j < used.len() && #[trigger] used[j] && q[j] == r;
            assert(used[j] && p[j] == r);
        }
    }
    assert(ints(u2) =~= after.u);
    assert forall|j: int| 0 <= j <= m implies ints(v2)[j] == after.v[j] && ints(minv3)[j]
        == after.minv[j] by {
        let a = v2[j];
        let b = minv3[j];
    }
    assert(ints(v2) =~= after.v);
    assert(ints(minv3) =~= after.minv);
}

/// Searches a free column for row `i`, which column 0 holds, along tight steps,
/// moving the dual variables as far as that takes. Returns the column and the
/// order in which columns were reached.
fn search(
    cost: &[Vec<i64>],
    cols: usize,
    m: usize,
    i: usize,
    u: &mut Vec<i128>,
    v: &mut Vec<i128>,
    p: &Vec<usize>,
    way: &mut Vec<usize>,
) -> (found: (usize, Ghost<Seq<int>>))
    requires
        is_matrix(cost@, cols as int),
        1 <= i <= cost@.len() <= m < usize::MAX,
        matching(m as int, p@, i - 1),
        p@[0] == i,
        bounded(m as int, old(u)@, old(v)@, p@, i - 1, cost@.len() as int),
        feasible(cost@, cols as int, m as int, old(u)@, old(v)@, i - 1),
        tight(cost@, cols as int, m as int, old(u)@, old(v)@, p@),
        old(way)@.len() == m + 1,
    ensures
        bounded(m as int, final(u)@, final(v)@, p@, i as int, cost@.len() as int),
        feasible(cost@, cols as int, m as int, final(u)@, final(v)@, i as int),
        tight(cost@, cols as int, m as int, final(u)@, final(v)@, p@),
        is_tree(
            cost@,
            cols as int,
            m as int,
            final(u)@,
            final(v)@,
            p@,
            final(way)@,
            found.1@,
        ),
        1 <= found.0 <= m,
        p@[found.0 as int] == 0,
        found.1@[found.0 as int] != -1,
        forall|j: int|
            0 <= j <= m && j != found.0 ==> #[trigger] found.1@[j] < found.1@[found.0 as int],
        ({
            let end = Search::start(ints(old(u)@), ints(old(v)@), indices(old(way)@)).end(
                entries(cost@),
                cols as int,
                indices(p@),
            );
            &&& ints(final(u)@) == end.u
            &&& ints(final(v)@) == end.v
            &&& indices(final(way)@) == end.way
            &&& found.0 == end.at
        }),
{
    let ghost u0 = u@;
    let ghost v0 = v@;
    let ghost e = entries(cost@);
    let ghost q = indices(p@);
    let ghost begin = Search::start(ints(u@), ints(v@), indices(way@));
    let mut minv: Vec<i128> = vec![i128::MAX; m + 1];
    let mut used: Vec<bool> = vec![false; m + 1];
    let mut j0: usize = 0;
    let ghost mut step: Seq<int> = Seq::new((m + 1) as nat, |j: int| -1int);
    let ghost mut t: int = 0;
    proof {
        lemma_free_column(m as int, p@, i - 1);
    }
    let ghost free = choose|j: int| 1 <= j <= m && #[trigger] p@[j] == 0;
    proof {
        reveal(searching);
        let state = search_state(u@, v@, minv@, way@, used@, j0 as int);
        assert(state.minv =~= begin.minv);
        assert(state.used =~= begin.used);
    }
    while p[j0] != 0
        invariant
            0 <= t,
            e == entries(cost@),
            q == indices(p@),
            search_state(u@, v@, minv@, way@, used@, j0 as int) == begin.after(
                e,
                cols as int,
                q,
                t,
            ),
            forall|l: int|
                0 <= l < t ==> q[(#[trigger] begin.after(e, cols as int, q, l)).at] != 0,
            is_matrix(cost@, cols as int),
            1 <= i <= cost@.len() <= m < usize::MAX,
            matching(m as int, p@, i - 1),
            p@[0] == i,
            1 <= free <= m,
            p@[free] == 0,
            0 <= j0 <= m,
            bounded(m as int, u0, v0, p@, i - 1, cost@.len() as int),
            searching(
                cost@,
                cols as int,
                m as int,
                i as int,
                u0,
                v0,
                p@,
                u@,
                v@,
                used@,
                minv@,
                way@,
                step,
                t,
                j0 as int,
            ),
        decreases unused_count(used@, m + 1),
    {
        let ghost used1 = used@;
        let ghost step1 = step;
        let ghost minv1 = minv@;
        let ghost way1 = way@;
        let ghost u1 = u@;
        let ghost v1 = v@;
        proof {
            lemma_scan_ready(
                cost@,
                cols as int,
                m as int,
                i as int,
                u0,
                v0,
                p@,
                u@,
                v@,
                used@,
                minv@,
                way@,
                step,
                t,
                j0 as int,
                free,
            );
            lemma_unused_count(used@, j0 as int, m + 1);
            lemma_unused_count(used@.update(j0 as int, true), free, m + 1);
        }
        used.set(j0, true);
        let i0: usize = p[j0];
        proof {
            step = step.update(j0 as int, t);
        }
        assert(!used@[free]);
        let nearest: (i128, usize) = scan(cost, cols, m, i0, j0, u, v, &used, &mut minv, way);
        let delta: i128 = nearest.0;
        let j1: usize = nearest.1;
        let ghost minv2 = minv@;
        proof {
            lemma_scan_bounds(
                cost@,
                cols as int,
                m as int,
                i as int,
                u0,
                v0,
                p@,
                u1,
                v1,
                used1,
                minv1,
                way1,
                step1,
                t,
                j0 as int,
                free,
                minv2,
                way@,
                delta as int,
                j1 as int,
            );
        }
        shift(m, delta, p, &used, u, v, &mut minv);
        proof {
            lemma_search_step(
                cost@,
                cols as int,
                m as int,
                i as int,
                u0,
                v0,
                p@,
                u1,
                v1,
                used1,
                minv1,
                way1,
                step1,
                t,
                j0 as int,
                free,
                minv2,
                way@,
                delta as int,
                j1 as int,
                u@,
                v@,
                minv@,
            );
            lemma_state_step(
                cost@,
                cols as int,
                m as int,
                p@,
                u1,
                v1,
                minv1,
                way1,
                used1,
                j0 as int,
                minv2,
                way@,
                delta as int,
                j1 as int,
                u@,
                v@,
                minv@,
            );
            assert(q[begin.after(e, cols as int, q, t).at] != 0);
            t = t + 1;
        }
        j0 = j1;
    }
    proof {
        assert(begin.ends_after(e, cols as int, q, t));
        lemma_search_end(begin, e, cols as int, q, t);
    }
    let ghost order = step.update(j0 as int, t);
    proof {
        reveal(searching);
        assert forall|j: int| 0 <= j <= m && j != j0 implies #[trigger] order[j] < order[j0 as int] by {
            let b = used@[j];
        }
        assert forall|j: int| 1 <= j <= m && #[trigger] order[j] != -1 implies {
            &&& order[j] > 0
            &&& way@[j] <= m
            &&& 0 <= order[way@[j] as int] < order[j]
            &&& p@[way@[j] as int] != 0
            &&& slack(cost@, cols as int, u@, v@, p@[way@[j] as int] as int, j) == 0
        } by {
            let w = way@[j] as int;
            if j == j0 {
                assert(!used@[j]);
                assert(used@[w]);
            } else {
                assert(used@[j]);
                assert(0 <= w <= m);
                let b = used@[w];
            }
        }
    }
    (j0, Ghost(order))
}

/// Moves every row along the way from column `start` back to column 0 one
/// column on, so that `start` is filled and column 0 is free.
fn augment(
    Ghost(cost): Ghost<Seq<Vec<i64>>>,
    Ghost(cols): Ghost<int>,
    Ghost(u): Ghost<Seq<i128>>,
    Ghost(v): Ghost<Seq<i128>>,
    Ghost(step): Ghost<Seq<int>>,
    m: usize,
    i: usize,
    start: usize,
    way: &Vec<usize>,
    p: &mut Vec<usize>,
)
    requires
        1 <= i <= m < usize::MAX,
        matching(m as int, old(p)@, i - 1),
        old(p)@[0] == i,
        tight(cost, cols, m as int, u, v, old(p)@),
        is_tree(cost, cols, m as int, u, v, old(p)@, way@, step),
        1 <= start <= m,
        old(p)@[start as int] == 0,
        step[start as int] != -1,
        forall|j: int| 0 <= j <= m && j != start ==> #[trigger] step[j] < step[start as int],
    ensures
        matching(m as int, final(p)@, i as int),
        tight(cost, cols, m as int, u, v, final(p)@),
        forall|j: int| 1 <= j <= m && old(p)@[j] != 0 ==> #[trigger] final(p)@[j] != 0,
        indices(final(p)@) == (Return { p: indices(old(p)@), at: start as int }).end(
            indices(way@),
        ).p,
{
    let ghost p0 = p@;
    let mut j0: usize = start;
    let ghost back = Return { p: indices(p@), at: start as int };
    let ghost w = indices(way@);
    let ghost mut moves: int = 0;
    proof {
        assert forall|r: int| 1 <= r <= i implies #[trigger] held_besides(
            m as int,
            p@,
            j0 as int,
            r,
        ) by {
            if r == i {
                assert(p@[0] == r);
            } else {
                assert(holds_row(m as int, p@, 1, r));
                let j = choose|j: int| 1 <= j <= m && #[trigger] p@[j] == r;
                assert(p@[j] == r);
            }
        }
    }
    while j0 != 0
        invariant
            0 <= moves,
            w == indices(way@),
            (Return { p: indices(p@), at: j0 as int }) == back.after(w, moves),
            forall|l: int| 0 <= l < moves ==> (#[trigger] back.after(w, l)).at != 0,
            1 <= i <= m < usize::MAX,
            p@.len() == m + 1,
            p0.len() == m + 1,
            is_tree(cost, cols, m as int, u, v, p0, way@, step),
            0 <= j0 <= m,
            step[j0 as int] != -1,
            forall|j: int|
                0 <= j <= m && step[j] != -1 && step[j] <= step[j0 as int] ==> #[trigger] p@[j]
                    == p0[j],
            forall|j: int| 0 <= j <= m && j != j0 ==> 0 <= #[trigger] p@[j] <= i,
            forall|j: int, k: int|
                0 <= j <= m && 0 <= k <= m && j != j0 && k != j0 && #[trigger] p@[j]
                    == #[trigger] p@[k] && p@[j] != 0 ==> j == k,
            forall|r: int|
                1 <= r <= i ==> #[trigger] held_besides(m as int, p@, j0 as int, r),
            forall|j: int|
                1 <= j <= m && j != j0 && #[trigger] p@[j] != 0 ==> slack(
                    cost,
                    cols,
                    u,
                    v,
                    p@[j] as int,
                    j,
                ) == 0,
            forall|j: int| 1 <= j <= m && j != j0 && p0[j] != 0 ==> #[trigger] p@[j] != 0,
        decreases step[j0 as int],
    {
        let ghost before = p@;
        assert(step[j0 as int] != -1);
        let j1: usize = way[j0];
        let moved: usize = p[j1];
        p.set(j0, moved);
        proof {
            assert(before[j1 as int] == p0[j1 as int]);
            assert forall|r: int| 1 <= r <= i implies #[trigger] held_besides(
                m as int,
                p@,
                j1 as int,
                r,
            ) by {
                assert(held_besides(m as int, before, j0 as int, r));
                let j = choose|j: int| 0 <= j <= m && j != j0 && #[trigger] before[j] == r;
                if j == j1 {
                    assert(p@[j0 as int] == r);
                } else {
                    assert(p@[j] == r);
                }
            }
            assert(indices(p@) =~= indices(before).update(j0 as int, indices(before)[w[j0 as int]]));
            assert(back.after(w, moves).at != 0);
            moves = moves + 1;
        }
        j0 = j1;
    }
    proof {
        assert(back.ends_after(w, moves));
        lemma_return_end(back, w, moves);
        assert forall|r: int| 1 <= r <= i implies #[trigger] holds_row(m as int, p@, 1, r) by {
            assert(held_besides(m as int, p@, 0, r));
            let j = choose|j: int| 0 <= j <= m && j != 0 && #[trigger] p@[j] == r;
            assert(p@[j] == r);
        }
    }
}

/// The sum of the dual variables of rows 1 to `k`.
spec fn row_sum(u: Seq<i128>, k: int) -> int
    decreases k,
{
    if k <= 0 {
        0
    } else {
        row_sum(u, k - 1) + u[k]
    }
}

/// The sum of the dual variables of columns 1 to `k`.
spec fn column_sum(v: Seq<int>, k: int) -> int
    decreases k,
{
    if k <= 0 {
        0
    } else {
        column_sum(v, k - 1) + v[k]
    }
}

/// The sum of the dual variables of the columns `e[0]` to `e[k - 1]`.
spec fn sum_along(v: Seq<int>, e: Seq<int>, k: int) -> int
    decreases k,
{
    if k <= 0 {
        0
    } else {
        sum_along(v, e, k - 1) + v[e[k - 1]]
    }
}

/// What the first `k` rows pay in the padded matrix, in the columns `e`.
spec fn pad_sum(cost: Seq<Vec<i64>>, cols: int, e: Seq<int>, k: int) -> int
    decreases k,
{
    if k <= 0 {
        0
    } else {
        pad_sum(cost, cols, e, k - 1) + pad(cost, cols, k, e[k - 1])
    }
}

/// `e` holds distinct columns from 1 to `m`.
spec fn distinct_columns(e: Seq<int>, m: int) -> bool {
    &&& forall|i: int| 0 <= i < e.len() ==> 1 <= #[trigger] e[i] <= m
    &&& forall|i: int, k: int|
        0 <= i < e.len() && 0 <= k < e.len() && #[trigger] e[i] == #[trigger] e[k] ==> i == k
}

proof fn lemma_column_sum_update(v: Seq<int>, j: int, k: int)
    requires
        1 <= j < v.len(),
        0 <= k < v.len(),
    ensures
        column_sum(v.update(j, 0), k) == column_sum(v, k) - (if j <= k {
            v[j]
        } else {
            0
        }),
    decreases k,
{
    if k > 0 {
        lemma_column_sum_update(v, j, k - 1);
    }
}

proof fn lemma_sum_along_update(v: Seq<int>, e: Seq<int>, j: int, k: int)
    requires
        0 <= k <= e.len(),
        0 <= j < v.len(),
        forall|i: int| 0 <= i < k ==> #[trigger] e[i] != j && 0 <= e[i] < v.len(),
    ensures
        sum_along(v.update(j, 0), e, k) == sum_along(v, e, k),
    decreases k,
{
    if k > 0 {
        lemma_sum_along_update(v, e, j, k - 1);
    }
}

proof fn lemma_zero_column_sum(v: Seq<int>, k: int)
    requires
        0 <= k < v.len(),
        forall|j: int| 1 <= j <= k ==> #[trigger] v[j] == 0,
    ensures
        column_sum(v, k) == 0,
    decreases k,
{
    if k > 0 {
        lemma_zero_column_sum(v, k - 1);
    }
}

proof fn lemma_column_sum_nonpositive(v: Seq<int>, k: int)
    requires
        0 <= k < v.len(),
        forall|j: int| 1 <= j <= k ==> #[trigger] v[j] <= 0,
    ensures
        column_sum(v, k) <= 0,
    decreases k,
{
    if k > 0 {
        lemma_column_sum_nonpositive(v, k - 1);
    }
}

/// Among nonpositive numbers, some distinct ones sum to no less than all, and
/// to as much where all others are 0.
proof fn lemma_sum_along(v: Seq<int>, e: Seq<int>, m: int, k: int)
    requires
        0 <= m < v.len(),
        0 <= k <= e.len(),
        distinct_columns(e, m),
        forall|j: int| 1 <= j <= m ==> #[trigger] v[j] <= 0,
    ensures
        sum_along(v, e, k) >= column_sum(v, m),
        (forall|j: int|
            1 <= j <= m && #[trigger] v[j] != 0 ==> exists|i: int| 0 <= i < k && e[i] == j)
            ==> sum_along(v, e, k) == column_sum(v, m),
    decreases k,
{
    if k == 0 {
        lemma_column_sum_nonpositive(v, m);
        if forall|j: int|
            1 <= j <= m && #[trigger] v[j] != 0 ==> exists|i: int| 0 <= i < k && e[i] == j {
            lemma_zero_column_sum(v, m);
        }
    } else {
        let j = e[k - 1];
        let w = v.update(j, 0);
        lemma_sum_along(w, e, m, k - 1);
        lemma_column_sum_update(v, j, m);
        lemma_sum_along_update(v, e, j, k - 1);
        if forall|l: int|
            1 <= l <= m && #[trigger] v[l] != 0 ==> exists|i: int| 0 <= i < k && e[i] == l {
            assert forall|l: int| 1 <= l <= m && #[trigger] w[l] != 0 implies exists|i: int|
                0 <= i < k - 1 && e[i] == l by {
                assert(v[l] != 0);
                let i = choose|i: int| 0 <= i < k && e[i] == l;
                assert(e[i] == l);
                assert(i != k - 1);
            }
        }
    }
}

/// Weak duality, and equality along columns without slack.
proof fn lemma_pad_sum(
    cost: Seq<Vec<i64>>,
    cols: int,
    m: int,
    u: Seq<i128>,
    v: Seq<i128>,
    e: Seq<int>,
    k: int,
)
    requires
        0 <= k <= e.len() == cost.len(),
        u.len() == m + 1,
        v.len() == m + 1,
        distinct_columns(e, m),
        feasible(cost, cols, m, u, v, cost.len() as int),
    ensures
        pad_sum(cost, cols, e, k) >= row_sum(u, k) + sum_along(
            v.map_values(|x: i128| x as int),
            e,
            k,
        ),
        (forall|i: int| 0 <= i < k ==> slack(cost, cols, u, v, i + 1, #[trigger] e[i]) == 0)
            ==> pad_sum(cost, cols, e, k) == row_sum(u, k) + sum_along(
            v.map_values(|x: i128| x as int),
            e,
            k,
        ),
    decreases k,
{
    if k > 0 {
        lemma_pad_sum(cost, cols, m, u, v, e, k - 1);
        let j = e[k - 1];
        assert(slack(cost, cols, u, v, k, j) >= 0);
    }
}

/// The number of the first `k` rows that `b` leaves unassigned.
spec fn unassigned_count(b: Seq<usize>, k: int) -> int
    decreases k,
{
    if k <= 0 {
        0
    } else {
        unassigned_count(b, k - 1) + (if b[k - 1] == UNASSIGNED {
            1int
        } else {
            0int
        })
    }
}

/// The rows among the first `k` to which `b` assigns a column.
spec fn assigned_rows(b: Seq<usize>, k: int) -> Set<int> {
    Set::new(|i: int| 0 <= i < k && b[i] != UNASSIGNED)
}

proof fn lemma_unassigned_count(b: Seq<usize>, k: int)
    requires
        0 <= k <= b.len(),
    ensures
        assigned_rows(b, k).finite(),
        unassigned_count(b, k) + assigned_rows(b, k).len() == k,
        0 <= unassigned_count(b, k),
    decreases k,
{
    if k == 0 {
        assert(assigned_rows(b, 0) =~= Set::empty());
    } else {
        lemma_unassigned_count(b, k - 1);
        if b[k - 1] == UNASSIGNED {
            assert(assigned_rows(b, k) =~= assigned_rows(b, k - 1));
        } else {
            assert(assigned_rows(b, k) =~= assigned_rows(b, k - 1).insert(k - 1));
        }
    }
}

proof fn lemma_unassigned_monotone(b: Seq<usize>, i: int, k: int)
    requires
        0 <= i <= k <= b.len(),
    ensures
        unassigned_count(b, i) <= unassigned_count(b, k),
    decreases k,
{
    if i < k {
        lemma_unassigned_monotone(b, i, k - 1);
    }
}

/// The columns of an assignment in the padded matrix: rows without a column
/// take the free ones in turn.
spec fn padded_columns(b: Seq<usize>, cols: int) -> Seq<int> {
    Seq::new(
        b.len(),
        |i: int|
            if b[i] == UNASSIGNED {
                cols + 1 + unassigned_count(b, i)
            } else {
                b[i] + 1
            },
    )
}

/// An assignment leaves as many rows unassigned as there are free columns.
proof fn lemma_unassigned_total(b: Seq<usize>, rows: int, cols: int)
    requires
        is_assignment(b, rows, cols),
        0 <= cols <= usize::MAX,
    ensures
        unassigned_count(b, rows) <= if rows <= cols {
            0
        } else {
            rows - cols
        },
{
    lemma_unassigned_count(b, rows);
    let set = assigned_rows(b, rows);
    if rows <= cols {
        let all = vstd::set_lib::set_int_range(0, rows);
        vstd::set_lib::lemma_int_range(0, rows);
        assert(set =~= all);
    } else {
        let f = |i: int| b[i] as int;
        let image = set.map(f);
        let all = vstd::set_lib::set_int_range(0, cols);
        vstd::set_lib::lemma_int_range(0, cols);
        assert(all.subset_of(image)) by {
            assert forall|j: int| all.contains(j) implies image.contains(j) by {
                assert(b.contains(j as usize));
                let i = choose|i: int| 0 <= i < b.len() && b[i] == j as usize;
                assert(set.contains(i));
                assert(f(i) == j);
            }
        }
        vstd::set_lib::lemma_map_size(set, image, f);
        vstd::set_lib::lemma_len_subset(all, image);
    }
}

proof fn lemma_padded_columns(cost: Seq<Vec<i64>>, b: Seq<usize>, cols: int, m: int)
    requires
        is_matrix(cost, cols),
        is_assignment(b, cost.len() as int, cols),
        0 <= cols <= m,
        m == if cost.len() <= cols {
            cols
        } else {
            cost.len() as int
        },
        m < usize::MAX,
    ensures
        distinct_columns(padded_columns(b, cols), m),
        pad_sum(cost, cols, padded_columns(b, cols), cost.len() as int) == total_cost(entries(cost), b),
{
    let rows = cost.len() as int;
    let e = padded_columns(b, cols);
    lemma_unassigned_total(b, rows, cols);
    assert forall|i: int| 0 <= i < rows implies {
        &&& 1 <= #[trigger] e[i] <= m
        &&& b[i] == UNASSIGNED ==> e[i] > cols
        &&& b[i] != UNASSIGNED ==> e[i] <= cols
    } by {
        lemma_unassigned_count(b, i);
        lemma_unassigned_monotone(b, i + 1, rows);
    }
    assert forall|i: int, k: int|
        0 <= i < rows && 0 <= k < rows && #[trigger] e[i] == #[trigger] e[k] implies i == k by {
        if b[i] == UNASSIGNED && b[k] == UNASSIGNED {
            if i < k {
                lemma_unassigned_monotone(b, i + 1, k);
            } else if k < i {
                lemma_unassigned_monotone(b, k + 1, i);
            }
        } else {
            assert(b[i] == b[k]);
        }
    }
    lemma_pad_sum_paid(cost, b, e, cols, rows);
}

proof fn lemma_pad_sum_paid(cost: Seq<Vec<i64>>, b: Seq<usize>, e: Seq<int>, cols: int, k: int)
    requires
        0 <= k <= cost.len(),
        is_matrix(cost, cols),
        forall|i: int| 0 <= i < k && b[i] == UNASSIGNED ==> #[trigger] e[i] > cols,
        forall|i: int|
            0 <= i < k && b[i] != UNASSIGNED ==> #[trigger] e[i] == b[i] + 1 && b[i] < cols,
    ensures
        pad_sum(cost, cols, e, k) == paid_by_first(entries(cost), b, k),
    decreases k,
{
    if k > 0 {
        lemma_pad_sum_paid(cost, b, e, cols, k - 1);
        let j = e[k - 1];
    }
}

/// Rows as many as columns leave no column free.
proof fn lemma_no_free_column(m: int, p: Seq<usize>, j: int)
    requires
        matching(m, p, m),
        1 <= j <= m,
    ensures
        p[j] != 0,
{
    if p[j] == 0 {
        let rows = vstd::set_lib::set_int_range(1, m + 1);
        let f = |r: int| choose|k: int| 1 <= k <= m && #[trigger] p[k] == r;
        let image = rows.map(f);
        let others = rows.remove(j);
        vstd::set_lib::lemma_int_range(1, m + 1);
        assert forall|r: int| rows.contains(r) implies {
            &&& 1 <= #[trigger] f(r) <= m
            &&& p[f(r)] == r
        } by {
            assert(holds_row(m, p, 1, r));
        }
        assert(image.subset_of(others));
        vstd::set_lib::lemma_map_size(rows, image, f);
        vstd::set_lib::lemma_len_subset(image, others);
    }
}

/// The number of columns of a matrix.
pub open spec fn width(cost: Seq<Vec<i64>>) -> int {
    if cost.len() == 0 {
        0
    } else {
        cost[0]@.len() as int
    }
}

/// The column, 0-based, that column `j` of the padded matrix stands for.
spec fn answer(cols: int, j: int) -> int {
    if j <= cols {
        j - 1
    } else {
        UNASSIGNED as int
    }
}

/// A matching with tight and feasible dual variables is a minimum assignment.
proof fn lemma_minimum(
    cost: Seq<Vec<i64>>,
    cols: int,
    m: int,
    u: Seq<i128>,
    v: Seq<i128>,
    p: Seq<usize>,
    a: Seq<usize>,
)
    requires
        is_matrix(cost, cols),
        m == if cost.len() <= cols {
            cols
        } else {
            cost.len() as int
        },
        0 <= cols <= m < usize::MAX,
        matching(m, p, cost.len() as int),
        bounded(m, u, v, p, cost.len() as int, cost.len() as int),
        feasible(cost, cols, m, u, v, cost.len() as int),
        tight(cost, cols, m, u, v, p),
        a.len() == cost.len(),
        forall|j: int|
            1 <= j <= m && #[trigger] p[j] != 0 ==> a[p[j] - 1] == answer(cols, j),
    ensures
        is_minimum_assignment(entries(cost), cols, a),
{
    let rows = cost.len() as int;
    let e = Seq::new(
        cost.len(),
        |i: int| choose|j: int| 1 <= j <= m && #[trigger] p[j] == i + 1,
    );
    assert forall|i: int| 0 <= i < rows implies {
        &&& 1 <= #[trigger] e[i] <= m
        &&& p[e[i]] == i + 1
        &&& a[i] == answer(cols, e[i])
        &&& slack(cost, cols, u, v, i + 1, e[i]) == 0
    } by {
        assert(holds_row(m, p, 1, i + 1));
        assert(p[e[i]] == i + 1);
    }
    assert(distinct_columns(e, m));
    assert(is_assignment(a, rows, cols)) by {
        assert forall|i: int| 0 <= i < rows implies #[trigger] a[i] == UNASSIGNED || a[i] < cols by {
            let j = e[i];
        }
        assert forall|i: int, k: int|
            0 <= i < rows && 0 <= k < rows && #[trigger] a[i] == #[trigger] a[k] && a[i]
                != UNASSIGNED implies i == k by {
            assert(e[i] == e[k]);
        }
        if rows <= cols {
            assert forall|i: int| 0 <= i < rows implies #[trigger] a[i] != UNASSIGNED by {
                let j = e[i];
            }
        }
        if cols <= rows {
            assert forall|j: usize| j < cols implies #[trigger] a.contains(j) by {
                lemma_no_free_column(m, p, j + 1);
                assert(a[p[j + 1] - 1] == j);
            }
        }
    }
    let w = v.map_values(|x: i128| x as int);
    assert(forall|j: int| 1 <= j <= m ==> #[trigger] w[j] == v[j]);
    lemma_pad_sum_paid(cost, a, e, cols, rows);
    lemma_pad_sum(cost, cols, m, u, v, e, rows);
    lemma_sum_along(w, e, m, rows);
    assert forall|j: int| 1 <= j <= m && #[trigger] w[j] != 0 implies exists|i: int|
        0 <= i < rows && e[i] == j by {
        assert(p[j] != 0);
        let i = p[j] - 1;
        assert(p[e[i]] == p[j]);
        assert(e[i] == j);
    }
    assert forall|b: Seq<usize>| #[trigger] is_assignment(b, rows, cols) implies total_cost(
        entries(cost),
        a,
    ) <= total_cost(entries(cost), b) by {
        let f = padded_columns(b, cols);
        lemma_padded_columns(cost, b, cols, m);
        lemma_pad_sum(cost, cols, m, u, v, f, rows);
        lemma_sum_along(w, f, m, rows);
    }
}

/// Hungarian algorithm for minimum-cost assignment on a rectangular cost
/// matrix. Returns for each row the assigned column, or `UNASSIGNED` if that
/// row is unmatched. Of several assignments of the same cost it returns
/// `best_assignment`.
pub fn linear_assignment(cost: &[Vec<i64>]) -> (ans: Vec<usize>)
    requires
        is_matrix(cost@, width(cost@)),
        cost@.len() < usize::MAX,
        width(cost@) < usize::MAX,
    ensures
        is_minimum_assignment(entries(cost@), width(cost@), ans@),
        ans@ == best_assignment(entries(cost@), width(cost@)),
{
    let n: usize = cost.len();
    let ghost e = entries(cost@);
    if n == 0 {
        let ans: Vec<usize> = Vec::new();
        assert(ans@ =~= best_assignment(e, width(cost@)));
        return ans;
    }
    let cols: usize = cost[0].len();
    let m: usize = if cols < n {
        n
    } else {
        cols
    };
    let mut u: Vec<i128> = vec![0i128; m + 1];
    let mut v: Vec<i128> = vec![0i128; m + 1];
    let mut p: Vec<usize> = vec![0usize; m + 1];
    let mut way: Vec<usize> = vec![0usize; m + 1];
    let mut i: usize = 1;
    proof {
        let none = Inserted::none(m as int);
        assert(ints(u@) =~= none.u);
        assert(ints(v@) =~= none.v);
        assert(indices(p@) =~= none.p);
        assert(indices(way@) =~= none.way);
    }
    while i <= n
        invariant
            e == entries(cost@),
            (Inserted { u: ints(u@), v: ints(v@), p: indices(p@), way: indices(way@) })
                == Inserted::first(e, cols as int, m as int, i - 1),
            cost@.len() == n,
            is_matrix(cost@, cols as int),
            1 <= n <= m < usize::MAX,
            1 <= i <= n + 1,
            matching(m as int, p@, i - 1),
            bounded(m as int, u@, v@, p@, i - 1, n as int),
            feasible(cost@, cols as int, m as int, u@, v@, i - 1),
            tight(cost@, cols as int, m as int, u@, v@, p@),
            way@.len() == m + 1,
        decreases n + 1 - i,
    {
        let ghost p1 = p@;
        p.set(0, i);
        assert(indices(p@) =~= indices(p1).update(0, i as int));
        assert(matching(m as int, p@, i - 1)) by {
            assert forall|r: int| 1 <= r <= i - 1 implies #[trigger] holds_row(
                m as int,
                p@,
                1,
                r,
            ) by {
                assert(holds_row(m as int, p1, 1, r));
                let j = choose|j: int| 1 <= j <= m && #[trigger] p1[j] == r;
                assert(p@[j] == r);
            }
        }
        let found: (usize, Ghost<Seq<int>>) = search(
            cost,
            cols,
            m,
            i,
            &mut u,
            &mut v,
            &p,
            &mut way,
        );
        augment(
            Ghost(cost@),
            Ghost(cols as int),
            Ghost(u@),
            Ghost(v@),
            found.1,
            m,
            i,
            found.0,
            &way,
            &mut p,
        );
        i = i + 1;
    }
    let mut ans: Vec<usize> = vec![UNASSIGNED; n];
    let mut j: usize = 1;
    while j <= m
        invariant
            1 <= n <= m < usize::MAX,
            1 <= j <= m + 1,
            matching(m as int, p@, n as int),
            ans@.len() == n,
            forall|k: int|
                1 <= k < j && #[trigger] p@[k] != 0 ==> ans@[p@[k] - 1] == answer(cols as int, k),
        decreases m + 1 - j,
    {
        if p[j] != 0 {
            ans.set(
                p[j] - 1,
                if j <= cols {
                    j - 1
                } else {
                    UNASSIGNED
                },
            );
        }
        j = j + 1;
    }
    proof {
        lemma_minimum(cost@, cols as int, m as int, u@, v@, p@, ans@);
        let q = indices(p@);
        assert forall|r: int| 0 <= r < n implies ans@[r] == best_assignment(e, cols as int)[r] by {
            assert(holds_row(m as int, p@, 1, r + 1));
            let k = choose|k: int| 1 <= k <= m && #[trigger] p@[k] == r + 1;
            assert(1 <= k < q.len() && q[k] == r + 1);
            let j = column_of(q, r + 1);
            assert(1 <= j < q.len() && q[j] == r + 1);
            assert(p@[j] == r + 1);
        }
        assert(ans@ =~= best_assignment(e, cols as int));
    }
    ans
}

} // verus!
