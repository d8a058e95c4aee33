//! Which minimum-cost assignment is taken where several cost the same.
//!
//! Rows are inserted one after another. A new row is entered along a shortest way to
//! a free column, and among equally near columns the lowest comes first. Rows and
//! columns are numbered from 1; columns past the matrix cost nothing, and column 0
//! stands for the row that is being inserted.

use vstd::prelude::*;

use crate::assignment::UNASSIGNED;

verus! {

/// The cost of row `r` in column `j`.
pub open spec fn padded_cost(e: Seq<Seq<int>>, cols: int, r: int, j: int) -> int {
    if j - 1 < cols {
        e[r - 1][j - 1]
    } else {
        0
    }
}

/// The cost of row `r` in column `j` less the prices of the two.
pub open spec fn reduced_cost(
    e: Seq<Seq<int>>,
    cols: int,
    u: Seq<int>,
    v: Seq<int>,
    r: int,
    j: int,
) -> int {
    padded_cost(e, cols, r, j) - u[r] - v[j]
}

/// The distance of a column that has not been reached.
pub open spec fn far() -> int {
    i128::MAX as int
}

/// The search for a free column.
pub ghost struct Search {
    /// The prices of the rows.
    pub u: Seq<int>,
    /// The prices of the columns.
    pub v: Seq<int>,
    /// How far each column is.
    pub minv: Seq<int>,
    /// The column from which each column is reached.
    pub way: Seq<int>,
    /// The columns that were visited.
    pub used: Seq<bool>,
    /// The column to visit next.
    pub at: int,
}

/// `j` is the nearest column that was not visited, the lowest if there are several.
pub open spec fn is_first_nearest(used: Seq<bool>, minv: Seq<int>, j: int) -> bool {
    &&& 1 <= j < used.len()
    &&& !used[j]
    &&& forall|k: int| 1 <= k < used.len() && !used[k] ==> minv[j] <= #[trigger] minv[k]
    &&& forall|k: int| 1 <= k < j && !used[k] ==> minv[j] < #[trigger] minv[k]
}

/// The nearest column that was not visited, the lowest if there are several.
pub open spec fn first_nearest(used: Seq<bool>, minv: Seq<int>) -> int {
    choose|j: int| is_first_nearest(used, minv, j)
}

/// A visited column holds the row.
pub open spec fn is_visited_row(p: Seq<int>, used: Seq<bool>, r: int) -> bool {
    exists|j: int| 0 <= j < used.len() && #[trigger] used[j] && p[j] == r
}

impl Search {
    /// A search that has visited no column.
    pub open spec fn start(u: Seq<int>, v: Seq<int>, way: Seq<int>) -> Self {
        Search {
            u,
            v,
            minv: Seq::new(v.len(), |j: int| far()),
            way,
            used: Seq::new(v.len(), |j: int| false),
            at: 0,
        }
    }

    /// The search where the next column counts as visited.
    pub open spec fn visiting(self) -> Self {
        Search { used: self.used.update(self.at, true), ..self }
    }

    /// Column `j` is nearer by way of the next column.
    pub open spec fn is_nearer(self, e: Seq<Seq<int>>, cols: int, p: Seq<int>, j: int) -> bool {
        &&& j != 0
        &&& !self.used[j]
        &&& reduced_cost(e, cols, self.u, self.v, p[self.at], j) < self.minv[j]
    }

    /// How far each column is, by way of the next column too.
    pub open spec fn distances(self, e: Seq<Seq<int>>, cols: int, p: Seq<int>) -> Seq<int> {
        Seq::new(
            self.minv.len(),
            |j: int|
                if self.is_nearer(e, cols, p, j) {
                    reduced_cost(e, cols, self.u, self.v, p[self.at], j)
                } else {
                    self.minv[j]
                },
        )
    }

    /// From where each column is reached, by way of the next column too.
    pub open spec fn ways(self, e: Seq<Seq<int>>, cols: int, p: Seq<int>) -> Seq<int> {
        Seq::new(
            self.way.len(),
            |j: int|
                if self.is_nearer(e, cols, p, j) {
                    self.at
                } else {
                    self.way[j]
                },
        )
    }

    /// The search with the prices of the visited rows and columns moved by `delta`.
    pub open spec fn repriced(self, p: Seq<int>, delta: int) -> Self {
        Search {
            u: Seq::new(
                self.u.len(),
                |r: int|
                    if is_visited_row(p, self.used, r) {
                        self.u[r] + delta
                    } else {
                        self.u[r]
                    },
            ),
            v: Seq::new(
                self.v.len(),
                |j: int|
                    if self.used[j] {
                        self.v[j] - delta
                    } else {
                        self.v[j]
                    },
            ),
            minv: Seq::new(
                self.minv.len(),
                |j: int|
                    if self.used[j] {
                        self.minv[j]
                    } else {
                        self.minv[j] - delta
                    },
            ),
            ..self
        }
    }

    /// The search after the next column was visited; `p` holds the row of each column,
    /// or 0.
    pub open spec fn step(self, e: Seq<Seq<int>>, cols: int, p: Seq<int>) -> Self {
        let now = self.visiting();
        let minv = now.distances(e, cols, p);
        let next = first_nearest(now.used, minv);
        Search { minv, way: now.ways(e, cols, p), at: next, ..now }.repriced(p, minv[next])
    }

    /// The search after `k` columns were visited.
    pub open spec fn after(self, e: Seq<Seq<int>>, cols: int, p: Seq<int>, k: int) -> Self
        decreases k,
    {
        if k <= 0 {
            self
        } else {
            self.after(e, cols, p, k - 1).step(e, cols, p)
        }
    }

    /// After `k` columns the next column is free, and not before.
    pub open spec fn ends_after(self, e: Seq<Seq<int>>, cols: int, p: Seq<int>, k: int) -> bool {
        &&& 0 <= k
        &&& p[self.after(e, cols, p, k).at] == 0
        &&& forall|l: int| 0 <= l < k ==> p[(#[trigger] self.after(e, cols, p, l)).at] != 0
    }

    /// The search at its end, where the next column is free.
    pub open spec fn end(self, e: Seq<Seq<int>>, cols: int, p: Seq<int>) -> Self {
        self.after(e, cols, p, choose|k: int| self.ends_after(e, cols, p, k))
    }
}

/// The way back from a free column.
pub ghost struct Return {
    /// The row of each column, or 0.
    pub p: Seq<int>,
    pub at: int,
}

impl Return {
    /// The row of the column before moves into the current one, which becomes that
    /// before.
    pub open spec fn step(self, way: Seq<int>) -> Self {
        Return { p: self.p.update(self.at, self.p[way[self.at]]), at: way[self.at] }
    }

    /// After `k` moves.
    pub open spec fn after(self, way: Seq<int>, k: int) -> Self
        decreases k,
    {
        if k <= 0 {
            self
        } else {
            self.after(way, k - 1).step(way)
        }
    }

    /// After `k` moves the way is back at column 0, and not before.
    pub open spec fn ends_after(self, way: Seq<int>, k: int) -> bool {
        &&& 0 <= k
        &&& self.after(way, k).at == 0
        &&& forall|l: int| 0 <= l < k ==> (#[trigger] self.after(way, l)).at != 0
    }

    /// The way at its end.
    pub open spec fn end(self, way: Seq<int>) -> Self {
        self.after(way, choose|k: int| self.ends_after(way, k))
    }
}

/// What is known after some rows were inserted.
pub ghost struct Inserted {
    pub u: Seq<int>,
    pub v: Seq<int>,
    /// The row of each column, or 0.
    pub p: Seq<int>,
    pub way: Seq<int>,
}

impl Inserted {
    /// Before any row is inserted into columns up to `m`.
    pub open spec fn none(m: int) -> Self {
        let zeros = Seq::new((m + 1) as nat, |j: int| 0int);
        Inserted { u: zeros, v: zeros, p: zeros, way: zeros }
    }

    /// With row `i`.
    pub open spec fn with_row(self, e: Seq<Seq<int>>, cols: int, i: int) -> Self {
        let p = self.p.update(0, i);
        let search = Search::start(self.u, self.v, self.way).end(e, cols, p);
        Inserted {
            u: search.u,
            v: search.v,
            p: (Return { p, at: search.at }).end(search.way).p,
            way: search.way,
        }
    }

    /// With the first `i` rows, in columns up to `m`.
    pub open spec fn first(e: Seq<Seq<int>>, cols: int, m: int, i: int) -> Self
        decreases i,
    {
        if i <= 0 {
            Inserted::none(m)
        } else {
            Inserted::first(e, cols, m, i - 1).with_row(e, cols, i)
        }
    }
}

/// The column that holds row `r`.
pub open spec fn column_of(p: Seq<int>, r: int) -> int {
    choose|j: int| 1 <= j < p.len() && #[trigger] p[j] == r
}

/// The assignment that is taken: the column of each row, from 0 up, or `UNASSIGNED`
/// for a column past the matrix.
pub open spec fn best_assignment(e: Seq<Seq<int>>, cols: int) -> Seq<usize> {
    let rows = e.len() as int;
    let m = if cols < rows {
        rows
    } else {
        cols
    };
    let p = Inserted::first(e, cols, m, rows).p;
    Seq::new(
        e.len(),
        |i: int|
            if column_of(p, i + 1) <= cols {
                (column_of(p, i + 1) - 1) as usize
            } else {
                UNASSIGNED
            },
    )
}

/// There is one nearest column.
pub(crate) proof fn lemma_first_nearest(used: Seq<bool>, minv: Seq<int>, j: int)
    requires
        is_first_nearest(used, minv, j),
    ensures
        first_nearest(used, minv) == j,
{
    let k = first_nearest(used, minv);
    assert(is_first_nearest(used, minv, k));
    assert(minv[j] <= minv[k] && minv[k] <= minv[j]);
}

/// There is one end of a search.
pub(crate) proof fn lemma_search_end(
    search: Search,
    e: Seq<Seq<int>>,
    cols: int,
    p: Seq<int>,
    k: int,
)
    requires
        search.ends_after(e, cols, p, k),
    ensures
        search.end(e, cols, p) == search.after(e, cols, p, k),
{
    let l = choose|l: int| search.ends_after(e, cols, p, l);
    assert(search.ends_after(e, cols, p, l));
    if l < k {
        assert(p[search.after(e, cols, p, l).at] != 0);
    } else if k < l {
        assert(p[search.after(e, cols, p, k).at] != 0);
    }
}

/// There is one end of a way back.
pub(crate) proof fn lemma_return_end(back: Return, way: Seq<int>, k: int)
    requires
        back.ends_after(way, k),
    ensures
        back.end(way) == back.after(way, k),
{
    let l = choose|l: int| back.ends_after(way, l);
    assert(back.ends_after(way, l));
    if l < k {
        assert(back.after(way, l).at != 0);
    } else if k < l {
        assert(back.after(way, k).at != 0);
    }
}

/// `f` gives every row its cheapest column, the first if there are several.
pub open spec fn are_favourites(e: Seq<Seq<int>>, cols: int, f: Seq<int>) -> bool {
    &&& f.len() == e.len()
    &&& forall|i: int| 0 <= i < e.len() ==> 0 <= #[trigger] f[i] < cols
    &&& forall|i: int, j: int|
        0 <= i < e.len() && 0 <= j < cols ==> e[i][f[i]] <= #[trigger] e[i][j]
    &&& forall|i: int, j: int|
        0 <= i < e.len() && 0 <= j < f[i] ==> e[i][f[i]] < #[trigger] e[i][j]
}

/// After `k` rows each of these is in its favourite column, and no column has a price.
spec fn favours(st: Inserted, e: Seq<Seq<int>>, cols: int, f: Seq<int>, k: int) -> bool {
    &&& st.u.len() == cols + 1
    &&& st.v.len() == cols + 1
    &&& st.p.len() == cols + 1
    &&& st.way.len() == cols + 1
    &&& forall|r: int| k < r <= cols ==> #[trigger] st.u[r] == 0
    &&& forall|j: int| 1 <= j <= cols ==> #[trigger] st.v[j] == 0
    &&& forall|i: int| 0 <= i < k ==> st.p[#[trigger] f[i] + 1] == i + 1
    &&& forall|j: int|
        1 <= j <= cols && #[trigger] st.p[j] != 0 ==> 1 <= st.p[j] <= k && f[st.p[j] - 1] == j - 1
}

proof fn lemma_favours(e: Seq<Seq<int>>, cols: int, f: Seq<int>, k: int)
    requires
        0 <= k <= e.len() <= cols,
        forall|i: int, j: int|
            0 <= i < e.len() && 0 <= j < cols ==> #[trigger] e[i][j] < far(),
        are_favourites(e, cols, f),
        f.no_duplicates(),
    ensures
        favours(Inserted::first(e, cols, cols, k), e, cols, f, k),
    decreases k,
{
    if k > 0 {
        lemma_favours(e, cols, f, k - 1);
        let st = Inserted::first(e, cols, cols, k - 1);
        let best = f[k - 1] + 1;
        let p = st.p.update(0, k);
        let start = Search::start(st.u, st.v, st.way);
        let now = start.visiting();
        let minv = now.distances(e, cols, p);
        let way = now.ways(e, cols, p);
        assert(st.u[k] == 0);
        assert forall|j: int| 1 <= j <= cols implies #[trigger] minv[j] == e[k - 1][j - 1] && way[j]
            == 0 by {
            assert(st.v[j] == 0);
            assert(e[k - 1][j - 1] < far());
        }
        assert(is_first_nearest(now.used, minv, best)) by {
            assert forall|j: int| 1 <= j < now.used.len() && !now.used[j] implies minv[best]
                <= #[trigger] minv[j] by {
                assert(e[k - 1][f[k - 1]] <= e[k - 1][j - 1]);
            }
            assert forall|j: int| 1 <= j < best && !now.used[j] implies minv[best]
                < #[trigger] minv[j] by {
                assert(e[k - 1][f[k - 1]] < e[k - 1][j - 1]);
            }
        }
        lemma_first_nearest(now.used, minv, best);
        let one = start.step(e, cols, p);
        assert(one.at == best);
        assert(one.way == way);
        assert(st.p[best] == 0) by {
            if st.p[best] != 0 {
                let r = st.p[best] - 1;
                assert(f[r] == f[k - 1]);
            }
        }
        assert(start.ends_after(e, cols, p, 1)) by {
            assert(start.after(e, cols, p, 0) == start);
            assert(start.after(e, cols, p, 1) == one);
        }
        lemma_search_end(start, e, cols, p, 1);
        assert(start.after(e, cols, p, 0) == start);
        assert(start.after(e, cols, p, 1) == one);
        let back = Return { p, at: best };
        assert(back.after(way, 0) == back);
        assert(back.after(way, 1) == back.step(way));
        assert(back.ends_after(way, 1));
        lemma_return_end(back, way, 1);
        let after = st.with_row(e, cols, k);
        assert(after.p == p.update(best, k));
        assert forall|r: int| k < r <= cols implies #[trigger] after.u[r] == 0 by {
            if is_visited_row(p, now.used, r) {
                let j = choose|j: int|
                    0 <= j < now.used.len() && #[trigger] now.used[j] && p[j] == r;
                assert(j == 0);
            }
            assert(st.u[r] == 0);
        }
        assert forall|j: int| 1 <= j <= cols implies #[trigger] after.v[j] == 0 by {
            assert(st.v[j] == 0);
        }
        assert forall|i: int| 0 <= i < k implies after.p[#[trigger] f[i] + 1] == i + 1 by {
            if i < k - 1 {
                assert(f[i] != f[k - 1]);
                assert(st.p[f[i] + 1] == i + 1);
            }
        }
        assert forall|j: int| 1 <= j <= cols && #[trigger] after.p[j] != 0 implies 1 <= after.p[j]
            <= k && f[after.p[j] - 1] == j - 1 by {
            if j != best {
                assert(after.p[j] == st.p[j]);
            }
        }
    }
}

/// If all rows have different favourite columns, each gets its own: the cheapest, and the
/// first of several that cost the same.
pub proof fn law_favourites_are_taken(e: Seq<Seq<int>>, cols: int, f: Seq<int>, i: int)
    requires
        e.len() <= cols < usize::MAX,
        forall|r: int, j: int|
            0 <= r < e.len() && 0 <= j < cols ==> #[trigger] e[r][j] < i128::MAX,
        are_favourites(e, cols, f),
        f.no_duplicates(),
        0 <= i < e.len(),
    ensures
        best_assignment(e, cols)[i] == f[i],
{
    lemma_favours(e, cols, f, e.len() as int);
    let st = Inserted::first(e, cols, cols, e.len() as int);
    assert(st.p[f[i] + 1] == i + 1);
    let j = column_of(st.p, i + 1);
    assert(1 <= j < st.p.len() && st.p[j] == i + 1);
    assert(f[st.p[j] - 1] == j - 1);
}

} // verus!
