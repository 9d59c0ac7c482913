//! Minimum-cost assignment for a square matrix of integer costs.

use vstd::prelude::*;

verus! {

/// The largest magnitude of a cost.
pub const COST_LIMIT: i128 = 0x800_0000_0000_0000_0000_0000_0000_0000;

/// Every row is as long as the matrix is high.
pub open spec fn is_square(costs: Seq<Vec<i128>>) -> bool {
    forall|i: int| 0 <= i < costs.len() ==> (#[trigger] costs[i])@.len() == costs.len()
}

/// No cost is too large to be added up with potentials.
pub open spec fn within_limit(costs: Seq<Vec<i128>>) -> bool {
    forall|i: int, j: int|
        0 <= i < costs.len() && 0 <= j < costs.len() ==> -COST_LIMIT <= #[trigger] costs[i]@[j]
            <= COST_LIMIT
}

/// The costs by row and column.
pub open spec fn matrix(costs: Seq<Vec<i128>>) -> Seq<Seq<int>> {
    costs.map_values(|row: Vec<i128>| row@.map_values(|cost: i128| cost as int))
}

/// `a` gives each of `n` rows a column of its own.
pub open spec fn is_permutation(a: Seq<usize>, n: int) -> bool {
    &&& a.len() == n
    &&& forall|i: int| 0 <= i < n ==> (#[trigger] a[i]) < n
    &&& forall|i: int, j: int| 0 <= i < j < n ==> a[i] != a[j]
}

/// The cost of the first `k` rows under the assignment `a`.
pub open spec fn total_cost(costs: Seq<Seq<int>>, a: Seq<usize>, k: int) -> int
    decreases k,
{
    if k <= 0 {
        0
    } else {
        total_cost(costs, a, k - 1) + costs[k - 1][a[k - 1] as int]
    }
}

/// `a` is an assignment, and none costs less.
pub open spec fn is_minimal(costs: Seq<Seq<int>>, a: Seq<usize>) -> bool {
    let n = costs.len() as int;
    &&& is_permutation(a, n)
    &&& forall|b: Seq<usize>|
        is_permutation(b, n) ==> total_cost(costs, a, n) <= #[trigger] total_cost(costs, b, n)
}

/// The cost of row `r` in column `j`, both counted from one, less their potentials.
spec fn reduced(costs: Seq<Vec<i128>>, u: Seq<i128>, v: Seq<i128>, r: int, j: int) -> int {
    costs[r - 1]@[j - 1] - u[r] - v[j]
}

/// Some column holds row `r`.
spec fn is_held(p: Seq<usize>, n: int, r: int) -> bool {
    exists|j: int| 1 <= j <= n && #[trigger] p[j] == r
}

/// The first `rows` rows are matched along edges of reduced cost zero, and no reduced cost in them
/// is negative.
spec fn matched(
    costs: Seq<Vec<i128>>,
    rows: int,
    u: Seq<i128>,
    v: Seq<i128>,
    p: Seq<usize>,
) -> bool {
    let n = costs.len() as int;
    &&& 0 <= rows <= n
    &&& u.len() == n + 1
    &&& v.len() == n + 1
    &&& p.len() == n + 1
    &&& forall|r: int, j: int|
        1 <= r <= rows && 1 <= j <= n ==> #[trigger] reduced(costs, u, v, r, j) >= 0
    &&& forall|j: int| 1 <= j <= n ==> (#[trigger] p[j]) <= rows
    &&& forall|j: int, k: int| 1 <= j < k <= n && p[j] != 0 ==> p[j] != p[k]
    &&& forall|r: int| 1 <= r <= rows ==> #[trigger] is_held(p, n, r)
    &&& forall|j: int| 1 <= j <= n && p[j] != 0 ==> reduced(costs, u, v, #[trigger] p[j] as int, j) == 0
    &&& forall|j: int| 1 <= j <= n && p[j] == 0 ==> #[trigger] v[j] == 0
    &&& forall|j: int| 1 <= j <= n ==> -2 * COST_LIMIT <= #[trigger] v[j] <= 0
    &&& forall|r: int| 1 <= r <= rows ==> -COST_LIMIT <= #[trigger] u[r] <= COST_LIMIT
    &&& forall|r: int| rows < r <= n ==> #[trigger] u[r] == 0
}

/// Where rows are left, so is a column.
proof fn lemma_free_column(costs: Seq<Vec<i128>>, rows: int, u: Seq<i128>, v: Seq<i128>, p: Seq<usize>)
    requires
        matched(costs, rows, u, v, p),
        rows < costs.len(),
    ensures
        exists|f: int| 1 <= f <= costs.len() && #[trigger] p[f] == 0,
{
    let n = costs.len() as int;
    if forall|f: int| 1 <= f <= n ==> #[trigger] p[f] != 0 {
        let held = Seq::new(n as nat, |i: int| p[i + 1] as int);
        assert(held.no_duplicates()) by {
            assert forall|i: int, j: int|
                0 <= i < held.len() && 0 <= j < held.len() && i != j implies held[i] != held[j] by {
                if i < j {
                    assert(p[i + 1] != p[j + 1]);
                } else {
                    assert(p[j + 1] != p[i + 1]);
                }
            }
        }
        held.unique_seq_to_set();
        let range = vstd::set_lib::set_int_range(1, rows + 1);
        vstd::set_lib::lemma_int_range(1, rows + 1);
        assert(held.to_set().subset_of(range)) by {
            assert forall|x: int| held.to_set().contains(x) implies range.contains(x) by {
                let i = choose|i: int| 0 <= i < held.len() && held[i] == x;
                assert(held[i] == p[i + 1]);
            }
        }
        vstd::set_lib::lemma_len_subset(held.to_set(), range);
        assert(false);
    }
}

/// The state of the search for a column of `row`: the matching of the rows before it, and, once
/// `started`, a tree of used columns in which each column is reached from the row of the one
/// before it along an edge of reduced cost zero.
#[verifier::opaque]
spec fn searching(
    costs: Seq<Vec<i128>>,
    row: int,
    started: bool,
    u: Seq<i128>,
    v: Seq<i128>,
    p: Seq<usize>,
    used: Seq<bool>,
    way: Seq<usize>,
    rank: Seq<int>,
    clock: int,
) -> bool {
    let n = costs.len() as int;
    &&& 1 <= row <= n
    &&& u.len() == n + 1
    &&& v.len() == n + 1
    &&& p.len() == n + 1
    &&& used.len() == n + 1
    &&& way.len() == n + 1
    &&& rank.len() == n + 1
    &&& p[0] == row
    &&& forall|r: int, j: int|
        1 <= r <= row && 1 <= j <= n && (r < row || started) ==> #[trigger] reduced(
            costs,
            u,
            v,
            r,
            j,
        ) >= 0
    &&& forall|j: int| 1 <= j <= n ==> (#[trigger] p[j]) < row
    &&& forall|j: int, k: int| 1 <= j < k <= n && p[j] != 0 ==> p[j] != p[k]
    &&& forall|r: int| 1 <= r < row ==> #[trigger] is_held(p, n, r)
    &&& forall|j: int| 1 <= j <= n && p[j] != 0 ==> reduced(costs, u, v, #[trigger] p[j] as int, j) == 0
    &&& forall|j: int| 1 <= j <= n && p[j] == 0 ==> #[trigger] v[j] == 0
    &&& forall|j: int| 1 <= j <= n ==> -2 * COST_LIMIT <= #[trigger] v[j] <= 0
    &&& forall|r: int| 1 <= r <= row ==> -COST_LIMIT <= #[trigger] u[r] <= COST_LIMIT
    &&& !started ==> u[row] == 0
    &&& forall|r: int| row < r <= n ==> #[trigger] u[r] == 0
    &&& forall|j: int|
        1 <= j <= n && #[trigger] used[j] ==> {
            &&& p[j] != 0
            &&& way[j] <= n
            &&& used[way[j] as int]
            &&& rank[way[j] as int] < rank[j]
            &&& reduced(costs, u, v, p[way[j] as int] as int, j) == 0
        }
    &&& forall|j: int| 0 <= j <= n && #[trigger] used[j] ==> 0 <= rank[j] < clock
}

/// What `minimum` says of a column that is not used yet: the least reduced cost of it in the rows of the
/// tree, and the column `way` from whose row it is reached at that cost.
spec fn bounded(
    costs: Seq<Vec<i128>>,
    u: Seq<i128>,
    v: Seq<i128>,
    p: Seq<usize>,
    used: Seq<bool>,
    way: Seq<usize>,
    minimum: Seq<i128>,
    j: int,
) -> bool {
    &&& way[j] < used.len()
    &&& used[way[j] as int]
    &&& minimum[j] == reduced(costs, u, v, p[way[j] as int] as int, j)
    &&& forall|k: int|
        0 <= k < used.len() && #[trigger] used[k] ==> minimum[j] <= reduced(costs, u, v, p[k] as int, j)
}

/// Lowers `minimum` by the edges of the row of `column`, which has just been used, and finds the
/// least of it.
fn scan(
    costs: &Vec<Vec<i128>>,
    row: usize,
    column: usize,
    u: &Vec<i128>,
    v: &Vec<i128>,
    p: &Vec<usize>,
    used: &Vec<bool>,
    way: &mut Vec<usize>,
    minimum: &mut Vec<i128>,
    Ghost(free): Ghost<int>,
) -> (r: (i128, usize))
    requires
        is_square(costs@),
        within_limit(costs@),
        1 <= row <= costs.len() < usize::MAX,
        u.len() == costs.len() + 1,
        v.len() == costs.len() + 1,
        p.len() == costs.len() + 1,
        used.len() == costs.len() + 1,
        old(way).len() == costs.len() + 1,
        old(minimum).len() == costs.len() + 1,
        column <= costs.len(),
        used[column as int],
        1 <= p[column as int] <= row,
        forall|j: int| 1 <= j <= costs.len() ==> -2 * COST_LIMIT <= #[trigger] v[j] <= 0,
        forall|q: int| 1 <= q <= row ==> -COST_LIMIT <= #[trigger] u[q] <= COST_LIMIT,
        1 <= free <= costs.len(),
        !used[free],
        forall|j: int|
            1 <= j <= costs.len() && !#[trigger] used[j] ==> {
                ||| bounded(
                    costs@,
                    u@,
                    v@,
                    p@,
                    used@.update(column as int, false),
                    old(way)@,
                    old(minimum)@,
                    j,
                )
                ||| old(minimum)[j] == i128::MAX && forall|k: int|
                    0 <= k < used.len() && k != column ==> !#[trigger] used[k]
            },
    ensures
        final(way).len() == costs.len() + 1,
        final(minimum).len() == costs.len() + 1,
        1 <= r.1 <= costs.len(),
        !used[r.1 as int],
        final(minimum)[r.1 as int] == r.0,
        forall|j: int|
            1 <= j <= costs.len() && !#[trigger] used[j] ==> {
                &&& bounded(costs@, u@, v@, p@, used@, final(way)@, final(minimum)@, j)
                &&& r.0 <= final(minimum)[j]
            },
        forall|j: int| 0 <= j <= costs.len() && #[trigger] used[j] ==> final(way)[j] == old(way)[j],
{
    let n: usize = costs.len();
    let active: usize = p[column];
    let mut delta: i128 = i128::MAX;
    let mut next: usize = 0;
    let mut candidate: usize = 1;
    let ghost before = used@.update(column as int, false);
    while candidate <= n
        invariant
            n == costs.len(),
            n < usize::MAX,
            is_square(costs@),
            within_limit(costs@),
            active == p[column as int],
            1 <= active <= row <= n,
            u.len() == n + 1,
            v.len() == n + 1,
            p.len() == n + 1,
            used.len() == n + 1,
            way.len() == n + 1,
            minimum.len() == n + 1,
            column <= n,
            used[column as int],
            before == used@.update(column as int, false),
            forall|j: int| 1 <= j <= n ==> -2 * COST_LIMIT <= #[trigger] v[j] <= 0,
            forall|q: int| 1 <= q <= row ==> -COST_LIMIT <= #[trigger] u[q] <= COST_LIMIT,
            1 <= candidate <= n + 1,
            forall|j: int|
                candidate <= j <= n && !#[trigger] used[j] ==> {
                    ||| bounded(costs@, u@, v@, p@, before, way@, minimum@, j)
                    ||| minimum[j] == i128::MAX && forall|k: int|
                        0 <= k < used.len() && k != column ==> !#[trigger] used[k]
                },
            forall|j: int|
                1 <= j < candidate && !#[trigger] used[j] ==> {
                    &&& bounded(costs@, u@, v@, p@, used@, way@, minimum@, j)
                    &&& delta <= minimum[j]
                },
            forall|j: int| 0 <= j <= n && #[trigger] used[j] ==> way[j] == old(way)[j],
            next == 0 ==> delta == i128::MAX && forall|j: int|
                1 <= j < candidate ==> #[trigger] used[j],
            next != 0 ==> next < candidate && !used[next as int] && minimum[next as int] == delta
                && delta < i128::MAX,
        decreases n + 1 - candidate,
    {
        if !used[candidate] {
            let ghost way0 = way@;
            let ghost minimum0 = minimum@;
            let ghost old_delta = delta;
            let cost: i128 = costs[active - 1][candidate - 1];
            proof {
                let c = costs@[active - 1]@[candidate - 1];
                assert(-COST_LIMIT <= c <= COST_LIMIT);
                assert(-COST_LIMIT <= u[active as int] <= COST_LIMIT);
                assert(-2 * COST_LIMIT <= v[candidate as int] <= 0);
            }
            let current: i128 = cost - u[active] - v[candidate];
            if current < minimum[candidate] {
                minimum.set(candidate, current);
                way.set(candidate, column);
            }
            proof {
                let j = candidate as int;
                assert(current == reduced(costs@, u@, v@, active as int, j));
                assert(bounded(costs@, u@, v@, p@, used@, way@, minimum@, j)) by {
                    assert forall|k: int| 0 <= k < used.len() && #[trigger] used[k] implies minimum[j]
                        <= reduced(costs@, u@, v@, p[k] as int, j) by {
                        if k != column {
                            assert(before[k]);
                            assert(bounded(costs@, u@, v@, p@, before, way0, minimum0, j));
                        }
                    }
                    if way[j] != column {
                        assert(bounded(costs@, u@, v@, p@, before, way0, minimum0, j));
                        assert(before[way[j] as int]);
                        assert(used[way[j] as int]);
                    }
                }
                assert(minimum[j] <= current);
                assert forall|i: int|
                    1 <= i <= n && i != j && !#[trigger] used[i] && bounded(
                        costs@,
                        u@,
                        v@,
                        p@,
                        before,
                        way0,
                        minimum0,
                        i,
                    ) implies bounded(costs@, u@, v@, p@, before, way@, minimum@, i) by {}
                assert forall|i: int|
                    1 <= i < j && !#[trigger] used[i] implies bounded(
                    costs@,
                    u@,
                    v@,
                    p@,
                    used@,
                    way@,
                    minimum@,
                    i,
                ) by {
                    assert(bounded(costs@, u@, v@, p@, used@, way0, minimum0, i));
                }
            }
            if minimum[candidate] < delta {
                delta = minimum[candidate];
                next = candidate;
            }
        }
        candidate += 1;
    }
    proof {
        assert(!used[free]);
    }
    (delta, next)
}

/// `r` is the row of a used column before `limit`.
spec fn in_tree(p: Seq<usize>, used: Seq<bool>, limit: int, r: int) -> bool {
    exists|k: int| 0 <= k < limit && #[trigger] used[k] && p[k] == r
}

/// The potentials and minima after a shift by `delta` of the columns before `limit`.
spec fn shifted(
    p: Seq<usize>,
    used: Seq<bool>,
    delta: int,
    limit: int,
    u: Seq<i128>,
    v: Seq<i128>,
    minimum: Seq<i128>,
    u2: Seq<i128>,
    v2: Seq<i128>,
    minimum2: Seq<i128>,
) -> bool {
    let n = used.len() - 1;
    &&& u2.len() == u.len()
    &&& v2.len() == v.len()
    &&& minimum2.len() == minimum.len()
    &&& forall|r: int|
        0 <= r <= n ==> #[trigger] u2[r] == if in_tree(p, used, limit, r) {
            u[r] + delta
        } else {
            u[r] as int
        }
    &&& forall|j: int|
        1 <= j <= n ==> #[trigger] v2[j] == if j < limit && used[j] {
            v[j] - delta
        } else {
            v[j] as int
        }
    &&& forall|j: int|
        1 <= j <= n ==> #[trigger] minimum2[j] == if j < limit && !used[j] {
            minimum[j] - delta
        } else {
            minimum[j] as int
        }
}

/// Moves the potentials of the tree by `delta`.
fn shift(
    n: usize,
    delta: i128,
    p: &Vec<usize>,
    used: &Vec<bool>,
    u: &mut Vec<i128>,
    v: &mut Vec<i128>,
    minimum: &mut Vec<i128>,
)
    requires
        n < usize::MAX,
        p.len() == n + 1,
        used.len() == n + 1,
        old(u).len() == n + 1,
        old(v).len() == n + 1,
        old(minimum).len() == n + 1,
        used[0],
        forall|j: int| 0 <= j <= n && #[trigger] used[j] ==> p[j] <= n,
        forall|j: int, k: int| 0 <= j < k <= n && used[j] && used[k] ==> p[j] != p[k],
        forall|j: int|
            0 <= j <= n && #[trigger] used[j] ==> i128::MIN <= old(u)[p[j] as int] + delta <= i128::MAX,
        forall|j: int|
            1 <= j <= n && #[trigger] used[j] ==> i128::MIN <= old(v)[j] - delta <= i128::MAX,
        forall|j: int|
            1 <= j <= n && !#[trigger] used[j] ==> i128::MIN <= old(minimum)[j] - delta <= i128::MAX,
    ensures
        shifted(
            p@,
            used@,
            delta as int,
            n + 1,
            old(u)@,
            old(v)@,
            old(minimum)@,
            final(u)@,
            final(v)@,
            final(minimum)@,
        ),
{
    let mut candidate: usize = 0;
    let ghost u0 = u@;
    let ghost v0 = v@;
    let ghost minimum0 = minimum@;
    while candidate <= n
        invariant
            n < usize::MAX,
            candidate <= n + 1,
            p.len() == n + 1,
            used.len() == n + 1,
            u0.len() == n + 1,
            v0.len() == n + 1,
            minimum0.len() == n + 1,
            used[0],
            forall|j: int| 0 <= j <= n && #[trigger] used[j] ==> p[j] <= n,
            forall|j: int, k: int| 0 <= j < k <= n && used[j] && used[k] ==> p[j] != p[k],
            forall|j: int|
                0 <= j <= n && #[trigger] used[j] ==> i128::MIN <= u0[p[j] as int] + delta <= i128::MAX,
            forall|j: int|
                1 <= j <= n && #[trigger] used[j] ==> i128::MIN <= v0[j] - delta <= i128::MAX,
            forall|j: int|
                1 <= j <= n && !#[trigger] used[j] ==> i128::MIN <= minimum0[j] - delta <= i128::MAX,
            shifted(
                p@,
                used@,
                delta as int,
                candidate as int,
                u0,
                v0,
                minimum0,
                u@,
                v@,
                minimum@,
            ),
        decreases n + 1 - candidate,
    {
        let ghost u1 = u@;
        if used[candidate] {
            let r: usize = p[candidate];
            proof {
                assert(!in_tree(p@, used@, candidate as int, r as int)) by {
                    if in_tree(p@, used@, candidate as int, r as int) {
                        let k = choose|k: int|
                            0 <= k < candidate && #[trigger] used[k] && p[k] == r;
                        assert(p[k] != p[candidate as int]);
                    }
                }
                assert(u[r as int] == u0[r as int]);
            }
            let moved: i128 = u[r] + delta;
            u.set(r, moved);
            if candidate >= 1 {
                let lowered: i128 = v[candidate] - delta;
                v.set(candidate, lowered);
            }
        } else {
            let lowered: i128 = minimum[candidate] - delta;
            minimum.set(candidate, lowered);
        }
        proof {
            let c = candidate as int;
            assert forall|r: int| 0 <= r <= n implies #[trigger] u[r] == if in_tree(
                p@,
                used@,
                c + 1,
                r,
            ) {
                u0[r] + delta
            } else {
                u0[r] as int
            } by {
                assert(u1[r] == if in_tree(p@, used@, c, r) {
                    u0[r] + delta
                } else {
                    u0[r] as int
                });
                if in_tree(p@, used@, c, r) {
                    let k = choose|k: int| 0 <= k < c && #[trigger] used[k] && p[k] == r;
                    assert(0 <= k < c + 1 && used[k] && p[k] == r);
                    if used[c] {
                        assert(p[k] != p[c]);
                    }
                } else if used[c] && p[c] == r {
                    assert(in_tree(p@, used@, c + 1, r));
                } else {
                    assert(!in_tree(p@, used@, c + 1, r)) by {
                        if in_tree(p@, used@, c + 1, r) {
                            let k = choose|k: int|
                                0 <= k < c + 1 && #[trigger] used[k] && p[k] == r;
                            assert(k < c);
                        }
                    }
                }
            }
        }
        candidate += 1;
    }
}

/// The rows of distinct used columns differ, the row of column zero among them.
proof fn lemma_tree_rows_differ(
    costs: Seq<Vec<i128>>,
    row: int,
    started: bool,
    u: Seq<i128>,
    v: Seq<i128>,
    p: Seq<usize>,
    used: Seq<bool>,
    way: Seq<usize>,
    rank: Seq<int>,
    clock: int,
)
    requires
        searching(costs, row, started, u, v, p, used, way, rank, clock),
    ensures
        forall|j: int, k: int|
            0 <= j < k <= costs.len() && used[j] && used[k] ==> p[j] != p[k],
        forall|j: int|
            0 <= j <= costs.len() && #[trigger] used[j] ==> 1 <= p[j] <= row,
        forall|j: int, k: int|
            0 <= j <= costs.len() && 1 <= k <= costs.len() && used[j] && !used[k] && p[k] != 0
                ==> p[j] != p[k],
{
    reveal(searching);
    assert forall|j: int, k: int|
        0 <= j < k <= costs.len() && used[j] && used[k] implies p[j] != p[k] by {
        if j == 0 {
            assert(p[k] < row);
        }
    }
    assert forall|j: int, k: int|
        0 <= j <= costs.len() && 1 <= k <= costs.len() && used[j] && !used[k] && p[k]
            != 0 implies p[j] != p[k] by {
        if j == 0 {
            assert(p[k] < row);
        } else if j < k {
            assert(p[j] != p[k]);
        } else {
            assert(p[k] != p[j]);
        }
    }
}

/// A step of the search: the state before it, the shift that it makes, and the potentials and
/// minima after it.
struct Step {
    costs: Seq<Vec<i128>>,
    row: int,
    started: bool,
    u: Seq<i128>,
    v: Seq<i128>,
    p: Seq<usize>,
    used: Seq<bool>,
    way: Seq<usize>,
    rank: Seq<int>,
    clock: int,
    minimum: Seq<i128>,
    delta: int,
    next: int,
    free: int,
    u2: Seq<i128>,
    v2: Seq<i128>,
    minimum2: Seq<i128>,
}

impl Step {
    spec fn n(self) -> int {
        self.costs.len() as int
    }

    /// The shift is by the least minimum.
    #[verifier::opaque]
    spec fn valid(self) -> bool {
        let n = self.n();
        &&& within_limit(self.costs)
        &&& searching(
            self.costs,
            self.row,
            self.started,
            self.u,
            self.v,
            self.p,
            self.used,
            self.way,
            self.rank,
            self.clock,
        )
        &&& self.used[0]
        &&& self.minimum.len() == n + 1
        &&& !self.started ==> forall|k: int| 1 <= k <= n ==> !#[trigger] self.used[k]
        &&& self.started ==> self.delta >= 0
        &&& 1 <= self.next <= n
        &&& !self.used[self.next]
        &&& self.minimum[self.next] == self.delta
        &&& forall|j: int|
            1 <= j <= n && !#[trigger] self.used[j] ==> {
                &&& bounded(self.costs, self.u, self.v, self.p, self.used, self.way, self.minimum, j)
                &&& self.delta <= self.minimum[j]
            }
        &&& 1 <= self.free <= n
        &&& self.p[self.free] == 0
        &&& shifted(
            self.p,
            self.used,
            self.delta,
            n + 1,
            self.u,
            self.v,
            self.minimum,
            self.u2,
            self.v2,
            self.minimum2,
        )
    }

    spec fn before(self, r: int, j: int) -> int {
        reduced(self.costs, self.u, self.v, r, j)
    }

    spec fn after(self, r: int, j: int) -> int {
        reduced(self.costs, self.u2, self.v2, r, j)
    }

    spec fn tree(self, r: int) -> bool {
        in_tree(self.p, self.used, self.n() + 1, r)
    }

    /// How the shift moves the reduced cost of row `r` in column `j`.
    proof fn lemma_moves(self, r: int, j: int)
        requires
            self.valid(),
            1 <= r <= self.n(),
            1 <= j <= self.n(),
        ensures
            self.after(r, j) == self.before(r, j) - (if self.tree(r) {
                self.delta
            } else {
                0
            }) + (if self.used[j] {
                self.delta
            } else {
                0
            }),
    {
        reveal(Step::valid);
            reveal(searching);
        assert(self.u2[r] == if self.tree(r) {
            self.u[r] + self.delta
        } else {
            self.u[r] as int
        });
        assert(self.v2[j] == if self.used[j] {
            self.v[j] - self.delta
        } else {
            self.v[j] as int
        });
    }

    /// The row of a used column is in the tree, that of another is not.
    proof fn lemma_rows(self, k: int)
        requires
            self.valid(),
            0 <= k <= self.n(),
        ensures
            self.used[k] ==> self.tree(self.p[k] as int) && 1 <= self.p[k] <= self.row,
            !self.used[k] && 1 <= k && self.p[k] != 0 ==> !self.tree(self.p[k] as int)
                && self.p[k] < self.row,
    {
        reveal(Step::valid);
            reveal(searching);
        lemma_tree_rows_differ(
            self.costs,
            self.row,
            self.started,
            self.u,
            self.v,
            self.p,
            self.used,
            self.way,
            self.rank,
            self.clock,
        );
        if !self.used[k] && 1 <= k && self.p[k] != 0 && self.tree(self.p[k] as int) {
            let i = choose|i: int|
                0 <= i < self.n() + 1 && #[trigger] self.used[i] && self.p[i] == self.p[k] as int;
            assert(self.p[i] != self.p[k]);
        }
    }

    proof fn lemma_nonnegative(self, r: int, j: int)
        requires
            self.valid(),
            1 <= r <= self.row,
            1 <= j <= self.n(),
        ensures
            self.after(r, j) >= 0,
    {
        assert(self.row <= self.n() && self.p[0] == self.row && self.used[0]) by {
            reveal(Step::valid);
            reveal(searching);
        }
        self.lemma_moves(r, j);
        self.lemma_rows(0);
        assert(r < self.row || self.started ==> self.before(r, j) >= 0) by {
            reveal(Step::valid);
            reveal(searching);
        }
        assert(self.used[j] ==> self.started && self.delta >= 0) by {
            reveal(Step::valid);
            reveal(searching);
        }
        if self.tree(r) && !self.used[j] {
            let k = choose|k: int|
                0 <= k < self.n() + 1 && #[trigger] self.used[k] && self.p[k] == r;
            assert(self.before(r, j) >= self.delta) by {
                reveal(Step::valid);
            reveal(searching);
                assert(bounded(
                    self.costs,
                    self.u,
                    self.v,
                    self.p,
                    self.used,
                    self.way,
                    self.minimum,
                    j,
                ));
                assert(self.minimum[j] <= reduced(
                    self.costs,
                    self.u,
                    self.v,
                    self.p[k] as int,
                    j,
                ));
            }
        }
    }

    proof fn lemma_tight(self, j: int)
        requires
            self.valid(),
            1 <= j <= self.n(),
            self.p[j] != 0,
        ensures
            self.p[j] < self.row,
            self.after(self.p[j] as int, j) == 0,
    {
        assert(self.before(self.p[j] as int, j) == 0 && self.p[j] < self.row <= self.n()) by {
            reveal(Step::valid);
            reveal(searching);
        }
        self.lemma_rows(j);
        self.lemma_moves(self.p[j] as int, j);
    }

    proof fn lemma_row_bound(self, r: int)
        requires
            self.valid(),
            1 <= r <= self.n(),
        ensures
            r <= self.row ==> -COST_LIMIT <= self.u2[r] <= COST_LIMIT,
            r > self.row ==> self.u2[r] == 0,
    {
        reveal(Step::valid);
            reveal(searching);
        let n = self.n();
        assert(self.u2[r] == if self.tree(r) {
            self.u[r] + self.delta
        } else {
            self.u[r] as int
        });
        if r > self.row {
            if self.tree(r) {
                let k = choose|k: int| 0 <= k < n + 1 && #[trigger] self.used[k] && self.p[k] == r;
                self.lemma_rows(k);
            }
        } else {
            self.lemma_nonnegative(r, self.free);
            assert(self.v2[self.free] == 0) by {
                assert(self.v[self.free] == 0);
                assert(!self.used[self.free]);
            }
            assert(self.costs[r - 1]@[self.free - 1] <= COST_LIMIT);
            assert(-COST_LIMIT <= self.u[r]);
            if !self.started {
                if r == self.row {
                    assert(bounded(
                        self.costs,
                        self.u,
                        self.v,
                        self.p,
                        self.used,
                        self.way,
                        self.minimum,
                        self.next,
                    ));
                    assert(self.way[self.next] == 0);
                    assert(self.delta == self.before(self.row, self.next));
                    assert(-COST_LIMIT <= self.costs[self.row - 1]@[self.next - 1]);
                    assert(self.v[self.next] <= 0);
                    assert(self.u[self.row] == 0);
                    self.lemma_rows(0);
                } else if self.tree(r) {
                    let k = choose|k: int|
                        0 <= k < n + 1 && #[trigger] self.used[k] && self.p[k] == r;
                    assert(k == 0);
                }
            }
        }
    }

    proof fn lemma_column_bound(self, j: int)
        requires
            self.valid(),
            1 <= j <= self.n(),
        ensures
            -2 * COST_LIMIT <= self.v2[j] <= 0,
            self.p[j] == 0 ==> self.v2[j] == 0,
    {
        assert(self.v2[j] == (if self.used[j] {
            self.v[j] - self.delta
        } else {
            self.v[j] as int
        }) && -2 * COST_LIMIT <= self.v[j] <= 0 && (self.used[j] ==> self.p[j] != 0 && self.delta
            >= 0) && (self.p[j] == 0 ==> self.v[j] == 0) && self.row <= self.n() && within_limit(
            self.costs,
        )) by {
            reveal(Step::valid);
            reveal(searching);
        }
        if self.used[j] {
            self.lemma_tight(j);
            self.lemma_row_bound(self.p[j] as int);
            assert(-COST_LIMIT <= self.costs[self.p[j] - 1]@[j - 1]);
        }
    }

    proof fn lemma_way(self, j: int)
        requires
            self.valid(),
            1 <= j <= self.n(),
            self.used[j],
        ensures
            self.after(self.p[self.way[j] as int] as int, j) == 0,
    {
        let w = self.way[j] as int;
        assert(self.used[w] && w <= self.n() && self.before(self.p[w] as int, j) == 0 && self.row
            <= self.n()) by {
            reveal(Step::valid);
            reveal(searching);
        }
        self.lemma_rows(w);
        self.lemma_moves(self.p[w] as int, j);
    }

    proof fn lemma_minimum(self, j: int)
        requires
            self.valid(),
            1 <= j <= self.n(),
            !self.used[j],
        ensures
            bounded(self.costs, self.u2, self.v2, self.p, self.used, self.way, self.minimum2, j),
            self.minimum2[j] >= 0,
    {
        let w = self.way[j] as int;
        let n = self.n();
        assert(bounded(
            self.costs,
            self.u,
            self.v,
            self.p,
            self.used,
            self.way,
            self.minimum,
            j,
        ) && self.used.len() == n + 1 && self.minimum2[j] == self.minimum[j] - self.delta
            && self.delta <= self.minimum[j] && self.row <= n) by {
            reveal(Step::valid);
            reveal(searching);
        }
        self.lemma_rows(w);
        self.lemma_moves(self.p[w] as int, j);
        assert forall|k: int| 0 <= k < self.used.len() && #[trigger] self.used[k] implies
            self.minimum2[j] <= reduced(self.costs, self.u2, self.v2, self.p[k] as int, j) by {
            self.lemma_rows(k);
            self.lemma_moves(self.p[k] as int, j);
            assert(self.minimum[j] <= reduced(self.costs, self.u, self.v, self.p[k] as int, j));
        }
    }

    /// A shift by the least minimum keeps every reduced cost from falling below zero and brings
    /// that of the next column down to it.
    proof fn lemma_keeps(self)
        requires
            self.valid(),
        ensures
            searching(
                self.costs,
                self.row,
                true,
                self.u2,
                self.v2,
                self.p,
                self.used,
                self.way,
                self.rank,
                self.clock,
            ),
            self.minimum2[self.next] == 0,
            forall|j: int|
                1 <= j <= self.n() && !#[trigger] self.used[j] ==> {
                    &&& bounded(
                        self.costs,
                        self.u2,
                        self.v2,
                        self.p,
                        self.used,
                        self.way,
                        self.minimum2,
                        j,
                    )
                    &&& self.minimum2[j] >= 0
                },
    {
        let n = self.n();
        assert(1 <= self.row <= n) by {
            reveal(Step::valid);
            reveal(searching);
        }
        assert forall|r: int, j: int|
            1 <= r <= self.row && 1 <= j <= n implies #[trigger] reduced(
            self.costs,
            self.u2,
            self.v2,
            r,
            j,
        ) >= 0 by {
            self.lemma_nonnegative(r, j);
        }
        assert forall|j: int| 1 <= j <= n && self.p[j] != 0 implies reduced(
            self.costs,
            self.u2,
            self.v2,
            #[trigger] self.p[j] as int,
            j,
        ) == 0 by {
            self.lemma_tight(j);
        }
        assert forall|r: int| 1 <= r <= self.row implies -COST_LIMIT <= #[trigger] self.u2[r]
            <= COST_LIMIT by {
            self.lemma_row_bound(r);
        }
        assert forall|r: int| self.row < r <= n implies #[trigger] self.u2[r] == 0 by {
            self.lemma_row_bound(r);
        }
        assert forall|j: int| 1 <= j <= n implies -2 * COST_LIMIT <= #[trigger] self.v2[j]
            <= 0 by {
            self.lemma_column_bound(j);
        }
        assert forall|j: int| 1 <= j <= n && self.p[j] == 0 implies #[trigger] self.v2[j] == 0 by {
            self.lemma_column_bound(j);
        }
        assert forall|j: int| 1 <= j <= n && #[trigger] self.used[j] implies reduced(
            self.costs,
            self.u2,
            self.v2,
            self.p[self.way[j] as int] as int,
            j,
        ) == 0 by {
            self.lemma_way(j);
        }
        assert forall|j: int| 1 <= j <= n && !#[trigger] self.used[j] implies bounded(
            self.costs,
            self.u2,
            self.v2,
            self.p,
            self.used,
            self.way,
            self.minimum2,
            j,
        ) && self.minimum2[j] >= 0 by {
            self.lemma_minimum(j);
        }
        reveal(Step::valid);
            reveal(searching);
        assert(self.minimum2[self.next] == 0);
    }
}

/// The number of columns that are not used.
spec fn unused(used: Seq<bool>) -> nat
    decreases used.len(),
{
    if used.len() == 0 {
        0
    } else {
        unused(used.drop_last()) + if used.last() {
            0nat
        } else {
            1nat
        }
    }
}

proof fn lemma_unused_falls(used: Seq<bool>, j: int)
    requires
        0 <= j < used.len(),
        !used[j],
    ensures
        unused(used.update(j, true)) < unused(used),
    decreases used.len(),
{
    let after = used.update(j, true);
    if j == used.len() - 1 {
        assert(after.drop_last() =~= used.drop_last());
    } else {
        assert(after.drop_last() =~= used.drop_last().update(j, true));
        lemma_unused_falls(used.drop_last(), j);
    }
}

/// Moves the rows along the tree from column zero to the free column `end`.
fn flip(
    costs: &Vec<Vec<i128>>,
    row: usize,
    end: usize,
    u: &Vec<i128>,
    v: &Vec<i128>,
    p: &mut Vec<usize>,
    used: &Vec<bool>,
    way: &Vec<usize>,
    Ghost(rank): Ghost<Seq<int>>,
    Ghost(clock): Ghost<int>,
)
    requires
        searching(
            costs@,
            row as int,
            true,
            u@,
            v@,
            old(p)@,
            used@,
            way@,
            rank,
            clock,
        ),
        used[0],
        1 <= end <= costs.len(),
        !used[end as int],
        old(p)[end as int] == 0,
        way[end as int] <= costs.len(),
        used[way[end as int] as int],
        reduced(costs@, u@, v@, old(p)[way[end as int] as int] as int, end as int) == 0,
    ensures
        matched(costs@, row as int, u@, v@, final(p)@),
{
    let ghost n = costs.len() as int;
    let ghost p0 = p@;
    let mut column: usize = end;
    proof {
        reveal(searching);
        lemma_tree_rows_differ(
            costs@,
            row as int,
            true,
            u@,
            v@,
            p@,
            used@,
            way@,
            rank,
            clock,
        );
        assert forall|j: int, k: int|
            0 <= j < k <= n && j != end && k != end && p[j] != 0 implies p[j] != p[k] by {
            if j == 0 {
                assert(p[k] < row);
            }
        }
        assert forall|r: int| 1 <= r <= row implies #[trigger] kept(p@, n, end as int, r) by {
            if r == row {
                assert(p[0] == r);
            } else {
                assert(is_held(p@, n, r));
                let j = choose|j: int| 1 <= j <= n && #[trigger] p[j] == r;
                assert(p[j] == r && j != end);
            }
        }
    }
    while column != 0
        invariant
            n == costs.len(),
            column <= n,
            p.len() == n + 1,
            way.len() == n + 1,
            used.len() == n + 1,
            used[0],
            1 <= row <= n,
            end <= n,
            p0.len() == n + 1,
            searching(costs@, row as int, true, u@, v@, p0, used@, way@, rank, clock),
            column == end || used[column as int],
            column != 0 ==> {
                &&& way[column as int] <= n
                &&& used[way[column as int] as int]
                &&& reduced(costs@, u@, v@, p0[way[column as int] as int] as int, column as int) == 0
                &&& column != end ==> rank[way[column as int] as int] < rank[column as int]
            },
            !used[end as int],
            // below the hole the path is as it was
            forall|j: int|
                0 <= j <= n && #[trigger] used[j] && (column == end || rank[j] <= rank[column as int])
                    ==> p[j] == p0[j],
            forall|j: int, k: int|
                0 <= j < k <= n && j != column && k != column && p[j] != 0 ==> p[j] != p[k],
            forall|r: int| 1 <= r <= row ==> #[trigger] kept(p@, n, column as int, r),
            forall|j: int| 0 <= j <= n ==> (#[trigger] p[j]) <= row,
            forall|j: int|
                1 <= j <= n && j != column && p[j] != 0 ==> reduced(
                    costs@,
                    u@,
                    v@,
                    #[trigger] p[j] as int,
                    j,
                ) == 0,
            forall|j: int| 1 <= j <= n && j != column && p[j] == 0 ==> #[trigger] v[j] == 0,
            column != end ==> p[end as int] != 0,
        decreases
            if column == 0 {
                0
            } else if column == end {
                clock + 2
            } else {
                rank[column as int] + 1
            },
    {
        proof {
            reveal(searching);
        }
        let candidate: usize = way[column];
        let ghost p1 = p@;
        let moved: usize = p[candidate];
        proof {
            assert(used[candidate as int]);
            assert(p1[candidate as int] == p0[candidate as int]);
            assert(candidate != column) by {
                if candidate == column {
                    assert(column != end);
                }
            }
        }
        p.set(column, moved);
        proof {
            let c = column as int;
            let h = candidate as int;
            assert(p[c] == p0[h]);
            assert(p0[h] != 0) by {
                if h == 0 {
                    assert(p0[0] == row);
                }
            }
            assert forall|j: int, k: int|
                0 <= j < k <= n && j != h && k != h && p[j] != 0 implies p[j] != p[k] by {
                if j == c {
                    if h < k {
                        assert(p1[h] != p1[k]);
                    } else {
                        if p1[k] != 0 {
                            assert(p1[k] != p1[h]);
                        }
                    }
                } else if k == c {
                    if h < j {
                        assert(p1[h] != p1[j]);
                    } else {
                        assert(p1[j] != p1[h]);
                    }
                }
            }
            assert forall|r: int| 1 <= r <= row implies #[trigger] kept(p@, n, h, r) by {
                assert(kept(p1, n, c, r));
                let j = choose|j: int| 0 <= j <= n && j != c && #[trigger] p1[j] == r;
                if j == h {
                    assert(p[c] == r && c != h);
                } else {
                    assert(p[j] == r && j != h);
                }
            }
            assert(h != 0 ==> used[way[h] as int]);
            assert forall|j: int|
                0 <= j <= n && #[trigger] used[j] && rank[j] <= rank[h] implies p[j] == p0[j] by {
                assert(j != c);
            }
        }
        column = candidate;
    }
    proof {
        assert forall|r: int| 1 <= r <= row implies #[trigger] is_held(p@, n, r) by {
            assert(kept(p@, n, 0, r));
            let j = choose|j: int| 0 <= j <= n && j != 0 && #[trigger] p[j] == r;
            assert(1 <= j <= n && p[j] == r);
        }
    }
}

/// Row `r` stands in some column other than `hole`, column zero counted.
spec fn kept(p: Seq<usize>, n: int, hole: int, r: int) -> bool {
    exists|j: int| 0 <= j <= n && j != hole && #[trigger] p[j] == r
}

/// What a search knows of its sizes and bounds.
proof fn lemma_searching_facts(
    costs: Seq<Vec<i128>>,
    row: int,
    started: bool,
    u: Seq<i128>,
    v: Seq<i128>,
    p: Seq<usize>,
    used: Seq<bool>,
    way: Seq<usize>,
    rank: Seq<int>,
    clock: int,
)
    requires
        searching(costs, row, started, u, v, p, used, way, rank, clock),
    ensures
        1 <= row <= costs.len(),
        u.len() == costs.len() + 1,
        v.len() == costs.len() + 1,
        p.len() == costs.len() + 1,
        used.len() == costs.len() + 1,
        way.len() == costs.len() + 1,
        rank.len() == costs.len() + 1,
        forall|j: int| 1 <= j <= costs.len() ==> -2 * COST_LIMIT <= #[trigger] v[j] <= 0,
        forall|q: int| 1 <= q <= row ==> -COST_LIMIT <= #[trigger] u[q] <= COST_LIMIT,
        forall|j: int| 0 <= j <= costs.len() && #[trigger] used[j] ==> 1 <= p[j] <= row,
        forall|j: int| 0 <= j <= costs.len() ==> (#[trigger] p[j]) <= row,
{
    reveal(searching);
    lemma_tree_rows_differ(costs, row, started, u, v, p, used, way, rank, clock);
}

/// A column that is reached along an edge of reduced cost zero may be used.
proof fn lemma_use_column(
    costs: Seq<Vec<i128>>,
    row: int,
    started: bool,
    u: Seq<i128>,
    v: Seq<i128>,
    p: Seq<usize>,
    used: Seq<bool>,
    way: Seq<usize>,
    rank: Seq<int>,
    clock: int,
    minimum: Seq<i128>,
    column: int,
    free: int,
)
    requires
        searching(costs, row, started, u, v, p, used, way, rank, clock),
        clock >= 0,
        0 <= column <= costs.len(),
        !used[column],
        1 <= free <= costs.len(),
        p[free] == 0,
        started <==> column != 0,
        started ==> p[column] != 0,
        started ==> minimum[column] == 0 && bounded(
            costs,
            u,
            v,
            p,
            used,
            way,
            minimum,
            column,
        ),
    ensures
        searching(
            costs,
            row,
            started,
            u,
            v,
            p,
            used.update(column, true),
            way,
            rank.update(column, clock),
            clock + 1,
        ),
        !used.update(column, true)[free],
{
    reveal(searching);
    let n = costs.len() as int;
    let used2 = used.update(column, true);
    let rank2 = rank.update(column, clock);
    if started {
        assert(way[column] != column);
    }
    assert forall|j: int| 1 <= j <= n && #[trigger] used2[j] implies {
        &&& p[j] != 0
        &&& way[j] <= n
        &&& used2[way[j] as int]
        &&& rank2[way[j] as int] < rank2[j]
        &&& reduced(costs, u, v, p[way[j] as int] as int, j) == 0
    } by {
        if j != column {
            assert(used[j]);
            assert(way[j] != column);
        }
    }
}

/// The search does not depend on the ways to columns that are not used.
proof fn lemma_way_kept(
    costs: Seq<Vec<i128>>,
    row: int,
    started: bool,
    u: Seq<i128>,
    v: Seq<i128>,
    p: Seq<usize>,
    used: Seq<bool>,
    way: Seq<usize>,
    way2: Seq<usize>,
    rank: Seq<int>,
    clock: int,
)
    requires
        searching(costs, row, started, u, v, p, used, way, rank, clock),
        way2.len() == way.len(),
        forall|j: int| 0 <= j <= costs.len() && #[trigger] used[j] ==> way2[j] == way[j],
    ensures
        searching(costs, row, started, u, v, p, used, way2, rank, clock),
{
    reveal(searching);
}

/// The shift by the least minimum stays within the range of the integers.
proof fn lemma_no_overflow(
    costs: Seq<Vec<i128>>,
    row: int,
    started: bool,
    u: Seq<i128>,
    v: Seq<i128>,
    p: Seq<usize>,
    used: Seq<bool>,
    way: Seq<usize>,
    rank: Seq<int>,
    clock: int,
    minimum: Seq<i128>,
    delta: int,
    next: int,
)
    requires
        within_limit(costs),
        searching(costs, row, started, u, v, p, used, way, rank, clock),
        1 <= next <= costs.len(),
        !used[next],
        minimum[next] == delta,
        forall|j: int|
            1 <= j <= costs.len() && !#[trigger] used[j] ==> bounded(
                costs,
                u,
                v,
                p,
                used,
                way,
                minimum,
                j,
            ),
    ensures
        -4 * COST_LIMIT <= delta <= 4 * COST_LIMIT,
        started ==> delta >= 0,
        forall|j: int|
            0 <= j <= costs.len() && #[trigger] used[j] ==> i128::MIN <= u[p[j] as int] + delta
                <= i128::MAX,
        forall|j: int|
            1 <= j <= costs.len() && !#[trigger] used[j] ==> i128::MIN <= minimum[j] - delta
                <= i128::MAX,
        forall|j: int, k: int|
            0 <= j < k <= costs.len() && used[j] && used[k] ==> p[j] != p[k],
{
    let n = costs.len() as int;
    lemma_tree_rows_differ(costs, row, started, u, v, p, used, way, rank, clock);
    lemma_searching_facts(costs, row, started, u, v, p, used, way, rank, clock);
    assert(bounded(costs, u, v, p, used, way, minimum, next));
    let w = way[next] as int;
    assert(used[w]);
    assert(-COST_LIMIT <= costs[p[w] - 1]@[next - 1] <= COST_LIMIT);
    assert(-COST_LIMIT <= u[p[w] as int] <= COST_LIMIT);
    assert(-2 * COST_LIMIT <= v[next] <= 0);
    if started {
        assert(reduced(costs, u, v, p[w] as int, next) >= 0) by {
            reveal(searching);
        }
    }
    assert forall|j: int| 0 <= j <= n && #[trigger] used[j] implies i128::MIN <= u[p[j] as int]
        + delta <= i128::MAX by {
        assert(-COST_LIMIT <= u[p[j] as int] <= COST_LIMIT);
    }
    assert forall|j: int| 1 <= j <= n && !#[trigger] used[j] implies i128::MIN <= minimum[j] - delta
        <= i128::MAX by {
        assert(bounded(costs, u, v, p, used, way, minimum, j));
        let k = way[j] as int;
        assert(used[k]);
        assert(-COST_LIMIT <= costs[p[k] - 1]@[j - 1] <= COST_LIMIT);
        assert(-COST_LIMIT <= u[p[k] as int] <= COST_LIMIT);
        assert(-2 * COST_LIMIT <= v[j] <= 0);
    }
}

/// Matches one more row.
fn match_row(
    costs: &Vec<Vec<i128>>,
    row: usize,
    u: &mut Vec<i128>,
    v: &mut Vec<i128>,
    p: &mut Vec<usize>,
)
    requires
        is_square(costs@),
        within_limit(costs@),
        1 <= row <= costs.len() < usize::MAX,
        matched(costs@, row - 1, old(u)@, old(v)@, old(p)@),
    ensures
        matched(costs@, row as int, final(u)@, final(v)@, final(p)@),
{
    let n: usize = costs.len();
    proof {
        lemma_free_column(costs@, row - 1, u@, v@, p@);
    }
    let ghost free = choose|f: int| 1 <= f <= n && #[trigger] p[f] == 0;
    let ghost old_p = p@;
    p.set(0, row);
    let mut minimum: Vec<i128> = vec![i128::MAX; n + 1];
    let mut used: Vec<bool> = vec![false; n + 1];
    let mut way: Vec<usize> = vec![0; n + 1];
    let mut column: usize = 0;
    let ghost mut rank: Seq<int> = Seq::new((n + 1) as nat, |i: int| 0);
    let ghost mut clock: int = 0;
    let ghost mut started: bool = false;
    proof {
        assert forall|r: int| 1 <= r < row implies #[trigger] is_held(p@, n as int, r) by {
            assert(is_held(old_p, n as int, r));
            let j = choose|j: int| 1 <= j <= n && #[trigger] old_p[j] == r;
            assert(p[j] == r);
        }
        reveal(searching);
        assert(searching(
            costs@,
            row as int,
            started,
            u@,
            v@,
            p@,
            used@,
            way@,
            rank,
            clock,
        ));
    }
    loop
        invariant_except_break
            started ==> p[column as int] != 0,
        invariant
            n == costs.len(),
            is_square(costs@),
            within_limit(costs@),
            1 <= row <= n < usize::MAX,
            1 <= free <= n,
            p[free] == 0,
            searching(costs@, row as int, started, u@, v@, p@, used@, way@, rank, clock),
            minimum.len() == n + 1,
            clock >= 0,
            column <= n,
            !used[column as int],
            started <==> column != 0,
            started ==> used[0],
            !started ==> forall|j: int| 0 <= j <= n ==> !#[trigger] used[j] && minimum[j] == i128::MAX,
            started ==> forall|j: int|
                1 <= j <= n && !#[trigger] used[j] ==> {
                    &&& bounded(costs@, u@, v@, p@, used@, way@, minimum@, j)
                    &&& minimum[j] >= 0
                },
            started ==> minimum[column as int] == 0,
        ensures
            started,
            used[0],
            1 <= column <= n,
            p[column as int] == 0,
            !used[column as int],
            bounded(costs@, u@, v@, p@, used@, way@, minimum@, column as int),
            minimum[column as int] == 0,
            searching(costs@, row as int, started, u@, v@, p@, used@, way@, rank, clock),
        decreases unused(used@),
    {
        let ghost used0 = used@;
        let ghost rank0 = rank;
        let ghost clock0 = clock;
        proof {
            lemma_searching_facts(
                costs@,
                row as int,
                started,
                u@,
                v@,
                p@,
                used@,
                way@,
                rank,
                clock,
            );
        }
        used.set(column, true);
        proof {
            lemma_unused_falls(used0, column as int);
            rank = rank.update(column as int, clock);
            clock = clock + 1;
            lemma_use_column(
                costs@,
                row as int,
                started,
                u@,
                v@,
                p@,
                used0,
                way@,
                rank0,
                clock0,
                minimum@,
                column as int,
                free,
            );
            assert(used@.update(column as int, false) =~= used0);
            lemma_searching_facts(
                costs@,
                row as int,
                started,
                u@,
                v@,
                p@,
                used@,
                way@,
                rank,
                clock,
            );
        }
        assert(used@[column as int]);
        let ghost way0 = way@;
        let (delta, next) = scan(
            costs,
            row,
            column,
            u,
            v,
            p,
            &used,
            &mut way,
            &mut minimum,
            Ghost(free),
        );
        proof {
            lemma_way_kept(
                costs@,
                row as int,
                started,
                u@,
                v@,
                p@,
                used@,
                way0,
                way@,
                rank,
                clock,
            );
            lemma_no_overflow(
                costs@,
                row as int,
                started,
                u@,
                v@,
                p@,
                used@,
                way@,
                rank,
                clock,
                minimum@,
                delta as int,
                next as int,
            );
        }
        let ghost u0 = u@;
        let ghost v0 = v@;
        let ghost minimum0 = minimum@;
        shift(n, delta, p, &used, u, v, &mut minimum);
        proof {
            let step = Step {
                costs: costs@,
                row: row as int,
                started,
                u: u0,
                v: v0,
                p: p@,
                used: used@,
                way: way@,
                rank,
                clock,
                minimum: minimum0,
                delta: delta as int,
                next: next as int,
                free,
                u2: u@,
                v2: v@,
                minimum2: minimum@,
            };
            assert(step.valid()) by {
                reveal(Step::valid);
            reveal(searching);
            }
            step.lemma_keeps();
            started = true;
        }
        column = next;
        if p[column] == 0 {
            break;
        }
    }
    flip(costs, row, column, u, v, p, &used, &way, Ghost(rank), Ghost(clock));
}

/// Where all rows are held, all columns hold one.
proof fn lemma_all_hold(costs: Seq<Vec<i128>>, u: Seq<i128>, v: Seq<i128>, p: Seq<usize>)
    requires
        matched(costs, costs.len() as int, u, v, p),
    ensures
        forall|j: int| 1 <= j <= costs.len() ==> #[trigger] p[j] != 0,
{
    let n = costs.len() as int;
    assert forall|f: int| 1 <= f <= n implies #[trigger] p[f] != 0 by {
        if p[f] == 0 {
            let columns = Seq::new(
                n as nat,
                |i: int| choose|j: int| 1 <= j <= n && #[trigger] p[j] == i + 1,
            );
            assert forall|i: int| 0 <= i < n implies 1 <= #[trigger] columns[i] <= n
                && p[columns[i]] == i + 1 by {
                assert(is_held(p, n, i + 1));
            }
            assert(columns.no_duplicates());
            columns.unique_seq_to_set();
            let range = vstd::set_lib::set_int_range(1, n + 1).remove(f);
            vstd::set_lib::lemma_int_range(1, n + 1);
            assert(columns.to_set().subset_of(range)) by {
                assert forall|x: int| columns.to_set().contains(x) implies range.contains(x) by {
                    let i = choose|i: int| 0 <= i < columns.len() && columns[i] == x;
                    assert(p[columns[i]] == i + 1);
                }
            }
            vstd::set_lib::lemma_len_subset(columns.to_set(), range);
        }
    }
}

/// The sum of the column potentials that the first `k` rows meet under `b`.
spec fn potential(v: Seq<i128>, b: Seq<usize>, k: int) -> int
    decreases k,
{
    if k <= 0 {
        0
    } else {
        potential(v, b, k - 1) + v[b[k - 1] + 1]
    }
}

/// The sum of the potentials of the first `k` rows.
spec fn row_potential(u: Seq<i128>, k: int) -> int
    decreases k,
{
    if k <= 0 {
        0
    } else {
        row_potential(u, k - 1) + u[k]
    }
}

proof fn lemma_potential_folds(v: Seq<i128>, b: Seq<usize>, k: int)
    requires
        0 <= k <= b.len(),
    ensures
        potential(v, b, k) == b.take(k).fold_left(0int, |x: int, j: usize| x + v[j + 1]),
    decreases k,
{
    if k > 0 {
        lemma_potential_folds(v, b, k - 1);
        assert(b.take(k).drop_last() =~= b.take(k - 1));
    }
}

/// Two assignments hold the same columns.
proof fn lemma_same_columns(a: Seq<usize>, b: Seq<usize>, n: int)
    requires
        is_permutation(a, n),
        is_permutation(b, n),
    ensures
        a.to_multiset() == b.to_multiset(),
{
    lemma_holds_each(a, n);
    lemma_holds_each(b, n);
    assert(a.to_multiset() =~= b.to_multiset());
}

proof fn lemma_holds_each(a: Seq<usize>, n: int)
    requires
        is_permutation(a, n),
    ensures
        forall|x: usize|
            a.to_multiset().count(x) == if x < n {
                1nat
            } else {
                0nat
            },
{
    broadcast use vstd::seq_lib::group_to_multiset_ensures;

    let wide = a.map_values(|x: usize| x as int);
    assert(wide.no_duplicates());
    wide.unique_seq_to_set();
    let range = vstd::set_lib::set_int_range(0, n);
    vstd::set_lib::lemma_int_range(0, n);
    assert(wide.to_set().subset_of(range)) by {
        assert forall|x: int| wide.to_set().contains(x) implies range.contains(x) by {
            let i = choose|i: int| 0 <= i < wide.len() && wide[i] == x;
            assert(a[i] < n);
        }
    }
    vstd::set_lib::lemma_subset_equality(wide.to_set(), range);
    assert(a.no_duplicates()) by {
        assert forall|i: int, j: int|
            0 <= i < a.len() && 0 <= j < a.len() && i != j implies a[i] != a[j] by {
            if i < j {
                assert(a[i] != a[j]);
            } else {
                assert(a[j] != a[i]);
            }
        }
    }
    a.lemma_multiset_has_no_duplicates();
    assert forall|x: usize| a.to_multiset().count(x) == if x < n {
        1nat
    } else {
        0nat
    } by {
        if x < n {
            assert(wide.to_set().contains(x as int));
            let i = choose|i: int| 0 <= i < wide.len() && wide[i] == x as int;
            assert(a[i] == x);
            assert(a.contains(x));
            assert(a.to_multiset().contains(x));
        } else {
            assert(!a.contains(x)) by {
                if a.contains(x) {
                    let i = choose|i: int| 0 <= i < a.len() && a[i] == x;
                    assert(a[i] < n);
                }
            }
        }
    }
}

/// An assignment costs what the potentials add up to where its edges have reduced cost zero, and
/// no less anywhere.
proof fn lemma_cost_by_potentials(
    costs: Seq<Vec<i128>>,
    u: Seq<i128>,
    v: Seq<i128>,
    p: Seq<usize>,
    b: Seq<usize>,
    k: int,
)
    requires
        is_square(costs),
        matched(costs, costs.len() as int, u, v, p),
        is_permutation(b, costs.len() as int),
        0 <= k <= costs.len(),
    ensures
        total_cost(matrix(costs), b, k) >= row_potential(u, k) + potential(v, b, k),
        (forall|i: int| 0 <= i < k ==> reduced(costs, u, v, i + 1, #[trigger] b[i] + 1) == 0)
            ==> total_cost(matrix(costs), b, k) == row_potential(u, k) + potential(v, b, k),
    decreases k,
{
    if k > 0 {
        lemma_cost_by_potentials(costs, u, v, p, b, k - 1);
        assert(b[k - 1] < costs.len());
        assert(costs[k - 1]@.len() == costs.len());
        assert(matrix(costs)[k - 1][b[k - 1] as int] == costs[k - 1]@[b[k - 1] as int]);
        assert(reduced(costs, u, v, k, b[k - 1] + 1) >= 0);
        if forall|i: int| 0 <= i < k ==> reduced(costs, u, v, i + 1, #[trigger] b[i] + 1) == 0 {
            assert(reduced(costs, u, v, k - 1 + 1, b[k - 1] + 1) == 0);
        }
    }
}

/// Minimum-cost assignment for a square matrix using the Hungarian algorithm: the column of each
/// row.
pub fn minimize(costs: &Vec<Vec<i128>>) -> (assignment: Vec<usize>)
    requires
        is_square(costs@),
        within_limit(costs@),
        costs.len() < usize::MAX,
    ensures
        is_minimal(matrix(costs@), assignment@),
{
    let n: usize = costs.len();
    let mut u: Vec<i128> = vec![0; n + 1];
    let mut v: Vec<i128> = vec![0; n + 1];
    let mut p: Vec<usize> = vec![0; n + 1];
    let mut row: usize = 1;
    while row <= n
        invariant
            n == costs.len(),
            n < usize::MAX,
            is_square(costs@),
            within_limit(costs@),
            1 <= row <= n + 1,
            matched(costs@, row - 1, u@, v@, p@),
        decreases n + 1 - row,
    {
        match_row(costs, row, &mut u, &mut v, &mut p);
        row += 1;
    }
    proof {
        lemma_all_hold(costs@, u@, v@, p@);
    }
    let mut assignment: Vec<usize> = vec![0; n];
    let mut column: usize = 1;
    while column <= n
        invariant
            n == costs.len(),
            n < usize::MAX,
            1 <= column <= n + 1,
            assignment.len() == n,
            matched(costs@, n as int, u@, v@, p@),
            forall|j: int| 1 <= j <= n ==> #[trigger] p[j] != 0,
            forall|j: int| 1 <= j < column ==> assignment[#[trigger] p[j] - 1] == j - 1,
        decreases n + 1 - column,
    {
        let ghost before = assignment@;
        let r: usize = p[column];
        assert(1 <= p[column as int] <= n);
        assignment.set(r - 1, column - 1);
        proof {
            assert forall|j: int| 1 <= j < column + 1 implies assignment[#[trigger] p[j] - 1]
                == j - 1 by {
                if j < column {
                    assert(p[j] != p[column as int]);
                    assert(before[p[j] - 1] == j - 1);
                }
            }
        }
        column += 1;
    }
    proof {
        let a = assignment@;
        let size = n as int;
        assert forall|i: int| 0 <= i < size implies (#[trigger] a[i]) < size && p[a[i] + 1] == i + 1 by {
            assert(is_held(p@, size, i + 1));
            let j = choose|j: int| 1 <= j <= size && #[trigger] p[j] == i + 1;
            assert(a[p[j] - 1] == j - 1);
        }
        assert(is_permutation(a, size)) by {
            assert forall|i: int, j: int| 0 <= i < j < size implies a[i] != a[j] by {
                assert(p[a[i] + 1] == i + 1);
                assert(p[a[j] + 1] == j + 1);
            }
        }
        lemma_cost_by_potentials(costs@, u@, v@, p@, a, size);
        assert forall|i: int| 0 <= i < size implies reduced(
            costs@,
            u@,
            v@,
            i + 1,
            #[trigger] a[i] + 1,
        ) == 0 by {
            let j = a[i] + 1;
            assert(p[j] != 0);
            assert(reduced(costs@, u@, v@, p[j] as int, j) == 0);
        }
        assert forall|b: Seq<usize>| is_permutation(b, size) implies total_cost(matrix(costs@), a, size)
            <= #[trigger] total_cost(matrix(costs@), b, size) by {
            lemma_cost_by_potentials(costs@, u@, v@, p@, b, size);
            lemma_same_columns(a, b, size);
            lemma_potential_folds(v@, a, size);
            lemma_potential_folds(v@, b, size);
            assert(a.take(size) =~= a);
            assert(b.take(size) =~= b);
            vstd::seq_lib::lemma_fold_left_permutation(
                a,
                b,
                |x: int, j: usize| x + v@[j + 1],
                0int,
            );
        }
    }
    assignment
}

/// The sum of the first `k` numbers.
spec fn sum(s: Seq<int>, k: int) -> int
    decreases k,
{
    if k <= 0 {
        0
    } else {
        sum(s, k - 1) + s[k - 1]
    }
}

proof fn lemma_sum_updated(s: Seq<int>, j: int, x: int, k: int)
    requires
        0 <= j < s.len(),
        k <= s.len(),
    ensures
        sum(s.update(j, x), k) == sum(s, k) + if j < k {
            x - s[j]
        } else {
            0
        },
    decreases k,
{
    if k > 0 {
        lemma_sum_updated(s, j, x, k - 1);
    }
}

/// `q` undoes the order `p` of the first `n` places.
pub open spec fn undoes(q: Seq<usize>, p: Seq<usize>, n: int) -> bool {
    &&& p.len() == n
    &&& q.len() == n
    &&& forall|i: int| 0 <= i < n ==> (#[trigger] p[i]) < n && q[p[i] as int] == i
    &&& forall|i: int| 0 <= i < n ==> (#[trigger] q[i]) < n && p[q[i] as int] == i
}

proof fn lemma_sum_reordered(s: Seq<int>, t: Seq<int>, p: Seq<usize>, q: Seq<usize>, n: int)
    requires
        0 <= n,
        s.len() == n,
        t.len() == n,
        undoes(q, p, n),
        forall|i: int| 0 <= i < n ==> #[trigger] t[i] == s[p[i] as int],
    ensures
        sum(t, n) == sum(s, n),
    decreases n,
{
    if n > 0 {
        let last = n - 1;
        let j = q[last] as int;
        let m = p[last] as int;
        let moved = t.update(j, t[last]);
        lemma_sum_updated(t, j, t[last], last);
        let shorter_p = p.update(j, p[last]).take(last);
        let shorter_q = q.update(m, q[last]).take(last);
        let shorter_s = s.take(last);
        let shorter_t = moved.take(last);
        assert(p[j] == last);
        assert(q[m] == last);
        assert forall|i: int| 0 <= i < last implies (#[trigger] shorter_p[i]) < last
            && shorter_q[shorter_p[i] as int] == i by {
            assert(q[p[i] as int] == i);
        }
        assert forall|i: int| 0 <= i < last implies (#[trigger] shorter_q[i]) < last
            && shorter_p[shorter_q[i] as int] == i by {
            assert(p[q[i] as int] == i);
        }
        lemma_sum_reordered(shorter_s, shorter_t, shorter_p, shorter_q, last);
        lemma_sum_taken(moved, last, last);
        lemma_sum_taken(s, last, last);
    }
}

proof fn lemma_sum_taken(s: Seq<int>, n: int, k: int)
    requires
        k <= n <= s.len(),
    ensures
        sum(s.take(n), k) == sum(s, k),
    decreases k,
{
    if k > 0 {
        lemma_sum_taken(s, n, k - 1);
    }
}

proof fn lemma_total_is_sum(costs: Seq<Seq<int>>, a: Seq<usize>, s: Seq<int>, k: int)
    requires
        k <= s.len(),
        forall|i: int| 0 <= i < s.len() ==> #[trigger] s[i] == costs[i][a[i] as int],
    ensures
        total_cost(costs, a, k) == sum(s, k),
    decreases k,
{
    if k > 0 {
        lemma_total_is_sum(costs, a, s, k - 1);
    }
}

proof fn lemma_total_reordered(
    costs: Seq<Seq<int>>,
    a: Seq<usize>,
    other: Seq<Seq<int>>,
    b: Seq<usize>,
    rows: Seq<usize>,
    places: Seq<usize>,
)
    requires
        costs.len() == other.len(),
        undoes(places, rows, costs.len() as int),
        forall|i: int|
            0 <= i < costs.len() ==> #[trigger] other[i][b[i] as int]
                == costs[rows[i] as int][a[rows[i] as int] as int],
    ensures
        total_cost(other, b, other.len() as int) == total_cost(costs, a, costs.len() as int),
{
    let n = costs.len();
    let s = Seq::new(n, |i: int| costs[i][a[i] as int]);
    let t = Seq::new(n, |i: int| other[i][b[i] as int]);
    lemma_total_is_sum(costs, a, s, n as int);
    lemma_total_is_sum(other, b, t, n as int);
    lemma_sum_reordered(s, t, rows, places, n as int);
}

/// The order of rows and columns does not matter: where the rows and the columns of a matrix stand
/// in another order, a minimal assignment of the one, put in that order, is minimal for the other.
pub proof fn law_order_of_rows_and_columns(
    costs: Seq<Seq<int>>,
    a: Seq<usize>,
    other: Seq<Seq<int>>,
    b: Seq<usize>,
    rows: Seq<usize>,
    places: Seq<usize>,
    columns: Seq<usize>,
)
    requires
        is_minimal(costs, a),
        costs.len() == other.len(),
        undoes(places, rows, costs.len() as int),
        is_permutation(columns, costs.len() as int),
        is_permutation(b, costs.len() as int),
        forall|i: int, j: int|
            0 <= i < costs.len() && 0 <= j < costs.len() ==> #[trigger] other[i][j]
                == costs[rows[i] as int][columns[j] as int],
        forall|i: int|
            0 <= i < costs.len() ==> columns[(#[trigger] b[i]) as int] == a[rows[i] as int],
    ensures
        is_minimal(other, b),
{
    let n = costs.len() as int;
    assert forall|i: int| 0 <= i < n implies #[trigger] other[i][b[i] as int]
        == costs[rows[i] as int][a[rows[i] as int] as int] by {
        assert(b[i] < n);
    }
    lemma_total_reordered(costs, a, other, b, rows, places);
    assert forall|c: Seq<usize>| is_permutation(c, n) implies total_cost(other, b, n)
        <= #[trigger] total_cost(other, c, n) by {
        let d = Seq::new(n as nat, |r: int| columns[c[places[r] as int] as int]);
        assert forall|r: int| 0 <= r < n implies (#[trigger] d[r]) < n by {
            assert(places[r] < n);
            assert(c[places[r] as int] < n);
        }
        assert forall|i: int, j: int| 0 <= i < j < n implies d[i] != d[j] by {
            let x = places[i] as int;
            let y = places[j] as int;
            assert(rows[x] == i && rows[y] == j);
            assert(x != y);
            assert(c[x] != c[y]) by {
                if x < y {
                } else {
                    assert(y < x);
                }
            }
            assert(c[x] < n && c[y] < n);
            if c[x] < c[y] {
                assert(columns[c[x] as int] != columns[c[y] as int]);
            } else {
                assert(columns[c[y] as int] != columns[c[x] as int]);
            }
        }
        assert(is_permutation(d, n));
        assert forall|i: int| 0 <= i < n implies #[trigger] other[i][c[i] as int]
            == costs[rows[i] as int][d[rows[i] as int] as int] by {
            assert(c[i] < n);
            assert(places[rows[i] as int] == i);
        }
        lemma_total_reordered(costs, d, other, c, rows, places);
    }
}

} // verus!
