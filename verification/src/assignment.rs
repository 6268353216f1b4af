//! Which squad goes for which objective.
//!
//! [`build_ev_matrix`] scores every squad on every objective, on staying where it is and on giving up;
//! [`solve_assignment`] gives each squad one of them, no objective to two, so that all of them together
//! gain the most. Each squad has a column of its own for staying and for giving up, so that none is
//! forced into a loss.
use crate::composition::{pairing_ev, quantize_ev, PairingParams, SquadCapabilities};
use crate::doctrine::EnemyForce;
use crate::fixed::{to_i64, Probability};
use crate::force_sizing::DefenseProfile;
use crate::objective_value::{value_e, ObjectiveIntel, ObjectiveValueKind};
use vstd::prelude::*;

verus! {

/// The EV of what a squad cannot do.
pub const INFEASIBLE_EV: i64 = -0x2000_0000_0000_0000;

/// What a column stands for.
#[derive(Clone, Copy, Debug, PartialEq, Eq, Structural)]
pub enum ColumnKind {
    /// Going for an objective, which at most one squad does.
    Objective { id: u32 },
    /// Staying with the objective that it has; for this row only.
    StayPut { row: usize },
    /// Giving up; for this row only.
    Recycle { row: usize },
}

/// What each squad gains from each column, in thousandths.
#[derive(Clone, Debug)]
pub struct EvMatrix {
    /// How many squads there are.
    pub rows: usize,
    pub columns: Vec<ColumnKind>,
    /// The cells, row by row.
    pub ev: Vec<i64>,
}

/// The column of each squad.
#[derive(Clone, Debug, PartialEq, Eq)]
pub struct Assignment {
    /// The column of each row, if it has one that it can take.
    pub row_to_col: Vec<Option<usize>>,
    /// What the rows gain together.
    pub total_ev: i64,
}

impl EvMatrix {
    /// It has a cell for each row and column.
    pub open spec fn wf(&self) -> bool {
        &&& self.ev@.len() == self.rows * self.columns@.len()
        &&& self.rows < usize::MAX
        &&& self.columns@.len() < usize::MAX
    }

    /// The side of the square that the matrix is padded to.
    pub open spec fn side(&self) -> int {
        if self.rows >= self.columns@.len() {
            self.rows as int
        } else {
            self.columns@.len() as int
        }
    }

    /// The quantized EV of a cell; padding is worth nothing.
    pub open spec fn cell(&self, r: int, c: int) -> int {
        if 0 <= r < self.rows && 0 <= c < self.columns@.len() {
            self.ev@[r * self.columns@.len() + c] as int
        } else {
            0
        }
    }

    /// The number of columns.
    pub fn cols(&self) -> (n: usize)
        ensures
            n == self.columns@.len(),
    {
        self.columns.len()
    }

    /// The quantized EV at `(row, col)`.
    pub fn at(&self, row: usize, col: usize) -> (ev: i64)
        requires
            self.wf(),
            row < self.rows,
            col < self.columns@.len(),
        ensures
            ev == self.cell(row as int, col as int),
    {
        proof {
            lemma_row_major(row as int, col as int, self.rows as int, self.columns@.len() as int);
            assert(self.ev.len() <= usize::MAX);
        }
        self.ev[row * self.columns.len() + col]
    }
}

/// A cell inside a row-major table has an index inside it.
proof fn lemma_row_major(r: int, c: int, rows: int, cols: int)
    requires
        0 <= r < rows,
        0 <= c < cols,
    ensures
        0 <= r * cols,
        0 <= r * cols + c < rows * cols,
{
    assert(0 <= r * cols && r * cols + cols <= rows * cols) by (nonlinear_arith)
        requires
            0 <= r < rows,
            0 <= c < cols,
    ;
}

// ---------------------------------------------------------------------------------------------
// Shortest augmenting paths. Rows and columns are numbered from one; column zero is the virtual
// start of a path, and row zero stands for "unmatched".
// ---------------------------------------------------------------------------------------------

/// No cost is larger than this, either way.
const COST_BOUND: i128 = 0x8000_0000_0000_0000;

/// Farther than any path.
pub const FAR: i128 = 0x10_0000_0000_0000_0000;

/// What matching row `i` to column `j` costs: the EV that it gives, negated.
#[verifier::opaque]
pub open spec fn cost(m: EvMatrix, i: int, j: int) -> int {
    -m.cell(i - 1, j - 1)
}

/// What matching row `i` to column `j` costs; nothing outside the matrix.
fn padded_cost(m: &EvMatrix, i: usize, j: usize) -> (c: i128)
    requires
        m.wf(),
        1 <= i,
        1 <= j,
    ensures
        c == cost(*m, i as int, j as int),
        -COST_BOUND <= c <= COST_BOUND,
{
    reveal(cost);
    if i - 1 < m.rows && j - 1 < m.cols() {
        -(m.at(i - 1, j - 1) as i128)
    } else {
        0
    }
}

/// Costs are bounded.
proof fn lemma_cost_bound(m: EvMatrix, i: int, j: int)
    ensures
        -COST_BOUND <= cost(m, i, j) <= COST_BOUND,
{
    reveal(cost);
}

/// The row potentials `u` and column potentials `v` price no edge of row `i` above its cost.
spec fn row_priced(m: EvMatrix, u: Seq<i128>, v: Seq<i128>, i: int) -> bool {
    forall|j: int| 1 <= j <= m.side() ==> u[i] + v[j] <= #[trigger] cost(m, i, j)
}

/// The first `k` rows are matched along edges whose price is their cost.
spec fn matched(m: EvMatrix, u: Seq<i128>, v: Seq<i128>, p: Seq<usize>, k: int) -> bool {
    &&& u.len() == m.side() + 1
    &&& v.len() == m.side() + 1
    &&& p.len() == m.side() + 1
    &&& forall|i: int| 1 <= i <= k ==> #[trigger] row_priced(m, u, v, i)
    &&& forall|j: int|
        1 <= j <= m.side() && #[trigger] p[j] != 0 ==> {
            &&& p[j] <= k
            &&& u[p[j] as int] + v[j] == cost(m, p[j] as int, j)
        }
    &&& forall|j1: int, j2: int|
        1 <= j1 < j2 <= m.side() && #[trigger] p[j1] != 0 && #[trigger] p[j2] != 0 ==> p[j1]
            != p[j2]
    &&& forall|j: int| 1 <= j <= m.side() ==> #[trigger] v[j] <= 0
    &&& forall|j: int| 1 <= j <= m.side() && #[trigger] p[j] == 0 ==> v[j] == 0
    &&& forall|i: int| 1 <= i <= k ==> -COST_BOUND <= #[trigger] u[i]
}

/// The rows after the first `k` have not been priced yet.
spec fn unpriced(m: EvMatrix, u: Seq<i128>, k: int) -> bool {
    forall|i: int| k < i <= m.side() ==> #[trigger] u[i] == 0
}

/// Row `i` stands in one of the columns `1..=n`.
spec fn placed(p: Seq<usize>, n: int, i: int) -> bool {
    exists|j: int| 1 <= j <= n && #[trigger] p[j] == i
}

/// Each used column but the virtual one was reached from a used column, at an earlier time, along
/// an edge whose price is its cost.
spec fn tree(
    m: EvMatrix,
    u: Seq<i128>,
    v: Seq<i128>,
    p: Seq<usize>,
    used: Seq<bool>,
    way: Seq<usize>,
    time: Seq<int>,
) -> bool {
    &&& forall|j: int|
        1 <= j <= m.side() && #[trigger] used[j] ==> {
            &&& way[j] <= m.side()
            &&& used[way[j] as int]
            &&& time[way[j] as int] < time[j]
            &&& u[p[way[j] as int] as int] + v[j] == cost(m, p[way[j] as int] as int, j)
        }
    &&& forall|j: int| 0 <= j <= m.side() && #[trigger] used[j] ==> 0 <= time[j]
}

/// What the search for an augmenting path from row `i` keeps: `used` are the columns already
/// scanned, `j0` the column to be scanned next, `time` the order in which columns were reached,
/// and `f` a column that nobody holds.
spec fn searching(
    m: EvMatrix,
    i: int,
    p: Seq<usize>,
    u: Seq<i128>,
    v: Seq<i128>,
    used: Seq<bool>,
    minv: Seq<i128>,
    way: Seq<usize>,
    time: Seq<int>,
    t: int,
    j0: int,
    f: int,
) -> bool {
    let n = m.side();
    &&& matched(m, u, v, p, i - 1)
    &&& unpriced(m, u, i)
    &&& 1 <= i <= n
    &&& p[0] == i
    &&& u.len() == n + 1
    &&& used.len() == n + 1
    &&& minv.len() == n + 1
    &&& way.len() == n + 1
    &&& time.len() == n + 1
    &&& 0 <= j0 <= n
    &&& !used[j0]
    &&& 1 <= f <= n
    &&& p[f] == 0
    &&& !used[f]
    &&& -COST_BOUND <= u[i]
    &&& forall|j: int| 1 <= j <= n && #[trigger] used[j] ==> p[j] != 0
    &&& j0 == 0 ==> {
        &&& u[i] == 0
        &&& t == 0
        &&& forall|j: int| 0 <= j <= n ==> !#[trigger] used[j]
        &&& forall|j: int| 1 <= j <= n ==> #[trigger] minv[j] == FAR
    }
    &&& j0 != 0 ==> {
        &&& used[0]
        &&& t > 0
        &&& row_priced(m, u, v, i)
        &&& minv[j0] == 0
        &&& forall|j: int| 1 <= j <= n ==> #[trigger] way[j] <= n && used[way[j] as int]
        &&& forall|j: int|
            1 <= j <= n && !used[j] ==> #[trigger] minv[j] == cost(m, p[way[j] as int] as int, j)
                - u[p[way[j] as int] as int] - v[j]
        &&& forall|j: int, j2: int|
            1 <= j <= n && !used[j] && 0 <= j2 <= n && used[j2] ==> minv[j] <= #[trigger] cost(
                m,
                p[j2] as int,
                j,
            ) - u[p[j2] as int] - v[j]
    }
    &&& tree(m, u, v, p, used, way, time)
    &&& forall|j: int| 0 <= j <= n && #[trigger] used[j] ==> time[j] < t
}

/// Scans the edges of row `i0`, which stands in column `j0`: each column not yet used learns
/// whether it is reached more cheaply through `j0`.
fn relax(
    m: &EvMatrix,
    n: usize,
    i0: usize,
    j0: usize,
    price: i128,
    v: &Vec<i128>,
    used: &Vec<bool>,
    minv: &mut Vec<i128>,
    way: &mut Vec<usize>,
)
    requires
        m.wf(),
        n == m.side(),
        n < usize::MAX,
        1 <= i0,
        v@.len() == n + 1,
        used@.len() == n + 1,
        old(minv)@.len() == n + 1,
        old(way)@.len() == n + 1,
        -COST_BOUND <= price <= COST_BOUND,
        forall|j: int| 1 <= j <= n ==> -2 * COST_BOUND <= #[trigger] v@[j] <= 0,
    ensures
        final(minv)@.len() == n + 1,
        final(way)@.len() == n + 1,
        forall|j: int|
            1 <= j <= n && !used@[j] ==> {
                let cur = cost(*m, i0 as int, j) - price - v@[j];
                #[trigger] final(minv)@[j] == if cur < old(minv)@[j] {
                    cur
                } else {
                    old(minv)@[j] as int
                }
            },
        forall|j: int|
            1 <= j <= n && !used@[j] ==> {
                let cur = cost(*m, i0 as int, j) - price - v@[j];
                #[trigger] final(way)@[j] == if cur < old(minv)@[j] {
                    j0
                } else {
                    old(way)@[j]
                }
            },
        forall|j: int|
            0 <= j <= n && (j == 0 || used@[j]) ==> #[trigger] final(minv)@[j] == old(minv)@[j],
        forall|j: int|
            0 <= j <= n && (j == 0 || used@[j]) ==> #[trigger] final(way)@[j] == old(way)@[j],
{
    let mut j: usize = 1;
    while j <= n
        invariant
            m.wf(),
            n == m.side(),
            n < usize::MAX,
            1 <= i0,
            1 <= j <= n + 1,
            v@.len() == n + 1,
            used@.len() == n + 1,
            minv@.len() == n + 1,
            way@.len() == n + 1,
            -COST_BOUND <= price <= COST_BOUND,
            forall|j: int| 1 <= j <= n ==> -2 * COST_BOUND <= #[trigger] v@[j] <= 0,
            forall|h: int|
                1 <= h < j && !used@[h] ==> {
                    let cur = cost(*m, i0 as int, h) - price - v@[h];
                    #[trigger] minv@[h] == if cur < old(minv)@[h] {
                        cur
                    } else {
                        old(minv)@[h] as int
                    }
                },
            forall|h: int|
                1 <= h < j && !used@[h] ==> {
                    let cur = cost(*m, i0 as int, h) - price - v@[h];
                    #[trigger] way@[h] == if cur < old(minv)@[h] {
                        j0
                    } else {
                        old(way)@[h]
                    }
                },
            forall|h: int|
                0 <= h <= n && (h == 0 || h >= j || used@[h]) ==> #[trigger] minv@[h] == old(
                    minv,
                )@[h],
            forall|h: int|
                0 <= h <= n && (h == 0 || h >= j || used@[h]) ==> #[trigger] way@[h] == old(way)@[h],
        decreases n + 1 - j,
    {
        if !used[j] {
            assert(-2 * COST_BOUND <= v@[j as int] <= 0);
            assert(minv@[j as int] == old(minv)@[j as int]);
            let cur: i128 = padded_cost(m, i0, j) - price - v[j];
            if cur < minv[j] {
                minv.set(j, cur);
                way.set(j, j0);
            }
        }
        j = j + 1;
    }
}

/// The first of the cheapest columns not yet used.
fn nearest(n: usize, used: &Vec<bool>, minv: &Vec<i128>, Ghost(f): Ghost<int>) -> (r: (
    i128,
    usize,
))
    requires
        n < usize::MAX,
        used@.len() == n + 1,
        minv@.len() == n + 1,
        1 <= f <= n,
        !used@[f],
        minv@[f] < FAR,
    ensures
        1 <= r.1 <= n,
        !used@[r.1 as int],
        r.0 == minv@[r.1 as int],
        forall|j: int| 1 <= j <= n && !used@[j] ==> r.0 <= #[trigger] minv@[j],
        forall|j: int| 1 <= j < r.1 && !used@[j] ==> r.0 < #[trigger] minv@[j],
{
    let mut delta: i128 = FAR;
    let mut j1: usize = 0;
    let mut j: usize = 1;
    while j <= n
        invariant
            n < usize::MAX,
            1 <= j <= n + 1,
            used@.len() == n + 1,
            minv@.len() == n + 1,
            delta <= FAR,
            j1 == 0 ==> delta == FAR,
            j1 != 0 ==> 1 <= j1 < j && !used@[j1 as int] && delta == minv@[j1 as int],
            forall|h: int| 1 <= h < j && !used@[h] ==> delta <= #[trigger] minv@[h],
            forall|h: int| 1 <= h < j1 && !used@[h] ==> delta < #[trigger] minv@[h],
        decreases n + 1 - j,
    {
        if !used[j] && minv[j] < delta {
            delta = minv[j];
            j1 = j;
        }
        j = j + 1;
    }
    assert(delta <= minv@[f]);
    (delta, j1)
}

/// Row `i` holds one of the columns that were scanned.
pub open spec fn is_reached(used: Seq<bool>, p: Seq<usize>, n: int, i: int) -> bool {
    exists|j: int| 0 <= j <= n && #[trigger] used[j] && p[j] == i
}

/// Raises the potentials of the rows reached, and lowers those of the columns used, by `delta`.
fn shift(
    n: usize,
    delta: i128,
    used: &Vec<bool>,
    p: &Vec<usize>,
    u: &mut Vec<i128>,
    v: &mut Vec<i128>,
    minv: &mut Vec<i128>,
)
    requires
        n < usize::MAX,
        -COST_BOUND <= delta <= 4 * COST_BOUND,
        used@.len() == n + 1,
        p@.len() == n + 1,
        old(u)@.len() == n + 1,
        old(v)@.len() == n + 1,
        old(minv)@.len() == n + 1,
        forall|j: int| 0 <= j <= n && #[trigger] used@[j] ==> 1 <= p@[j] <= n,
        forall|j1: int, j2: int|
            0 <= j1 < j2 <= n && #[trigger] used@[j1] && #[trigger] used@[j2] ==> p@[j1] != p@[j2],
        forall|i: int| 1 <= i <= n ==> -COST_BOUND <= #[trigger] old(u)@[i] <= COST_BOUND,
        forall|j: int| 1 <= j <= n ==> -2 * COST_BOUND <= #[trigger] old(v)@[j] <= 0,
        forall|j: int|
            1 <= j <= n && !used@[j] ==> -COST_BOUND <= #[trigger] old(minv)@[j] <= 4 * COST_BOUND,
        used@[0],
    ensures
        final(u)@.len() == n + 1,
        final(v)@.len() == n + 1,
        final(minv)@.len() == n + 1,
        forall|j: int|
            0 <= j <= n && #[trigger] used@[j] ==> final(u)@[p@[j] as int] == old(u)@[p@[j] as int]
                + delta,
        forall|i: int|
            0 <= i <= n && !is_reached(used@, p@, n as int, i) ==> #[trigger] final(u)@[i] == old(
                u,
            )@[i],
        forall|j: int|
            1 <= j <= n ==> #[trigger] final(v)@[j] == if used@[j] {
                old(v)@[j] - delta
            } else {
                old(v)@[j] as int
            },
        forall|j: int|
            1 <= j <= n ==> #[trigger] final(minv)@[j] == if used@[j] {
                old(minv)@[j] as int
            } else {
                old(minv)@[j] - delta
            },
        final(v)@[0] == old(v)@[0],
        final(minv)@[0] == old(minv)@[0],
{
    let mut j: usize = 0;
    while j <= n
        invariant
            n < usize::MAX,
            -COST_BOUND <= delta <= 4 * COST_BOUND,
            j <= n + 1,
            used@.len() == n + 1,
            p@.len() == n + 1,
            u@.len() == n + 1,
            v@.len() == n + 1,
            minv@.len() == n + 1,
            used@[0],
            forall|j: int| 0 <= j <= n && #[trigger] used@[j] ==> 1 <= p@[j] <= n,
            forall|j1: int, j2: int|
                0 <= j1 < j2 <= n && #[trigger] used@[j1] && #[trigger] used@[j2] ==> p@[j1]
                    != p@[j2],
            forall|i: int| 1 <= i <= n ==> -COST_BOUND <= #[trigger] old(u)@[i] <= COST_BOUND,
            forall|j: int| 1 <= j <= n ==> -2 * COST_BOUND <= #[trigger] old(v)@[j] <= 0,
            forall|j: int|
                1 <= j <= n && !used@[j] ==> -COST_BOUND <= #[trigger] old(minv)@[j] <= 4
                    * COST_BOUND,
            forall|h: int|
                0 <= h <= n && #[trigger] used@[h] ==> u@[p@[h] as int] == if h < j {
                    old(u)@[p@[h] as int] + delta
                } else {
                    old(u)@[p@[h] as int] as int
                },
            forall|i: int|
                0 <= i <= n && !is_reached(used@, p@, n as int, i) ==> #[trigger] u@[i] == old(
                    u,
                )@[i],
            forall|h: int|
                1 <= h <= n ==> #[trigger] v@[h] == if h < j && used@[h] {
                    old(v)@[h] - delta
                } else {
                    old(v)@[h] as int
                },
            forall|h: int|
                1 <= h <= n ==> #[trigger] minv@[h] == if h < j && !used@[h] {
                    old(minv)@[h] - delta
                } else {
                    old(minv)@[h] as int
                },
            v@[0] == old(v)@[0],
            minv@[0] == old(minv)@[0],
        decreases n + 1 - j,
    {
        if used[j] {
            let i: usize = p[j];
            assert(-COST_BOUND <= old(u)@[i as int] <= COST_BOUND);
            let raised: i128 = u[i] + delta;
            u.set(i, raised);
            if j > 0 {
                assert(-2 * COST_BOUND <= old(v)@[j as int] <= 0);
                assert(v@[j as int] == old(v)@[j as int]);
                let lowered: i128 = v[j] - delta;
                v.set(j, lowered);
            }
        } else {
            assert(minv@[j as int] == old(minv)@[j as int]);
            assert(-COST_BOUND <= old(minv)@[j as int] <= 4 * COST_BOUND);
            let nearer: i128 = minv[j] - delta;
            minv.set(j, nearer);
        }
        j = j + 1;
    }
}


/// While fewer rows than columns are matched, some column is free.
proof fn lemma_free_column(m: EvMatrix, u: Seq<i128>, v: Seq<i128>, p: Seq<usize>, k: int)
    requires
        matched(m, u, v, p, k),
        0 <= k < m.side(),
    ensures
        exists|f: int| 1 <= f <= m.side() && #[trigger] p[f] == 0,
{
    let n = m.side();
    if forall|f: int| 1 <= f <= n ==> #[trigger] p[f] != 0 {
        let rows = Seq::new(n as nat, |j: int| p[j + 1] as int);
        assert(rows.no_duplicates()) by {
            assert forall|a: int, b: int| 0 <= a < n && 0 <= b < n && a != b implies rows[a]
                != rows[b] by {
                assert(p[a + 1] != 0 && p[b + 1] != 0);
            }
        }
        rows.unique_seq_to_set();
        let some = vstd::set_lib::set_int_range(1, k + 1);
        vstd::set_lib::lemma_int_range(1, k + 1);
        assert forall|r: int| #[trigger] rows.to_set().contains(r) implies some.contains(r) by {
            let a = choose|a: int| 0 <= a < n && rows[a] == r;
            assert(p[a + 1] != 0);
        }
        assert(rows.to_set().subset_of(some));
        vstd::set_lib::lemma_len_subset(rows.to_set(), some);
    }
}

/// The potentials stay within bounds: a free column prices nothing.
proof fn lemma_potential_bounds(
    m: EvMatrix,
    u: Seq<i128>,
    v: Seq<i128>,
    p: Seq<usize>,
    k: int,
    f: int,
)
    requires
        matched(m, u, v, p, k),
        1 <= f <= m.side(),
        p[f] == 0,
    ensures
        forall|i: int| 1 <= i <= k ==> #[trigger] u[i] <= COST_BOUND,
        forall|j: int| 1 <= j <= m.side() ==> -2 * COST_BOUND <= #[trigger] v[j],
{
    assert forall|i: int| 1 <= i <= k implies #[trigger] u[i] <= COST_BOUND by {
        assert(row_priced(m, u, v, i));
        lemma_cost_bound(m, i, f);
    }
    assert forall|j: int| 1 <= j <= m.side() implies -2 * COST_BOUND <= #[trigger] v[j] by {
        if p[j] != 0 {
            lemma_cost_bound(m, p[j] as int, j);
            assert(u[p[j] as int] <= COST_BOUND);
        }
    }
}

/// One step of the search: column `j0` is scanned, the potentials move by `delta`, and the column
/// `j1` comes next.
proof fn lemma_search_step(
    m: EvMatrix,
    i: int,
    p: Seq<usize>,
    u: Seq<i128>,
    v: Seq<i128>,
    used: Seq<bool>,
    minv: Seq<i128>,
    way: Seq<usize>,
    time: Seq<int>,
    t: int,
    j0: int,
    f: int,
    used2: Seq<bool>,
    minv1: Seq<i128>,
    way2: Seq<usize>,
    delta: i128,
    j1: int,
    u2: Seq<i128>,
    v2: Seq<i128>,
    minv2: Seq<i128>,
)
    requires
        searching(m, i, p, u, v, used, minv, way, time, t, j0, f),
        p[j0] != 0,
        used2 == used.update(j0, true),
        minv1.len() == m.side() + 1,
        way2.len() == m.side() + 1,
        u2.len() == m.side() + 1,
        v2.len() == m.side() + 1,
        minv2.len() == m.side() + 1,
        forall|j: int|
            1 <= j <= m.side() && !used2[j] ==> {
                let cur = cost(m, p[j0] as int, j) - u[p[j0] as int] - v[j];
                #[trigger] minv1[j] == if cur < minv[j] {
                    cur
                } else {
                    minv[j] as int
                }
            },
        forall|j: int|
            1 <= j <= m.side() && !used2[j] ==> {
                let cur = cost(m, p[j0] as int, j) - u[p[j0] as int] - v[j];
                #[trigger] way2[j] == if cur < minv[j] {
                    j0
                } else {
                    way[j] as int
                }
            },
        forall|j: int| 0 <= j <= m.side() && (j == 0 || used2[j]) ==> #[trigger] way2[j] == way[j],
        1 <= j1 <= m.side(),
        !used2[j1],
        delta == minv1[j1],
        forall|j: int| 1 <= j <= m.side() && !used2[j] ==> delta <= #[trigger] minv1[j],
        forall|j: int|
            0 <= j <= m.side() && #[trigger] used2[j] ==> u2[p[j] as int] == u[p[j] as int] + delta,
        forall|r: int|
            0 <= r <= m.side() && !is_reached(used2, p, m.side(), r) ==> #[trigger] u2[r] == u[r],
        forall|j: int|
            1 <= j <= m.side() ==> #[trigger] v2[j] == if used2[j] {
                v[j] - delta
            } else {
                v[j] as int
            },
        forall|j: int|
            1 <= j <= m.side() ==> #[trigger] minv2[j] == if used2[j] {
                minv1[j] as int
            } else {
                minv1[j] - delta
            },
    ensures
        searching(m, i, p, u2, v2, used2, minv2, way2, time.update(j0, t), t + 1, j1, f),
{
    let n = m.side();
    let time2 = time.update(j0, t);
    lemma_potential_bounds(m, u, v, p, i - 1, f);
    // A row that is not reached keeps its potential; one that is reached has it raised.
    assert forall|r: int| 1 <= r <= n implies #[trigger] u2[r] == u[r] || u2[r] == u[r] + delta by {
        if exists|j: int| 0 <= j <= n && #[trigger] used2[j] && p[j] == r {
        } else {
        }
    }
    // The first step may lower the start row only; later steps lower nothing.
    if j0 != 0 {
        assert(delta >= 0) by {
            let cur = cost(m, p[j0] as int, j1) - u[p[j0] as int] - v[j1];
            assert(row_priced(m, u, v, p[j0] as int));
            assert(row_priced(m, u, v, p[way[j1] as int] as int));
            assert(minv[j1] >= 0);
        }
    }
    // What a reached row still has to pay for a column not yet used is at least `delta`.
    assert forall|h: int, j: int|
        0 <= h <= n && used2[h] && 1 <= j <= n && !used2[j] implies minv1[j] <= #[trigger] cost(
        m,
        p[h] as int,
        j,
    ) - u[p[h] as int] - v[j] by {
        if h != j0 {
            assert(used[h]);
        }
    }
    assert forall|r: int| 1 <= r <= i implies #[trigger] row_priced(m, u2, v2, r) by {
        assert forall|j: int| 1 <= j <= n implies u2[r] + v2[j] <= #[trigger] cost(m, r, j) by {
            if r < i || j0 != 0 {
                assert(row_priced(m, u, v, r));
            }
            if !used2[j] {
                if exists|h: int| 0 <= h <= n && #[trigger] used2[h] && p[h] == r {
                    let h = choose|h: int| 0 <= h <= n && #[trigger] used2[h] && p[h] == r;
                    assert(u2[r] == u[r] + delta);
                    assert(minv1[j] <= cost(m, p[h] as int, j) - u[p[h] as int] - v[j]);
                } else {
                    assert(used2[0]);
                }
            } else {
                assert(used[j] || j == j0);
                assert(u2[r] == u[r] || u2[r] == u[r] + delta);
            }
        }
    }
    assert forall|j: int| 1 <= j <= n && #[trigger] p[j] != 0 implies u2[p[j] as int] + v2[j]
        == cost(m, p[j] as int, j) by {
        if used2[j] {
        } else {
            assert forall|h: int| 0 <= h <= n && #[trigger] used2[h] implies p[h] != p[j] by {
                if h > 0 {
                    assert(used[h] || h == j0);
                    assert(p[h] != 0);
                }
            }
            assert(u2[p[j] as int] == u[p[j] as int]);
        }
    }
    assert forall|j: int| 1 <= j <= n implies #[trigger] v2[j] <= 0 by {
        assert(v[j] <= 0);
    }
    assert(matched(m, u2, v2, p, i - 1));
    assert(unpriced(m, u2, i)) by {
        assert forall|r: int| i < r <= n implies #[trigger] u2[r] == 0 by {
            assert forall|h: int| 0 <= h <= n && #[trigger] used2[h] implies p[h] != r by {
                if h > 0 {
                    assert(used[h] || h == j0);
                    assert(p[h] != 0);
                }
            }
        }
    }
    assert(tree(m, u2, v2, p, used2, way2, time2)) by {
        assert forall|j: int| 1 <= j <= n && #[trigger] used2[j] implies {
            &&& way2[j] <= n
            &&& used2[way2[j] as int]
            &&& time2[way2[j] as int] < time2[j]
            &&& u2[p[way2[j] as int] as int] + v2[j] == cost(m, p[way2[j] as int] as int, j)
        } by {
            assert(way2[j] == way[j]);
            if j != j0 {
                assert(used[j]);
            } else {
                assert(minv[j0] == 0);
            }
            assert(used[way[j] as int]);
            assert(used2[way[j] as int]);
        }
    }
    assert(used2[0]);
    assert(u2[i] == u[i] + delta);
    if j0 == 0 {
        lemma_cost_bound(m, i, j1);
        lemma_cost_bound(m, i, f);
    }
    assert forall|j: int| 1 <= j <= n implies #[trigger] way2[j] <= n && used2[way2[j] as int] by {
        if used2[j] {
            assert(used[j] || j == j0);
            assert(way2[j] == way[j]);
        } else if j0 == 0 {
            lemma_cost_bound(m, i, j);
            assert(minv[j] == FAR);
        } else {
            assert(way[j] <= n && used[way[j] as int]);
        }
    }
    assert forall|j: int| 1 <= j <= n && !used2[j] implies #[trigger] minv2[j] == cost(
        m,
        p[way2[j] as int] as int,
        j,
    ) - u2[p[way2[j] as int] as int] - v2[j] by {
        assert(used2[way2[j] as int]);
        if j0 == 0 {
            lemma_cost_bound(m, i, j);
            assert(minv[j] == FAR);
        } else {
            assert(way[j] <= n && used[way[j] as int]);
            assert(minv1[j] == cost(m, p[way2[j] as int] as int, j) - u[p[way2[j] as int] as int]
                - v[j]);
        }
    }
    assert forall|j: int, h: int|
        1 <= j <= n && !used2[j] && 0 <= h <= n && used2[h] implies minv2[j] <= #[trigger] cost(
        m,
        p[h] as int,
        j,
    ) - u2[p[h] as int] - v2[j] by {
        assert(u2[p[h] as int] == u[p[h] as int] + delta);
    }
}

/// Where the search for row `i` has ended: `sink` is a free column, and the columns reached, the
/// sink among them, form a tree of edges whose price is their cost.
spec fn found(
    m: EvMatrix,
    i: int,
    p: Seq<usize>,
    u: Seq<i128>,
    v: Seq<i128>,
    used: Seq<bool>,
    way: Seq<usize>,
    time: Seq<int>,
    sink: int,
) -> bool {
    let n = m.side();
    &&& matched(m, u, v, p, i - 1)
    &&& unpriced(m, u, i)
    &&& row_priced(m, u, v, i)
    &&& -COST_BOUND <= u[i]
    &&& 1 <= i <= n
    &&& p[0] == i
    &&& used.len() == n + 1
    &&& way.len() == n + 1
    &&& time.len() == n + 1
    &&& 1 <= sink <= n
    &&& used[sink]
    &&& p[sink] == 0
    &&& tree(m, u, v, p, used, way, time)
    &&& forall|j: int| 1 <= j <= n && #[trigger] used[j] && j != sink ==> p[j] != 0
}

/// A search for a free column: the potentials, the columns that were scanned, what reaching each of the
/// others costs and through which column, and the column to scan next.
#[verifier::ext_equal]
pub struct Search {
    pub u: Seq<i128>,
    pub v: Seq<i128>,
    pub used: Seq<bool>,
    pub minv: Seq<i128>,
    pub way: Seq<usize>,
    pub j0: int,
}

/// The first of the cheapest columns among `1..=n` that were not scanned; zero where there is none.
pub open spec fn first_cheapest(used: Seq<bool>, minv: Seq<i128>, n: int) -> int
    decreases n,
{
    if n <= 0 {
        0
    } else {
        let before = first_cheapest(used, minv, n - 1);
        if !used[n] && (before == 0 || minv[n] < minv[before]) {
            n
        } else {
            before
        }
    }
}

/// The first of the cheapest columns that are not used is the one found.
proof fn lemma_first_cheapest(used: Seq<bool>, minv: Seq<i128>, n: int, j: int)
    requires
        1 <= j <= n,
        !used[j],
        forall|h: int| 1 <= h <= n && !used[h] ==> minv[j] <= #[trigger] minv[h],
        forall|h: int| 1 <= h < j && !used[h] ==> minv[j] < #[trigger] minv[h],
    ensures
        first_cheapest(used, minv, n) == j,
    decreases n,
{
    if n > j {
        lemma_first_cheapest(used, minv, n - 1, j);
    } else {
        lemma_cheapest_of_the_dearer(used, minv, n - 1, minv[j] as int);
    }
}

/// Where all columns that were not scanned cost more than `c`, so does the one that is found.
proof fn lemma_cheapest_of_the_dearer(used: Seq<bool>, minv: Seq<i128>, n: int, c: int)
    requires
        forall|h: int| 1 <= h <= n && !used[h] ==> c < #[trigger] minv[h],
    ensures
        first_cheapest(used, minv, n) == 0 || (1 <= first_cheapest(used, minv, n) <= n
            && c < minv[first_cheapest(used, minv, n)]),
    decreases n,
{
    if n > 0 {
        lemma_cheapest_of_the_dearer(used, minv, n - 1, c);
    }
}

/// What reaching column `j` through the row of column `j0` costs.
pub open spec fn through(m: EvMatrix, p: Seq<usize>, s: Search, j: int) -> int {
    cost(m, p[s.j0] as int, j) - s.u[p[s.j0] as int] - s.v[j]
}

/// The search, one column further: the next column is scanned, and the potentials of what was reached
/// move by what the cheapest of the others costs.
pub open spec fn advance(m: EvMatrix, p: Seq<usize>, s: Search) -> Search {
    let n = m.side();
    let used = s.used.update(s.j0, true);
    let minv = Seq::new(
        (n + 1) as nat,
        |j: int|
            if j >= 1 && !used[j] && through(m, p, s, j) < s.minv[j] {
                through(m, p, s, j) as i128
            } else {
                s.minv[j]
            },
    );
    let way = Seq::new(
        (n + 1) as nat,
        |j: int|
            if j >= 1 && !used[j] && through(m, p, s, j) < s.minv[j] {
                s.j0 as usize
            } else {
                s.way[j]
            },
    );
    let next = first_cheapest(used, minv, n);
    let delta = minv[next];
    Search {
        u: Seq::new(
            (n + 1) as nat,
            |i: int|
                if is_reached(used, p, n, i) {
                    (s.u[i] + delta) as i128
                } else {
                    s.u[i]
                },
        ),
        v: Seq::new(
            (n + 1) as nat,
            |j: int|
                if j >= 1 && used[j] {
                    (s.v[j] - delta) as i128
                } else {
                    s.v[j]
                },
        ),
        used,
        minv: Seq::new(
            (n + 1) as nat,
            |j: int|
                if j >= 1 && !used[j] {
                    (minv[j] - delta) as i128
                } else {
                    minv[j]
                },
        ),
        way,
        j0: next,
    }
}

/// The search, until it comes to a free column.
pub open spec fn searched(m: EvMatrix, p: Seq<usize>, s: Search, fuel: nat) -> Search
    decreases fuel,
{
    if fuel == 0 || p[s.j0] == 0 {
        s
    } else {
        searched(m, p, advance(m, p, s), (fuel - 1) as nat)
    }
}

/// A search that has not begun.
pub open spec fn unsearched(m: EvMatrix, u: Seq<i128>, v: Seq<i128>) -> Search {
    let n = (m.side() + 1) as nat;
    Search {
        u,
        v,
        used: Seq::new(n, |j: int| false),
        minv: Seq::new(n, |j: int| FAR),
        way: Seq::new(n, |j: int| 0usize),
        j0: 0,
    }
}

/// The columns along the path that ends in `j0`, each with the row of the one before it.
pub open spec fn rematched(p: Seq<usize>, way: Seq<usize>, j0: int, fuel: nat) -> Seq<usize>
    decreases fuel,
{
    if fuel == 0 || j0 == 0 {
        p
    } else {
        rematched(p.update(j0, p[way[j0] as int]), way, way[j0] as int, (fuel - 1) as nat)
    }
}

/// The potentials and the matching once the first `i` rows are placed.
pub open spec fn placing(m: EvMatrix, i: nat) -> (Seq<i128>, Seq<i128>, Seq<usize>)
    decreases i,
{
    let n = (m.side() + 1) as nat;
    if i == 0 {
        (Seq::new(n, |k: int| 0i128), Seq::new(n, |k: int| 0i128), Seq::new(n, |k: int| 0usize))
    } else {
        let (u, v, p) = placing(m, (i - 1) as nat);
        let p0 = p.update(0, i as usize);
        let end = searched(m, p0, unsearched(m, u, v), n);
        (end.u, end.v, rematched(p0, end.way, end.j0, n))
    }
}

/// One step of the search is as it is stated.
proof fn lemma_advances(
    m: EvMatrix,
    p: Seq<usize>,
    s: Search,
    r: Search,
    minv: Seq<i128>,
    delta: i128,
)
    requires
        p.len() == m.side() + 1,
        s.u.len() == m.side() + 1,
        s.v.len() == m.side() + 1,
        s.used.len() == m.side() + 1,
        s.minv.len() == m.side() + 1,
        s.way.len() == m.side() + 1,
        r.u.len() == m.side() + 1,
        r.v.len() == m.side() + 1,
        r.minv.len() == m.side() + 1,
        r.way.len() == m.side() + 1,
        minv.len() == m.side() + 1,
        0 <= s.j0 <= m.side(),
        s.j0 <= usize::MAX,
        r.used == s.used.update(s.j0, true),
        forall|j: int|
            1 <= j <= m.side() && !r.used[j] ==> #[trigger] minv[j] == if through(m, p, s, j)
                < s.minv[j] {
                through(m, p, s, j)
            } else {
                s.minv[j] as int
            },
        forall|j: int|
            1 <= j <= m.side() && !r.used[j] ==> #[trigger] r.way[j] == if through(m, p, s, j)
                < s.minv[j] {
                s.j0 as usize
            } else {
                s.way[j]
            },
        forall|j: int|
            0 <= j <= m.side() && (j == 0 || r.used[j]) ==> #[trigger] minv[j] == s.minv[j],
        forall|j: int|
            0 <= j <= m.side() && (j == 0 || r.used[j]) ==> #[trigger] r.way[j] == s.way[j],
        1 <= r.j0 <= m.side(),
        !r.used[r.j0],
        delta == minv[r.j0],
        forall|j: int| 1 <= j <= m.side() && !r.used[j] ==> delta <= #[trigger] minv[j],
        forall|j: int| 1 <= j < r.j0 && !r.used[j] ==> delta < #[trigger] minv[j],
        forall|j: int|
            0 <= j <= m.side() && #[trigger] r.used[j] ==> r.u[p[j] as int] == s.u[p[j] as int]
                + delta,
        forall|i: int|
            0 <= i <= m.side() && !is_reached(r.used, p, m.side(), i) ==> #[trigger] r.u[i]
                == s.u[i],
        forall|j: int|
            1 <= j <= m.side() ==> #[trigger] r.v[j] == if r.used[j] {
                s.v[j] - delta
            } else {
                s.v[j] as int
            },
        forall|j: int|
            1 <= j <= m.side() ==> #[trigger] r.minv[j] == if r.used[j] {
                minv[j] as int
            } else {
                minv[j] - delta
            },
        r.v[0] == s.v[0],
        r.minv[0] == minv[0],
    ensures
        advance(m, p, s) == r,
{
    let n = m.side();
    let a = advance(m, p, s);
    let reached = Seq::new(
        (n + 1) as nat,
        |j: int|
            if j >= 1 && !r.used[j] && through(m, p, s, j) < s.minv[j] {
                through(m, p, s, j) as i128
            } else {
                s.minv[j]
            },
    );
    assert(reached =~= minv);
    lemma_first_cheapest(r.used, minv, n, r.j0);
    assert forall|i: int| 0 <= i <= n implies #[trigger] a.u[i] == r.u[i] by {
        if is_reached(r.used, p, n, i) {
            let j = choose|j: int| 0 <= j <= n && #[trigger] r.used[j] && p[j] == i;
            assert(r.u[p[j] as int] == s.u[p[j] as int] + delta);
        }
    }
    assert(a.u =~= r.u);
    assert(a.v =~= r.v);
    assert(a.minv =~= r.minv);
    assert(a.way =~= r.way);
}

/// Finds the cheapest way from row `i` to a free column, and moves the potentials so that every
/// edge along it is priced at its cost.
fn search(
    m: &EvMatrix,
    n: usize,
    Ghost(i): Ghost<int>,
    p: &Vec<usize>,
    u: &mut Vec<i128>,
    v: &mut Vec<i128>,
) -> (r: (usize, Vec<usize>, Ghost<(Seq<bool>, Seq<int>)>))
    requires
        m.wf(),
        n == m.side(),
        n < usize::MAX,
        matched(*m, old(u)@, old(v)@, p@, i - 1),
        unpriced(*m, old(u)@, i - 1),
        1 <= i <= n,
        p@[0] == i,
    ensures
        found(*m, i, p@, final(u)@, final(v)@, r.2@.0, r.1@, r.2@.1, r.0 as int),
        r.2@.1[r.0 as int] <= n,
        ({
            let end = searched(*m, p@, unsearched(*m, old(u)@, old(v)@), (n + 1) as nat);
            end.u == final(u)@ && end.v == final(v)@ && end.way == r.1@ && end.j0 == r.0
        }),
{
    let ghost start = unsearched(*m, u@, v@);
    proof {
        lemma_free_column(*m, u@, v@, p@, i - 1);
    }
    let ghost f: int = choose|f: int| 1 <= f <= m.side() && #[trigger] p@[f] == 0;
    let mut j0: usize = 0;
    let mut minv: Vec<i128> = vec![FAR; n + 1];
    let mut used: Vec<bool> = vec![false; n + 1];
    let mut way: Vec<usize> = vec![0; n + 1];
    let ghost mut time: Seq<int> = Seq::new((n + 1) as nat, |j: int| 0);
    let ghost mut t: int = 0;
    let ghost mut seen: Set<int> = Set::empty();
    proof {
        assert(u@[i] == 0);
        assert(searching(*m, i, p@, u@, v@, used@, minv@, way@, time, t, 0, f));
        assert(start =~= Search { u: u@, v: v@, used: used@, minv: minv@, way: way@, j0: 0 });
    }
    while p[j0] != 0
        invariant
            m.wf(),
            n == m.side(),
            n < usize::MAX,
            j0 <= n,
            p@.len() == n + 1,
            searching(*m, i, p@, u@, v@, used@, minv@, way@, time, t, j0 as int, f),
            seen.finite(),
            forall|j: int| #[trigger] seen.contains(j) <==> 0 <= j <= n && used@[j],
            seen.len() <= n,
            t == seen.len(),
            searched(*m, p@, start, (n + 1) as nat) == searched(
                *m,
                p@,
                Search { u: u@, v: v@, used: used@, minv: minv@, way: way@, j0: j0 as int },
                (n + 1 - t) as nat,
            ),
        decreases n - seen.len(),
    {
        let ghost (u1, v1, used1, minv1, way1) = (u@, v@, used@, minv@, way@);
        proof {
            lemma_potential_bounds(*m, u@, v@, p@, i - 1, f);
            if j0 != 0 {
                assert(row_priced(*m, u@, v@, i));
                lemma_cost_bound(*m, i, f);
                assert(u@[i] + v@[f] <= cost(*m, i, f));
            }
        }
        used.set(j0, true);
        let i0: usize = p[j0];
        assert(1 <= i0 <= i);
        relax(m, n, i0, j0, u[i0], v, &used, &mut minv, &mut way);
        let ghost minv2 = minv@;
        proof {
            lemma_cost_bound(*m, i0 as int, f);
            lemma_scanned(*m, i, p@, u1, v1, used1, minv1, way1, time, t, j0 as int, f, used@, minv2);
        }
        let (delta, j1) = nearest(n, &used, &minv, Ghost(f));
        shift(n, delta, &used, p, u, v, &mut minv);
        proof {
            let was = Search { u: u1, v: v1, used: used1, minv: minv1, way: way1, j0: j0 as int };
            let is = Search { u: u@, v: v@, used: used@, minv: minv@, way: way@, j0: j1 as int };
            lemma_advances(*m, p@, was, is, minv2, delta);
            lemma_search_step(
                *m, i, p@, u1, v1, used1, minv1, way1, time, t, j0 as int, f,
                used@, minv2, way@, delta, j1 as int, u@, v@, minv@,
            );
            let seen1 = seen;
            seen = seen.insert(j0 as int);
            time = time.update(j0 as int, t);
            t = t + 1;
            let all = vstd::set_lib::set_int_range(0, n + 1).remove(f);
            vstd::set_lib::lemma_int_range(0, n + 1);
            assert(seen.subset_of(all));
            vstd::set_lib::lemma_len_subset(seen, all);
        }
        j0 = j1;
    }
    let ghost reached = used@.update(j0 as int, true);
    let ghost when = time.update(j0 as int, t);
    proof {
        assert(j0 != 0);
        assert(tree(*m, u@, v@, p@, reached, way@, when)) by {
            assert forall|j: int| 1 <= j <= n && #[trigger] reached[j] implies {
                &&& way@[j] <= n
                &&& reached[way@[j] as int]
                &&& when[way@[j] as int] < when[j]
                &&& u@[p@[way@[j] as int] as int] + v@[j] == cost(*m, p@[way@[j] as int] as int, j)
            } by {
                if j != j0 {
                    assert(used@[j]);
                } else {
                    assert(minv@[j] == 0);
                }
                assert(way@[j] <= n && used@[way@[j] as int]);
            }
        }
    }
    (j0, way, Ghost((reached, when)))
}

/// What the scan of column `j0` leaves within bounds.
proof fn lemma_scanned(
    m: EvMatrix,
    i: int,
    p: Seq<usize>,
    u: Seq<i128>,
    v: Seq<i128>,
    used: Seq<bool>,
    minv: Seq<i128>,
    way: Seq<usize>,
    time: Seq<int>,
    t: int,
    j0: int,
    f: int,
    used2: Seq<bool>,
    minv1: Seq<i128>,
)
    requires
        searching(m, i, p, u, v, used, minv, way, time, t, j0, f),
        p[j0] != 0,
        used2 == used.update(j0, true),
        minv1.len() == m.side() + 1,
        forall|j: int|
            1 <= j <= m.side() && !used2[j] ==> {
                let cur = cost(m, p[j0] as int, j) - u[p[j0] as int] - v[j];
                #[trigger] minv1[j] == if cur < minv[j] {
                    cur
                } else {
                    minv[j] as int
                }
            },
    ensures
        forall|j: int|
            1 <= j <= m.side() && !used2[j] ==> -COST_BOUND <= #[trigger] minv1[j] <= 4 * COST_BOUND,
        forall|j: int| 0 <= j <= m.side() && #[trigger] used2[j] ==> 1 <= p[j] <= m.side(),
        forall|j1: int, j2: int|
            0 <= j1 < j2 <= m.side() && #[trigger] used2[j1] && #[trigger] used2[j2] ==> p[j1]
                != p[j2],
{
    let n = m.side();
    lemma_potential_bounds(m, u, v, p, i - 1, f);
    if j0 != 0 {
        assert(row_priced(m, u, v, i));
        lemma_cost_bound(m, i, f);
        assert(u[i] + v[f] <= cost(m, i, f));
    }
    assert forall|j: int| 1 <= j <= n && !used2[j] implies -COST_BOUND <= #[trigger] minv1[j] <= 4
        * COST_BOUND by {
        let i0 = p[j0] as int;
        lemma_cost_bound(m, i0, j);
        if j0 != 0 {
            let h = way[j] as int;
            lemma_cost_bound(m, p[h] as int, j);
            assert(used[h]);
            assert(row_priced(m, u, v, p[h] as int));
            assert(row_priced(m, u, v, i0));
            assert(u[p[h] as int] <= COST_BOUND);
            assert(v[j] >= -2 * COST_BOUND);
            assert(minv[j] == cost(m, p[h] as int, j) - u[p[h] as int] - v[j]);
        }
    }
    assert forall|j: int| 0 <= j <= n && #[trigger] used2[j] implies 1 <= p[j] <= n by {
        if j > 0 {
            assert(used[j] || j == j0);
            assert(p[j] != 0);
        }
    }
    assert forall|j1: int, j2: int|
        0 <= j1 < j2 <= n && #[trigger] used2[j1] && #[trigger] used2[j2] implies p[j1]
        != p[j2] by {
        assert(used[j2] || j2 == j0);
        assert(p[j2] != 0);
        if j1 > 0 {
            assert(used[j1] || j1 == j0);
            assert(p[j1] != 0);
        }
    }
}

/// What rematching keeps: column `j0` is about to change hands; all others hold rows along edges
/// priced at their cost, and `at` tells where each of the first `i` rows stands.
spec fn flipping(
    m: EvMatrix,
    i: int,
    p: Seq<usize>,
    u: Seq<i128>,
    v: Seq<i128>,
    at: Seq<int>,
    j0: int,
) -> bool {
    let n = m.side();
    &&& p.len() == n + 1
    &&& at.len() == i + 1
    &&& forall|j: int|
        0 <= j <= n && j != j0 && #[trigger] p[j] != 0 ==> {
            &&& p[j] <= i
            &&& at[p[j] as int] == j
            &&& j > 0 ==> u[p[j] as int] + v[j] == cost(m, p[j] as int, j)
        }
    &&& forall|j: int| 1 <= j <= n && j != j0 && #[trigger] p[j] == 0 ==> v[j] == 0
    &&& forall|r: int|
        1 <= r <= i ==> {
            &&& 0 <= #[trigger] at[r] <= n
            &&& at[r] != j0
            &&& p[at[r]] == r
        }
}

/// Moving the free end of a path back by one edge keeps the rest matched.
proof fn lemma_flip_step(
    m: EvMatrix,
    i: int,
    p: Seq<usize>,
    u: Seq<i128>,
    v: Seq<i128>,
    at: Seq<int>,
    j0: int,
    j1: int,
)
    requires
        flipping(m, i, p, u, v, at, j0),
        1 <= j0 <= m.side(),
        0 <= j1 <= m.side(),
        j1 != j0,
        p[j1] != 0,
        u[p[j1] as int] + v[j0] == cost(m, p[j1] as int, j0),
    ensures
        flipping(m, i, p.update(j0, p[j1]), u, v, at.update(p[j1] as int, j0), j1),
{
    let n = m.side();
    let p2 = p.update(j0, p[j1]);
    let at2 = at.update(p[j1] as int, j0);
    assert(at[p[j1] as int] == j1);
    assert forall|j: int| 0 <= j <= n && j != j1 && #[trigger] p2[j] != 0 implies {
        &&& p2[j] <= i
        &&& at2[p2[j] as int] == j
        &&& j > 0 ==> u[p2[j] as int] + v[j] == cost(m, p2[j] as int, j)
    } by {
        if j != j0 {
            assert(p[j] == p2[j]);
            assert(at[p[j] as int] == j);
        }
    }
    assert forall|j: int| 1 <= j <= n && j != j1 && #[trigger] p2[j] == 0 implies v[j] == 0 by {
        if j != j0 {
            assert(p[j] == p2[j]);
        }
    }
    assert forall|r: int| 1 <= r <= i implies {
        &&& 0 <= #[trigger] at2[r] <= n
        &&& at2[r] != j1
        &&& p2[at2[r]] == r
    } by {
        if r != p[j1] {
            assert(at2[r] == at[r]);
        }
    }
}

/// Rematches the columns along the path that ends in `sink`: each takes over the row of the column
/// before it, and row `i` takes the place that this leaves.
fn flip(
    m: &EvMatrix,
    Ghost(i): Ghost<int>,
    p: &mut Vec<usize>,
    Ghost(u): Ghost<Seq<i128>>,
    Ghost(v): Ghost<Seq<i128>>,
    Ghost(used): Ghost<Seq<bool>>,
    Ghost(time): Ghost<Seq<int>>,
    way: &Vec<usize>,
    sink: usize,
)
    requires
        found(*m, i, old(p)@, u, v, used, way@, time, sink as int),
        forall|r: int| 1 <= r < i ==> #[trigger] placed(old(p)@, m.side(), r),
        time[sink as int] <= m.side(),
    ensures
        final(p)@ == rematched(old(p)@, way@, sink as int, (m.side() + 1) as nat),
        matched(*m, u, v, final(p)@, i),
        forall|r: int| 1 <= r <= i ==> #[trigger] placed(final(p)@, m.side(), r),
{
    let ghost n = m.side();
    let ghost p0 = p@;
    let mut j0: usize = sink;
    let ghost mut at: Seq<int> = Seq::new(
        (i + 1) as nat,
        |r: int|
            if r == i {
                0
            } else {
                choose|j: int| 1 <= j <= n && #[trigger] p0[j] == r
            },
    );
    proof {
        assert forall|r: int| 1 <= r <= i implies {
            &&& 0 <= #[trigger] at[r] <= n
            &&& at[r] != j0
            &&& p@[at[r]] == r
        } by {
            if r < i {
                assert(placed(p0, n, r));
            }
        }
        assert(flipping(*m, i, p@, u, v, at, j0 as int));
    }
    let ghost mut fuel: nat = (n + 1) as nat;
    while j0 != 0
        invariant
            n == m.side(),
            time[j0 as int] < fuel,
            rematched(p0, way@, sink as int, (n + 1) as nat) == rematched(
                p@,
                way@,
                j0 as int,
                fuel,
            ),
            found(*m, i, p0, u, v, used, way@, time, sink as int),
            j0 <= n,
            p@.len() == n + 1,
            used[j0 as int],
            time[j0 as int] <= time[sink as int],
            forall|j: int|
                0 <= j <= n && #[trigger] used[j] && time[j] < time[j0 as int] ==> p@[j] == p0[j],
            flipping(*m, i, p@, u, v, at, j0 as int),
        decreases time[j0 as int],
    {
        let j1: usize = way[j0];
        proof {
            assert(used[j1 as int]);
            assert(p@[j1 as int] == p0[j1 as int]);
            lemma_flip_step(*m, i, p@, u, v, at, j0 as int, j1 as int);
        }
        let row: usize = p[j1];
        p.set(j0, row);
        proof {
            at = at.update(row as int, j0 as int);
            fuel = (fuel - 1) as nat;
        }
        j0 = j1;
    }
    proof {
        assert forall|r: int| 1 <= r <= i implies #[trigger] placed(p@, n, r) by {
            assert(at[r] != 0);
            assert(p@[at[r]] == r);
        }
        assert forall|r: int| 1 <= r <= i implies #[trigger] row_priced(*m, u, v, r) by {}
        assert(matched(*m, u, v, p@, i));
    }
}

// ---------------------------------------------------------------------------------------------
// Matchings of the padded square.
// ---------------------------------------------------------------------------------------------

/// `s` matches each of the `n` rows to a column of its own.
pub open spec fn is_matching(n: int, s: Seq<int>) -> bool {
    &&& s.len() == n
    &&& forall|r: int| 0 <= r < n ==> 0 <= #[trigger] s[r] < n
    &&& forall|r1: int, r2: int|
        0 <= r1 < r2 < n ==> #[trigger] s[r1] != #[trigger] s[r2]
}

/// What the first `k` rows gain under the matching `s`; an infeasible cell counts its sentinel.
pub open spec fn matching_ev(m: EvMatrix, s: Seq<int>, k: int) -> int
    decreases k,
{
    if k <= 0 {
        0
    } else {
        matching_ev(m, s, k - 1) + m.cell(k - 1, s[k - 1])
    }
}

/// No matching of the padded square gains more than `s`.
pub open spec fn is_optimal(m: EvMatrix, s: Seq<int>) -> bool {
    &&& is_matching(m.side(), s)
    &&& forall|t: Seq<int>|
        is_matching(m.side(), t) ==> #[trigger] matching_ev(m, t, m.side()) <= matching_ev(
            m,
            s,
            m.side(),
        )
}

/// The column that row `r` is told to take when it is matched to column `c` of the padded square:
/// none where `c` is padding or the cell is infeasible.
pub open spec fn admissible(m: EvMatrix, r: int, c: int) -> Option<usize> {
    if 0 <= c < m.columns@.len() && m.cell(r, c) != INFEASIBLE_EV {
        Some(c as usize)
    } else {
        None
    }
}

/// What the first `k` rows gain; a row without a column gains nothing.
pub open spec fn assigned_ev(m: EvMatrix, row_to_col: Seq<Option<usize>>, k: int) -> int
    decreases k,
{
    if k <= 0 {
        0
    } else {
        assigned_ev(m, row_to_col, k - 1) + match row_to_col[k - 1] {
            Some(c) => m.cell(k - 1, c as int),
            None => 0,
        }
    }
}

/// `row_to_col` tells each row the column that some optimal matching gives it.
pub open spec fn solves(m: EvMatrix, row_to_col: Seq<Option<usize>>) -> bool {
    &&& row_to_col.len() == m.rows
    &&& exists|s: Seq<int>|
        {
            &&& #[trigger] is_optimal(m, s)
            &&& forall|r: int|
                0 <= r < m.rows ==> #[trigger] row_to_col[r] == admissible(m, r, s[r])
        }
}

/// `row_to_col` gives feasible cells only, and no column twice.
pub open spec fn is_exclusive(m: EvMatrix, row_to_col: Seq<Option<usize>>) -> bool {
    &&& row_to_col.len() == m.rows
    &&& forall|r: int|
        0 <= r < m.rows && (#[trigger] row_to_col[r]) is Some ==> {
            &&& row_to_col[r]->0 < m.columns@.len()
            &&& m.cell(r, row_to_col[r]->0 as int) != INFEASIBLE_EV
        }
    &&& forall|r1: int, r2: int|
        0 <= r1 < r2 < m.rows && (#[trigger] row_to_col[r1]) is Some && (
        #[trigger] row_to_col[r2]) is Some ==> row_to_col[r1]->0 != row_to_col[r2]->0
}

/// Column `c` is a way out that only row `r` has, and that costs it nothing.
pub open spec fn is_escape(m: EvMatrix, r: int, c: int) -> bool {
    &&& 0 <= c < m.columns@.len()
    &&& m.cell(r, c) >= 0
    &&& forall|other: int|
        0 <= other < m.rows && other != r ==> #[trigger] m.cell(other, c) == INFEASIBLE_EV
}

/// A matching leaves no column out.
proof fn lemma_matching_onto(n: int, s: Seq<int>, c: int)
    requires
        is_matching(n, s),
        0 <= c < n,
    ensures
        exists|r: int| 0 <= r < n && #[trigger] s[r] == c,
{
    if forall|r: int| 0 <= r < n ==> #[trigger] s[r] != c {
        assert(s.no_duplicates());
        s.unique_seq_to_set();
        let others = vstd::set_lib::set_int_range(0, n).remove(c);
        vstd::set_lib::lemma_int_range(0, n);
        assert(s.to_set().subset_of(others));
        vstd::set_lib::lemma_len_subset(s.to_set(), others);
    }
}

/// The sum of `w` at the places that `s` lists.
spec fn sum_at(w: Seq<int>, s: Seq<int>) -> int
    decreases s.len(),
{
    if s.len() == 0 {
        0
    } else {
        sum_at(w, s.drop_last()) + w[s.last()]
    }
}

/// The sum of the numbers.
spec fn sum(w: Seq<int>) -> int
    decreases w.len(),
{
    if w.len() == 0 {
        0
    } else {
        sum(w.drop_last()) + w.last()
    }
}

/// A place that is left out takes its number from the sum.
proof fn lemma_sum_at_remove(w: Seq<int>, s: Seq<int>, r: int)
    requires
        0 <= r < s.len(),
    ensures
        sum_at(w, s) == sum_at(w, s.remove(r)) + w[s[r]],
    decreases s.len(),
{
    if r == s.len() - 1 {
        assert(s.remove(r) =~= s.drop_last());
    } else {
        lemma_sum_at_remove(w, s.drop_last(), r);
        assert(s.remove(r).drop_last() =~= s.drop_last().remove(r));
    }
}

/// The last number does not count where no place is its own.
proof fn lemma_sum_at_prefix(w: Seq<int>, s: Seq<int>)
    requires
        w.len() > 0,
        forall|r: int| 0 <= r < s.len() ==> 0 <= #[trigger] s[r] < w.len() - 1,
    ensures
        sum_at(w, s) == sum_at(w.drop_last(), s),
    decreases s.len(),
{
    if s.len() > 0 {
        lemma_sum_at_prefix(w, s.drop_last());
        assert(0 <= s[s.len() - 1] < w.len() - 1);
    }
}

/// Summed in the order of any matching, the total is the same.
proof fn lemma_sum_at_matching(w: Seq<int>, s: Seq<int>)
    requires
        is_matching(w.len() as int, s),
    ensures
        sum_at(w, s) == sum(w),
    decreases w.len(),
{
    let n = w.len() as int;
    if n > 0 {
        lemma_matching_onto(n, s, n - 1);
        let r = choose|r: int| 0 <= r < n && #[trigger] s[r] == n - 1;
        let rest = s.remove(r);
        lemma_sum_at_remove(w, s, r);
        assert forall|a: int| 0 <= a < n - 1 implies 0 <= #[trigger] rest[a] < n - 1 by {
            let b = if a < r { a } else { a + 1 };
            assert(rest[a] == s[b]);
            assert(s[b] != s[r]);
        }
        assert(is_matching(n - 1, rest));
        lemma_sum_at_prefix(w, rest);
        lemma_sum_at_matching(w.drop_last(), rest);
    }
}

/// The potentials bound what any matching gains, and what a matching along tight edges gains.
proof fn lemma_dual_bound(m: EvMatrix, u: Seq<i128>, v: Seq<i128>, s: Seq<int>, k: int)
    requires
        u.len() == m.side() + 1,
        v.len() == m.side() + 1,
        forall|i: int| 1 <= i <= m.side() ==> #[trigger] row_priced(m, u, v, i),
        is_matching(m.side(), s),
        0 <= k <= m.side(),
    ensures
        matching_ev(m, s, k) <= -sum(prices(u).take(k)) - sum_at(prices(v), s.take(k)),
        (forall|r: int|
            0 <= r < k ==> u[r + 1] + v[s[r] + 1] == #[trigger] cost(m, r + 1, s[r] + 1)) ==> matching_ev(
            m,
            s,
            k,
        ) == -sum(prices(u).take(k)) - sum_at(prices(v), s.take(k)),
    decreases k,
{
    if k > 0 {
        lemma_dual_bound(m, u, v, s, k - 1);
        reveal(cost);
        assert(row_priced(m, u, v, k));
        let c = s[k - 1];
        assert(0 <= c < m.side());
        assert(u[k] + v[c + 1] <= cost(m, k, c + 1));
        assert(prices(u).take(k).drop_last() =~= prices(u).take(k - 1));
        assert(s.take(k).drop_last() =~= s.take(k - 1));
        assert(prices(u)[k - 1] == u[k]);
        assert(prices(v)[c] == v[c + 1]);
        if forall|r: int|
            0 <= r < k ==> u[r + 1] + v[s[r] + 1] == #[trigger] cost(m, r + 1, s[r] + 1) {
            assert(u[(k - 1) + 1] + v[s[k - 1] + 1] == cost(m, (k - 1) + 1, s[k - 1] + 1));
        }
    } else {
        assert(prices(u).take(0).len() == 0);
        assert(s.take(0).len() == 0);
    }
}

/// The potentials of the rows, or of the columns, numbered from zero.
spec fn prices(u: Seq<i128>) -> Seq<int> {
    Seq::new((u.len() - 1) as nat, |r: int| u[r + 1] as int)
}

/// The matching that `p` holds once every row is placed.
pub open spec fn matching_of(p: Seq<usize>, n: int) -> Seq<int> {
    Seq::new(n as nat, |r: int| (choose|j: int| 1 <= j <= n && #[trigger] p[j] == r + 1) - 1)
}

/// A matching along edges whose price is their cost is optimal.
proof fn lemma_matching_optimal(m: EvMatrix, u: Seq<i128>, v: Seq<i128>, p: Seq<usize>)
    requires
        matched(m, u, v, p, m.side()),
        forall|r: int| 1 <= r <= m.side() ==> #[trigger] placed(p, m.side(), r),
    ensures
        is_optimal(m, matching_of(p, m.side())),
        forall|r: int| 0 <= r < m.side() ==> p[#[trigger] matching_of(p, m.side())[r] + 1] == r + 1,
        forall|j: int| 1 <= j <= m.side() ==> 1 <= #[trigger] p[j] <= m.side(),
{
    let n = m.side();
    let s = matching_of(p, n);
    assert forall|r: int| 0 <= r < n implies 0 <= #[trigger] s[r] < n && p[s[r] + 1] == r + 1 by {
        assert(placed(p, n, r + 1));
    }
    assert(is_matching(n, s)) by {
        assert forall|r1: int, r2: int| 0 <= r1 < r2 < n implies #[trigger] s[r1]
            != #[trigger] s[r2] by {
            assert(p[s[r1] + 1] == r1 + 1);
            assert(p[s[r2] + 1] == r2 + 1);
        }
    }
    assert forall|r: int| 0 <= r < n implies u[r + 1] + v[s[r] + 1] == #[trigger] cost(
        m,
        r + 1,
        s[r] + 1,
    ) by {
        assert(p[s[r] + 1] == r + 1);
    }
    lemma_dual_bound(m, u, v, s, n);
    assert(s.take(n) =~= s);
    assert(prices(u).take(n) =~= prices(u));
    lemma_sum_at_matching(prices(v), s);
    assert forall|t: Seq<int>| is_matching(n, t) implies #[trigger] matching_ev(m, t, n)
        <= matching_ev(m, s, n) by {
        lemma_dual_bound(m, u, v, t, n);
        assert(t.take(n) =~= t);
        lemma_sum_at_matching(prices(v), t);
    }
    assert forall|j: int| 1 <= j <= n implies 1 <= #[trigger] p[j] <= n by {
        lemma_matching_onto(n, s, j - 1);
        let r = choose|r: int| 0 <= r < n && #[trigger] s[r] == j - 1;
        assert(p[s[r] + 1] == r + 1);
    }
}

/// The solution that is found: of several that gain the most, the rows, placed in order, each take the
/// cheapest way to a free column, and of the cheapest the first.
pub open spec fn assignment_of(m: EvMatrix) -> Seq<Option<usize>> {
    Seq::new(
        m.rows as nat,
        |r: int|
            admissible(m, r, matching_of(placing(m, m.side() as nat).2, m.side())[r]),
    )
}

/// Gives each row a column, no column to two rows, so that all rows together gain the most. A row that
/// this leaves without a column, or with one that it cannot take, gets none. The same matrix always
/// gets the same assignment: ties go by the smallest number, of rows and of columns.
pub fn solve_assignment(matrix: &EvMatrix) -> (a: Assignment)
    requires
        matrix.wf(),
    ensures
        solves(*matrix, a.row_to_col@),
        a.row_to_col@ == assignment_of(*matrix),
        a.total_ev == crate::fixed::nearest_i64(assigned_ev(*matrix, a.row_to_col@, matrix.rows as int)),
{
    let rows = matrix.rows;
    let cols = matrix.cols();
    let n: usize = if rows >= cols { rows } else { cols };
    let mut u: Vec<i128> = vec![0; n + 1];
    let mut v: Vec<i128> = vec![0; n + 1];
    let mut p: Vec<usize> = vec![0; n + 1];
    let mut i: usize = 1;
    while i <= n
        invariant
            matrix.wf(),
            n == matrix.side(),
            n < usize::MAX,
            1 <= i <= n + 1,
            p@.len() == n + 1,
            matched(*matrix, u@, v@, p@, i - 1),
            unpriced(*matrix, u@, i - 1),
            forall|r: int| 1 <= r < i ==> #[trigger] placed(p@, n as int, r),
            placing(*matrix, (i - 1) as nat) == (u@, v@, p@),
        decreases n + 1 - i,
    {
        let ghost p1 = p@;
        p.set(0, i);
        assert forall|r: int| 1 <= r < i implies #[trigger] placed(p@, n as int, r) by {
            assert(placed(p1, n as int, r));
            let j = choose|j: int| 1 <= j <= n && #[trigger] p1[j] == r;
            assert(p@[j] == r);
        }
        assert(matched(*matrix, u@, v@, p@, i - 1));
        let (sink, way, tree) = search(matrix, n, Ghost(i as int), &p, &mut u, &mut v);
        flip(
            matrix,
            Ghost(i as int),
            &mut p,
            Ghost(u@),
            Ghost(v@),
            Ghost(tree@.0),
            Ghost(tree@.1),
            &way,
            sink,
        );
        i = i + 1;
    }
    let ghost s = matching_of(p@, n as int);
    proof {
        lemma_matching_optimal(*matrix, u@, v@, p@);
    }
    let row_to_col = read_off(matrix, n, &p, Ghost(s));
    assert(row_to_col@ =~= assignment_of(*matrix));
    let total_ev = gain(matrix, &row_to_col);
    Assignment { row_to_col, total_ev }
}

/// Inverts the matching, dropping padding and infeasible cells.
fn read_off(matrix: &EvMatrix, n: usize, p: &Vec<usize>, Ghost(s): Ghost<Seq<int>>) -> (row_to_col:
    Vec<Option<usize>>)
    requires
        matrix.wf(),
        n == matrix.side(),
        n < usize::MAX,
        p@.len() == n + 1,
        is_matching(n as int, s),
        forall|r: int| 0 <= r < n ==> p@[#[trigger] s[r] + 1] == r + 1,
        forall|j: int| 1 <= j <= n ==> 1 <= #[trigger] p@[j] <= n,
    ensures
        row_to_col@.len() == matrix.rows,
        forall|r: int|
            0 <= r < matrix.rows ==> #[trigger] row_to_col@[r] == admissible(*matrix, r, s[r]),
{
    let rows = matrix.rows;
    let mut row_to_col: Vec<Option<usize>> = vec![None; rows];
    let mut j: usize = 1;
    while j <= n
        invariant
            matrix.wf(),
            n == matrix.side(),
            n < usize::MAX,
            rows == matrix.rows,
            1 <= j <= n + 1,
            p@.len() == n + 1,
            is_matching(n as int, s),
            forall|r: int| 0 <= r < n ==> p@[#[trigger] s[r] + 1] == r + 1,
            forall|j: int| 1 <= j <= n ==> 1 <= #[trigger] p@[j] <= n,
            row_to_col@.len() == rows,
            forall|r: int|
                0 <= r < rows ==> #[trigger] row_to_col@[r] == if s[r] + 1 < j {
                    admissible(*matrix, r, s[r])
                } else {
                    None
                },
        decreases n + 1 - j,
    {
        proof {
            lemma_matching_onto(n as int, s, j - 1);
            let r = choose|r: int| 0 <= r < n && #[trigger] s[r] == j - 1;
            assert(p@[s[r] + 1] == r + 1);
        }
        let r: usize = p[j] - 1;
        assert(s[r as int] == j - 1);
        if r < rows && j - 1 < matrix.cols() && matrix.at(r, j - 1) != INFEASIBLE_EV {
            row_to_col.set(r, Some(j - 1));
        }
        assert forall|h: int| 0 <= h < rows && h != r implies #[trigger] s[h] + 1 != j by {
            assert(p@[s[h] + 1] == h + 1);
        }
        j = j + 1;
    }
    row_to_col
}

/// The EV of the chosen cells.
fn gain(matrix: &EvMatrix, row_to_col: &Vec<Option<usize>>) -> (total: i64)
    requires
        matrix.wf(),
        row_to_col@.len() == matrix.rows,
        forall|r: int|
            0 <= r < matrix.rows && (#[trigger] row_to_col@[r]) is Some ==> row_to_col@[r]->0
                < matrix.columns@.len(),
    ensures
        total == crate::fixed::nearest_i64(assigned_ev(*matrix, row_to_col@, matrix.rows as int)),
{
    let mut total: i128 = 0;
    let mut r: usize = 0;
    while r < matrix.rows
        invariant
            matrix.wf(),
            r <= matrix.rows,
            row_to_col@.len() == matrix.rows,
            forall|r: int|
                0 <= r < matrix.rows && (#[trigger] row_to_col@[r]) is Some ==> row_to_col@[r]->0
                    < matrix.columns@.len(),
            total == assigned_ev(*matrix, row_to_col@, r as int),
            -0x8000_0000_0000_0000 * r <= total <= 0x8000_0000_0000_0000 * r,
        decreases matrix.rows - r,
    {
        if let Some(c) = row_to_col[r] {
            total = total + matrix.at(r, c) as i128;
        }
        r = r + 1;
    }
    to_i64(total)
}

// ---------------------------------------------------------------------------------------------
// Laws.
// ---------------------------------------------------------------------------------------------

/// Rows that stand in columns of their own leave room for all other rows.
proof fn lemma_extend(n: int, t: Seq<int>) -> (s: Seq<int>)
    requires
        t.len() <= n,
        forall|r: int| 0 <= r < t.len() ==> 0 <= #[trigger] t[r] < n,
        t.no_duplicates(),
    ensures
        is_matching(n, s),
        forall|r: int| 0 <= r < t.len() ==> #[trigger] s[r] == t[r],
    decreases n - t.len(),
{
    if t.len() == n {
        t
    } else {
        let all = vstd::set_lib::set_int_range(0, n);
        vstd::set_lib::lemma_int_range(0, n);
        t.unique_seq_to_set();
        if forall|c: int| all.contains(c) ==> #[trigger] t.to_set().contains(c) {
            assert(all.subset_of(t.to_set()));
            vstd::seq_lib::seq_to_set_is_finite(t);
            vstd::set_lib::lemma_len_subset(all, t.to_set());
        }
        let c = choose|c: int| all.contains(c) && !#[trigger] t.to_set().contains(c);
        let more = t.push(c);
        assert(more.no_duplicates()) by {
            assert forall|r: int| 0 <= r < t.len() implies #[trigger] t[r] != c by {
                assert(t.to_set().contains(t[r]));
            }
        }
        let s = lemma_extend(n, more);
        assert forall|r: int| 0 <= r < t.len() implies #[trigger] s[r] == t[r] by {
            assert(s[r] == more[r]);
        }
        s
    }
}

/// Past the real rows a matching gains nothing more.
proof fn lemma_padding_rows(m: EvMatrix, s: Seq<int>, k: int)
    requires
        m.rows <= k,
    ensures
        matching_ev(m, s, k) == matching_ev(m, s, m.rows as int),
    decreases k,
{
    if k > m.rows {
        lemma_padding_rows(m, s, k - 1);
    }
}

/// Reading a matching off gains at least what the matching does.
proof fn lemma_read_off_gains(m: EvMatrix, s: Seq<int>, row_to_col: Seq<Option<usize>>, k: int)
    requires
        m.columns@.len() <= usize::MAX,
        is_matching(m.side(), s),
        0 <= k <= m.rows,
        forall|r: int| 0 <= r < m.rows ==> #[trigger] row_to_col[r] == admissible(m, r, s[r]),
    ensures
        matching_ev(m, s, k) <= assigned_ev(m, row_to_col, k),
    decreases k,
{
    if k > 0 {
        lemma_read_off_gains(m, s, row_to_col, k - 1);
        assert(row_to_col[k - 1] == admissible(m, k - 1, s[k - 1]));
        assert(0 <= s[k - 1]);
    }
}

/// No column is given twice, and every cell that is given is feasible.
pub proof fn law_solution_is_exclusive(m: EvMatrix, row_to_col: Seq<Option<usize>>)
    requires
        m.wf(),
        solves(m, row_to_col),
    ensures
        is_exclusive(m, row_to_col),
{
    let s = choose|s: Seq<int>|
        {
            &&& #[trigger] is_optimal(m, s)
            &&& forall|r: int|
                0 <= r < m.rows ==> #[trigger] row_to_col[r] == admissible(m, r, s[r])
        };
    assert forall|r1: int, r2: int|
        0 <= r1 < r2 < m.rows && (#[trigger] row_to_col[r1]) is Some && (
        #[trigger] row_to_col[r2]) is Some implies row_to_col[r1]->0 != row_to_col[r2]->0 by {
        assert(s[r1] != s[r2]);
    }
}

/// Where every row can be placed at once, the solution gains at least what any such placement
/// gains.
pub proof fn law_no_complete_placement_gains_more(
    m: EvMatrix,
    row_to_col: Seq<Option<usize>>,
    other: Seq<Option<usize>>,
)
    requires
        m.wf(),
        solves(m, row_to_col),
        is_exclusive(m, other),
        forall|r: int| 0 <= r < m.rows ==> (#[trigger] other[r]) is Some,
    ensures
        assigned_ev(m, other, m.rows as int) <= assigned_ev(m, row_to_col, m.rows as int),
{
    let s = choose|s: Seq<int>|
        {
            &&& #[trigger] is_optimal(m, s)
            &&& forall|r: int|
                0 <= r < m.rows ==> #[trigger] row_to_col[r] == admissible(m, r, s[r])
        };
    let t = Seq::new(m.rows as nat, |r: int| other[r]->0 as int);
    assert(t.no_duplicates()) by {
        assert forall|a: int, b: int| 0 <= a < t.len() && 0 <= b < t.len() && a != b implies t[a]
            != t[b] by {
            assert(other[a] is Some && other[b] is Some);
        }
    }
    assert forall|r: int| 0 <= r < t.len() implies 0 <= #[trigger] t[r] < m.side() by {
        assert(other[r] is Some);
    }
    let full = lemma_extend(m.side(), t);
    lemma_matches_gain_equal(m, full, other, m.rows as int);
    lemma_padding_rows(m, full, m.side());
    lemma_padding_rows(m, s, m.side());
    lemma_read_off_gains(m, s, row_to_col, m.rows as int);
    assert(matching_ev(m, full, m.side()) <= matching_ev(m, s, m.side()));
}

/// A matching gains what the placement that it extends gains.
proof fn lemma_matches_gain_equal(m: EvMatrix, s: Seq<int>, other: Seq<Option<usize>>, k: int)
    requires
        0 <= k <= m.rows,
        forall|r: int| 0 <= r < m.rows ==> (#[trigger] other[r]) is Some,
        forall|r: int| 0 <= r < m.rows ==> #[trigger] s[r] == other[r]->0,
    ensures
        matching_ev(m, s, k) == assigned_ev(m, other, k),
    decreases k,
{
    if k > 0 {
        lemma_matches_gain_equal(m, s, other, k - 1);
        assert(other[k - 1] is Some);
        assert(s[k - 1] == other[k - 1]->0);
    }
}

/// Where each row has an escape, leaving a row out is as good as taking it: the solution gains at
/// least what any exclusive placement of some of the rows gains, and so never makes a loss.
pub proof fn law_escapes_make_placement_optional(
    m: EvMatrix,
    row_to_col: Seq<Option<usize>>,
    escape: Seq<int>,
    other: Seq<Option<usize>>,
)
    requires
        m.wf(),
        solves(m, row_to_col),
        escape.len() == m.rows,
        forall|r: int| 0 <= r < m.rows ==> is_escape(m, r, #[trigger] escape[r]),
        is_exclusive(m, other),
    ensures
        assigned_ev(m, other, m.rows as int) <= assigned_ev(m, row_to_col, m.rows as int),
        0 <= assigned_ev(m, row_to_col, m.rows as int),
{
    let filled = fill(m, escape, other);
    assert(is_exclusive(m, filled) && forall|r: int|
        0 <= r < m.rows ==> (#[trigger] filled[r]) is Some) by {
        lemma_fill_exclusive(m, escape, other);
    }
    lemma_fill_gains(m, escape, other, m.rows as int);
    law_no_complete_placement_gains_more(m, row_to_col, filled);
    let nobody = Seq::new(m.rows as nat, |r: int| None::<usize>);
    let away = fill(m, escape, nobody);
    lemma_fill_exclusive(m, escape, nobody);
    lemma_fill_gains(m, escape, nobody, m.rows as int);
    lemma_nobody_gains_nothing(m, nobody, m.rows as int);
    law_no_complete_placement_gains_more(m, row_to_col, away);
}

/// `other`, with every row that it leaves out sent to its escape.
spec fn fill(m: EvMatrix, escape: Seq<int>, other: Seq<Option<usize>>) -> Seq<Option<usize>> {
    Seq::new(
        m.rows as nat,
        |r: int|
            if other[r] is Some {
                other[r]
            } else {
                Some(escape[r] as usize)
            },
    )
}

/// Sending the rows left out to their escapes keeps a placement exclusive.
proof fn lemma_fill_exclusive(m: EvMatrix, escape: Seq<int>, other: Seq<Option<usize>>)
    requires
        m.wf(),
        escape.len() == m.rows,
        forall|r: int| 0 <= r < m.rows ==> is_escape(m, r, #[trigger] escape[r]),
        is_exclusive(m, other),
    ensures
        is_exclusive(m, fill(m, escape, other)),
        forall|r: int| 0 <= r < m.rows ==> (#[trigger] fill(m, escape, other)[r]) is Some,
{
    let filled = fill(m, escape, other);
    assert forall|r: int| 0 <= r < m.rows implies {
        &&& (#[trigger] filled[r]) is Some
        &&& filled[r]->0 < m.columns@.len()
        &&& m.cell(r, filled[r]->0 as int) != INFEASIBLE_EV
        &&& filled[r] == other[r] || filled[r]->0 == escape[r]
    } by {
        assert(is_escape(m, r, escape[r]));
        assert(other[r] is Some || other[r] is None);
    }
    assert forall|r1: int, r2: int|
        0 <= r1 < r2 < m.rows && (#[trigger] filled[r1]) is Some && (
        #[trigger] filled[r2]) is Some implies filled[r1]->0 != filled[r2]->0 by {
        assert(is_escape(m, r1, escape[r1]));
        assert(is_escape(m, r2, escape[r2]));
        if other[r1] is Some && other[r2] is Some {
        } else if other[r1] is None {
            assert(m.cell(r2, escape[r1]) == INFEASIBLE_EV);
        } else {
            assert(m.cell(r1, escape[r2]) == INFEASIBLE_EV);
        }
    }
}

/// Sending the rows left out to their escapes loses nothing.
proof fn lemma_fill_gains(m: EvMatrix, escape: Seq<int>, other: Seq<Option<usize>>, k: int)
    requires
        m.wf(),
        escape.len() == m.rows,
        forall|r: int| 0 <= r < m.rows ==> is_escape(m, r, #[trigger] escape[r]),
        0 <= k <= m.rows,
    ensures
        assigned_ev(m, other, k) <= assigned_ev(m, fill(m, escape, other), k),
    decreases k,
{
    if k > 0 {
        lemma_fill_gains(m, escape, other, k - 1);
        assert(is_escape(m, k - 1, escape[k - 1]));
    }
}

/// Placing nobody gains nothing.
proof fn lemma_nobody_gains_nothing(m: EvMatrix, nobody: Seq<Option<usize>>, k: int)
    requires
        0 <= k <= nobody.len(),
        forall|r: int| 0 <= r < nobody.len() ==> (#[trigger] nobody[r]) is None,
    ensures
        assigned_ev(m, nobody, k) == 0,
    decreases k,
{
    if k > 0 {
        lemma_nobody_gains_nothing(m, nobody, k - 1);
        assert(nobody[k - 1] is None);
    }
}

/// Where each row has an escape, and the gains are too small to pay for an infeasible cell, every
/// row is placed.
pub proof fn law_escapes_place_every_row(
    m: EvMatrix,
    row_to_col: Seq<Option<usize>>,
    escape: Seq<int>,
    bound: int,
)
    requires
        m.wf(),
        solves(m, row_to_col),
        escape.len() == m.rows,
        forall|r: int| 0 <= r < m.rows ==> is_escape(m, r, #[trigger] escape[r]),
        forall|r: int, c: int|
            0 <= r < m.rows && 0 <= c < m.columns@.len() ==> #[trigger] m.cell(r, c) <= bound,
        m.rows * bound < -INFEASIBLE_EV,
    ensures
        forall|r: int| 0 <= r < m.rows ==> (#[trigger] row_to_col[r]) is Some,
{
    let rows = m.rows as int;
    let s = choose|s: Seq<int>|
        {
            &&& #[trigger] is_optimal(m, s)
            &&& forall|r: int|
                0 <= r < m.rows ==> #[trigger] row_to_col[r] == admissible(m, r, s[r])
        };
    let nobody = Seq::new(m.rows as nat, |r: int| None::<usize>);
    let away = fill(m, escape, nobody);
    lemma_fill_exclusive(m, escape, nobody);
    lemma_fill_gains(m, escape, nobody, rows);
    lemma_nobody_gains_nothing(m, nobody, rows);
    let t = Seq::new(m.rows as nat, |r: int| away[r]->0 as int);
    assert(t.no_duplicates()) by {
        assert forall|a: int, b: int| 0 <= a < t.len() && 0 <= b < t.len() && a != b implies t[a]
            != t[b] by {
            assert(away[a] is Some && away[b] is Some);
        }
    }
    assert forall|r: int| 0 <= r < t.len() implies 0 <= #[trigger] t[r] < m.side() by {
        assert(away[r] is Some);
    }
    let full = lemma_extend(m.side(), t);
    lemma_matches_gain_equal(m, full, away, rows);
    lemma_padding_rows(m, full, m.side());
    lemma_padding_rows(m, s, m.side());
    assert(matching_ev(m, full, m.side()) <= matching_ev(m, s, m.side()));
    assert forall|r: int| 0 <= r < m.rows implies (#[trigger] row_to_col[r]) is Some by {
        assert(0 <= s[r]);
        if s[r] >= m.columns@.len() {
            assert(m.rows <= m.columns@.len()) by {
                lemma_rows_fit(m, escape);
            }
        } else if m.cell(r, s[r]) == INFEASIBLE_EV {
            assert(bound >= 0) by {
                assert(is_escape(m, r, escape[r]));
                assert(m.cell(r, escape[r]) <= bound);
            }
            lemma_one_bad_cell(m, s, bound, r, rows);
        }
    }
}

/// Escapes are distinct, so there are at least as many columns as rows.
proof fn lemma_rows_fit(m: EvMatrix, escape: Seq<int>)
    requires
        escape.len() == m.rows,
        forall|r: int| 0 <= r < m.rows ==> is_escape(m, r, #[trigger] escape[r]),
    ensures
        m.rows <= m.columns@.len(),
{
    assert(escape.no_duplicates()) by {
        assert forall|a: int, b: int|
            0 <= a < escape.len() && 0 <= b < escape.len() && a != b implies escape[a]
            != escape[b] by {
            assert(is_escape(m, a, escape[a]));
            assert(is_escape(m, b, escape[b]));
            if escape[a] == escape[b] {
                assert(m.cell(b, escape[a]) == INFEASIBLE_EV);
            }
        }
    }
    escape.unique_seq_to_set();
    let all = vstd::set_lib::set_int_range(0, m.columns@.len() as int);
    vstd::set_lib::lemma_int_range(0, m.columns@.len() as int);
    assert forall|c: int| #[trigger] escape.to_set().contains(c) implies all.contains(c) by {
        let r = choose|r: int| 0 <= r < escape.len() && escape[r] == c;
        assert(is_escape(m, r, escape[r]));
    }
    assert(escape.to_set().subset_of(all));
    vstd::set_lib::lemma_len_subset(escape.to_set(), all);
}

/// A matching with an infeasible cell among the first `k` rows falls short by its sentinel.
proof fn lemma_one_bad_cell(m: EvMatrix, s: Seq<int>, bound: int, r: int, k: int)
    requires
        is_matching(m.side(), s),
        0 <= k <= m.rows,
        bound >= 0,
        forall|r: int, c: int|
            0 <= r < m.rows && 0 <= c < m.columns@.len() ==> #[trigger] m.cell(r, c) <= bound,
    ensures
        matching_ev(m, s, k) <= k * bound,
        0 <= r < k && s[r] < m.columns@.len() && m.cell(r, s[r]) == INFEASIBLE_EV ==> matching_ev(
            m,
            s,
            k,
        ) <= k * bound + INFEASIBLE_EV,
    decreases k,
{
    if k > 0 {
        lemma_one_bad_cell(m, s, bound, r, k - 1);
        assert(k * bound == (k - 1) * bound + bound) by (nonlinear_arith);
        assert(0 <= s[k - 1]);
        assert(m.cell(k - 1, s[k - 1]) <= bound);
    }
}

/// Ties go by the smallest number, of rows and of columns: where each row gains the same from every
/// column, and there are columns for all, the first row takes the first column, the second the second,
/// and so on; a row that can take none gets none.
pub proof fn law_ties_go_in_order(m: EvMatrix)
    requires
        m.wf(),
        m.rows <= m.columns@.len(),
        forall|r: int, c: int|
            0 <= r < m.rows && 0 <= c < m.columns@.len() ==> #[trigger] m.cell(r, c) == m.cell(r, r),
    ensures
        assignment_of(m).len() == m.rows,
        forall|r: int|
            0 <= r < m.rows ==> #[trigger] assignment_of(m)[r] == if m.cell(r, r) == INFEASIBLE_EV {
                None
            } else {
                Some(r as usize)
            },
{
    let n = m.side();
    assert forall|i: int, j: int| 1 <= i <= n && 1 <= j <= n implies #[trigger] cost(m, i, j) == cost(
        m,
        i,
        i,
    ) by {
        reveal(cost);
        if i <= m.rows {
            assert(m.cell(i - 1, j - 1) == m.cell(i - 1, i - 1));
        }
    }
    lemma_placed_in_order(m, n as nat);
    let p = placing(m, n as nat).2;
    assert forall|r: int| 0 <= r < m.rows implies #[trigger] assignment_of(m)[r] == admissible(
        m,
        r,
        r,
    ) by {
        assert(p[r + 1] == r + 1);
        let j = choose|j: int| 1 <= j <= n && #[trigger] p[j] == r + 1;
        assert(p[j] == j);
        assert(matching_of(p, n)[r] == r);
    }
}

/// All columns cost a row the same.
spec fn is_indifferent(m: EvMatrix) -> bool {
    forall|i: int, j: int|
        1 <= i <= m.side() && 1 <= j <= m.side() ==> #[trigger] cost(m, i, j) == cost(m, i, i)
}

/// The first `k` rows pay what they cost, the others nothing; nor do columns.
spec fn is_even(m: EvMatrix, u: Seq<i128>, v: Seq<i128>, k: int) -> bool {
    let n = m.side();
    &&& u.len() == n + 1
    &&& v.len() == n + 1
    &&& forall|r: int|
        1 <= r <= n ==> #[trigger] u[r] == if r <= k {
            cost(m, r, r)
        } else {
            0
        }
    &&& forall|j: int| 1 <= j <= n ==> #[trigger] v[j] == 0
}

/// The first `k` rows stand in the columns of their own numbers, no other in any.
spec fn is_in_order(p: Seq<usize>, n: int, k: int) -> bool {
    &&& p.len() == n + 1
    &&& forall|j: int|
        1 <= j <= n ==> #[trigger] p[j] == if j <= k {
            j
        } else {
            0
        }
}

/// The search for row `i` has scanned `t` columns, the virtual one among them, in order.
spec fn is_sweeping(m: EvMatrix, i: int, s: Search, t: int) -> bool {
    let n = m.side();
    &&& s.j0 == t
    &&& s.used.len() == n + 1
    &&& s.minv.len() == n + 1
    &&& s.way.len() == n + 1
    &&& is_even(
        m,
        s.u,
        s.v,
        if t == 0 {
            i - 1
        } else {
            i
        },
    )
    &&& forall|j: int| 0 <= j <= n ==> #[trigger] s.used[j] == (j < t)
    &&& forall|j: int| 0 <= j <= n ==> #[trigger] s.way[j] == 0
    &&& forall|j: int|
        1 <= j <= n && j >= t ==> #[trigger] s.minv[j] == if t == 0 {
            FAR as int
        } else {
            0
        }
}

/// The search takes the columns in order.
proof fn lemma_sweep_step(m: EvMatrix, p: Seq<usize>, i: int, s: Search, t: int)
    requires
        m.wf(),
        is_indifferent(m),
        1 <= i <= m.side(),
        0 <= t < i,
        p[0] == i,
        is_in_order(p, m.side(), i - 1),
        is_sweeping(m, i, s, t),
    ensures
        is_sweeping(m, i, advance(m, p, s), t + 1),
{
    let n = m.side();
    let a = advance(m, p, s);
    let used = s.used.update(t, true);
    let price = if t == 0 {
        cost(m, i, i)
    } else {
        0
    };
    lemma_cost_bound(m, i, i);
    assert forall|j: int| t < j <= n implies #[trigger] through(m, p, s, j) == price by {
        if t == 0 {
            assert(cost(m, i, j) == cost(m, i, i));
        } else {
            assert(p[t] == t);
            assert(cost(m, t, j) == cost(m, t, t));
            assert(s.u[t] == cost(m, t, t));
        }
        assert(s.v[j] == 0);
    }
    let minv = Seq::new(
        (n + 1) as nat,
        |j: int|
            if j >= 1 && !used[j] && through(m, p, s, j) < s.minv[j] {
                through(m, p, s, j) as i128
            } else {
                s.minv[j]
            },
    );
    assert forall|j: int| t < j <= n implies #[trigger] minv[j] == price && !used[j] by {
        assert(through(m, p, s, j) == price);
    }
    assert forall|j: int| 1 <= j <= n && !used[j] implies t < j by {}
    lemma_first_cheapest(used, minv, n, t + 1);
    assert(a.j0 == t + 1);
    assert(minv[t + 1] == price);
    assert forall|r: int| 1 <= r <= n implies #[trigger] a.u[r] == if r <= i {
        cost(m, r, r)
    } else {
        0
    } by {
        if t == 0 {
            if r == i {
                assert(used[0] && p[0] == i);
                assert(is_reached(used, p, n, r));
            } else {
                assert forall|j: int| 0 <= j <= n && #[trigger] used[j] implies p[j] != r by {}
                assert(!is_reached(used, p, n, r));
            }
        }
    }
    assert forall|j: int| 1 <= j <= n implies #[trigger] a.v[j] == 0 by {
        assert(s.v[j] == 0);
    }
    assert forall|j: int| 0 <= j <= n implies #[trigger] a.way[j] == 0 by {
        if j > t {
            assert(through(m, p, s, j) == price);
        }
        assert(s.way[j] == 0);
    }
    assert forall|j: int| 1 <= j <= n && j >= t + 1 implies #[trigger] a.minv[j] == 0 by {
        assert(minv[j] == price);
    }
}

/// The search for row `i` ends in column `i`.
proof fn lemma_sweep(m: EvMatrix, p: Seq<usize>, i: int, s: Search, t: int, fuel: nat)
    requires
        m.wf(),
        is_indifferent(m),
        1 <= i <= m.side(),
        0 <= t <= i,
        p[0] == i,
        is_in_order(p, m.side(), i - 1),
        is_sweeping(m, i, s, t),
        fuel >= i - t,
    ensures
        is_sweeping(m, i, searched(m, p, s, fuel), i),
    decreases i - t,
{
    if t < i {
        assert(p[t] != 0);
        lemma_sweep_step(m, p, i, s, t);
        lemma_sweep(m, p, i, advance(m, p, s), t + 1, (fuel - 1) as nat);
    } else {
        assert(p[i] == 0);
    }
}

/// Where all columns cost each row the same, the rows take them in order.
proof fn lemma_placed_in_order(m: EvMatrix, i: nat)
    requires
        m.wf(),
        is_indifferent(m),
        i <= m.side(),
    ensures
        is_even(m, placing(m, i).0, placing(m, i).1, i as int),
        is_in_order(placing(m, i).2, m.side(), i as int),
    decreases i,
{
    if i > 0 {
        lemma_placed_in_order(m, (i - 1) as nat);
        let n = (m.side() + 1) as nat;
        let (u, v, p) = placing(m, (i - 1) as nat);
        let p0 = p.update(0, i as usize);
        let start = unsearched(m, u, v);
        assert(is_sweeping(m, i as int, start, 0));
        lemma_sweep(m, p0, i as int, start, 0, n);
        let end = searched(m, p0, start, n);
        assert(end.way[i as int] == 0);
        reveal_with_fuel(rematched, 3);
        assert(rematched(p0, end.way, end.j0, n) == p0.update(i as int, p0[0]));
    }
}

/// `p` and `q` reorder the rows and the columns of `m` into those of `other`: row `r` becomes row `p[r]`,
/// column `c` becomes column `q[c]`.
pub open spec fn is_reordered(m: EvMatrix, other: EvMatrix, p: Seq<int>, q: Seq<int>) -> bool {
    &&& other.rows == m.rows
    &&& other.columns@.len() == m.columns@.len()
    &&& is_matching(m.rows as int, p)
    &&& is_matching(m.columns@.len() as int, q)
    &&& forall|r: int, c: int|
        0 <= r < m.rows && 0 <= c < m.columns@.len() ==> #[trigger] m.cell(r, c) == other.cell(
            p[r],
            q[c],
        )
}

/// How many rows have no column.
pub open spec fn left_out(row_to_col: Seq<Option<usize>>) -> int
    decreases row_to_col.len(),
{
    if row_to_col.len() == 0 {
        0
    } else {
        left_out(row_to_col.drop_last()) + if row_to_col.last() is None {
            1int
        } else {
            0
        }
    }
}

/// The order of rows and columns does not matter: reordered, as many rows are left out, and all together
/// gain the same, as long as the gains are too small to pay for an infeasible cell. Whatever the gains,
/// the totals are the same wherever as many rows are left out.
pub proof fn law_order_does_not_matter(
    m: EvMatrix,
    other: EvMatrix,
    p: Seq<int>,
    q: Seq<int>,
    row_to_col: Seq<Option<usize>>,
    other_row_to_col: Seq<Option<usize>>,
    bound: int,
)
    requires
        m.wf(),
        other.wf(),
        is_reordered(m, other, p, q),
        solves(m, row_to_col),
        solves(other, other_row_to_col),
    ensures
        left_out(row_to_col) == left_out(other_row_to_col) ==> assigned_ev(
            m,
            row_to_col,
            m.rows as int,
        ) == assigned_ev(other, other_row_to_col, m.rows as int),
        is_within(m, bound) && 2 * bound * m.rows < -INFEASIBLE_EV ==> {
            &&& left_out(row_to_col) == left_out(other_row_to_col)
            &&& assigned_ev(m, row_to_col, m.rows as int) == assigned_ev(
                other,
                other_row_to_col,
                m.rows as int,
            )
        },
{
    let rows = m.rows as int;
    let s = choose|s: Seq<int>|
        {
            &&& #[trigger] is_optimal(m, s)
            &&& forall|r: int|
                0 <= r < m.rows ==> #[trigger] row_to_col[r] == admissible(m, r, s[r])
        };
    let t = choose|t: Seq<int>|
        {
            &&& #[trigger] is_optimal(other, t)
            &&& forall|r: int|
                0 <= r < other.rows ==> #[trigger] other_row_to_col[r] == admissible(other, r, t[r])
        };
    // Each best matching gains at least what the other one gains reordered.
    let s_there = lemma_reordered_gains(m, other, p, q, s);
    lemma_order_goes_back(m, other, p, q);
    let t_here = lemma_reordered_gains(
        other,
        m,
        inverse(p, rows),
        inverse(q, m.columns@.len() as int),
        t,
    );
    assert(matching_ev(other, s_there, m.side()) <= matching_ev(other, t, m.side()));
    assert(matching_ev(m, t_here, m.side()) <= matching_ev(m, s, m.side()));
    lemma_padding_rows(m, s, m.side());
    lemma_padding_rows(other, t, m.side());
    lemma_solution_pays(m, s, row_to_col);
    lemma_solution_pays(other, t, other_row_to_col);
    let here = left_out(row_to_col);
    let there = left_out(other_row_to_col);
    if is_within(m, bound) && 2 * bound * m.rows < -INFEASIBLE_EV {
        lemma_order_keeps_bounds(m, other, p, q, bound);
        lemma_gains_are_bounded(m, row_to_col, bound, rows);
        lemma_gains_are_bounded(other, other_row_to_col, bound, rows);
        assert(2 * bound * m.rows == bound * rows + bound * rows) by (nonlinear_arith)
            requires
                rows == m.rows,
        ;
    }
}

/// No feasible cell gains or loses more than `bound`.
pub open spec fn is_within(m: EvMatrix, bound: int) -> bool {
    &&& 0 <= bound
    &&& forall|r: int, c: int|
        0 <= r < m.rows && 0 <= c < m.columns@.len() && #[trigger] m.cell(r, c) != INFEASIBLE_EV
            ==> -bound <= m.cell(r, c) <= bound
}

/// The places of the numbers below `n` in `p`.
spec fn inverse(p: Seq<int>, n: int) -> Seq<int> {
    Seq::new(n as nat, |i: int| choose|r: int| 0 <= r < n && #[trigger] p[r] == i)
}

/// The places of an ordering are an ordering.
proof fn lemma_inverse(p: Seq<int>, n: int)
    requires
        is_matching(n, p),
    ensures
        is_matching(n, inverse(p, n)),
        forall|i: int| 0 <= i < n ==> p[#[trigger] inverse(p, n)[i]] == i,
{
    let back = inverse(p, n);
    assert forall|i: int| 0 <= i < n implies 0 <= #[trigger] back[i] < n && p[back[i]] == i by {
        lemma_matching_onto(n, p, i);
    }
    assert forall|a: int, b: int| 0 <= a < b < n implies #[trigger] back[a] != #[trigger] back[b] by {
        assert(p[back[a]] == a && p[back[b]] == b);
    }
}

/// What was reordered can be ordered back.
proof fn lemma_order_goes_back(m: EvMatrix, other: EvMatrix, p: Seq<int>, q: Seq<int>)
    requires
        is_reordered(m, other, p, q),
    ensures
        is_reordered(
            other,
            m,
            inverse(p, m.rows as int),
            inverse(q, m.columns@.len() as int),
        ),
{
    let rows = m.rows as int;
    let cols = m.columns@.len() as int;
    lemma_inverse(p, rows);
    lemma_inverse(q, cols);
    assert forall|r: int, c: int| 0 <= r < rows && 0 <= c < cols implies #[trigger] other.cell(r, c)
        == m.cell(inverse(p, rows)[r], inverse(q, cols)[c]) by {
        let (i, j) = (inverse(p, rows)[r], inverse(q, cols)[c]);
        assert(m.cell(i, j) == other.cell(p[i], q[j]));
    }
}

/// Reordered, a matrix has the same bounds.
proof fn lemma_order_keeps_bounds(
    m: EvMatrix,
    other: EvMatrix,
    p: Seq<int>,
    q: Seq<int>,
    bound: int,
)
    requires
        is_reordered(m, other, p, q),
        is_within(m, bound),
    ensures
        is_within(other, bound),
{
    lemma_order_goes_back(m, other, p, q);
    let (back_p, back_q) = (inverse(p, m.rows as int), inverse(q, m.columns@.len() as int));
    assert forall|r: int, c: int|
        0 <= r < other.rows && 0 <= c < other.columns@.len() && #[trigger] other.cell(r, c)
            != INFEASIBLE_EV implies -bound <= other.cell(r, c) <= bound by {
        assert(other.cell(r, c) == m.cell(back_p[r], back_q[c]));
    }
}

/// The ordering, with what lies past it left in place.
spec fn padded(p: Seq<int>, n: int) -> Seq<int> {
    Seq::new(
        n as nat,
        |r: int|
            if r < p.len() {
                p[r]
            } else {
                r
            },
    )
}

/// An ordering with more left in place is an ordering.
proof fn lemma_padded(p: Seq<int>, n: int)
    requires
        is_matching(p.len() as int, p),
        p.len() <= n,
    ensures
        is_matching(n, padded(p, n)),
        forall|r: int| 0 <= r < n ==> (#[trigger] padded(p, n)[r] < p.len() <==> r < p.len()),
{
    let all = padded(p, n);
    assert forall|r: int| 0 <= r < n implies 0 <= #[trigger] all[r] < n && (all[r] < p.len() <==> r
        < p.len()) by {
        if r < p.len() {
            assert(0 <= p[r] < p.len());
        }
    }
    assert forall|a: int, b: int| 0 <= a < b < n implies #[trigger] all[a] != #[trigger] all[b] by {
        if b < p.len() {
            assert(p[a] != p[b]);
        } else {
            assert(all[a] < p.len() <==> a < p.len());
        }
    }
}

/// A matching, reordered, gains the same.
proof fn lemma_reordered_gains(
    m: EvMatrix,
    other: EvMatrix,
    p: Seq<int>,
    q: Seq<int>,
    s: Seq<int>,
) -> (t: Seq<int>)
    requires
        is_reordered(m, other, p, q),
        is_matching(m.side(), s),
    ensures
        is_matching(m.side(), t),
        matching_ev(other, t, m.side()) == matching_ev(m, s, m.side()),
{
    let n = m.side();
    let rows = padded(p, n);
    let cols = padded(q, n);
    let back = inverse(rows, n);
    lemma_padded(p, n);
    lemma_padded(q, n);
    lemma_inverse(rows, n);
    let t = Seq::new(n as nat, |i: int| cols[s[back[i]]]);
    assert(is_matching(n, t)) by {
        assert forall|i: int| 0 <= i < n implies 0 <= #[trigger] t[i] < n by {
            assert(0 <= back[i] < n);
            assert(0 <= s[back[i]] < n);
        }
        assert forall|a: int, b: int| 0 <= a < b < n implies #[trigger] t[a] != #[trigger] t[b] by {
            let (x, y) = (back[a], back[b]);
            assert(x != y);
            assert(s[x] != s[y]) by {
                if x < y {
                    assert(s[x] != s[y]);
                } else {
                    assert(s[y] != s[x]);
                }
            }
            let (e, f) = (s[x], s[y]);
            assert(0 <= e < n && 0 <= f < n);
            if e < f {
                assert(cols[e] != cols[f]);
            } else {
                assert(cols[f] != cols[e]);
            }
        }
    }
    let gains = Seq::new(n as nat, |i: int| other.cell(i, t[i]));
    assert forall|r: int| 0 <= r < n implies #[trigger] gains[rows[r]] == m.cell(r, s[r]) by {
        let i = rows[r];
        assert(rows[back[i]] == i);
        assert(back[i] == r) by {
            let b = back[i];
            if b < r {
                assert(rows[b] != rows[r]);
            } else if r < b {
                assert(rows[r] != rows[b]);
            }
        }
        let c = s[r];
        assert(0 <= c < n);
        assert(cols[c] < q.len() <==> c < q.len());
        assert(t[i] == cols[c]);
        if r < m.rows && c < m.columns@.len() {
            assert(m.cell(r, c) == other.cell(p[r], q[c]));
        }
    }
    lemma_sum_at_matching(gains, rows);
    lemma_gains_in_order(other, t, gains, n);
    assert(gains.take(n) =~= gains);
    lemma_gains_at(m, s, gains, rows, n);
    assert(rows.take(n) =~= rows);
    t
}

/// What a matching gains, row by row.
proof fn lemma_gains_in_order(m: EvMatrix, s: Seq<int>, gains: Seq<int>, k: int)
    requires
        0 <= k <= gains.len(),
        forall|r: int| 0 <= r < gains.len() ==> #[trigger] gains[r] == m.cell(r, s[r]),
    ensures
        matching_ev(m, s, k) == sum(gains.take(k)),
    decreases k,
{
    if k > 0 {
        lemma_gains_in_order(m, s, gains, k - 1);
        assert(gains.take(k).drop_last() =~= gains.take(k - 1));
        assert(gains[k - 1] == m.cell(k - 1, s[k - 1]));
    } else {
        assert(gains.take(0).len() == 0);
    }
}

/// What a matching gains, summed at other places.
proof fn lemma_gains_at(m: EvMatrix, s: Seq<int>, gains: Seq<int>, rows: Seq<int>, k: int)
    requires
        0 <= k <= rows.len(),
        forall|r: int| 0 <= r < rows.len() ==> gains[#[trigger] rows[r]] == m.cell(r, s[r]),
    ensures
        matching_ev(m, s, k) == sum_at(gains, rows.take(k)),
    decreases k,
{
    if k > 0 {
        lemma_gains_at(m, s, gains, rows, k - 1);
        assert(rows.take(k).drop_last() =~= rows.take(k - 1));
        assert(rows.take(k).last() == rows[k - 1]);
    } else {
        assert(rows.take(0).len() == 0);
    }
}

/// How many of the first `k` rows are matched to padding.
spec fn padding_used(m: EvMatrix, s: Seq<int>, k: int) -> int
    decreases k,
{
    if k <= 0 {
        0
    } else {
        padding_used(m, s, k - 1) + if s[k - 1] >= m.columns@.len() {
            1int
        } else {
            0
        }
    }
}

/// With the sentinel paid for each row that is left out, a solution gains what its matching does and
/// the sentinels of the rows that there are no columns for.
proof fn lemma_solution_pays(m: EvMatrix, s: Seq<int>, row_to_col: Seq<Option<usize>>)
    requires
        m.wf(),
        is_matching(m.side(), s),
        row_to_col.len() == m.rows,
        forall|r: int| 0 <= r < m.rows ==> #[trigger] row_to_col[r] == admissible(m, r, s[r]),
    ensures
        assigned_ev(m, row_to_col, m.rows as int) + INFEASIBLE_EV * left_out(row_to_col)
            == matching_ev(m, s, m.rows as int) + INFEASIBLE_EV * (m.side() - m.columns@.len()),
{
    lemma_rows_pay(m, s, row_to_col, m.rows as int);
    assert(row_to_col.take(m.rows as int) =~= row_to_col);
    lemma_padding_is_used_up(m, s);
}

/// The same of the first `k` rows.
proof fn lemma_rows_pay(m: EvMatrix, s: Seq<int>, row_to_col: Seq<Option<usize>>, k: int)
    requires
        m.wf(),
        is_matching(m.side(), s),
        row_to_col.len() == m.rows,
        0 <= k <= m.rows,
        forall|r: int| 0 <= r < m.rows ==> #[trigger] row_to_col[r] == admissible(m, r, s[r]),
    ensures
        assigned_ev(m, row_to_col, k) + INFEASIBLE_EV * left_out(row_to_col.take(k))
            == matching_ev(m, s, k) + INFEASIBLE_EV * padding_used(m, s, k),
    decreases k,
{
    if k > 0 {
        lemma_rows_pay(m, s, row_to_col, k - 1);
        assert(row_to_col.take(k).drop_last() =~= row_to_col.take(k - 1));
        assert(row_to_col[k - 1] == admissible(m, k - 1, s[k - 1]));
        assert(0 <= s[k - 1] < m.side());
    } else {
        assert(row_to_col.take(0).len() == 0);
    }
}

/// The rows that there are no columns for are matched to padding.
proof fn lemma_padding_is_used_up(m: EvMatrix, s: Seq<int>)
    requires
        is_matching(m.side(), s),
    ensures
        padding_used(m, s, m.rows as int) == m.side() - m.columns@.len(),
{
    let n = m.side();
    let cols = m.columns@.len() as int;
    let w = Seq::new(
        n as nat,
        |c: int|
            if c >= cols {
                1int
            } else {
                0
            },
    );
    lemma_sum_at_matching(w, s);
    lemma_ones_past(w, cols, n);
    assert(w.take(n) =~= w);
    lemma_padding_at(m, s, w, m.rows as int);
    if m.rows < cols {
        lemma_no_padding(m, s, m.rows as int);
    } else {
        assert(s.take(n) =~= s);
    }
}

/// Where there are columns for all rows, none is matched to padding.
proof fn lemma_no_padding(m: EvMatrix, s: Seq<int>, k: int)
    requires
        is_matching(m.side(), s),
        m.rows <= m.columns@.len(),
        0 <= k <= m.rows,
    ensures
        padding_used(m, s, k) == 0,
    decreases k,
{
    if k > 0 {
        lemma_no_padding(m, s, k - 1);
        assert(0 <= s[k - 1] < m.side());
    }
}

/// The rows that are matched to padding, as a sum over the columns.
proof fn lemma_padding_at(m: EvMatrix, s: Seq<int>, w: Seq<int>, k: int)
    requires
        is_matching(m.side(), s),
        w.len() == m.side(),
        forall|c: int|
            0 <= c < w.len() ==> #[trigger] w[c] == if c >= m.columns@.len() {
                1int
            } else {
                0
            },
        0 <= k <= m.rows,
    ensures
        padding_used(m, s, k) == sum_at(w, s.take(k)),
    decreases k,
{
    if k > 0 {
        lemma_padding_at(m, s, w, k - 1);
        assert(s.take(k).drop_last() =~= s.take(k - 1));
        assert(0 <= s[k - 1] < m.side());
    } else {
        assert(s.take(0).len() == 0);
    }
}

/// Ones past `from` sum up to how many there are.
proof fn lemma_ones_past(w: Seq<int>, from: int, k: int)
    requires
        0 <= from,
        0 <= k <= w.len(),
        forall|c: int|
            0 <= c < w.len() ==> #[trigger] w[c] == if c >= from {
                1int
            } else {
                0
            },
    ensures
        sum(w.take(k)) == if k >= from {
            k - from
        } else {
            0
        },
    decreases k,
{
    if k > 0 {
        lemma_ones_past(w, from, k - 1);
        assert(w.take(k).drop_last() =~= w.take(k - 1));
        assert(w.take(k).last() == w[k - 1]);
    } else {
        assert(w.take(0).len() == 0);
    }
}

/// What the first `k` rows gain is bounded.
proof fn lemma_gains_are_bounded(m: EvMatrix, row_to_col: Seq<Option<usize>>, bound: int, k: int)
    requires
        m.wf(),
        solves(m, row_to_col),
        is_within(m, bound),
        0 <= k <= m.rows,
    ensures
        -(bound * k) <= assigned_ev(m, row_to_col, k) <= bound * k,
    decreases k,
{
    if k > 0 {
        lemma_gains_are_bounded(m, row_to_col, bound, k - 1);
        law_solution_is_exclusive(m, row_to_col);
        assert(bound * k == bound * (k - 1) + bound) by (nonlinear_arith);
        if row_to_col[k - 1] is Some {
            let c = row_to_col[k - 1]->0 as int;
            assert(m.cell(k - 1, c) != INFEASIBLE_EV);
        }
    } else {
        assert(bound * 0 == 0) by (nonlinear_arith);
    }
}

// ---------------------------------------------------------------------------------------------
// Scoring squads on objectives.
// ---------------------------------------------------------------------------------------------

/// What a squad can be used for.
#[derive(Clone, Copy, Debug, PartialEq, Eq, Structural)]
pub enum CapClass {
    Defense,
    Offense,
    Declaim,
}

/// A squad.
#[derive(Clone, Copy, Debug, PartialEq, Eq, Structural)]
pub struct SquadRow {
    /// What its survivors can do.
    pub caps: SquadCapabilities,
    pub class: CapClass,
    /// The objective that it has, if that still stands.
    pub current_objective: Option<u32>,
    /// What giving up is worth, in thousandths.
    pub recycle_ev: i64,
}

/// An objective.
#[derive(Clone, Debug)]
pub struct ObjectiveCell {
    pub id: u32,
    pub class: CapClass,
    /// What it is worth: by its kind, and what is known of it.
    pub value_kind: ObjectiveValueKind,
    pub intel: ObjectiveIntel,
    pub defense: DefenseProfile,
    /// The creeps that defend it, if any.
    pub enemy: Option<EnemyForce>,
    /// How many rooms away it is from each squad; none where it is not listed.
    pub travel_rooms_per_row: Vec<u32>,
    /// Whether each squad may go for it; it may where it is not listed.
    pub feasible_per_row: Vec<bool>,
}

impl ObjectiveCell {
    /// How many rooms away it is.
    pub open spec fn travel(&self, row: int) -> u32 {
        if row < self.travel_rooms_per_row@.len() {
            self.travel_rooms_per_row@[row]
        } else {
            0
        }
    }

    /// The squad may go for it.
    pub open spec fn is_open_to(&self, row: int) -> bool {
        row < self.feasible_per_row@.len() ==> self.feasible_per_row@[row]
    }

    /// The rooms that a squad travels to the objective.
    fn travel_for(&self, row: usize) -> (rooms: u32)
        ensures
            rooms == self.travel(row as int),
    {
        if row < self.travel_rooms_per_row.len() {
            self.travel_rooms_per_row[row]
        } else {
            0
        }
    }

    /// Whether the objective is open to a squad.
    fn feasible_for(&self, row: usize) -> (yes: bool)
        ensures
            yes == self.is_open_to(row as int),
    {
        if row < self.feasible_per_row.len() {
            self.feasible_per_row[row]
        } else {
            true
        }
    }
}

/// What scores depend on besides the squad and the objective.
#[derive(Clone, Copy, Debug, PartialEq, Eq, Structural)]
pub struct MatrixParams {
    /// The ticks that a squad has at an objective.
    pub onsite_window: u32,
    pub pairing: PairingParams,
}

impl Default for MatrixParams {
    fn default() -> (p: Self)
        ensures
            p.onsite_window == 1500,
            p.pairing == (PairingParams { w_travel: 1000, dynamic_margin: 1000 }),
    {
        MatrixParams { onsite_window: 1500, pairing: PairingParams::default() }
    }
}

/// `q` is what the squad gains from the objective, in thousandths: its chance to win it times what it is
/// worth, less the way.
pub open spec fn is_score<F: Fn(i128, i128) -> Probability>(
    curve: F,
    squad: SquadRow,
    row: int,
    obj: ObjectiveCell,
    params: MatrixParams,
    q: int,
) -> bool {
    exists|ev: int|
        #[trigger] crate::composition::is_pairing_ev(
            curve,
            squad.caps,
            obj.defense,
            obj.enemy,
            crate::objective_value::worth(obj.value_kind, obj.intel) as i64,
            params.onsite_window,
            obj.travel(row),
            params.pairing,
            ev,
        ) && q == crate::composition::quantized(ev)
}

/// `q` is the EV of the squad on the objective.
pub open spec fn is_cell_ev<F: Fn(i128, i128) -> Probability>(
    curve: F,
    squad: SquadRow,
    row: int,
    obj: ObjectiveCell,
    params: MatrixParams,
    q: int,
) -> bool {
    if squad.class != obj.class || !obj.is_open_to(row) {
        q == INFEASIBLE_EV
    } else {
        is_score(curve, squad, row, obj, params, q)
    }
}

/// The first objective from `k` on with this id.
pub open spec fn first_with_id(objectives: Seq<ObjectiveCell>, id: u32, k: int) -> Option<int>
    decreases objectives.len() - k,
{
    if k >= objectives.len() {
        None
    } else if objectives[k].id == id {
        Some(k)
    } else {
        first_with_id(objectives, id, k + 1)
    }
}

/// `q` is the EV of staying: the objective that the squad has, scored anew. It may always keep that.
pub open spec fn is_stay_ev<F: Fn(i128, i128) -> Probability>(
    curve: F,
    squad: SquadRow,
    row: int,
    objectives: Seq<ObjectiveCell>,
    params: MatrixParams,
    q: int,
) -> bool {
    if squad.current_objective is None {
        q == INFEASIBLE_EV
    } else {
        match first_with_id(objectives, squad.current_objective->0, 0) {
            None => q == INFEASIBLE_EV,
            Some(k) => if squad.class != objectives[k].class {
                q == INFEASIBLE_EV
            } else {
                is_score(curve, squad, row, objectives[k], params, q)
            },
        }
    }
}

/// The columns: the objectives, then staying for each row, then giving up for each row.
pub open spec fn columns_of(objectives: Seq<ObjectiveCell>, rows: int) -> Seq<ColumnKind> {
    Seq::new(objectives.len(), |c: int| ColumnKind::Objective { id: objectives[c].id }) + Seq::new(
        rows as nat,
        |r: int| ColumnKind::StayPut { row: r as usize },
    ) + Seq::new(rows as nat, |r: int| ColumnKind::Recycle { row: r as usize })
}

/// `evs` is what the squad gains from each column.
pub open spec fn is_row<F: Fn(i128, i128) -> Probability>(
    curve: F,
    squad: SquadRow,
    row: int,
    rows: int,
    objectives: Seq<ObjectiveCell>,
    params: MatrixParams,
    evs: Seq<i64>,
) -> bool {
    let k = objectives.len() as int;
    &&& evs.len() == k + 2 * rows
    &&& forall|c: int|
        0 <= c < k ==> is_cell_ev(
            curve,
            squad,
            row,
            objectives[c],
            params,
            (#[trigger] evs[c]) as int,
        )
    &&& is_stay_ev(curve, squad, row, objectives, params, evs[k + row] as int)
    &&& evs[k + rows + row] == squad.recycle_ev
    &&& forall|c: int|
        k <= c < k + 2 * rows && c != k + row && c != k + rows + row ==> #[trigger] evs[c]
            == INFEASIBLE_EV
}

/// Row `r` of the matrix.
pub open spec fn row_of(m: EvMatrix, r: int) -> Seq<i64> {
    Seq::new(m.columns@.len(), |c: int| m.cell(r, c) as i64)
}

/// The matrix of the squads and the objectives.
pub open spec fn is_matrix_of<F: Fn(i128, i128) -> Probability>(
    curve: F,
    squads: Seq<SquadRow>,
    objectives: Seq<ObjectiveCell>,
    params: MatrixParams,
    m: EvMatrix,
) -> bool {
    &&& m.wf()
    &&& m.rows == squads.len()
    &&& m.columns@ == columns_of(objectives, squads.len() as int)
    &&& forall|r: int|
        0 <= r < squads.len() ==> is_row(
            curve,
            squads[r],
            r,
            squads.len() as int,
            objectives,
            params,
            #[trigger] row_of(m, r),
        )
}

/// What the squad gains from the objective.
fn score<F: Fn(i128, i128) -> Probability>(
    squad: &SquadRow,
    row: usize,
    obj: &ObjectiveCell,
    params: &MatrixParams,
    curve: &F,
) -> (q: i64)
    requires
        forall|a: i128, b: i128| #[trigger] curve.requires((a, b)),
    ensures
        is_score(*curve, *squad, row as int, *obj, *params, q as int),
{
    let value: i64 = value_e(obj.value_kind, &obj.intel);
    let ev: i128 = pairing_ev(
        squad.caps,
        &obj.defense,
        obj.enemy,
        value,
        params.onsite_window,
        obj.travel_for(row),
        &params.pairing,
        curve,
    );
    assert(value == crate::objective_value::worth(obj.value_kind, obj.intel) as i64);
    quantize_ev(ev)
}

/// The EV of a squad on an objective: infeasible where it is of another class or may not go for it.
fn cell_ev<F: Fn(i128, i128) -> Probability>(
    squad: &SquadRow,
    row: usize,
    obj: &ObjectiveCell,
    params: &MatrixParams,
    curve: &F,
) -> (q: i64)
    requires
        forall|a: i128, b: i128| #[trigger] curve.requires((a, b)),
    ensures
        is_cell_ev(*curve, *squad, row as int, *obj, *params, q as int),
{
    if squad.class != obj.class || !obj.feasible_for(row) {
        return INFEASIBLE_EV;
    }
    score(squad, row, obj, params, curve)
}

/// The EV of staying.
fn stay_ev<F: Fn(i128, i128) -> Probability>(
    squad: &SquadRow,
    row: usize,
    objectives: &[ObjectiveCell],
    params: &MatrixParams,
    curve: &F,
) -> (q: i64)
    requires
        forall|a: i128, b: i128| #[trigger] curve.requires((a, b)),
    ensures
        is_stay_ev(*curve, *squad, row as int, objectives@, *params, q as int),
{
    let id: u32 = match squad.current_objective {
        Some(id) => id,
        None => {
            return INFEASIBLE_EV;
        },
    };
    let mut k: usize = 0;
    while k < objectives.len()
        invariant
            forall|a: i128, b: i128| #[trigger] curve.requires((a, b)),
            squad.current_objective == Some(id),
            k <= objectives@.len(),
            first_with_id(objectives@, id, 0) == first_with_id(objectives@, id, k as int),
        decreases objectives@.len() - k,
    {
        if objectives[k].id == id {
            if squad.class != objectives[k].class {
                return INFEASIBLE_EV;
            }
            return score(squad, row, &objectives[k], params, curve);
        }
        k = k + 1;
    }
    INFEASIBLE_EV
}

/// What the squad gains from each column.
fn row_evs<F: Fn(i128, i128) -> Probability>(
    squad: &SquadRow,
    row: usize,
    rows: usize,
    objectives: &[ObjectiveCell],
    params: &MatrixParams,
    curve: &F,
) -> (evs: Vec<i64>)
    requires
        forall|a: i128, b: i128| #[trigger] curve.requires((a, b)),
        row < rows,
        objectives@.len() + 2 * rows <= usize::MAX,
    ensures
        is_row(*curve, *squad, row as int, rows as int, objectives@, *params, evs@),
{
    let mut evs: Vec<i64> = Vec::new();
    let k: usize = objectives.len();
    let mut c: usize = 0;
    while c < k
        invariant
            forall|a: i128, b: i128| #[trigger] curve.requires((a, b)),
            k == objectives@.len(),
            c <= k,
            evs@.len() == c,
            forall|i: int|
                0 <= i < c ==> is_cell_ev(
                    *curve,
                    *squad,
                    row as int,
                    objectives@[i],
                    *params,
                    (#[trigger] evs@[i]) as int,
                ),
        decreases k - c,
    {
        let q: i64 = cell_ev(squad, row, &objectives[c], params, curve);
        evs.push(q);
        c = c + 1;
    }
    let stay: i64 = stay_ev(squad, row, objectives, params, curve);
    let total: usize = k + 2 * rows;
    while c < total
        invariant
            row < rows,
            k == objectives@.len(),
            total == k + 2 * rows,
            k <= c <= total,
            evs@.len() == c,
            forall|i: int|
                0 <= i < k ==> is_cell_ev(
                    *curve,
                    *squad,
                    row as int,
                    objectives@[i],
                    *params,
                    (#[trigger] evs@[i]) as int,
                ),
            forall|i: int|
                k <= i < c ==> #[trigger] evs@[i] == if i == k + row {
                    stay
                } else if i == k + rows + row {
                    squad.recycle_ev
                } else {
                    INFEASIBLE_EV
                },
        decreases total - c,
    {
        let q: i64 = if c == k + row {
            stay
        } else if c == k + rows + row {
            squad.recycle_ev
        } else {
            INFEASIBLE_EV
        };
        evs.push(q);
        c = c + 1;
    }
    evs
}

/// The columns of a matrix.
fn columns_for(objectives: &[ObjectiveCell], rows: usize) -> (columns: Vec<ColumnKind>)
    requires
        objectives@.len() + 2 * rows <= usize::MAX,
    ensures
        columns@ == columns_of(objectives@, rows as int),
{
    let mut columns: Vec<ColumnKind> = Vec::new();
    let k: usize = objectives.len();
    let ghost all = columns_of(objectives@, rows as int);
    let mut c: usize = 0;
    while c < k
        invariant
            k == objectives@.len(),
            all == columns_of(objectives@, rows as int),
            c <= k,
            columns@ =~= all.take(c as int),
        decreases k - c,
    {
        columns.push(ColumnKind::Objective { id: objectives[c].id });
        c = c + 1;
    }
    let mut r: usize = 0;
    while r < rows
        invariant
            k == objectives@.len(),
            all == columns_of(objectives@, rows as int),
            r <= rows,
            columns@ =~= all.take(k + r),
        decreases rows - r,
    {
        columns.push(ColumnKind::StayPut { row: r });
        r = r + 1;
    }
    r = 0;
    while r < rows
        invariant
            k == objectives@.len(),
            all == columns_of(objectives@, rows as int),
            r <= rows,
            columns@ =~= all.take(k + rows + r),
        decreases rows - r,
    {
        columns.push(ColumnKind::Recycle { row: r });
        r = r + 1;
    }
    assert(columns@ =~= all);
    columns
}

/// Scores every squad on every objective, on staying with the one that it has, and on giving up. `curve`
/// gives the chance to win from what one side brings and the other needs.
pub fn build_ev_matrix<F: Fn(i128, i128) -> Probability>(
    squads: &[SquadRow],
    objectives: &[ObjectiveCell],
    params: &MatrixParams,
    curve: &F,
) -> (m: EvMatrix)
    requires
        forall|a: i128, b: i128| #[trigger] curve.requires((a, b)),
        objectives@.len() + 2 * squads@.len() < usize::MAX,
        squads@.len() * (objectives@.len() + 2 * squads@.len()) <= usize::MAX,
    ensures
        is_matrix_of(*curve, squads@, objectives@, *params, m),
{
    let rows: usize = squads.len();
    let columns: Vec<ColumnKind> = columns_for(objectives, rows);
    let cols: usize = columns.len();
    let mut ev: Vec<i64> = Vec::new();
    let ghost mut grid: Seq<Seq<i64>> = Seq::empty();
    let mut r: usize = 0;
    assert(0 * cols == 0) by (nonlinear_arith);
    while r < rows
        invariant
            forall|a: i128, b: i128| #[trigger] curve.requires((a, b)),
            rows == squads@.len(),
            cols == objectives@.len() + 2 * rows,
            cols < usize::MAX,
            r <= rows,
            grid.len() == r,
            ev@.len() == r * cols,
            forall|i: int|
                0 <= i < r ==> is_row(
                    *curve,
                    squads@[i],
                    i,
                    rows as int,
                    objectives@,
                    *params,
                    #[trigger] grid[i],
                ),
            forall|i: int, c: int|
                0 <= i < r && 0 <= c < cols ==> ev@[i * cols + c] == #[trigger] grid[i][c],
        decreases rows - r,
    {
        let mut evs: Vec<i64> = row_evs(&squads[r], r, rows, objectives, params, curve);
        let ghost before = ev@;
        let ghost row = evs@;
        let ghost old_grid = grid;
        ev.append(&mut evs);
        proof {
            grid = old_grid.push(row);
            assert((r + 1) * cols == r * cols + cols) by (nonlinear_arith);
            assert forall|i: int, c: int| 0 <= i < r + 1 && 0 <= c < cols implies ev@[i * cols + c]
                == #[trigger] grid[i][c] by {
                if i < r {
                    lemma_row_major(i, c, r as int, cols as int);
                    assert(ev@[i * cols + c] == before[i * cols + c]);
                    assert(grid[i] == old_grid[i]);
                    assert(before[i * cols + c] == old_grid[i][c]);
                } else {
                    assert(ev@[r * cols + c] == row[c]);
                }
            }
        }
        r = r + 1;
    }
    let m = EvMatrix { rows, columns, ev };
    proof {
        assert forall|i: int| 0 <= i < rows implies is_row(
            *curve,
            squads@[i],
            i,
            rows as int,
            objectives@,
            *params,
            #[trigger] row_of(m, i),
        ) by {
            assert(grid[i].len() == cols);
            assert forall|c: int| 0 <= c < cols implies #[trigger] row_of(m, i)[c] == grid[i][c] by {
                assert(m.cell(i, c) == ev@[i * cols + c]);
            }
            assert(row_of(m, i) =~= grid[i]);
        }
    }
    m
}

/// Where giving up costs no squad anything, a built matrix has a way out for each row, so that the
/// solution gains at least what any placement of some of the squads gains, and never makes a loss.
pub proof fn law_no_squad_is_forced_into_a_loss<F: Fn(i128, i128) -> Probability>(
    curve: F,
    squads: Seq<SquadRow>,
    objectives: Seq<ObjectiveCell>,
    params: MatrixParams,
    m: EvMatrix,
    row_to_col: Seq<Option<usize>>,
    other: Seq<Option<usize>>,
)
    requires
        is_matrix_of(curve, squads, objectives, params, m),
        forall|r: int| 0 <= r < squads.len() ==> (#[trigger] squads[r]).recycle_ev >= 0,
        solves(m, row_to_col),
        is_exclusive(m, other),
    ensures
        assigned_ev(m, other, m.rows as int) <= assigned_ev(m, row_to_col, m.rows as int),
        0 <= assigned_ev(m, row_to_col, m.rows as int),
        is_exclusive(m, row_to_col),
{
    let n = squads.len() as int;
    let k = objectives.len() as int;
    let escape = Seq::new(n as nat, |r: int| k + n + r);
    assert forall|r: int| 0 <= r < m.rows implies is_escape(m, r, #[trigger] escape[r]) by {
        lemma_recycling_is_private(curve, squads, objectives, params, m, r);
    }
    law_escapes_make_placement_optional(m, row_to_col, escape, other);
    law_solution_is_exclusive(m, row_to_col);
}

/// The column of giving up is for one row only.
proof fn lemma_recycling_is_private<F: Fn(i128, i128) -> Probability>(
    curve: F,
    squads: Seq<SquadRow>,
    objectives: Seq<ObjectiveCell>,
    params: MatrixParams,
    m: EvMatrix,
    r: int,
)
    requires
        is_matrix_of(curve, squads, objectives, params, m),
        0 <= r < squads.len(),
        squads[r].recycle_ev >= 0,
    ensures
        is_escape(m, r, objectives.len() + squads.len() + r),
{
    let c = objectives.len() + squads.len() + r;
    assert(row_of(m, r)[c] == m.cell(r, c));
    assert forall|other: int| 0 <= other < m.rows && other != r implies #[trigger] m.cell(other, c)
        == INFEASIBLE_EV by {
        assert(row_of(m, other)[c] == m.cell(other, c));
    }
}

/// A squad is never sent to an objective of another class, or to one that it may not go for.
pub proof fn law_class_is_kept<F: Fn(i128, i128) -> Probability>(
    curve: F,
    squads: Seq<SquadRow>,
    objectives: Seq<ObjectiveCell>,
    params: MatrixParams,
    m: EvMatrix,
    row_to_col: Seq<Option<usize>>,
    r: int,
)
    requires
        is_matrix_of(curve, squads, objectives, params, m),
        solves(m, row_to_col),
        0 <= r < squads.len(),
        row_to_col[r] is Some,
        row_to_col[r]->0 < objectives.len(),
    ensures
        squads[r].class == objectives[row_to_col[r]->0 as int].class,
        objectives[row_to_col[r]->0 as int].is_open_to(r),
{
    law_solution_is_exclusive(m, row_to_col);
    let c = row_to_col[r]->0 as int;
    assert(row_of(m, r)[c] == m.cell(r, c));
}

/// A solution tells every row at most one column, one that it can take, and no two rows the same; and a gain
/// is the sum of the cells that are taken.
pub proof fn law_solution_takes_cells_it_may(
    m: EvMatrix,
    row_to_col: Seq<Option<usize>>,
    a: int,
    b: int,
)
    requires
        m.wf(),
        solves(m, row_to_col),
        0 <= a < m.rows,
        0 <= b < m.rows,
    ensures
        row_to_col.len() == m.rows,
        row_to_col[a] matches Some(c) ==> {
            &&& c < m.columns@.len()
            &&& m.ev@[a * m.columns@.len() + c] != -0x2000_0000_0000_0000
        },
        a != b && row_to_col[a] is Some && row_to_col[b] is Some ==> row_to_col[a] != row_to_col[b],
        assigned_ev(m, row_to_col, 0) == 0,
        assigned_ev(m, row_to_col, a + 1) == assigned_ev(m, row_to_col, a) + match row_to_col[a] {
            Some(c) => m.ev@[a * m.columns@.len() + c] as int,
            None => 0,
        },
{
    law_solution_is_exclusive(m, row_to_col);
}

/// A built matrix has a column for each objective, then one for each squad to stay and one to give up. A
/// squad gains from an objective what it is worth to it, from staying and giving up what these are, and it
/// can take no column of another squad.
pub proof fn law_matrix_has_a_column_for_each_choice<F: Fn(i128, i128) -> Probability>(
    curve: F,
    squads: Seq<SquadRow>,
    objectives: Seq<ObjectiveCell>,
    params: MatrixParams,
    m: EvMatrix,
    r: int,
    c: int,
)
    requires
        is_matrix_of(curve, squads, objectives, params, m),
        0 <= r < squads.len(),
        0 <= c < objectives.len() + 2 * squads.len(),
        squads.len() <= usize::MAX,
    ensures
        ({
            let k = objectives.len() as int;
            let n = squads.len() as int;
            &&& m.rows == n
            &&& m.columns@.len() == k + 2 * n
            &&& c < k ==> m.columns@[c] == (ColumnKind::Objective { id: objectives[c].id })
            &&& k <= c < k + n ==> m.columns@[c] == (ColumnKind::StayPut { row: (c - k) as usize })
            &&& k + n <= c ==> m.columns@[c] == (ColumnKind::Recycle { row: (c - k - n) as usize })
            &&& c < k ==> is_cell_ev(curve, squads[r], r, objectives[c], params, m.cell(r, c))
            &&& c == k + r ==> is_stay_ev(curve, squads[r], r, objectives, params, m.cell(r, c))
            &&& c == k + n + r ==> m.cell(r, c) == squads[r].recycle_ev
            &&& c >= k && c != k + r && c != k + n + r ==> m.cell(r, c) == -0x2000_0000_0000_0000
        }),
{
    assert(row_of(m, r)[c] == m.cell(r, c));
}

/// A squad may go for an objective of its class that it is not barred from. It gains, to the nearest
/// thousandth, the worth of the objective weighed by its chance to win, less the travel, by the rooms that
/// are listed for it.
pub proof fn law_a_squad_gains_what_it_can_win<F: Fn(i128, i128) -> Probability>(
    curve: F,
    squad: SquadRow,
    row: int,
    obj: ObjectiveCell,
    params: MatrixParams,
    q: int,
)
    requires
        0 <= row,
        is_cell_ev(curve, squad, row, obj, params, q),
    ensures
        ({
            let barred = row < obj.feasible_per_row@.len() && !obj.feasible_per_row@[row];
            let rooms = if row < obj.travel_rooms_per_row@.len() {
                obj.travel_rooms_per_row@[row] as int
            } else {
                0
            };
            let value = crate::objective_value::worth(obj.value_kind, obj.intel) as i64;
            &&& squad.class != obj.class || barred ==> q == -0x2000_0000_0000_0000
            &&& squad.class == obj.class && !barred && i64::MIN < q < i64::MAX ==> exists|p: Probability|
                {
                    &&& #[trigger] crate::composition::is_pairing_p_win(
                        curve,
                        squad.caps,
                        obj.defense,
                        obj.enemy,
                        params.onsite_window,
                        params.pairing,
                        p,
                    )
                    &&& -500_000_000 <= q * 1_000_000_000 - (p * value - params.pairing.w_travel * rooms
                        * 1_000_000_000) <= 500_000_000
                }
        }),
{
    if squad.class == obj.class && obj.is_open_to(row) {
        let value = crate::objective_value::worth(obj.value_kind, obj.intel) as i64;
        let ev = choose|ev: int|
            #[trigger] crate::composition::is_pairing_ev(
                curve,
                squad.caps,
                obj.defense,
                obj.enemy,
                value,
                params.onsite_window,
                obj.travel(row),
                params.pairing,
                ev,
            ) && q == crate::composition::quantized(ev);
        crate::composition::law_travel_costs_by_the_room(
            curve,
            squad.caps,
            obj.defense,
            obj.enemy,
            value,
            params.onsite_window,
            obj.travel(row),
            obj.travel(row),
            params.pairing,
            ev,
        );
        if i64::MIN < q < i64::MAX {
            crate::composition::law_quantizing_goes_to_the_nearest(ev);
        }
    }
}

/// Staying is worth what going for the objective that the squad has is, whether it could newly go for it or
/// not; with no objective that is listed and of its class it cannot stay.
pub proof fn law_staying_is_worth_the_objective<F: Fn(i128, i128) -> Probability>(
    curve: F,
    squad: SquadRow,
    row: int,
    objectives: Seq<ObjectiveCell>,
    params: MatrixParams,
    q: int,
    k: int,
)
    requires
        is_stay_ev(curve, squad, row, objectives, params, q),
    ensures
        squad.current_objective is None ==> q == -0x2000_0000_0000_0000,
        (squad.current_objective matches Some(id) && forall|j: int|
            0 <= j < objectives.len() ==> (#[trigger] objectives[j]).id != id) ==> q
            == -0x2000_0000_0000_0000,
        ({
            let first = {
                &&& 0 <= k < objectives.len()
                &&& squad.current_objective == Some(objectives[k].id)
                &&& forall|j: int| 0 <= j < k ==> (#[trigger] objectives[j]).id != objectives[k].id
            };
            &&& first && objectives[k].class != squad.class ==> q == -0x2000_0000_0000_0000
            &&& first && objectives[k].class == squad.class && objectives[k].is_open_to(row)
                ==> is_cell_ev(curve, squad, row, objectives[k], params, q)
            &&& first && objectives[k].class == squad.class ==> is_score(
                curve,
                squad,
                row,
                objectives[k],
                params,
                q,
            )
        }),
{
    if squad.current_objective is Some {
        let id = squad.current_objective->0;
        if forall|j: int| 0 <= j < objectives.len() ==> (#[trigger] objectives[j]).id != id {
            lemma_first_with_id(objectives, id, 0, objectives.len() as int);
        }
        if 0 <= k < objectives.len() && objectives[k].id == id && forall|j: int|
            0 <= j < k ==> (#[trigger] objectives[j]).id != id {
            lemma_first_with_id(objectives, id, 0, k);
        }
    }
}

/// The search for an objective passes those with other ids.
proof fn lemma_first_with_id(objectives: Seq<ObjectiveCell>, id: u32, from: int, to: int)
    requires
        0 <= from <= to <= objectives.len(),
        forall|j: int| from <= j < to ==> (#[trigger] objectives[j]).id != id,
    ensures
        first_with_id(objectives, id, from) == first_with_id(objectives, id, to),
        to < objectives.len() && objectives[to].id == id ==> first_with_id(objectives, id, from)
            == Some(to),
        to == objectives.len() ==> first_with_id(objectives, id, from) is None,
    decreases to - from,
{
    if from < to {
        assert(objectives[from].id != id);
        lemma_first_with_id(objectives, id, from + 1, to);
    }
}

}
