//! Directed exclusion constraints between participants.
//!
//! Participants are identified by dense indices `0 .. n`. The graph stores,
//! for every ordered pair `(giver, receiver)`, whether `giver` is forbidden
//! to give to `receiver`. The matrix is kept as a flat row-major vector of
//! booleans so that a single cell can be read and written in place.

use vstd::prelude::*;

verus! {

use crate::rng::SearchRng;
use crate::rng::random_ratio;

/// Whether the value `v` occurs in the sequence.
pub open spec fn contains_val(s: Seq<usize>, v: int) -> bool {
    exists|i: int| 0 <= i < s.len() && s[i] == v
}

/// Number of `true` entries in a sequence of booleans.
pub open spec fn count_true(s: Seq<bool>) -> nat
    decreases s.len(),
{
    if s.len() == 0 {
        0
    } else {
        count_true(s.drop_last()) + if s.last() {
            1nat
        } else {
            0nat
        }
    }
}

proof fn lemma_count_true_le(s: Seq<bool>)
    ensures
        count_true(s) <= s.len(),
    decreases s.len(),
{
    if s.len() > 0 {
        lemma_count_true_le(s.drop_last());
    }
}

proof fn lemma_count_true_update(s: Seq<bool>, i: int)
    requires
        0 <= i < s.len(),
    ensures
        count_true(s.update(i, true)) == count_true(s) + if s[i] {
            0nat
        } else {
            1nat
        },
    decreases s.len(),
{
    let t = s.update(i, true);
    if i == s.len() - 1 {
        assert(t.drop_last() =~= s.drop_last());
    } else {
        assert(t.drop_last() =~= s.drop_last().update(i, true));
        lemma_count_true_update(s.drop_last(), i);
    }
}

proof fn lemma_count_true_push(s: Seq<bool>, b: bool)
    ensures
        count_true(s.push(b)) == count_true(s) + if b {
            1nat
        } else {
            0nat
        },
{
    assert(s.push(b).drop_last() =~= s);
}

/// Row-major cell index lies inside the matrix.
proof fn lemma_cell_in_bounds(g: int, r: int, n: int)
    by (nonlinear_arith)
    requires
        0 <= g < n,
        0 <= r < n,
    ensures
        0 <= g * n + r < n * n,
        g * n <= g * n + r,
{
}

/// Distinct cells get distinct row-major indices.
proof fn lemma_cell_index_injective(g1: int, r1: int, g2: int, r2: int, n: int)
    by (nonlinear_arith)
    requires
        0 <= g1 < n,
        0 <= r1 < n,
        0 <= g2 < n,
        0 <= r2 < n,
        g1 * n + r1 == g2 * n + r2,
    ensures
        g1 == g2,
        r1 == r2,
{
}

/// Directed "may not give to" relation over participants `0 .. size`.
pub struct ExclusionGraph {
    n: usize,
    cells: Vec<bool>,
}

impl ExclusionGraph {
    /// Number of participants the graph speaks about.
    pub closed spec fn size(&self) -> int {
        self.n as int
    }

    /// The backing matrix has exactly one cell per ordered pair.
    pub closed spec fn wf(&self) -> bool {
        self.cells@.len() == self.size() * self.size()
    }

    /// Whether `g` is forbidden to give to `r`.
    pub closed spec fn excludes(&self, g: int, r: int) -> bool {
        self.cells@[g * self.size() + r]
    }

    /// Total number of forbidden ordered pairs; used as a progress measure
    /// by the search, which only ever adds exclusions to its working copy.
    pub closed spec fn total_excluded(&self) -> nat {
        count_true(self.cells@)
    }

    /// Number of forbidden receivers recorded for giver `g`.
    pub closed spec fn row_count(&self, g: int) -> nat {
        count_true(self.cells@.subrange(g * self.size(), g * self.size() + self.size()))
    }

    pub proof fn lemma_total_bound(&self)
        requires
            self.wf(),
        ensures
            self.total_excluded() <= self.size() * self.size(),
    {
        lemma_count_true_le(self.cells@);
    }

    /// A graph over `n` participants with no exclusions at all.
    pub fn new(n: usize) -> (g: ExclusionGraph)
        requires
            n * n <= usize::MAX,
        ensures
            g.wf(),
            g.size() == n,
            forall|a: int, b: int| 0 <= a < n && 0 <= b < n ==> !g.excludes(a, b),
    {
        let total = n * n;
        let mut cells: Vec<bool> = Vec::new();
        let mut i: usize = 0;
        while i < total
            invariant
                i <= total,
                cells@.len() == i,
                forall|k: int| 0 <= k < i ==> !cells@[k],
            decreases total - i,
        {
            cells.push(false);
            i += 1;
        }
        let g = ExclusionGraph { n, cells };
        proof {
            assert forall|a: int, b: int| 0 <= a < n && 0 <= b < n implies !g.excludes(a, b) by {
                lemma_cell_in_bounds(a, b, n as int);
            }
        }
        g
    }

    /// Number of participants.
    pub fn len(&self) -> (r: usize)
        ensures
            r == self.size(),
    {
        self.n
    }

    fn cell_index(&self, g: usize, r: usize) -> (idx: usize)
        requires
            self.wf(),
            g < self.size(),
            r < self.size(),
        ensures
            idx == g * self.size() + r,
            idx < self.cells@.len(),
    {
        proof {
            lemma_cell_in_bounds(g as int, r as int, self.size());
        }
        // Reading the length establishes that the matrix size, which bounds
        // the cell index, itself fits in usize.
        let _len = self.cells.len();
        g * self.n + r
    }

    /// Whether `g` is currently forbidden to give to `r`.
    pub fn is_forbidden(&self, g: usize, r: usize) -> (res: bool)
        requires
            self.wf(),
            g < self.size(),
            r < self.size(),
        ensures
            res == self.excludes(g as int, r as int),
    {
        let idx = self.cell_index(g, r);
        self.cells[idx]
    }

    /// Record that `g` may not give to `r`.
    pub fn forbid(&mut self, g: usize, r: usize)
        requires
            old(self).wf(),
            g < old(self).size(),
            r < old(self).size(),
        ensures
            final(self).wf(),
            final(self).size() == old(self).size(),
            forall|a: int, b: int|
                0 <= a < old(self).size() && 0 <= b < old(self).size()
                    ==> final(self).excludes(a, b) == (old(self).excludes(a, b) || (a == g && b
                        == r)),
            final(self).total_excluded() == old(self).total_excluded() + if old(self).excludes(
                g as int,
                r as int,
            ) {
                0nat
            } else {
                1nat
            },
    {
        let idx = self.cell_index(g, r);
        self.cells[idx] = true;
        proof {
            let n = self.size();
            lemma_count_true_update(old(self).cells@, idx as int);
            assert forall|a: int, b: int|
                0 <= a < n && 0 <= b < n implies self.excludes(a, b) == (old(self).excludes(a, b)
                || (a == g && b == r)) by {
                lemma_cell_in_bounds(a, b, n);
                if a * n + b == idx {
                    lemma_cell_index_injective(a, b, g as int, r as int, n);
                }
            }
        }
    }

    /// How many receivers are forbidden for giver `g`.
    pub fn forbidden_count(&self, g: usize) -> (count: usize)
        requires
            self.wf(),
            g < self.size(),
        ensures
            count == self.row_count(g as int),
    {
        proof {
            lemma_cell_in_bounds(g as int, 0, self.size());
        }
        // Reading the length establishes that the matrix size, which bounds
        // the row base index, itself fits in usize.
        let _len = self.cells.len();
        let base = g * self.n;
        let mut count: usize = 0;
        let mut r: usize = 0;
        proof {
            assert(self.cells@.subrange(base as int, base as int) =~= Seq::<bool>::empty());
        }
        while r < self.n
            invariant
                self.wf(),
                g < self.size(),
                base == g * self.size(),
                r <= self.n,
                count <= r,
                count == count_true(self.cells@.subrange(base as int, base as int + r)),
            decreases self.n - r,
        {
            proof {
                lemma_cell_in_bounds(g as int, r as int, self.size());
                assert(self.cells@.subrange(base as int, base as int + r + 1) =~= self.cells@
                    .subrange(base as int, base as int + r).push(self.cells@[base as int + r]));
                lemma_count_true_push(
                    self.cells@.subrange(base as int, base as int + r),
                    self.cells@[base as int + r],
                );
            }
            if self.is_forbidden(g, r) {
                count += 1;
            }
            r += 1;
        }
        count
    }

    /// The receivers giver `g` may not give to, in ascending order.
    #[verifier::loop_isolation(false)]
    pub fn forbidden_receivers(&self, g: usize) -> (row: Vec<usize>)
        requires
            self.wf(),
            g < self.size(),
        ensures
            forall|a: int, b: int| 0 <= a < b < row@.len() ==> row@[a] < row@[b],
            forall|j: int|
                0 <= j < self.size() ==> (contains_val(row@, j) <==> self.excludes(g as int, j)),
    {
        let n = self.len();
        let mut row: Vec<usize> = Vec::new();
        let mut j: usize = 0;
        while j < n
            invariant
                j <= n,
                forall|a: int| 0 <= a < row@.len() ==> row@[a] < j,
                forall|a: int, b: int| 0 <= a < b < row@.len() ==> row@[a] < row@[b],
                forall|j2: int|
                    0 <= j2 < j ==> (contains_val(row@, j2) <==> self.excludes(g as int, j2)),
            decreases n - j,
        {
            if self.is_forbidden(g, j) {
                let ghost before = row@;
                row.push(j);
                proof {
                    assert(row@[before.len() as int] == j);
                    assert forall|j2: int|
                        0 <= j2 < j + 1 && self.excludes(g as int, j2) implies contains_val(
                        row@,
                        j2,
                    ) by {
                        if j2 < j {
                            assert(contains_val(before, j2));
                            let k = choose|k: int| 0 <= k < before.len() && before[k] == j2;
                            assert(row@[k] == j2);
                        }
                    }
                    assert forall|j2: int|
                        0 <= j2 < j + 1 && contains_val(row@, j2) implies self.excludes(
                        g as int,
                        j2,
                    ) by {
                        let k = choose|k: int| 0 <= k < row@.len() && row@[k] == j2;
                        if k < before.len() {
                            assert(before[k] == j2);
                            assert(contains_val(before, j2));
                        }
                    }
                }
            }
            j += 1;
        }
        row
    }

    /// An independent copy: the search works on its own graph so that the
    /// caller's exclusion data is never touched.
    pub fn duplicate(&self) -> (copy: ExclusionGraph)
        requires
            self.wf(),
        ensures
            copy.wf(),
            copy.size() == self.size(),
            copy.total_excluded() == self.total_excluded(),
            forall|a: int, b: int| copy.excludes(a, b) == self.excludes(a, b),
    {
        let mut cells: Vec<bool> = Vec::new();
        let mut i: usize = 0;
        let len = self.cells.len();
        while i < len
            invariant
                i <= len,
                len == self.cells@.len(),
                cells@ =~= self.cells@.subrange(0, i as int),
            decreases len - i,
        {
            let c = self.cells[i];
            cells.push(c);
            i += 1;
        }
        proof {
            assert(cells@ =~= self.cells@);
        }
        ExclusionGraph { n: self.n, cells }
    }
}

/// Whether one of the first `m` edges is `(a, b)`.
pub open spec fn edge_in_prefix(edges: Seq<(usize, usize)>, m: int, a: int, b: int) -> bool {
    exists|k: int| 0 <= k < m && edges[k].0 == a && edges[k].1 == b
}

/// Whether some edge of the list is `(a, b)`.
pub open spec fn edge_listed(edges: Seq<(usize, usize)>, a: int, b: int) -> bool {
    edge_in_prefix(edges, edges.len() as int, a, b)
}

/// The graph forbids exactly the ordered pairs among the first `m` edges.
spec fn matches_prefix(g: ExclusionGraph, edges: Seq<(usize, usize)>, m: int) -> bool {
    forall|a: int, b: int|
        0 <= a < g.size() && 0 <= b < g.size() ==> (g.excludes(a, b) <==> edge_in_prefix(
            edges,
            m,
            a,
            b,
        ))
}

/// Build the graph over `n` participants from raw `(giver, receiver)`
/// exclusion edges: exactly the listed pairs are forbidden.
pub fn from_edges(n: usize, edges: &Vec<(usize, usize)>) -> (g: ExclusionGraph)
    requires
        n * n <= usize::MAX,
        forall|k: int| 0 <= k < edges@.len() ==> (#[trigger] edges@[k]).0 < n && edges@[k].1 < n,
    ensures
        g.wf(),
        g.size() == n,
        forall|a: int, b: int|
            0 <= a < n && 0 <= b < n ==> (g.excludes(a, b) <==> edge_listed(edges@, a, b)),
{
    let mut g = ExclusionGraph::new(n);
    let mut i: usize = 0;
    proof {
        assert forall|a: int, b: int|
            0 <= a < g.size() && 0 <= b < g.size() implies !edge_in_prefix(edges@, 0, a, b) by {}
    }
    while i < edges.len()
        invariant
            g.wf(),
            g.size() == n,
            i <= edges@.len(),
            forall|k: int|
                0 <= k < edges@.len() ==> (#[trigger] edges@[k]).0 < n && edges@[k].1 < n,
            matches_prefix(g, edges@, i as int),
        decreases edges@.len() - i,
    {
        let (giver, receiver) = edges[i];
        let ghost g_before = g;
        g.forbid(giver, receiver);
        proof {
            assert forall|a: int, b: int|
                0 <= a < g.size() && 0 <= b < g.size() implies (g.excludes(a, b)
                <==> edge_in_prefix(edges@, i + 1, a, b)) by {
                if g.excludes(a, b) {
                    if g_before.excludes(a, b) {
                        assert(edge_in_prefix(edges@, i as int, a, b));
                        let k = choose|k: int|
                            0 <= k < i && edges@[k].0 == a && edges@[k].1 == b;
                        assert(0 <= k < i + 1 && edges@[k].0 == a && edges@[k].1 == b);
                    } else {
                        assert(edges@[i as int].0 == a && edges@[i as int].1 == b);
                    }
                }
                if edge_in_prefix(edges@, i + 1, a, b) {
                    let k = choose|k: int|
                        0 <= k < i + 1 && edges@[k].0 == a && edges@[k].1 == b;
                    if k < i {
                        assert(edge_in_prefix(edges@, i as int, a, b));
                        assert(g_before.excludes(a, b));
                    } else {
                        assert(a == giver && b == receiver);
                    }
                }
            }
        }
        i += 1;
    }
    g
}

/// `row` holds exactly the receivers giver `g` may give to: everybody but
/// `g` itself and the participants `g` excludes.
pub open spec fn lists_valid_receivers(excl: ExclusionGraph, row: Seq<usize>, g: int) -> bool {
    forall|j: int|
        0 <= j < excl.size() ==> (contains_val(row, j) <==> (j != g && !excl.excludes(g, j)))
}

/// The adjacency-list view of the graph: for every giver, the ascending list
/// of the receivers it may still give to.
#[verifier::loop_isolation(false)]
pub fn exclusions_to_adjacency(excl: &ExclusionGraph) -> (adj: Vec<Vec<usize>>)
    requires
        excl.wf(),
    ensures
        adj@.len() == excl.size(),
        forall|i: int, a: int, b: int|
            0 <= i < adj@.len() && 0 <= a < b < adj@[i]@.len() ==> adj@[i]@[a] < adj@[i]@[b],
        forall|i: int| 0 <= i < adj@.len() ==> lists_valid_receivers(*excl, adj@[i]@, i),
{
    let n = excl.len();
    let mut adj: Vec<Vec<usize>> = Vec::new();
    let mut i: usize = 0;
    while i < n
        invariant
            excl.wf(),
            n == excl.size(),
            i <= n,
            adj@.len() == i,
            forall|i2: int, a: int, b: int|
                0 <= i2 < i && 0 <= a < b < adj@[i2]@.len() ==> adj@[i2]@[a] < adj@[i2]@[b],
            forall|i2: int| 0 <= i2 < i ==> lists_valid_receivers(*excl, adj@[i2]@, i2),
        decreases n - i,
    {
        let mut row: Vec<usize> = Vec::new();
        let mut j: usize = 0;
        while j < n
            invariant
                excl.wf(),
                n == excl.size(),
                i < n,
                j <= n,
                forall|a: int| 0 <= a < row@.len() ==> row@[a] < j,
                forall|a: int, b: int| 0 <= a < b < row@.len() ==> row@[a] < row@[b],
                forall|j2: int|
                    0 <= j2 < j ==> (contains_val(row@, j2) <==> (j2 != i && !excl.excludes(
                        i as int,
                        j2,
                    ))),
            decreases n - j,
        {
            if j != i && !excl.is_forbidden(i, j) {
                let ghost before = row@;
                row.push(j);
                proof {
                    assert(row@[before.len() as int] == j);
                    assert forall|j2: int|
                        0 <= j2 < j + 1 && (j2 != i && !excl.excludes(i as int, j2)) implies (
                    contains_val(row@, j2)) by {
                        if j2 < j {
                            assert(contains_val(before, j2));
                            let k = choose|k: int| 0 <= k < before.len() && before[k] == j2;
                            assert(row@[k] == j2);
                        }
                    }
                    assert forall|j2: int| 0 <= j2 < j + 1 && contains_val(row@, j2) implies (j2
                        != i && !excl.excludes(i as int, j2)) by {
                        let k = choose|k: int| 0 <= k < row@.len() && row@[k] == j2;
                        if k < before.len() {
                            assert(before[k] == j2);
                            assert(contains_val(before, j2));
                        }
                    }
                }
            }
            j += 1;
        }
        proof {
            assert(lists_valid_receivers(*excl, row@, i as int));
        }
        let ghost adj_before = adj@;
        adj.push(row);
        proof {
            assert forall|i2: int| 0 <= i2 < i + 1 implies lists_valid_receivers(
                *excl,
                adj@[i2]@,
                i2,
            ) by {
                if i2 < i {
                    assert(adj@[i2] == adj_before[i2]);
                    assert(lists_valid_receivers(*excl, adj_before[i2]@, i2));
                } else {
                    assert(adj@[i2]@ == row@);
                }
            }
        }
        i += 1;
    }
    adj
}

/// A random benchmark graph over `n` participants: each ordered pair of
/// distinct participants is excluded independently with probability
/// `numerator / denominator`. Nobody is made to exclude themselves; a zero
/// ratio leaves the graph empty and a full ratio excludes every ordered
/// pair of distinct participants.
pub fn generate_large_exclusions(
    n: usize,
    numerator: u32,
    denominator: u32,
    rng: &mut SearchRng,
) -> (g: ExclusionGraph)
    requires
        n * n <= usize::MAX,
        denominator >= 1,
        numerator <= denominator,
    ensures
        g.wf(),
        g.size() == n,
        forall|a: int| 0 <= a < n ==> !g.excludes(a, a),
        numerator == 0 ==> forall|a: int, b: int| 0 <= a < n && 0 <= b < n ==> !g.excludes(a, b),
        numerator == denominator ==> forall|a: int, b: int|
            0 <= a < n && 0 <= b < n && a != b ==> g.excludes(a, b),
{
    let mut g = ExclusionGraph::new(n);
    let mut i: usize = 0;
    while i < n
        invariant
            g.wf(),
            g.size() == n,
            i <= n,
            denominator >= 1,
            numerator <= denominator,
            forall|a: int| 0 <= a < n ==> !g.excludes(a, a),
            numerator == 0 ==> forall|a: int, b: int|
                0 <= a < n && 0 <= b < n ==> !g.excludes(a, b),
            numerator == denominator ==> forall|a: int, b: int|
                0 <= a < n && 0 <= b < n && a != b && (a < i || b < i) ==> g.excludes(
                    a,
                    b,
                ),
        decreases n - i,
    {
        let mut j: usize = i + 1;
        while j < n
            invariant
                g.wf(),
                g.size() == n,
                i < n,
                i < j,
                j <= n,
                denominator >= 1,
                numerator <= denominator,
                forall|a: int| 0 <= a < n ==> !g.excludes(a, a),
                numerator == 0 ==> forall|a: int, b: int|
                    0 <= a < n && 0 <= b < n ==> !g.excludes(a, b),
                numerator == denominator ==> forall|a: int, b: int|
                    0 <= a < n && 0 <= b < n && a != b && (a < i || b < i) ==> g.excludes(
                        a,
                        b,
                    ),
                numerator == denominator ==> forall|b: int|
                    i < b < j ==> g.excludes(i as int, b) && g.excludes(b, i as int),
            decreases n - j,
        {
            if random_ratio(rng, numerator, denominator) {
                g.forbid(i, j);
            }
            if random_ratio(rng, numerator, denominator) {
                g.forbid(j, i);
            }
            j += 1;
        }
        i += 1;
    }
    g
}

} // verus!
