//! The exclusion-constrained cyclic-assignment search.
//!
//! Given `n` participants (dense indices `0 .. n`) and a directed exclusion
//! graph, the search looks for an ordering of all participants in which each
//! one may give to the next and the last may give back to the first. The
//! ordering is grown at the tail; a dead end pops the tail and repairs the
//! working graph so the same dead end is not rebuilt. The completed ordering
//! is closed into a giver-to-receiver pairing.

use vstd::prelude::*;

verus! {

use vstd::seq_lib::seq_to_set_is_finite;
use vstd::set_lib::lemma_int_range;
use vstd::set_lib::lemma_len_subset;
use vstd::set_lib::lemma_subset_equality;
use vstd::set_lib::set_int_range;
use crate::exclusion::ExclusionGraph;
use crate::exclusion::contains_val;
use crate::rng::SearchRng;
use crate::rng::random_below;

/// The index after `i` in a cycle over `0 .. n`.
pub open spec fn next_index(i: int, n: int) -> int {
    if i + 1 == n {
        0
    } else {
        i + 1
    }
}

/// `x` brought back below `n`, for `0 <= x < 2n`.
spec fn wrap(x: int, n: int) -> int {
    if x < n {
        x
    } else {
        x - n
    }
}

/// Position reached after following the pairing `k` times from `s`.
pub open spec fn follow(p: Seq<usize>, s: int, k: nat) -> int
    decreases k,
{
    if k == 0 {
        s
    } else {
        let prev = follow(p, s, (k - 1) as nat);
        if 0 <= prev < p.len() {
            p[prev] as int
        } else {
            prev
        }
    }
}

/// Following the pairing from any participant comes back to that participant
/// after exactly `n` steps and not before: one cycle covers everybody.
pub open spec fn single_cycle(p: Seq<usize>) -> bool {
    &&& forall|s: int| 0 <= s < p.len() ==> follow(p, s, p.len()) == s
    &&& forall|s: int, k: nat| 0 <= s < p.len() && 1 <= k < p.len() ==> follow(p, s, k) != s
}

/// Everything a successful assignment promises: every participant gives
/// exactly once and receives exactly once, nobody gives to themselves or to
/// somebody their exclusions forbid, and the whole assignment is one cycle.
pub open spec fn valid_pairing(excl: ExclusionGraph, p: Seq<usize>) -> bool {
    &&& p.len() == excl.size()
    &&& forall|g: int| 0 <= g < p.len() ==> p[g] < p.len()
    &&& forall|g: int| 0 <= g < p.len() ==> p[g] != g
    &&& forall|g: int| 0 <= g < p.len() ==> !excl.excludes(g, p[g] as int)
    &&& forall|a: int, b: int| 0 <= a < b < p.len() ==> p[a] != p[b]
    &&& forall|r: int| 0 <= r < p.len() ==> contains_val(p, r)
    &&& single_cycle(p)
}

/// A duplicate-free sequence of `n` values below `n` holds every value below
/// `n`.
proof fn lemma_distinct_bounded_complete(s: Seq<usize>, n: int)
    requires
        s.len() == n,
        forall|i: int| 0 <= i < n ==> s[i] < n,
        forall|i: int, j: int| 0 <= i < j < n ==> s[i] != s[j],
    ensures
        forall|r: int| 0 <= r < n ==> contains_val(s, r),
{
    broadcast use seq_to_set_is_finite;

    let t = s.map_values(|x: usize| x as int);
    assert(t.no_duplicates()) by {
        assert forall|i: int, j: int|
            0 <= i < t.len() && 0 <= j < t.len() && i != j implies t[i] != t[j] by {
            if i < j {
                assert(s[i] != s[j]);
            } else {
                assert(s[j] != s[i]);
            }
        }
    }
    t.unique_seq_to_set();
    assert(t.to_set().subset_of(set_int_range(0, n))) by {
        assert forall|e: int| t.to_set().contains(e) implies set_int_range(0, n).contains(e) by {
            let i = choose|i: int| 0 <= i < t.len() && t[i] == e;
            assert(s[i] < n);
        }
    }
    lemma_int_range(0, n);
    lemma_subset_equality(t.to_set(), set_int_range(0, n));
    assert forall|r: int| 0 <= r < n implies contains_val(s, r) by {
        assert(set_int_range(0, n).contains(r));
        assert(t.to_set().contains(r));
        let i = choose|i: int| 0 <= i < t.len() && t[i] == r;
        assert(s[i] == r);
    }
}

/// A duplicate-free sequence of fewer than `n` values below `n` misses some
/// value below `n`.
proof fn lemma_distinct_bounded_misses_one(s: Seq<usize>, n: int)
    requires
        s.len() < n,
        forall|i: int| 0 <= i < s.len() ==> s[i] < n,
    ensures
        exists|r: int| 0 <= r < n && !contains_val(s, r),
{
    broadcast use seq_to_set_is_finite;

    let t = s.map_values(|x: usize| x as int);
    if forall|r: int| 0 <= r < n ==> contains_val(s, r) {
        assert(set_int_range(0, n).subset_of(t.to_set())) by {
            assert forall|e: int| set_int_range(0, n).contains(e) implies t.to_set().contains(
                e,
            ) by {
                assert(contains_val(s, e));
                let i = choose|i: int| 0 <= i < s.len() && s[i] == e;
                assert(t[i] == e);
            }
        }
        lemma_int_range(0, n);
        lemma_len_subset(set_int_range(0, n), t.to_set());
        t.lemma_cardinality_of_set();
        assert(false);
    }
}

/// Following the closed pairing `k` steps from the participant at position
/// `i` of the ordering lands on the participant at position `i + k`, counted
/// around the cycle.
proof fn lemma_follow_ordering(p: Seq<usize>, order: Seq<usize>, i: int, k: nat)
    requires
        p.len() == order.len(),
        order.len() >= 1,
        forall|j: int| 0 <= j < order.len() ==> order[j] < order.len(),
        forall|j: int| 0 <= j < order.len() ==> p[order[j] as int] == order[next_index(
            j,
            order.len() as int,
        )],
        0 <= i < order.len(),
        k <= order.len(),
    ensures
        follow(p, order[i] as int, k) == order[wrap(i + k, order.len() as int)] as int,
    decreases k,
{
    let n = order.len() as int;
    if k > 0 {
        lemma_follow_ordering(p, order, i, (k - 1) as nat);
        let j = wrap(i + k - 1, n);
        assert(follow(p, order[i] as int, (k - 1) as nat) == order[j] as int);
        assert(p[order[j] as int] == order[next_index(j, n)]);
        assert(next_index(j, n) == wrap(i + k, n));
    }
}

/// Close a completed ordering into the final pairing: each participant gives
/// to the next one in the ordering, and the last gives back to the first.
pub fn close_cycle(order: &Vec<usize>) -> (p: Vec<usize>)
    requires
        order@.len() >= 1,
        forall|i: int| 0 <= i < order@.len() ==> order@[i] < order@.len(),
        forall|i: int, j: int| 0 <= i < j < order@.len() ==> order@[i] != order@[j],
    ensures
        p@.len() == order@.len(),
        forall|i: int|
            0 <= i < order@.len() ==> p@[order@[i] as int] == order@[next_index(
                i,
                order@.len() as int,
            )],
{
    let n = order.len();
    let mut p: Vec<usize> = Vec::new();
    let mut i: usize = 0;
    while i < n
        invariant
            i <= n,
            p@.len() == i,
        decreases n - i,
    {
        p.push(0);
        i += 1;
    }
    let mut i: usize = 0;
    while i < n
        invariant
            i <= n,
            n == order@.len(),
            p@.len() == n,
            forall|j: int| 0 <= j < order@.len() ==> order@[j] < order@.len(),
            forall|a: int, b: int| 0 <= a < b < order@.len() ==> order@[a] != order@[b],
            forall|j: int|
                0 <= j < i ==> p@[order@[j] as int] == order@[next_index(j, order@.len() as int)],
        decreases n - i,
    {
        let giver = order[i];
        let receiver = if i + 1 == n {
            order[0]
        } else {
            order[i + 1]
        };
        p[giver] = receiver;
        proof {
            assert forall|j: int|
                0 <= j < i + 1 implies p@[order@[j] as int] == order@[next_index(
                j,
                order@.len() as int,
            )] by {
                if j < i {
                    assert(order@[j] != order@[i as int]);
                }
            }
        }
        i += 1;
    }
    p
}

/// No ordered pair of distinct participants is excluded.
pub open spec fn no_exclusions(excl: ExclusionGraph) -> bool {
    forall|g: int, j: int|
        0 <= g < excl.size() && 0 <= j < excl.size() && g != j ==> !excl.excludes(g, j)
}

/// Participant `g` has every other participant in its forbidden set.
pub open spec fn excludes_all_others(excl: ExclusionGraph, g: int) -> bool {
    forall|j: int| 0 <= j < excl.size() && j != g ==> excl.excludes(g, j)
}

/// Some participant has nobody left to give to.
pub open spec fn somebody_excludes_everybody(excl: ExclusionGraph) -> bool {
    exists|g: int| 0 <= g < excl.size() && excludes_all_others(excl, g)
}

/// `j` could be placed after the current giver: still unplaced, not forbidden
/// by the working graph and, when the placement would complete the ordering,
/// allowed to give back to the start.
spec fn candidate(
    work: ExclusionGraph,
    excl: ExclusionGraph,
    unassigned: Seq<bool>,
    giver: int,
    start: int,
    last_slot: bool,
    j: int,
) -> bool {
    &&& unassigned[j]
    &&& !work.excludes(giver, j)
    &&& (last_slot ==> !excl.excludes(j, start))
}

/// Closing a duplicate-free complete ordering whose consecutive steps (and
/// wrap-around step) are all allowed yields a valid pairing.
proof fn lemma_ordering_to_pairing(excl: ExclusionGraph, order: Seq<usize>, p: Seq<usize>)
    requires
        order.len() == excl.size(),
        order.len() >= 2,
        forall|i: int| 0 <= i < order.len() ==> order[i] < order.len(),
        forall|i: int, j: int| 0 <= i < j < order.len() ==> order[i] != order[j],
        forall|i: int|
            #![trigger order[i]]
            0 <= i < order.len() - 1 ==> !excl.excludes(order[i] as int, order[i + 1] as int),
        !excl.excludes(order[order.len() - 1] as int, order[0] as int),
        p.len() == order.len(),
        forall|i: int|
            0 <= i < order.len() ==> p[order[i] as int] == order[next_index(
                i,
                order.len() as int,
            )],
    ensures
        valid_pairing(excl, p),
{
    let n = order.len() as int;
    lemma_distinct_bounded_complete(order, n);
    assert forall|g: int| 0 <= g < n implies p[g] < p.len() && p[g] != g && !excl.excludes(
        g,
        p[g] as int,
    ) by {
        assert(contains_val(order, g));
        let i = choose|i: int| 0 <= i < order.len() && order[i] == g;
        let ni = next_index(i, n);
        assert(p[g] == order[ni]);
        if order[ni] == order[i] {
            if i < ni {
                assert(order[i] != order[ni]);
            } else if ni < i {
                assert(order[ni] != order[i]);
            }
        }
    }
    assert forall|a: int, b: int| 0 <= a < b < n implies p[a] != p[b] by {
        assert(contains_val(order, a));
        assert(contains_val(order, b));
        let ia = choose|i: int| 0 <= i < order.len() && order[i] == a;
        let ib = choose|i: int| 0 <= i < order.len() && order[i] == b;
        if p[a] == p[b] {
            let na = next_index(ia, n);
            let nb = next_index(ib, n);
            assert(order[na] == order[nb]);
            if na < nb {
                assert(order[na] != order[nb]);
            } else if nb < na {
                assert(order[nb] != order[na]);
            }
            assert(na == nb);
            assert(ia == ib);
        }
    }
    assert forall|r: int| 0 <= r < n implies contains_val(p, r) by {
        assert(contains_val(order, r));
        let i = choose|i: int| 0 <= i < order.len() && order[i] == r;
        let ip = if i == 0 {
            n - 1
        } else {
            i - 1
        };
        assert(next_index(ip, n) == i);
        assert(p[order[ip] as int] == order[i]);
        assert(order[ip] < p.len());
        assert(p[order[ip] as int] == r);
    }
    assert forall|s: int| 0 <= s < p.len() implies follow(p, s, p.len()) == s by {
        assert(contains_val(order, s));
        let i = choose|i: int| 0 <= i < order.len() && order[i] == s;
        lemma_follow_ordering(p, order, i, order.len());
        assert(wrap(i + n, n) == i);
    }
    assert forall|s: int, k: nat| 0 <= s < p.len() && 1 <= k < p.len() implies follow(p, s, k)
        != s by {
        assert(contains_val(order, s));
        let i = choose|i: int| 0 <= i < order.len() && order[i] == s;
        lemma_follow_ordering(p, order, i, k);
        let w = wrap(i + k, n);
        assert(w != i);
        if w < i {
            assert(order[w] != order[i]);
        } else {
            assert(order[i] != order[w]);
        }
    }
}

/// A valid pairing settles the two-participant case: both directions of the
/// only possible pair must have been allowed.
proof fn lemma_valid_pairing_two(excl: ExclusionGraph, p: Seq<usize>)
    requires
        valid_pairing(excl, p),
        excl.size() == 2,
    ensures
        !excl.excludes(0, 1),
        !excl.excludes(1, 0),
{
    assert(p[0] == 1 && p[1] == 0);
    assert(!excl.excludes(0, p[0] as int));
    assert(!excl.excludes(1, p[1] as int));
}

/// No valid pairing exists when some participant excludes everybody else.
proof fn lemma_valid_pairing_needs_receiver(excl: ExclusionGraph, p: Seq<usize>)
    requires
        valid_pairing(excl, p),
    ensures
        !somebody_excludes_everybody(excl),
{
    if somebody_excludes_everybody(excl) {
        let g = choose|g: int| 0 <= g < excl.size() && excludes_all_others(excl, g);
        assert(p[g] != g);
        assert(p[g] < p.len());
        assert(excl.excludes(g, p[g] as int));
        assert(!excl.excludes(g, p[g] as int));
        assert(false);
    }
}

/// What the completed search hands back to its caller: the closed ordering
/// is a valid pairing, which also settles the two-participant case and rules
/// out a participant who excludes everybody.
proof fn lemma_completed_search(
    excl: ExclusionGraph,
    work: ExclusionGraph,
    order: Seq<usize>,
    p: Seq<usize>,
)
    requires
        order.len() == excl.size(),
        order.len() >= 2,
        work.size() == excl.size(),
        forall|a: int, b: int|
            0 <= a < excl.size() && 0 <= b < excl.size() && excl.excludes(a, b)
                ==> work.excludes(a, b),
        forall|i: int| 0 <= i < order.len() ==> order[i] < order.len(),
        forall|i: int, j: int| 0 <= i < j < order.len() ==> order[i] != order[j],
        forall|i: int|
            #![trigger order[i]]
            0 <= i < order.len() - 1 ==> !work.excludes(order[i] as int, order[i + 1] as int),
        !excl.excludes(order[order.len() - 1] as int, order[0] as int),
        p.len() == order.len(),
        forall|i: int|
            0 <= i < order.len() ==> p[order[i] as int] == order[next_index(
                i,
                order.len() as int,
            )],
    ensures
        valid_pairing(excl, p),
        excl.size() == 2 ==> (!excl.excludes(0, 1) && !excl.excludes(1, 0)),
        !somebody_excludes_everybody(excl),
{
    assert forall|i: int|
        #![trigger order[i]]
        0 <= i < order.len() - 1 implies !excl.excludes(order[i] as int, order[i + 1] as int) by {}
    lemma_ordering_to_pairing(excl, order, p);
    if excl.size() == 2 {
        lemma_valid_pairing_two(excl, p);
    }
    lemma_valid_pairing_needs_receiver(excl, p);
}

/// The participant with the most recorded exclusions, earliest index winning
/// ties; fixing the most constrained participant first keeps infeasibility
/// from surfacing only deep in the search.
fn pick_start(excl: &ExclusionGraph) -> (s: usize)
    requires
        excl.wf(),
        excl.size() >= 1,
    ensures
        s < excl.size(),
        forall|i: int| 0 <= i < excl.size() ==> excl.row_count(i) <= excl.row_count(s as int),
        forall|i: int| 0 <= i < s ==> excl.row_count(i) < excl.row_count(s as int),
{
    let n = excl.len();
    let mut best: usize = 0;
    let mut best_count = excl.forbidden_count(0);
    let mut i: usize = 1;
    while i < n
        invariant
            excl.wf(),
            n == excl.size(),
            1 <= i <= n,
            best < i,
            best_count == excl.row_count(best as int),
            forall|j: int| 0 <= j < i ==> excl.row_count(j) <= excl.row_count(best as int),
            forall|j: int| 0 <= j < best ==> excl.row_count(j) < excl.row_count(best as int),
        decreases n - i,
    {
        let c = excl.forbidden_count(i);
        if c > best_count {
            best = i;
            best_count = c;
        }
        i += 1;
    }
    best
}

/// Search for a single gift-giving cycle over all participants of the graph.
///
/// The caller's graph is only read; dead-end repairs go to a private working
/// copy, so the same graph can be handed to as many runs as desired. Sizes
/// zero and one are failures by policy (with one participant there is nobody
/// to give to); with exactly two participants the pair giving to each other
/// is accepted exactly when neither direction is excluded. A `None` means no
/// cycle was found under this search strategy.
#[verifier::rlimit(100)]
pub fn generate_secret_santa(excl: &ExclusionGraph, rng: &mut SearchRng) -> (result: Option<
    Vec<usize>,
>)
    requires
        excl.wf(),
    ensures
        result matches Some(p) ==> valid_pairing(*excl, p@),
        excl.size() < 2 ==> result is None,
        excl.size() == 2 ==> (result is Some <==> (!excl.excludes(0, 1) && !excl.excludes(1, 0))),
        excl.size() >= 2 && no_exclusions(*excl) ==> result is Some,
        somebody_excludes_everybody(*excl) ==> result is None,
{
    let n = excl.len();
    if n < 2 {
        return None;
    }
    let mut work = excl.duplicate();
    let start = pick_start(excl);

    let mut stack: Vec<usize> = Vec::new();
    stack.push(start);

    let mut unassigned: Vec<bool> = Vec::new();
    let mut j: usize = 0;
    while j < n
        invariant
            j <= n,
            unassigned@.len() == j,
            forall|k: int| 0 <= k < j ==> unassigned@[k],
        decreases n - j,
    {
        unassigned.push(true);
        j += 1;
    }
    unassigned[start] = false;

    proof {
        assert forall|jj: int| 0 <= jj < n implies (unassigned@[jj] <==> !contains_val(
            stack@,
            jj,
        )) by {
            if jj == start {
                assert(stack@[0] == start);
                assert(contains_val(stack@, jj));
            }
        }
        work.lemma_total_bound();
    }

    while stack.len() < n
        invariant
            n == excl.size(),
            n >= 2,
            excl.wf(),
            work.wf(),
            work.size() == n,
            work.total_excluded() <= (n as int) * (n as int),
            forall|a: int, b: int|
                0 <= a < n && 0 <= b < n && excl.excludes(a, b) ==> work.excludes(a, b),
            start < n,
            1 <= stack@.len() <= n,
            stack@[0] == start,
            forall|i: int| 0 <= i < stack@.len() ==> stack@[i] < n,
            forall|i: int, k: int| 0 <= i < k < stack@.len() ==> stack@[i] != stack@[k],
            unassigned@.len() == n,
            forall|jj: int| 0 <= jj < n ==> (unassigned@[jj] <==> !contains_val(stack@, jj)),
            forall|i: int|
                #![trigger stack@[i]]
                0 <= i < stack@.len() - 1 ==> !work.excludes(
                    stack@[i] as int,
                    stack@[i + 1] as int,
                ),
            stack@.len() == n ==> !excl.excludes(
                stack@[n - 1] as int,
                stack@[0] as int,
            ),
            no_exclusions(*excl) ==> forall|a: int, b: int|
                0 <= a < n && 0 <= b < n && a != b ==> !work.excludes(a, b),
            n == 2 ==> forall|a: int, b: int|
                0 <= a < n && 0 <= b < n ==> work.excludes(a, b) == excl.excludes(a, b),
        decreases
                (n as int) * (n as int) - work.total_excluded(),
                n + 1 - stack@.len(),
    {
        let giver = stack[stack.len() - 1];
        let last_slot = stack.len() == n - 1;

        let mut available: Vec<usize> = Vec::new();
        let mut j: usize = 0;
        while j < n
            invariant
                n == excl.size(),
                excl.wf(),
                work.wf(),
                work.size() == n,
                giver < n,
                start < n,
                unassigned@.len() == n,
                j <= n,
                forall|k: int| 0 <= k < available@.len() ==> available@[k] < n,
                forall|k: int|
                    #![trigger available@[k]]
                    0 <= k < available@.len() ==> candidate(
                        work,
                        *excl,
                        unassigned@,
                        giver as int,
                        start as int,
                        last_slot,
                        available@[k] as int,
                    ),
                forall|jj: int|
                    0 <= jj < j && candidate(
                        work,
                        *excl,
                        unassigned@,
                        giver as int,
                        start as int,
                        last_slot,
                        jj,
                    ) ==> contains_val(available@, jj),
            decreases n - j,
        {
            if unassigned[j] && !work.is_forbidden(giver, j) && (!last_slot
                || !excl.is_forbidden(j, start)) {
                let ghost before = available@;
                available.push(j);
                proof {
                    assert(available@[before.len() as int] == j);
                    assert forall|jj: int|
                        0 <= jj < j + 1 && candidate(
                            work,
                            *excl,
                            unassigned@,
                            giver as int,
                            start as int,
                            last_slot,
                            jj,
                        ) implies contains_val(available@, jj) by {
                        if jj < j {
                            assert(contains_val(before, jj));
                            let i = choose|i: int| 0 <= i < before.len() && before[i] == jj;
                            assert(available@[i] == before[i]);
                            assert(available@[i] == jj);
                        } else {
                            assert(available@[before.len() as int] == jj);
                        }
                    }
                }
            }
            j += 1;
        }

        if available.len() > 0 {
            let k = random_below(rng, available.len());
            let chosen = available[k];
            let ghost stack_before = stack@;
            proof {
                assert(candidate(
                    work,
                    *excl,
                    unassigned@,
                    giver as int,
                    start as int,
                    last_slot,
                    chosen as int,
                ));
            }
            stack.push(chosen);
            unassigned[chosen] = false;
            proof {
                let len = stack@.len();
                assert(stack@[len - 1] == chosen);
                assert(stack@[len - 2] == giver);
                assert forall|jj: int| 0 <= jj < n implies (unassigned@[jj] <==> !contains_val(
                    stack@,
                    jj,
                )) by {
                    if jj == chosen {
                        assert(contains_val(stack@, jj));
                    } else {
                        if contains_val(stack@, jj) {
                            let i = choose|i: int| 0 <= i < stack@.len() && stack@[i] == jj;
                            assert(i < len - 1);
                            assert(stack_before[i] == jj);
                            assert(contains_val(stack_before, jj));
                        }
                        if contains_val(stack_before, jj) {
                            let i = choose|i: int|
                                0 <= i < stack_before.len() && stack_before[i] == jj;
                            assert(stack@[i] == jj);
                            assert(contains_val(stack@, jj));
                        }
                    }
                }
                assert(!contains_val(stack_before, chosen as int));
                assert forall|i: int, k2: int| 0 <= i < k2 < stack@.len() implies stack@[i]
                    != stack@[k2] by {
                    if k2 == len - 1 {
                        assert(stack@[i] == stack_before[i]);
                    }
                }
            }
        } else {
            proof {
                // No candidate at all: with an exclusion-free graph this is
                // impossible, and with two participants it pins down which
                // direction is blocked.
                assert(contains_val(stack@, giver as int)) by {
                    assert(stack@[stack@.len() - 1] == giver);
                }
                assert(contains_val(stack@, start as int)) by {
                    assert(stack@[0] == start);
                }
                if no_exclusions(*excl) {
                    lemma_distinct_bounded_misses_one(stack@, n as int);
                    let jj = choose|r: int| 0 <= r < n && !contains_val(stack@, r);
                    assert(unassigned@[jj]);
                    assert(candidate(
                        work,
                        *excl,
                        unassigned@,
                        giver as int,
                        start as int,
                        last_slot,
                        jj,
                    ));
                    assert(contains_val(available@, jj));
                    assert(false);
                }
                if n == 2 {
                    let other: int = if start == 0 {
                        1
                    } else {
                        0
                    };
                    assert(!contains_val(stack@, other));
                    assert(unassigned@[other]);
                    assert(!candidate(
                        work,
                        *excl,
                        unassigned@,
                        giver as int,
                        start as int,
                        last_slot,
                        other,
                    )) by {
                        if candidate(
                            work,
                            *excl,
                            unassigned@,
                            giver as int,
                            start as int,
                            last_slot,
                            other,
                        ) {
                            assert(contains_val(available@, other));
                            assert(false);
                        }
                    }
                    assert(giver == start);
                    assert(excl.excludes(start as int, other) || excl.excludes(
                        other,
                        start as int,
                    ));
                    assert(!(!excl.excludes(0, 1) && !excl.excludes(1, 0)));
                }
            }
            let ghost stack_before = stack@;
            let popped = stack.pop().unwrap();
            unassigned[popped] = true;
            proof {
                assert(stack_before[stack_before.len() - 1] == popped);
                assert(!contains_val(stack@, popped as int)) by {
                    if contains_val(stack@, popped as int) {
                        let i = choose|i: int| 0 <= i < stack@.len() && stack@[i] == popped;
                        assert(stack_before[i] == popped);
                        assert(false);
                    }
                }
                assert forall|jj: int| 0 <= jj < n implies (unassigned@[jj] <==> !contains_val(
                    stack@,
                    jj,
                )) by {
                    if jj != popped {
                        if contains_val(stack@, jj) {
                            let i = choose|i: int| 0 <= i < stack@.len() && stack@[i] == jj;
                            assert(stack_before[i] == jj);
                            assert(contains_val(stack_before, jj));
                        }
                        if contains_val(stack_before, jj) {
                            let i = choose|i: int|
                                0 <= i < stack_before.len() && stack_before[i] == jj;
                            assert(i < stack@.len());
                            assert(stack@[i] == jj);
                            assert(contains_val(stack@, jj));
                        }
                    }
                }
            }
            if stack.len() == 0 {
                return None;
            }
            let ghost work_entry = work;
            let ghost below = stack@[stack@.len() - 1] as int;
            proof {
                assert(stack_before[stack_before.len() - 2] == stack@[stack@.len() - 1]);
                assert(!work_entry.excludes(below, popped as int));
            }
            let mut i2: usize = 0;
            while i2 < n
                invariant
                    work.wf(),
                    work.size() == n,
                    work_entry.wf(),
                    work_entry.size() == n,
                    i2 <= n,
                    popped < n,
                    0 <= below < n,
                    !work_entry.excludes(below, popped as int),
                    forall|a: int, b: int|
                        0 <= a < n && 0 <= b < n ==> work.excludes(a, b) == (work_entry.excludes(
                            a,
                            b,
                        ) || (b == popped && a < i2)),
                    work.total_excluded() >= work_entry.total_excluded() + if below < i2 {
                        1nat
                    } else {
                        0nat
                    },
                decreases n - i2,
            {
                work.forbid(i2, popped);
                i2 += 1;
            }
            proof {
                work.lemma_total_bound();
                assert(work.total_excluded() >= work_entry.total_excluded() + 1);
                assert forall|i: int|
                    #![trigger stack@[i]]
                    0 <= i < stack@.len() - 1 implies !work.excludes(
                    stack@[i] as int,
                    stack@[i + 1] as int,
                ) by {
                    assert(stack@[i + 1] != popped);
                    assert(stack_before[i] == stack@[i]);
                    assert(stack_before[i + 1] == stack@[i + 1]);
                }
            }
        }
    }

    let pairing = close_cycle(&stack);
    proof {
        lemma_completed_search(*excl, work, stack@, pairing@);
    }
    Some(pairing)
}

} // verus!
