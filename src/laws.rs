//! What holds of every allocation the resolver returns.

use vstd::prelude::*;
use crate::grid::{Bid, bid_wf, bids_conflict, cells_meet};
use crate::auction::{
    Allocation, Assignment, all_wf, assignments_of, assignments_upto, best_from, better, block, blocked, feasible,
    first_difference, lemma_best_optimal, lemma_best_shape, lemma_greedy_shape, lemma_value_add, nothing, prefers,
    resolves, total_value,
};

verus! {

/// Bids of one company never share a cell.
pub open spec fn companies_disjoint(bids: Seq<Bid>) -> bool {
    forall|j: int, k: int|
        0 <= j < bids.len() && 0 <= k < bids.len() && j != k && bids[j].company == bids[k].company
            ==> !bids_conflict(#[trigger] bids[j], #[trigger] bids[k])
}

/// Bid `i` shares a cell with no other bid.
pub open spec fn isolated(bids: Seq<Bid>, i: int) -> bool {
    forall|k: int|
        0 <= k < bids.len() && k != i ==> !bids_conflict(bids[i], #[trigger] bids[k])
            && !bids_conflict(#[trigger] bids[k], bids[i])
}

/// Every assignment comes from a selected bid.
proof fn lemma_assignment_source(bids: Seq<Bid>, s: Seq<bool>, k: int, p: int)
    requires
        0 <= k <= bids.len(),
        s.len() == bids.len(),
        0 <= p < assignments_upto(bids, s, k).len(),
    ensures
        exists|j: int, q: int|
            0 <= j < k && s[j] && 0 <= q < bids[j].sections@.len()
                && assignments_upto(bids, s, k)[p] == (Assignment { section: bids[j].sections@[q], company: bids[j].company }),
    decreases k,
{
    let prev = assignments_upto(bids, s, k - 1);
    if p < prev.len() {
        lemma_assignment_source(bids, s, k - 1, p);
        let (j, q) = choose|j: int, q: int|
            0 <= j < k - 1 && s[j] && 0 <= q < bids[j].sections@.len()
                && prev[p] == (Assignment { section: bids[j].sections@[q], company: bids[j].company });
        assert(assignments_upto(bids, s, k)[p] == prev[p]);
    } else {
        let q = p - prev.len();
        assert(assignments_upto(bids, s, k)[p] == block(bids[k - 1])[q]);
    }
}

/// Every cell of a selected bid is assigned to the bid's company.
proof fn lemma_assignment_cover(bids: Seq<Bid>, s: Seq<bool>, k: int, j: int, q: int)
    requires
        0 <= j < k <= bids.len(),
        s.len() == bids.len(),
        s[j],
        0 <= q < bids[j].sections@.len(),
    ensures
        exists|p: int|
            0 <= p < assignments_upto(bids, s, k).len()
                && assignments_upto(bids, s, k)[p] == (Assignment { section: bids[j].sections@[q], company: bids[j].company }),
    decreases k,
{
    let prev = assignments_upto(bids, s, k - 1);
    if j < k - 1 {
        lemma_assignment_cover(bids, s, k - 1, j, q);
        let p = choose|p: int|
            0 <= p < prev.len() && prev[p] == (Assignment { section: bids[j].sections@[q], company: bids[j].company });
        assert(assignments_upto(bids, s, k)[p] == prev[p]);
    } else {
        assert(assignments_upto(bids, s, k)[prev.len() + q] == block(bids[j])[q]);
    }
}

/// A feasible selection of well-formed bids assigns no cell twice.
proof fn lemma_assignments_distinct(bids: Seq<Bid>, s: Seq<bool>, k: int)
    requires
        0 <= k <= bids.len(),
        all_wf(bids),
        feasible(bids, s),
    ensures
        forall|p: int, q: int|
            0 <= p < q < assignments_upto(bids, s, k).len() ==> (#[trigger] assignments_upto(bids, s, k)[p]).section
                != (#[trigger] assignments_upto(bids, s, k)[q]).section,
    decreases k,
{
    if k > 0 {
        lemma_assignments_distinct(bids, s, k - 1);
        let prev = assignments_upto(bids, s, k - 1);
        let all = assignments_upto(bids, s, k);
        assert forall|p: int, q: int| 0 <= p < q < all.len() implies (#[trigger] all[p]).section != (#[trigger] all[q]).section by {
            if q < prev.len() {
                assert(all[p] == prev[p] && all[q] == prev[q]);
            } else if p >= prev.len() {
                assert(bid_wf(bids[k - 1]));
                assert(all[p] == block(bids[k - 1])[p - prev.len()]);
                assert(all[q] == block(bids[k - 1])[q - prev.len()]);
            } else {
                assert(all[p] == prev[p]);
                assert(all[q] == block(bids[k - 1])[q - prev.len()]);
                lemma_assignment_source(bids, s, k - 1, p);
                let (j, x) = choose|j: int, x: int|
                    0 <= j < k - 1 && s[j] && 0 <= x < bids[j].sections@.len()
                        && prev[p] == (Assignment { section: bids[j].sections@[x], company: bids[j].company });
                if all[p].section == all[q].section {
                    assert(cells_meet(bids[j].sections@, bids[k - 1].sections@));
                }
            }
        }
    }
}

/// The selection behind every allocation the resolver returns is feasible.
proof fn lemma_resolved_feasible(bids: Seq<Bid>, a: Allocation)
    requires
        resolves(bids, a),
    ensures
        feasible(bids, a.accepted@),
{
    lemma_best_shape(bids, 0, nothing(bids.len()));
    lemma_greedy_shape(bids, 0, nothing(bids.len()));
}

/// Exclusivity: no allocation that the resolver returns assigns a cell twice,
/// whether to two companies or to one.
pub proof fn law_exclusive(bids: Seq<Bid>, a: Allocation)
    requires
        all_wf(bids),
        resolves(bids, a),
    ensures
        forall|p: int, q: int|
            0 <= p < q < a.assignments@.len() ==> (#[trigger] a.assignments@[p]).section
                != (#[trigger] a.assignments@[q]).section,
{
    lemma_resolved_feasible(bids, a);
    lemma_assignments_distinct(bids, a.accepted@, bids.len() as int);
}

/// Atomicity: each cell of an accepted bid is assigned to the bid's company;
/// where a company's own bids never overlap, no cell of a rejected bid is
/// assigned to that bid's company.
pub proof fn law_atomic(bids: Seq<Bid>, a: Allocation, i: int)
    requires
        resolves(bids, a),
        0 <= i < bids.len(),
    ensures
        a.accepted@[i] ==> forall|q: int|
            0 <= q < bids[i].sections@.len() ==> a.owner_of(#[trigger] bids[i].sections@[q], bids[i].company),
        !a.accepted@[i] && companies_disjoint(bids) ==> forall|p: int, q: int|
            0 <= p < a.assignments@.len() && 0 <= q < bids[i].sections@.len() ==> #[trigger] a.assignments@[p]
                != (Assignment { section: #[trigger] bids[i].sections@[q], company: bids[i].company }),
{
    let s = a.accepted@;
    let n = bids.len() as int;
    lemma_resolved_feasible(bids, a);
    if s[i] {
        assert forall|q: int| 0 <= q < bids[i].sections@.len() implies a.owner_of(#[trigger] bids[i].sections@[q], bids[i].company) by {
            lemma_assignment_cover(bids, s, n, i, q);
        }
    }
    if !s[i] && companies_disjoint(bids) {
        assert forall|p: int, q: int|
            0 <= p < a.assignments@.len() && 0 <= q < bids[i].sections@.len() implies #[trigger] a.assignments@[p]
                != (Assignment { section: #[trigger] bids[i].sections@[q], company: bids[i].company }) by {
            lemma_assignment_source(bids, s, n, p);
            let (j, x) = choose|j: int, x: int|
                0 <= j < n && s[j] && 0 <= x < bids[j].sections@.len()
                    && assignments_of(bids, s)[p] == (Assignment { section: bids[j].sections@[x], company: bids[j].company });
            if a.assignments@[p] == (Assignment { section: bids[i].sections@[q], company: bids[i].company }) {
                assert(cells_meet(bids[i].sections@, bids[j].sections@));
                assert(!bids_conflict(bids[i], bids[j]));
            }
        }
    }
}

/// Optimality: an exact result accepts a feasible set of bids, and no
/// feasible set of bids is worth more.
pub proof fn law_optimal(bids: Seq<Bid>, a: Allocation, t: Seq<bool>)
    requires
        resolves(bids, a),
        a.exact,
        feasible(bids, t),
    ensures
        feasible(bids, a.accepted@),
        a.total == total_value(bids, a.accepted@),
        total_value(bids, t) <= a.total,
{
    lemma_resolved_feasible(bids, a);
    lemma_best_optimal(bids, 0, nothing(bids.len()), t);
}

/// A bid of positive amount that shares a cell with no other bid is accepted
/// by an exact result.
proof fn lemma_isolated_accepted(bids: Seq<Bid>, a: Allocation, i: int)
    requires
        resolves(bids, a),
        a.exact,
        0 <= i < bids.len(),
        isolated(bids, i),
        bids[i].amount > 0,
    ensures
        a.accepted@[i],
{
    let w = a.accepted@;
    lemma_resolved_feasible(bids, a);
    if !w[i] {
        let u = w.update(i, true);
        assert forall|j: int, k: int|
            0 <= j < k < bids.len() && u[j] && u[k] implies !bids_conflict(#[trigger] bids[j], #[trigger] bids[k]) by {
            if j != i && k != i {
                assert(w[j] && w[k]);
            }
        }
        lemma_value_add(bids, w, i);
        lemma_best_optimal(bids, 0, nothing(bids.len()), u);
    }
}

/// No unnecessary rejection: two bids of positive amount that share no cell
/// with each other, nor with any other bid, are both accepted by an exact
/// result.
pub proof fn law_disjoint_accepted(bids: Seq<Bid>, a: Allocation, i: int, j: int)
    requires
        resolves(bids, a),
        a.exact,
        0 <= i < bids.len(),
        0 <= j < bids.len(),
        isolated(bids, i),
        isolated(bids, j),
        bids[i].amount > 0,
        bids[j].amount > 0,
    ensures
        a.accepted@[i],
        a.accepted@[j],
{
    lemma_isolated_accepted(bids, a, i);
    lemma_isolated_accepted(bids, a, j);
}

/// Determinism: two exact results on the same bids are identical.
pub proof fn law_deterministic(bids: Seq<Bid>, a: Allocation, b: Allocation)
    requires
        resolves(bids, a),
        resolves(bids, b),
        a.exact,
        b.exact,
    ensures
        a.accepted@ == b.accepted@,
        a.assignments@ == b.assignments@,
        a.total == b.total,
{
}

/// The (company, submission position) key of bid `a` is at most that of bid `b`.
pub open spec fn key_le(bids: Seq<Bid>, a: int, b: int) -> bool {
    bids[a].company < bids[b].company || (bids[a].company == bids[b].company && a <= b)
}

/// `m` is the position of smallest key among those below `n` where `s` and
/// `t` differ.
pub open spec fn least_difference(bids: Seq<Bid>, s: Seq<bool>, t: Seq<bool>, n: int, m: int) -> bool {
    &&& 0 <= m < n
    &&& s[m] != t[m]
    &&& forall|k: int| 0 <= k < n && s[k] != t[k] ==> key_le(bids, m, k)
}

/// `first_difference` finds the differing position of smallest key, and
/// finds none exactly where the selections agree.
proof fn lemma_first_difference(bids: Seq<Bid>, s: Seq<bool>, t: Seq<bool>, n: int)
    requires
        0 <= n <= bids.len(),
        s.len() == bids.len(),
        t.len() == bids.len(),
    ensures
        first_difference(bids, s, t, n) == -1 ==> forall|k: int| 0 <= k < n ==> s[k] == t[k],
        first_difference(bids, s, t, n) != -1 ==> least_difference(bids, s, t, n, first_difference(bids, s, t, n)),
    decreases n,
{
    if n > 0 {
        lemma_first_difference(bids, s, t, n - 1);
    }
}

/// The differing position of smallest key is unique.
proof fn lemma_least_unique(bids: Seq<Bid>, s: Seq<bool>, t: Seq<bool>, n: int, x: int)
    requires
        0 <= n <= bids.len(),
        s.len() == bids.len(),
        t.len() == bids.len(),
        least_difference(bids, s, t, n, x),
    ensures
        first_difference(bids, s, t, n) == x,
{
    lemma_first_difference(bids, s, t, n);
    let m = first_difference(bids, s, t, n);
    assert(s[x] != t[x]);
    assert(key_le(bids, m, x) && key_le(bids, x, m));
}

/// Of two distinct selections, one is preferred to the other.
proof fn lemma_prefers_total(bids: Seq<Bid>, s: Seq<bool>, t: Seq<bool>)
    requires
        s.len() == bids.len(),
        t.len() == bids.len(),
        s != t,
    ensures
        prefers(bids, s, t) || prefers(bids, t, s),
{
    let n = bids.len() as int;
    lemma_first_difference(bids, s, t, n);
    if first_difference(bids, s, t, n) == -1 {
        assert(s =~= t);
    }
    let m = first_difference(bids, s, t, n);
    if !s[m] {
        lemma_least_unique(bids, t, s, n, m);
    }
}

/// Preference is transitive.
proof fn lemma_prefers_transitive(bids: Seq<Bid>, s: Seq<bool>, t: Seq<bool>, u: Seq<bool>)
    requires
        s.len() == bids.len(),
        t.len() == bids.len(),
        u.len() == bids.len(),
        prefers(bids, s, t),
        prefers(bids, t, u),
    ensures
        prefers(bids, s, u),
{
    let n = bids.len() as int;
    lemma_first_difference(bids, s, t, n);
    lemma_first_difference(bids, t, u, n);
    let a = first_difference(bids, s, t, n);
    let b = first_difference(bids, t, u, n);
    if key_le(bids, a, b) {
        assert(a != b);
        assert(u[a] == t[a]);
        assert forall|k: int| 0 <= k < n && s[k] != u[k] implies key_le(bids, a, k) by {
            if !key_le(bids, a, k) {
                assert(s[k] == t[k]);
                assert(t[k] == u[k]);
            }
        }
        lemma_least_unique(bids, s, u, n, a);
    } else {
        assert(s[b] == t[b]);
        assert forall|k: int| 0 <= k < n && s[k] != u[k] implies key_le(bids, b, k) by {
            if !key_le(bids, b, k) {
                assert(s[k] == t[k]);
                assert(t[k] == u[k]);
            }
        }
        lemma_least_unique(bids, s, u, n, b);
    }
}

/// The chosen completion of `s` is preferred to every other feasible
/// completion of equal value.
proof fn lemma_best_preferred(bids: Seq<Bid>, i: int, s: Seq<bool>, t: Seq<bool>)
    requires
        0 <= i <= bids.len(),
        s.len() == bids.len(),
        forall|k: int| i <= k < s.len() ==> !s[k],
        t.len() == bids.len(),
        forall|k: int| 0 <= k < i ==> s[k] == t[k],
        feasible(bids, t),
        total_value(bids, t) == total_value(bids, best_from(bids, i, s)),
        t != best_from(bids, i, s),
    ensures
        prefers(bids, best_from(bids, i, s), t),
    decreases bids.len() - i,
{
    if i == bids.len() {
        assert(t =~= s);
    } else {
        let ex = best_from(bids, i + 1, s);
        let u = s.update(i, true);
        lemma_best_shape(bids, i + 1, s);
        if blocked(bids, s, i) {
            if t[i] {
                let j = choose|j: int| 0 <= j < i && s[j] && #[trigger] bids_conflict(bids[j], bids[i]);
                assert(t[j] && t[i] && bids_conflict(bids[j], bids[i]));
            }
            lemma_best_preferred(bids, i + 1, s, t);
        } else {
            let inc = best_from(bids, i + 1, u);
            lemma_best_shape(bids, i + 1, u);
            if !t[i] {
                lemma_best_optimal(bids, i + 1, s, t);
                if better(bids, inc, ex) {
                    if t != ex {
                        lemma_best_preferred(bids, i + 1, s, t);
                        lemma_prefers_transitive(bids, inc, ex, t);
                    }
                } else {
                    lemma_best_preferred(bids, i + 1, s, t);
                }
            } else {
                lemma_best_optimal(bids, i + 1, u, t);
                if better(bids, inc, ex) {
                    lemma_best_preferred(bids, i + 1, u, t);
                } else {
                    assert(inc[i] && !ex[i]);
                    lemma_prefers_total(bids, inc, ex);
                    if t != inc {
                        lemma_best_preferred(bids, i + 1, u, t);
                        lemma_prefers_transitive(bids, ex, inc, t);
                    }
                }
            }
        }
    }
}

/// Tie-break: an exact result is preferred to every other feasible selection
/// of the same value. Of the bids on which the two differ, the one with the
/// smallest (company, submission position) key is accepted by the result.
pub proof fn law_tie_break(bids: Seq<Bid>, a: Allocation, t: Seq<bool>)
    requires
        resolves(bids, a),
        a.exact,
        feasible(bids, t),
        total_value(bids, t) == a.total,
        t != a.accepted@,
    ensures
        prefers(bids, a.accepted@, t),
{
    lemma_best_preferred(bids, 0, nothing(bids.len()), t);
}

} // verus!
