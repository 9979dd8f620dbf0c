//! The auction resolver: maximum-value conflict-free selection of bids, with
//! a reproducible tie-break, and the allocation of cells that results.

use vstd::prelude::*;
use crate::grid::{
    Bid, Section, bids_conflict, bid_wf, has_duplicate, in_grid_order, lemma_meet_same_cells, sort_sections,
    sorted_overlap,
};

verus! {

// ---------------------------------------------------------------------------
// The model: selections, their value, feasibility and the preferred optimum.
// ---------------------------------------------------------------------------

/// The value of the bids that `s` selects among positions `k..`.
pub open spec fn value_from(bids: Seq<Bid>, s: Seq<bool>, k: int) -> int
    decreases bids.len() - k,
{
    if k >= bids.len() || k < 0 {
        0
    } else {
        (if s[k] { bids[k].amount as int } else { 0 }) + value_from(bids, s, k + 1)
    }
}

/// The total value of the bids that `s` selects.
pub open spec fn total_value(bids: Seq<Bid>, s: Seq<bool>) -> int {
    value_from(bids, s, 0)
}

/// The sum of the amounts of the bids at positions `k..`.
pub open spec fn amount_from(bids: Seq<Bid>, k: int) -> int
    decreases bids.len() - k,
{
    if k >= bids.len() || k < 0 {
        0
    } else {
        bids[k].amount as int + amount_from(bids, k + 1)
    }
}

/// A selection is feasible when it has one flag per bid and no two selected
/// bids conflict.
pub open spec fn feasible(bids: Seq<Bid>, s: Seq<bool>) -> bool {
    &&& s.len() == bids.len()
    &&& forall|j: int, k: int|
        0 <= j < k < bids.len() && s[j] && s[k] ==> !bids_conflict(#[trigger] bids[j], #[trigger] bids[k])
}

/// Whether bid `i` conflicts with a bid that `s` selects before it.
pub open spec fn blocked(bids: Seq<Bid>, s: Seq<bool>, i: int) -> bool {
    exists|j: int| 0 <= j < i && s[j] && #[trigger] bids_conflict(bids[j], bids[i])
}

/// Among the positions where `s` and `t` differ, below `n`, the one whose bid
/// has the smallest (company, position) key; `-1` where they agree.
pub open spec fn first_difference(bids: Seq<Bid>, s: Seq<bool>, t: Seq<bool>, n: int) -> int
    decreases n,
{
    if n <= 0 {
        -1
    } else {
        let m = first_difference(bids, s, t, n - 1);
        if s[n - 1] != t[n - 1] && (m < 0 || bids[n - 1].company < bids[m].company) {
            n - 1
        } else {
            m
        }
    }
}

/// The tie-break: `s` is preferred to `t` when, of the bids on which they
/// differ, the one with the smallest (company, submission position) key is
/// selected by `s`.
pub open spec fn prefers(bids: Seq<Bid>, s: Seq<bool>, t: Seq<bool>) -> bool {
    let m = first_difference(bids, s, t, bids.len() as int);
    m >= 0 && s[m]
}

/// Whether `s` is chosen over `t`: greater value, or equal value and preferred.
pub open spec fn better(bids: Seq<Bid>, s: Seq<bool>, t: Seq<bool>) -> bool {
    total_value(bids, s) > total_value(bids, t)
        || (total_value(bids, s) == total_value(bids, t) && prefers(bids, s, t))
}

/// The chosen completion of `s` over the positions `i..`: each bid that is
/// not blocked is tried both ways, and the better outcome is kept.
pub open spec fn best_from(bids: Seq<Bid>, i: int, s: Seq<bool>) -> Seq<bool>
    decreases bids.len() - i,
{
    if i >= bids.len() || i < 0 {
        s
    } else {
        let ex = best_from(bids, i + 1, s);
        if blocked(bids, s, i) {
            ex
        } else {
            let inc = best_from(bids, i + 1, s.update(i, true));
            if better(bids, inc, ex) {
                inc
            } else {
                ex
            }
        }
    }
}

/// The selection of no bid.
pub open spec fn nothing(n: nat) -> Seq<bool> {
    Seq::new(n, |k: int| false)
}

/// The winning selection: the feasible selection of greatest value, ties
/// broken by `prefers`.
pub open spec fn winners(bids: Seq<Bid>) -> Seq<bool> {
    best_from(bids, 0, nothing(bids.len()))
}

/// Whether `t` agrees with `s` on the positions before `i`, and `s` selects
/// nothing from `i` on.
pub open spec fn extends_from(s: Seq<bool>, t: Seq<bool>, i: int) -> bool {
    &&& s.len() == t.len()
    &&& forall|k: int| 0 <= k < i ==> s[k] == t[k]
    &&& forall|k: int| i <= k < s.len() ==> !s[k]
}

/// No two bids selected by `s` before position `i` conflict.
pub open spec fn feasible_below(bids: Seq<Bid>, s: Seq<bool>, i: int) -> bool {
    forall|j: int, k: int|
        0 <= j < k < i && s[j] && s[k] ==> !bids_conflict(#[trigger] bids[j], #[trigger] bids[k])
}

// ---------------------------------------------------------------------------
// Lemmas on values.
// ---------------------------------------------------------------------------

/// Two selections that agree on `k..i` differ by the same amount at `k` as at `i`.
proof fn lemma_value_agree(bids: Seq<Bid>, s: Seq<bool>, t: Seq<bool>, k: int, i: int)
    requires
        0 <= k <= i <= bids.len(),
        s.len() == bids.len(),
        t.len() == bids.len(),
        forall|p: int| k <= p < i ==> s[p] == t[p],
    ensures
        value_from(bids, s, k) - value_from(bids, s, i) == value_from(bids, t, k) - value_from(bids, t, i),
    decreases i - k,
{
    if k < i {
        lemma_value_agree(bids, s, t, k + 1, i);
    }
}

/// A selection that selects nothing from `k` on has no value there.
proof fn lemma_value_none(bids: Seq<Bid>, s: Seq<bool>, k: int)
    requires
        0 <= k <= bids.len(),
        s.len() == bids.len(),
        forall|p: int| k <= p < s.len() ==> !s[p],
    ensures
        value_from(bids, s, k) == 0,
    decreases bids.len() - k,
{
    if k < bids.len() {
        lemma_value_none(bids, s, k + 1);
    }
}

/// The value selected from `k` on lies between zero and the sum of the amounts there.
proof fn lemma_value_bounded(bids: Seq<Bid>, s: Seq<bool>, k: int)
    requires
        0 <= k <= bids.len(),
    ensures
        0 <= value_from(bids, s, k) <= amount_from(bids, k),
    decreases bids.len() - k,
{
    if k < bids.len() {
        lemma_value_bounded(bids, s, k + 1);
    }
}

/// Selecting one more bid adds its amount.
pub proof fn lemma_value_add(bids: Seq<Bid>, s: Seq<bool>, i: int)
    requires
        0 <= i < bids.len(),
        s.len() == bids.len(),
        !s[i],
    ensures
        total_value(bids, s.update(i, true)) == total_value(bids, s) + bids[i].amount,
{
    let t = s.update(i, true);
    lemma_value_agree(bids, s, t, 0, i);
    lemma_value_agree(bids, s, t, i + 1, bids.len() as int);
    lemma_value_none(bids, s, bids.len() as int);
    lemma_value_none(bids, t, bids.len() as int);
}

/// The value of any completion of `s` from `i` exceeds the value of `s` by at
/// most the amounts from `i` on.
proof fn lemma_completion_bound(bids: Seq<Bid>, s: Seq<bool>, t: Seq<bool>, i: int)
    requires
        0 <= i <= bids.len(),
        s.len() == bids.len(),
        extends_from(s, t, i),
    ensures
        total_value(bids, s) <= total_value(bids, t) <= total_value(bids, s) + amount_from(bids, i),
{
    lemma_value_agree(bids, s, t, 0, i);
    lemma_value_none(bids, s, i);
    lemma_value_bounded(bids, t, i);
}

// ---------------------------------------------------------------------------
// Lemmas on the chosen completion.
// ---------------------------------------------------------------------------

/// The chosen completion extends `s`, and is feasible where `s` is.
pub proof fn lemma_best_shape(bids: Seq<Bid>, i: int, s: Seq<bool>)
    requires
        0 <= i <= bids.len(),
        s.len() == bids.len(),
        forall|k: int| i <= k < s.len() ==> !s[k],
    ensures
        extends_from(s, best_from(bids, i, s), i),
        feasible_below(bids, s, i) ==> feasible(bids, best_from(bids, i, s)),
    decreases bids.len() - i,
{
    if i < bids.len() {
        lemma_best_shape(bids, i + 1, s);
        if !blocked(bids, s, i) {
            let u = s.update(i, true);
            lemma_best_shape(bids, i + 1, u);
            if feasible_below(bids, s, i) {
                assert forall|j: int, k: int|
                    0 <= j < k < i + 1 && u[j] && u[k] implies !bids_conflict(#[trigger] bids[j], #[trigger] bids[k]) by {
                    if k == i {
                        assert(!(s[j] && bids_conflict(bids[j], bids[i])));
                    }
                }
            }
        }
    } else {
        assert(best_from(bids, i, s) == s);
    }
}

/// Every feasible completion of `s` from `i` is worth at most the chosen one.
pub proof fn lemma_best_optimal(bids: Seq<Bid>, i: int, s: Seq<bool>, t: Seq<bool>)
    requires
        0 <= i <= bids.len(),
        s.len() == bids.len(),
        forall|k: int| i <= k < s.len() ==> !s[k],
        t.len() == bids.len(),
        forall|k: int| 0 <= k < i ==> s[k] == t[k],
        feasible(bids, t),
    ensures
        total_value(bids, t) <= total_value(bids, best_from(bids, i, s)),
    decreases bids.len() - i,
{
    if i == bids.len() {
        assert(t =~= s);
    } else {
        let ex = best_from(bids, i + 1, s);
        if !t[i] {
            lemma_best_optimal(bids, i + 1, s, t);
        } else {
            let u = s.update(i, true);
            if blocked(bids, s, i) {
                let j = choose|j: int| 0 <= j < i && s[j] && #[trigger] bids_conflict(bids[j], bids[i]);
                assert(t[j] && t[i] && bids_conflict(bids[j], bids[i]));
                assert(false);
            }
            lemma_best_optimal(bids, i + 1, u, t);
        }
    }
}

// ---------------------------------------------------------------------------
// The search.
// ---------------------------------------------------------------------------

/// The outcome of a search below one node.
enum Outcome {
    /// The step budget ran out.
    Exhausted,
    /// The chosen completion is worth less than the threshold.
    Below,
    /// The chosen completion and its value.
    Found(Vec<bool>, u64),
}

/// The shared, read-only inputs of the search: the bids, their conflict
/// graph and the suffix sums of their amounts.
pub open spec fn search_inputs(bids: Seq<Bid>, conflict: Seq<Vec<bool>>, suffix: Seq<u64>) -> bool {
    &&& conflict.len() == bids.len()
    &&& forall|j: int| 0 <= j < bids.len() ==> #[trigger] conflict[j]@.len() == bids.len()
    &&& forall|j: int, k: int|
        0 <= j < bids.len() && 0 <= k < bids.len() ==> conflict[j]@[k] == bids_conflict(bids[j], bids[k])
    &&& suffix.len() == bids.len() + 1
    &&& forall|k: int| 0 <= k <= bids.len() ==> #[trigger] suffix[k] == amount_from(bids, k)
}

/// Whether bid `i` conflicts with a bid selected before it.
fn is_blocked(conflict: &Vec<Vec<bool>>, sel: &Vec<bool>, i: usize, Ghost(bids): Ghost<Seq<Bid>>) -> (r: bool)
    requires
        conflict@.len() == bids.len(),
        forall|j: int| 0 <= j < bids.len() ==> #[trigger] conflict@[j]@.len() == bids.len(),
        forall|j: int, k: int|
            0 <= j < bids.len() && 0 <= k < bids.len() ==> conflict@[j]@[k] == bids_conflict(bids[j], bids[k]),
        sel@.len() == bids.len(),
        i < bids.len(),
    ensures
        r == blocked(bids, sel@, i as int),
{
    let mut j: usize = 0;
    while j < i
        invariant
            0 <= j <= i < bids.len(),
            conflict@.len() == bids.len(),
            forall|x: int| 0 <= x < bids.len() ==> #[trigger] conflict@[x]@.len() == bids.len(),
            forall|x: int, k: int|
                0 <= x < bids.len() && 0 <= k < bids.len() ==> conflict@[x]@[k] == bids_conflict(bids[x], bids[k]),
            sel@.len() == bids.len(),
            forall|x: int| 0 <= x < j ==> !(sel@[x] && #[trigger] bids_conflict(bids[x], bids[i as int])),
        decreases i - j,
    {
        if sel[j] && conflict[j][i] {
            assert(bids_conflict(bids[j as int], bids[i as int]));
            return true;
        }
        j += 1;
    }
    false
}

/// Whether `s` is preferred to `t` by the tie-break.
fn prefers_exec(bids: &[Bid], s: &Vec<bool>, t: &Vec<bool>) -> (r: bool)
    requires
        s@.len() == bids@.len(),
        t@.len() == bids@.len(),
    ensures
        r == prefers(bids@, s@, t@),
{
    let mut m: Option<usize> = None;
    let mut k: usize = 0;
    while k < bids.len()
        invariant
            0 <= k <= bids@.len(),
            s@.len() == bids@.len(),
            t@.len() == bids@.len(),
            first_difference(bids@, s@, t@, k as int) == match m {
                Some(x) => x as int,
                None => -1,
            },
            m matches Some(x) ==> x < k,
        decreases bids.len() - k,
    {
        if s[k] != t[k] {
            match m {
                None => {
                    m = Some(k);
                },
                Some(x) => {
                    if bids[k].company < bids[x].company {
                        m = Some(k);
                    }
                },
            }
        }
        k += 1;
    }
    match m {
        Some(x) => s[x],
        None => false,
    }
}

/// Searches the completions of `sel` from position `i`, by branch and bound.
///
/// `cur` is the value of `sel`; a subtree whose value cannot reach `lb` is cut
/// off. Where `limited`, each node spends one step of `budget`.
fn search(
    bids: &[Bid],
    conflict: &Vec<Vec<bool>>,
    suffix: &Vec<u64>,
    i: usize,
    sel: &mut Vec<bool>,
    cur: u64,
    lb: u64,
    limited: bool,
    budget: &mut u64,
) -> (r: Outcome)
    requires
        search_inputs(bids@, conflict@, suffix@),
        i <= bids@.len(),
        old(sel)@.len() == bids@.len(),
        forall|k: int| i <= k < bids@.len() ==> !old(sel)@[k],
        feasible_below(bids@, old(sel)@, i as int),
        cur == total_value(bids@, old(sel)@),
        cur + suffix@[i as int] <= suffix@[0],
    ensures
        final(sel)@ == old(sel)@,
        !limited ==> !(r is Exhausted),
        match r {
            Outcome::Found(v, val) => v@ == best_from(bids@, i as int, old(sel)@) && val == total_value(bids@, v@)
                && lb <= val,
            Outcome::Below => total_value(bids@, best_from(bids@, i as int, old(sel)@)) < lb,
            Outcome::Exhausted => true,
        },
    decreases bids@.len() - i,
{
    let ghost s0 = sel@;
    let ghost b = bids@;
    if limited {
        if *budget == 0 {
            return Outcome::Exhausted;
        }
        *budget = *budget - 1;
    }
    proof {
        lemma_best_shape(b, i as int, s0);
        lemma_completion_bound(b, s0, best_from(b, i as int, s0), i as int);
    }
    if cur + suffix[i] < lb {
        return Outcome::Below;
    }
    if i == bids.len() {
        let v = sel.clone();
        assert(v@ =~= s0);
        return Outcome::Found(v, cur);
    }
    if is_blocked(conflict, sel, i, Ghost(b)) {
        return search(bids, conflict, suffix, i + 1, sel, cur, lb, limited, budget);
    }
    let a = bids[i].amount as u64;
    proof {
        assert(suffix@[i as int] == a + suffix@[i + 1]);
        lemma_best_shape(b, i + 1, s0);
        lemma_best_shape(b, i + 1, s0.update(i as int, true));
        lemma_value_add(b, s0, i as int);
        assert(feasible_below(b, s0.update(i as int, true), i + 1)) by {
            assert forall|j: int, k: int|
                0 <= j < k < i + 1 && s0.update(i as int, true)[j] && s0.update(i as int, true)[k]
                implies !bids_conflict(#[trigger] b[j], #[trigger] b[k]) by {
                if k == i {
                    assert(!(s0[j] && bids_conflict(b[j], b[i as int])));
                }
            }
        }
    }
    sel.set(i, true);
    let inc = search(bids, conflict, suffix, i + 1, sel, cur + a, lb, limited, budget);
    sel.set(i, false);
    assert(sel@ =~= s0);
    match inc {
        Outcome::Exhausted => Outcome::Exhausted,
        Outcome::Found(v, val) => {
            let ex = search(bids, conflict, suffix, i + 1, sel, cur, val, limited, budget);
            match ex {
                Outcome::Exhausted => Outcome::Exhausted,
                Outcome::Below => Outcome::Found(v, val),
                Outcome::Found(w, wval) => {
                    if wval > val {
                        Outcome::Found(w, wval)
                    } else if prefers_exec(bids, &v, &w) {
                        Outcome::Found(v, val)
                    } else {
                        Outcome::Found(w, wval)
                    }
                },
            }
        },
        Outcome::Below => search(bids, conflict, suffix, i + 1, sel, cur, lb, limited, budget),
    }
}

// ---------------------------------------------------------------------------
// The fallback of a search that ran out of steps.
// ---------------------------------------------------------------------------

/// The greedy completion of `s` from `i`: each bid is taken, in submission
/// order, when it conflicts with none taken before it.
pub open spec fn greedy_from(bids: Seq<Bid>, i: int, s: Seq<bool>) -> Seq<bool>
    decreases bids.len() - i,
{
    if i >= bids.len() || i < 0 {
        s
    } else if blocked(bids, s, i) {
        greedy_from(bids, i + 1, s)
    } else {
        greedy_from(bids, i + 1, s.update(i, true))
    }
}

/// The greedy selection over all the bids.
pub open spec fn greedy(bids: Seq<Bid>) -> Seq<bool> {
    greedy_from(bids, 0, nothing(bids.len()))
}

/// The greedy completion extends `s` and is feasible where `s` is.
pub proof fn lemma_greedy_shape(bids: Seq<Bid>, i: int, s: Seq<bool>)
    requires
        0 <= i <= bids.len(),
        s.len() == bids.len(),
        forall|k: int| i <= k < s.len() ==> !s[k],
        feasible_below(bids, s, i),
    ensures
        feasible(bids, greedy_from(bids, i, s)),
    decreases bids.len() - i,
{
    if i < bids.len() {
        if blocked(bids, s, i) {
            lemma_greedy_shape(bids, i + 1, s);
        } else {
            let u = s.update(i, true);
            assert forall|j: int, k: int|
                0 <= j < k < i + 1 && u[j] && u[k] implies !bids_conflict(#[trigger] bids[j], #[trigger] bids[k]) by {
                if k == i {
                    assert(!(s[j] && bids_conflict(bids[j], bids[i])));
                }
            }
            lemma_greedy_shape(bids, i + 1, u);
        }
    }
}

/// Takes each bid, in submission order, that conflicts with none taken before.
fn greedy_select(bids: &[Bid], conflict: &Vec<Vec<bool>>, suffix: &Vec<u64>) -> (r: Vec<bool>)
    requires
        search_inputs(bids@, conflict@, suffix@),
    ensures
        r@ == greedy(bids@),
        r@.len() == bids@.len(),
{
    let mut sel: Vec<bool> = Vec::new();
    let mut k: usize = 0;
    while k < bids.len()
        invariant
            k <= bids@.len(),
            sel@ =~= nothing(k as nat),
        decreases bids.len() - k,
    {
        sel.push(false);
        k += 1;
    }
    let ghost target = greedy(bids@);
    let mut i: usize = 0;
    while i < bids.len()
        invariant
            search_inputs(bids@, conflict@, suffix@),
            i <= bids@.len(),
            sel@.len() == bids@.len(),
            greedy_from(bids@, i as int, sel@) == target,
        decreases bids.len() - i,
    {
        if !is_blocked(conflict, &sel, i, Ghost(bids@)) {
            sel.set(i, true);
        }
        i += 1;
    }
    sel
}

// ---------------------------------------------------------------------------
// Allocations.
// ---------------------------------------------------------------------------

/// One cell of an allocation and the company it is assigned to.
#[derive(Clone, Copy, Debug, PartialEq, Eq, Structural)]
pub struct Assignment {
    pub section: Section,
    pub company: u32,
}

/// The cells of a bid, each assigned to the bid's company.
pub open spec fn block(b: Bid) -> Seq<Assignment> {
    b.sections@.map_values(|c: Section| Assignment { section: c, company: b.company })
}

/// The assignments made by the bids that `s` selects among the first `k`, in
/// submission order.
pub open spec fn assignments_upto(bids: Seq<Bid>, s: Seq<bool>, k: int) -> Seq<Assignment>
    decreases k,
{
    if k <= 0 {
        seq![]
    } else {
        assignments_upto(bids, s, k - 1) + if s[k - 1] {
            block(bids[k - 1])
        } else {
            seq![]
        }
    }
}

/// The assignments made by the bids that `s` selects.
pub open spec fn assignments_of(bids: Seq<Bid>, s: Seq<bool>) -> Seq<Assignment> {
    assignments_upto(bids, s, bids.len() as int)
}

/// The outcome of an auction: the cells assigned to winning companies, the
/// accepted bids, their total value, and whether the selection is proved
/// optimal or is the fallback of a search that ran out of steps.
#[derive(Clone, Debug)]
pub struct Allocation {
    /// Each cell of each accepted bid with the bid's company, bid by bid in
    /// submission order.
    pub assignments: Vec<Assignment>,
    /// For each bid, whether it is accepted.
    pub accepted: Vec<bool>,
    /// The sum of the amounts of the accepted bids.
    pub total: u64,
    /// Whether the selection is the exact optimum.
    pub exact: bool,
}

/// `a` is the allocation that the selection `s` of `bids` makes.
pub open spec fn describes(bids: Seq<Bid>, s: Seq<bool>, a: Allocation) -> bool {
    &&& a.accepted@ == s
    &&& a.assignments@ == assignments_of(bids, s)
    &&& a.total == total_value(bids, s)
}

/// `a` is a result of the resolver on `bids`: the exact winners, or, where
/// the search ran out of steps, the greedy selection.
pub open spec fn resolves(bids: Seq<Bid>, a: Allocation) -> bool {
    if a.exact {
        describes(bids, winners(bids), a)
    } else {
        describes(bids, greedy(bids), a)
    }
}

impl Allocation {
    /// Whether cell `c` is assigned to `company`.
    pub open spec fn owner_of(&self, c: Section, company: u32) -> bool {
        exists|p: int| 0 <= p < self.assignments@.len() && self.assignments@[p] == Assignment { section: c, company }
    }

    /// The company that `c` is assigned to, if any.
    pub fn owner(&self, c: &Section) -> (r: Option<u32>)
        ensures
            match r {
                Some(company) => self.owner_of(*c, company),
                None => forall|p: int| 0 <= p < self.assignments@.len() ==> #[trigger] self.assignments@[p].section != *c,
            },
    {
        let mut p: usize = 0;
        while p < self.assignments.len()
            invariant
                p <= self.assignments@.len(),
                forall|q: int| 0 <= q < p ==> #[trigger] self.assignments@[q].section != *c,
            decreases self.assignments.len() - p,
        {
            if self.assignments[p].section == *c {
                assert(self.assignments@[p as int] == Assignment { section: *c, company: self.assignments@[p as int].company });
                return Some(self.assignments[p].company);
            }
            p += 1;
        }
        None
    }
}

/// Lists the cells of the selected bids with their companies.
fn assign(bids: &[Bid], sel: &Vec<bool>) -> (r: Vec<Assignment>)
    requires
        sel@.len() == bids@.len(),
    ensures
        r@ == assignments_of(bids@, sel@),
{
    let mut out: Vec<Assignment> = Vec::new();
    let mut i: usize = 0;
    while i < bids.len()
        invariant
            i <= bids@.len(),
            sel@.len() == bids@.len(),
            out@ == assignments_upto(bids@, sel@, i as int),
        decreases bids.len() - i,
    {
        if sel[i] {
            let b = &bids[i];
            let mut j: usize = 0;
            while j < b.sections.len()
                invariant
                    i < bids@.len(),
                    *b == bids@[i as int],
                    j <= b.sections@.len(),
                    out@ == assignments_upto(bids@, sel@, i as int) + block(*b).take(j as int),
                decreases b.sections.len() - j,
            {
                out.push(Assignment { section: b.sections[j], company: b.company });
                assert(block(*b).take(j + 1) == block(*b).take(j as int).push(
                    Assignment { section: b.sections@[j as int], company: b.company }));
                j += 1;
            }
            assert(block(*b).take(j as int) == block(*b));
        }
        assert(assignments_upto(bids@, sel@, i + 1) == assignments_upto(bids@, sel@, i as int) + if sel@[i as int] {
            block(bids@[i as int])
        } else {
            seq![]
        });
        i += 1;
    }
    out
}

/// The value of a selection.
fn value_of(bids: &[Bid], sel: &Vec<bool>) -> (r: u64)
    requires
        sel@.len() == bids@.len(),
        amount_from(bids@, 0) <= u64::MAX,
    ensures
        r == total_value(bids@, sel@),
{
    proof {
        lemma_value_bounded(bids@, sel@, 0);
    }
    let mut acc: u64 = 0;
    let mut k: usize = bids.len();
    while k > 0
        invariant
            k <= bids@.len(),
            sel@.len() == bids@.len(),
            amount_from(bids@, 0) <= u64::MAX,
            acc == value_from(bids@, sel@, k as int),
        decreases k,
    {
        proof {
            lemma_value_agree(bids@, sel@, sel@, 0, k - 1);
            lemma_value_bounded(bids@, sel@, 0);
            lemma_value_bounded(bids@, sel@, k - 1);
            lemma_prefix_sum_le(bids@, sel@, k - 1);
        }
        k -= 1;
        if sel[k] {
            acc = acc + bids[k].amount as u64;
        }
    }
    acc
}

/// The value selected from `k` on is at most the value selected from 0.
proof fn lemma_prefix_sum_le(bids: Seq<Bid>, s: Seq<bool>, k: int)
    requires
        0 <= k <= bids.len(),
    ensures
        value_from(bids, s, k) <= value_from(bids, s, 0),
    decreases k,
{
    if k > 0 {
        lemma_prefix_sum_le(bids, s, k - 1);
    }
}

// ---------------------------------------------------------------------------
// The resolver.
// ---------------------------------------------------------------------------

/// How the resolver searches.
#[derive(Clone, Copy, Debug, PartialEq, Eq, Structural)]
pub enum Strategy {
    /// Search until the optimum is proved.
    Exact,
    /// Visit at most this many search nodes; where that is not enough, fall
    /// back to the greedy selection and mark the result inexact.
    StepLimit(u64),
}

/// Why the resolver refused its input.
#[derive(Clone, Copy, Debug, PartialEq, Eq, Structural)]
pub enum ResolveError {
    /// The bid at this position names some cell twice.
    InvalidBid(usize),
}

/// Every bid names each of its cells once.
pub open spec fn all_wf(bids: Seq<Bid>) -> bool {
    forall|j: int| 0 <= j < bids.len() ==> #[trigger] bid_wf(bids[j])
}

/// The amounts from `k` on are at most one `u32` range each.
proof fn lemma_amount_bound(bids: Seq<Bid>, k: int)
    requires
        0 <= k <= bids.len(),
    ensures
        0 <= amount_from(bids, k) <= (bids.len() - k) * 0xFFFF_FFFF,
    decreases bids.len() - k,
{
    if k < bids.len() {
        lemma_amount_bound(bids, k + 1);
    }
}

/// The first bid that names a cell twice, if any.
fn find_invalid(bids: &[Bid]) -> (r: Option<usize>)
    ensures
        match r {
            Some(i) => i < bids@.len() && !bid_wf(bids@[i as int])
                && forall|j: int| 0 <= j < i ==> #[trigger] bid_wf(bids@[j]),
            None => all_wf(bids@),
        },
{
    let mut i: usize = 0;
    while i < bids.len()
        invariant
            i <= bids@.len(),
            forall|j: int| 0 <= j < i ==> #[trigger] bid_wf(bids@[j]),
        decreases bids.len() - i,
    {
        if has_duplicate(&bids[i].sections) {
            return Some(i);
        }
        i += 1;
    }
    None
}

/// The conflict graph, as a matrix: entry `[j][k]` says whether bids `j` and
/// `k` share a cell. Each bid's cells are put in grid order once, and each
/// pair of bids is then compared by merging.
fn conflict_graph(bids: &[Bid]) -> (r: Vec<Vec<bool>>)
    ensures
        r@.len() == bids@.len(),
        forall|j: int| 0 <= j < bids@.len() ==> #[trigger] r@[j]@.len() == bids@.len(),
        forall|j: int, k: int|
            0 <= j < bids@.len() && 0 <= k < bids@.len() ==> r@[j]@[k] == bids_conflict(bids@[j], bids@[k]),
{
    let mut sorted: Vec<Vec<Section>> = Vec::new();
    let mut j: usize = 0;
    while j < bids.len()
        invariant
            j <= bids@.len(),
            sorted@.len() == j,
            forall|x: int| 0 <= x < j ==> in_grid_order(#[trigger] sorted@[x]@),
            forall|x: int, c: Section| 0 <= x < j ==> (#[trigger] sorted@[x]@.contains(c) <==> bids@[x].sections@.contains(c)),
        decreases bids.len() - j,
    {
        sorted.push(sort_sections(&bids[j].sections));
        j += 1;
    }
    let mut rows: Vec<Vec<bool>> = Vec::new();
    let mut j: usize = 0;
    while j < bids.len()
        invariant
            j <= bids@.len(),
            sorted@.len() == bids@.len(),
            forall|x: int| 0 <= x < bids@.len() ==> in_grid_order(#[trigger] sorted@[x]@),
            forall|x: int, c: Section| 0 <= x < bids@.len() ==> (#[trigger] sorted@[x]@.contains(c) <==> bids@[x].sections@.contains(c)),
            rows@.len() == j,
            forall|x: int| 0 <= x < j ==> #[trigger] rows@[x]@.len() == bids@.len(),
            forall|x: int, k: int|
                0 <= x < j && 0 <= k < bids@.len() ==> rows@[x]@[k] == bids_conflict(bids@[x], bids@[k]),
        decreases bids.len() - j,
    {
        let mut row: Vec<bool> = Vec::new();
        let mut k: usize = 0;
        while k < bids.len()
            invariant
                j < bids@.len(),
                k <= bids@.len(),
                sorted@.len() == bids@.len(),
                forall|x: int| 0 <= x < bids@.len() ==> in_grid_order(#[trigger] sorted@[x]@),
                forall|x: int, c: Section| 0 <= x < bids@.len() ==> (#[trigger] sorted@[x]@.contains(c) <==> bids@[x].sections@.contains(c)),
                row@.len() == k,
                forall|y: int| 0 <= y < k ==> row@[y] == bids_conflict(bids@[j as int], bids@[y]),
            decreases bids.len() - k,
        {
            proof {
                lemma_meet_same_cells(sorted@[j as int]@, bids@[j as int].sections@, sorted@[k as int]@, bids@[k as int].sections@);
            }
            row.push(sorted_overlap(&sorted[j], &sorted[k]));
            k += 1;
        }
        rows.push(row);
        j += 1;
    }
    rows
}

/// The sums of the amounts of each suffix of the bids.
fn suffix_sums(bids: &[Bid]) -> (r: Vec<u64>)
    requires
        bids@.len() <= u32::MAX,
    ensures
        r@.len() == bids@.len() + 1,
        forall|k: int| 0 <= k <= bids@.len() ==> #[trigger] r@[k] == amount_from(bids@, k),
{
    let mut r: Vec<u64> = Vec::new();
    r.push(0);
    let mut k: usize = 0;
    while k < bids.len()
        invariant
            bids@.len() <= u32::MAX,
            k <= bids@.len(),
            r@.len() == k + 1,
            forall|x: int| 0 <= x <= k ==> r@[x] == 0,
        decreases bids.len() - k,
    {
        r.push(0);
        k += 1;
    }
    let mut k: usize = bids.len();
    assert(r@[k as int] == amount_from(bids@, k as int));
    while k > 0
        invariant
            bids@.len() <= u32::MAX,
            k <= bids@.len(),
            r@.len() == bids@.len() + 1,
            forall|x: int| k <= x <= bids@.len() ==> #[trigger] r@[x] == amount_from(bids@, x),
        decreases k,
    {
        proof {
            lemma_amount_bound(bids@, k - 1);
            assert((bids@.len() - (k - 1)) * 0xFFFF_FFFF <= 0xFFFF_FFFF * 0xFFFF_FFFF) by (nonlinear_arith)
                requires
                    bids@.len() - (k - 1) <= 0xFFFF_FFFF,
                    bids@.len() - (k - 1) >= 0;
        }
        let v = bids[k - 1].amount as u64 + r[k];
        r.set(k - 1, v);
        k -= 1;
    }
    r
}

/// Resolves the auction exactly: see [`resolve_with`].
pub fn resolve_bids(bids: &[Bid]) -> (r: Result<Allocation, ResolveError>)
    requires
        bids@.len() <= u32::MAX,
    ensures
        r is Ok <==> all_wf(bids@),
        match r {
            Ok(a) => a.exact && describes(bids@, winners(bids@), a),
            Err(ResolveError::InvalidBid(i)) => i < bids@.len() && !bid_wf(bids@[i as int])
                && forall|j: int| 0 <= j < i ==> #[trigger] bid_wf(bids@[j]),
        },
{
    resolve_with(bids, Strategy::Exact)
}

/// Chooses the conflict-free set of bids of greatest total amount, ties going
/// to the set that holds the bid with the smallest (company, submission
/// position) key among those where the candidates differ, and assigns each
/// cell of each accepted bid to the bid's company.
///
/// A bid that names a cell twice is refused with `InvalidBid`, for the first
/// such bid; nothing is repaired. Under `StepLimit` a search that runs out of
/// steps returns the greedy selection, marked inexact.
pub fn resolve_with(bids: &[Bid], strategy: Strategy) -> (r: Result<Allocation, ResolveError>)
    requires
        bids@.len() <= u32::MAX,
    ensures
        r is Ok <==> all_wf(bids@),
        match r {
            Ok(a) => resolves(bids@, a) && (strategy == Strategy::Exact ==> a.exact),
            Err(ResolveError::InvalidBid(i)) => i < bids@.len() && !bid_wf(bids@[i as int])
                && forall|j: int| 0 <= j < i ==> #[trigger] bid_wf(bids@[j]),
        },
{
    if let Some(i) = find_invalid(bids) {
        return Err(ResolveError::InvalidBid(i));
    }
    let conflict = conflict_graph(bids);
    let suffix = suffix_sums(bids);
    let (limited, mut budget) = match strategy {
        Strategy::Exact => (false, 0u64),
        Strategy::StepLimit(n) => (true, n),
    };
    let mut sel: Vec<bool> = Vec::new();
    let mut k: usize = 0;
    while k < bids.len()
        invariant
            k <= bids@.len(),
            sel@ =~= nothing(k as nat),
        decreases bids.len() - k,
    {
        sel.push(false);
        k += 1;
    }
    proof {
        lemma_value_none(bids@, sel@, 0);
        lemma_best_shape(bids@, 0, sel@);
    }
    let outcome = search(bids, &conflict, &suffix, 0, &mut sel, 0, 0, limited, &mut budget);
    match outcome {
        Outcome::Found(v, val) => {
            let assignments = assign(bids, &v);
            Ok(Allocation { assignments, accepted: v, total: val, exact: true })
        },
        _ => {
            proof {
                lemma_value_bounded(bids@, winners(bids@), 0);
            }
            let g = greedy_select(bids, &conflict, &suffix);
            proof {
                lemma_amount_bound(bids@, 0);
                assert(bids@.len() * 0xFFFF_FFFF <= 0xFFFF_FFFF * 0xFFFF_FFFF) by (nonlinear_arith)
                    requires
                        bids@.len() <= 0xFFFF_FFFF;
            }
            let total = value_of(bids, &g);
            let assignments = assign(bids, &g);
            Ok(Allocation { assignments, accepted: g, total, exact: false })
        },
    }
}

} // verus!
