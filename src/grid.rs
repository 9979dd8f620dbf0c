//! The grid: cells of track capacity, bids over sets of cells, and the
//! conflict relation between bids.

use vstd::prelude::*;

verus! {

/// The dimensions of the grid: `sections` locations around the circular
/// track and `time` slots in the scheduling horizon.
#[derive(Clone, Copy, Debug, PartialEq, Eq, Structural)]
pub struct GridConfig {
    pub sections: u32,
    pub time: u32,
}

impl GridConfig {
    /// A grid is usable when both dimensions are positive.
    pub open spec fn wf(&self) -> bool {
        self.sections > 0 && self.time > 0
    }

    /// Whether `c` lies inside the grid.
    pub open spec fn contains(&self, c: Section) -> bool {
        c.location < self.sections && c.time < self.time
    }
}

/// One cell of the grid: a location on the track during one time slot.
/// Cells are ordered by location first, then by time.
#[derive(Clone, Copy, Debug, PartialEq, Eq, Structural, PartialOrd, Ord, Hash)]
pub struct Section {
    /// The location of the section of rail.
    pub location: u32,
    /// The time slot within the upcoming period.
    pub time: u32,
}

/// The ordering of cells: by location, then by time.
pub open spec fn section_lt(a: Section, b: Section) -> bool {
    a.location < b.location || (a.location == b.location && a.time < b.time)
}

/// Compares two cells in grid order.
pub fn section_less(a: &Section, b: &Section) -> (r: bool)
    ensures
        r == section_lt(*a, *b),
{
    a.location < b.location || (a.location == b.location && a.time < b.time)
}

/// A company's offer of `amount` for the exclusive, all-or-nothing use of
/// the cells in `sections`.
#[derive(Clone, Debug)]
pub struct Bid {
    /// The company the bid belongs to.
    pub company: u32,
    /// The cells the bid relates to.
    pub sections: Vec<Section>,
    /// The total amount for the bid.
    pub amount: u32,
}

/// Whether two cell sequences share a cell.
pub open spec fn cells_meet(a: Seq<Section>, b: Seq<Section>) -> bool {
    exists|i: int, j: int| 0 <= i < a.len() && 0 <= j < b.len() && a[i] == b[j]
}

/// Two bids conflict when their cell sets intersect, whoever owns them.
pub open spec fn bids_conflict(a: Bid, b: Bid) -> bool {
    cells_meet(a.sections@, b.sections@)
}

/// A bid is well formed when no cell occurs in it twice.
pub open spec fn bid_wf(b: Bid) -> bool {
    b.sections@.no_duplicates()
}

/// Whether some cell occurs twice in `s`.
pub fn has_duplicate(s: &Vec<Section>) -> (r: bool)
    ensures
        r == !s@.no_duplicates(),
{
    let mut i: usize = 0;
    while i < s.len()
        invariant
            0 <= i <= s.len(),
            forall|x: int, y: int| 0 <= x < y < s@.len() && x < i ==> s@[x] != s@[y],
        decreases s.len() - i,
    {
        let mut j: usize = i + 1;
        while j < s.len()
            invariant
                0 <= i < s.len(),
                i + 1 <= j <= s.len(),
                forall|x: int, y: int| 0 <= x < y < s@.len() && x < i ==> s@[x] != s@[y],
                forall|y: int| i < y < j ==> s@[i as int] != s@[y],
            decreases s.len() - j,
        {
            if s[i] == s[j] {
                assert(s@[i as int] == s@[j as int]);
                return true;
            }
            j += 1;
        }
        i += 1;
    }
    false
}

/// The cells are in grid order.
pub open spec fn in_grid_order(s: Seq<Section>) -> bool {
    forall|i: int, j: int| 0 <= i < j < s.len() ==> !section_lt(#[trigger] s[j], #[trigger] s[i])
}

/// The cells of `s`, in grid order.
pub fn sort_sections(s: &Vec<Section>) -> (r: Vec<Section>)
    ensures
        r@.len() == s@.len(),
        in_grid_order(r@),
        forall|c: Section| r@.contains(c) <==> s@.contains(c),
{
    let mut r: Vec<Section> = Vec::new();
    let mut k: usize = 0;
    while k < s.len()
        invariant
            k <= s@.len(),
            r@.len() == k,
            in_grid_order(r@),
            forall|c: Section| r@.contains(c) <==> s@.take(k as int).contains(c),
        decreases s.len() - k,
    {
        let x = s[k];
        let mut p: usize = 0;
        while p < r.len() && section_less(&r[p], &x)
            invariant
                p <= r@.len(),
                forall|q: int| 0 <= q < p ==> section_lt(#[trigger] r@[q], x),
            decreases r.len() - p,
        {
            p += 1;
        }
        let ghost old_r = r@;
        r.insert(p, x);
        assert(r@ == old_r.insert(p as int, x));
        assert forall|i: int, j: int| 0 <= i < j < r@.len() implies !section_lt(#[trigger] r@[j], #[trigger] r@[i]) by {
            if i < p && j == p {
                assert(section_lt(old_r[i], x));
            } else if i == p && j > p {
                assert(r@[j] == old_r[j - 1]);
                if p < old_r.len() {
                    assert(!section_lt(old_r[p as int], x));
                    assert(!section_lt(old_r[j - 1], old_r[p as int]) || j - 1 == p);
                }
            } else if i < p && j > p {
                assert(r@[j] == old_r[j - 1]);
            } else if i > p {
                assert(r@[i] == old_r[i - 1] && r@[j] == old_r[j - 1]);
            }
        }
        assert(s@.take(k + 1) == s@.take(k as int).push(x));
        assert forall|c: Section| r@.contains(c) <==> s@.take(k + 1).contains(c) by {
            if r@.contains(c) {
                let i = choose|i: int| 0 <= i < r@.len() && r@[i] == c;
                if i < p {
                    assert(old_r[i] == c);
                } else if i > p {
                    assert(old_r[i - 1] == c);
                }
                if c != x {
                    assert(old_r.contains(c));
                    assert(s@.take(k as int).contains(c));
                    let m = choose|m: int| 0 <= m < s@.take(k as int).len() && #[trigger] s@.take(k as int)[m] == c;
                    assert(s@.take(k + 1)[m] == c);
                } else {
                    assert(s@.take(k + 1)[k as int] == c);
                }
            }
            if s@.take(k + 1).contains(c) {
                let m = choose|m: int| 0 <= m < s@.take(k + 1).len() && #[trigger] s@.take(k + 1)[m] == c;
                if m < k {
                    assert(s@.take(k as int)[m] == c);
                    assert(old_r.contains(c));
                    let i = choose|i: int| 0 <= i < old_r.len() && old_r[i] == c;
                    if i < p {
                        assert(r@[i] == c);
                    } else {
                        assert(r@[i + 1] == c);
                    }
                } else {
                    assert(r@[p as int] == c);
                }
            }
        }
        k += 1;
    }
    assert(s@.take(k as int) == s@);
    r
}

/// Whether two cell sequences in grid order share a cell, by merging them.
pub fn sorted_overlap(a: &Vec<Section>, b: &Vec<Section>) -> (r: bool)
    requires
        in_grid_order(a@),
        in_grid_order(b@),
    ensures
        r == cells_meet(a@, b@),
{
    let mut i: usize = 0;
    let mut j: usize = 0;
    while i < a.len() && j < b.len()
        invariant
            i <= a@.len(),
            j <= b@.len(),
            in_grid_order(a@),
            in_grid_order(b@),
            forall|x: int, y: int| 0 <= x < i && 0 <= y < b@.len() ==> a@[x] != b@[y],
            forall|x: int, y: int| 0 <= x < a@.len() && 0 <= y < j ==> a@[x] != b@[y],
        decreases a.len() - i + b.len() - j,
    {
        if a[i] == b[j] {
            assert(a@[i as int] == b@[j as int]);
            return true;
        } else if section_less(&a[i], &b[j]) {
            assert forall|y: int| 0 <= y < b@.len() implies a@[i as int] != b@[y] by {
                if y > j {
                    assert(!section_lt(b@[y], b@[j as int]));
                }
            }
            i += 1;
        } else {
            assert forall|x: int| 0 <= x < a@.len() implies a@[x] != b@[j as int] by {
                if x > i {
                    assert(!section_lt(a@[x], a@[i as int]));
                }
            }
            j += 1;
        }
    }
    false
}

/// Cell sequences with the same cells meet the same sequences.
pub proof fn lemma_meet_same_cells(a: Seq<Section>, a2: Seq<Section>, b: Seq<Section>, b2: Seq<Section>)
    requires
        forall|c: Section| a.contains(c) <==> a2.contains(c),
        forall|c: Section| b.contains(c) <==> b2.contains(c),
    ensures
        cells_meet(a, b) == cells_meet(a2, b2),
{
    if cells_meet(a, b) {
        let (i, j) = choose|i: int, j: int| 0 <= i < a.len() && 0 <= j < b.len() && a[i] == b[j];
        assert(a.contains(a[i]) && b.contains(b[j]));
        let i2 = choose|i2: int| 0 <= i2 < a2.len() && a2[i2] == a[i];
        let j2 = choose|j2: int| 0 <= j2 < b2.len() && b2[j2] == b[j];
    }
    if cells_meet(a2, b2) {
        let (i, j) = choose|i: int, j: int| 0 <= i < a2.len() && 0 <= j < b2.len() && a2[i] == b2[j];
        assert(a2.contains(a2[i]) && b2.contains(b2[j]));
        let i2 = choose|i2: int| 0 <= i2 < a.len() && a[i2] == a2[i];
        let j2 = choose|j2: int| 0 <= j2 < b.len() && b[j2] == b2[j];
    }
}

} // verus!
