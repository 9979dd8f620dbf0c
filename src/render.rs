//! The location-by-time view of a bid or an allocation, for display.

use vstd::prelude::*;
use crate::grid::{Bid, GridConfig, Section};
use crate::auction::Allocation;

verus! {

/// For each location and each time slot of the grid, the company the cell is
/// assigned to, if any.
pub fn allocation_view(grid: GridConfig, a: &Allocation) -> (r: Vec<Vec<Option<u32>>>)
    ensures
        r@.len() == grid.sections,
        forall|l: int| 0 <= l < grid.sections ==> #[trigger] r@[l]@.len() == grid.time,
        forall|l: int, t: int|
            0 <= l < grid.sections && 0 <= t < grid.time ==> match #[trigger] r@[l]@[t] {
                Some(c) => a.owner_of(Section { location: l as u32, time: t as u32 }, c),
                None => forall|p: int|
                    0 <= p < a.assignments@.len() ==> #[trigger] a.assignments@[p].section
                        != (Section { location: l as u32, time: t as u32 }),
            },
{
    let mut rows: Vec<Vec<Option<u32>>> = Vec::new();
    let mut l: u32 = 0;
    while l < grid.sections
        invariant
            l <= grid.sections,
            rows@.len() == l,
            forall|x: int| 0 <= x < l ==> #[trigger] rows@[x]@.len() == grid.time,
            forall|x: int, t: int|
                0 <= x < l && 0 <= t < grid.time ==> match #[trigger] rows@[x]@[t] {
                    Some(c) => a.owner_of(Section { location: x as u32, time: t as u32 }, c),
                    None => forall|p: int|
                        0 <= p < a.assignments@.len() ==> #[trigger] a.assignments@[p].section
                            != (Section { location: x as u32, time: t as u32 }),
                },
        decreases grid.sections - l,
    {
        let mut row: Vec<Option<u32>> = Vec::new();
        let mut t: u32 = 0;
        while t < grid.time
            invariant
                l < grid.sections,
                t <= grid.time,
                row@.len() == t,
                forall|y: int|
                    0 <= y < t ==> match #[trigger] row@[y] {
                        Some(c) => a.owner_of(Section { location: l, time: y as u32 }, c),
                        None => forall|p: int|
                            0 <= p < a.assignments@.len() ==> #[trigger] a.assignments@[p].section
                                != (Section { location: l, time: y as u32 }),
                    },
            decreases grid.time - t,
        {
            row.push(a.owner(&Section { location: l, time: t }));
            t += 1;
        }
        rows.push(row);
        l += 1;
    }
    rows
}

/// For each location and each time slot of the grid, whether the bid
/// names the cell.
pub fn bid_view(grid: GridConfig, b: &Bid) -> (r: Vec<Vec<bool>>)
    ensures
        r@.len() == grid.sections,
        forall|l: int| 0 <= l < grid.sections ==> #[trigger] r@[l]@.len() == grid.time,
        forall|l: int, t: int|
            0 <= l < grid.sections && 0 <= t < grid.time ==> #[trigger] r@[l]@[t]
                == b.sections@.contains(Section { location: l as u32, time: t as u32 }),
{
    let mut rows: Vec<Vec<bool>> = Vec::new();
    let mut l: u32 = 0;
    while l < grid.sections
        invariant
            l <= grid.sections,
            rows@.len() == l,
            forall|x: int| 0 <= x < l ==> #[trigger] rows@[x]@.len() == grid.time,
            forall|x: int, t: int|
                0 <= x < l && 0 <= t < grid.time ==> #[trigger] rows@[x]@[t]
                    == b.sections@.contains(Section { location: x as u32, time: t as u32 }),
        decreases grid.sections - l,
    {
        let mut row: Vec<bool> = Vec::new();
        let mut t: u32 = 0;
        while t < grid.time
            invariant
                l < grid.sections,
                t <= grid.time,
                row@.len() == t,
                forall|y: int| 0 <= y < t ==> #[trigger] row@[y] == b.sections@.contains(Section { location: l, time: y as u32 }),
            decreases grid.time - t,
        {
            row.push(names_cell(&b.sections, &Section { location: l, time: t }));
            t += 1;
        }
        rows.push(row);
        l += 1;
    }
    rows
}

/// Whether `c` occurs in `cells`.
fn names_cell(cells: &Vec<Section>, c: &Section) -> (r: bool)
    ensures
        r == cells@.contains(*c),
{
    let mut k: usize = 0;
    while k < cells.len()
        invariant
            k <= cells@.len(),
            forall|x: int| 0 <= x < k ==> cells@[x] != *c,
        decreases cells.len() - k,
    {
        if cells[k] == *c {
            assert(cells@[k as int] == *c);
            return true;
        }
        k += 1;
    }
    false
}

} // verus!
