//! The timetable builder: the cells that one train movement occupies.

use itertools::Itertools;
use vstd::prelude::*;
use crate::grid::{Bid, GridConfig, Section, bid_wf};

verus! {

/// Why a movement cannot be scheduled.
#[derive(Clone, Copy, Debug, PartialEq, Eq, Structural)]
pub enum ScheduleError {
    /// The movement would run past the end of the scheduling horizon.
    InfeasibleSchedule,
}

/// Relies on itertools' `Itertools::cartesian_product`: every pair of the
/// ranges `a_lo..a_hi` and `b_lo..b_hi`, the first component varying slowest.
#[verifier::external_body]
fn range_product(a_lo: u32, a_hi: u32, b_lo: u32, b_hi: u32) -> (r: Vec<(u32, u32)>)
    requires
        a_lo <= a_hi,
        b_lo <= b_hi,
    ensures
        r@.len() == (a_hi - a_lo) * (b_hi - b_lo),
        forall|k: int|
            0 <= k < r@.len() ==> #[trigger] r@[k].0 as int == a_lo as int + k / (b_hi - b_lo) as int
                && r@[k].1 as int == b_lo as int + k % (b_hi - b_lo) as int,
{
    (a_lo..a_hi).cartesian_product(b_lo..b_hi).collect()
}

/// How many distinct locations a train of `size` covers on the track: its
/// footprint wraps round, so it never covers more than the whole track.
pub open spec fn footprint(grid: GridConfig, size: u32) -> int {
    if size < grid.sections {
        size as int
    } else {
        grid.sections as int
    }
}

/// The cells a train occupies in one step: `width` consecutive locations from
/// `loc`, wrapping round the track, during the time slots `t0..t1`; location
/// by location, and by time within each location.
pub open spec fn step_cells(grid: GridConfig, loc: int, width: int, t0: int, t1: int) -> Seq<Section> {
    Seq::new(
        (width * (t1 - t0)) as nat,
        |k: int| Section { location: ((loc + k / (t1 - t0)) % (grid.sections as int)) as u32, time: (t0 + k % (t1 - t0)) as u32 },
    )
}

/// The first stop below `n` that is not yet served and lies at `loc`; `-1`
/// where there is none.
pub open spec fn first_stop_below(stops: Seq<(u32, u32)>, used: Seq<bool>, loc: int, n: int) -> int
    decreases n,
{
    if n <= 0 {
        -1
    } else {
        let m = first_stop_below(stops, used, loc, n - 1);
        if m >= 0 {
            m
        } else if !used[n - 1] && stops[n - 1].0 == loc {
            n - 1
        } else {
            -1
        }
    }
}

/// The first stop not yet served at `loc`: stops at one location are served
/// in the order they were given.
pub open spec fn first_stop(stops: Seq<(u32, u32)>, used: Seq<bool>, loc: int) -> int {
    first_stop_below(stops, used, loc, stops.len() as int)
}

/// Every stop has been served.
pub open spec fn all_used(used: Seq<bool>) -> bool {
    forall|k: int| 0 <= k < used.len() ==> used[k]
}

/// The parameters of a movement that stay fixed while it runs.
pub struct Movement {
    pub end_location: u32,
    pub speed: u32,
    pub size: u32,
}

/// The cells occupied by a movement that stands at `loc` at time `t`, with
/// the stops flagged in `used` already served; `None` where it runs past the
/// horizon.
///
/// At each step the train waits out the next stop at its location, if any,
/// occupying its footprint for the whole wait; it ends at `end_location` once
/// every stop is served, and otherwise moves on `speed` locations.
pub open spec fn run(grid: GridConfig, m: Movement, stops: Seq<(u32, u32)>, t: int, loc: int, used: Seq<bool>) -> Option<Seq<Section>>
    decreases grid.time - t,
{
    let f = first_stop(stops, used, loc);
    let wait: int = if f >= 0 { stops[f].1 as int } else { 0 };
    let used2 = if f >= 0 { used.update(f, true) } else { used };
    let last = t + wait;
    if t < 0 || last >= grid.time {
        None
    } else {
        let cells = step_cells(grid, loc, footprint(grid, m.size), t, last + 1);
        if loc == m.end_location && all_used(used2) {
            Some(cells)
        } else {
            match run(grid, m, stops, last + 1, (loc + m.speed) % (grid.sections as int), used2) {
                Some(rest) => Some(cells + rest),
                None => None,
            }
        }
    }
}

/// Appends to `cells` the cells of one step.
fn push_step(grid: GridConfig, cells: &mut Vec<Section>, loc: u32, width: u32, t0: u32, t1: u32)
    requires
        grid.wf(),
        t0 < t1,
    ensures
        final(cells)@ == old(cells)@ + step_cells(grid, loc as int, width as int, t0 as int, t1 as int),
{
    let pairs = range_product(0, width, t0, t1);
    let ghost want = step_cells(grid, loc as int, width as int, t0 as int, t1 as int);
    let ghost start = cells@;
    let mut k: usize = 0;
    while k < pairs.len()
        invariant
            grid.wf(),
            t0 < t1,
            pairs@.len() == want.len(),
            want == step_cells(grid, loc as int, width as int, t0 as int, t1 as int),
            forall|x: int|
                0 <= x < pairs@.len() ==> #[trigger] pairs@[x].0 as int == x / (t1 - t0) as int
                    && pairs@[x].1 as int == t0 as int + x % (t1 - t0) as int,
            k <= pairs@.len(),
            cells@ == start + want.take(k as int),
        decreases pairs.len() - k,
    {
        let (o, time) = pairs[k];
        assert(pairs@[k as int].0 == o);
        let location = ((loc as u64 + o as u64) % (grid.sections as u64)) as u32;
        let c = Section { location, time };
        assert(c == want[k as int]);
        cells.push(c);
        assert(want.take(k + 1) == want.take(k as int).push(c));
        k += 1;
    }
    assert(want.take(k as int) == want);
}

/// The first stop not yet served at `loc`, if any.
fn find_stop(stops: &[(u32, u32)], used: &Vec<bool>, loc: u32) -> (r: Option<usize>)
    requires
        used@.len() == stops@.len(),
    ensures
        match r {
            Some(i) => i as int == first_stop(stops@, used@, loc as int) && i < stops@.len(),
            None => first_stop(stops@, used@, loc as int) == -1,
        },
{
    let mut k: usize = 0;
    while k < stops.len()
        invariant
            used@.len() == stops@.len(),
            k <= stops@.len(),
            first_stop_below(stops@, used@, loc as int, k as int) == -1,
        decreases stops.len() - k,
    {
        if !used[k] && stops[k].0 == loc {
            proof {
                lemma_first_stop_stays(stops@, used@, loc as int, k + 1, stops@.len() as int);
            }
            return Some(k);
        }
        k += 1;
    }
    None
}

/// Once found, the first stop stays the first as more stops are considered.
proof fn lemma_first_stop_stays(stops: Seq<(u32, u32)>, used: Seq<bool>, loc: int, a: int, b: int)
    requires
        0 <= a <= b,
        first_stop_below(stops, used, loc, a) >= 0,
    ensures
        first_stop_below(stops, used, loc, b) == first_stop_below(stops, used, loc, a),
    decreases b - a,
{
    if a < b {
        lemma_first_stop_stays(stops, used, loc, a, b - 1);
    }
}

/// Whether every stop has been served.
fn all_served(used: &Vec<bool>) -> (r: bool)
    ensures
        r == all_used(used@),
{
    let mut k: usize = 0;
    while k < used.len()
        invariant
            k <= used@.len(),
            forall|x: int| 0 <= x < k ==> used@[x],
        decreases used.len() - k,
    {
        if !used[k] {
            return false;
        }
        k += 1;
    }
    true
}

/// Builds the bid for one train movement of `company` worth `amount`.
///
/// The train starts at `start_location` at `start_time` and occupies `size`
/// consecutive locations, wrapping round the track, at each time step; it
/// advances `speed` locations per step. At a location where a stop waits to be
/// served (stops at one location are served in the order given), it occupies
/// its footprint for the wait as well. It ends at `end_location` once every
/// stop is served. Where it would run past the horizon, the movement is
/// refused with `InfeasibleSchedule`.
pub fn generate_bid(
    grid: GridConfig,
    company: u32,
    start_time: u32,
    start_location: u32,
    end_location: u32,
    stops: &[(u32, u32)],
    speed: u32,
    size: u32,
    amount: u32,
) -> (r: Result<Bid, ScheduleError>)
    requires
        grid.wf(),
    ensures
        match run(grid, Movement { end_location, speed, size }, stops@, start_time as int, start_location as int,
            Seq::new(stops@.len(), |k: int| false)) {
            Some(cells) => r == Ok::<Bid, ScheduleError>(Bid { company, sections: r->Ok_0.sections, amount })
                && r->Ok_0.sections@ == cells,
            None => r == Err::<Bid, ScheduleError>(ScheduleError::InfeasibleSchedule),
        },
        r matches Ok(b) ==> bid_wf(b) && forall|k: int|
            0 <= k < b.sections@.len() ==> grid.contains(#[trigger] b.sections@[k]),
{
    let ghost m = Movement { end_location, speed, size };
    let mut used: Vec<bool> = Vec::new();
    let mut k: usize = 0;
    while k < stops.len()
        invariant
            k <= stops@.len(),
            used@ == Seq::new(k as nat, |x: int| false),
        decreases stops.len() - k,
    {
        used.push(false);
        k += 1;
    }
    assert(used@ =~= Seq::new(stops@.len(), |k: int| false));
    let ghost whole = run(grid, m, stops@, start_time as int, start_location as int, used@);
    proof {
        lemma_run_cells(grid, m, stops@, start_time as int, start_location as int, used@);
    }
    let width: u32 = if size < grid.sections { size } else { grid.sections };
    let mut cells: Vec<Section> = Vec::new();
    let mut t: u32 = start_time;
    let mut loc: u32 = start_location;
    loop
        invariant
            grid.wf(),
            used@.len() == stops@.len(),
            width as int == footprint(grid, size),
            m == (Movement { end_location, speed, size }),
            whole == run(grid, m, stops@, start_time as int, start_location as int, Seq::new(stops@.len(), |k: int| false)),
            match whole {
                Some(cs) => cs.no_duplicates() && cells_from(grid, cs, start_time as int),
                None => true,
            },
            whole == match run(grid, m, stops@, t as int, loc as int, used@) {
                Some(rest) => Some(cells@ + rest),
                None => None,
            },
        decreases grid.time - t,
    {
        let ghost u0 = used@;
        let f = find_stop(stops, &used, loc);
        let wait: u32 = match f {
            Some(i) => stops[i].1,
            None => 0,
        };
        if let Some(i) = f {
            used.set(i, true);
        }
        let last: u64 = t as u64 + wait as u64;
        assert(used@ == if first_stop(stops@, u0, loc as int) >= 0 {
            u0.update(first_stop(stops@, u0, loc as int), true)
        } else {
            u0
        });
        if last >= grid.time as u64 {
            assert(run(grid, m, stops@, t as int, loc as int, u0) is None);
            return Err(ScheduleError::InfeasibleSchedule);
        }
        let next: u32 = (last + 1) as u32;
        let ghost c0 = cells@;
        let ghost (t_old, loc_old) = (t as int, loc as int);
        push_step(grid, &mut cells, loc, width, t, next);
        if loc == end_location && all_served(&used) {
            return Ok(Bid { company, sections: cells, amount });
        }
        t = next;
        loc = ((loc as u64 + speed as u64) % (grid.sections as u64)) as u32;
        proof {
            let step = step_cells(grid, loc_old, width as int, t_old, t as int);
            assert(cells@ == c0 + step);
            assert(run(grid, m, stops@, t_old, loc_old, u0) == match run(grid, m, stops@, t as int, loc as int, used@) {
                Some(rest) => Some(step + rest),
                None => None,
            });
            if let Some(rest) = run(grid, m, stops@, t as int, loc as int, used@) {
                assert(c0 + (step + rest) =~= (c0 + step) + rest);
            }
        }
    }
}

/// Every cell lies inside the grid, at time `t` or later.
pub open spec fn cells_from(grid: GridConfig, cells: Seq<Section>, t: int) -> bool {
    forall|k: int|
        0 <= k < cells.len() ==> t <= (#[trigger] cells[k]).time < grid.time && cells[k].location < grid.sections
}

/// Offsets below the track length land on distinct locations.
proof fn lemma_wrap_distinct(a: int, o1: int, o2: int, s: int)
    requires
        0 <= a,
        0 <= o1 < o2 < s,
    ensures
        (a + o1) % s != (a + o2) % s,
{
    let q1 = (a + o1) / s;
    let q2 = (a + o2) / s;
    vstd::arithmetic::div_mod::lemma_fundamental_div_mod(a + o1, s);
    vstd::arithmetic::div_mod::lemma_fundamental_div_mod(a + o2, s);
    if (a + o1) % s == (a + o2) % s {
        assert(false) by (nonlinear_arith)
            requires
                a + o1 == s * q1 + (a + o1) % s,
                a + o2 == s * q2 + (a + o2) % s,
                (a + o1) % s == (a + o2) % s,
                0 <= o1 < o2 < s;
    }
}

/// An index below `width * h` has quotient below `width` and remainder below `h`.
proof fn lemma_div_range(k: int, width: int, h: int)
    requires
        0 <= k < width * h,
        0 < h,
    ensures
        0 <= k / h < width,
        0 <= k % h < h,
{
    vstd::arithmetic::div_mod::lemma_fundamental_div_mod(k, h);
    assert(0 <= k % h < h);
    assert(0 <= k / h < width) by (nonlinear_arith)
        requires
            k == h * (k / h) + k % h,
            0 <= k % h < h,
            0 <= k < width * h,
            0 < h;
}

/// The cells of one step are distinct and lie in the grid within `t0..t1`.
proof fn lemma_step_cells(grid: GridConfig, loc: int, width: int, t0: int, t1: int)
    requires
        grid.wf(),
        0 <= loc,
        0 <= width <= grid.sections,
        0 <= t0 < t1 <= grid.time,
    ensures
        step_cells(grid, loc, width, t0, t1).no_duplicates(),
        cells_from(grid, step_cells(grid, loc, width, t0, t1), t0),
        forall|k: int|
            0 <= k < step_cells(grid, loc, width, t0, t1).len() ==> (#[trigger] step_cells(grid, loc, width, t0, t1)[k]).time
                < t1,
{
    let h = t1 - t0;
    let cells = step_cells(grid, loc, width, t0, t1);
    let s = grid.sections as int;
    assert forall|k: int| 0 <= k < cells.len() implies t0 <= (#[trigger] cells[k]).time < grid.time
        && cells[k].location < grid.sections && cells[k].time < t1 by {
        lemma_div_range(k, width, h);
    }
    assert forall|i: int, j: int| 0 <= i < cells.len() && 0 <= j < cells.len() && i != j implies cells[i] != cells[j] by {
        lemma_div_range(i, width, h);
        lemma_div_range(j, width, h);
        vstd::arithmetic::div_mod::lemma_fundamental_div_mod(i, h);
        vstd::arithmetic::div_mod::lemma_fundamental_div_mod(j, h);
        if i % h == j % h {
            if i / h == j / h {
                assert(i == j);
            } else if i / h < j / h {
                lemma_wrap_distinct(loc, i / h, j / h, s);
            } else {
                lemma_wrap_distinct(loc, j / h, i / h, s);
            }
        }
    }
}

/// A movement that fits the horizon occupies distinct cells, all inside the
/// grid and no earlier than its start.
proof fn lemma_run_cells(grid: GridConfig, m: Movement, stops: Seq<(u32, u32)>, t: int, loc: int, used: Seq<bool>)
    requires
        grid.wf(),
        0 <= loc,
    ensures
        match run(grid, m, stops, t, loc, used) {
            Some(cells) => cells.no_duplicates() && cells_from(grid, cells, t),
            None => true,
        },
    decreases grid.time - t,
{
    let f = first_stop(stops, used, loc);
    let wait: int = if f >= 0 { stops[f].1 as int } else { 0 };
    let used2 = if f >= 0 { used.update(f, true) } else { used };
    let last = t + wait;
    if !(t < 0 || last >= grid.time) {
        let step = step_cells(grid, loc, footprint(grid, m.size), t, last + 1);
        lemma_step_cells(grid, loc, footprint(grid, m.size), t, last + 1);
        if !(loc == m.end_location && all_used(used2)) {
            let nloc = (loc + m.speed) % (grid.sections as int);
            lemma_run_cells(grid, m, stops, last + 1, nloc, used2);
            if let Some(rest) = run(grid, m, stops, last + 1, nloc, used2) {
                let all = step + rest;
                assert forall|i: int, j: int| 0 <= i < all.len() && 0 <= j < all.len() && i != j implies all[i] != all[j] by {
                    if i < step.len() && j >= step.len() {
                        assert(all[i].time < last + 1 && all[j] == rest[j - step.len()]);
                    } else if j < step.len() && i >= step.len() {
                        assert(all[j].time < last + 1 && all[i] == rest[i - step.len()]);
                    } else if i >= step.len() {
                        assert(all[i] == rest[i - step.len()] && all[j] == rest[j - step.len()]);
                    }
                }
                assert forall|k: int| 0 <= k < all.len() implies t <= (#[trigger] all[k]).time < grid.time
                    && all[k].location < grid.sections by {
                    if k >= step.len() {
                        assert(all[k] == rest[k - step.len()]);
                    }
                }
            }
        }
    }
}

} // verus!
