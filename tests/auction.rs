use track_auction::{resolve_bids, resolve_with, Bid, ResolveError, Section, Strategy};

fn cell(location: u32, time: u32) -> Section {
    Section { location, time }
}

fn bid(company: u32, cells: &[(u32, u32)], amount: u32) -> Bid {
    Bid { company, sections: cells.iter().map(|&(l, t)| cell(l, t)).collect(), amount }
}

fn conflicting(a: &Bid, b: &Bid) -> bool {
    a.sections.iter().any(|c| b.sections.contains(c))
}

/// The best total over all conflict-free subsets, by enumeration.
fn brute_force_best(bids: &[Bid]) -> u64 {
    let n = bids.len();
    let mut best = 0u64;
    for mask in 0u32..(1u32 << n) {
        let chosen: Vec<usize> = (0..n).filter(|i| mask & (1 << i) != 0).collect();
        let ok = chosen.iter().all(|&i| chosen.iter().all(|&j| i == j || !conflicting(&bids[i], &bids[j])));
        if ok {
            best = best.max(chosen.iter().map(|&i| bids[i].amount as u64).sum());
        }
    }
    best
}

#[test]
fn overlapping_pair_keeps_higher() {
    let x = bid(7, &[(0, 0)], 10);
    let y = bid(8, &[(0, 0)], 5);
    let a = resolve_bids(&vec![x, y]).unwrap();
    assert_eq!(a.accepted, vec![true, false]);
    assert_eq!(a.assignments.len(), 1);
    assert_eq!(a.owner(&cell(0, 0)), Some(7));
    assert_eq!(a.total, 10);
    assert!(a.exact);
}

#[test]
fn disjoint_pair_both_accepted() {
    let x = bid(0, &[(0, 0)], 10);
    let y = bid(1, &[(1, 0)], 5);
    let a = resolve_bids(&vec![x, y]).unwrap();
    assert_eq!(a.accepted, vec![true, true]);
    assert_eq!(a.total, 15);
    assert_eq!(a.owner(&cell(0, 0)), Some(0));
    assert_eq!(a.owner(&cell(1, 0)), Some(1));
}

#[test]
fn three_way_conflict() {
    let bids = vec![bid(0, &[(2, 2), (0, 1)], 3), bid(1, &[(2, 2)], 5), bid(2, &[(2, 2), (3, 3)], 7)];
    let a = resolve_bids(&bids).unwrap();
    assert_eq!(a.accepted, vec![false, false, true]);
    assert_eq!(a.total, 7);
    assert_eq!(a.owner(&cell(2, 2)), Some(2));
    assert_eq!(a.owner(&cell(0, 1)), None);
}

#[test]
fn empty_list() {
    let a = resolve_bids(&vec![]).unwrap();
    assert!(a.assignments.is_empty());
    assert!(a.accepted.is_empty());
    assert_eq!(a.total, 0);
}

#[test]
fn single_bid_accepted() {
    let a = resolve_bids(&vec![bid(3, &[(1, 1), (1, 2)], 4)]).unwrap();
    assert_eq!(a.accepted, vec![true]);
    assert_eq!(a.assignments.len(), 2);
    assert_eq!(a.total, 4);
}

#[test]
fn two_small_beat_one_large() {
    // The big bid overlaps both small ones; together they are worth more.
    let bids = vec![bid(0, &[(0, 0), (1, 0)], 10), bid(1, &[(0, 0)], 6), bid(2, &[(1, 0)], 6)];
    let a = resolve_bids(&bids).unwrap();
    assert_eq!(a.accepted, vec![false, true, true]);
    assert_eq!(a.total, 12);
}

#[test]
fn same_company_cannot_win_overlapping_bids() {
    let bids = vec![bid(4, &[(0, 0), (0, 1)], 5), bid(4, &[(0, 1)], 5)];
    let a = resolve_bids(&bids).unwrap();
    assert_eq!(a.accepted.iter().filter(|&&b| b).count(), 1);
    assert_eq!(a.total, 5);
}

#[test]
fn tie_goes_to_smaller_company() {
    let bids = vec![bid(5, &[(0, 0)], 9), bid(2, &[(0, 0)], 9)];
    let a = resolve_bids(&bids).unwrap();
    assert_eq!(a.accepted, vec![false, true]);
    assert_eq!(a.owner(&cell(0, 0)), Some(2));
}

#[test]
fn tie_within_company_goes_to_earlier_bid() {
    let bids = vec![bid(1, &[(0, 0)], 9), bid(1, &[(0, 0)], 9)];
    let a = resolve_bids(&bids).unwrap();
    assert_eq!(a.accepted, vec![true, false]);
}

#[test]
fn duplicate_cell_is_invalid() {
    let bids = vec![bid(0, &[(0, 0)], 1), bid(1, &[(1, 1), (2, 2), (1, 1)], 3), bid(2, &[(3, 3), (3, 3)], 3)];
    assert_eq!(resolve_bids(&bids).unwrap_err(), ResolveError::InvalidBid(1));
}

#[test]
fn optimal_against_brute_force() {
    let bids = vec![
        bid(0, &[(0, 0), (1, 0), (2, 0)], 8),
        bid(1, &[(2, 0), (3, 0)], 5),
        bid(2, &[(3, 0), (4, 0)], 6),
        bid(0, &[(4, 0), (5, 0)], 4),
        bid(1, &[(5, 0), (0, 0)], 7),
        bid(2, &[(6, 1)], 2),
        bid(3, &[(1, 0), (6, 1)], 3),
    ];
    let a = resolve_bids(&bids).unwrap();
    assert_eq!(a.total, brute_force_best(&bids));
    let sum: u64 = (0..bids.len()).filter(|&i| a.accepted[i]).map(|i| bids[i].amount as u64).sum();
    assert_eq!(sum, a.total);
}

#[test]
fn exclusive_and_atomic() {
    let bids = vec![
        bid(0, &[(0, 0), (1, 1)], 4),
        bid(1, &[(1, 1), (2, 2)], 5),
        bid(2, &[(2, 2), (3, 3)], 4),
        bid(3, &[(4, 4)], 1),
    ];
    let a = resolve_bids(&bids).unwrap();
    for (p, x) in a.assignments.iter().enumerate() {
        for y in &a.assignments[p + 1..] {
            assert_ne!(x.section, y.section);
        }
    }
    for (i, b) in bids.iter().enumerate() {
        for c in &b.sections {
            let owned = a.owner(c) == Some(b.company);
            assert_eq!(owned, a.accepted[i]);
        }
    }
    assert_eq!(a.accepted, vec![true, false, true, true]);
    assert_eq!(a.total, 9);
}

#[test]
fn deterministic_results() {
    let bids = vec![bid(0, &[(0, 0)], 3), bid(1, &[(0, 0)], 3), bid(2, &[(1, 0)], 3), bid(0, &[(1, 0)], 3)];
    let a = resolve_bids(&bids).unwrap();
    let b = resolve_bids(&bids).unwrap();
    assert_eq!(a.accepted, b.accepted);
    assert_eq!(a.assignments, b.assignments);
    assert_eq!(a.total, b.total);
}

#[test]
fn step_limit_falls_back_to_greedy() {
    let bids = vec![bid(0, &[(0, 0), (1, 0)], 10), bid(1, &[(0, 0)], 6), bid(2, &[(1, 0)], 6)];
    let a = resolve_with(&bids, Strategy::StepLimit(1)).unwrap();
    assert!(!a.exact);
    assert_eq!(a.accepted, vec![true, false, false]);
    assert_eq!(a.total, 10);
}

#[test]
fn generous_step_limit_is_exact() {
    let bids = vec![bid(0, &[(0, 0), (1, 0)], 10), bid(1, &[(0, 0)], 6), bid(2, &[(1, 0)], 6)];
    let a = resolve_with(&bids, Strategy::StepLimit(1000)).unwrap();
    assert!(a.exact);
    assert_eq!(a.accepted, vec![false, true, true]);
    assert_eq!(a.total, 12);
}

#[test]
fn many_disjoint_bids_resolve_quickly() {
    let bids: Vec<Bid> = (0..30).map(|i| bid(i % 3, &[(i, 0)], 1 + i)).collect();
    let a = resolve_bids(&bids).unwrap();
    assert!(a.accepted.iter().all(|&b| b));
    assert_eq!(a.total, (1..=30).sum::<u32>() as u64);
}
