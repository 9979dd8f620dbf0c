use track_auction::{generate_bid, GridConfig, ScheduleError, Section};

fn grid() -> GridConfig {
    GridConfig { sections: 14, time: 300 }
}

fn cells(pairs: &[(u32, u32)]) -> Vec<Section> {
    pairs.iter().map(|&(location, time)| Section { location, time }).collect()
}

#[test]
fn straight_run_without_stops() {
    let b = generate_bid(grid(), 3, 0, 0, 2, &[], 1, 1, 50).unwrap();
    assert_eq!(b.company, 3);
    assert_eq!(b.amount, 50);
    assert_eq!(b.sections, cells(&[(0, 0), (1, 1), (2, 2)]));
}

#[test]
fn stop_extends_occupation() {
    let b = generate_bid(grid(), 0, 0, 0, 2, &[(1, 2)], 1, 1, 1).unwrap();
    assert_eq!(b.sections, cells(&[(0, 0), (1, 1), (1, 2), (1, 3), (2, 4)]));
}

#[test]
fn footprint_covers_size_locations() {
    let b = generate_bid(grid(), 0, 5, 3, 3, &[], 1, 3, 1).unwrap();
    assert_eq!(b.sections, cells(&[(3, 5), (4, 5), (5, 5)]));
}

#[test]
fn footprint_wraps_round_the_track() {
    let b = generate_bid(grid(), 0, 0, 13, 0, &[], 1, 2, 1).unwrap();
    assert_eq!(b.sections, cells(&[(13, 0), (0, 0), (0, 1), (1, 1)]));
}

#[test]
fn footprint_never_exceeds_track() {
    let small = GridConfig { sections: 2, time: 10 };
    let b = generate_bid(small, 0, 0, 0, 0, &[], 1, 5, 1).unwrap();
    assert_eq!(b.sections, cells(&[(0, 0), (1, 0)]));
}

#[test]
fn stops_at_one_location_served_in_order() {
    // Two stops at location 0: the first wait is 1, the second 3. The train
    // circles once between them.
    let small = GridConfig { sections: 2, time: 20 };
    let b = generate_bid(small, 0, 0, 0, 0, &[(0, 1), (0, 3)], 1, 1, 1).unwrap();
    assert_eq!(b.sections, cells(&[(0, 0), (0, 1), (1, 2), (0, 3), (0, 4), (0, 5), (0, 6)]));
}

#[test]
fn circular_trip_with_stops_at_each_station() {
    let b = generate_bid(grid(), 0, 0, 0, 0, &[(0, 32), (4, 32), (8, 32), (0, 32)], 1, 2, 1024).unwrap();
    let last = b.sections.iter().map(|c| c.time).max().unwrap();
    assert_eq!(last, 32 + 4 + 32 + 4 + 32 + 6 + 32);
    assert!(b.sections.iter().all(|c| c.location < 14 && c.time < 300));
}

#[test]
fn run_past_horizon_is_infeasible() {
    let short = GridConfig { sections: 14, time: 3 };
    assert_eq!(generate_bid(short, 0, 0, 0, 5, &[], 1, 1, 1).unwrap_err(), ScheduleError::InfeasibleSchedule);
}

#[test]
fn unreachable_end_is_infeasible() {
    assert_eq!(generate_bid(grid(), 0, 0, 0, 1, &[], 0, 1, 1).unwrap_err(), ScheduleError::InfeasibleSchedule);
}

#[test]
fn last_slot_of_horizon_is_usable() {
    let short = GridConfig { sections: 14, time: 3 };
    let b = generate_bid(short, 0, 0, 0, 2, &[], 1, 1, 1).unwrap();
    assert_eq!(b.sections, cells(&[(0, 0), (1, 1), (2, 2)]));
}
