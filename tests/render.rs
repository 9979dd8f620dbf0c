use track_auction::{allocation_view, bid_view, resolve_bids, Bid, GridConfig, Section};

#[test]
fn bid_view_marks_named_cells() {
    let grid = GridConfig { sections: 3, time: 2 };
    let b = Bid { company: 0, sections: vec![Section { location: 1, time: 0 }, Section { location: 2, time: 1 }], amount: 1 };
    let v = bid_view(grid, &b);
    assert_eq!(v, vec![vec![false, false], vec![true, false], vec![false, true]]);
}

#[test]
fn allocation_view_shows_owners() {
    let grid = GridConfig { sections: 2, time: 2 };
    let bids = vec![
        Bid { company: 4, sections: vec![Section { location: 0, time: 0 }], amount: 2 },
        Bid { company: 6, sections: vec![Section { location: 0, time: 0 }, Section { location: 1, time: 1 }], amount: 1 },
        Bid { company: 9, sections: vec![Section { location: 1, time: 0 }], amount: 1 },
    ];
    let a = resolve_bids(&bids).unwrap();
    let v = allocation_view(grid, &a);
    assert_eq!(v, vec![vec![Some(4), None], vec![Some(9), None]]);
}
