use flooring::{starting_stock, starting_used, RowState, State, Stock};

fn bins_default() -> Vec<Stock> {
    vec![
        Stock { count: 10, length: 900 },
        Stock { count: 10, length: 450 },
        Stock { count: 20, length: 225 },
        Stock { count: 20, length: 80 },
    ]
}

#[test]
fn starting_stock_copies_counts() {
    let bins = bins_default();
    assert_eq!(starting_stock(&bins), vec![10, 10, 20, 20]);
}

#[test]
fn starting_used_is_zeroed() {
    assert_eq!(starting_used(4), vec![0, 0, 0, 0]);
}

#[test]
fn rows_fill_width_exactly() {
    // Every enumerated row pattern sums to the row width by length and
    // stays within each bin's count.
    let bins = bins_default();
    let rows = RowState::legal_rows(&bins, 1960);
    assert!(!rows.is_empty());
    for row in &rows {
        assert_eq!(row.len(), bins.len());
        let mut w: u64 = 0;
        for (i, &n) in row.iter().enumerate() {
            assert!(n <= bins[i].count);
            w += (n as u64) * bins[i].length;
        }
        assert_eq!(w, 1960);
    }
}

#[test]
fn rows_sorted_by_board_count() {
    let bins = bins_default();
    let rows = RowState::legal_rows(&bins, 1960);
    let counts: Vec<usize> = rows.iter().map(|r| r.iter().sum()).collect();
    for pair in counts.windows(2) {
        assert!(pair[0] <= pair[1]);
    }
}

#[test]
fn enumeration_is_repeatable() {
    // Running the enumerator twice on the same input yields the same
    // sequence of histograms.
    let bins = bins_default();
    assert_eq!(
        RowState::legal_rows(&bins, 1960),
        RowState::legal_rows(&bins, 1960)
    );
}

#[test]
fn equal_counts_order_lexicographically() {
    // Two bins of the same length give patterns with equal board counts;
    // the tie-break is lexicographic.
    let bins = vec![
        Stock { count: 2, length: 500 },
        Stock { count: 2, length: 500 },
    ];
    let rows = RowState::legal_rows(&bins, 1000);
    assert_eq!(rows, vec![vec![0, 2], vec![1, 1], vec![2, 0]]);
}

#[test]
fn width_smaller_than_every_board() {
    let bins = vec![Stock { count: 3, length: 700 }];
    assert!(RowState::legal_rows(&bins, 350).is_empty());
}

#[test]
fn full_instance_has_solution() {
    // The default instance is feasible: ten rows, each exactly 1960 by
    // length, and the bins are never overdrawn.
    let bins = bins_default();
    let s = State::solve(&bins, 1960, 10).expect("instance should be solvable");
    assert_eq!(s.used.len(), 10);
    assert_eq!(s.cap, 0);
    let mut totals = vec![0usize; 4];
    for &c in &s.used {
        assert!(c < s.choices.len());
        let row = &s.choices[c];
        let mut w: u64 = 0;
        for (i, &n) in row.iter().enumerate() {
            totals[i] += n;
            w += (n as u64) * bins[i].length;
        }
        assert_eq!(w, 1960);
    }
    for (i, &t) in totals.iter().enumerate() {
        assert!(t <= bins[i].count);
    }
}

#[test]
fn single_short_board_is_infeasible() {
    // One 500 board cannot fill a 1000 row, so there is no row pattern and
    // no floor solution.
    let bins = vec![Stock { count: 1, length: 500 }];
    assert!(RowState::legal_rows(&bins, 1000).is_empty());
    assert!(State::solve(&bins, 1000, 1).is_none());
}

#[test]
fn two_short_boards_fill_one_row() {
    // Two 500 boards fill a 1000 row: one pattern, one row laid with it.
    let bins = vec![Stock { count: 2, length: 500 }];
    let rows = RowState::legal_rows(&bins, 1000);
    assert_eq!(rows, vec![vec![2]]);
    let s = State::solve(&bins, 1000, 1).expect("one row of two boards");
    assert_eq!(s.used, vec![0]);
    assert_eq!(s.stock, vec![0]);
}

#[test]
fn zero_rows_always_solvable() {
    // A floor of no rows is covered by the empty solution, whatever the
    // stock or patterns.
    let bins = vec![Stock { count: 1, length: 500 }];
    let s = State::solve(&bins, 1000, 0).expect("empty floor");
    assert!(s.used.is_empty());
    let none = vec![Stock { count: 0, length: 7 }];
    assert!(State::solve(&none, 3, 0).is_some());
}

#[test]
fn short_inventory_is_infeasible() {
    // Total inventory length 500 cannot cover two rows of width 500.
    let bins = vec![Stock { count: 1, length: 500 }];
    assert!(State::solve(&bins, 500, 2).is_none());
}

#[test]
fn resolving_gives_same_solution() {
    // The search order is deterministic, so re-solving returns the same
    // first-feasible solution.
    let bins = bins_default();
    let a = State::solve(&bins, 1960, 10).expect("solvable");
    let b = State::solve(&bins, 1960, 10).expect("solvable");
    assert_eq!(a.used, b.used);
    assert_eq!(a.choices, b.choices);
    assert_eq!(a.stock, b.stock);
    assert_eq!(a.cap, b.cap);
}

#[test]
fn solution_stock_is_what_remains() {
    // With slack in the inventory the solution reports the leftover stock.
    let bins = vec![Stock { count: 3, length: 500 }];
    let s = State::solve(&bins, 1000, 1).expect("one row, one board spare");
    assert_eq!(s.used.len(), 1);
    assert_eq!(s.stock, vec![1]);
}
