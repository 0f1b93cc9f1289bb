use sudoku::{Indices, SudokuCell, SudokuGrid, sudoku_loop};

const PUZZLE: [&str; 9] = [
    "003020600",
    "900305001",
    "001806400",
    "008102900",
    "700000008",
    "006708200",
    "002609500",
    "800203009",
    "005010300",
];

const SOLUTION: [&str; 9] = [
    "483921657",
    "967345821",
    "251876493",
    "548132976",
    "729564138",
    "136798245",
    "372689514",
    "814253769",
    "695417382",
];

fn digit(rows: &[&str; 9], r: usize, c: usize) -> u8 {
    rows[r].as_bytes()[c] - b'0'
}

/// Places the nonzero digits of `rows`, checking that each is still a candidate.
fn grid_from<'a>(ind: &'a Indices, rows: &[&str; 9]) -> SudokuGrid<'a> {
    let mut g = SudokuGrid::new(ind);
    for r in 0..9 {
        for c in 0..9 {
            let d = digit(rows, r, c);
            if d != 0 {
                assert!(g.admits(r, c, d as usize - 1));
                g.set_cell(r, c, d);
            }
        }
    }
    g
}

fn values(g: &SudokuGrid) -> Vec<u8> {
    let mut out = Vec::new();
    for r in 0..9 {
        for c in 0..9 {
            out.push(g.cell_value(r, c));
        }
    }
    out
}

fn expected(rows: &[&str; 9]) -> Vec<u8> {
    let mut out = Vec::new();
    for r in 0..9 {
        for c in 0..9 {
            out.push(digit(rows, r, c));
        }
    }
    out
}

/// Brute-force check of every counter and every candidate count.
fn assert_bookkeeping(g: &SudokuGrid, ind: &Indices) {
    for v in 0..9 {
        for grp in 0..9 {
            for (kind, table) in [&ind.rows, &ind.cols, &ind.blks].iter().enumerate() {
                let hosts = table[grp].iter().filter(|p| g.admits(p.0, p.1, v)).count();
                assert_eq!(g.group_counter(kind, grp, v) as usize, hosts);
            }
        }
    }
    for r in 0..9 {
        for c in 0..9 {
            let n = (0..9).filter(|&v| g.admits(r, c, v)).count();
            assert_eq!(g.candidate_count(r, c) as usize, n);
            if g.cell_value(r, c) != 0 {
                assert_eq!(n, 0);
            }
        }
    }
}

/// The solution with a rectangle of cells cleared that only a guess can settle.
fn pair_puzzle() -> [String; 9] {
    let mut rows: Vec<String> = SOLUTION.iter().map(|s| s.to_string()).collect();
    for &(r, c) in &[(1usize, 1usize), (1, 5), (2, 1), (2, 5)] {
        let mut b = rows[r].clone().into_bytes();
        b[c] = b'0';
        rows[r] = String::from_utf8(b).unwrap();
    }
    [
        rows[0].clone(), rows[1].clone(), rows[2].clone(), rows[3].clone(), rows[4].clone(),
        rows[5].clone(), rows[6].clone(), rows[7].clone(), rows[8].clone(),
    ]
}

fn as_strs(rows: &[String; 9]) -> [&str; 9] {
    [
        &rows[0], &rows[1], &rows[2], &rows[3], &rows[4], &rows[5], &rows[6], &rows[7], &rows[8],
    ]
}

fn is_valid_solution(g: &SudokuGrid, ind: &Indices) -> bool {
    for table in [&ind.rows, &ind.cols, &ind.blks] {
        for grp in 0..9 {
            let mut seen = [false; 10];
            for p in &table[grp] {
                let v = g.cell_value(p.0, p.1) as usize;
                if v == 0 || seen[v] {
                    return false;
                }
                seen[v] = true;
            }
        }
    }
    true
}

#[test]
fn indices_list_rows_columns_and_blocks() {
    let ind = Indices::new();
    assert_eq!(ind.rows.len(), 9);
    assert_eq!(ind.rows[4][7], (4, 7));
    assert_eq!(ind.cols[4][7], (7, 4));
    assert_eq!(ind.blks[0], vec![(0, 0), (0, 1), (0, 2), (1, 0), (1, 1), (1, 2), (2, 0), (2, 1), (2, 2)]);
    assert_eq!(ind.blks[5][4], (4, 7));
    assert_eq!(ind.blks[7][8], (8, 5));
}

#[test]
fn new_cell_admits_everything() {
    let cell = SudokuCell::new(2, 1);
    assert_eq!(cell.value, 0);
    assert_eq!(cell.candidates, vec![true; 9]);
    assert_eq!(cell.candidate_amnt, 9);
    assert_eq!(cell.blk_id, 7);
    let copy = cell.clone();
    assert_eq!(copy.candidates, cell.candidates);
    assert_eq!(copy.blk_id, 7);
}

#[test]
fn new_grid_is_empty_with_full_counters() {
    let ind = Indices::new();
    let g = SudokuGrid::new(&ind);
    for r in 0..9 {
        for c in 0..9 {
            assert_eq!(g.cell_value(r, c), 0);
            assert_eq!(g.candidate_count(r, c), 9);
        }
    }
    assert_eq!(g.group_counter(0, 3, 4), 9);
    assert_eq!(g.group_counter(2, 8, 0), 9);
    assert!(!g.is_complete(false));
    assert_eq!(g.corner_val(), 0);
    assert!(g.dualism().is_empty());
}

#[test]
fn set_cell_clears_the_cell_and_its_peers() {
    let ind = Indices::new();
    let mut g = SudokuGrid::new(&ind);
    g.set_cell(4, 4, 5);
    assert_eq!(g.cell_value(4, 4), 5);
    assert_eq!(g.candidate_count(4, 4), 0);
    assert!(!g.admits(4, 0, 4));
    assert!(!g.admits(0, 4, 4));
    assert!(!g.admits(3, 5, 4));
    assert!(g.admits(0, 0, 4));
    assert!(g.admits(4, 0, 3));
    assert_eq!(g.candidate_count(4, 0), 8);
    assert_eq!(g.candidate_count(0, 0), 9);
    // row 4 still admits 5 nowhere; its counter follows
    assert_eq!(g.group_counter(0, 4, 4), 0);
    assert_eq!(g.group_counter(0, 0, 4), 8);
    assert_eq!(g.group_counter(2, 4, 4), 0);
    assert_eq!(g.group_counter(2, 0, 4), 9);
    // a value the cell had: the counters of its other values lose it
    assert_eq!(g.group_counter(0, 4, 0), 8);
    assert_bookkeeping(&g, &ind);
}

#[test]
fn counters_match_brute_force_after_placements_and_propagation() {
    let ind = Indices::new();
    let mut g = grid_from(&ind, &PUZZLE);
    assert_bookkeeping(&g, &ind);
    for _ in 0..5 {
        g.update();
        assert_bookkeeping(&g, &ind);
    }
}

#[test]
fn retracting_twice_equals_once() {
    let ind = Indices::new();
    let mut g = SudokuGrid::new(&ind);
    g.set_cell(0, 0, 1);
    assert!(g.flip_val(5, 5, 2));
    let after_once = values(&g);
    let count_once = g.candidate_count(5, 5);
    let counter_once = g.group_counter(0, 5, 2);
    assert!(!g.flip_val(5, 5, 2));
    assert_eq!(values(&g), after_once);
    assert_eq!(g.candidate_count(5, 5), count_once);
    assert_eq!(g.candidate_count(5, 5), 8);
    assert_eq!(g.group_counter(0, 5, 2), counter_once);
    assert_eq!(g.group_counter(0, 5, 2), 8);
    assert!(!g.admits(5, 5, 2));
    assert_bookkeeping(&g, &ind);
}

#[test]
fn is_complete_on_a_full_valid_grid() {
    let ind = Indices::new();
    let g = grid_from(&ind, &SOLUTION);
    assert!(g.is_complete(true));
    assert!(g.is_complete(false));
    assert_eq!(g.corner_val(), 483);
}

#[test]
fn is_complete_false_with_an_empty_cell() {
    let ind = Indices::new();
    let mut rows = SOLUTION;
    rows[8] = "695417380";
    let g = grid_from(&ind, &rows);
    assert!(!g.is_complete(true));
    assert!(!g.is_complete(false));
}

#[test]
fn forced_placement_alone_solves_an_easy_puzzle() {
    let ind = Indices::new();
    let mut g = grid_from(&ind, &PUZZLE);
    let mut rounds = 0;
    while !g.is_complete(false) {
        assert!(g.update(), "propagation stalled");
        rounds += 1;
        assert!(rounds < 200);
    }
    assert!(g.is_complete(true));
    assert_eq!(values(&g), expected(&SOLUTION));
}

#[test]
fn sudoku_loop_solves_the_easy_puzzle_without_guessing() {
    let ind = Indices::new();
    let mut g = grid_from(&ind, &PUZZLE);
    assert!(sudoku_loop(&mut g, 0));
    assert_eq!(values(&g), expected(&SOLUTION));
    assert_eq!(g.corner_val(), 483);
}

#[test]
fn pair_puzzle_stalls_propagation() {
    let ind = Indices::new();
    let rows = pair_puzzle();
    let mut g = grid_from(&ind, &as_strs(&rows));
    let before = values(&g);
    assert!(!g.update());
    assert_eq!(values(&g), before);
    assert_eq!(g.candidate_count(1, 1), 2);
}

#[test]
fn dualism_finds_the_row_pair() {
    let ind = Indices::new();
    let rows = pair_puzzle();
    let g = grid_from(&ind, &as_strs(&rows));
    // values 5 and 6 (places 4 and 5), only in cells (1, 1) and (1, 5) of row 1
    assert_eq!(g.dualism(), vec![4, 5, 1, 1, 1, 5]);
}

#[test]
fn one_guess_solves_with_depth_one_and_fails_with_depth_zero() {
    let ind = Indices::new();
    let rows = pair_puzzle();
    let mut shallow = grid_from(&ind, &as_strs(&rows));
    assert!(!sudoku_loop(&mut shallow, 0));
    let mut deep = grid_from(&ind, &as_strs(&rows));
    assert!(sudoku_loop(&mut deep, 1));
    assert!(deep.is_complete(true));
    assert!(is_valid_solution(&deep, &ind));
    // the first guess puts 5 at (1, 1) and 6 at (1, 5)
    assert_eq!(deep.cell_value(1, 1), 5);
    assert_eq!(deep.cell_value(1, 5), 6);
    assert_eq!(deep.cell_value(2, 1), 6);
    assert_eq!(deep.cell_value(2, 5), 5);
}

#[test]
fn full_grid_is_accepted_unchanged() {
    let ind = Indices::new();
    let mut g = grid_from(&ind, &SOLUTION);
    assert!(g.is_complete(true));
    let before = values(&g);
    assert!(sudoku_loop(&mut g, 0));
    assert_eq!(values(&g), before);
    assert!(sudoku_loop(&mut g, 3));
    assert_eq!(values(&g), before);
}

#[test]
fn contradictory_grid_fails_for_every_depth() {
    let ind = Indices::new();
    for depth in 0..=5 {
        let mut g = SudokuGrid::new(&ind);
        for c in 0..8 {
            g.set_cell(0, c, c as u8 + 1);
        }
        g.set_cell(1, 8, 9);
        // (0, 8) can take nothing now
        assert_eq!(g.candidate_count(0, 8), 0);
        assert!(!sudoku_loop(&mut g, depth));
    }
}

#[test]
fn fresh_grid_has_no_forced_move() {
    let ind = Indices::new();
    let mut g = SudokuGrid::new(&ind);
    assert!(!g.update());
    assert_eq!(g.candidate_count(0, 0), 9);
}

#[test]
fn hidden_single_is_placed() {
    let ind = Indices::new();
    let mut g = SudokuGrid::new(&ind);
    // 1 in rows 1 and 2 and columns 1 and 2 leaves (0, 0) as the only place for 1 in block 0
    g.set_cell(1, 3, 1);
    g.set_cell(2, 6, 1);
    g.set_cell(3, 1, 1);
    g.set_cell(6, 2, 1);
    assert_eq!(g.group_counter(2, 0, 0), 1);
    assert!(g.update());
    assert_eq!(g.cell_value(0, 0), 1);
}

#[test]
fn single_candidate_is_placed() {
    let ind = Indices::new();
    let mut g = SudokuGrid::new(&ind);
    // row 0 holds 1..8 past the first cell, so (0, 0) admits 9 alone
    for c in 1..9 {
        g.set_cell(0, c, c as u8);
    }
    assert_eq!(g.candidate_count(0, 0), 1);
    assert!(g.update());
    assert_eq!(g.cell_value(0, 0), 9);
}

#[test]
fn pointing_pair_clears_the_rest_of_the_row() {
    let ind = Indices::new();
    let mut g = SudokuGrid::new(&ind);
    // block 0 keeps only (0, 0) and (0, 1) open, both admitting 1 and 9
    for (c, v) in [(0usize, 2u8), (1, 3), (2, 4)] {
        g.set_cell(1, c, v);
    }
    for (c, v) in [(0usize, 5u8), (1, 6), (2, 7)] {
        g.set_cell(2, c, v);
    }
    g.set_cell(0, 2, 8);
    assert_eq!(g.group_counter(2, 0, 0), 2);
    assert_eq!(g.group_counter(2, 0, 8), 2);
    assert!(g.admits(0, 5, 0));
    assert!(g.admits(0, 5, 8));
    let before = values(&g);
    assert!(g.update());
    assert_eq!(values(&g), before);
    for c in 3..9 {
        assert!(!g.admits(0, c, 0));
        assert!(!g.admits(0, c, 8));
        assert!(g.admits(0, c, 1));
    }
    assert!(g.admits(0, 0, 0));
    assert!(g.admits(0, 1, 0));
    assert_bookkeeping(&g, &ind);
}

#[test]
fn clone_is_independent() {
    let ind = Indices::new();
    let mut g = SudokuGrid::new(&ind);
    g.set_cell(0, 0, 3);
    let mut copy = g.clone();
    copy.set_cell(8, 8, 4);
    assert_eq!(g.cell_value(8, 8), 0);
    assert_eq!(copy.cell_value(8, 8), 4);
    assert_eq!(copy.cell_value(0, 0), 3);
    assert_eq!(g.group_counter(0, 8, 3), 9);
    assert_bookkeeping(&copy, &ind);
}

#[test]
fn render_lays_out_rows_and_blocks() {
    let ind = Indices::new();
    let g = grid_from(&ind, &SOLUTION);
    let text = String::from_utf8(g.render()).unwrap();
    let expected_text = "\n483 921 657 \n967 345 821 \n251 876 493 \n\n548 132 976 \n729 564 138 \n136 798 245 \n\n372 689 514 \n814 253 769 \n695 417 382 \n\n";
    assert_eq!(text, expected_text);
}
