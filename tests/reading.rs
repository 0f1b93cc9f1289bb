use sudoku::{Indices, ReadError, reader};

const ONE: &str = "Grid 01
003020600
900305001
001806400
008102900
700000008
006708200
002609500
800203009
005010300
";

const TWO: &str = "Grid 02
200080300
060070084
030500209
000105408
000000000
402706000
301007040
720040060
004010003
";

#[test]
fn reads_the_clues_of_one_puzzle() {
    let ind = Indices::new();
    let grids = reader(ONE, 1, &ind).unwrap();
    assert_eq!(grids.len(), 1);
    let g = &grids[0];
    assert_eq!(g.cell_value(0, 2), 3);
    assert_eq!(g.cell_value(0, 4), 2);
    assert_eq!(g.cell_value(8, 6), 3);
    assert_eq!(g.cell_value(0, 0), 0);
    assert!(!g.admits(0, 0, 2));
    assert!(g.admits(0, 0, 3));
}

#[test]
fn reads_no_more_than_asked() {
    let ind = Indices::new();
    let text = format!("{}{}", ONE, TWO);
    assert_eq!(reader(&text, 1, &ind).unwrap().len(), 1);
    let both = reader(&text, 2, &ind).unwrap();
    assert_eq!(both.len(), 2);
    assert_eq!(both[1].cell_value(0, 0), 2);
    assert_eq!(reader(&text, 10, &ind).unwrap().len(), 2);
}

#[test]
fn zero_asked_still_reads_one() {
    let ind = Indices::new();
    let text = format!("{}{}", ONE, TWO);
    assert_eq!(reader(&text, 0, &ind).unwrap().len(), 1);
}

#[test]
fn empty_text_reads_nothing() {
    let ind = Indices::new();
    assert_eq!(reader("", 5, &ind).unwrap().len(), 0);
    assert_eq!(reader("header without a line break", 5, &ind).unwrap().len(), 0);
}

#[test]
fn short_text_gives_a_partial_puzzle() {
    let ind = Indices::new();
    let grids = reader("Grid\n12\n000000003", 1, &ind).unwrap();
    assert_eq!(grids.len(), 1);
    assert_eq!(grids[0].cell_value(0, 0), 1);
    assert_eq!(grids[0].cell_value(0, 1), 2);
    assert_eq!(grids[0].cell_value(0, 2), 0);
    assert_eq!(grids[0].cell_value(1, 8), 3);
    assert_eq!(grids[0].cell_value(2, 0), 0);
}

#[test]
fn refuses_a_character_that_is_no_digit() {
    let ind = Indices::new();
    let r = reader("Grid\n00x000000\n", 1, &ind);
    assert!(matches!(r, Err(ReadError::NotADigit)));
    let crlf = reader("Grid\r\n000000000\r\n", 1, &ind);
    assert!(matches!(crlf, Err(ReadError::NotADigit)));
}

#[test]
fn header_text_is_ignored() {
    let ind = Indices::new();
    let grids = reader("Grid x? 01\n000000001\n", 1, &ind).unwrap();
    assert_eq!(grids[0].cell_value(0, 8), 1);
}

#[test]
fn refuses_a_digit_past_the_ninth_column() {
    let ind = Indices::new();
    let r = reader("Grid\n0000000005\n", 1, &ind);
    assert!(matches!(r, Err(ReadError::RowTooLong)));
    let zeros = reader("Grid\n00000000000\n", 1, &ind).unwrap();
    assert_eq!(zeros.len(), 1);
}

#[test]
fn refuses_conflicting_clues() {
    let ind = Indices::new();
    let same_row = reader("Grid\n500000005\n", 1, &ind);
    assert!(matches!(same_row, Err(ReadError::Conflict)));
    let same_block = reader("Grid\n700000000\n070000000\n", 1, &ind);
    assert!(matches!(same_block, Err(ReadError::Conflict)));
}

#[test]
fn read_puzzle_solves() {
    let ind = Indices::new();
    let mut grids = reader(ONE, 1, &ind).unwrap();
    assert!(sudoku::sudoku_loop(&mut grids[0], 1));
    assert_eq!(grids[0].corner_val(), 483);
}
