use vstd::prelude::*;
use vstd::string::StringSliceAdditionalSpecFns;

use crate::indices::{Indices, peers};
use crate::sudokugrid::{SudokuGrid, on_board};

verus! {

/// Why a text of puzzles was refused.
#[derive(Debug, PartialEq, Eq)]
pub enum ReadError {
    /// A row line holds a character other than a digit.
    NotADigit,
    /// A row line holds a nonzero digit past the ninth column.
    RowTooLong,
    /// Two cells that share a row, column or block are given the same value.
    Conflict,
}

/// The byte of a line break.
pub const NEWLINE: u8 = 10;

/// The byte of the digit 0.
pub const ZERO: u8 = 48;

/// Position of the first line break at or after `i`, or the length of `s` when none follows.
pub open spec fn line_end(s: Seq<u8>, i: int) -> int
    decreases s.len() - i,
{
    if i < 0 || i >= s.len() {
        s.len() as int
    } else if s[i] == NEWLINE {
        i
    } else {
        line_end(s, i + 1)
    }
}

/// Position where line `n` starts, lines being numbered from 0.
pub open spec fn line_start(s: Seq<u8>, n: nat) -> int
    decreases n,
{
    if n == 0 {
        0
    } else {
        line_end(s, line_start(s, (n - 1) as nat)) + 1
    }
}

/// Line `n` exists and ends with a line break.
pub open spec fn line_closed(s: Seq<u8>, n: nat) -> bool {
    line_end(s, line_start(s, n)) < s.len()
}

/// The line of row `r` of puzzle `p`: each puzzle is a header line and nine row lines.
pub open spec fn row_line(p: nat, r: int) -> nat {
    (10 * p + 1 + r) as nat
}

/// How many puzzles from the `p`-th on are read: a puzzle is read while it is below the
/// limit and its header line ends with a line break.
pub open spec fn puzzles_from(s: Seq<u8>, limit: nat, p: nat) -> nat
    decreases limit - p,
{
    if p >= limit || !line_closed(s, 10 * p) {
        0
    } else {
        1 + puzzles_from(s, limit, p + 1)
    }
}

/// How many puzzles the reader takes from `s`; at least one is asked for.
pub open spec fn puzzle_count(s: Seq<u8>, read_amount: nat) -> nat {
    puzzles_from(s, if read_amount == 0 { 1 } else { read_amount }, 0)
}

/// The byte is one of the digits 0 to 9.
pub open spec fn is_digit(b: u8) -> bool {
    ZERO <= b <= ZERO + 9
}

/// The clue of puzzle `p` at row `r`, column `c`: the digit at that place of the row's
/// line, or 0 past the end of the line.
pub open spec fn clue(s: Seq<u8>, p: nat, r: int, c: int) -> int {
    let st = line_start(s, row_line(p, r));
    if st + c < line_end(s, st) {
        s[st + c] - ZERO
    } else {
        0
    }
}

/// The `x`-th byte of `s` lies on row `r` of puzzle `p`.
pub open spec fn on_row(s: Seq<u8>, p: nat, r: int, x: int) -> bool {
    0 <= r < 9 && line_start(s, row_line(p, r)) <= x < line_end(s, line_start(s, row_line(p, r)))
}

/// Column of the `x`-th byte of `s` on row `r` of puzzle `p`.
pub open spec fn column_of(s: Seq<u8>, p: nat, r: int, x: int) -> int {
    x - line_start(s, row_line(p, r))
}

/// A row of puzzle `p` holds a character other than a digit.
pub open spec fn bad_char_in(s: Seq<u8>, p: nat) -> bool {
    exists|r: int, x: int| #[trigger] on_row(s, p, r, x) && !is_digit(s[x])
}

/// A row of puzzle `p` holds a nonzero digit past the ninth column.
pub open spec fn long_row_in(s: Seq<u8>, p: nat) -> bool {
    exists|r: int, x: int| #[trigger] on_row(s, p, r, x) && is_digit(s[x]) && s[x] != ZERO && column_of(s, p, r, x) >= 9
}

/// Two distinct peers of puzzle `p` have the same nonzero clue.
pub open spec fn conflict_in(s: Seq<u8>, p: nat) -> bool {
    exists|r: int, c: int, r2: int, c2: int|
        on_board(r, c) && on_board(r2, c2) && (r, c) != (r2, c2) && peers(r, c, r2, c2)
            && #[trigger] clue(s, p, r, c) != 0 && #[trigger] clue(s, p, r2, c2) == clue(s, p, r, c)
}

/// Puzzle `p` is well formed.
pub open spec fn puzzle_ok(s: Seq<u8>, p: nat) -> bool {
    !bad_char_in(s, p) && !long_row_in(s, p) && !conflict_in(s, p)
}

/// Every puzzle that the reader takes from `s` is well formed.
pub open spec fn text_ok(s: Seq<u8>, read_amount: nat) -> bool {
    forall|p: nat| p < puzzle_count(s, read_amount) ==> #[trigger] puzzle_ok(s, p)
}

/// The candidates of every cell are exactly the values that none of its peers holds.
pub open spec fn settled(g: SudokuGrid) -> bool {
    forall|r: int, c: int, v: int|
        on_board(r, c) && 0 <= v < 9 ==> #[trigger] g.has(r, c, v) == (g.value_at(r, c) == 0 && forall|r2: int, c2: int|
            on_board(r2, c2) && peers(r, c, r2, c2) ==> #[trigger] g.value_at(r2, c2) != v + 1)
}

/// The grid holds the clues of puzzle `p` of `s`, and nothing else.
pub open spec fn holds_clues(g: SudokuGrid, s: Seq<u8>, p: nat) -> bool {
    forall|r: int, c: int| on_board(r, c) ==> #[trigger] g.value_at(r, c) == clue(s, p, r, c)
}

/// Placing a value that a cell of a settled grid admits keeps the grid settled.
proof fn lemma_place_settled(a: SudokuGrid, b: SudokuGrid, row: int, col: int, v: int)
    requires
        settled(a),
        on_board(row, col),
        0 <= v < 9,
        a.value_at(row, col) == 0,
        a.place_step(&b, row, col, v),
    ensures
        settled(b),
{
    assert forall|r: int, c: int, w: int| on_board(r, c) && 0 <= w < 9 implies #[trigger] b.has(r, c, w) == (b.value_at(r, c) == 0 && forall|r2: int, c2: int|
        on_board(r2, c2) && peers(r, c, r2, c2) ==> #[trigger] b.value_at(r2, c2) != w + 1) by {
        assert(b.value_at(r, c) == if r == row && c == col { v + 1 } else { a.value_at(r, c) });
        if b.has(r, c, w) {
            assert forall|r2: int, c2: int| on_board(r2, c2) && peers(r, c, r2, c2) implies #[trigger] b.value_at(r2, c2) != w + 1 by {
                assert(b.value_at(r2, c2) == if r2 == row && c2 == col { v + 1 } else { a.value_at(r2, c2) });
            }
        } else if b.value_at(r, c) == 0 {
            if !a.has(r, c, w) {
                let (r2, c2) = choose|r2: int, c2: int| on_board(r2, c2) && peers(r, c, r2, c2) && !(#[trigger] a.value_at(r2, c2) != w + 1);
                assert(b.value_at(r2, c2) == if r2 == row && c2 == col { v + 1 } else { a.value_at(r2, c2) });
            } else {
                assert(b.value_at(row, col) == v + 1);
            }
        }
    }
}

/// A line that runs to the end of the text is the last one: every later line starts past
/// the end and is empty.
proof fn lemma_past_end(s: Seq<u8>, k: nat, n: nat)
    requires
        line_end(s, line_start(s, k)) >= s.len(),
        k < n,
    ensures
        line_start(s, n) == s.len() + 1,
        line_end(s, line_start(s, n)) == s.len(),
        !line_closed(s, n),
    decreases n - k,
{
    if n > k + 1 {
        lemma_past_end(s, k, (n - 1) as nat);
    }
    assert(line_end(s, line_start(s, (n - 1) as nat)) <= s.len()) by {
        lemma_line_end_bound(s, line_start(s, (n - 1) as nat));
    }
}

/// A line ends at or after where it starts, and no later than the end of the text.
proof fn lemma_line_end_bound(s: Seq<u8>, i: int)
    ensures
        line_end(s, i) <= s.len(),
        0 <= i <= s.len() ==> i <= line_end(s, i),
        0 <= i < line_end(s, i) ==> s[i] != NEWLINE,
    decreases s.len() - i,
{
    if 0 <= i < s.len() && s[i] != NEWLINE {
        lemma_line_end_bound(s, i + 1);
    }
}

/// `e` is a reason to refuse puzzle `p` of `s`.
pub open spec fn error_reason(s: Seq<u8>, p: nat, e: ReadError) -> bool {
    match e {
        ReadError::NotADigit => bad_char_in(s, p),
        ReadError::RowTooLong => long_row_in(s, p),
        ReadError::Conflict => conflict_in(s, p),
    }
}

/// What `reader` returns for the bytes `s`: the puzzles it takes, each placed on a grid over
/// `ind` that holds exactly its clues, when they are all well formed; else an error that one
/// of them gives a reason for.
pub open spec fn read_outcome(s: Seq<u8>, read_amount: nat, ind: Indices, r: Result<Vec<SudokuGrid>, ReadError>) -> bool {
    match r {
        Ok(v) => {
            &&& text_ok(s, read_amount)
            &&& v@.len() == puzzle_count(s, read_amount)
            &&& forall|i: int| 0 <= i < v@.len() ==> {
                let g = #[trigger] v@[i];
                &&& g.wf()
                &&& g.topology() == ind
                &&& settled(g)
                &&& holds_clues(g, s, i as nat)
            }
        },
        Err(e) => !text_ok(s, read_amount) && exists|p: nat| p < puzzle_count(s, read_amount) && #[trigger] error_reason(s, p, e),
    }
}

/// The cells before `(row, col)` in reading order.
pub open spec fn read_before(r: int, c: int, row: int, col: int) -> bool {
    r < row || (r == row && c < col)
}

/// No two distinct peers among the cells before `(row, col)` share a nonzero clue.
pub open spec fn agree_before(s: Seq<u8>, p: nat, row: int, col: int) -> bool {
    forall|r: int, c: int, r2: int, c2: int|
        on_board(r, c) && on_board(r2, c2) && read_before(r, c, row, col) && read_before(r2, c2, row, col) && (r, c) != (r2, c2)
            && peers(r, c, r2, c2) && #[trigger] clue(s, p, r, c) != 0 ==> #[trigger] clue(s, p, r2, c2) != clue(s, p, r, c)
}

/// The grid holds the clues of the cells before `(row, col)`, and 0 elsewhere.
pub open spec fn filled_before(g: SudokuGrid, s: Seq<u8>, p: nat, row: int, col: int) -> bool {
    forall|r: int, c: int| on_board(r, c) ==> #[trigger] g.value_at(r, c) == if read_before(r, c, row, col) {
        clue(s, p, r, c)
    } else {
        0
    }
}

/// Every byte on row `row` of puzzle `p` before `x` is a digit, and 0 past the ninth column.
pub open spec fn row_ok_before(s: Seq<u8>, p: nat, row: int, x: int) -> bool {
    forall|y: int| #[trigger] on_row(s, p, row, y) && y < x ==> is_digit(s[y]) && (column_of(s, p, row, y) >= 9 ==> s[y] == ZERO)
}

/// Places the clues of row `row` of puzzle `p`, read from `s[st..en]`.
fn read_row(grid: &mut SudokuGrid, s: &[u8], row: usize, st: usize, en: usize, Ghost(p): Ghost<nat>) -> (r: Result<(), ReadError>)
    requires
        old(grid).wf(),
        settled(*old(grid)),
        row < 9,
        st as int == line_start(s@, row_line(p, row as int)),
        en as int == line_end(s@, st as int),
        st <= en <= s@.len(),
        filled_before(*old(grid), s@, p, row as int, 0),
        agree_before(s@, p, row as int, 0),
    ensures
        final(grid).wf(),
        settled(*final(grid)),
        final(grid).topology() == old(grid).topology(),
        r is Ok ==> filled_before(*final(grid), s@, p, row as int + 1, 0),
        r is Ok ==> agree_before(s@, p, row as int + 1, 0),
        r is Ok ==> row_ok_before(s@, p, row as int, en as int),
        r matches Err(e) ==> error_reason(s@, p, e),
{
    let ghost g0 = *grid;
    for x in st..en
        invariant
            grid.wf(),
            settled(*grid),
            grid.topology() == g0.topology(),
            g0 == *old(grid),
            row < 9,
            st as int == line_start(s@, row_line(p, row as int)),
            en as int == line_end(s@, st as int),
            st <= en <= s@.len(),
            filled_before(*grid, s@, p, row as int, x - st),
            agree_before(s@, p, row as int, x - st),
            row_ok_before(s@, p, row as int, x as int),
    {
        let ghost g1 = *grid;
        let b = s[x];
        let col = x - st;
        assert(on_row(s@, p, row as int, x as int));
        if b < ZERO || b > ZERO + 9 {
            return Err(ReadError::NotADigit);
        }
        let d = b - ZERO;
        assert(clue(s@, p, row as int, col as int) == d);
        if d != 0 {
            if col >= 9 {
                return Err(ReadError::RowTooLong);
            }
            if !grid.admits(row, col, (d - 1) as usize) {
                proof {
                    assert(grid.value_at(row as int, col as int) == 0);
                    let (r2, c2) = choose|r2: int, c2: int| on_board(r2, c2) && peers(row as int, col as int, r2, c2) && !(#[trigger] grid.value_at(r2, c2) != d + 0);
                    assert(read_before(r2, c2, row as int, col as int));
                    assert(clue(s@, p, r2, c2) == d);
                    assert(conflict_in(s@, p));
                }
                return Err(ReadError::Conflict);
            }
            grid.set_cell(row, col, d);
            proof {
                lemma_place_settled(g1, *grid, row as int, col as int, d - 1);
                assert forall|r: int, c: int| on_board(r, c) implies #[trigger] grid.value_at(r, c) == if read_before(r, c, row as int, col + 1) {
                    clue(s@, p, r, c)
                } else {
                    0
                } by {
                    assert(g1.value_at(r, c) == if read_before(r, c, row as int, col as int) { clue(s@, p, r, c) } else { 0 });
                }
                assert forall|r: int, c: int, r2: int, c2: int|
                    on_board(r, c) && on_board(r2, c2) && read_before(r, c, row as int, col + 1) && read_before(r2, c2, row as int, col + 1) && (r, c) != (r2, c2)
                        && peers(r, c, r2, c2) && #[trigger] clue(s@, p, r, c) != 0 implies #[trigger] clue(s@, p, r2, c2) != clue(s@, p, r, c) by {
                    if r == row && c == col {
                        assert(g1.value_at(r2, c2) == clue(s@, p, r2, c2));
                        assert(!(g1.value_at(r2, c2) == d));
                    } else if r2 == row && c2 == col {
                        assert(g1.value_at(r, c) == clue(s@, p, r, c));
                        assert(peers(r2, c2, r, c));
                        assert(!(g1.value_at(r, c) == d));
                    }
                }
            }
        } else {
            proof {
                assert forall|r: int, c: int| on_board(r, c) implies #[trigger] grid.value_at(r, c) == if read_before(r, c, row as int, col + 1) {
                    clue(s@, p, r, c)
                } else {
                    0
                } by {
                    assert(g1.value_at(r, c) == if read_before(r, c, row as int, col as int) { clue(s@, p, r, c) } else { 0 });
                }
            }
        }
    }
    proof {
        let w = en - st;
        assert forall|r: int, c: int| on_board(r, c) implies #[trigger] grid.value_at(r, c) == if read_before(r, c, row as int + 1, 0) {
            clue(s@, p, r, c)
        } else {
            0
        } by {
            if r == row && c >= w {
                assert(clue(s@, p, r, c) == 0);
            }
        }
        assert forall|r: int, c: int| r == row && c >= w implies clue(s@, p, r, c) == 0 by {}
    }
    Ok(())
}

/// Reads puzzles from `data`: each is a header line, whose text is ignored, and nine lines
/// of digits, one per row, 0 for an empty cell. Reads `read_amount` puzzles (at least one),
/// or fewer where the text ends first, and places each on a new grid over `indices`.
pub fn reader<'a>(data: &str, read_amount: usize, indices: &'a Indices) -> (r: Result<Vec<SudokuGrid<'a>>, ReadError>)
    requires
        indices.wf(),
    ensures
        read_outcome(data.spec_bytes(), read_amount as nat, *indices, r),
{
    let s = data.as_bytes();
    let ghost sb = s@;
    let limit: usize = if read_amount == 0 {
        1
    } else {
        read_amount
    };
    let mut sudokus: Vec<SudokuGrid<'a>> = Vec::new();
    let mut pos: usize = 0;
    let mut finished = false;
    while !finished && sudokus.len() < limit
        invariant
            sb == s@,
            sb == data.spec_bytes(),
            indices.wf(),
            limit == if read_amount == 0 { 1 } else { read_amount },
            sudokus@.len() <= limit,
            !finished ==> pos as int == line_start(sb, 10 * sudokus@.len()) && pos <= sb.len(),
            finished ==> puzzles_from(sb, limit as nat, sudokus@.len()) == 0,
            puzzle_count(sb, read_amount as nat) == sudokus@.len() + puzzles_from(sb, limit as nat, sudokus@.len()),
            forall|i: int| 0 <= i < sudokus@.len() ==> {
                let g = #[trigger] sudokus@[i];
                &&& g.wf()
                &&& g.topology() == *indices
                &&& settled(g)
                &&& holds_clues(g, sb, i as nat)
            },
            forall|i: nat| i < sudokus@.len() ==> #[trigger] puzzle_ok(sb, i),
        decreases limit - sudokus@.len() + if finished { 0int } else { 1int },
    {
        let ghost p = sudokus@.len();
        let h_end = find_line_end(s, pos);
        if h_end >= s.len() {
            finished = true;
        } else {
            assert(puzzles_from(sb, limit as nat, p) == 1 + puzzles_from(sb, limit as nat, p + 1));
            pos = h_end + 1;
            let mut grid = SudokuGrid::new(indices);
            proof {
                assert forall|r: int, c: int, v: int| on_board(r, c) && 0 <= v < 9 implies #[trigger] grid.has(r, c, v) == (grid.value_at(r, c) == 0 && forall|r2: int, c2: int|
                    on_board(r2, c2) && peers(r, c, r2, c2) ==> #[trigger] grid.value_at(r2, c2) != v + 1) by {
                    assert(grid.value_at(r, c) == 0);
                }
            }
            let mut row: usize = 0;
            let mut ended = false;
            while row < 9 && !ended
                invariant
                    sb == s@,
                    sb == data.spec_bytes(),
                    grid.wf(),
                    settled(grid),
                    grid.topology() == *indices,
                    row <= 9,
                    p < limit,
                    line_closed(sb, 10 * p),
                    puzzle_count(sb, read_amount as nat) == p + 1 + puzzles_from(sb, limit as nat, p + 1),
                    !ended ==> pos as int == line_start(sb, row_line(p, row as int)) && pos <= sb.len(),
                    ended ==> 0 < row && line_end(sb, line_start(sb, row_line(p, row - 1))) >= sb.len(),
                    filled_before(grid, sb, p, row as int, 0),
                    agree_before(sb, p, row as int, 0),
                    forall|r: int, x: int| 0 <= r < row && #[trigger] on_row(sb, p, r, x) ==> is_digit(sb[x]) && (column_of(sb, p, r, x) >= 9 ==> sb[x] == ZERO),
                decreases 9 - row,
            {
                let en = find_line_end(s, pos);
                proof {
                    lemma_line_end_bound(sb, pos as int);
                }
                let step = read_row(&mut grid, s, row, pos, en, Ghost(p));
                match step {
                    Err(e) => {
                        proof {
                            assert(error_reason(sb, p, e));
                            assert(!puzzle_ok(sb, p));
                            assert(p < puzzle_count(sb, read_amount as nat));
                        }
                        return Err(e);
                    },
                    Ok(()) => {},
                }
                if en >= s.len() {
                    ended = true;
                } else {
                    pos = en + 1;
                }
                row = row + 1;
            }
            proof {
                if ended {
                    let k = row_line(p, row - 1);
                    assert forall|r: int| row <= r < 9 implies line_start(sb, row_line(p, r)) == sb.len() + 1 && line_end(sb, line_start(sb, row_line(p, r))) == sb.len() by {
                        lemma_past_end(sb, k, row_line(p, r));
                    }
                    lemma_past_end(sb, k, 10 * (p + 1));
                }
                assert forall|r: int, c: int| on_board(r, c) implies #[trigger] grid.value_at(r, c) == clue(sb, p, r, c) by {
                    if r >= row {
                        assert(line_start(sb, row_line(p, r)) == sb.len() + 1);
                    }
                }
                assert(!bad_char_in(sb, p)) by {
                    if bad_char_in(sb, p) {
                        let (r, x) = choose|r: int, x: int| #[trigger] on_row(sb, p, r, x) && !is_digit(sb[x]);
                        if r >= row {
                            assert(line_start(sb, row_line(p, r)) == sb.len() + 1);
                        }
                    }
                }
                assert(!long_row_in(sb, p)) by {
                    if long_row_in(sb, p) {
                        let (r, x) = choose|r: int, x: int| #[trigger] on_row(sb, p, r, x) && is_digit(sb[x]) && sb[x] != ZERO && column_of(sb, p, r, x) >= 9;
                        if r >= row {
                            assert(line_start(sb, row_line(p, r)) == sb.len() + 1);
                        }
                    }
                }
                assert(!conflict_in(sb, p)) by {
                    if conflict_in(sb, p) {
                        let (r, c, r2, c2) = choose|r: int, c: int, r2: int, c2: int|
                            on_board(r, c) && on_board(r2, c2) && (r, c) != (r2, c2) && peers(r, c, r2, c2)
                                && #[trigger] clue(sb, p, r, c) != 0 && #[trigger] clue(sb, p, r2, c2) == clue(sb, p, r, c);
                        assert(grid.value_at(r, c) == clue(sb, p, r, c));
                        assert(grid.value_at(r2, c2) == clue(sb, p, r2, c2));
                    }
                }
                assert(puzzle_ok(sb, p));
                assert(row_line(p, 9) == 10 * (p + 1));
            }
            sudokus.push(grid);
            proof {
                assert forall|i: nat| i < sudokus@.len() implies #[trigger] puzzle_ok(sb, i) by {
                    if i < p {
                        assert(puzzle_ok(sb, i));
                    }
                }
            }
            if ended {
                finished = true;
            }
        }
    }
    proof {
        let p = sudokus@.len();
        assert(puzzles_from(sb, limit as nat, p) == 0);
        assert forall|i: nat| i < puzzle_count(sb, read_amount as nat) implies #[trigger] puzzle_ok(sb, i) by {}
    }
    Ok(sudokus)
}

/// The first line break at or after `i`, or the length of `s` when none follows.
fn find_line_end(s: &[u8], i: usize) -> (r: usize)
    requires
        i <= s@.len(),
    ensures
        r == line_end(s@, i as int),
{
    let mut j = i;
    while j < s.len() && s[j] != NEWLINE
        invariant
            i <= j <= s@.len(),
            line_end(s@, j as int) == line_end(s@, i as int),
        decreases s@.len() - j,
    {
        j = j + 1;
    }
    j
}

} // verus!
