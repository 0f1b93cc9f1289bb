use vstd::prelude::*;

use crate::indices::{Indices, block_of, group_of, group_pos, index_in, lemma_group_pos, peers};
use crate::permutation::{is_permutation, lemma_permutation_onto, lemma_permutation_sum, sum_of};
use crate::sudokucell::{SudokuCell, count_true, lemma_count_all, lemma_count_clear, lemma_count_one, lemma_count_shrink, lemma_count_two, lemma_count_zero};

verus! {

/// A 9x9 board under constraint propagation: the cells, and for every row, column and
/// block and every value, how many cells of that group still admit the value.
pub struct SudokuGrid<'a> {
    data: Vec<Vec<SudokuCell>>,
    row_counters: Vec<Vec<u8>>,
    col_counters: Vec<Vec<u8>>,
    blk_counters: Vec<Vec<u8>>,
    indexing: &'a Indices,
}

/// Both coordinates lie on the board.
pub open spec fn on_board(r: int, c: int) -> bool {
    0 <= r < 9 && 0 <= c < 9
}

impl<'a> SudokuGrid<'a> {
    /// The cell at row `r`, column `c`.
    pub closed spec fn cell(&self, r: int, c: int) -> SudokuCell {
        self.data@[r]@[c]
    }

    /// The counter of group `g` of kind `k` for the value `v + 1`.
    pub closed spec fn counter(&self, k: int, g: int, v: int) -> int {
        if k == 0 {
            self.row_counters@[g]@[v] as int
        } else if k == 1 {
            self.col_counters@[g]@[v] as int
        } else {
            self.blk_counters@[g]@[v] as int
        }
    }

    /// The shared table of groups.
    pub closed spec fn topology(&self) -> Indices {
        *self.indexing
    }

    /// The value of a cell, 0 while unset.
    pub open spec fn value_at(&self, r: int, c: int) -> int {
        self.cell(r, c).value as int
    }

    /// The candidate mask of a cell.
    pub open spec fn cands(&self, r: int, c: int) -> Seq<bool> {
        self.cell(r, c).candidates@
    }

    /// The cell still admits the value `v + 1`.
    pub open spec fn has(&self, r: int, c: int, v: int) -> bool {
        self.cands(r, c)[v]
    }

    /// For each place `j` of group `g` of kind `k`: whether that cell admits `v + 1`.
    pub open spec fn group_hosts(&self, k: int, g: int, v: int) -> Seq<bool> {
        Seq::new(9, |j: int| self.has(group_pos(k, g, j).0, group_pos(k, g, j).1, v))
    }

    /// The sizes of all tables, each cell's block, and the shared topology.
    pub closed spec fn shape_ok(&self) -> bool {
        &&& self.data@.len() == 9
        &&& self.row_counters@.len() == 9
        &&& self.col_counters@.len() == 9
        &&& self.blk_counters@.len() == 9
        &&& forall|r: int| 0 <= r < 9 ==> (#[trigger] self.data@[r])@.len() == 9
        &&& forall|g: int| 0 <= g < 9 ==> (#[trigger] self.row_counters@[g])@.len() == 9
        &&& forall|g: int| 0 <= g < 9 ==> (#[trigger] self.col_counters@[g])@.len() == 9
        &&& forall|g: int| 0 <= g < 9 ==> (#[trigger] self.blk_counters@[g])@.len() == 9
        &&& forall|r: int, c: int|
            on_board(r, c) ==> {
                &&& (#[trigger] self.cell(r, c)).candidates@.len() == 9
                &&& self.cell(r, c).blk_id == block_of(r, c)
            }
        &&& self.indexing.wf()
    }

    /// Every value lies in 0..=9, every candidate count is the number of candidates, and
    /// a set cell admits nothing.
    pub open spec fn cells_ok(&self) -> bool {
        forall|r: int, c: int|
            on_board(r, c) ==> {
                &&& 0 <= #[trigger] self.value_at(r, c) <= 9
                &&& self.cell(r, c).candidate_amnt == count_true(self.cands(r, c))
                &&& self.value_at(r, c) != 0 ==> forall|v: int| 0 <= v < 9 ==> !self.has(r, c, v)
            }
    }

    /// Each counter is the number of cells of its group that admit its value.
    pub open spec fn counters_ok(&self) -> bool {
        forall|k: int, g: int, v: int|
            0 <= k < 3 && 0 <= g < 9 && 0 <= v < 9 ==> #[trigger] self.counter(k, g, v)
                == count_true(self.group_hosts(k, g, v))
    }

    /// The bookkeeping is consistent: shapes, cells and counters.
    pub open spec fn counts_wf(&self) -> bool {
        self.shape_ok() && self.cells_ok() && self.counters_ok()
    }

    /// No cell admits a value that one of its peers holds.
    pub open spec fn placed_excluded(&self) -> bool {
        forall|r: int, c: int, r2: int, c2: int, v: int|
            on_board(r, c) && on_board(r2, c2) && 0 <= v < 9 && #[trigger] self.value_at(r, c)
                == v + 1 && peers(r, c, r2, c2) ==> !#[trigger] self.has(r2, c2, v)
    }

    /// No two distinct peers hold the same value.
    pub open spec fn no_conflicts(&self) -> bool {
        forall|r: int, c: int, r2: int, c2: int|
            on_board(r, c) && on_board(r2, c2) && (r, c) != (r2, c2) && peers(r, c, r2, c2)
                && #[trigger] self.value_at(r, c) != 0 ==> #[trigger] self.value_at(r2, c2)
                != self.value_at(r, c)
    }

    /// The full invariant of a grid.
    pub open spec fn wf(&self) -> bool {
        self.counts_wf() && self.placed_excluded() && self.no_conflicts()
    }

    /// `sol` is a solution that `self` can still reach: a complete, well-formed grid that
    /// refines `self`.
    pub open spec fn completes_to(&self, sol: &Self) -> bool {
        sol.wf() && sol.all_assigned() && self.refines(sol)
    }

    /// `next` is `self` with the candidate `v + 1` taken from the cell `(row, col)`.
    pub open spec fn retract_step(&self, next: &Self, row: int, col: int, v: int) -> bool {
        &&& next.topology() == self.topology()
        &&& forall|r: int, c: int| on_board(r, c) ==> #[trigger] next.value_at(r, c) == self.value_at(r, c)
        &&& forall|r: int, c: int, w: int|
            on_board(r, c) && 0 <= w < 9 ==> #[trigger] next.has(r, c, w) == (self.has(r, c, w) && !(r == row
                && c == col && w == v))
    }

    /// The cells `r`, `c` are equal in both grids.
    pub open spec fn same_cell(&self, other: &Self, r: int, c: int) -> bool {
        self.value_at(r, c) == other.value_at(r, c) && self.cands(r, c) == other.cands(r, c)
    }

    /// Both grids hold the same values and candidates.
    pub open spec fn same_state(&self, other: &Self) -> bool {
        &&& other.topology() == self.topology()
        &&& forall|r: int, c: int| on_board(r, c) ==> #[trigger] self.same_cell(other, r, c)
    }

    /// `next` can be reached from `self` by propagation: set values stay, a newly set value
    /// was a candidate, and candidates are only taken away.
    pub open spec fn refines(&self, next: &Self) -> bool {
        &&& next.topology() == self.topology()
        &&& forall|r: int, c: int| on_board(r, c) ==> #[trigger] self.refines_cell(next, r, c)
    }

    /// The cell `(r, c)` of `next` can be reached from that of `self`.
    pub open spec fn refines_cell(&self, next: &Self, r: int, c: int) -> bool {
        &&& self.value_at(r, c) != 0 ==> next.value_at(r, c) == self.value_at(r, c)
        &&& self.value_at(r, c) == 0 && next.value_at(r, c) != 0 ==> self.has(r, c, next.value_at(r, c) - 1)
        &&& forall|v: int| 0 <= v < 9 && #[trigger] next.has(r, c, v) ==> self.has(r, c, v)
    }
    /// `next` is `self` with `v + 1` placed at `(row, col)`: that cell is cleared, and the
    /// candidate `v + 1` is taken from every cell of `reach`.
    pub open spec fn placing(&self, next: &Self, row: int, col: int, v: int, reach: spec_fn(int, int) -> bool) -> bool {
        &&& next.topology() == self.topology()
        &&& forall|r: int, c: int|
            on_board(r, c) ==> #[trigger] next.value_at(r, c) == if r == row && c == col {
                v + 1
            } else {
                self.value_at(r, c)
            }
        &&& forall|r: int, c: int, w: int|
            on_board(r, c) && 0 <= w < 9 ==> #[trigger] next.has(r, c, w) == (self.has(r, c, w) && !(r == row
                && c == col) && !(w == v && reach(r, c)))
    }

    /// `next` is `self` after `set_cell(row, col, v + 1)`: the cell holds `v + 1`, admits
    /// nothing, and no peer of it admits `v + 1` any more.
    pub open spec fn place_step(&self, next: &Self, row: int, col: int, v: int) -> bool {
        self.placing(next, row, col, v, |r: int, c: int| peers(row, col, r, c))
    }
}

/// Retracting one candidate lowers exactly the three counters of that cell and value.
proof fn lemma_retract_counts(a: SudokuGrid, b: SudokuGrid, row: int, col: int, v: int)
    requires
        on_board(row, col),
        0 <= v < 9,
        a.retract_step(&b, row, col, v),
    ensures
        forall|k: int, g: int, w: int|
            0 <= k < 3 && 0 <= g < 9 && 0 <= w < 9 ==> #[trigger] count_true(b.group_hosts(k, g, w))
                == count_true(a.group_hosts(k, g, w)) - if w == v && g == group_of(k, row, col) && a.has(row, col, v) {
                1int
            } else {
                0int
            },
{
    assert forall|k: int, g: int, w: int|
        0 <= k < 3 && 0 <= g < 9 && 0 <= w < 9 implies #[trigger] count_true(b.group_hosts(k, g, w))
            == count_true(a.group_hosts(k, g, w)) - if w == v && g == group_of(k, row, col) && a.has(row, col, v) {
            1int
        } else {
            0int
        } by {
        assert forall|j: int| 0 <= j < 9 implies #[trigger] b.group_hosts(k, g, w)[j] == (a.group_hosts(
            k,
            g,
            w,
        )[j] && !(w == v && g == group_of(k, row, col) && j == index_in(k, row, col))) by {
            lemma_group_pos(k, g, j, row, col);
        }
        lemma_group_pos(k, g, 0, row, col);
        if w == v && g == group_of(k, row, col) && a.has(row, col, v) {
            let i = index_in(k, row, col);
            assert(b.group_hosts(k, g, w) =~= a.group_hosts(k, g, w).update(i, false));
            lemma_count_clear(a.group_hosts(k, g, w), i);
        } else {
            assert(b.group_hosts(k, g, w) =~= a.group_hosts(k, g, w));
        }
    }
}

impl<'a> SudokuGrid<'a> {
    /// Takes the candidate `val_loc + 1` from the cell `(row, col)` and lowers the three
    /// counters of that cell for it. Returns whether the cell admitted the value; if not,
    /// nothing changes.
    pub fn flip_val(&mut self, row: usize, col: usize, val_loc: usize) -> (r: bool)
        requires
            old(self).counts_wf(),
            row < 9,
            col < 9,
            val_loc < 9,
        ensures
            final(self).counts_wf(),
            r == old(self).has(row as int, col as int, val_loc as int),
            old(self).retract_step(final(self), row as int, col as int, val_loc as int),
    {
        assert(self.cell(row as int, col as int).candidates@.len() == 9);
        if self.data[row][col].candidates[val_loc] {
            let ghost a = *self;
            let b = self.data[row][col].blk_id;
            proof {
                let (ri, ci, vi) = (row as int, col as int, val_loc as int);
                lemma_group_pos(0, ri, ci, ri, ci);
                lemma_group_pos(1, ci, ri, ri, ci);
                lemma_group_pos(2, block_of(ri, ci), 0, ri, ci);
                lemma_count_clear(a.group_hosts(0, ri, vi), ci);
                lemma_count_clear(a.group_hosts(1, ci, vi), ri);
                lemma_count_clear(a.group_hosts(2, block_of(ri, ci), vi), index_in(2, ri, ci));
                assert(a.counter(0, row as int, val_loc as int) >= 1);
                assert(a.counter(1, col as int, val_loc as int) >= 1);
                assert(a.counter(2, b as int, val_loc as int) >= 1);
                lemma_count_clear(a.cands(row as int, col as int), val_loc as int);
                assert(0 <= a.value_at(ri, ci) <= 9);
            }
            self.row_counters[row][val_loc] -= 1;
            self.col_counters[col][val_loc] -= 1;
            self.blk_counters[b][val_loc] -= 1;
            self.data[row][col].candidates[val_loc] = false;
            self.data[row][col].candidate_amnt -= 1;
            proof {
                assert(self.cands(row as int, col as int) =~= a.cands(row as int, col as int).update(val_loc as int, false));
                assert(a.retract_step(self, row as int, col as int, val_loc as int));
                lemma_retract_counts(a, *self, row as int, col as int, val_loc as int);
                assert(self.data@.len() == 9);
                assert(self.row_counters@.len() == 9);
                assert(self.indexing.wf());
                assert(forall|r: int| 0 <= r < 9 ==> (#[trigger] self.data@[r])@.len() == 9);
                assert(forall|g: int| 0 <= g < 9 ==> (#[trigger] self.row_counters@[g])@.len() == 9);
                assert(forall|g: int| 0 <= g < 9 ==> (#[trigger] self.blk_counters@[g])@.len() == 9);
                assert forall|r: int, c: int| on_board(r, c) implies (#[trigger] self.cell(r, c)).candidates@.len() == 9 && self.cell(r, c).blk_id == block_of(r, c) by {
                    assert(a.cell(r, c).candidates@.len() == 9);
                }
                assert(self.shape_ok());
                assert forall|r: int, c: int| on_board(r, c) implies {
                    &&& 0 <= #[trigger] self.value_at(r, c) <= 9
                    &&& self.cell(r, c).candidate_amnt == count_true(self.cands(r, c))
                    &&& self.value_at(r, c) != 0 ==> forall|v: int| 0 <= v < 9 ==> !self.has(r, c, v)
                } by {
                    assert(0 <= a.value_at(r, c) <= 9);
                    assert forall|v: int| 0 <= v < 9 implies self.has(r, c, v) == (a.has(r, c, v) && !(r == row && c == col && v == val_loc)) by {}
                    if r != row || c != col {
                        assert(self.data@[r]@[c] == a.data@[r]@[c]);
                    }
                }
                assert forall|k: int, g: int, w: int|
                    0 <= k < 3 && 0 <= g < 9 && 0 <= w < 9 implies #[trigger] self.counter(k, g, w)
                        == count_true(self.group_hosts(k, g, w)) by {
                    assert(a.counter(k, g, w) == count_true(a.group_hosts(k, g, w)));
                    assert(count_true(self.group_hosts(k, g, w)) == count_true(a.group_hosts(k, g, w)) - if w == val_loc && g == group_of(k, row as int, col as int) { 1int } else { 0int });
                }
            }
            return true;
        }
        false
    }
}

/// Placing a candidate keeps the whole invariant and is a step of propagation.
proof fn lemma_place_wf(a: SudokuGrid, b: SudokuGrid, row: int, col: int, v: int)
    requires
        a.wf(),
        b.counts_wf(),
        on_board(row, col),
        0 <= v < 9,
        a.has(row, col, v),
        a.place_step(&b, row, col, v),
    ensures
        b.wf(),
        a.refines(&b),
{
    assert forall|r: int, c: int, r2: int, c2: int, w: int|
        on_board(r, c) && on_board(r2, c2) && 0 <= w < 9 && #[trigger] b.value_at(r, c) == w + 1 && peers(
            r,
            c,
            r2,
            c2,
        ) implies !#[trigger] b.has(r2, c2, w) by {
        if !(r == row && c == col) {
            assert(a.value_at(r, c) == w + 1);
        }
    }
    assert forall|r: int, c: int, r2: int, c2: int|
        on_board(r, c) && on_board(r2, c2) && (r, c) != (r2, c2) && peers(r, c, r2, c2)
            && #[trigger] b.value_at(r, c) != 0 implies #[trigger] b.value_at(r2, c2) != b.value_at(r, c) by {
        if r == row && c == col {
            if a.value_at(r2, c2) == v + 1 {
                assert(!a.has(row, col, v));
            }
        } else if r2 == row && c2 == col {
            if a.value_at(r, c) == v + 1 {
                assert(!a.has(row, col, v));
            }
        } else {
            assert(a.value_at(r, c) != 0);
            assert(a.value_at(r2, c2) != a.value_at(r, c));
        }
    }
    assert forall|r: int, c: int| on_board(r, c) implies #[trigger] a.refines_cell(&b, r, c) by {
        if r == row && c == col {
            assert(a.value_at(r, c) == 0);
        }
    }
}

impl<'a> SudokuGrid<'a> {
    /// Places `val` at `(row, col)`: the cell takes the value and drops all its candidates,
    /// and every peer drops `val` from its candidates, each counter following along.
    pub fn set_cell(&mut self, row: usize, col: usize, val: u8)
        requires
            old(self).wf(),
            row < 9,
            col < 9,
            1 <= val <= 9,
            old(self).has(row as int, col as int, val - 1),
        ensures
            final(self).wf(),
            old(self).place_step(final(self), row as int, col as int, val - 1),
            old(self).refines(final(self)),
    {
        let ghost a = *self;
        let val_loc: usize = val as usize - 1;
        for i in 0..9usize
            invariant
                self.counts_wf(),
                row < 9,
                col < 9,
                self.topology() == a.topology(),
                forall|r: int, c: int| on_board(r, c) ==> #[trigger] self.value_at(r, c) == a.value_at(r, c),
                forall|r: int, c: int, w: int|
                    on_board(r, c) && 0 <= w < 9 ==> #[trigger] self.has(r, c, w) == (a.has(r, c, w) && !(r
                        == (row as int) && c == (col as int) && w < i)),
        {
            self.flip_val(row, col, i);
        }
        assert(self.cell((row as int), (col as int)).candidates@.len() == 9);
        let ghost s0 = *self;
        self.data[row][col].value = val;
        proof {
            assert forall|r: int, c: int| on_board(r, c) implies {
                &&& (#[trigger] self.cell(r, c)).candidates@ == s0.cell(r, c).candidates@
                &&& self.cell(r, c).candidate_amnt == s0.cell(r, c).candidate_amnt
                &&& self.cell(r, c).blk_id == s0.cell(r, c).blk_id
                &&& self.value_at(r, c) == if r == row && c == col { val as int } else { s0.value_at(r, c) }
            } by {
                if r != row {
                    assert(self.data@[r] == s0.data@[r]);
                }
            }
            assert forall|r: int, c: int| on_board(r, c) implies {
                &&& 0 <= #[trigger] self.value_at(r, c) <= 9
                &&& self.cell(r, c).candidate_amnt == count_true(self.cands(r, c))
                &&& self.value_at(r, c) != 0 ==> forall|v: int| 0 <= v < 9 ==> !self.has(r, c, v)
            } by {
                assert(0 <= s0.value_at(r, c) <= 9);
                assert(s0.cell(r, c).candidates@.len() == 9);
                assert forall|v: int| 0 <= v < 9 implies self.has(r, c, v) == s0.has(r, c, v) by {}
                assert(0 <= self.value_at(r, c) <= 9);
                assert(self.cell(r, c).candidate_amnt == count_true(self.cands(r, c)));
                if self.value_at(r, c) != 0 {
                    assert forall|v: int| 0 <= v < 9 implies !self.has(r, c, v) by {
                        if !(r == row && c == col) {
                            assert(s0.value_at(r, c) != 0);
                        }
                        assert(!s0.has(r, c, v));
                    }
                }
            }
            assert forall|k: int, g: int, v: int| 0 <= k < 3 && 0 <= g < 9 && 0 <= v < 9 implies #[trigger] self.group_hosts(k, g, v) == s0.group_hosts(k, g, v) by {
                assert(self.group_hosts(k, g, v) =~= s0.group_hosts(k, g, v));
            }
            assert(self.shape_ok());
            assert forall|k: int, g: int, v: int| 0 <= k < 3 && 0 <= g < 9 && 0 <= v < 9 implies #[trigger] self.counter(k, g, v)
                == count_true(self.group_hosts(k, g, v)) by {
                assert(s0.counter(k, g, v) == count_true(s0.group_hosts(k, g, v)));
            }
            assert forall|r: int, c: int, w: int| on_board(r, c) && 0 <= w < 9 implies #[trigger] self.has(r, c, w) == (a.has(r, c, w) && !(r == row && c == col)) by {
                assert(s0.has(r, c, w) == (a.has(r, c, w) && !(r == row && c == col && w < 9)));
            }
            assert forall|r: int, c: int| on_board(r, c) implies #[trigger] self.value_at(r, c) == if r == row && c == col { val as int } else { a.value_at(r, c) } by {
                assert(s0.value_at(r, c) == a.value_at(r, c));
            }
        }
        let ghost s1 = *self;
        self.retract_group(0, row, val_loc);
        let ghost s2 = *self;
        self.retract_group(1, col, val_loc);
        let ghost s3 = *self;
        assert(self.cell(row as int, col as int).blk_id == block_of(row as int, col as int));
        let b = self.data[row][col].blk_id;
        self.retract_group(2, b, val_loc);
        proof {
            assert forall|r: int, c: int, w: int| on_board(r, c) && 0 <= w < 9 implies #[trigger] self.has(r, c, w) == (a.has(r, c, w) && !(r == row && c == col) && !(w == val_loc && peers(row as int, col as int, r, c))) by {
                assert(s1.has(r, c, w) == (a.has(r, c, w) && !(r == row && c == col)));
                assert(s2.has(r, c, w) == (s1.has(r, c, w) && !(w == val_loc && group_of(0, r, c) == row)));
                assert(s3.has(r, c, w) == (s2.has(r, c, w) && !(w == val_loc && group_of(1, r, c) == col)));
                assert(self.has(r, c, w) == (s3.has(r, c, w) && !(w == val_loc && group_of(2, r, c) == b)));
            }
            assert forall|r: int, c: int| on_board(r, c) implies #[trigger] self.value_at(r, c) == if r == row && c == col { val as int } else { a.value_at(r, c) } by {
                assert(s1.value_at(r, c) == s2.value_at(r, c));
                assert(s2.value_at(r, c) == s3.value_at(r, c));
                assert(s3.value_at(r, c) == self.value_at(r, c));
            }
            lemma_place_wf(a, *self, (row as int), (col as int), val_loc as int);
        }
    }
}

impl<'a> SudokuGrid<'a> {
    /// Takes the candidate `val_loc + 1` from every cell of group `g` of kind `k`.
    fn retract_group(&mut self, k: usize, g: usize, val_loc: usize)
        requires
            old(self).counts_wf(),
            k < 3,
            g < 9,
            val_loc < 9,
        ensures
            final(self).counts_wf(),
            final(self).topology() == old(self).topology(),
            forall|r: int, c: int| on_board(r, c) ==> #[trigger] final(self).value_at(r, c) == old(self).value_at(r, c),
            forall|r: int, c: int, w: int|
                on_board(r, c) && 0 <= w < 9 ==> #[trigger] final(self).has(r, c, w) == (old(self).has(r, c, w)
                    && !(w == val_loc && group_of(k as int, r, c) == g)),
    {
        let ghost a = *self;
        let ind = self.indexing;
        let t = if k == 0 {
            &ind.rows
        } else if k == 1 {
            &ind.cols
        } else {
            &ind.blks
        };
        assert(ind.table(k as int)[g as int]@.len() == 9);
        for j in 0..9usize
            invariant
                self.counts_wf(),
                k < 3,
                g < 9,
                val_loc < 9,
                *ind == self.topology(),
                self.topology() == a.topology(),
                ind.wf(),
                t@ == ind.table(k as int),
                t@[g as int]@.len() == 9,
                forall|r: int, c: int| on_board(r, c) ==> #[trigger] self.value_at(r, c) == a.value_at(r, c),
                forall|r: int, c: int, w: int|
                    on_board(r, c) && 0 <= w < 9 ==> #[trigger] self.has(r, c, w) == (a.has(r, c, w) && !(w
                        == val_loc && group_of(k as int, r, c) == g && index_in(k as int, r, c) < j)),
        {
            let p = t[g][j];
            assert(ind.entry(k as int, g as int, j as int) == p);
            proof {
                lemma_group_pos(k as int, g as int, j as int, 0, 0);
            }
            let ghost prev = *self;
            self.flip_val(p.0, p.1, val_loc);
            proof {
                assert forall|r: int, c: int, w: int| on_board(r, c) && 0 <= w < 9 implies #[trigger] self.has(r, c, w) == (a.has(r, c, w) && !(w
                        == val_loc && group_of(k as int, r, c) == g && index_in(k as int, r, c) < j + 1)) by {
                    lemma_group_pos(k as int, g as int, j as int, r, c);
                    assert(prev.has(r, c, w) == (a.has(r, c, w) && !(w
                        == val_loc && group_of(k as int, r, c) == g && index_in(k as int, r, c) < j)));
                }
                assert forall|r: int, c: int| on_board(r, c) implies #[trigger] self.value_at(r, c) == a.value_at(r, c) by {
                    assert(prev.value_at(r, c) == a.value_at(r, c));
                }
            }
        }
        proof {
            assert forall|r: int, c: int, w: int| on_board(r, c) && 0 <= w < 9 implies #[trigger] self.has(r, c, w) == (a.has(r, c, w)
                    && !(w == val_loc && group_of(k as int, r, c) == g)) by {
                lemma_group_pos(k as int, 0, 0, r, c);
            }
        }
    }
}

impl<'a> SudokuGrid<'a> {
    /// The values of group `g` of kind `k`, in the order of the topology.
    pub open spec fn group_values(&self, k: int, g: int) -> Seq<int> {
        Seq::new(9, |j: int| self.value_at(group_pos(k, g, j).0, group_pos(k, g, j).1))
    }

    /// Every cell holds a value.
    pub open spec fn all_assigned(&self) -> bool {
        forall|r: int, c: int| on_board(r, c) ==> #[trigger] self.value_at(r, c) != 0
    }

    /// Every row, column and block sums to 45.
    pub open spec fn sums_ok(&self) -> bool {
        forall|k: int, g: int| 0 <= k < 3 && 0 <= g < 9 ==> sum_of(#[trigger] self.group_values(k, g)) == 45
    }

    /// What the completeness check answers.
    pub open spec fn complete_spec(&self, sanity_check: bool) -> bool {
        self.all_assigned() && (sanity_check ==> self.sums_ok())
    }

    /// Open work left in one cell: its candidates, plus one while it is unset.
    pub open spec fn weight(&self, r: int, c: int) -> nat {
        count_true(self.cands(r, c)) + if self.value_at(r, c) == 0 {
            1nat
        } else {
            0nat
        }
    }

    /// Open work left in the first `n` cells, row by row.
    pub open spec fn weight_sum(&self, n: int) -> nat
        decreases n,
    {
        if n <= 0 {
            0
        } else {
            self.weight_sum(n - 1) + self.weight((n - 1) / 9, (n - 1) % 9)
        }
    }

    /// Open work left on the board; every step of propagation lowers it.
    pub open spec fn measure(&self) -> nat {
        self.weight_sum(81)
    }
}

/// A propagation step never raises the open work, and lowers it when anything changed.
pub proof fn lemma_refines_measure(a: SudokuGrid, b: SudokuGrid)
    requires
        a.counts_wf(),
        b.counts_wf(),
        a.refines(&b),
    ensures
        b.measure() <= a.measure(),
        !a.same_state(&b) ==> b.measure() < a.measure(),
{
    assert forall|r: int, c: int| on_board(r, c) implies #[trigger] b.weight(r, c) <= a.weight(r, c) && (!a.same_cell(&b, r, c) ==> b.weight(r, c) < a.weight(r, c)) by {
        assert(a.cell(r, c).candidates@.len() == 9);
        assert(b.cell(r, c).candidates@.len() == 9);
        assert(a.refines_cell(&b, r, c));
        assert(0 <= a.value_at(r, c) <= 9);
        assert forall|i: int| 0 <= i < 9 implies #[trigger] b.cands(r, c)[i] ==> a.cands(r, c)[i] by {
            assert(b.has(r, c, i) ==> a.has(r, c, i));
        }
        lemma_count_shrink(a.cands(r, c), b.cands(r, c));
    }
    lemma_weight_sum_le(a, b, 81);
}

proof fn lemma_weight_sum_le(a: SudokuGrid, b: SudokuGrid, n: int)
    requires
        0 <= n <= 81,
        forall|r: int, c: int| on_board(r, c) ==> #[trigger] b.weight(r, c) <= a.weight(r, c) && (!a.same_cell(&b, r, c) ==> b.weight(r, c) < a.weight(r, c)),
    ensures
        b.weight_sum(n) <= a.weight_sum(n),
        (exists|r: int, c: int| on_board(r, c) && 9 * r + c < n && !#[trigger] a.same_cell(&b, r, c)) ==> b.weight_sum(n) < a.weight_sum(n),
    decreases n,
{
    if n > 0 {
        lemma_weight_sum_le(a, b, n - 1);
        let (r0, c0) = ((n - 1) / 9, (n - 1) % 9);
        assert(b.weight(r0, c0) <= a.weight(r0, c0));
        if exists|r: int, c: int| on_board(r, c) && 9 * r + c < n && !#[trigger] a.same_cell(&b, r, c) {
            let (r, c) = choose|r: int, c: int| on_board(r, c) && 9 * r + c < n && !#[trigger] a.same_cell(&b, r, c);
            if 9 * r + c == n - 1 {
                assert(r == r0 && c == c0);
            } else {
                assert(9 * r + c < n - 1);
            }
        }
    }
}

/// Equal states have equal groups, equal open work, and each refines the other.
pub proof fn lemma_same_state(a: SudokuGrid, b: SudokuGrid)
    requires
        a.same_state(&b),
    ensures
        b.same_state(&a),
        a.refines(&b),
        forall|k: int, g: int, v: int| 0 <= k < 3 && 0 <= g < 9 ==> #[trigger] a.group_hosts(k, g, v) == b.group_hosts(k, g, v),
        forall|k: int, g: int| 0 <= k < 3 && 0 <= g < 9 ==> #[trigger] a.group_values(k, g) == b.group_values(k, g),
        forall|r: int, c: int| on_board(r, c) ==> #[trigger] a.weight(r, c) == b.weight(r, c),
        a.measure() == b.measure(),
{
    assert forall|k: int, g: int, v: int| 0 <= k < 3 && 0 <= g < 9 implies #[trigger] a.group_hosts(k, g, v) == b.group_hosts(k, g, v) by {
        assert forall|j: int| 0 <= j < 9 implies a.group_hosts(k, g, v)[j] == b.group_hosts(k, g, v)[j] by {
            lemma_group_pos(k, g, j, 0, 0);
            assert(a.same_cell(&b, group_pos(k, g, j).0, group_pos(k, g, j).1));
        }
        assert(a.group_hosts(k, g, v) =~= b.group_hosts(k, g, v));
    }
    assert forall|k: int, g: int| 0 <= k < 3 && 0 <= g < 9 implies #[trigger] a.group_values(k, g) == b.group_values(k, g) by {
        assert forall|j: int| 0 <= j < 9 implies a.group_values(k, g)[j] == b.group_values(k, g)[j] by {
            lemma_group_pos(k, g, j, 0, 0);
            assert(a.same_cell(&b, group_pos(k, g, j).0, group_pos(k, g, j).1));
        }
        assert(a.group_values(k, g) =~= b.group_values(k, g));
    }
    assert forall|r: int, c: int| on_board(r, c) implies #[trigger] a.weight(r, c) == b.weight(r, c) && a.same_cell(&b, r, c) by {
        assert(a.same_cell(&b, r, c));
    }
    assert forall|r: int, c: int| on_board(r, c) implies #[trigger] b.same_cell(&a, r, c) by {
        assert(a.same_cell(&b, r, c));
    }
    assert forall|r: int, c: int| on_board(r, c) implies #[trigger] a.refines_cell(&b, r, c) by {
        assert(a.same_cell(&b, r, c));
    }
    lemma_weight_sum_eq(a, b, 81);
}

proof fn lemma_weight_sum_eq(a: SudokuGrid, b: SudokuGrid, n: int)
    requires
        0 <= n <= 81,
        forall|r: int, c: int| on_board(r, c) ==> #[trigger] a.weight(r, c) == b.weight(r, c),
    ensures
        a.weight_sum(n) == b.weight_sum(n),
    decreases n,
{
    if n > 0 {
        lemma_weight_sum_eq(a, b, n - 1);
        assert(a.weight((n - 1) / 9, (n - 1) % 9) == b.weight((n - 1) / 9, (n - 1) % 9));
    }
}

/// Refinement composes.
pub proof fn lemma_refines_trans(a: SudokuGrid, b: SudokuGrid, c: SudokuGrid)
    requires
        a.counts_wf(),
        b.counts_wf(),
        c.counts_wf(),
        a.refines(&b),
        b.refines(&c),
    ensures
        a.refines(&c),
{
    assert forall|r: int, col: int| on_board(r, col) implies #[trigger] a.refines_cell(&c, r, col) by {
        assert(a.refines_cell(&b, r, col));
        assert(b.refines_cell(&c, r, col));
        assert(0 <= c.value_at(r, col) <= 9);
        if a.value_at(r, col) == 0 && c.value_at(r, col) != 0 && b.value_at(r, col) == 0 {
            assert(b.has(r, col, c.value_at(r, col) - 1));
        }
        assert forall|v: int| 0 <= v < 9 && #[trigger] c.has(r, col, v) implies a.has(r, col, v) by {
            assert(b.has(r, col, v));
        }
    }
}

impl<'a> SudokuGrid<'a> {
    /// An empty board over the topology `ind`: no values, every candidate present, and
    /// every counter at 9.
    pub fn new(ind: &'a Indices) -> (r: SudokuGrid<'a>)
        requires
            ind.wf(),
        ensures
            r.wf(),
            r.topology() == *ind,
            forall|row: int, col: int| on_board(row, col) ==> #[trigger] r.value_at(row, col) == 0,
            forall|row: int, col: int, v: int| on_board(row, col) && 0 <= v < 9 ==> #[trigger] r.has(row, col, v),
    {
        let mut init1: Vec<Vec<SudokuCell>> = Vec::new();
        let mut i_row1: Vec<Vec<u8>> = Vec::new();
        let mut i_col1: Vec<Vec<u8>> = Vec::new();
        let mut i_blk1: Vec<Vec<u8>> = Vec::new();
        for i in 0..9usize
            invariant
                init1@.len() == i,
                i_row1@.len() == i,
                i_col1@.len() == i,
                i_blk1@.len() == i,
                forall|g: int| 0 <= g < i ==> (#[trigger] init1@[g])@.len() == 9,
                forall|g: int, v: int| 0 <= g < i && 0 <= v < 9 ==> #[trigger] i_row1@[g]@[v] == 9 && i_row1@[g]@.len() == 9,
                forall|g: int, v: int| 0 <= g < i && 0 <= v < 9 ==> #[trigger] i_col1@[g]@[v] == 9 && i_col1@[g]@.len() == 9,
                forall|g: int, v: int| 0 <= g < i && 0 <= v < 9 ==> #[trigger] i_blk1@[g]@[v] == 9 && i_blk1@[g]@.len() == 9,
                forall|g: int, c: int|
                    0 <= g < i && 0 <= c < 9 ==> {
                        let cell = #[trigger] init1@[g]@[c];
                        &&& cell.value == 0
                        &&& cell.candidates@ == Seq::new(9, |v: int| true)
                        &&& cell.candidate_amnt == 9
                        &&& cell.blk_id == block_of(g, c)
                    },
        {
            let mut init2: Vec<SudokuCell> = Vec::new();
            let i_row2: Vec<u8> = vec![9u8; 9];
            let i_col2: Vec<u8> = vec![9u8; 9];
            let i_blk2: Vec<u8> = vec![9u8; 9];
            for j in 0..9usize
                invariant
                    i < 9,
                    init2@.len() == j,
                    forall|c: int|
                        0 <= c < j ==> {
                            let cell = #[trigger] init2@[c];
                            &&& cell.value == 0
                            &&& cell.candidates@ == Seq::new(9, |v: int| true)
                            &&& cell.candidate_amnt == 9
                            &&& cell.blk_id == block_of(i as int, c)
                        },
            {
                init2.push(SudokuCell::new(i / 3, j / 3));
            }
            init1.push(init2);
            i_row1.push(i_row2);
            i_col1.push(i_col2);
            i_blk1.push(i_blk2);
        }
        let r = SudokuGrid {
            data: init1,
            row_counters: i_row1,
            col_counters: i_col1,
            blk_counters: i_blk1,
            indexing: ind,
        };
        proof {
            lemma_count_all(9);
            assert forall|row: int, col: int| on_board(row, col) implies (#[trigger] r.cell(row, col)).candidates@.len() == 9
                && r.cell(row, col).blk_id == block_of(row, col) && r.cands(row, col) == Seq::new(9, |v: int| true) by {
                assert(init1@[row]@.len() == 9);
            }
            assert forall|g: int| 0 <= g < 9 implies (#[trigger] r.row_counters@[g])@.len() == 9 by {
                assert(i_row1@[g]@[0] == 9);
            }
            assert forall|g: int| 0 <= g < 9 implies (#[trigger] r.col_counters@[g])@.len() == 9 by {
                assert(i_col1@[g]@[0] == 9);
            }
            assert forall|g: int| 0 <= g < 9 implies (#[trigger] r.blk_counters@[g])@.len() == 9 by {
                assert(i_blk1@[g]@[0] == 9);
            }
            assert(r.shape_ok());
            assert forall|k: int, g: int, v: int| 0 <= k < 3 && 0 <= g < 9 && 0 <= v < 9 implies #[trigger] r.counter(k, g, v)
                == count_true(r.group_hosts(k, g, v)) by {
                assert forall|j: int| 0 <= j < 9 implies r.group_hosts(k, g, v)[j] by {
                    lemma_group_pos(k, g, j, 0, 0);
                    assert(r.cell(group_pos(k, g, j).0, group_pos(k, g, j).1).candidates@.len() == 9);
                }
                assert(r.group_hosts(k, g, v) =~= Seq::new(9, |j: int| true));
                assert(i_row1@[g]@[v] == 9);
                assert(i_col1@[g]@[v] == 9);
                assert(i_blk1@[g]@[v] == 9);
            }
            assert forall|row: int, col: int, v: int| on_board(row, col) && 0 <= v < 9 implies #[trigger] r.has(row, col, v) by {
                assert(r.cell(row, col).candidates@.len() == 9);
            }
        }
        r
    }

    /// Sum of the values of group `g` of kind `k`.
    fn group_sum(&self, k: usize, g: usize) -> (r: u32)
        requires
            self.counts_wf(),
            k < 3,
            g < 9,
        ensures
            r == sum_of(self.group_values(k as int, g as int)),
    {
        let ind = self.indexing;
        let t = if k == 0 {
            &ind.rows
        } else if k == 1 {
            &ind.cols
        } else {
            &ind.blks
        };
        assert(ind.table(k as int)[g as int]@.len() == 9);
        let ghost vals = self.group_values(k as int, g as int);
        let mut acc: u32 = 0;
        for j in 0..9usize
            invariant
                self.counts_wf(),
                k < 3,
                g < 9,
                *ind == self.topology(),
                ind.wf(),
                t@ == ind.table(k as int),
                t@[g as int]@.len() == 9,
                vals == self.group_values(k as int, g as int),
                acc == sum_of(vals.take(j as int)),
                acc <= 9 * j,
        {
            let p = t[g][j];
            assert(ind.entry(k as int, g as int, j as int) == p);
            proof {
                lemma_group_pos(k as int, g as int, j as int, 0, 0);
                assert(0 <= self.value_at(p.0 as int, p.1 as int) <= 9);
                assert(self.data@[p.0 as int]@.len() == 9);
                assert(vals.take(j + 1).drop_last() == vals.take(j as int));
            }
            acc = acc + self.data[p.0][p.1].value as u32;
        }
        assert(vals.take(9) == vals);
        acc
    }

    /// Whether every cell holds a value; with `sanity_check`, also whether every row,
    /// column and block sums to 45.
    pub fn is_complete(&self, sanity_check: bool) -> (r: bool)
        requires
            self.counts_wf(),
        ensures
            r == self.complete_spec(sanity_check),
    {
        if sanity_check {
            for element_id in 0..9usize
                invariant
                    self.counts_wf(),
                    sanity_check,
                    forall|k: int, g: int| 0 <= k < 3 && 0 <= g < element_id ==> sum_of(#[trigger] self.group_values(k, g)) == 45,
            {
                let row_count = self.group_sum(0, element_id);
                let col_count = self.group_sum(1, element_id);
                let blk_count = self.group_sum(2, element_id);
                if row_count != 45 || col_count != 45 || blk_count != 45 {
                    proof {
                        let e = element_id as int;
                        assert(sum_of(self.group_values(0, e)) != 45 || sum_of(self.group_values(1, e)) != 45 || sum_of(self.group_values(2, e)) != 45);
                        assert(!self.sums_ok());
                    }
                    return false;
                }
            }
        }
        for row in 0..9usize
            invariant
                self.counts_wf(),
                sanity_check ==> self.sums_ok(),
                forall|r: int, c: int| 0 <= r < row && 0 <= c < 9 ==> #[trigger] self.value_at(r, c) != 0,
        {
            assert(self.data@[row as int]@.len() == 9);
            for col in 0..9usize
                invariant
                    self.counts_wf(),
                    row < 9,
                    sanity_check ==> self.sums_ok(),
                    forall|r: int, c: int| 0 <= r < row && 0 <= c < 9 ==> #[trigger] self.value_at(r, c) != 0,
                    forall|c: int| 0 <= c < col ==> #[trigger] self.value_at(row as int, c) != 0,
            {
                assert(self.data@[row as int]@.len() == 9);
                if self.data[row][col].value == 0 {
                    assert(self.value_at(row as int, col as int) == 0);
                    return false;
                }
            }
        }
        assert(self.all_assigned());
        true
    }

    /// The number written by the first three cells of the top row.
    pub fn corner_val(&self) -> (r: u32)
        requires
            self.counts_wf(),
        ensures
            r == 100 * self.value_at(0, 0) + 10 * self.value_at(0, 1) + self.value_at(0, 2),
    {
        assert(0 <= self.value_at(0, 0) <= 9 && 0 <= self.value_at(0, 1) <= 9 && 0 <= self.value_at(0, 2) <= 9);
        assert(self.data@[0]@.len() == 9);
        let mut val = self.data[0][2].value as u32;
        val += (self.data[0][1].value as u32) * 10;
        val += (self.data[0][0].value as u32) * 100;
        val
    }
}

/// A copy of a table of counters.
fn copy_table(t: &Vec<Vec<u8>>) -> (r: Vec<Vec<u8>>)
    ensures
        r@.len() == t@.len(),
        forall|i: int| 0 <= i < t@.len() ==> (#[trigger] r@[i])@ == t@[i]@,
{
    let mut r: Vec<Vec<u8>> = Vec::new();
    for i in 0..t.len()
        invariant
            r@.len() == i,
            forall|x: int| 0 <= x < i ==> (#[trigger] r@[x])@ == t@[x]@,
    {
        let mut line: Vec<u8> = Vec::new();
        let n = t[i].len();
        for j in 0..n
            invariant
                i < t@.len(),
                n == t@[i as int]@.len(),
                line@ == t@[i as int]@.subrange(0, j as int),
        {
            line.push(t[i][j]);
        }
        assert(line@ =~= t@[i as int]@);
        r.push(line);
    }
    r
}

impl<'a> Clone for SudokuGrid<'a> {
    /// An independent copy of the cells and counters, over the same topology.
    fn clone(&self) -> (r: Self)
        ensures
            self.wf() ==> r.wf() && r.same_state(self),
    {
        let mut data: Vec<Vec<SudokuCell>> = Vec::new();
        for i in 0..self.data.len()
            invariant
                data@.len() == i,
                forall|x: int| 0 <= x < i ==> (#[trigger] data@[x])@.len() == self.data@[x]@.len(),
                forall|x: int, y: int| 0 <= x < i && 0 <= y < self.data@[x]@.len() ==> {
                    let c = #[trigger] data@[x]@[y];
                    let o = self.data@[x]@[y];
                    c.value == o.value && c.candidates@ == o.candidates@ && c.candidate_amnt == o.candidate_amnt && c.blk_id == o.blk_id
                },
        {
            let mut line: Vec<SudokuCell> = Vec::new();
            let n = self.data[i].len();
            for j in 0..n
                invariant
                    i < self.data@.len(),
                    n == self.data@[i as int]@.len(),
                    line@.len() == j,
                    forall|y: int| 0 <= y < j ==> {
                        let c = #[trigger] line@[y];
                        let o = self.data@[i as int]@[y];
                        c.value == o.value && c.candidates@ == o.candidates@ && c.candidate_amnt == o.candidate_amnt && c.blk_id == o.blk_id
                    },
            {
                line.push(self.data[i][j].clone());
            }
            data.push(line);
        }
        let r = SudokuGrid {
            data,
            row_counters: copy_table(&self.row_counters),
            col_counters: copy_table(&self.col_counters),
            blk_counters: copy_table(&self.blk_counters),
            indexing: self.indexing,
        };
        proof {
            if self.wf() {
                assert forall|x: int, y: int| on_board(x, y) implies #[trigger] r.same_cell(self, x, y) && r.cell(x, y).candidate_amnt == self.cell(x, y).candidate_amnt && r.cell(x, y).blk_id == self.cell(x, y).blk_id by {
                    assert(self.data@[x]@.len() == 9);
                }
                assert forall|k: int, g: int, v: int| 0 <= k < 3 && 0 <= g < 9 && 0 <= v < 9 implies #[trigger] r.counter(k, g, v) == self.counter(k, g, v) by {
                    assert(self.row_counters@[g]@.len() == 9);
                    assert(self.col_counters@[g]@.len() == 9);
                    assert(self.blk_counters@[g]@.len() == 9);
                }
                assert forall|x: int, y: int| on_board(x, y) implies #[trigger] self.same_cell(&r, x, y) by {
                    assert(r.same_cell(self, x, y));
                }
                assert(self.same_state(&r));
                lemma_same_state(*self, r);
                assert forall|x: int, y: int| on_board(x, y) implies (#[trigger] r.cell(x, y)).candidates@.len() == 9 && r.cell(x, y).blk_id == block_of(x, y) by {
                    assert(r.same_cell(self, x, y));
                    assert(self.cell(x, y).candidates@.len() == 9);
                }
                assert forall|x: int| 0 <= x < 9 implies (#[trigger] r.data@[x])@.len() == 9 by {
                    assert(self.data@[x]@.len() == 9);
                }
                assert forall|g: int| 0 <= g < 9 implies (#[trigger] r.row_counters@[g])@.len() == 9 by {
                    assert(self.row_counters@[g]@.len() == 9);
                }
                assert forall|g: int| 0 <= g < 9 implies (#[trigger] r.col_counters@[g])@.len() == 9 by {
                    assert(self.col_counters@[g]@.len() == 9);
                }
                assert forall|g: int| 0 <= g < 9 implies (#[trigger] r.blk_counters@[g])@.len() == 9 by {
                    assert(self.blk_counters@[g]@.len() == 9);
                }
                assert forall|x: int, y: int| on_board(x, y) implies {
                    &&& 0 <= #[trigger] r.value_at(x, y) <= 9
                    &&& r.cell(x, y).candidate_amnt == count_true(r.cands(x, y))
                    &&& r.value_at(x, y) != 0 ==> forall|v: int| 0 <= v < 9 ==> !r.has(x, y, v)
                } by {
                    assert(r.same_cell(self, x, y));
                    assert(0 <= self.value_at(x, y) <= 9);
                    assert(r.cell(x, y).candidate_amnt == self.cell(x, y).candidate_amnt);
                    if r.value_at(x, y) != 0 {
                        assert forall|v: int| 0 <= v < 9 implies !r.has(x, y, v) by {
                            assert(!self.has(x, y, v));
                        }
                    }
                }
                assert forall|x: int, y: int, x2: int, y2: int, v: int|
                    on_board(x, y) && on_board(x2, y2) && 0 <= v < 9 && #[trigger] r.value_at(x, y) == v + 1 && peers(x, y, x2, y2)
                    implies !#[trigger] r.has(x2, y2, v) by {
                    assert(r.same_cell(self, x, y));
                    assert(r.same_cell(self, x2, y2));
                    assert(self.value_at(x, y) == v + 1);
                    assert(!self.has(x2, y2, v));
                }
                assert forall|x: int, y: int, x2: int, y2: int|
                    on_board(x, y) && on_board(x2, y2) && (x, y) != (x2, y2) && peers(x, y, x2, y2) && #[trigger] r.value_at(x, y) != 0
                    implies #[trigger] r.value_at(x2, y2) != r.value_at(x, y) by {
                    assert(r.same_cell(self, x, y));
                    assert(r.same_cell(self, x2, y2));
                    assert(self.value_at(x, y) != 0);
                }
            }
        }
        r
    }
}

impl<'a> SudokuGrid<'a> {
    /// The places of the first two cells of group `g` of kind `k` that admit
    /// `val_loc + 1`, for a group where exactly two do.
    fn host_pair(&self, k: usize, g: usize, val_loc: usize) -> (r: (usize, usize))
        requires
            self.counts_wf(),
            k < 3,
            g < 9,
            val_loc < 9,
            count_true(self.group_hosts(k as int, g as int, val_loc as int)) == 2,
        ensures
            r.0 < r.1 < 9,
            self.group_hosts(k as int, g as int, val_loc as int)[r.0 as int],
            self.group_hosts(k as int, g as int, val_loc as int)[r.1 as int],
            forall|j: int| 0 <= j < 9 && j != r.0 && j != r.1 ==> !#[trigger] self.group_hosts(k as int, g as int, val_loc as int)[j],
    {
        let ghost s = self.group_hosts(k as int, g as int, val_loc as int);
        let ind = self.indexing;
        let t = if k == 0 {
            &ind.rows
        } else if k == 1 {
            &ind.cols
        } else {
            &ind.blks
        };
        assert(ind.table(k as int)[g as int]@.len() == 9);
        let mut first: usize = 9;
        let mut second: usize = 9;
        for j in 0..9usize
            invariant
                self.counts_wf(),
                k < 3,
                g < 9,
                val_loc < 9,
                *ind == self.topology(),
                ind.wf(),
                t@ == ind.table(k as int),
                t@[g as int]@.len() == 9,
                s == self.group_hosts(k as int, g as int, val_loc as int),
                first == 9 ==> second == 9 && forall|x: int| 0 <= x < j ==> !#[trigger] s[x],
                first != 9 ==> first < j && s[first as int],
                first != 9 && second == 9 ==> forall|x: int| 0 <= x < j && x != first ==> !#[trigger] s[x],
                second != 9 ==> first < second < j && s[second as int],
        {
            let p = t[g][j];
            assert(ind.entry(k as int, g as int, j as int) == p);
            proof {
                lemma_group_pos(k as int, g as int, j as int, 0, 0);
            }
            assert(self.data@[p.0 as int]@.len() == 9);
            assert(self.cell(p.0 as int, p.1 as int).candidates@.len() == 9);
            if self.data[p.0][p.1].candidates[val_loc] {
                if first == 9 {
                    first = j;
                } else if second == 9 {
                    second = j;
                }
            }
        }
        proof {
            if first == 9 {
                lemma_count_zero(s);
            } else if second == 9 {
                lemma_count_one(s, first as int);
            }
            lemma_count_two(s, first as int, second as int);
        }
        (first, second)
    }

    /// The last cell of group `element` of kind `mode` that admits `val_loc + 1`.
    fn update_loop(&self, element: usize, val_loc: usize, mode: usize) -> (r: (usize, usize))
        requires
            self.counts_wf(),
            element < 9,
            val_loc < 9,
            mode < 3,
            count_true(self.group_hosts(mode as int, element as int, val_loc as int)) >= 1,
        ensures
            on_board(r.0 as int, r.1 as int),
            group_of(mode as int, r.0 as int, r.1 as int) == element,
            self.has(r.0 as int, r.1 as int, val_loc as int),
            forall|j: int| index_in(mode as int, r.0 as int, r.1 as int) < j < 9 ==> !#[trigger] self.group_hosts(mode as int, element as int, val_loc as int)[j],
    {
        let ghost s = self.group_hosts(mode as int, element as int, val_loc as int);
        let ind = self.indexing;
        let t = if mode == 0 {
            &ind.rows
        } else if mode == 1 {
            &ind.cols
        } else {
            &ind.blks
        };
        assert(ind.table(mode as int)[element as int]@.len() == 9);
        let mut location: (usize, usize) = (10, 10);
        let ghost mut at: int = 0;
        for j in 0..9usize
            invariant
                self.counts_wf(),
                element < 9,
                val_loc < 9,
                mode < 3,
                *ind == self.topology(),
                ind.wf(),
                t@ == ind.table(mode as int),
                t@[element as int]@.len() == 9,
                s == self.group_hosts(mode as int, element as int, val_loc as int),
                location.0 == 10 ==> forall|x: int| 0 <= x < j ==> !#[trigger] s[x],
                location.0 != 10 ==> {
                    &&& 0 <= at < j
                    &&& s[at]
                    &&& (location.0 as int, location.1 as int) == group_pos(mode as int, element as int, at)
                    &&& forall|x: int| at < x < j ==> !#[trigger] s[x]
                },
        {
            let pos = t[element][j];
            assert(ind.entry(mode as int, element as int, j as int) == pos);
            proof {
                lemma_group_pos(mode as int, element as int, j as int, 0, 0);
            }
            assert(self.data@[pos.0 as int]@.len() == 9);
            assert(self.cell(pos.0 as int, pos.1 as int).candidates@.len() == 9);
            if self.data[pos.0][pos.1].candidates[val_loc] {
                location = pos;
                proof {
                    at = j as int;
                }
            }
        }
        proof {
            if location.0 == 10 {
                lemma_count_zero(s);
            }
            lemma_group_pos(mode as int, element as int, at, 0, 0);
        }
        location
    }
}

impl<'a> SudokuGrid<'a> {
    /// Some group has a value that exactly one of its cells admits.
    pub open spec fn has_hidden_single(&self) -> bool {
        exists|k: int, g: int, v: int|
            0 <= k < 3 && 0 <= g < 9 && 0 <= v < 9 && count_true(#[trigger] self.group_hosts(k, g, v)) == 1
    }

    /// Some cell admits exactly one value.
    pub open spec fn has_naked_single(&self) -> bool {
        exists|r: int, c: int| on_board(r, c) && count_true(#[trigger] self.cands(r, c)) == 1
    }

    /// In block `b` exactly two cells admit `v + 1`, both in row `r` or both in column
    /// `c`, and the cell `(r, c)` outside the block still admits it.
    pub open spec fn pointing_elim(&self, b: int, v: int, r: int, c: int) -> bool {
        &&& count_true(self.group_hosts(2, b, v)) == 2
        &&& block_of(r, c) != b
        &&& self.has(r, c, v)
        &&& ((forall|j: int| 0 <= j < 9 && #[trigger] self.group_hosts(2, b, v)[j] ==> group_pos(2, b, j).0 == r)
            || (forall|j: int| 0 <= j < 9 && #[trigger] self.group_hosts(2, b, v)[j] ==> group_pos(2, b, j).1 == c))
    }

    /// Some pointing pair still has a candidate to take away.
    pub open spec fn has_pointing_pair(&self) -> bool {
        exists|b: int, v: int, r: int, c: int|
            0 <= b < 9 && 0 <= v < 9 && on_board(r, c) && #[trigger] self.pointing_elim(b, v, r, c)
    }

    /// One of the three propagation rules applies.
    pub open spec fn has_forced_move(&self) -> bool {
        self.has_hidden_single() || self.has_naked_single() || self.has_pointing_pair()
    }
}

/// Equal states agree on every propagation rule.
pub proof fn lemma_same_forced(a: SudokuGrid, b: SudokuGrid)
    requires
        a.same_state(&b),
    ensures
        a.has_hidden_single() == b.has_hidden_single(),
        a.has_naked_single() == b.has_naked_single(),
        a.has_pointing_pair() == b.has_pointing_pair(),
        forall|bl: int, v: int, r: int, c: int|
            0 <= bl < 9 && 0 <= v < 9 && on_board(r, c) ==> #[trigger] a.pointing_elim(bl, v, r, c) == b.pointing_elim(bl, v, r, c),
{
    lemma_same_state(a, b);
    assert forall|r: int, c: int| on_board(r, c) implies #[trigger] a.cands(r, c) == b.cands(r, c) by {
        assert(a.same_cell(&b, r, c));
    }
    assert forall|bl: int, v: int, r: int, c: int|
        0 <= bl < 9 && 0 <= v < 9 && on_board(r, c) implies #[trigger] a.pointing_elim(bl, v, r, c) == b.pointing_elim(bl, v, r, c) by {
        assert(a.group_hosts(2, bl, v) == b.group_hosts(2, bl, v));
        assert(a.same_cell(&b, r, c));
    }
    if a.has_hidden_single() {
        let (k, g, v) = choose|k: int, g: int, v: int|
            0 <= k < 3 && 0 <= g < 9 && 0 <= v < 9 && count_true(#[trigger] a.group_hosts(k, g, v)) == 1;
        assert(a.group_hosts(k, g, v) == b.group_hosts(k, g, v));
    }
    if b.has_hidden_single() {
        let (k, g, v) = choose|k: int, g: int, v: int|
            0 <= k < 3 && 0 <= g < 9 && 0 <= v < 9 && count_true(#[trigger] b.group_hosts(k, g, v)) == 1;
        assert(a.group_hosts(k, g, v) == b.group_hosts(k, g, v));
    }
    if a.has_naked_single() {
        let (r, c) = choose|r: int, c: int| on_board(r, c) && count_true(#[trigger] a.cands(r, c)) == 1;
        assert(a.cands(r, c) == b.cands(r, c));
    }
    if b.has_naked_single() {
        let (r, c) = choose|r: int, c: int| on_board(r, c) && count_true(#[trigger] b.cands(r, c)) == 1;
        assert(a.cands(r, c) == b.cands(r, c));
    }
    if a.has_pointing_pair() {
        let (bl, v, r, c) = choose|bl: int, v: int, r: int, c: int|
            0 <= bl < 9 && 0 <= v < 9 && on_board(r, c) && #[trigger] a.pointing_elim(bl, v, r, c);
        assert(b.pointing_elim(bl, v, r, c));
    }
    if b.has_pointing_pair() {
        let (bl, v, r, c) = choose|bl: int, v: int, r: int, c: int|
            0 <= bl < 9 && 0 <= v < 9 && on_board(r, c) && #[trigger] b.pointing_elim(bl, v, r, c);
        assert(a.pointing_elim(bl, v, r, c));
    }
}

/// Taking candidates away, and nothing else, keeps the whole invariant and refines.
proof fn lemma_retract_keeps(a: SudokuGrid, b: SudokuGrid)
    requires
        a.wf(),
        b.counts_wf(),
        b.topology() == a.topology(),
        forall|r: int, c: int| on_board(r, c) ==> #[trigger] b.value_at(r, c) == a.value_at(r, c),
        forall|r: int, c: int, w: int| on_board(r, c) && 0 <= w < 9 && #[trigger] b.has(r, c, w) ==> a.has(r, c, w),
    ensures
        b.wf(),
        a.refines(&b),
{
    assert forall|r: int, c: int, r2: int, c2: int, w: int|
        on_board(r, c) && on_board(r2, c2) && 0 <= w < 9 && #[trigger] b.value_at(r, c) == w + 1 && peers(r, c, r2, c2)
        implies !#[trigger] b.has(r2, c2, w) by {
        assert(a.value_at(r, c) == w + 1);
    }
    assert forall|r: int, c: int, r2: int, c2: int|
        on_board(r, c) && on_board(r2, c2) && (r, c) != (r2, c2) && peers(r, c, r2, c2) && #[trigger] b.value_at(r, c) != 0
        implies #[trigger] b.value_at(r2, c2) != b.value_at(r, c) by {
        assert(a.value_at(r, c) == b.value_at(r, c));
        assert(a.value_at(r2, c2) == b.value_at(r2, c2));
    }
    assert forall|r: int, c: int| on_board(r, c) implies #[trigger] a.refines_cell(&b, r, c) by {
        assert(a.value_at(r, c) == b.value_at(r, c));
    }
}

/// The solution `sol` does not hold `v + 1` at places `from..to` of the line `line`.
pub open spec fn span_free(sol: SudokuGrid, along_row: bool, line: int, from: int, to: int, v: int) -> bool {
    forall|x: int| from <= x < to ==> sol.value_at(#[trigger] span_cell(along_row, line, x).0, span_cell(along_row, line, x).1) != v + 1
}

/// The cell at place `x` of the line `line`: along a row, or down a column.
pub open spec fn span_cell(along_row: bool, line: int, x: int) -> (int, int) {
    if along_row {
        (line, x)
    } else {
        (x, line)
    }
}

impl<'a> SudokuGrid<'a> {
    /// Takes the candidate `val_loc + 1` from the cells at places `from..to` of row `line`
    /// (or of column `line`), and returns how many cells lost it.
    fn retract_span(&mut self, along_row: bool, line: usize, from: usize, to: usize, val_loc: usize) -> (n: usize)
        requires
            old(self).wf(),
            line < 9,
            from <= to <= 9,
            val_loc < 9,
        ensures
            final(self).wf(),
            old(self).refines(final(self)),
            final(self).topology() == old(self).topology(),
            forall|r: int, c: int| on_board(r, c) ==> #[trigger] final(self).value_at(r, c) == old(self).value_at(r, c),
            forall|r: int, c: int, w: int|
                on_board(r, c) && 0 <= w < 9 ==> #[trigger] final(self).has(r, c, w) == (old(self).has(r, c, w) && !(w == val_loc
                    && exists|x: int| from <= x < to && span_cell(along_row, line as int, x) == (r, c))),
            n <= to - from,
            (n == 0) == (forall|x: int| from <= x < to ==> !old(self).has(#[trigger] span_cell(along_row, line as int, x).0, span_cell(along_row, line as int, x).1, val_loc as int)),
            n > 0 ==> final(self).measure() < old(self).measure(),
            forall|sol: SudokuGrid| #[trigger] old(self).completes_to(&sol) && span_free(sol, along_row, line as int, from as int, to as int, val_loc as int)
                ==> final(self).completes_to(&sol),
    {
        let ghost a = *self;
        let mut n: usize = 0;
        for x in from..to
            invariant
                self.counts_wf(),
                a.wf(),
                line < 9,
                from <= to <= 9,
                val_loc < 9,
                self.topology() == a.topology(),
                forall|r: int, c: int| on_board(r, c) ==> #[trigger] self.value_at(r, c) == a.value_at(r, c),
                forall|r: int, c: int, w: int|
                    on_board(r, c) && 0 <= w < 9 ==> #[trigger] self.has(r, c, w) == (a.has(r, c, w) && !(w == val_loc
                        && exists|y: int| from <= y < x && span_cell(along_row, line as int, y) == (r, c))),
                n <= x - from,
                (n == 0) == (forall|y: int| from <= y < x ==> !a.has(#[trigger] span_cell(along_row, line as int, y).0, span_cell(along_row, line as int, y).1, val_loc as int)),
                forall|sol: SudokuGrid| #[trigger] a.completes_to(&sol) && span_free(sol, along_row, line as int, from as int, to as int, val_loc as int)
                    ==> self.completes_to(&sol),
        {
            let (r, c) = if along_row {
                (line, x)
            } else {
                (x, line)
            };
            let ghost prev = *self;
            let changed = self.flip_val(r, c, val_loc);
            proof {
                assert forall|r2: int, c2: int, w: int| on_board(r2, c2) && 0 <= w < 9 implies #[trigger] self.has(r2, c2, w) == (a.has(r2, c2, w) && !(w == val_loc
                        && exists|y: int| from <= y < x + 1 && span_cell(along_row, line as int, y) == (r2, c2))) by {
                    assert(prev.has(r2, c2, w) == (a.has(r2, c2, w) && !(w == val_loc
                        && exists|y: int| from <= y < x && span_cell(along_row, line as int, y) == (r2, c2))));
                    if span_cell(along_row, line as int, x as int) == (r2, c2) {
                        assert(from <= x < x + 1);
                    }
                    if exists|y: int| from <= y < x + 1 && span_cell(along_row, line as int, y) == (r2, c2) {
                        let y = choose|y: int| from <= y < x + 1 && span_cell(along_row, line as int, y) == (r2, c2);
                        if y < x {
                            assert(exists|y: int| from <= y < x && span_cell(along_row, line as int, y) == (r2, c2));
                        }
                    }
                }
                assert forall|r2: int, c2: int| on_board(r2, c2) implies #[trigger] self.value_at(r2, c2) == a.value_at(r2, c2) by {
                    assert(prev.value_at(r2, c2) == a.value_at(r2, c2));
                }
                assert(prev.has(r as int, c as int, val_loc as int) == a.has(r as int, c as int, val_loc as int)) by {
                    if exists|y: int| from <= y < x && span_cell(along_row, line as int, y) == (r as int, c as int) {
                        let y = choose|y: int| from <= y < x && span_cell(along_row, line as int, y) == (r as int, c as int);
                        assert(y == x);
                    }
                }
                assert(span_cell(along_row, line as int, x as int) == (r as int, c as int));
                assert forall|sol: SudokuGrid| #[trigger] a.completes_to(&sol) && span_free(sol, along_row, line as int, from as int, to as int, val_loc as int)
                    implies self.completes_to(&sol) by {
                    assert(prev.completes_to(&sol));
                    assert(sol.value_at(span_cell(along_row, line as int, x as int).0, span_cell(along_row, line as int, x as int).1) != val_loc + 1);
                    lemma_retract_keeps_solution(prev, *self, r as int, c as int, val_loc as int, sol);
                }
            }
            if changed {
                n += 1;
            }
        }
        proof {
            lemma_retract_keeps(a, *self);
            if n > 0 {
                let y = choose|y: int| from <= y < to && a.has(#[trigger] span_cell(along_row, line as int, y).0, span_cell(along_row, line as int, y).1, val_loc as int);
                let (r, c) = span_cell(along_row, line as int, y);
                assert(!self.has(r, c, val_loc as int));
                assert(!a.same_cell(self, r, c));
            }
            lemma_refines_measure(a, *self);
        }
        n
    }
}

/// A state equals itself.
pub proof fn lemma_same_refl(a: SudokuGrid)
    ensures
        a.same_state(&a),
{
    assert forall|r: int, c: int| on_board(r, c) implies #[trigger] a.same_cell(&a, r, c) by {}
}

/// Two retractions along a line that took nothing away leave the state as it was.
proof fn lemma_spans_unchanged(a: SudokuGrid, b: SudokuGrid, along_row: bool, line: int, edge: int, v: int)
    requires
        a.counts_wf(),
        b.counts_wf(),
        0 <= line < 9,
        0 <= edge <= 6,
        0 <= v < 9,
        b.topology() == a.topology(),
        forall|r: int, c: int| on_board(r, c) ==> #[trigger] b.value_at(r, c) == a.value_at(r, c),
        forall|r: int, c: int, w: int|
            on_board(r, c) && 0 <= w < 9 ==> #[trigger] b.has(r, c, w) == (a.has(r, c, w) && !(w == v
                && exists|x: int| (0 <= x < edge || edge + 3 <= x < 9) && span_cell(along_row, line, x) == (r, c))),
        forall|x: int| (0 <= x < edge || edge + 3 <= x < 9) ==> !a.has(#[trigger] span_cell(along_row, line, x).0, span_cell(along_row, line, x).1, v),
    ensures
        a.same_state(&b),
{
    assert forall|r: int, c: int| on_board(r, c) implies #[trigger] a.same_cell(&b, r, c) by {
        assert(a.cell(r, c).candidates@.len() == 9);
        assert(b.cell(r, c).candidates@.len() == 9);
        assert forall|w: int| 0 <= w < 9 implies a.cands(r, c)[w] == b.cands(r, c)[w] by {
            assert(b.has(r, c, w) == a.has(r, c, w)) by {
                if w == v && exists|x: int| (0 <= x < edge || edge + 3 <= x < 9) && span_cell(along_row, line, x) == (r, c) {
                    let x = choose|x: int| (0 <= x < edge || edge + 3 <= x < 9) && span_cell(along_row, line, x) == (r, c);
                    assert(!a.has(span_cell(along_row, line, x).0, span_cell(along_row, line, x).1, v));
                }
            }
        }
        assert(a.cands(r, c) =~= b.cands(r, c));
    }
}

/// Two retractions along the line `line`, over the places before `edge` and from
/// `edge + 3` on, taken together.
proof fn lemma_two_spans(a: SudokuGrid, s2: SudokuGrid, b: SudokuGrid, along_row: bool, line: int, edge: int, v: int)
    requires
        0 <= edge <= 6,
        0 <= v < 9,
        forall|r: int, c: int, w: int|
            on_board(r, c) && 0 <= w < 9 ==> #[trigger] s2.has(r, c, w) == (a.has(r, c, w) && !(w == v
                && exists|x: int| 0 <= x < edge && span_cell(along_row, line, x) == (r, c))),
        forall|r: int, c: int, w: int|
            on_board(r, c) && 0 <= w < 9 ==> #[trigger] b.has(r, c, w) == (s2.has(r, c, w) && !(w == v
                && exists|x: int| edge + 3 <= x < 9 && span_cell(along_row, line, x) == (r, c))),
        forall|r: int, c: int| on_board(r, c) ==> #[trigger] s2.value_at(r, c) == a.value_at(r, c),
        forall|r: int, c: int| on_board(r, c) ==> #[trigger] b.value_at(r, c) == s2.value_at(r, c),
    ensures
        forall|r: int, c: int, w: int|
            on_board(r, c) && 0 <= w < 9 ==> #[trigger] b.has(r, c, w) == (a.has(r, c, w) && !(w == v
                && exists|x: int| (0 <= x < edge || edge + 3 <= x < 9) && span_cell(along_row, line, x) == (r, c))),
        forall|r: int, c: int| on_board(r, c) ==> #[trigger] b.value_at(r, c) == a.value_at(r, c),
        forall|x: int| edge + 3 <= x < 9 && on_board(span_cell(along_row, line, x).0, span_cell(along_row, line, x).1) ==>
            s2.has(#[trigger] span_cell(along_row, line, x).0, span_cell(along_row, line, x).1, v) == a.has(span_cell(along_row, line, x).0, span_cell(along_row, line, x).1, v),
{
    assert forall|r: int, c: int, w: int| on_board(r, c) && 0 <= w < 9 implies #[trigger] b.has(r, c, w) == (a.has(r, c, w) && !(w == v
        && exists|x: int| (0 <= x < edge || edge + 3 <= x < 9) && span_cell(along_row, line, x) == (r, c))) by {
        assert(s2.has(r, c, w) == (a.has(r, c, w) && !(w == v && exists|x: int| 0 <= x < edge && span_cell(along_row, line, x) == (r, c))));
        if exists|x: int| (0 <= x < edge || edge + 3 <= x < 9) && span_cell(along_row, line, x) == (r, c) {
            let x = choose|x: int| (0 <= x < edge || edge + 3 <= x < 9) && span_cell(along_row, line, x) == (r, c);
            if x < edge {
                assert(exists|y: int| 0 <= y < edge && span_cell(along_row, line, y) == (r, c));
            } else {
                assert(exists|y: int| edge + 3 <= y < 9 && span_cell(along_row, line, y) == (r, c));
            }
        }
    }
    assert forall|r: int, c: int| on_board(r, c) implies #[trigger] b.value_at(r, c) == a.value_at(r, c) by {
        assert(s2.value_at(r, c) == a.value_at(r, c));
    }
    assert forall|x: int| edge + 3 <= x < 9 && on_board(span_cell(along_row, line, x).0, span_cell(along_row, line, x).1) implies
        s2.has(#[trigger] span_cell(along_row, line, x).0, span_cell(along_row, line, x).1, v) == a.has(span_cell(along_row, line, x).0, span_cell(along_row, line, x).1, v) by {
        let (r, c) = span_cell(along_row, line, x);
        if exists|y: int| 0 <= y < edge && span_cell(along_row, line, y) == (r, c) {
            let y = choose|y: int| 0 <= y < edge && span_cell(along_row, line, y) == (r, c);
        }
    }
}

/// When the two cells of block `blk` that admit `v + 1` both lie on the line `line`, the
/// pointing targets of that block and value are exactly the cells of the line outside the
/// block that admit it.
proof fn lemma_pointing_line(a: SudokuGrid, blk: int, v: int, j1: int, j2: int, along_row: bool, line: int, edge: int)
    requires
        0 <= blk < 9,
        0 <= v < 9,
        0 <= j1 < 9,
        0 <= j2 < 9,
        j1 != j2,
        0 <= line < 9,
        count_true(a.group_hosts(2, blk, v)) == 2,
        a.group_hosts(2, blk, v)[j1],
        a.group_hosts(2, blk, v)[j2],
        forall|j: int| 0 <= j < 9 && j != j1 && j != j2 ==> !#[trigger] a.group_hosts(2, blk, v)[j],
        along_row ==> group_pos(2, blk, j1).0 == line && group_pos(2, blk, j2).0 == line,
        !along_row ==> group_pos(2, blk, j1).1 == line && group_pos(2, blk, j2).1 == line,
        forall|x: int| 0 <= x < 9 ==> (block_of(#[trigger] span_cell(along_row, line, x).0, span_cell(along_row, line, x).1) != blk) == (0 <= x < edge || edge + 3 <= x < 9),
    ensures
        forall|x: int| (0 <= x < edge || edge + 3 <= x < 9) && 0 <= x < 9 && a.has(#[trigger] span_cell(along_row, line, x).0, span_cell(along_row, line, x).1, v)
            ==> a.pointing_elim(blk, v, span_cell(along_row, line, x).0, span_cell(along_row, line, x).1),
        forall|r: int, c: int| on_board(r, c) && #[trigger] a.pointing_elim(blk, v, r, c) ==> {
            let x = if along_row { c } else { r };
            &&& (0 <= x < edge || edge + 3 <= x < 9)
            &&& span_cell(along_row, line, x) == (r, c)
            &&& a.has(span_cell(along_row, line, x).0, span_cell(along_row, line, x).1, v)
        },
{
    let hosts = a.group_hosts(2, blk, v);
    lemma_group_pos(2, blk, j1, 0, 0);
    lemma_group_pos(2, blk, j2, 0, 0);
    lemma_group_pos(2, blk, j1, group_pos(2, blk, j2).0, group_pos(2, blk, j2).1);
    assert forall|x: int| (0 <= x < edge || edge + 3 <= x < 9) && 0 <= x < 9 && a.has(#[trigger] span_cell(along_row, line, x).0, span_cell(along_row, line, x).1, v)
        implies a.pointing_elim(blk, v, span_cell(along_row, line, x).0, span_cell(along_row, line, x).1) by {
        let (r, c) = span_cell(along_row, line, x);
        if along_row {
            assert forall|j: int| 0 <= j < 9 && #[trigger] hosts[j] implies group_pos(2, blk, j).0 == r by {
                if j != j1 && j != j2 {
                    assert(!hosts[j]);
                }
            }
        } else {
            assert forall|j: int| 0 <= j < 9 && #[trigger] hosts[j] implies group_pos(2, blk, j).1 == c by {
                if j != j1 && j != j2 {
                    assert(!hosts[j]);
                }
            }
        }
    }
    assert forall|r: int, c: int| on_board(r, c) && #[trigger] a.pointing_elim(blk, v, r, c) implies {
        let x = if along_row { c } else { r };
        &&& (0 <= x < edge || edge + 3 <= x < 9)
        &&& span_cell(along_row, line, x) == (r, c)
        &&& a.has(span_cell(along_row, line, x).0, span_cell(along_row, line, x).1, v)
    } by {
        assert(hosts[j1]);
        assert(hosts[j2]);
        let x = if along_row { c } else { r };
        assert(block_of(span_cell(along_row, line, x).0, span_cell(along_row, line, x).1) != blk == (0 <= x < edge || edge + 3 <= x < 9));
    }
}

/// Taking `v + 1` from the line of a pointing pair, outside its block, keeps every
/// reachable solution: the solution holds `v + 1` in the block at one of the pair's cells,
/// hence on that line inside the block.
proof fn lemma_pointing_keeps(a: SudokuGrid, s2: SudokuGrid, b: SudokuGrid, blk: int, v: int, j1: int, j2: int, along_row: bool, line: int, edge: int)
    requires
        a.wf(),
        0 <= blk < 9,
        0 <= v < 9,
        0 <= j1 < 9,
        0 <= j2 < 9,
        0 <= line < 9,
        0 <= edge <= 6,
        count_true(a.group_hosts(2, blk, v)) == 2,
        forall|j: int| 0 <= j < 9 && j != j1 && j != j2 ==> !#[trigger] a.group_hosts(2, blk, v)[j],
        along_row ==> group_pos(2, blk, j1).0 == line && group_pos(2, blk, j2).0 == line,
        !along_row ==> group_pos(2, blk, j1).1 == line && group_pos(2, blk, j2).1 == line,
        forall|x: int| 0 <= x < 9 ==> (block_of(#[trigger] span_cell(along_row, line, x).0, span_cell(along_row, line, x).1) != blk) == (0 <= x < edge || edge + 3 <= x < 9),
        forall|sol: SudokuGrid| #[trigger] a.completes_to(&sol) && span_free(sol, along_row, line, 0, edge, v) ==> s2.completes_to(&sol),
        forall|sol: SudokuGrid| #[trigger] s2.completes_to(&sol) && span_free(sol, along_row, line, edge + 3, 9, v) ==> b.completes_to(&sol),
    ensures
        forall|sol: SudokuGrid| #[trigger] a.completes_to(&sol) ==> b.completes_to(&sol),
{
    assert forall|sol: SudokuGrid| #[trigger] a.completes_to(&sol) implies b.completes_to(&sol) by {
        let j = lemma_solution_hosts(a, sol, 2, blk, v);
        assert(j == j1 || j == j2);
        lemma_group_pos(2, blk, j, 0, 0);
        let (yr, yc) = group_pos(2, blk, j);
        assert forall|x: int| (0 <= x < edge || edge + 3 <= x < 9) implies sol.value_at(#[trigger] span_cell(along_row, line, x).0, span_cell(along_row, line, x).1) != v + 1 by {
            let (zr, zc) = span_cell(along_row, line, x);
            assert(block_of(zr, zc) != blk);
            if along_row {
                assert(yr == line && zr == line);
            } else {
                assert(yc == line && zc == line);
            }
            assert(on_board(zr, zc));
            assert(peers(yr, yc, zr, zc));
            assert((yr, yc) != (zr, zc));
            assert(sol.value_at(yr, yc) != 0);
            assert(sol.value_at(zr, zc) != sol.value_at(yr, yc));
        }
        assert(span_free(sol, along_row, line, 0, edge, v));
        assert(s2.completes_to(&sol));
        assert(span_free(sol, along_row, line, edge + 3, 9, v));
    }
}

impl<'a> SudokuGrid<'a> {
    /// For a block where exactly two cells admit `val_loc + 1`: when both lie in one row
    /// (or one column), takes the value from the rest of that row (or column), outside the
    /// block. Returns how many cells lost it.
    #[verifier::rlimit(40)]
    fn eliminate_pointing(&mut self, blk: usize, val_loc: usize) -> (n: usize)
        requires
            old(self).wf(),
            blk < 9,
            val_loc < 9,
            count_true(old(self).group_hosts(2, blk as int, val_loc as int)) == 2,
        ensures
            final(self).wf(),
            old(self).refines(final(self)),
            n <= 18,
            (n == 0) == (forall|r: int, c: int| on_board(r, c) ==> !#[trigger] old(self).pointing_elim(blk as int, val_loc as int, r, c)),
            n > 0 ==> final(self).measure() < old(self).measure(),
            n == 0 ==> old(self).same_state(final(self)),
            forall|sol: SudokuGrid| #[trigger] old(self).completes_to(&sol) ==> final(self).completes_to(&sol),
    {
        let ghost a = *self;
        let ghost hosts = a.group_hosts(2, blk as int, val_loc as int);
        let (j1, j2) = self.host_pair(2, blk, val_loc);
        let ind = self.indexing;
        assert(ind.table(2)[blk as int]@.len() == 9);
        let pos1 = ind.blks[blk][j1];
        let pos2 = ind.blks[blk][j2];
        assert(ind.entry(2, blk as int, j1 as int) == pos1);
        assert(ind.entry(2, blk as int, j2 as int) == pos2);
        proof {
            lemma_group_pos(2, blk as int, j1 as int, pos2.0 as int, pos2.1 as int);
            lemma_group_pos(2, blk as int, j2 as int, pos1.0 as int, pos1.1 as int);
            lemma_same_refl(a);
        }
        let along_row = pos2.0 == pos1.0;
        if along_row || pos2.1 == pos1.1 {
            let (line, blk_edge) = if along_row {
                (pos2.0, pos2.1 - pos2.1 % 3)
            } else {
                (pos2.1, pos2.0 - pos2.0 % 3)
            };
            let n1 = self.retract_span(along_row, line, 0, blk_edge, val_loc);
            let ghost s2 = *self;
            let n2 = self.retract_span(along_row, line, blk_edge + 3, 9, val_loc);
            proof {
                let (ln, e, v) = (line as int, blk_edge as int, val_loc as int);
                assert forall|x: int| 0 <= x < 9 implies (block_of(#[trigger] span_cell(along_row, ln, x).0, span_cell(along_row, ln, x).1) != blk) == (0 <= x < e || e + 3 <= x < 9) by {}
                lemma_two_spans(a, s2, *self, along_row, ln, e, v);
                lemma_pointing_line(a, blk as int, v, j1 as int, j2 as int, along_row, ln, e);
                lemma_refines_trans(a, s2, *self);
                lemma_refines_measure(a, s2);
                lemma_refines_measure(s2, *self);
                lemma_pointing_keeps(a, s2, *self, blk as int, v, j1 as int, j2 as int, along_row, ln, e);
                if n1 + n2 == 0 {
                    lemma_spans_unchanged(a, *self, along_row, ln, e, v);
                    assert forall|r: int, c: int| on_board(r, c) implies !#[trigger] a.pointing_elim(blk as int, v, r, c) by {
                        if a.pointing_elim(blk as int, v, r, c) {
                            let x = if along_row { c } else { r };
                            if x >= e + 3 {
                                assert(!s2.has(span_cell(along_row, ln, x).0, span_cell(along_row, ln, x).1, v));
                            } else {
                                assert(!a.has(span_cell(along_row, ln, x).0, span_cell(along_row, ln, x).1, v));
                            }
                        }
                    }
                } else if n1 > 0 {
                    let x = choose|x: int| 0 <= x < e && a.has(#[trigger] span_cell(along_row, ln, x).0, span_cell(along_row, ln, x).1, v);
                    assert(a.pointing_elim(blk as int, v, span_cell(along_row, ln, x).0, span_cell(along_row, ln, x).1));
                } else {
                    let x = choose|x: int| e + 3 <= x < 9 && s2.has(#[trigger] span_cell(along_row, ln, x).0, span_cell(along_row, ln, x).1, v);
                    assert(a.pointing_elim(blk as int, v, span_cell(along_row, ln, x).0, span_cell(along_row, ln, x).1));
                }
            }
            n1 + n2
        } else {
            proof {
                assert forall|r: int, c: int| on_board(r, c) implies !#[trigger] a.pointing_elim(blk as int, val_loc as int, r, c) by {
                    assert(hosts[j1 as int]);
                    assert(hosts[j2 as int]);
                }
                lemma_same_state(a, a);
            }
            0
        }
    }

    /// Pointing pairs: in every block, a value that only two cells of the block admit,
    /// both in one row or column, is taken from the rest of that line. Returns whether
    /// any candidate was taken.
    fn advanced_update(&mut self) -> (r: bool)
        requires
            old(self).wf(),
        ensures
            final(self).wf(),
            old(self).refines(final(self)),
            r == old(self).has_pointing_pair(),
            r ==> final(self).measure() < old(self).measure(),
            !r ==> old(self).same_state(final(self)),
            forall|sol: SudokuGrid| #[trigger] old(self).completes_to(&sol) ==> final(self).completes_to(&sol),
    {
        let ghost a = *self;
        let mut counter: usize = 0;
        proof {
            lemma_same_refl(a);
            lemma_same_state(a, a);
        }
        for blk in 0..9usize
            invariant
                self.wf(),
                a.wf(),
                a.refines(self),
                counter <= 162 * blk,
                counter == 0 ==> a.same_state(self),
                counter == 0 ==> forall|b: int, v: int, r: int, c: int|
                    0 <= b < blk && 0 <= v < 9 && on_board(r, c) ==> !#[trigger] a.pointing_elim(b, v, r, c),
                counter > 0 ==> self.measure() < a.measure() && a.has_pointing_pair(),
                forall|sol: SudokuGrid| #[trigger] a.completes_to(&sol) ==> self.completes_to(&sol),
        {
            for val_loc in 0..9usize
                invariant
                    blk < 9,
                    self.wf(),
                    a.wf(),
                    a.refines(self),
                    counter <= 162 * blk + 18 * val_loc,
                    counter == 0 ==> a.same_state(self),
                    counter == 0 ==> forall|b: int, v: int, r: int, c: int|
                        (0 <= b < blk || (b == blk && 0 <= v < val_loc)) && 0 <= v < 9 && on_board(r, c) ==> !#[trigger] a.pointing_elim(b, v, r, c),
                    counter > 0 ==> self.measure() < a.measure() && a.has_pointing_pair(),
                    forall|sol: SudokuGrid| #[trigger] a.completes_to(&sol) ==> self.completes_to(&sol),
            {
                let ghost s0 = *self;
                assert(self.blk_counters@[blk as int]@.len() == 9);
                assert(self.counter(2, blk as int, val_loc as int) == count_true(self.group_hosts(2, blk as int, val_loc as int)));
                if self.blk_counters[blk][val_loc] == 2 {
                    let n = self.eliminate_pointing(blk, val_loc);
                    proof {
                        assert forall|sol: SudokuGrid| #[trigger] a.completes_to(&sol) implies self.completes_to(&sol) by {
                            assert(s0.completes_to(&sol));
                        }
                        lemma_refines_trans(a, s0, *self);
                        lemma_refines_measure(a, s0);
                        lemma_refines_measure(s0, *self);
                        if counter == 0 {
                            lemma_same_forced(a, s0);
                            lemma_same_state(a, s0);
                            if n > 0 {
                                let (r, c) = choose|r: int, c: int| on_board(r, c) && #[trigger] s0.pointing_elim(blk as int, val_loc as int, r, c);
                                assert(a.pointing_elim(blk as int, val_loc as int, r, c));
                            } else {
                                lemma_same_state(s0, *self);
                                lemma_same_trans(a, s0, *self);
                            }
                        }
                    }
                    counter += n;
                } else {
                    proof {
                        if counter == 0 {
                            lemma_same_forced(a, s0);
                            assert forall|r: int, c: int| on_board(r, c) implies !#[trigger] a.pointing_elim(blk as int, val_loc as int, r, c) by {
                                assert(!s0.pointing_elim(blk as int, val_loc as int, r, c));
                            }
                        }
                    }
                }
            }
        }
        proof {
            if counter == 0 {
                if a.has_pointing_pair() {
                    let (b, v, r, c) = choose|b: int, v: int, r: int, c: int|
                        0 <= b < 9 && 0 <= v < 9 && on_board(r, c) && #[trigger] a.pointing_elim(b, v, r, c);
                }
            }
        }
        counter > 0
    }
}

impl<'a> SudokuGrid<'a> {
    /// Places every cell that admits a single value. Returns how many cells were placed.
    fn singles(&mut self) -> (sets: usize)
        requires
            old(self).wf(),
        ensures
            final(self).wf(),
            old(self).refines(final(self)),
            sets <= 81,
            (sets > 0) == old(self).has_naked_single(),
            sets > 0 ==> final(self).measure() < old(self).measure(),
            sets == 0 ==> old(self).same_state(final(self)),
            forall|sol: SudokuGrid| #[trigger] old(self).completes_to(&sol) ==> final(self).completes_to(&sol),
    {
        let ghost a = *self;
        let mut sets: usize = 0;
        proof {
            lemma_same_refl(a);
            lemma_same_state(a, a);
        }
        for row in 0..9usize
            invariant
                self.wf(),
                a.wf(),
                a.refines(self),
                sets <= 9 * row,
                sets == 0 ==> a.same_state(self),
                sets == 0 ==> forall|r: int, c: int| 0 <= r < row && 0 <= c < 9 ==> count_true(#[trigger] a.cands(r, c)) != 1,
                sets > 0 ==> self.measure() < a.measure() && a.has_naked_single(),
                forall|sol: SudokuGrid| #[trigger] a.completes_to(&sol) ==> self.completes_to(&sol),
        {
            for col in 0..9usize
                invariant
                    row < 9,
                    self.wf(),
                    a.wf(),
                    a.refines(self),
                    sets <= 9 * row + col,
                    sets == 0 ==> a.same_state(self),
                    sets == 0 ==> forall|r: int, c: int| (0 <= r < row || (r == row && 0 <= c < col)) && 0 <= c < 9 ==> count_true(#[trigger] a.cands(r, c)) != 1,
                    sets > 0 ==> self.measure() < a.measure() && a.has_naked_single(),
                    forall|sol: SudokuGrid| #[trigger] a.completes_to(&sol) ==> self.completes_to(&sol),
            {
                let ghost s0 = *self;
                assert(self.data@[row as int]@.len() == 9);
                assert(0 <= self.value_at(row as int, col as int) <= 9);
                assert(self.cell(row as int, col as int).candidates@.len() == 9);
                proof {
                    if sets == 0 {
                        assert(a.same_cell(&s0, row as int, col as int));
                    }
                }
                if self.data[row][col].candidate_amnt == 1 {
                    sets += 1;
                    for val_loc in 0..9usize
                        invariant
                            row < 9,
                            col < 9,
                            s0.wf(),
                            self.wf(),
                            count_true(s0.cands(row as int, col as int)) == 1,
                            s0.refines(self),
                            *self == s0 ==> forall|w: int| 0 <= w < val_loc ==> !#[trigger] s0.has(row as int, col as int, w),
                            *self != s0 ==> self.measure() < s0.measure() && self.value_at(row as int, col as int) != 0,
                            forall|sol: SudokuGrid| #[trigger] s0.completes_to(&sol) ==> self.completes_to(&sol),
                    {
                        assert(self.cell(row as int, col as int).candidates@.len() == 9);
                        if self.data[row][col].candidates[val_loc] {
                            let ghost s1 = *self;
                            proof {
                                assert(0 <= self.value_at(row as int, col as int) <= 9);
                            }
                            self.set_cell(row, col, val_loc as u8 + 1);
                            proof {
                                let cs = s0.cands(row as int, col as int);
                                lemma_count_clear(cs, val_loc as int);
                                lemma_count_zero(cs.update(val_loc as int, false));
                                assert forall|sol: SudokuGrid| #[trigger] s0.completes_to(&sol) implies self.completes_to(&sol) by {
                                    assert(s0.refines_cell(&sol, row as int, col as int));
                                    assert(sol.value_at(row as int, col as int) != 0);
                                    assert(0 <= sol.value_at(row as int, col as int) <= 9);
                                    let w = sol.value_at(row as int, col as int) - 1;
                                    if w != val_loc {
                                        assert(cs.update(val_loc as int, false)[w]);
                                    }
                                    lemma_place_keeps(s1, *self, row as int, col as int, val_loc as int, sol);
                                }
                                lemma_refines_trans(s0, s1, *self);
                                lemma_refines_measure(s0, s1);
                                assert(!s1.same_cell(self, row as int, col as int));
                                lemma_refines_measure(s1, *self);
                            }
                        }
                    }
                    proof {
                        assert forall|sol: SudokuGrid| #[trigger] a.completes_to(&sol) implies self.completes_to(&sol) by {
                            assert(s0.completes_to(&sol));
                        }
                        if *self == s0 {
                            assert forall|i: int| 0 <= i < s0.cands(row as int, col as int).len() implies !#[trigger] s0.cands(row as int, col as int)[i] by {
                                assert(!s0.has(row as int, col as int, i));
                            }
                            lemma_count_zero(s0.cands(row as int, col as int));
                        }
                        lemma_refines_trans(a, s0, *self);
                        lemma_refines_measure(a, s0);
                        assert(self.measure() < s0.measure());
                        if sets == 1 {
                            assert(a.same_cell(&s0, row as int, col as int));
                            assert(count_true(a.cands(row as int, col as int)) == 1);
                            lemma_same_state(a, s0);
                            assert(a.has_naked_single());
                        }
                    }
                }
            }
        }
        proof {
            if sets == 0 && a.has_naked_single() {
                let (r, c) = choose|r: int, c: int| on_board(r, c) && count_true(#[trigger] a.cands(r, c)) == 1;
            }
        }
        sets
    }

    /// Places the one cell of group `element` of kind `mode` that admits `val_loc + 1`.
    fn place_hidden(&mut self, element: usize, val_loc: usize, mode: usize)
        requires
            old(self).wf(),
            element < 9,
            val_loc < 9,
            mode < 3,
            count_true(old(self).group_hosts(mode as int, element as int, val_loc as int)) == 1,
        ensures
            final(self).wf(),
            old(self).refines(final(self)),
            final(self).measure() < old(self).measure(),
            forall|sol: SudokuGrid| #[trigger] old(self).completes_to(&sol) ==> final(self).completes_to(&sol),
    {
        let ghost a = *self;
        let loc = self.update_loop(element, val_loc, mode);
        proof {
            assert(0 <= self.value_at(loc.0 as int, loc.1 as int) <= 9);
        }
        self.set_cell(loc.0, loc.1, val_loc as u8 + 1);
        proof {
            assert(!a.same_cell(self, loc.0 as int, loc.1 as int));
            lemma_refines_measure(a, *self);
            let (m, e, v) = (mode as int, element as int, val_loc as int);
            let hosts = a.group_hosts(m, e, v);
            let il = index_in(m, loc.0 as int, loc.1 as int);
            lemma_group_pos(m, e, 0, loc.0 as int, loc.1 as int);
            assert(hosts[il]);
            lemma_count_clear(hosts, il);
            lemma_count_zero(hosts.update(il, false));
            assert forall|sol: SudokuGrid| #[trigger] a.completes_to(&sol) implies self.completes_to(&sol) by {
                let j = lemma_solution_hosts(a, sol, m, e, v);
                if j != il {
                    assert(hosts.update(il, false)[j]);
                }
                lemma_place_keeps(a, *self, loc.0 as int, loc.1 as int, v, sol);
            }
        }
    }

    /// One round of propagation. First every value that only one cell of a row, column or
    /// block admits is placed there; if none was, every cell that admits a single value is
    /// placed; if none was, pointing pairs take candidates away. Returns whether anything
    /// changed, which is exactly when one of these rules applied.
    pub fn update(&mut self) -> (r: bool)
        requires
            old(self).wf(),
        ensures
            final(self).wf(),
            old(self).refines(final(self)),
            r == old(self).has_forced_move(),
            r ==> final(self).measure() < old(self).measure(),
            !r ==> old(self).same_state(final(self)),
            forall|sol: SudokuGrid| #[trigger] old(self).completes_to(&sol) ==> final(self).completes_to(&sol),
    {
        let ghost a = *self;
        let mut sets: usize = 0;
        proof {
            lemma_same_refl(a);
            lemma_same_state(a, a);
        }
        for element in 0..9usize
            invariant
                self.wf(),
                a.wf(),
                a.refines(self),
                sets <= 27 * element,
                sets == 0 ==> a.same_state(self),
                sets == 0 ==> forall|k: int, g: int, v: int|
                    0 <= k < 3 && 0 <= g < element && 0 <= v < 9 ==> count_true(#[trigger] a.group_hosts(k, g, v)) != 1,
                sets > 0 ==> self.measure() < a.measure() && a.has_hidden_single(),
                forall|sol: SudokuGrid| #[trigger] a.completes_to(&sol) ==> self.completes_to(&sol),
        {
            for val_loc in 0..9usize
                invariant
                    element < 9,
                    self.wf(),
                    a.wf(),
                    a.refines(self),
                    sets <= 27 * element + 3 * val_loc,
                    sets == 0 ==> a.same_state(self),
                    sets == 0 ==> forall|k: int, g: int, v: int|
                        0 <= k < 3 && (0 <= g < element || (g == element && 0 <= v < val_loc)) && 0 <= v < 9 ==> count_true(#[trigger] a.group_hosts(k, g, v)) != 1,
                    sets > 0 ==> self.measure() < a.measure() && a.has_hidden_single(),
                    forall|sol: SudokuGrid| #[trigger] a.completes_to(&sol) ==> self.completes_to(&sol),
            {
                let ghost (e, v) = (element as int, val_loc as int);
                let ghost s0 = *self;
                assert(self.row_counters@[element as int]@.len() == 9);
                assert(self.counter(0, e, v) == count_true(self.group_hosts(0, e, v)));
                if self.row_counters[element][val_loc] == 1 {
                    sets += 1;
                    self.place_hidden(element, val_loc, 0);
                    proof {
                        assert forall|sol: SudokuGrid| #[trigger] a.completes_to(&sol) implies self.completes_to(&sol) by {
                            assert(s0.completes_to(&sol));
                        }
                        if sets == 1 {
                            lemma_same_state(a, s0);
                            assert(count_true(a.group_hosts(0, e, v)) == 1);
                            assert(a.has_hidden_single());
                        }
                        lemma_refines_trans(a, s0, *self);
                        lemma_refines_measure(a, s0);
                    }
                }
                let ghost s1 = *self;
                assert(self.col_counters@[element as int]@.len() == 9);
                assert(self.counter(1, e, v) == count_true(self.group_hosts(1, e, v)));
                if self.col_counters[element][val_loc] == 1 {
                    sets += 1;
                    self.place_hidden(element, val_loc, 1);
                    proof {
                        assert forall|sol: SudokuGrid| #[trigger] a.completes_to(&sol) implies self.completes_to(&sol) by {
                            assert(s1.completes_to(&sol));
                        }
                        if sets == 1 {
                            lemma_same_state(a, s1);
                            assert(count_true(a.group_hosts(1, e, v)) == 1);
                            assert(a.has_hidden_single());
                        }
                        lemma_refines_trans(a, s1, *self);
                        lemma_refines_measure(a, s1);
                    }
                }
                let ghost s2 = *self;
                assert(self.blk_counters@[element as int]@.len() == 9);
                assert(self.counter(2, e, v) == count_true(self.group_hosts(2, e, v)));
                if self.blk_counters[element][val_loc] == 1 {
                    sets += 1;
                    self.place_hidden(element, val_loc, 2);
                    proof {
                        assert forall|sol: SudokuGrid| #[trigger] a.completes_to(&sol) implies self.completes_to(&sol) by {
                            assert(s2.completes_to(&sol));
                        }
                        if sets == 1 {
                            lemma_same_state(a, s2);
                            assert(count_true(a.group_hosts(2, e, v)) == 1);
                            assert(a.has_hidden_single());
                        }
                        lemma_refines_trans(a, s2, *self);
                        lemma_refines_measure(a, s2);
                    }
                }
                proof {
                    if sets == 0 {
                        lemma_same_state(a, *self);
                    }
                }
            }
        }
        proof {
            if sets == 0 && a.has_hidden_single() {
                let (k, g, v) = choose|k: int, g: int, v: int|
                    0 <= k < 3 && 0 <= g < 9 && 0 <= v < 9 && count_true(#[trigger] a.group_hosts(k, g, v)) == 1;
            }
        }
        if sets == 0 {
            let ghost s3 = *self;
            sets += self.singles();
            proof {
                assert forall|sol: SudokuGrid| #[trigger] a.completes_to(&sol) implies self.completes_to(&sol) by {
                    assert(s3.completes_to(&sol));
                }
                lemma_same_forced(a, s3);
                if sets == 0 {
                    lemma_same_trans(a, s3, *self);
                } else {
                    lemma_same_state(a, s3);
                    lemma_refines_trans(a, s3, *self);
                }
            }
        }
        if sets == 0 {
            let ghost s4 = *self;
            let r = self.advanced_update();
            proof {
                assert forall|sol: SudokuGrid| #[trigger] a.completes_to(&sol) implies self.completes_to(&sol) by {
                    assert(s4.completes_to(&sol));
                }
                lemma_same_forced(a, s4);
                lemma_same_state(a, s4);
                lemma_refines_trans(a, s4, *self);
                if !r {
                    lemma_same_trans(a, s4, *self);
                }
            }
            return r;
        }
        true
    }
}

/// Rank of `(k, g, v1, v2)` in the order in which the branch finder scans: kind, then
/// group, then the two values.
pub open spec fn scan_key(k: int, g: int, v1: int, v2: int) -> int {
    ((k * 9 + g) * 9 + v1) * 9 + v2
}

impl<'a> SudokuGrid<'a> {
    /// Group `g` of kind `k` has exactly two cells that admit `v1 + 1`, and those same two
    /// cells are the only ones that admit `v2 + 1`.
    pub open spec fn is_pair(&self, k: int, g: int, v1: int, v2: int) -> bool {
        &&& 0 <= k < 3
        &&& 0 <= g < 9
        &&& 0 <= v1 < v2 < 9
        &&& count_true(self.group_hosts(k, g, v1)) == 2
        &&& self.group_hosts(k, g, v1) == self.group_hosts(k, g, v2)
    }

    /// No pair of kind below `k`, or of kind `k` in a group below `g`, or in group `g`
    /// with a value pair scanned before `(v1, v2)`.
    pub open spec fn no_pair_before(&self, k: int, g: int, v1: int, v2: int) -> bool {
        forall|k2: int, g2: int, w1: int, w2: int|
            scan_key(k2, g2, w1, w2) < scan_key(k, g, v1, v2) ==> !#[trigger] self.is_pair(k2, g2, w1, w2)
    }

    /// `res` names the pair `(res[0], res[1])` of group `g` of kind `k`, the first in scan
    /// order, with its two cells `(res[2], res[3])` and `(res[4], res[5])` in the order of
    /// the group.
    pub open spec fn is_branch(&self, res: Seq<usize>, k: int, g: int) -> bool {
        &&& self.branch_shape(res, k, g)
        &&& self.no_pair_before(k, g, res[0] as int, res[1] as int)
    }

    /// `res` names the pair `(res[0], res[1])` of group `g` of kind `k` with its two cells
    /// `(res[2], res[3])` and `(res[4], res[5])` in the order of the group.
    pub open spec fn branch_shape(&self, res: Seq<usize>, k: int, g: int) -> bool {
        &&& res.len() == 6
        &&& self.is_pair(k, g, res[0] as int, res[1] as int)
        &&& on_board(res[2] as int, res[3] as int)
        &&& on_board(res[4] as int, res[5] as int)
        &&& group_of(k, res[2] as int, res[3] as int) == g
        &&& group_of(k, res[4] as int, res[5] as int) == g
        &&& index_in(k, res[2] as int, res[3] as int) < index_in(k, res[4] as int, res[5] as int)
        &&& self.has(res[2] as int, res[3] as int, res[0] as int)
        &&& self.has(res[4] as int, res[5] as int, res[0] as int)
    }

    /// Some group holds a pair.
    pub open spec fn has_pair(&self) -> bool {
        exists|k: int, g: int, v1: int, v2: int| #[trigger] self.is_pair(k, g, v1, v2)
    }

    /// What `dualism` returns: the first pair in scan order, or nothing when there is none.
    pub open spec fn dualism_result(&self, res: Seq<usize>) -> bool {
        &&& res.len() == 0 || res.len() == 6
        &&& (res.len() == 0) == !self.has_pair()
        &&& res.len() == 6 ==> exists|k: int, g: int| #[trigger] self.is_branch(res, k, g)
    }
}

/// Two values whose two-cell host sets are given by their first two places are a pair
/// exactly when those places agree.
proof fn lemma_pair_places(s: Seq<bool>, t: Seq<bool>, a1: int, a2: int, b1: int, b2: int)
    requires
        s.len() == 9,
        t.len() == 9,
        0 <= a1 < a2 < 9,
        0 <= b1 < b2 < 9,
        s[a1],
        s[a2],
        t[b1],
        t[b2],
        forall|j: int| 0 <= j < 9 && j != a1 && j != a2 ==> !#[trigger] s[j],
        forall|j: int| 0 <= j < 9 && j != b1 && j != b2 ==> !#[trigger] t[j],
    ensures
        (s == t) == (a1 == b1 && a2 == b2),
{
    if a1 == b1 && a2 == b2 {
        assert forall|j: int| 0 <= j < 9 implies s[j] == t[j] by {}
        assert(s =~= t);
    }
    if s == t {
        assert(t[a1] && t[a2]);
        assert(s[b1] && s[b2]);
    }
}

/// Minimality of the pair found by the branch finder: no earlier group of the kind has a
/// pair, and within the group the pairs of `probe` (the values that exactly two cells
/// admit, in increasing order) before `(val1, val2)` were all rejected.
proof fn lemma_first_pair(a: SudokuGrid, m: int, e: int, probe: Seq<usize>, val1: int, val2: int)
    requires
        0 <= m < 3,
        0 <= e < 9,
        0 <= val1 < val2 < probe.len(),
        probe.len() <= 9,
        forall|i: int| 0 <= i < probe.len() ==> #[trigger] probe[i] < 9,
        forall|g: int, v1: int, v2: int| 0 <= g < e ==> !#[trigger] a.is_pair(m, g, v1, v2),
        forall|i: int, i2: int| 0 <= i < i2 < probe.len() ==> #[trigger] probe[i] < #[trigger] probe[i2],
        forall|v: int| 0 <= v < 9 && count_true(#[trigger] a.group_hosts(m, e, v)) == 2
            ==> exists|i: int| 0 <= i < probe.len() && probe[i] == v,
        forall|i: int, i2: int| 0 <= i < val1 && i < i2 < probe.len() ==> !a.is_pair(m, e, #[trigger] probe[i] as int, #[trigger] probe[i2] as int),
        forall|i2: int| val1 < i2 < val2 ==> !a.is_pair(m, e, probe[val1] as int, #[trigger] probe[i2] as int),
    ensures
        forall|g2: int, w1: int, w2: int|
            scan_key(m, g2, w1, w2) < scan_key(m, e, probe[val1] as int, probe[val2] as int) ==> !#[trigger] a.is_pair(m, g2, w1, w2),
{
    let (v1, v2) = (probe[val1] as int, probe[val2] as int);
    assert(v1 < 9 && v2 < 9);
    assert forall|g2: int, w1: int, w2: int|
        scan_key(m, g2, w1, w2) < scan_key(m, e, v1, v2) implies !#[trigger] a.is_pair(m, g2, w1, w2) by {
        if a.is_pair(m, g2, w1, w2) {
            if g2 < e {
                assert(!a.is_pair(m, g2, w1, w2));
            } else {
                assert(g2 == e);
                assert(w1 < v1 || (w1 == v1 && w2 < v2));
                assert(count_true(a.group_hosts(m, e, w2)) == 2);
                let i = choose|i: int| 0 <= i < probe.len() && probe[i] == w1;
                let i2 = choose|i: int| 0 <= i < probe.len() && probe[i] == w2;
                assert(i < i2) by {
                    if i2 < i {
                        assert(probe[i2] < probe[i]);
                    }
                }
                if i < val1 {
                    assert(!a.is_pair(m, e, probe[i] as int, probe[i2] as int));
                } else if i == val1 {
                    assert(i2 < val2) by {
                        if i2 > val2 {
                            assert(probe[val2] < probe[i2]);
                        }
                    }
                    assert(!a.is_pair(m, e, probe[val1] as int, probe[i2] as int));
                } else {
                    assert(probe[val1] < probe[i]);
                }
            }
        }
    }
}

impl<'a> SudokuGrid<'a> {
    /// The first pair, in scan order, among the groups of kind `mode`, as
    /// `[v1, v2, row1, col1, row2, col2]`; empty when that kind has none.
    fn general_dualism(&self, mode: usize) -> (r: Vec<usize>)
        requires
            self.wf(),
            mode < 3,
        ensures
            r@.len() == 0 || r@.len() == 6,
            r@.len() == 0 ==> forall|g: int, v1: int, v2: int| !#[trigger] self.is_pair(mode as int, g, v1, v2),
            r@.len() == 6 ==> exists|g: int| #[trigger] self.branch_shape(r@, mode as int, g)
                && forall|g2: int, w1: int, w2: int| scan_key(mode as int, g2, w1, w2) < scan_key(mode as int, g, r@[0] as int, r@[1] as int)
                    ==> !#[trigger] self.is_pair(mode as int, g2, w1, w2),
    {
        let ind = self.indexing;
        let t = if mode == 0 {
            &ind.rows
        } else if mode == 1 {
            &ind.cols
        } else {
            &ind.blks
        };
        let counters = if mode == 0 {
            &self.row_counters
        } else if mode == 1 {
            &self.col_counters
        } else {
            &self.blk_counters
        };
        for element in 0..9usize
            invariant
                self.wf(),
                mode < 3,
                *ind == self.topology(),
                ind.wf(),
                t@ == ind.table(mode as int),
                forall|g: int, v: int| 0 <= g < 9 && 0 <= v < 9 ==> #[trigger] counters@[g]@[v] as int == self.counter(mode as int, g, v),
                counters@.len() == 9,
                forall|g: int| 0 <= g < 9 ==> (#[trigger] counters@[g])@.len() == 9,
                forall|g: int, v1: int, v2: int| 0 <= g < element ==> !#[trigger] self.is_pair(mode as int, g, v1, v2),
        {
            assert(counters@[element as int]@.len() == 9);
            let mut probe: Vec<usize> = Vec::new();
            for val_loc in 0..9usize
                invariant
                    self.wf(),
                    mode < 3,
                    element < 9,
                    counters@.len() == 9,
                    counters@[element as int]@.len() == 9,
                    forall|g: int, v: int| 0 <= g < 9 && 0 <= v < 9 ==> #[trigger] counters@[g]@[v] as int == self.counter(mode as int, g, v),
                    probe@.len() <= val_loc,
                    forall|i: int| 0 <= i < probe@.len() ==> #[trigger] probe@[i] < val_loc,
                    forall|i: int, i2: int| 0 <= i < i2 < probe@.len() ==> #[trigger] probe@[i] < #[trigger] probe@[i2],
                    forall|i: int| 0 <= i < probe@.len() ==> count_true(self.group_hosts(mode as int, element as int, #[trigger] probe@[i] as int)) == 2,
                    forall|v: int| 0 <= v < val_loc && count_true(#[trigger] self.group_hosts(mode as int, element as int, v)) == 2
                        ==> exists|i: int| 0 <= i < probe@.len() && probe@[i] == v,
            {
                assert(self.counter(mode as int, element as int, val_loc as int) == count_true(self.group_hosts(mode as int, element as int, val_loc as int)));
                if counters[element][val_loc] == 2 {
                    let ghost old_probe = probe@;
                    probe.push(val_loc);
                    proof {
                        assert forall|v: int| 0 <= v < val_loc + 1 && count_true(#[trigger] self.group_hosts(mode as int, element as int, v)) == 2
                            implies exists|i: int| 0 <= i < probe@.len() && probe@[i] == v by {
                            if v == val_loc {
                                assert(probe@[probe@.len() - 1] == v);
                            } else {
                                let i = choose|i: int| 0 <= i < old_probe.len() && old_probe[i] == v;
                                assert(probe@[i] == v);
                            }
                        }
                    }
                }
            }
            if probe.len() > 1 {
                let last = probe.len() - 1;
                for val1 in 0..last
                    invariant
                        self.wf(),
                        mode < 3,
                        element < 9,
                        *ind == self.topology(),
                        ind.wf(),
                        t@ == ind.table(mode as int),
                        probe@.len() <= 9,
                        forall|i: int| 0 <= i < probe@.len() ==> #[trigger] probe@[i] < 9,
                        forall|i: int, i2: int| 0 <= i < i2 < probe@.len() ==> #[trigger] probe@[i] < #[trigger] probe@[i2],
                        forall|i: int| 0 <= i < probe@.len() ==> count_true(self.group_hosts(mode as int, element as int, #[trigger] probe@[i] as int)) == 2,
                        forall|i: int, i2: int| 0 <= i < val1 && i < i2 < probe@.len() ==> !self.is_pair(mode as int, element as int, #[trigger] probe@[i] as int, #[trigger] probe@[i2] as int),
                        last + 1 == probe@.len(),
                        forall|g: int, v1: int, v2: int| 0 <= g < element ==> !#[trigger] self.is_pair(mode as int, g, v1, v2),
                        forall|v: int| 0 <= v < 9 && count_true(#[trigger] self.group_hosts(mode as int, element as int, v)) == 2
                            ==> exists|i: int| 0 <= i < probe@.len() && probe@[i] == v,
                {
                    assert(probe@[val1 as int] < 9);
                    let (a1, a2) = self.host_pair(mode, element, probe[val1]);
                    for val2 in val1 + 1..probe.len()
                        invariant
                            self.wf(),
                            mode < 3,
                            element < 9,
                            *ind == self.topology(),
                            ind.wf(),
                            t@ == ind.table(mode as int),
                            val1 < probe@.len(),
                            probe@.len() <= 9,
                            forall|i: int| 0 <= i < probe@.len() ==> #[trigger] probe@[i] < 9,
                            forall|i: int, i2: int| 0 <= i < i2 < probe@.len() ==> #[trigger] probe@[i] < #[trigger] probe@[i2],
                            forall|i: int| 0 <= i < probe@.len() ==> count_true(self.group_hosts(mode as int, element as int, #[trigger] probe@[i] as int)) == 2,
                            forall|i: int, i2: int| 0 <= i < val1 && i < i2 < probe@.len() ==> !self.is_pair(mode as int, element as int, #[trigger] probe@[i] as int, #[trigger] probe@[i2] as int),
                            forall|v: int| 0 <= v < 9 && count_true(#[trigger] self.group_hosts(mode as int, element as int, v)) == 2
                            ==> exists|i: int| 0 <= i < probe@.len() && probe@[i] == v,
                            forall|g: int, v1: int, v2: int| 0 <= g < element ==> !#[trigger] self.is_pair(mode as int, g, v1, v2),
                            forall|i2: int| val1 < i2 < val2 ==> !self.is_pair(mode as int, element as int, probe@[val1 as int] as int, #[trigger] probe@[i2] as int),
                            a1 < a2 < 9,
                            self.group_hosts(mode as int, element as int, probe@[val1 as int] as int)[a1 as int],
                            self.group_hosts(mode as int, element as int, probe@[val1 as int] as int)[a2 as int],
                            forall|j: int| 0 <= j < 9 && j != a1 && j != a2 ==> !#[trigger] self.group_hosts(mode as int, element as int, probe@[val1 as int] as int)[j],
                    {
                        assert(probe@[val2 as int] < 9);
                        let (b1, b2) = self.host_pair(mode, element, probe[val2]);
                        proof {
                            lemma_pair_places(
                                self.group_hosts(mode as int, element as int, probe@[val1 as int] as int),
                                self.group_hosts(mode as int, element as int, probe@[val2 as int] as int),
                                a1 as int, a2 as int, b1 as int, b2 as int,
                            );
                            assert(probe@[val1 as int] < probe@[val2 as int]);
                        }
                        if a1 == b1 && a2 == b2 {
                            assert(t@[element as int]@.len() == 9);
                            let pos1 = t[element][a1];
                            let pos2 = t[element][a2];
                            let mut strategy: Vec<usize> = Vec::new();
                            strategy.push(probe[val1]);
                            strategy.push(probe[val2]);
                            strategy.push(pos1.0);
                            strategy.push(pos1.1);
                            strategy.push(pos2.0);
                            strategy.push(pos2.1);
                            proof {
                                let (m, e) = (mode as int, element as int);
                                let (v1, v2) = (probe@[val1 as int] as int, probe@[val2 as int] as int);
                                assert(ind.entry(m, e, a1 as int) == pos1);
                                assert(ind.entry(m, e, a2 as int) == pos2);
                                lemma_group_pos(m, e, a1 as int, 0, 0);
                                lemma_group_pos(m, e, a2 as int, 0, 0);
                                assert(strategy@[0] == v1 && strategy@[1] == v2);
                                assert(self.is_pair(m, e, v1, v2));
                                assert(self.branch_shape(strategy@, m, e));
                                lemma_first_pair(*self, m, e, probe@, val1 as int, val2 as int);
                            }
                            return strategy;
                        }
                    }
                }
            }
            proof {
                assert forall|v1: int, v2: int| !#[trigger] self.is_pair(mode as int, element as int, v1, v2) by {
                    if self.is_pair(mode as int, element as int, v1, v2) {
                        assert(count_true(self.group_hosts(mode as int, element as int, v2)) == 2);
                        let i = choose|i: int| 0 <= i < probe@.len() && probe@[i] == v1;
                        let i2 = choose|i: int| 0 <= i < probe@.len() && probe@[i] == v2;
                        if i2 <= i {
                            if i2 < i {
                                assert(probe@[i2] < probe@[i]);
                            }
                        }
                        assert(probe@.len() > 1);
                    }
                }
            }
        }
        Vec::new()
    }
}

impl<'a> SudokuGrid<'a> {
    /// Looks for two cells of one group that are the only ones to admit two values, first
    /// in the rows, then the columns, then the blocks. Returns
    /// `[v1, v2, row1, col1, row2, col2]` for the first such pair in that order (the values
    /// as candidate places, so `v1 + 1` and `v2 + 1`), or an empty vector when none exists.
    pub fn dualism(&self) -> (r: Vec<usize>)
        requires
            self.wf(),
        ensures
            self.dualism_result(r@),
    {
        let vec1 = self.general_dualism(0);
        if vec1.len() == 6 {
            proof {
                let g = choose|g: int| #[trigger] self.branch_shape(vec1@, 0, g)
                    && forall|g2: int, w1: int, w2: int| scan_key(0, g2, w1, w2) < scan_key(0, g, vec1@[0] as int, vec1@[1] as int)
                        ==> !#[trigger] self.is_pair(0, g2, w1, w2);
                assert(self.is_branch(vec1@, 0, g));
            }
            return vec1;
        }
        let vec2 = self.general_dualism(1);
        if vec2.len() == 6 {
            proof {
                let g = choose|g: int| #[trigger] self.branch_shape(vec2@, 1, g)
                    && forall|g2: int, w1: int, w2: int| scan_key(1, g2, w1, w2) < scan_key(1, g, vec2@[0] as int, vec2@[1] as int)
                        ==> !#[trigger] self.is_pair(1, g2, w1, w2);
                assert forall|k2: int, g2: int, w1: int, w2: int|
                    scan_key(k2, g2, w1, w2) < scan_key(1, g, vec2@[0] as int, vec2@[1] as int) implies !#[trigger] self.is_pair(k2, g2, w1, w2) by {
                    if k2 == 0 {
                        assert(!self.is_pair(0, g2, w1, w2));
                    }
                }
                assert(self.is_branch(vec2@, 1, g));
            }
            return vec2;
        }
        let vec3 = self.general_dualism(2);
        if vec3.len() == 6 {
            proof {
                let g = choose|g: int| #[trigger] self.branch_shape(vec3@, 2, g)
                    && forall|g2: int, w1: int, w2: int| scan_key(2, g2, w1, w2) < scan_key(2, g, vec3@[0] as int, vec3@[1] as int)
                        ==> !#[trigger] self.is_pair(2, g2, w1, w2);
                assert forall|k2: int, g2: int, w1: int, w2: int|
                    scan_key(k2, g2, w1, w2) < scan_key(2, g, vec3@[0] as int, vec3@[1] as int) implies !#[trigger] self.is_pair(k2, g2, w1, w2) by {
                    if k2 == 0 {
                        assert(!self.is_pair(0, g2, w1, w2));
                    } else if k2 == 1 {
                        assert(!self.is_pair(1, g2, w1, w2));
                    }
                }
                assert(self.is_branch(vec3@, 2, g));
            }
            return vec3;
        }
        proof {
            if self.has_pair() {
                let (k, g, v1, v2) = choose|k: int, g: int, v1: int, v2: int| #[trigger] self.is_pair(k, g, v1, v2);
                if k == 0 {
                    assert(!self.is_pair(0, g, v1, v2));
                } else if k == 1 {
                    assert(!self.is_pair(1, g, v1, v2));
                } else {
                    assert(!self.is_pair(2, g, v1, v2));
                }
            }
        }
        Vec::new()
    }
}

/// A well-formed grid whose every cell is set sums to 45 in each row, column and block.
pub proof fn lemma_full_sums(a: SudokuGrid)
    requires
        a.wf(),
        a.all_assigned(),
    ensures
        a.sums_ok(),
        forall|k: int, g: int| 0 <= k < 3 && 0 <= g < 9 ==> is_permutation(#[trigger] a.group_values(k, g)),
{
    assert forall|k: int, g: int| 0 <= k < 3 && 0 <= g < 9 implies is_permutation(#[trigger] a.group_values(k, g)) && sum_of(a.group_values(k, g)) == 45 by {
        let s = a.group_values(k, g);
        assert forall|i: int| 0 <= i < s.len() implies 1 <= #[trigger] s[i] <= s.len() by {
            lemma_group_pos(k, g, i, 0, 0);
            let (r, c) = group_pos(k, g, i);
            assert(a.value_at(r, c) != 0);
            assert(0 <= a.value_at(r, c) <= 9);
        }
        assert forall|i: int, j: int| 0 <= i < j < s.len() implies #[trigger] s[i] != #[trigger] s[j] by {
            let (r, c) = group_pos(k, g, i);
            let (r2, c2) = group_pos(k, g, j);
            lemma_group_pos(k, g, i, r2, c2);
            lemma_group_pos(k, g, j, r, c);
            assert(a.value_at(r, c) != 0);
            assert(a.value_at(r2, c2) != a.value_at(r, c));
        }
        lemma_permutation_sum(s);
        assert(s.len() * (s.len() + 1) / 2 == 45) by (nonlinear_arith)
            requires
                s.len() == 9,
        ;
    }
}

/// A grid whose every row, column and block lists the values 1 to 9 once passes the
/// completeness check with the sanity check on.
pub proof fn lemma_permutation_complete(a: SudokuGrid)
    requires
        a.counts_wf(),
        forall|k: int, g: int| 0 <= k < 3 && 0 <= g < 9 ==> is_permutation(#[trigger] a.group_values(k, g)),
    ensures
        a.complete_spec(true),
{
    assert forall|k: int, g: int| 0 <= k < 3 && 0 <= g < 9 implies sum_of(#[trigger] a.group_values(k, g)) == 45 by {
        let s = a.group_values(k, g);
        lemma_permutation_sum(s);
        assert(s.len() * (s.len() + 1) / 2 == 45) by (nonlinear_arith)
            requires
                s.len() == 9,
        ;
    }
    assert forall|r: int, c: int| on_board(r, c) implies #[trigger] a.value_at(r, c) != 0 by {
        assert(is_permutation(a.group_values(0, r)));
        assert(a.group_values(0, r)[c] >= 1);
    }
}

/// The two cells named by a branch are distinct and each admits both values.
pub proof fn lemma_branch_cells(a: SudokuGrid, res: Seq<usize>, k: int, g: int)
    requires
        a.branch_shape(res, k, g),
    ensures
        res[0] < res[1] < 9,
        (res[2], res[3]) != (res[4], res[5]),
        a.has(res[2] as int, res[3] as int, res[0] as int),
        a.has(res[2] as int, res[3] as int, res[1] as int),
        a.has(res[4] as int, res[5] as int, res[0] as int),
        a.has(res[4] as int, res[5] as int, res[1] as int),
{
    let (r1, c1, r2, c2) = (res[2] as int, res[3] as int, res[4] as int, res[5] as int);
    lemma_group_pos(k, g, 0, r1, c1);
    lemma_group_pos(k, g, 0, r2, c2);
    let (j1, j2) = (index_in(k, r1, c1), index_in(k, r2, c2));
    assert(a.group_hosts(k, g, res[1] as int)[j1] == a.group_hosts(k, g, res[0] as int)[j1]);
    assert(a.group_hosts(k, g, res[1] as int)[j2] == a.group_hosts(k, g, res[0] as int)[j2]);
}

/// Retracting the same candidate twice does what retracting it once does, and the second
/// retraction finds nothing to take.
pub proof fn lemma_retract_twice(a: SudokuGrid, b: SudokuGrid, c: SudokuGrid, row: int, col: int, v: int)
    requires
        b.counts_wf(),
        c.counts_wf(),
        on_board(row, col),
        0 <= v < 9,
        a.retract_step(&b, row, col, v),
        b.retract_step(&c, row, col, v),
    ensures
        !b.has(row, col, v),
        b.same_state(&c),
        a.retract_step(&c, row, col, v),
{
    assert forall|r: int, col2: int| on_board(r, col2) implies #[trigger] b.same_cell(&c, r, col2) by {
        assert forall|w: int| 0 <= w < 9 implies b.cands(r, col2)[w] == c.cands(r, col2)[w] by {
            assert(b.has(r, col2, w) == c.has(r, col2, w));
        }
        assert(b.cell(r, col2).candidates@.len() == 9);
        assert(c.cell(r, col2).candidates@.len() == 9);
        assert(b.cands(r, col2) =~= c.cands(r, col2));
    }
}

/// When the first pair in scan order is `(v1, v2)` in row `g`, held by the cells in columns
/// `j1 < j2`, the branch finder answers exactly `[v1, v2, g, j1, g, j2]`.
pub proof fn lemma_row_pair_found(a: SudokuGrid, res: Seq<usize>, g: int, v1: int, v2: int, j1: int, j2: int)
    requires
        a.is_pair(0, g, v1, v2),
        a.no_pair_before(0, g, v1, v2),
        0 <= j1 < j2 < 9,
        a.has(g, j1, v1),
        a.has(g, j2, v1),
        a.dualism_result(res),
    ensures
        res =~= seq![v1 as usize, v2 as usize, g as usize, j1 as usize, g as usize, j2 as usize],
{
    assert(a.has_pair());
    let (k, g2) = choose|k: int, g2: int| #[trigger] a.is_branch(res, k, g2);
    let (w1, w2) = (res[0] as int, res[1] as int);
    if scan_key(k, g2, w1, w2) < scan_key(0, g, v1, v2) {
        assert(!a.is_pair(k, g2, w1, w2));
    } else if scan_key(0, g, v1, v2) < scan_key(k, g2, w1, w2) {
        assert(!a.is_pair(0, g, v1, v2));
    }
    assert(k == 0 && g2 == g && w1 == v1 && w2 == v2);
    let hosts = a.group_hosts(0, g, v1);
    assert(hosts[j1] && hosts[j2]);
    lemma_count_two(hosts, j1, j2);
    let (c1, c2) = (res[3] as int, res[5] as int);
    assert(hosts[c1] && hosts[c2]);
}

impl<'a> SudokuGrid<'a> {
    /// The value of the cell `(row, col)`, 0 while unset.
    pub fn cell_value(&self, row: usize, col: usize) -> (r: u8)
        requires
            self.counts_wf(),
            row < 9,
            col < 9,
        ensures
            r == self.value_at(row as int, col as int),
    {
        assert(self.data@[row as int]@.len() == 9);
        self.data[row][col].value
    }

    /// Whether the cell `(row, col)` still admits the value `val_loc + 1`.
    pub fn admits(&self, row: usize, col: usize, val_loc: usize) -> (r: bool)
        requires
            self.counts_wf(),
            row < 9,
            col < 9,
            val_loc < 9,
        ensures
            r == self.has(row as int, col as int, val_loc as int),
    {
        assert(self.data@[row as int]@.len() == 9);
        assert(self.cell(row as int, col as int).candidates@.len() == 9);
        self.data[row][col].candidates[val_loc]
    }

    /// How many values the cell `(row, col)` still admits.
    pub fn candidate_count(&self, row: usize, col: usize) -> (r: u8)
        requires
            self.counts_wf(),
            row < 9,
            col < 9,
        ensures
            r == count_true(self.cands(row as int, col as int)),
    {
        assert(self.data@[row as int]@.len() == 9);
        assert(0 <= self.value_at(row as int, col as int) <= 9);
        self.data[row][col].candidate_amnt
    }

    /// The counter of group `group` of kind `kind` (0 rows, 1 columns, 2 blocks) for the
    /// value `val_loc + 1`: how many cells of the group admit it.
    pub fn group_counter(&self, kind: usize, group: usize, val_loc: usize) -> (r: u8)
        requires
            self.counts_wf(),
            kind < 3,
            group < 9,
            val_loc < 9,
        ensures
            r == count_true(self.group_hosts(kind as int, group as int, val_loc as int)),
    {
        assert(self.counter(kind as int, group as int, val_loc as int) == count_true(self.group_hosts(kind as int, group as int, val_loc as int)));
        if kind == 0 {
            assert(self.row_counters@[group as int]@.len() == 9);
            self.row_counters[group][val_loc]
        } else if kind == 1 {
            assert(self.col_counters@[group as int]@.len() == 9);
            self.col_counters[group][val_loc]
        } else {
            assert(self.blk_counters@[group as int]@.len() == 9);
            self.blk_counters[group][val_loc]
        }
    }
}

/// The first `n` cells of row `i` as text: one digit each, and a space after every third.
pub open spec fn cells_text(g: SudokuGrid, i: int, n: int) -> Seq<u8>
    decreases n,
{
    if n <= 0 {
        Seq::empty()
    } else {
        cells_text(g, i, n - 1).push((48 + g.value_at(i, n - 1)) as u8) + if n % 3 == 0 {
            seq![32u8]
        } else {
            Seq::empty()
        }
    }
}

/// The text of the board: a line break, then each row on a line of its own, with an empty
/// line after every third row.
pub open spec fn board_text(g: SudokuGrid, n: int) -> Seq<u8>
    decreases n,
{
    if n <= 0 {
        seq![10u8]
    } else {
        board_text(g, n - 1) + cells_text(g, n - 1, 9).push(10u8) + if n % 3 == 0 {
            seq![10u8]
        } else {
            Seq::empty()
        }
    }
}

impl<'a> SudokuGrid<'a> {
    /// The board as text, ready to print: the bytes of `board_text`.
    pub fn render(&self) -> (r: Vec<u8>)
        requires
            self.counts_wf(),
        ensures
            r@ == board_text(*self, 9),
    {
        let mut out: Vec<u8> = Vec::new();
        out.push(10u8);
        for i in 0..9usize
            invariant
                self.counts_wf(),
                out@ == board_text(*self, i as int),
        {
            assert(self.data@[i as int]@.len() == 9);
            for j in 0..9usize
                invariant
                    self.counts_wf(),
                    i < 9,
                    out@ == board_text(*self, i as int) + cells_text(*self, i as int, j as int),
            {
                assert(0 <= self.value_at(i as int, j as int) <= 9);
                out.push(48u8 + self.data[i][j].value);
                if (j + 1) % 3 == 0 {
                    out.push(32u8);
                }
                assert(out@ =~= board_text(*self, i as int) + cells_text(*self, i as int, j + 1));
            }
            out.push(10u8);
            if (i + 1) % 3 == 0 {
                out.push(10u8);
            }
            assert(out@ =~= board_text(*self, i + 1));
        }
        out
    }
}

/// A complete, well-formed grid holds every value somewhere in every group.
proof fn lemma_value_present(sol: SudokuGrid, k: int, g: int, v: int)
    requires
        sol.wf(),
        sol.all_assigned(),
        0 <= k < 3,
        0 <= g < 9,
        0 <= v < 9,
    ensures
        exists|j: int| 0 <= j < 9 && sol.value_at(group_pos(k, g, j).0, group_pos(k, g, j).1) == v + 1,
{
    lemma_full_sums(sol);
    let t = sol.group_values(k, g);
    assert(is_permutation(t));
    lemma_permutation_onto(t, v + 1);
    let j = choose|j: int| 0 <= j < 9 && t[j] == v + 1;
    assert(sol.value_at(group_pos(k, g, j).0, group_pos(k, g, j).1) == v + 1);
}

/// When some cell of group `g` still admits `v + 1`, the cell where a reachable solution
/// holds `v + 1` is one of them.
proof fn lemma_solution_hosts(a: SudokuGrid, sol: SudokuGrid, k: int, g: int, v: int) -> (j: int)
    requires
        a.wf(),
        a.completes_to(&sol),
        0 <= k < 3,
        0 <= g < 9,
        0 <= v < 9,
        count_true(a.group_hosts(k, g, v)) > 0,
    ensures
        0 <= j < 9,
        sol.value_at(group_pos(k, g, j).0, group_pos(k, g, j).1) == v + 1,
        a.group_hosts(k, g, v)[j],
{
    lemma_value_present(sol, k, g, v);
    let j = choose|j: int| 0 <= j < 9 && sol.value_at(group_pos(k, g, j).0, group_pos(k, g, j).1) == v + 1;
    let (r, c) = group_pos(k, g, j);
    lemma_group_pos(k, g, j, 0, 0);
    assert(a.refines_cell(&sol, r, c));
    if a.value_at(r, c) != 0 {
        assert forall|i: int| 0 <= i < 9 implies !#[trigger] a.group_hosts(k, g, v)[i] by {
            let (r2, c2) = group_pos(k, g, i);
            lemma_group_pos(k, g, i, r, c);
            lemma_group_pos(k, g, i, 0, 0);
            assert(peers(r, c, r2, c2));
        }
        lemma_count_zero(a.group_hosts(k, g, v));
    }
    j
}

/// Placing, at a cell, the value a reachable solution has there keeps that solution
/// reachable.
proof fn lemma_place_keeps(a: SudokuGrid, b: SudokuGrid, row: int, col: int, v: int, sol: SudokuGrid)
    requires
        a.completes_to(&sol),
        on_board(row, col),
        0 <= v < 9,
        sol.value_at(row, col) == v + 1,
        a.place_step(&b, row, col, v),
    ensures
        b.completes_to(&sol),
{
    assert forall|r: int, c: int| on_board(r, c) implies #[trigger] b.refines_cell(&sol, r, c) by {
        assert(a.refines_cell(&sol, r, c));
        assert(sol.value_at(r, c) != 0);
        assert(0 <= sol.value_at(r, c) <= 9);
        if !(r == row && c == col) && b.value_at(r, c) == 0 {
            if peers(row, col, r, c) {
                assert(sol.value_at(r, c) != sol.value_at(row, col));
            }
        }
        assert forall|w: int| 0 <= w < 9 && #[trigger] sol.has(r, c, w) implies b.has(r, c, w) by {}
    }
}

/// Taking away a candidate that a reachable solution does not use keeps it reachable.
proof fn lemma_retract_keeps_solution(a: SudokuGrid, b: SudokuGrid, row: int, col: int, v: int, sol: SudokuGrid)
    requires
        a.completes_to(&sol),
        on_board(row, col),
        0 <= v < 9,
        sol.value_at(row, col) != v + 1,
        a.retract_step(&b, row, col, v),
    ensures
        b.completes_to(&sol),
{
    assert forall|r: int, c: int| on_board(r, c) implies #[trigger] b.refines_cell(&sol, r, c) by {
        assert(a.refines_cell(&sol, r, c));
        assert(sol.value_at(r, c) != 0);
        assert(0 <= sol.value_at(r, c) <= 9);
        assert forall|w: int| 0 <= w < 9 && #[trigger] sol.has(r, c, w) implies b.has(r, c, w) by {}
    }
}

/// Equality of states composes.
proof fn lemma_same_trans(a: SudokuGrid, b: SudokuGrid, c: SudokuGrid)
    requires
        a.same_state(&b),
        b.same_state(&c),
    ensures
        a.same_state(&c),
{
    assert forall|r: int, col: int| on_board(r, col) implies #[trigger] a.same_cell(&c, r, col) by {
        assert(a.same_cell(&b, r, col));
        assert(b.same_cell(&c, r, col));
    }
}

} // verus!
