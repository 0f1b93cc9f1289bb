use vstd::prelude::*;

use crate::sudokugrid::{SudokuGrid, lemma_branch_cells, lemma_full_sums, lemma_refines_trans, lemma_same_forced, lemma_same_refl, lemma_same_state};

verus! {

/// What `sudoku_loop` leaves behind: a well-formed grid reached from `a` by propagation
/// and guesses among candidates, which passes the full completeness check when the search
/// reports success, and on failure is a grid where propagation is stuck short of the end.
pub open spec fn solve_outcome(a: SudokuGrid, b: SudokuGrid, r: bool) -> bool {
    &&& b.wf()
    &&& a.refines(&b)
    &&& r ==> b.complete_spec(true)
    &&& !r ==> !b.all_assigned() && !b.has_forced_move()
}

/// A grid that no complete, well-formed grid refines is reported unsolvable: the search
/// answers `false` on it, whatever its depth budget.
pub proof fn lemma_unsolvable_fails(a: SudokuGrid, b: SudokuGrid, r: bool)
    requires
        solve_outcome(a, b, r),
        forall|s: SudokuGrid| s.wf() && s.complete_spec(true) ==> !#[trigger] a.refines(&s),
    ensures
        !r,
{
    if r {
        assert(a.refines(&b));
    }
}

/// Solves `sudoku` by propagation, and when propagation stalls, by trying both orders of
/// the first pair that `dualism` finds, up to `depth` nested guesses. Returns whether the
/// grid was completed; on success `sudoku` holds the completed grid.
pub fn sudoku_loop(sudoku: &mut SudokuGrid, depth: usize) -> (r: bool)
    requires
        old(sudoku).wf(),
    ensures
        solve_outcome(*old(sudoku), *final(sudoku), r),
        old(sudoku).all_assigned() ==> r && old(sudoku).same_state(final(sudoku)),
    decreases depth,
{
    let ghost a = *sudoku;
    proof {
        lemma_same_refl(a);
    }
    let mut failed = false;
    while !sudoku.is_complete(false)
        invariant_except_break
            !failed,
        invariant
            a.wf(),
            sudoku.wf(),
            a.refines(sudoku),
            a.all_assigned() ==> a.same_state(sudoku),
            failed ==> !a.all_assigned(),
            failed ==> !sudoku.all_assigned() && !sudoku.has_forced_move(),
        ensures
            !failed ==> sudoku.all_assigned(),
        decreases sudoku.measure(),
    {
        let ghost before = *sudoku;
        proof {
            if a.all_assigned() {
                assert forall|r: int, c: int| 0 <= r < 9 && 0 <= c < 9 implies #[trigger] sudoku.value_at(r, c) != 0 by {
                    assert(a.same_cell(sudoku, r, c));
                    assert(a.value_at(r, c) != 0);
                }
            }
        }
        if !sudoku.update() {
            proof {
                lemma_same_state(before, *sudoku);
                lemma_refines_trans(a, before, *sudoku);
                lemma_same_forced(before, *sudoku);
                assert(!before.all_assigned());
                assert(!sudoku.all_assigned()) by {
                    if sudoku.all_assigned() {
                        assert forall|r: int, c: int| 0 <= r < 9 && 0 <= c < 9 implies #[trigger] before.value_at(r, c) != 0 by {
                            assert(before.same_cell(sudoku, r, c));
                            assert(sudoku.value_at(r, c) != 0);
                        }
                    }
                }
            }
            if depth < 1 {
                failed = true;
                break;
            }
            let dual = sudoku.dualism();
            if dual.len() != 6 {
                failed = true;
                break;
            }
            proof {
                let (k, g) = choose|k: int, g: int| #[trigger] sudoku.is_branch(dual@, k, g);
                lemma_branch_cells(*sudoku, dual@, k, g);
            }
            let mut probe_sudoku1 = sudoku.clone();
            proof {
                lemma_same_state(probe_sudoku1, *sudoku);
                lemma_same_state(*sudoku, probe_sudoku1);
                assert(sudoku.same_cell(&probe_sudoku1, dual@[2] as int, dual@[3] as int));
                assert(sudoku.same_cell(&probe_sudoku1, dual@[4] as int, dual@[5] as int));
            }
            let ghost first0 = probe_sudoku1;
            probe_sudoku1.set_cell(dual[2], dual[3], dual[0] as u8 + 1);
            let ghost first1 = probe_sudoku1;
            assert(first1.has(dual@[4] as int, dual@[5] as int, dual@[1] as int));
            probe_sudoku1.set_cell(dual[4], dual[5], dual[1] as u8 + 1);
            let ghost first2 = probe_sudoku1;
            proof {
                lemma_refines_trans(*sudoku, first0, first1);
                lemma_refines_trans(*sudoku, first1, first2);
            }
            if sudoku_loop(&mut probe_sudoku1, depth - 1) {
                proof {
                    lemma_refines_trans(*sudoku, first2, probe_sudoku1);
                    lemma_refines_trans(a, *sudoku, probe_sudoku1);
                }
                *sudoku = probe_sudoku1;
            } else {
                let mut probe_sudoku2 = sudoku.clone();
                proof {
                    lemma_same_state(probe_sudoku2, *sudoku);
                    lemma_same_state(*sudoku, probe_sudoku2);
                    assert(sudoku.same_cell(&probe_sudoku2, dual@[2] as int, dual@[3] as int));
                    assert(sudoku.same_cell(&probe_sudoku2, dual@[4] as int, dual@[5] as int));
                }
                let ghost second0 = probe_sudoku2;
                probe_sudoku2.set_cell(dual[2], dual[3], dual[1] as u8 + 1);
                let ghost second1 = probe_sudoku2;
                assert(second1.has(dual@[4] as int, dual@[5] as int, dual@[0] as int));
                probe_sudoku2.set_cell(dual[4], dual[5], dual[0] as u8 + 1);
                let ghost second2 = probe_sudoku2;
                proof {
                    lemma_refines_trans(*sudoku, second0, second1);
                    lemma_refines_trans(*sudoku, second1, second2);
                }
                if sudoku_loop(&mut probe_sudoku2, depth - 1) {
                    proof {
                        lemma_refines_trans(*sudoku, second2, probe_sudoku2);
                        lemma_refines_trans(a, *sudoku, probe_sudoku2);
                    }
                    *sudoku = probe_sudoku2;
                } else {
                    failed = true;
                    break;
                }
            }
            break;
        }
        proof {
            lemma_refines_trans(a, before, *sudoku);
        }
    }
    proof {
        if a.all_assigned() {
            assert forall|r: int, c: int| 0 <= r < 9 && 0 <= c < 9 implies #[trigger] sudoku.value_at(r, c) != 0 by {
                assert(a.same_cell(sudoku, r, c));
                assert(a.value_at(r, c) != 0);
            }
        }
        if sudoku.all_assigned() {
            lemma_full_sums(*sudoku);
        }
    }
    if failed {
        return false;
    }
    if !sudoku.is_complete(true) {
        return false;
    }
    true
}

} // verus!
