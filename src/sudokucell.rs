use vstd::prelude::*;

verus! {

/// Number of `true` entries of `s`.
pub open spec fn count_true(s: Seq<bool>) -> nat
    decreases s.len(),
{
    if s.len() == 0 {
        0
    } else {
        count_true(s.drop_last()) + if s.last() {
            1nat
        } else {
            0nat
        }
    }
}

/// Clearing one `true` entry lowers the count by one.
pub proof fn lemma_count_clear(s: Seq<bool>, i: int)
    requires
        0 <= i < s.len(),
        s[i],
    ensures
        count_true(s.update(i, false)) + 1 == count_true(s),
    decreases s.len(),
{
    let t = s.update(i, false);
    if i == s.len() - 1 {
        assert(t.drop_last() =~= s.drop_last());
    } else {
        assert(t.drop_last() =~= s.drop_last().update(i, false));
        lemma_count_clear(s.drop_last(), i);
    }
}

/// A sequence without `true` entries counts zero, and one with a `true` entry counts more.
pub proof fn lemma_count_zero(s: Seq<bool>)
    ensures
        (count_true(s) == 0) <==> (forall|i: int| 0 <= i < s.len() ==> !#[trigger] s[i]),
    decreases s.len(),
{
    if s.len() > 0 {
        lemma_count_zero(s.drop_last());
        if count_true(s) == 0 {
            assert forall|i: int| 0 <= i < s.len() implies !#[trigger] s[i] by {
                if i < s.len() - 1 {
                    assert(s[i] == s.drop_last()[i]);
                }
            }
        }
        if forall|i: int| 0 <= i < s.len() ==> !#[trigger] s[i] {
            assert forall|i: int| 0 <= i < s.drop_last().len() implies !#[trigger] s.drop_last()[i] by {
                assert(s[i] == s.drop_last()[i]);
            }
        }
    }
}

/// Entries that only turn from `true` to `false` never raise the count, and lower it if
/// any of them turns.
pub proof fn lemma_count_shrink(a: Seq<bool>, b: Seq<bool>)
    requires
        a.len() == b.len(),
        forall|i: int| 0 <= i < a.len() ==> #[trigger] b[i] ==> a[i],
    ensures
        count_true(b) <= count_true(a),
        a != b ==> count_true(b) < count_true(a),
    decreases a.len(),
{
    if a.len() > 0 {
        lemma_count_shrink(a.drop_last(), b.drop_last());
        if a.drop_last() == b.drop_last() && a.last() == b.last() {
            assert(a =~= b) by {
                assert forall|i: int| 0 <= i < a.len() implies a[i] == b[i] by {
                    if i < a.len() - 1 {
                        assert(a[i] == a.drop_last()[i]);
                        assert(b[i] == b.drop_last()[i]);
                    }
                }
            }
        }
    } else {
        assert(a =~= b);
    }
}

/// A sequence of `true` entries only counts its length.
pub proof fn lemma_count_all(n: nat)
    ensures
        count_true(Seq::new(n, |j: int| true)) == n,
    decreases n,
{
    if n > 0 {
        assert(Seq::new(n, |j: int| true).drop_last() =~= Seq::new((n - 1) as nat, |j: int| true));
        lemma_count_all((n - 1) as nat);
    }
}

/// When exactly two entries are `true` and `i`, `j` are two of them, every other entry is
/// `false`; and one `true` entry with all others `false` counts one.
pub proof fn lemma_count_two(s: Seq<bool>, i: int, j: int)
    requires
        0 <= i < s.len(),
        0 <= j < s.len(),
        i != j,
        s[i],
        s[j],
        count_true(s) == 2,
    ensures
        forall|x: int| 0 <= x < s.len() && x != i && x != j ==> !#[trigger] s[x],
{
    let t = s.update(i, false);
    lemma_count_clear(s, i);
    lemma_count_clear(t, j);
    lemma_count_zero(t.update(j, false));
    assert forall|x: int| 0 <= x < s.len() && x != i && x != j implies !#[trigger] s[x] by {
        assert(t.update(j, false)[x] == s[x]);
    }
}

/// A sequence whose only `true` entry is at `i` counts one.
pub proof fn lemma_count_one(s: Seq<bool>, i: int)
    requires
        0 <= i < s.len(),
        s[i],
        forall|x: int| 0 <= x < s.len() && x != i ==> !#[trigger] s[x],
    ensures
        count_true(s) == 1,
{
    lemma_count_clear(s, i);
    lemma_count_zero(s.update(i, false));
}

/// One position of the board: its value (0 while unset), which values 1 to 9 it may still
/// take (`candidates[v]` stands for the value `v + 1`), how many those are, and its block.
pub struct SudokuCell {
    pub value: u8,
    pub candidates: Vec<bool>,
    pub candidate_amnt: u8,
    pub blk_id: usize,
}

impl Clone for SudokuCell {
    fn clone(&self) -> (r: SudokuCell)
        ensures
            r.value == self.value,
            r.candidates@ == self.candidates@,
            r.candidate_amnt == self.candidate_amnt,
            r.blk_id == self.blk_id,
    {
        let mut cands: Vec<bool> = Vec::new();
        let n = self.candidates.len();
        for i in 0..n
            invariant
                n == self.candidates@.len(),
                cands@ == self.candidates@.subrange(0, i as int),
        {
            cands.push(self.candidates[i]);
        }
        assert(cands@ =~= self.candidates@);
        SudokuCell {
            value: self.value,
            candidates: cands,
            candidate_amnt: self.candidate_amnt,
            blk_id: self.blk_id,
        }
    }
}

impl SudokuCell {
    /// An unset cell that admits every value, in the block at block row `row` and block
    /// column `col`.
    pub fn new(row: usize, col: usize) -> (r: SudokuCell)
        requires
            3 * row + col <= usize::MAX,
        ensures
            r.value == 0,
            r.candidates@ == Seq::new(9, |v: int| true),
            r.candidate_amnt == 9,
            r.blk_id == 3 * row + col,
    {
        let r = SudokuCell { value: 0, candidates: vec![true; 9], candidate_amnt: 9, blk_id: 3 * row + col };
        assert(r.candidates@ =~= Seq::new(9, |v: int| true));
        r
    }
}

} // verus!
