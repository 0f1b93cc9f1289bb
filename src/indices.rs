use vstd::prelude::*;

verus! {

/// Position of the `j`-th cell of group `g` of kind `k`
/// (kind 0: rows, kind 1: columns, kind 2: 3x3 blocks).
pub open spec fn group_pos(k: int, g: int, j: int) -> (int, int) {
    if k == 0 {
        (g, j)
    } else if k == 1 {
        (j, g)
    } else {
        (3 * (g / 3) + j / 3, 3 * (g % 3) + j % 3)
    }
}

/// Index of the group of kind `k` that holds the cell `(r, c)`.
pub open spec fn group_of(k: int, r: int, c: int) -> int {
    if k == 0 {
        r
    } else if k == 1 {
        c
    } else {
        3 * (r / 3) + c / 3
    }
}

/// Place of the cell `(r, c)` inside its group of kind `k`.
pub open spec fn index_in(k: int, r: int, c: int) -> int {
    if k == 0 {
        c
    } else if k == 1 {
        r
    } else {
        3 * (r % 3) + c % 3
    }
}

/// The block that holds the cell `(r, c)`.
pub open spec fn block_of(r: int, c: int) -> int {
    group_of(2, r, c)
}

/// The cells share a row, a column or a block.
pub open spec fn peers(r1: int, c1: int, r2: int, c2: int) -> bool {
    r1 == r2 || c1 == c2 || block_of(r1, c1) == block_of(r2, c2)
}

/// A cell lies at position `j` of group `g` of kind `k` exactly when `g` and `j` are
/// the group and place that `group_of` and `index_in` give for it.
pub proof fn lemma_group_pos(k: int, g: int, j: int, r: int, c: int)
    requires
        0 <= k < 3,
        0 <= g < 9,
        0 <= j < 9,
        0 <= r < 9,
        0 <= c < 9,
    ensures
        0 <= group_pos(k, g, j).0 < 9,
        0 <= group_pos(k, g, j).1 < 9,
        0 <= group_of(k, r, c) < 9,
        0 <= index_in(k, r, c) < 9,
        group_pos(k, group_of(k, r, c), index_in(k, r, c)) == (r, c),
        group_of(k, group_pos(k, g, j).0, group_pos(k, g, j).1) == g,
        index_in(k, group_pos(k, g, j).0, group_pos(k, g, j).1) == j,
        (group_pos(k, g, j) == (r, c)) <==> (g == group_of(k, r, c) && j == index_in(k, r, c)),
{
}

/// The cells of every row, column and block, listed once and shared by all grids.
pub struct Indices {
    pub rows: Vec<Vec<(usize, usize)>>,
    pub cols: Vec<Vec<(usize, usize)>>,
    pub blks: Vec<Vec<(usize, usize)>>,
}

impl Indices {
    pub open spec fn table(&self, k: int) -> Seq<Vec<(usize, usize)>> {
        if k == 0 {
            self.rows@
        } else if k == 1 {
            self.cols@
        } else {
            self.blks@
        }
    }

    pub open spec fn entry(&self, k: int, g: int, j: int) -> (usize, usize) {
        self.table(k)[g]@[j]
    }

    /// Every table has nine groups of nine cells, placed as `group_pos` says.
    pub open spec fn wf(&self) -> bool {
        &&& self.rows@.len() == 9
        &&& self.cols@.len() == 9
        &&& self.blks@.len() == 9
        &&& forall|k: int, g: int|
            0 <= k < 3 && 0 <= g < 9 ==> (#[trigger] self.table(k)[g])@.len() == 9
        &&& forall|k: int, g: int, j: int|
            0 <= k < 3 && 0 <= g < 9 && 0 <= j < 9 ==> {
                let e = #[trigger] self.entry(k, g, j);
                (e.0 as int, e.1 as int) == group_pos(k, g, j)
            }
    }

    pub fn new() -> (r: Indices)
        ensures
            r.wf(),
    {
        let mut row_pos: Vec<Vec<(usize, usize)>> = Vec::new();
        let mut col_pos: Vec<Vec<(usize, usize)>> = Vec::new();
        let mut blk_pos: Vec<Vec<(usize, usize)>> = Vec::new();
        for i in 0..9usize
            invariant
                row_pos@.len() == i,
                col_pos@.len() == i,
                blk_pos@.len() == i,
                forall|g: int| 0 <= g < i ==> (#[trigger] row_pos@[g])@.len() == 9,
                forall|g: int| 0 <= g < i ==> (#[trigger] col_pos@[g])@.len() == 9,
                forall|g: int| 0 <= g < i ==> (#[trigger] blk_pos@[g])@.len() == 9,
                forall|g: int, j: int|
                    0 <= g < i && 0 <= j < 9 ==> {
                        let e = #[trigger] row_pos@[g]@[j];
                        (e.0 as int, e.1 as int) == group_pos(0, g, j)
                    },
                forall|g: int, j: int|
                    0 <= g < i && 0 <= j < 9 ==> {
                        let e = #[trigger] col_pos@[g]@[j];
                        (e.0 as int, e.1 as int) == group_pos(1, g, j)
                    },
                forall|g: int, j: int|
                    0 <= g < i && 0 <= j < 9 ==> {
                        let e = #[trigger] blk_pos@[g]@[j];
                        (e.0 as int, e.1 as int) == group_pos(2, g, j)
                    },
        {
            let mut row_sub: Vec<(usize, usize)> = Vec::new();
            let mut col_sub: Vec<(usize, usize)> = Vec::new();
            let mut blk_sub: Vec<(usize, usize)> = Vec::new();
            for j in 0..9usize
                invariant
                    i < 9,
                    row_sub@.len() == j,
                    col_sub@.len() == j,
                    blk_sub@.len() == j,
                    forall|t: int|
                        0 <= t < j ==> {
                            let e = #[trigger] row_sub@[t];
                            (e.0 as int, e.1 as int) == group_pos(0, i as int, t)
                        },
                    forall|t: int|
                        0 <= t < j ==> {
                            let e = #[trigger] col_sub@[t];
                            (e.0 as int, e.1 as int) == group_pos(1, i as int, t)
                        },
                    forall|t: int|
                        0 <= t < j ==> {
                            let e = #[trigger] blk_sub@[t];
                            (e.0 as int, e.1 as int) == group_pos(2, i as int, t)
                        },
            {
                row_sub.push((i, j));
                col_sub.push((j, i));
                let blk_row: usize = 3 * (i / 3);
                let blk_col: usize = 3 * (i % 3);
                blk_sub.push((blk_row + j / 3, blk_col + j % 3));
            }
            row_pos.push(row_sub);
            col_pos.push(col_sub);
            blk_pos.push(blk_sub);
        }
        let r = Indices { rows: row_pos, cols: col_pos, blks: blk_pos };
        assert forall|k: int, g: int| 0 <= k < 3 && 0 <= g < 9 implies (#[trigger] r.table(k)[g])@.len() == 9 by {}
        r
    }
}

} // verus!
