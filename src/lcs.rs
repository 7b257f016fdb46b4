//! Longest common subsequence of two sequences of lines, as a table of
//! prefix lengths.
use vstd::prelude::*;

verus! {

/// A grid of `usize` values, stored row by row.
pub struct Grid {
    num_rows: usize,
    num_cols: usize,
    elems: Vec<usize>,
}

proof fn lemma_cell_in_bounds(row: int, col: int, rows: int, cols: int)
    requires
        0 <= row < rows,
        0 <= col < cols,
    ensures
        0 <= row * cols + col < rows * cols,
{
    assert(row * cols + col < rows * cols) by (nonlinear_arith)
        requires
            0 <= row < rows,
            0 <= col < cols,
    ;
    assert(0 <= row * cols) by (nonlinear_arith)
        requires
            0 <= row,
            0 <= col < cols,
    ;
}

proof fn lemma_cells_distinct(r1: int, c1: int, r2: int, c2: int, cols: int)
    requires
        0 <= c1 < cols,
        0 <= c2 < cols,
        0 <= r1,
        0 <= r2,
        r1 != r2 || c1 != c2,
    ensures
        r1 * cols + c1 != r2 * cols + c2,
{
    if r1 == r2 {
    } else if r1 < r2 {
        assert(r1 * cols + c1 < r2 * cols + c2) by (nonlinear_arith)
            requires
                r1 < r2,
                0 <= c1 < cols,
                0 <= c2,
        ;
    } else {
        assert(r2 * cols + c2 < r1 * cols + c1) by (nonlinear_arith)
            requires
                r2 < r1,
                0 <= c2 < cols,
                0 <= c1,
        ;
    }
}

impl Grid {
    /// Number of rows.
    pub closed spec fn rows(&self) -> nat {
        self.num_rows as nat
    }

    /// Number of columns.
    pub closed spec fn cols(&self) -> nat {
        self.num_cols as nat
    }

    /// The value at `row`, `col`.
    pub closed spec fn cell(&self, row: int, col: int) -> usize {
        self.elems@[row * self.num_cols + col]
    }

    /// One stored value per cell.
    pub closed spec fn wf(&self) -> bool {
        self.elems@.len() == self.num_rows * self.num_cols
    }

    /// A grid of `num_rows` by `num_cols` zeros.
    pub fn new(num_rows: usize, num_cols: usize) -> (r: Grid)
        requires
            num_rows * num_cols <= usize::MAX,
        ensures
            r.wf(),
            r.rows() == num_rows,
            r.cols() == num_cols,
            forall|i: int, j: int| 0 <= i < num_rows && 0 <= j < num_cols ==> r.cell(i, j) == 0,
    {
        let n = num_rows * num_cols;
        let mut elems: Vec<usize> = Vec::new();
        let mut k: usize = 0;
        while k < n
            invariant
                k <= n,
                elems@.len() == k,
                forall|m: int| 0 <= m < k ==> elems@[m] == 0,
            decreases n - k,
        {
            elems.push(0);
            k = k + 1;
        }
        let r = Grid { num_rows, num_cols, elems };
        assert forall|i: int, j: int| 0 <= i < num_rows && 0 <= j < num_cols implies r.cell(i, j)
            == 0 by {
            lemma_cell_in_bounds(i, j, num_rows as int, num_cols as int);
        }
        r
    }

    /// The number of rows and of columns.
    pub fn size(&self) -> (r: (usize, usize))
        ensures
            r == (self.rows() as usize, self.cols() as usize),
    {
        (self.num_rows, self.num_cols)
    }

    /// The value at `row`, `col`; `None` outside the grid.
    pub fn get(&self, row: usize, col: usize) -> (r: Option<usize>)
        requires
            self.wf(),
        ensures
            row < self.rows() && col < self.cols() ==> r == Some(self.cell(row as int, col as int)),
            !(row < self.rows() && col < self.cols()) ==> r is None,
    {
        if row < self.num_rows && col < self.num_cols {
            let len = self.elems.len();
            proof {
                lemma_cell_in_bounds(row as int, col as int, self.num_rows as int, self.num_cols as int);
                assert(row * self.num_cols <= row * self.num_cols + col);
            }
            Some(self.elems[row * self.num_cols + col])
        } else {
            None
        }
    }

    /// Stores `val` at `row`, `col`; an error outside the grid.
    pub fn set(&mut self, row: usize, col: usize, val: usize) -> (r: Result<(), &'static str>)
        requires
            old(self).wf(),
        ensures
            final(self).wf(),
            final(self).rows() == old(self).rows(),
            final(self).cols() == old(self).cols(),
            r is Ok == (row < old(self).rows() && col < old(self).cols()),
            r is Ok ==> final(self).cell(row as int, col as int) == val,
            forall|i: int, j: int|
                0 <= i < old(self).rows() && 0 <= j < old(self).cols() && (i != row || j != col)
                    ==> final(self).cell(i, j) == old(self).cell(i, j),
    {
        if row < self.num_rows && col < self.num_cols {
            let len = self.elems.len();
            proof {
                lemma_cell_in_bounds(row as int, col as int, self.num_rows as int, self.num_cols as int);
                assert(row * self.num_cols <= row * self.num_cols + col);
            }
            self.elems.set(row * self.num_cols + col, val);
            assert forall|i: int, j: int|
                0 <= i < old(self).rows() && 0 <= j < old(self).cols() && (i != row || j != col)
                    implies self.cell(i, j) == old(self).cell(i, j) by {
                lemma_cells_distinct(i, j, row as int, col as int, self.num_cols as int);
                lemma_cell_in_bounds(i, j, self.num_rows as int, self.num_cols as int);
            }
            Ok(())
        } else {
            Err("Index out of bounds")
        }
    }
}

/// Length of the longest common subsequence of the first `i` lines of `a`
/// and the first `j` lines of `b`.
pub open spec fn lcs_len(a: Seq<Seq<char>>, b: Seq<Seq<char>>, i: nat, j: nat) -> nat
    decreases i + j,
{
    if i == 0 || j == 0 {
        0
    } else if a[i - 1] == b[j - 1] {
        lcs_len(a, b, (i - 1) as nat, (j - 1) as nat) + 1
    } else {
        let l = lcs_len(a, b, i, (j - 1) as nat);
        let u = lcs_len(a, b, (i - 1) as nat, j);
        if l >= u {
            l
        } else {
            u
        }
    }
}

/// The lines of `v`, each as its characters.
pub open spec fn lines_of(v: Seq<String>) -> Seq<Seq<char>> {
    v.map_values(|s: String| s@)
}

proof fn lemma_lcs_len_bound(a: Seq<Seq<char>>, b: Seq<Seq<char>>, i: nat, j: nat)
    ensures
        lcs_len(a, b, i, j) <= i,
    decreases i + j,
{
    if i == 0 || j == 0 {
    } else if a[i - 1] == b[j - 1] {
        lemma_lcs_len_bound(a, b, (i - 1) as nat, (j - 1) as nat);
    } else {
        lemma_lcs_len_bound(a, b, i, (j - 1) as nat);
        lemma_lcs_len_bound(a, b, (i - 1) as nat, j);
    }
}

/// The table of longest-common-subsequence lengths of `seq1` and `seq2`: the
/// cell at `i`, `j` holds the length for the first `i` lines of `seq1` and
/// the first `j` lines of `seq2`.
pub fn lcs(seq1: &Vec<String>, seq2: &Vec<String>) -> (r: Grid)
    requires
        (seq1@.len() + 1) * (seq2@.len() + 1) <= usize::MAX,
    ensures
        r.wf(),
        r.rows() == seq1@.len() + 1,
        r.cols() == seq2@.len() + 1,
        forall|i: int, j: int|
            0 <= i <= seq1@.len() && 0 <= j <= seq2@.len() ==> r.cell(i, j) == lcs_len(
                lines_of(seq1@),
                lines_of(seq2@),
                i as nat,
                j as nat,
            ),
{
    let ghost a = lines_of(seq1@);
    let ghost b = lines_of(seq2@);
    let m = seq1.len();
    let n = seq2.len();
    assert(m + 1 <= usize::MAX && n + 1 <= usize::MAX) by (nonlinear_arith)
        requires
            (m + 1) * (n + 1) <= usize::MAX,
    ;
    let mut table = Grid::new(m + 1, n + 1);
    let mut i: usize = 0;
    while i <= m
        invariant
            table.wf(),
            table.rows() == m + 1,
            table.cols() == n + 1,
            m + 1 <= usize::MAX,
            i <= m + 1,
            forall|r: int, c: int| 0 <= r <= m && 0 <= c <= n ==> table.cell(r, c) == 0,
        decreases m + 1 - i,
    {
        let _ = table.set(i, 0, 0);
        i = i + 1;
    }
    let mut j: usize = 0;
    while j <= n
        invariant
            table.wf(),
            table.rows() == m + 1,
            table.cols() == n + 1,
            n + 1 <= usize::MAX,
            j <= n + 1,
            forall|r: int, c: int| 0 <= r <= m && 0 <= c <= n ==> table.cell(r, c) == 0,
        decreases n + 1 - j,
    {
        let _ = table.set(0, j, 0);
        j = j + 1;
    }
    let mut i: usize = 0;
    while i < m
        invariant
            table.wf(),
            table.rows() == m + 1,
            table.cols() == n + 1,
            a == lines_of(seq1@),
            b == lines_of(seq2@),
            m == seq1@.len(),
            n == seq2@.len(),
            m + 1 <= usize::MAX,
            i <= m,
            forall|r: int, c: int|
                0 <= r <= i && 0 <= c <= n ==> table.cell(r, c) == lcs_len(a, b, r as nat, c as nat),
            forall|c: int| 0 <= c <= n ==> table.cell(0, c) == 0,
            forall|r: int| 0 <= r <= m ==> table.cell(r, 0) == 0,
        decreases m - i,
    {
        let mut j: usize = 0;
        while j < n
            invariant
                table.wf(),
                table.rows() == m + 1,
                table.cols() == n + 1,
                a == lines_of(seq1@),
                b == lines_of(seq2@),
                m == seq1@.len(),
                n == seq2@.len(),
                m + 1 <= usize::MAX,
                i < m,
                j <= n,
                forall|r: int, c: int|
                    0 <= r <= i && 0 <= c <= n ==> table.cell(r, c) == lcs_len(a, b, r as nat, c as nat),
                forall|c: int|
                    0 <= c <= j ==> #[trigger] table.cell(i + 1, c) == lcs_len(a, b, (i + 1) as nat, c as nat),
                forall|r: int| 0 <= r <= m ==> table.cell(r, 0) == 0,
            decreases n - j,
        {
            proof {
                lemma_lcs_len_bound(a, b, i as nat, j as nat);
                lemma_lcs_len_bound(a, b, (i + 1) as nat, j as nat);
                lemma_lcs_len_bound(a, b, i as nat, (j + 1) as nat);
                assert(a[i as int] == seq1@[i as int]@);
                assert(b[j as int] == seq2@[j as int]@);
            }
            let v = if seq1[i] == seq2[j] {
                table.get(i, j).unwrap() + 1
            } else {
                let left = table.get(i + 1, j).unwrap();
                let up = table.get(i, j + 1).unwrap();
                if left >= up {
                    left
                } else {
                    up
                }
            };
            let _ = table.set(i + 1, j + 1, v);
            j = j + 1;
        }
        i = i + 1;
    }
    table
}

} // verus!
