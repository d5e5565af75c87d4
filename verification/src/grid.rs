//! A rectangular grid of numbers, and the longest-common-subsequence table
//! computed over it.

use vstd::prelude::*;

verus! {

/// A `num_rows` by `num_cols` grid stored in row-major order.
pub struct Grid {
    pub num_rows: usize,
    pub num_cols: usize,
    pub elems: Vec<usize>,
}

impl Grid {
    pub open spec fn wf(&self) -> bool {
        self.elems@.len() == self.num_rows * self.num_cols
    }

    pub open spec fn spec_rows(&self) -> usize {
        self.num_rows
    }

    pub open spec fn spec_cols(&self) -> usize {
        self.num_cols
    }

    /// The element at `(row, col)`; meaningful for in-bounds positions.
    pub open spec fn spec_at(&self, row: int, col: int) -> usize {
        self.elems@[row * self.num_cols + col]
    }

    /// A fresh grid of zeroes.
    pub fn new(num_rows: usize, num_cols: usize) -> (g: Grid)
        requires
            num_rows * num_cols <= usize::MAX,
        ensures
            g.wf(),
            g.spec_rows() == num_rows,
            g.spec_cols() == num_cols,
            forall|i: int| 0 <= i < g.elems@.len() ==> g.elems@[i] == 0,
    {
        proof {
            assert(num_rows * num_cols >= 0) by (nonlinear_arith);
        }
        let n: usize = num_rows * num_cols;
        let mut elems: Vec<usize> = Vec::new();
        let mut i: usize = 0;
        while i < n
            invariant
                0 <= i <= n,
                elems@.len() == i,
                forall|j: int| 0 <= j < i ==> elems@[j] == 0,
            decreases n - i,
        {
            elems.push(0);
            i += 1;
        }
        Grid { num_rows, num_cols, elems }
    }

    pub fn size(&self) -> (r: (usize, usize))
        ensures
            r == (self.spec_rows(), self.spec_cols()),
    {
        (self.num_rows, self.num_cols)
    }

    /// `Some` exactly on in-bounds positions.
    pub fn get(&self, row: usize, col: usize) -> (r: Option<usize>)
        requires
            self.wf(),
        ensures
            (row < self.spec_rows() && col < self.spec_cols()) ==> r == Some(
                self.spec_at(row as int, col as int),
            ),
            !(row < self.spec_rows() && col < self.spec_cols()) ==> r is None,
    {
        if row < self.num_rows && col < self.num_cols {
            let n = self.elems.len();
            proof {
                lemma_grid_index(self.num_rows as int, self.num_cols as int, row as int, col as int);
            }
            Some(self.elems[row * self.num_cols + col])
        } else {
            None
        }
    }

    /// Store `value` at `(row, col)`; errs (and changes nothing) out of bounds.
    pub fn set(&mut self, row: usize, col: usize, value: usize) -> (r: Result<
        (),
        &'static str,
    >)
        requires
            old(self).wf(),
        ensures
            final(self).wf(),
            final(self).spec_rows() == old(self).spec_rows(),
            final(self).spec_cols() == old(self).spec_cols(),
            (row < old(self).spec_rows() && col < old(self).spec_cols()) ==> (r is Ok
                && final(self).elems@ == old(self).elems@.update(
                row as int * old(self).spec_cols() + col as int,
                value,
            )),
            !(row < old(self).spec_rows() && col < old(self).spec_cols()) ==> (r matches Err(m)
                && m@ == "Grid::set : Out of Bound!"@ && final(self).elems@ == old(self).elems@),
    {
        if row < self.num_rows && col < self.num_cols {
            let n = self.elems.len();
            proof {
                lemma_grid_index(self.num_rows as int, self.num_cols as int, row as int, col as int);
            }
            let idx: usize = row * self.num_cols + col;
            self.elems.set(idx, value);
            Ok(())
        } else {
            Err("Grid::set : Out of Bound!")
        }
    }

    /// Reset every element to zero.
    pub fn clear(&mut self)
        requires
            old(self).wf(),
        ensures
            final(self).wf(),
            final(self).spec_rows() == old(self).spec_rows(),
            final(self).spec_cols() == old(self).spec_cols(),
            final(self).elems@.len() == old(self).elems@.len(),
            forall|i: int| 0 <= i < final(self).elems@.len() ==> final(self).elems@[i] == 0,
    {
        let n = self.elems.len();
        let mut i: usize = 0;
        while i < n
            invariant
                0 <= i <= n,
                self.elems@.len() == n,
                self.num_rows == old(self).num_rows,
                self.num_cols == old(self).num_cols,
                n == old(self).elems@.len(),
                forall|j: int| 0 <= j < i ==> self.elems@[j] == 0,
            decreases n - i,
    {
            self.elems.set(i, 0);
            i += 1;
        }
    }
}

/// In-bounds positions map to in-bounds flat indices.
proof fn lemma_grid_index(rows: int, cols: int, row: int, col: int)
    requires
        0 <= row < rows,
        0 <= col < cols,
    ensures
        0 <= row * cols + col < rows * cols,
{
    assert(row * cols + col < rows * cols) by (nonlinear_arith)
        requires
            0 <= row < rows,
            0 <= col < cols,
    ;
    assert(0 <= row * cols) by (nonlinear_arith)
        requires
            0 <= row,
            0 <= col < cols,
    ;
}

/// Length of the longest common subsequence of the first `i` lines of `a`
/// and the first `j` lines of `b`.
pub open spec fn lcs_len(a: Seq<Seq<char>>, b: Seq<Seq<char>>, i: int, j: int) -> nat
    decreases i + j,
{
    if i <= 0 || j <= 0 {
        0
    } else if a[i - 1] == b[j - 1] {
        1 + lcs_len(a, b, i - 1, j - 1)
    } else {
        let left = lcs_len(a, b, i, j - 1);
        let up = lcs_len(a, b, i - 1, j);
        if left >= up {
            left
        } else {
            up
        }
    }
}

/// A common subsequence is never longer than either input prefix.
proof fn lemma_lcs_len_bound(a: Seq<Seq<char>>, b: Seq<Seq<char>>, i: int, j: int)
    requires
        i >= 0,
        j >= 0,
    ensures
        lcs_len(a, b, i, j) <= i,
        lcs_len(a, b, i, j) <= j,
    decreases i + j,
{
    if i > 0 && j > 0 {
        lemma_lcs_len_bound(a, b, i - 1, j - 1);
        lemma_lcs_len_bound(a, b, i, j - 1);
        lemma_lcs_len_bound(a, b, i - 1, j);
    }
}

/// Fill the dynamic-programming table for the longest common subsequence of
/// two line sequences: cell `(i, j)` holds the subsequence length for the
/// first `i` lines of `seq1` against the first `j` lines of `seq2`.
pub fn lcs(seq1: &Vec<String>, seq2: &Vec<String>) -> (g: Grid)
    requires
        seq1@.len() < usize::MAX,
        seq2@.len() < usize::MAX,
        (seq1@.len() + 1) * (seq2@.len() + 1) <= usize::MAX,
    ensures
        g.wf(),
        g.spec_rows() == seq1@.len() + 1,
        g.spec_cols() == seq2@.len() + 1,
        forall|i: int, j: int|
            0 <= i <= seq1@.len() && 0 <= j <= seq2@.len() ==> g.spec_at(i, j) == lcs_len(
                seq1@.map_values(|s: String| s@),
                seq2@.map_values(|s: String| s@),
                i,
                j,
            ),
{
    let ghost a = seq1@.map_values(|s: String| s@);
    let ghost b = seq2@.map_values(|s: String| s@);
    let rows = seq1.len() + 1;
    let cols = seq2.len() + 1;
    let mut grid = Grid::new(rows, cols);
    proof {
        assert forall|r: int, c: int|
            0 <= r <= seq1@.len() && 0 <= c <= seq2@.len() implies #[trigger] grid.spec_at(r, c)
            == 0 by {
            lemma_grid_index(rows as int, cols as int, r, c);
        }
    }
    let mut i: usize = 0;
    // The zero row and column stand for empty prefixes; a fresh grid is
    // already all zeroes, which matches `lcs_len` there.
    while i < seq1.len()
        invariant
            0 <= i <= seq1@.len(),
            grid.wf(),
            grid.spec_rows() == seq1@.len() + 1,
            grid.spec_cols() == seq2@.len() + 1,
            a == seq1@.map_values(|s: String| s@),
            b == seq2@.map_values(|s: String| s@),
            forall|r: int, c: int|
                0 <= r <= i && 0 <= c <= seq2@.len() ==> #[trigger] grid.spec_at(r, c) == lcs_len(
                    a,
                    b,
                    r,
                    c,
                ),
            forall|r: int, c: int|
                i < r <= seq1@.len() && 0 <= c <= seq2@.len() ==> #[trigger] grid.spec_at(r, c)
                    == 0,
        decreases seq1@.len() - i,
    {
        let mut j: usize = 0;
        while j < seq2.len()
            invariant
                0 <= i < seq1@.len(),
                0 <= j <= seq2@.len(),
                grid.wf(),
                grid.spec_rows() == seq1@.len() + 1,
                grid.spec_cols() == seq2@.len() + 1,
                a == seq1@.map_values(|s: String| s@),
                b == seq2@.map_values(|s: String| s@),
                forall|r: int, c: int|
                    0 <= r <= i && 0 <= c <= seq2@.len() ==> #[trigger] grid.spec_at(r, c)
                        == lcs_len(a, b, r, c),
                forall|r: int, c: int|
                    r == i + 1 && 0 <= c <= j ==> #[trigger] grid.spec_at(r, c) == lcs_len(
                        a,
                        b,
                        r,
                        c,
                    ),
                forall|r: int, c: int|
                    r == i + 1 && j < c <= seq2@.len() ==> #[trigger] grid.spec_at(r, c) == 0,
                forall|r: int, c: int|
                    i + 1 < r <= seq1@.len() && 0 <= c <= seq2@.len() ==> #[trigger] grid.spec_at(
                        r,
                        c,
                    ) == 0,
            decreases seq2@.len() - j,
        {
            proof {
                lemma_lcs_len_bound(a, b, i as int, j as int);
                lemma_lcs_len_bound(a, b, i + 1, j as int);
                lemma_lcs_len_bound(a, b, i as int, j + 1);
                assert(a[i as int] == seq1@[i as int]@);
                assert(b[j as int] == seq2@[j as int]@);
            }
            let v: usize = if string_eq(&seq1[i], &seq2[j]) {
                let d = grid.get(i, j).unwrap();
                d + 1
            } else {
                let left = grid.get(i + 1, j).unwrap();
                let up = grid.get(i, j + 1).unwrap();
                if left >= up {
                    left
                } else {
                    up
                }
            };
            let ghost old_grid = grid;
            let res = grid.set(i + 1, j + 1, v);
            proof {
                assert(res is Ok);
                lemma_grid_index(
                    seq1@.len() as int + 1,
                    seq2@.len() as int + 1,
                    i as int + 1,
                    j as int + 1,
                );
                assert(grid.spec_at(i + 1, j + 1) == v);
                assert(v == lcs_len(a, b, i + 1, j + 1));
                assert forall|r: int, c: int|
                    0 <= r <= seq1@.len() && 0 <= c <= seq2@.len() && !(r == i + 1 && c == j + 1)
                        implies #[trigger] grid.spec_at(r, c) == old_grid.spec_at(r, c) by {
                    lemma_grid_index(seq1@.len() as int + 1, seq2@.len() as int + 1, r, c);
                    lemma_grid_flat_distinct(
                        seq1@.len() as int + 1,
                        seq2@.len() as int + 1,
                        r,
                        c,
                        i + 1,
                        j + 1,
                    );
                }
            }
            j += 1;
        }
        i += 1;
    }
    grid
}

/// Distinct in-bounds positions have distinct flat indices.
proof fn lemma_grid_flat_distinct(rows: int, cols: int, r1: int, c1: int, r2: int, c2: int)
    requires
        0 <= r1 < rows,
        0 <= c1 < cols,
        0 <= r2 < rows,
        0 <= c2 < cols,
        !(r1 == r2 && c1 == c2),
    ensures
        r1 * cols + c1 != r2 * cols + c2,
{
    assert(r1 * cols + c1 != r2 * cols + c2) by (nonlinear_arith)
        requires
            0 <= r1 < rows,
            0 <= c1 < cols,
            0 <= r2 < rows,
            0 <= c2 < cols,
            !(r1 == r2 && c1 == c2),
    ;
}

/// String equality, as the contracts see it.
fn string_eq(a: &String, b: &String) -> (r: bool)
    ensures
        r == (a@ == b@),
{
    a.eq(b)
}

} // verus!
