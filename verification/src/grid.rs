//! The board: a fixed-size rectangular grid of string-valued tiles with
//! 8-directional (Moore) adjacency.

use vstd::arithmetic::div_mod::lemma_fundamental_div_mod;
use vstd::arithmetic::div_mod::lemma_fundamental_div_mod_converse;
use vstd::arithmetic::div_mod::lemma_mod_division_less_than_divisor;
use vstd::prelude::*;
use vstd::std_specs::vec::spec_vec_len;

verus! {

/// Row-major flattening of a (row, column) pair.
pub fn rc_index(row: usize, col: usize, cols: usize) -> (r: usize)
    requires
        row * cols + col <= usize::MAX,
    ensures
        r == row * cols + col,
{
    row * cols + col
}

/// Inverse of `rc_index`: the (row, column) pair of a flat index.
pub fn index_rc(index: usize, cols: usize) -> (r: (usize, usize))
    requires
        cols > 0,
    ensures
        r.0 == index as int / cols as int,
        r.1 == index as int % cols as int,
{
    (index / cols, index % cols)
}

/// The one recoverable error: at construction, the tile list's length does
/// not equal `rows * cols`.
#[derive(Clone, Copy, Debug, PartialEq, Eq, Structural)]
pub struct DimensionMismatch;

/// The offset row of the `k`-th entry of the fixed neighbor visiting order
/// `(-1,-1), (-1,0), (-1,1), (0,-1), (0,1), (1,-1), (1,0), (1,1)`.
pub open spec fn delta_row(k: int) -> int {
    if k <= 2 {
        -1
    } else if k <= 4 {
        0
    } else {
        1
    }
}

/// The offset column of the `k`-th entry of the fixed neighbor visiting order.
pub open spec fn delta_col(k: int) -> int {
    if k == 0 || k == 3 || k == 5 {
        -1
    } else if k == 1 || k == 6 {
        0
    } else {
        1
    }
}

/// A `rows x cols` board of tiles, stored row-major as a flat list of length
/// `rows * cols`.  Immutable after construction.
pub struct Board {
    pub(crate) rows: usize,
    pub(crate) cols: usize,
    pub(crate) cubes: Vec<String>,
}

impl Board {
    /// The number of rows.
    pub closed spec fn spec_rows(&self) -> int {
        self.rows as int
    }

    /// The number of columns.
    pub closed spec fn spec_cols(&self) -> int {
        self.cols as int
    }

    /// The number of cells.
    pub open spec fn size(&self) -> int {
        self.spec_rows() * self.spec_cols()
    }

    /// The tile strings, in row-major order.
    pub closed spec fn tiles(&self) -> Seq<Seq<char>> {
        self.cubes@.map_values(|s: String| s@)
    }

    /// The tile string at flat index `i`.
    pub open spec fn tile(&self, i: int) -> Seq<char> {
        self.tiles()[i]
    }

    /// The construction invariant: one tile per cell.
    pub closed spec fn wf(&self) -> bool {
        self.cubes@.len() == self.size()
    }

    /// The row of flat index `i`.
    pub closed spec fn row_of(&self, i: int) -> int {
        i / (self.cols as int)
    }

    /// The column of flat index `i`.
    pub closed spec fn col_of(&self, i: int) -> int {
        i % (self.cols as int)
    }

    /// Moore adjacency: two distinct in-bounds cells whose rows and columns
    /// each differ by at most one.
    pub open spec fn adjacent(&self, i: int, j: int) -> bool {
        &&& 0 <= i < self.size()
        &&& 0 <= j < self.size()
        &&& i != j
        &&& -1 <= self.row_of(i) - self.row_of(j) <= 1
        &&& -1 <= self.col_of(i) - self.col_of(j) <= 1
    }

    /// The `k`-th neighbor candidate of cell `i`, if its offset stays in
    /// bounds.
    pub open spec fn spec_candidate(&self, i: int, k: int) -> Option<int> {
        let r = self.row_of(i) + delta_row(k);
        let c = self.col_of(i) + delta_col(k);
        if 0 <= r < self.spec_rows() && 0 <= c < self.spec_cols() {
            Some(r * self.spec_cols() + c)
        } else {
            None
        }
    }

    /// The in-bounds neighbors of cell `i` among the first `k` offsets of the
    /// visiting order.
    pub open spec fn spec_neighbors_upto(&self, i: int, k: int) -> Seq<int>
        decreases k,
    {
        if k <= 0 {
            Seq::<int>::empty()
        } else {
            let rest = self.spec_neighbors_upto(i, k - 1);
            match self.spec_candidate(i, k - 1) {
                Some(j) => rest.push(j),
                None => rest,
            }
        }
    }

    /// The in-bounds neighbors of cell `i`, in the fixed visiting order.
    pub open spec fn spec_neighbors(&self, i: int) -> Seq<int> {
        self.spec_neighbors_upto(i, 8)
    }

    /// A well-formed board has exactly one tile per cell.
    pub(crate) proof fn lemma_wf_len(&self)
        requires
            self.wf(),
        ensures
            self.cubes@.len() == self.size(),
            0 <= self.size() <= usize::MAX,
    {
        self.lemma_size_nonneg();
        assert(spec_vec_len(&self.cubes) == self.cubes@.len());
    }

    /// A board never has negatively many cells.
    pub proof fn lemma_size_nonneg(&self)
        ensures
            self.size() >= 0,
    {
        vstd::arithmetic::mul::lemma_mul_nonnegative(self.spec_rows(), self.spec_cols());
    }

    /// Constructs a board; fails with `DimensionMismatch` exactly when the
    /// tile list's length differs from `rows * cols`.
    pub fn new(rows: usize, cols: usize, cubes: Vec<String>) -> (r: Result<Board, DimensionMismatch>)
        ensures
            rows * cols == cubes@.len() ==> (r matches Ok(b) && b.wf() && b.spec_rows() == rows
                && b.spec_cols() == cols && b.tiles() == cubes@.map_values(|s: String| s@)),
            rows * cols != cubes@.len() ==> (r matches Err(e) && e == DimensionMismatch),
    {
        let len = cubes.len();
        match rows.checked_mul(cols) {
            Some(n) => {
                if n == len {
                    Ok(Board { rows, cols, cubes })
                } else {
                    Err(DimensionMismatch)
                }
            },
            None => Err(DimensionMismatch),
        }
    }

    /// Bounds-checked tile lookup by row and column.
    pub fn tile_at(&self, row: usize, col: usize) -> (t: &String)
        requires
            self.wf(),
            row < self.spec_rows(),
            col < self.spec_cols(),
        ensures
            t@ == self.tile(row * self.spec_cols() + col),
    {
        proof {
            assert(row * self.spec_cols() + col < self.size()) by (nonlinear_arith)
                requires
                    row < self.spec_rows(),
                    col < self.spec_cols(),
            ;
            assert(spec_vec_len(&self.cubes) == self.cubes@.len());
        }
        let i = rc_index(row, col, self.cols);
        &self.cubes[i]
    }

    /// The tile string at a flat index.
    pub(crate) fn tile_str(&self, index: usize) -> (t: &String)
        requires
            self.wf(),
            index < self.size(),
        ensures
            t@ == self.tile(index as int),
    {
        &self.cubes[index]
    }

    /// Flattens an in-bounds (row, column) pair, relating the result to
    /// `row_of` and `col_of`.
    pub(crate) fn cell_index(&self, r: usize, c: usize) -> (i: usize)
        requires
            self.wf(),
            r < self.spec_rows(),
            c < self.spec_cols(),
        ensures
            i == r * self.spec_cols() + c,
            i < self.size(),
            self.row_of(i as int) == r,
            self.col_of(i as int) == c,
    {
        proof {
            assert(spec_vec_len(&self.cubes) == self.cubes@.len());
            assert(r * self.spec_cols() + c < self.size()) by (nonlinear_arith)
                requires
                    r < self.spec_rows(),
                    c < self.spec_cols(),
            ;
            lemma_fundamental_div_mod_converse(
                r as int * self.cols as int + c,
                self.cols as int,
                r as int,
                c as int,
            );
        }
        rc_index(r, c, self.cols)
    }

    /// The `k`-th neighbor candidate of `index`, following the fixed visiting
    /// order; `None` when the offset falls outside the board.
    pub(crate) fn neighbor_candidate(&self, index: usize, k: usize) -> (r: Option<usize>)
        requires
            self.wf(),
            index < self.size(),
            k < 8,
        ensures
            match r {
                Some(j) => Some(j as int) == self.spec_candidate(index as int, k as int) && j
                    < self.size() && self.adjacent(index as int, j as int),
                None => self.spec_candidate(index as int, k as int) is None,
            },
    {
        proof {
            assert(self.cols > 0) by {
                if self.cols == 0 {
                    assert(self.size() == 0) by (nonlinear_arith)
                        requires
                            self.spec_cols() == 0,
                    ;
                }
            }
            lemma_fundamental_div_mod(index as int, self.cols as int);
            lemma_mod_division_less_than_divisor(index as int, self.cols as int);
            assert(self.row_of(index as int) < self.spec_rows()) by (nonlinear_arith)
                requires
                    self.spec_cols() > 0,
                    index < self.size(),
                    index == self.spec_cols() * self.row_of(index as int) + self.col_of(
                        index as int,
                    ),
                    0 <= self.col_of(index as int) < self.spec_cols(),
                    0 <= self.row_of(index as int),
            ;
        }
        let cols = self.cols;
        let row = index / cols;
        let col = index % cols;
        let r = match k {
            0 => if row >= 1 && col >= 1 {
                Some(self.cell_index(row - 1, col - 1))
            } else {
                None
            },
            1 => if row >= 1 {
                Some(self.cell_index(row - 1, col))
            } else {
                None
            },
            2 => if row >= 1 && col + 1 < cols {
                Some(self.cell_index(row - 1, col + 1))
            } else {
                None
            },
            3 => if col >= 1 {
                Some(self.cell_index(row, col - 1))
            } else {
                None
            },
            4 => if col + 1 < cols {
                Some(self.cell_index(row, col + 1))
            } else {
                None
            },
            5 => if row + 1 < self.rows && col >= 1 {
                Some(self.cell_index(row + 1, col - 1))
            } else {
                None
            },
            6 => if row + 1 < self.rows {
                Some(self.cell_index(row + 1, col))
            } else {
                None
            },
            _ => if row + 1 < self.rows && col + 1 < cols {
                Some(self.cell_index(row + 1, col + 1))
            } else {
                None
            },
        };
        r
    }

    /// Every in-bounds neighbor of `index`, in the fixed visiting order.
    pub fn neighbors_of(&self, index: usize) -> (ns: Vec<usize>)
        requires
            self.wf(),
            index < self.size(),
        ensures
            ns@.map_values(|j: usize| j as int) == self.spec_neighbors(index as int),
    {
        let mut ns: Vec<usize> = Vec::new();
        let mut k: usize = 0;
        while k < 8
            invariant
                self.wf(),
                index < self.size(),
                k <= 8,
                ns@.map_values(|j: usize| j as int) == self.spec_neighbors_upto(
                    index as int,
                    k as int,
                ),
            decreases 8 - k,
        {
            match self.neighbor_candidate(index, k) {
                Some(j) => {
                    ns.push(j);
                    proof {
                        assert(ns@.map_values(|j: usize| j as int) =~= ns@.drop_last().map_values(
                            |j: usize| j as int,
                        ).push(j as int));
                    }
                },
                None => {},
            }
            k += 1;
        }
        ns
    }
}

} // verus!
