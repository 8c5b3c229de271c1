//! The 9x9 grid: cell storage, coordinate transforms, and the
//! constraint-legality checks used by the solver.
//!
//! A board holds 81 digits (`0` means "empty") addressed either by
//! `(row, col)` with both in `0..9` or by a flat index `row * 9 + col`
//! in `0..81`, together with a parallel flag per cell marking the cells
//! whose value was given by the puzzle ("known" cells).

use vstd::prelude::*;

verus! {

/// Digit at `(row, col)` of a grid viewed as a flat 81-element sequence.
pub open spec fn cell(s: Seq<u32>, row: int, col: int) -> u32 {
    s[row * 9 + col]
}

/// `value` occurs somewhere in row `row` (all nine cells of the row).
pub open spec fn in_row(s: Seq<u32>, row: int, value: u32) -> bool {
    exists|c: int| 0 <= c < 9 && cell(s, row, c) == value
}

/// `value` occurs somewhere in column `col` (all nine cells of the column).
pub open spec fn in_col(s: Seq<u32>, col: int, value: u32) -> bool {
    exists|r: int| 0 <= r < 9 && cell(s, r, col) == value
}

/// `value` occurs somewhere in the 3x3 tile with tile coordinates
/// `(trow, tcol)`, i.e. among the cells whose row lies in
/// `trow*3..trow*3+3` and whose column lies in `tcol*3..tcol*3+3`.
pub open spec fn in_tile(s: Seq<u32>, trow: int, tcol: int, value: u32) -> bool {
    exists|r: int, c: int|
        0 <= r < 9 && 0 <= c < 9 && r / 3 == trow && c / 3 == tcol && cell(s, r, c) == value
}

/// `value` occurs in some cell of row `row` other than `(row, col)`.
pub open spec fn in_peer_row(s: Seq<u32>, row: int, col: int, value: u32) -> bool {
    exists|c: int| 0 <= c < 9 && c != col && cell(s, row, c) == value
}

/// `value` occurs in some cell of column `col` other than `(row, col)`.
pub open spec fn in_peer_col(s: Seq<u32>, row: int, col: int, value: u32) -> bool {
    exists|r: int| 0 <= r < 9 && r != row && cell(s, r, col) == value
}

/// `value` occurs in some cell of `(row, col)`'s 3x3 tile other than
/// `(row, col)` itself.
pub open spec fn in_peer_tile(s: Seq<u32>, row: int, col: int, value: u32) -> bool {
    exists|r: int, c: int|
        0 <= r < 9 && 0 <= c < 9 && r / 3 == row / 3 && c / 3 == col / 3
            && !(r == row && c == col) && cell(s, r, c) == value
}

/// `value` may legally be written at `(row, col)`: it occurs in none of
/// the cell's 8 + 8 + 4 peers — the other cells of its row, column, and
/// containing 3x3 tile. The cell's own current content is irrelevant.
pub open spec fn valid_insert_spec(s: Seq<u32>, row: int, col: int, value: u32) -> bool {
    &&& !in_peer_row(s, row, col, value)
    &&& !in_peer_col(s, row, col, value)
    &&& !in_peer_tile(s, row, col, value)
}

/// Every digit of the grid lies in `0..=9`.
pub open spec fn cells_in_range(s: Seq<u32>) -> bool {
    forall|i: int| 0 <= i < 81 ==> s[i] <= 9
}

/// No row holds the same non-zero digit twice.
pub open spec fn rows_consistent(s: Seq<u32>) -> bool {
    forall|r: int, c1: int, c2: int|
        0 <= r < 9 && 0 <= c1 < 9 && 0 <= c2 < 9 && c1 != c2 && cell(s, r, c1) != 0
            ==> cell(s, r, c1) != cell(s, r, c2)
}

/// No column holds the same non-zero digit twice.
pub open spec fn cols_consistent(s: Seq<u32>) -> bool {
    forall|c: int, r1: int, r2: int|
        0 <= c < 9 && 0 <= r1 < 9 && 0 <= r2 < 9 && r1 != r2 && cell(s, r1, c) != 0
            ==> cell(s, r1, c) != cell(s, r2, c)
}

/// No 3x3 tile holds the same non-zero digit twice.
pub open spec fn tiles_consistent(s: Seq<u32>) -> bool {
    forall|r1: int, c1: int, r2: int, c2: int|
        0 <= r1 < 9 && 0 <= c1 < 9 && 0 <= r2 < 9 && 0 <= c2 < 9
            && r1 / 3 == r2 / 3 && c1 / 3 == c2 / 3 && !(r1 == r2 && c1 == c2)
            && cell(s, r1, c1) != 0
            ==> cell(s, r1, c1) != cell(s, r2, c2)
}

/// The grid breaks no Sudoku constraint: no non-zero digit repeats
/// within a row, a column, or a tile.
pub open spec fn consistent(s: Seq<u32>) -> bool {
    rows_consistent(s) && cols_consistent(s) && tiles_consistent(s)
}

/// Every cell holds a digit in `1..=9`.
pub open spec fn complete(s: Seq<u32>) -> bool {
    forall|i: int| 0 <= i < 81 ==> 1 <= #[trigger] s[i] && s[i] <= 9
}

/// The 81-cell grid: current digit per cell (`0` = empty) and a flag per
/// cell marking the digits fixed by the original puzzle.
pub struct Board {
    pub numbers: [u32; 81],
    pub known: [bool; 81],
}

impl Board {
    /// The digits of the grid, row-major.
    pub open spec fn cells(self) -> Seq<u32> {
        self.numbers@
    }

    /// The per-cell "fixed by the puzzle" flags, row-major.
    pub open spec fn knowns(self) -> Seq<bool> {
        self.known@
    }
}

/// Flat index of `(row, col)`.
pub fn index(row: usize, col: usize) -> (idx: usize)
    requires
        row < 9,
        col < 9,
    ensures
        idx == row * 9 + col,
        idx < 81,
{
    row * 9 + col
}

/// Row and column of a flat index; the inverse of `index`.
pub fn index2crd(idx: usize) -> (rc: (usize, usize))
    requires
        idx < 81,
    ensures
        rc.0 == idx / 9,
        rc.1 == idx % 9,
        rc.0 < 9,
        rc.1 < 9,
        idx == rc.0 * 9 + rc.1,
{
    (idx / 9, idx % 9)
}

/// The coordinate transforms are mutual inverses, one way: flattening
/// `(row, col)` and converting back yields `(row, col)` again.
pub proof fn lemma_index_then_coord(row: int, col: int)
    requires
        0 <= row < 9,
        0 <= col < 9,
    ensures
        (row * 9 + col) / 9 == row,
        (row * 9 + col) % 9 == col,
{
}

/// ... and the other way: converting a flat index to `(row, col)` and
/// flattening again yields the index.
pub proof fn lemma_coord_then_index(idx: int)
    requires
        0 <= idx < 81,
    ensures
        (idx / 9) * 9 + idx % 9 == idx,
        0 <= idx / 9 < 9,
        0 <= idx % 9 < 9,
{
}

/// Writing `value` at `(row, col)` and reading the same cell back yields
/// `value`, for any digit including `0` and whatever the cell's known
/// flag, which a write never touches.
pub proof fn lemma_set_then_get(b: Board, row: int, col: int, value: u32)
    requires
        0 <= row < 9,
        0 <= col < 9,
    ensures
        cell(b.cells().update(row * 9 + col, value), row, col) == value,
{
    assert(b.cells().len() == 81);
}

/// Marking `(row, col)` known makes `is_known` answer true there; a fresh
/// board answers false everywhere (see `empty_board`).
pub proof fn lemma_mark_then_known(b: Board, row: int, col: int)
    requires
        0 <= row < 9,
        0 <= col < 9,
    ensures
        b.knowns().update(row * 9 + col, true)[row * 9 + col],
{
    assert(b.knowns().len() == 81);
}

/// Legality of a placement reads the digits alone: any two boards that
/// agree on their digits, whatever their known flags, give the same
/// answer for every placement. With `valid_insert`'s postcondition this
/// says two checks with no write in between return the same result.
pub proof fn lemma_valid_insert_reads_cells_only(
    b1: Board,
    b2: Board,
    row: int,
    col: int,
    value: u32,
)
    requires
        b1.cells() == b2.cells(),
    ensures
        valid_insert_spec(b1.cells(), row, col, value) == valid_insert_spec(
            b2.cells(),
            row,
            col,
            value,
        ),
{
}

/// Two boards hold the same digits everywhere; the known flags are not
/// compared.
pub fn is_equal(b1: &Board, b2: &Board) -> (eq: bool)
    ensures
        eq == (b1.cells() =~= b2.cells()),
{
    for idx in 0..81usize
        invariant
            forall|j: int| 0 <= j < idx ==> b1.cells()[j] == b2.cells()[j],
    {
        if b1.get_index(idx) != b2.get_index(idx) {
            return false;
        }
    }
    assert(b1.cells() =~= b2.cells());
    true
}

impl Board {
    /// Digit currently at `(row, col)`; `0` if the cell is empty.
    pub fn get(&self, row: usize, col: usize) -> (value: u32)
        requires
            row < 9,
            col < 9,
        ensures
            value == cell(self.cells(), row as int, col as int),
    {
        self.get_index(index(row, col))
    }

    /// Overwrite the digit at `(row, col)`, `0` included; the known flags
    /// are untouched.
    pub fn set(&mut self, row: usize, col: usize, value: u32)
        requires
            row < 9,
            col < 9,
        ensures
            final(self).cells() == old(self).cells().update(row as int * 9 + col as int, value),
            final(self).knowns() == old(self).knowns(),
    {
        let idx = index(row, col);
        self.set_index(idx, value);
    }

    /// Whether the cell at `(row, col)` is fixed by the original puzzle.
    pub fn is_known(&self, row: usize, col: usize) -> (known: bool)
        requires
            row < 9,
            col < 9,
        ensures
            known == self.knowns()[row as int * 9 + col as int],
    {
        self.index_is_known(index(row, col))
    }

    /// Mark the cell at `(row, col)` as fixed by the original puzzle.
    pub fn set_known(&mut self, row: usize, col: usize)
        requires
            row < 9,
            col < 9,
        ensures
            final(self).knowns() == old(self).knowns().update(row as int * 9 + col as int, true),
            final(self).cells() == old(self).cells(),
    {
        let idx = index(row, col);
        self.known[idx] = true;
    }

    /// Whether the cell at flat index `idx` is fixed by the original puzzle.
    pub fn index_is_known(&self, idx: usize) -> (known: bool)
        requires
            idx < 81,
        ensures
            known == self.knowns()[idx as int],
    {
        self.known[idx]
    }

    /// Digit currently at flat index `idx`; `0` if the cell is empty.
    pub fn get_index(&self, idx: usize) -> (value: u32)
        requires
            idx < 81,
        ensures
            value == self.cells()[idx as int],
    {
        self.numbers[idx]
    }

    /// Overwrite the digit at flat index `idx`, `0` included; the known
    /// flags are untouched.
    pub fn set_index(&mut self, idx: usize, value: u32)
        requires
            idx < 81,
        ensures
            final(self).cells() == old(self).cells().update(idx as int, value),
            final(self).knowns() == old(self).knowns(),
    {
        self.numbers[idx] = value;
    }

    /// Whether `value` occurs anywhere in row `row`.
    pub fn is_in_row(&self, row: usize, value: u32) -> (found: bool)
        requires
            row < 9,
        ensures
            found == in_row(self.cells(), row as int, value),
    {
        for c in 0..9usize
            invariant
                row < 9,
                forall|j: int| 0 <= j < c ==> cell(self.cells(), row as int, j) != value,
        {
            if self.get(row, c) == value {
                return true;
            }
        }
        false
    }

    /// Whether `value` occurs anywhere in column `col`.
    pub fn is_in_col(&self, col: usize, value: u32) -> (found: bool)
        requires
            col < 9,
        ensures
            found == in_col(self.cells(), col as int, value),
    {
        for r in 0..9usize
            invariant
                col < 9,
                forall|j: int| 0 <= j < r ==> cell(self.cells(), j, col as int) != value,
        {
            if self.get(r, col) == value {
                return true;
            }
        }
        false
    }

    /// Whether `value` occurs anywhere in the 3x3 tile with tile
    /// coordinates `(trow, tcol)`, both in `0..3`.
    pub fn is_in_tile(&self, trow: usize, tcol: usize, value: u32) -> (found: bool)
        requires
            trow < 3,
            tcol < 3,
        ensures
            found == in_tile(self.cells(), trow as int, tcol as int, value),
    {
        let row_start = trow * 3;
        let col_start = tcol * 3;
        for r in row_start..row_start + 3
            invariant
                trow < 3,
                tcol < 3,
                row_start == trow * 3,
                col_start == tcol * 3,
                row_start <= r <= row_start + 3,
                forall|i: int, j: int|
                    row_start <= i < r && col_start <= j < col_start + 3
                        ==> cell(self.cells(), i, j) != value,
        {
            for c in col_start..col_start + 3
                invariant
                    trow < 3,
                    tcol < 3,
                    row_start == trow * 3,
                    col_start == tcol * 3,
                    row_start <= r < row_start + 3,
                    col_start <= c <= col_start + 3,
                    forall|i: int, j: int|
                        row_start <= i < r && col_start <= j < col_start + 3
                            ==> cell(self.cells(), i, j) != value,
                    forall|j: int| col_start <= j < c ==> cell(self.cells(), r as int, j) != value,
            {
                if self.get(r, c) == value {
                    assert(r as int / 3 == trow && c as int / 3 == tcol);
                    return true;
                }
            }
        }
        assert forall|i: int, j: int|
            0 <= i < 9 && 0 <= j < 9 && i / 3 == trow && j / 3 == tcol
                implies cell(self.cells(), i, j) != value by {
            assert(row_start <= i < row_start + 3);
            assert(col_start <= j < col_start + 3);
        }
        false
    }

    /// Whether `value` may legally be written at `(row, col)`: it occurs
    /// in none of the cell's peers — the other cells of its row, column,
    /// and containing 3x3 tile. What the cell itself currently holds does
    /// not matter. The result is a function of the grid alone, so two
    /// calls with no mutation in between return the same answer.
    pub fn valid_insert(&self, row: usize, col: usize, value: u32) -> (valid: bool)
        requires
            row < 9,
            col < 9,
        ensures
            valid == valid_insert_spec(self.cells(), row as int, col as int, value),
    {
        for c in 0..9usize
            invariant
                row < 9,
                col < 9,
                forall|j: int|
                    0 <= j < c && j != col ==> cell(self.cells(), row as int, j) != value,
        {
            if c != col && self.get(row, c) == value {
                return false;
            }
        }
        for r in 0..9usize
            invariant
                row < 9,
                col < 9,
                !in_peer_row(self.cells(), row as int, col as int, value),
                forall|j: int|
                    0 <= j < r && j != row ==> cell(self.cells(), j, col as int) != value,
        {
            if r != row && self.get(r, col) == value {
                return false;
            }
        }
        let row_start = (row / 3) * 3;
        let col_start = (col / 3) * 3;
        for r in row_start..row_start + 3
            invariant
                row < 9,
                col < 9,
                row_start == (row as int / 3) * 3,
                col_start == (col as int / 3) * 3,
                row_start <= r <= row_start + 3,
                !in_peer_row(self.cells(), row as int, col as int, value),
                !in_peer_col(self.cells(), row as int, col as int, value),
                forall|i: int, j: int|
                    row_start <= i < r && col_start <= j < col_start + 3
                        && !(i == row && j == col) ==> cell(self.cells(), i, j) != value,
        {
            for c in col_start..col_start + 3
                invariant
                    row < 9,
                    col < 9,
                    row_start == (row as int / 3) * 3,
                    col_start == (col as int / 3) * 3,
                    row_start <= r < row_start + 3,
                    col_start <= c <= col_start + 3,
                    forall|i: int, j: int|
                        row_start <= i < r && col_start <= j < col_start + 3
                            && !(i == row && j == col) ==> cell(self.cells(), i, j) != value,
                    forall|j: int|
                        col_start <= j < c && !(r == row && j == col)
                            ==> cell(self.cells(), r as int, j) != value,
            {
                if !(r == row && c == col) && self.get(r, c) == value {
                    assert(r as int / 3 == row as int / 3 && c as int / 3 == col as int / 3);
                    return false;
                }
            }
        }
        proof {
            assert forall|i: int, j: int|
                0 <= i < 9 && 0 <= j < 9 && i / 3 == row as int / 3 && j / 3 == col as int / 3
                    && !(i == row && j == col)
                    implies cell(self.cells(), i, j) != value by {
                assert(row_start <= i < row_start + 3);
                assert(col_start <= j < col_start + 3);
            }
        }
        true
    }
}

/// A board with every cell empty and no cell marked known.
pub fn empty_board() -> (board: Board)
    ensures
        forall|i: int| 0 <= i < 81 ==> board.cells()[i] == 0,
        forall|i: int| 0 <= i < 81 ==> !board.knowns()[i],
{
    Board { numbers: [0; 81], known: [false; 81] }
}

} // verus!
