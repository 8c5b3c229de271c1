//! Iterative backtracking search over the unknown cells of a board.
//!
//! The solver walks the unknown cells in index order. At the current cell
//! it looks for the smallest legal digit above the cell's current value;
//! finding one, it writes it and advances to the next unknown cell, and
//! finding none, it clears the cell and retreats to the previous unknown
//! cell. Known cells are never touched. Reaching past the last cell means
//! the grid is completely and legally filled.
//!
//! Outcomes are reported as an explicit value rather than logged. Besides
//! success and budget exhaustion there is a third terminal outcome,
//! `Infeasible`, reported when the search has to retreat past the first
//! unknown cell: at that point every candidate for that cell has been
//! ruled out, so no assignment extends the known cells.

use vstd::prelude::*;

use crate::board::Board;
use crate::board::cell;
use crate::board::cells_in_range;
use crate::board::complete;
use crate::board::consistent;
use crate::board::in_peer_col;
use crate::board::in_peer_row;
use crate::board::in_peer_tile;
use crate::board::index2crd;
use crate::board::valid_insert_spec;

verus! {

/// How a `brute_force_solve` call ended.
#[derive(Clone, Copy, Debug, PartialEq, Eq, Structural)]
pub enum SolveOutcome {
    /// The board holds a complete legal assignment.
    Solved,
    /// The configured attempt budget ran out; the board is left in the
    /// partial state the search had reached.
    BudgetExhausted,
    /// The search retreated past the first unknown cell: no candidate is
    /// left there, so the known cells admit no completion.
    Infeasible,
}

/// `value` may legally be written at the cell with flat index `idx`.
pub open spec fn valid_insert_at(s: Seq<u32>, idx: int, value: u32) -> bool {
    valid_insert_spec(s, idx / 9, idx % 9, value)
}

/// Every cell marked known holds a non-zero digit.
pub open spec fn knowns_filled(b: Board) -> bool {
    forall|i: int| 0 <= i < 81 && #[trigger] b.knowns()[i] ==> b.cells()[i] != 0
}

/// `b` has the same known flags as `b0` and agrees with `b0` on every
/// known cell's digit.
pub open spec fn keeps_known_cells(b0: Board, b: Board) -> bool {
    &&& b.knowns() == b0.knowns()
    &&& forall|i: int| 0 <= i < 81 && #[trigger] b0.knowns()[i] ==> b.cells()[i] == b0.cells()[i]
}

/// Every cell of `b` is marked known.
pub open spec fn all_known(b: Board) -> bool {
    forall|i: int| 0 <= i < 81 ==> #[trigger] b.knowns()[i]
}

/// Every cell not marked known is empty: the state a loaded board is in
/// before the search first runs.
pub open spec fn unknowns_empty(b: Board) -> bool {
    forall|i: int| 0 <= i < 81 && !(#[trigger] b.knowns()[i]) ==> b.cells()[i] == 0
}

/// `s` agrees with `b`'s digits on every cell `b` marks known.
pub open spec fn extends_knowns(s: Seq<u32>, b: Board) -> bool {
    forall|i: int| 0 <= i < 81 && #[trigger] b.knowns()[i] ==> s[i] == b.cells()[i]
}

/// `s` is a complete legal assignment that extends the known cells of
/// `b`: what it means for the puzzle held by `b` to be solvable.
pub open spec fn is_solution(s: Seq<u32>, b: Board) -> bool {
    &&& s.len() == 81
    &&& complete(s)
    &&& consistent(s)
    &&& extends_knowns(s, b)
}

/// `s` agrees with grid `g` on every unknown cell strictly below `m`.
spec fn agrees_on_unknowns_below(s: Seq<u32>, g: Seq<u32>, kn: Seq<bool>, m: int) -> bool {
    forall|i: int| 0 <= i < m && !(#[trigger] kn[i]) ==> s[i] == g[i]
}

/// At some unknown cell at or below `idx`, `s` holds a digit above the
/// grid's while agreeing with the grid on every unknown cell before that
/// one: the search, which tries candidates in increasing order, has not
/// yet passed `s` by.
spec fn solution_exceeds(s: Seq<u32>, g: Seq<u32>, kn: Seq<bool>, idx: int) -> bool {
    exists|m: int|
        0 <= m <= idx && !(#[trigger] kn[m]) && s[m] > g[m] && agrees_on_unknowns_below(
            s,
            g,
            kn,
            m,
        )
}

/// Smallest unknown index above `current`, or `81` when every later cell
/// is known.
pub fn next_unknown_square(current: usize, board: &Board) -> (next: usize)
    requires
        current < 81,
    ensures
        current < next <= 81,
        next < 81 ==> !board.knowns()[next as int],
        forall|j: int| current < j < next ==> #[trigger] board.knowns()[j],
{
    for idx in current + 1..81usize
        invariant
            current < idx <= 81,
            forall|j: int| current < j < idx ==> #[trigger] board.knowns()[j],
    {
        if !board.index_is_known(idx) {
            return idx;
        }
    }
    81
}

/// Largest unknown index below `current`, or `0` when no cell below
/// `current` is unknown (a defined fallback, not an error).
pub fn prev_unknown_square(current: usize, board: &Board) -> (prev: usize)
    requires
        current <= 81,
    ensures
        prev < current || prev == 0,
        (exists|j: int| 0 <= j < current && !(#[trigger] board.knowns()[j])) ==> {
            &&& prev < current
            &&& !board.knowns()[prev as int]
            &&& forall|j: int| prev < j < current ==> #[trigger] board.knowns()[j]
        },
        (forall|j: int| 0 <= j < current ==> #[trigger] board.knowns()[j]) ==> prev == 0,
{
    let mut idx: usize = current;
    while idx > 0
        invariant
            idx <= current <= 81,
            forall|j: int| idx <= j < current ==> #[trigger] board.knowns()[j],
        decreases idx,
    {
        idx = idx - 1;
        if !board.index_is_known(idx) {
            return idx;
        }
    }
    0
}

/// Smallest digit strictly above the cell's current value that may
/// legally be written at the cell with flat index `idx`, or `0` when no
/// such digit exists.
pub fn next_valid_number(idx: usize, board: &Board) -> (num: u32)
    requires
        idx < 81,
        board.cells()[idx as int] <= 9,
    ensures
        num == 0 ==> forall|v: u32|
            board.cells()[idx as int] < v <= 9
                ==> !#[trigger] valid_insert_at(board.cells(), idx as int, v),
        num != 0 ==> {
            &&& board.cells()[idx as int] < num <= 9
            &&& valid_insert_at(board.cells(), idx as int, num)
            &&& forall|v: u32|
                board.cells()[idx as int] < v < num
                    ==> !#[trigger] valid_insert_at(board.cells(), idx as int, v)
        },
{
    let (r, c) = index2crd(idx);
    let start = board.get_index(idx);
    for num in start + 1..10u32
        invariant
            idx < 81,
            r == idx as int / 9,
            c == idx as int % 9,
            start == board.cells()[idx as int],
            start < num <= 10,
            forall|v: u32|
                start < v < num ==> !#[trigger] valid_insert_at(board.cells(), idx as int, v),
    {
        if board.valid_insert(r, c, num) {
            return num;
        }
    }
    0
}

/// Digit of the termination measure at position `j`: positions past the
/// cursor weigh nothing, and a position at or before the cursor weighs
/// more the smaller its stored value is, so that both writing a larger
/// value at the cursor and moving the cursor back shrink the measure.
pub open spec fn measure_digit(s: Seq<u32>, cursor: int, j: int) -> nat {
    if j > cursor {
        0
    } else if s[j] <= 10 {
        (10 - s[j]) as nat
    } else {
        0
    }
}

/// The measure digits `0..j` read as a base-eleven number, most
/// significant first.
pub open spec fn measure_rec(s: Seq<u32>, cursor: int, j: int) -> nat
    decreases j,
{
    if j <= 0 {
        0
    } else {
        11 * measure_rec(s, cursor, j - 1) + measure_digit(s, cursor, j - 1)
    }
}

/// Termination measure of the search loop: every step of the search
/// strictly shrinks it.
pub open spec fn search_measure(s: Seq<u32>, cursor: int) -> nat {
    measure_rec(s, cursor, 81)
}

proof fn lemma_measure_prefix_eq(s1: Seq<u32>, i1: int, s2: Seq<u32>, i2: int, j: int)
    requires
        forall|k: int| 0 <= k < j ==> #[trigger] measure_digit(s1, i1, k) == measure_digit(s2, i2, k),
    ensures
        measure_rec(s1, i1, j) == measure_rec(s2, i2, j),
    decreases j,
{
    if j > 0 {
        lemma_measure_prefix_eq(s1, i1, s2, i2, j - 1);
    }
}

/// A base-eleven number shrinks when its digits are unchanged before
/// position `t` and its digit at `t` shrinks, whatever the later digits do.
proof fn lemma_measure_decreases(s1: Seq<u32>, i1: int, s2: Seq<u32>, i2: int, t: int, j: int)
    requires
        0 <= t < j,
        forall|k: int| 0 <= k < t ==> #[trigger] measure_digit(s1, i1, k) == measure_digit(s2, i2, k),
        measure_digit(s2, i2, t) < measure_digit(s1, i1, t),
    ensures
        measure_rec(s2, i2, j) < measure_rec(s1, i1, j),
    decreases j,
{
    if j == t + 1 {
        lemma_measure_prefix_eq(s1, i1, s2, i2, t);
    } else {
        lemma_measure_decreases(s1, i1, s2, i2, t, j - 1);
        assert(measure_digit(s2, i2, j - 1) <= 10);
    }
}

proof fn lemma_update_other_cells(s: Seq<u32>, row: int, col: int, value: u32)
    requires
        s.len() == 81,
        0 <= row < 9,
        0 <= col < 9,
    ensures
        cell(s.update(row * 9 + col, value), row, col) == value,
        forall|r: int, c: int|
            0 <= r < 9 && 0 <= c < 9 && !(r == row && c == col)
                ==> #[trigger] cell(s.update(row * 9 + col, value), r, c) == cell(s, r, c),
{
    assert forall|r: int, c: int|
        0 <= r < 9 && 0 <= c < 9 && !(r == row && c == col)
            implies #[trigger] cell(s.update(row * 9 + col, value), r, c) == cell(s, r, c) by {
        assert(r * 9 + c != row * 9 + col);
    }
}

/// Writing a digit that passes the legality check cannot introduce a
/// duplicate in any row, column, or tile.
proof fn lemma_insert_keeps_consistent(s: Seq<u32>, row: int, col: int, value: u32)
    requires
        s.len() == 81,
        0 <= row < 9,
        0 <= col < 9,
        value != 0,
        valid_insert_spec(s, row, col, value),
        consistent(s),
    ensures
        consistent(s.update(row * 9 + col, value)),
{
    let s2 = s.update(row * 9 + col, value);
    lemma_update_other_cells(s, row, col, value);
    assert forall|c: int| 0 <= c < 9 && c != col implies cell(s, row, c) != value by {
        assert(!in_peer_row(s, row, col, value));
    }
    assert forall|r: int| 0 <= r < 9 && r != row implies cell(s, r, col) != value by {
        assert(!in_peer_col(s, row, col, value));
    }
    assert forall|r: int, c: int|
        0 <= r < 9 && 0 <= c < 9 && r / 3 == row / 3 && c / 3 == col / 3
            && !(r == row && c == col)
            implies cell(s, r, c) != value by {
        assert(!in_peer_tile(s, row, col, value));
    }
}

/// Clearing a cell cannot introduce a duplicate in any row, column, or
/// tile.
proof fn lemma_clear_keeps_consistent(s: Seq<u32>, row: int, col: int)
    requires
        s.len() == 81,
        0 <= row < 9,
        0 <= col < 9,
        consistent(s),
    ensures
        consistent(s.update(row * 9 + col, 0)),
{
    lemma_update_other_cells(s, row, col, 0);
}

/// Any complete consistent assignment that matches every non-zero cell
/// of the grid except possibly the cell `idx` itself places, at `idx`, a
/// digit that the grid's legality check accepts.
proof fn lemma_solution_candidate_valid(s: Seq<u32>, g: Seq<u32>, idx: int)
    requires
        s.len() == 81,
        g.len() == 81,
        complete(s),
        consistent(s),
        0 <= idx < 81,
        forall|i: int| 0 <= i < 81 && i != idx && #[trigger] g[i] != 0 ==> s[i] == g[i],
    ensures
        valid_insert_at(g, idx, s[idx]),
{
    let row = idx / 9;
    let col = idx % 9;
    let w = s[idx];
    assert(cell(s, row, col) == w);
    assert(1 <= w <= 9);
    assert forall|c: int| 0 <= c < 9 && c != col implies cell(g, row, c) != w by {
        if cell(g, row, c) == w {
            assert(row * 9 + c != idx);
            assert(s[row * 9 + c] == w);
            assert(cell(s, row, c) == cell(s, row, col));
            assert(false);
        }
    }
    assert forall|r: int| 0 <= r < 9 && r != row implies cell(g, r, col) != w by {
        if cell(g, r, col) == w {
            assert(r * 9 + col != idx);
            assert(s[r * 9 + col] == w);
            assert(cell(s, r, col) == cell(s, row, col));
            assert(false);
        }
    }
    assert forall|r: int, c: int|
        0 <= r < 9 && 0 <= c < 9 && r / 3 == row / 3 && c / 3 == col / 3
            && !(r == row && c == col)
            implies cell(g, r, c) != w by {
        if cell(g, r, c) == w {
            assert(r * 9 + c != idx);
            assert(s[r * 9 + c] == w);
            assert(cell(s, r, c) == cell(s, row, col));
            assert(false);
        }
    }
    assert(!in_peer_row(g, row, col, w));
    assert(!in_peer_col(g, row, col, w));
    assert(!in_peer_tile(g, row, col, w));
}

/// A forward step of the search keeps every solution ahead of the state:
/// a solution either already exceeded the grid strictly below the
/// cursor, or it matches the digit just written (and then exceeds the
/// empty cell the cursor moves to), or it exceeds that digit itself.
proof fn lemma_exceeds_after_insert(
    s: Seq<u32>,
    g: Seq<u32>,
    kn: Seq<bool>,
    idx: int,
    num: u32,
    next: int,
)
    requires
        s.len() == 81,
        g.len() == 81,
        complete(s),
        consistent(s),
        0 <= idx < 81,
        !kn[idx],
        forall|i: int| 0 <= i < 81 && #[trigger] kn[i] ==> s[i] == g[i],
        forall|j: int| idx < j < 81 && !(#[trigger] kn[j]) ==> g[j] == 0,
        g[idx] < num <= 9,
        forall|v: u32| g[idx] < v < num ==> !#[trigger] valid_insert_at(g, idx, v),
        idx < next < 81,
        forall|j: int| idx < j < next ==> #[trigger] kn[j],
        !kn[next],
        solution_exceeds(s, g, kn, idx),
    ensures
        solution_exceeds(s, g.update(idx, num), kn, next),
{
    let g2 = g.update(idx, num);
    let m = choose|m: int|
        0 <= m <= idx && !kn[m] && s[m] > g[m] && agrees_on_unknowns_below(s, g, kn, m);
    if m < idx {
        assert(s[m] > g2[m]);
        assert(agrees_on_unknowns_below(s, g2, kn, m));
    } else {
        assert forall|i: int|
            0 <= i < 81 && i != idx && #[trigger] g[i] != 0 implies s[i] == g[i] by {
            if kn[i] {
                assert(s[i] == g[i]);
            } else if i < idx {
                assert(m == idx);
                assert(agrees_on_unknowns_below(s, g, kn, idx));
                assert(s[i] == g[i]);
            } else {
                assert(g[i] == 0);
            }
        }
        lemma_solution_candidate_valid(s, g, idx);
        assert(s[idx] >= num);
        if s[idx] == num {
            assert(g2[next] == 0);
            assert(s[next] >= 1);
            assert(agrees_on_unknowns_below(s, g2, kn, next));
        } else {
            assert(s[idx] > g2[idx]);
            assert(agrees_on_unknowns_below(s, g2, kn, idx));
        }
    }
}

/// A retreat step keeps every solution ahead of the state: none can
/// match the prefix through the cursor once every candidate there is
/// exhausted, so each already exceeded the grid strictly below the
/// cursor, where clearing the cursor's cell changes nothing.
proof fn lemma_exceeds_after_clear(s: Seq<u32>, g: Seq<u32>, kn: Seq<bool>, idx: int, prev: int)
    requires
        s.len() == 81,
        g.len() == 81,
        complete(s),
        consistent(s),
        0 <= idx < 81,
        !kn[idx],
        forall|i: int| 0 <= i < 81 && #[trigger] kn[i] ==> s[i] == g[i],
        forall|j: int| idx < j < 81 && !(#[trigger] kn[j]) ==> g[j] == 0,
        forall|v: u32| g[idx] < v <= 9 ==> !#[trigger] valid_insert_at(g, idx, v),
        0 <= prev < idx,
        !kn[prev],
        forall|j: int| prev < j < idx ==> #[trigger] kn[j],
        solution_exceeds(s, g, kn, idx),
    ensures
        solution_exceeds(s, g.update(idx, 0), kn, prev),
{
    let g2 = g.update(idx, 0);
    let m = choose|m: int|
        0 <= m <= idx && !kn[m] && s[m] > g[m] && agrees_on_unknowns_below(s, g, kn, m);
    if m == idx {
        assert forall|i: int|
            0 <= i < 81 && i != idx && #[trigger] g[i] != 0 implies s[i] == g[i] by {
            if kn[i] {
                assert(s[i] == g[i]);
            } else if i < idx {
                assert(agrees_on_unknowns_below(s, g, kn, idx));
                assert(s[i] == g[i]);
            } else {
                assert(g[i] == 0);
            }
        }
        lemma_solution_candidate_valid(s, g, idx);
        assert(g[idx] < s[idx] <= 9);
        assert(false);
    }
    assert(m <= prev);
    assert(s[m] > g2[m]);
    assert(agrees_on_unknowns_below(s, g2, kn, m));
}

/// With no unknown cell below the cursor and no candidate left at it, a
/// solution cannot still lie ahead of the state — and the search keeps
/// every solution ahead, so none exists.
proof fn lemma_exhausted_at_first_unknown(s: Seq<u32>, g: Seq<u32>, kn: Seq<bool>, idx: int)
    requires
        s.len() == 81,
        g.len() == 81,
        complete(s),
        consistent(s),
        0 <= idx < 81,
        forall|i: int| 0 <= i < 81 && #[trigger] kn[i] ==> s[i] == g[i],
        forall|j: int| idx < j < 81 && !(#[trigger] kn[j]) ==> g[j] == 0,
        forall|v: u32| g[idx] < v <= 9 ==> !#[trigger] valid_insert_at(g, idx, v),
        forall|j: int| 0 <= j < idx ==> #[trigger] kn[j],
    ensures
        !solution_exceeds(s, g, kn, idx),
{
    assert forall|m: int|
        !(0 <= m <= idx && !(#[trigger] kn[m]) && s[m] > g[m] && agrees_on_unknowns_below(
            s,
            g,
            kn,
            m,
        )) by {
        if 0 <= m <= idx && !kn[m] && s[m] > g[m] && agrees_on_unknowns_below(s, g, kn, m) {
            assert(m == idx);
            assert forall|i: int|
                0 <= i < 81 && i != idx && #[trigger] g[i] != 0 implies s[i] == g[i] by {
                if kn[i] {
                    assert(s[i] == g[i]);
                } else if i < idx {
                    assert(agrees_on_unknowns_below(s, g, kn, idx));
                    assert(s[i] == g[i]);
                } else {
                    assert(g[i] == 0);
                }
            }
            lemma_solution_candidate_valid(s, g, idx);
            assert(g[idx] < s[idx] <= 9);
            assert(false);
        }
    }
}

/// Smallest unknown index at or above `j`, or `81` when every cell from
/// `j` on is known: the spec mirror of `next_unknown_square`.
pub open spec fn spec_next_unknown(kn: Seq<bool>, j: int) -> int
    decreases 81 - j,
{
    if j >= 81 {
        81
    } else if !kn[j] {
        j
    } else {
        spec_next_unknown(kn, j + 1)
    }
}

/// Largest unknown index below `j`, or `0` when there is none: the spec
/// mirror of `prev_unknown_square`.
pub open spec fn spec_prev_unknown(kn: Seq<bool>, j: int) -> int
    decreases j,
{
    if j <= 0 {
        0
    } else if !kn[j - 1] {
        j - 1
    } else {
        spec_prev_unknown(kn, j - 1)
    }
}

/// Smallest digit in `v..=9` that may legally be written at `idx`, or
/// `0` when there is none: the spec mirror of `next_valid_number`.
pub open spec fn spec_next_valid(g: Seq<u32>, idx: int, v: int) -> u32
    decreases 10 - v,
{
    if v < 0 || v >= 10 {
        0
    } else if valid_insert_at(g, idx, v as u32) {
        v as u32
    } else {
        spec_next_valid(g, idx, v + 1)
    }
}

/// Index of the first unknown cell, or `81` when every cell is known:
/// where the search starts.
pub open spec fn spec_first_unknown(kn: Seq<bool>) -> int {
    spec_next_unknown(kn, 0)
}

proof fn lemma_spec_next_unknown_char(kn: Seq<bool>, j: int, r: int)
    requires
        0 <= j <= r <= 81,
        r < 81 ==> !kn[r],
        forall|t: int| j <= t < r ==> #[trigger] kn[t],
    ensures
        spec_next_unknown(kn, j) == r,
    decreases r - j,
{
    if j < r {
        lemma_spec_next_unknown_char(kn, j + 1, r);
    }
}

proof fn lemma_spec_next_unknown_bounds(kn: Seq<bool>, j: int)
    requires
        0 <= j <= 81,
    ensures
        j <= spec_next_unknown(kn, j) <= 81,
    decreases 81 - j,
{
    if j < 81 && kn[j] {
        lemma_spec_next_unknown_bounds(kn, j + 1);
    }
}

proof fn lemma_spec_prev_unknown_char(kn: Seq<bool>, j: int, r: int)
    requires
        0 <= r < j,
        !kn[r],
        forall|t: int| r < t < j ==> #[trigger] kn[t],
    ensures
        spec_prev_unknown(kn, j) == r,
    decreases j,
{
    if j - 1 > r {
        lemma_spec_prev_unknown_char(kn, j - 1, r);
    }
}

proof fn lemma_spec_prev_unknown_none(kn: Seq<bool>, j: int)
    requires
        0 <= j,
        forall|t: int| 0 <= t < j ==> #[trigger] kn[t],
    ensures
        spec_prev_unknown(kn, j) == 0,
    decreases j,
{
    if j > 0 {
        lemma_spec_prev_unknown_none(kn, j - 1);
    }
}

proof fn lemma_spec_prev_unknown_bounds(kn: Seq<bool>, j: int)
    requires
        0 <= j,
    ensures
        0 <= spec_prev_unknown(kn, j) <= j,
        j > 0 ==> spec_prev_unknown(kn, j) < j,
    decreases j,
{
    if j > 0 && kn[j - 1] {
        lemma_spec_prev_unknown_bounds(kn, j - 1);
    }
}

proof fn lemma_spec_next_valid_char(g: Seq<u32>, idx: int, v: int, num: u32)
    requires
        0 <= v <= 10,
        num != 0 ==> v <= num <= 9 && valid_insert_at(g, idx, num) && forall|u: u32|
            v <= u < num ==> !#[trigger] valid_insert_at(g, idx, u),
        num == 0 ==> forall|u: u32| v <= u <= 9 ==> !#[trigger] valid_insert_at(g, idx, u),
    ensures
        spec_next_valid(g, idx, v) == num,
    decreases 10 - v,
{
    if v < 10 && !valid_insert_at(g, idx, v as u32) {
        lemma_spec_next_valid_char(g, idx, v + 1, num);
    }
}

proof fn lemma_spec_next_valid_bounds(g: Seq<u32>, idx: int, v: int)
    requires
        0 <= v,
    ensures
        spec_next_valid(g, idx, v) == 0 || v <= spec_next_valid(g, idx, v) <= 9,
    decreases 10 - v,
{
    if 0 <= v < 10 && !valid_insert_at(g, idx, v as u32) {
        lemma_spec_next_valid_bounds(g, idx, v + 1);
    }
}

/// The outcome and final grid of the search run from grid `g` with the
/// cursor at unknown cell `idx`, after `attempts` earlier steps, under
/// budget `max`: the solver's loop, step for step, as a function. With
/// this the whole search is deterministic: `brute_force_solve` returns
/// exactly what this function computes from its starting state.
pub open spec fn solve_run(g: Seq<u32>, kn: Seq<bool>, idx: int, attempts: int, max: int) -> (
    SolveOutcome,
    Seq<u32>,
)
    decreases search_measure(g, idx),
        when 0 <= idx < 81 && g.len() == 81 && cells_in_range(g)
        via solve_run_decreases
{
    let num = spec_next_valid(g, idx, g[idx] + 1);
    let g2 = g.update(idx, num);
    if num != 0 {
        let next = spec_next_unknown(kn, idx + 1);
        if next == 81 {
            (SolveOutcome::Solved, g2)
        } else if max != -1 && attempts + 1 >= max {
            (SolveOutcome::BudgetExhausted, g2)
        } else {
            solve_run(g2, kn, next, attempts + 1, max)
        }
    } else {
        if idx == 0 {
            (SolveOutcome::Infeasible, g2)
        } else {
            let prev = spec_prev_unknown(kn, idx);
            if kn[prev] {
                (SolveOutcome::Infeasible, g2)
            } else if max != -1 && attempts + 1 >= max {
                (SolveOutcome::BudgetExhausted, g2)
            } else {
                solve_run(g2, kn, prev, attempts + 1, max)
            }
        }
    }
}

#[via_fn]
proof fn solve_run_decreases(g: Seq<u32>, kn: Seq<bool>, idx: int, attempts: int, max: int) {
    let num = spec_next_valid(g, idx, g[idx] + 1);
    lemma_spec_next_valid_bounds(g, idx, g[idx] + 1);
    let g2 = g.update(idx, num);
    assert forall|i: int| 0 <= i < 81 implies g2[i] <= 9 by {
        if i != idx {
            assert(g2[i] == g[i]);
        }
    }
    if num != 0 {
        let next = spec_next_unknown(kn, idx + 1);
        lemma_spec_next_unknown_bounds(kn, idx + 1);
        if next != 81 && !(max != -1 && attempts + 1 >= max) {
            assert forall|k: int| 0 <= k < idx
                implies #[trigger] measure_digit(g, idx, k) == measure_digit(g2, next, k) by {
                assert(g2[k] == g[k]);
            }
            assert(g[idx] <= 9);
            assert(measure_digit(g2, next, idx) < measure_digit(g, idx, idx));
            lemma_measure_decreases(g, idx, g2, next, idx, 81);
        }
    } else {
        if idx != 0 {
            let prev = spec_prev_unknown(kn, idx);
            lemma_spec_prev_unknown_bounds(kn, idx);
            if !kn[prev] && !(max != -1 && attempts + 1 >= max) {
                assert forall|k: int| 0 <= k < prev + 1
                    implies #[trigger] measure_digit(g, idx, k) == measure_digit(g2, prev, k) by {
                    assert(g2[k] == g[k]);
                }
                assert(g[prev + 1] <= 9);
                assert(measure_digit(g, idx, prev + 1) >= 1);
                assert(measure_digit(g2, prev, prev + 1) == 0);
                lemma_measure_decreases(g, idx, g2, prev, prev + 1, 81);
            }
        }
    }
}

/// Solve the board in place by iterative backtracking over its unknown
/// cells.
///
/// The board must be in its loaded state: digits in `0..=9`, no
/// constraint broken, every known cell holding a non-zero digit, and
/// every unknown cell empty. A `max_attempts` of `-1` disables the
/// budget; any other value caps the number of search steps. Whatever the
/// outcome, the known cells and their digits are untouched, every digit
/// stays in `0..=9`, and no row, column, or tile ever holds a duplicate
/// non-zero digit. On `Solved` the board is completely filled, so
/// together with the preserved flags it is a legal solution extending
/// the puzzle's known cells. On `Infeasible` no such solution exists at
/// all: the search is exhaustive, and retreating past the first unknown
/// cell means every assignment has been ruled out. A board with no
/// unknown cell is reported `Solved` at once, unchanged, whatever the
/// budget. The search always terminates, even with the budget disabled,
/// and is deterministic: outcome and final grid are exactly what
/// `solve_run` computes from the loaded state and the budget.
pub fn brute_force_solve(board: &mut Board, max_attempts: i32) -> (outcome: SolveOutcome)
    requires
        cells_in_range(old(board).cells()),
        consistent(old(board).cells()),
        knowns_filled(*old(board)),
        unknowns_empty(*old(board)),
    ensures
        keeps_known_cells(*old(board), *final(board)),
        cells_in_range(final(board).cells()),
        consistent(final(board).cells()),
        outcome == SolveOutcome::Solved ==> complete(final(board).cells()),
        outcome == SolveOutcome::BudgetExhausted ==> max_attempts != -1,
        outcome == SolveOutcome::Infeasible ==> forall|s: Seq<u32>| !is_solution(s, *old(board)),
        all_known(*old(board)) ==> outcome == SolveOutcome::Solved
            && final(board).cells() == old(board).cells(),
        spec_first_unknown(old(board).knowns()) < 81 ==> (outcome, final(board).cells())
            == solve_run(
            old(board).cells(),
            old(board).knowns(),
            spec_first_unknown(old(board).knowns()),
            0,
            max_attempts as int,
        ),
{
    let mut idx: usize = if board.index_is_known(0) {
        let first = next_unknown_square(0, board);
        proof {
            lemma_spec_next_unknown_char(board.knowns(), 1, first as int);
        }
        first
    } else {
        0
    };
    assert(spec_first_unknown(board.knowns()) == idx as int);
    if idx == 81 {
        proof {
            assert forall|i: int| 0 <= i < 81 implies 1 <= #[trigger] board.cells()[i] <= 9 by {
                assert(board.knowns()[i]);
                assert(board.cells()[i] != 0);
            }
        }
        return SolveOutcome::Solved;
    }
    proof {
        assert forall|s: Seq<u32>| #[trigger] is_solution(s, *old(board))
            implies solution_exceeds(s, board.cells(), board.knowns(), idx as int) by {
            assert(!board.knowns()[idx as int]);
            assert(board.cells()[idx as int] == 0);
            assert(s[idx as int] >= 1);
            assert forall|i: int| 0 <= i < idx as int implies #[trigger] board.knowns()[i] by {
            }
            assert(agrees_on_unknowns_below(s, board.cells(), board.knowns(), idx as int));
        }
    }
    let mut attempts: i32 = 0;
    let ghost mut steps: int = 0;
    loop
        invariant
            idx < 81,
            !board.knowns()[idx as int],
            cells_in_range(board.cells()),
            consistent(board.cells()),
            keeps_known_cells(*old(board), *board),
            knowns_filled(*old(board)),
            forall|j: int| 0 <= j < idx && !(#[trigger] board.knowns()[j])
                ==> board.cells()[j] != 0,
            forall|j: int| idx < j < 81 && !(#[trigger] board.knowns()[j])
                ==> board.cells()[j] == 0,
            forall|s: Seq<u32>| #[trigger] is_solution(s, *old(board))
                ==> solution_exceeds(s, board.cells(), board.knowns(), idx as int),
            solve_run(board.cells(), board.knowns(), idx as int, steps, max_attempts as int)
                == solve_run(
                old(board).cells(),
                old(board).knowns(),
                spec_first_unknown(old(board).knowns()),
                0,
                max_attempts as int,
            ),
            0 <= attempts,
            max_attempts != -1 ==> attempts == steps,
            max_attempts != -1 ==> attempts == 0 || attempts < max_attempts,
        decreases search_measure(board.cells(), idx as int),
    {
        let ghost s1 = board.cells();
        let ghost i1 = idx as int;
        let ghost maxi = max_attempts as int;
        let num = next_valid_number(idx, board);
        proof {
            lemma_spec_next_valid_char(s1, i1, s1[i1] + 1, num);
        }
        board.set_index(idx, num);
        if num != 0 {
            proof {
                lemma_insert_keeps_consistent(s1, i1 / 9, i1 % 9, num);
                assert((i1 / 9) * 9 + i1 % 9 == i1);
                assert(board.cells() == s1.update(i1, num));
            }
            let next = next_unknown_square(idx, board);
            proof {
                lemma_spec_next_unknown_char(board.knowns(), i1 + 1, next as int);
            }
            if next == 81 {
                proof {
                    assert(solve_run(s1, board.knowns(), i1, steps, maxi)
                        == (SolveOutcome::Solved, board.cells()));
                    assert forall|i: int| 0 <= i < 81 implies 1 <= #[trigger] board.cells()[i] <= 9 by {
                        if i == i1 {
                        } else {
                            assert(board.cells()[i] == s1[i]);
                            if board.knowns()[i] {
                                assert(old(board).knowns()[i]);
                                assert(board.cells()[i] == old(board).cells()[i]);
                            } else {
                                assert(i < i1);
                            }
                        }
                    }
                }
                return SolveOutcome::Solved;
            }
            proof {
                let s2 = board.cells();
                let i2 = next as int;
                assert forall|k: int| 0 <= k < i1
                    implies #[trigger] measure_digit(s1, i1, k) == measure_digit(s2, i2, k) by {
                    assert(s2[k] == s1[k]);
                }
                assert(s1[i1] <= 9);
                assert(measure_digit(s2, i2, i1) < measure_digit(s1, i1, i1));
                lemma_measure_decreases(s1, i1, s2, i2, i1, 81);
                if maxi != -1 && steps + 1 >= maxi {
                    assert(solve_run(s1, board.knowns(), i1, steps, maxi)
                        == (SolveOutcome::BudgetExhausted, s2));
                } else {
                    assert(solve_run(s1, board.knowns(), i1, steps, maxi)
                        == solve_run(s2, board.knowns(), i2, steps + 1, maxi));
                }
                let kn = board.knowns();
                assert forall|s: Seq<u32>| #[trigger] is_solution(s, *old(board))
                    implies solution_exceeds(s, s2, kn, i2) by {
                    assert forall|i: int| 0 <= i < 81 && #[trigger] kn[i] implies s[i] == s1[i] by {
                        assert(old(board).knowns()[i]);
                        assert(s[i] == old(board).cells()[i]);
                        assert(s1[i] == old(board).cells()[i]);
                    }
                    lemma_exceeds_after_insert(s, s1, kn, i1, num, i2);
                }
            }
            idx = next;
        } else {
            proof {
                lemma_clear_keeps_consistent(s1, i1 / 9, i1 % 9);
                assert((i1 / 9) * 9 + i1 % 9 == i1);
                assert(board.cells() == s1.update(i1, 0));
            }
            if idx == 0 {
                proof {
                    assert(solve_run(s1, board.knowns(), i1, steps, maxi)
                        == (SolveOutcome::Infeasible, board.cells()));
                    let kn = board.knowns();
                    assert forall|s: Seq<u32>| !(#[trigger] is_solution(s, *old(board))) by {
                        if is_solution(s, *old(board)) {
                            assert forall|i: int|
                                0 <= i < 81 && #[trigger] kn[i] implies s[i] == s1[i] by {
                                assert(old(board).knowns()[i]);
                                assert(s[i] == old(board).cells()[i]);
                                assert(s1[i] == old(board).cells()[i]);
                            }
                            lemma_exhausted_at_first_unknown(s, s1, kn, i1);
                            assert(solution_exceeds(s, s1, kn, i1));
                            assert(false);
                        }
                    }
                }
                return SolveOutcome::Infeasible;
            }
            let prev = prev_unknown_square(idx, board);
            if board.index_is_known(prev) {
                proof {
                    let kn = board.knowns();
                    assert forall|j: int| 0 <= j < i1 implies #[trigger] kn[j] by {
                        if !kn[j] {
                            assert(0 <= j < i1 && !board.knowns()[j]);
                            assert(!board.knowns()[prev as int]);
                            assert(false);
                        }
                    }
                    assert forall|s: Seq<u32>| !(#[trigger] is_solution(s, *old(board))) by {
                        if is_solution(s, *old(board)) {
                            assert forall|i: int|
                                0 <= i < 81 && #[trigger] kn[i] implies s[i] == s1[i] by {
                                assert(old(board).knowns()[i]);
                                assert(s[i] == old(board).cells()[i]);
                                assert(s1[i] == old(board).cells()[i]);
                            }
                            lemma_exhausted_at_first_unknown(s, s1, kn, i1);
                            assert(solution_exceeds(s, s1, kn, i1));
                            assert(false);
                        }
                    }
                    lemma_spec_prev_unknown_none(kn, i1);
                    assert(solve_run(s1, kn, i1, steps, maxi)
                        == (SolveOutcome::Infeasible, board.cells()));
                }
                return SolveOutcome::Infeasible;
            }
            proof {
                let s2 = board.cells();
                let i2 = prev as int;
                lemma_spec_prev_unknown_char(board.knowns(), i1, i2);
                assert forall|k: int| 0 <= k < i2 + 1
                    implies #[trigger] measure_digit(s1, i1, k) == measure_digit(s2, i2, k) by {
                    assert(s2[k] == s1[k]);
                }
                assert(s1[i2 + 1] <= 9);
                assert(measure_digit(s1, i1, i2 + 1) >= 1);
                assert(measure_digit(s2, i2, i2 + 1) == 0);
                lemma_measure_decreases(s1, i1, s2, i2, i2 + 1, 81);
                let kn = board.knowns();
                assert(0 <= i2 < i1 && !kn[i2]);
                if maxi != -1 && steps + 1 >= maxi {
                    assert(solve_run(s1, kn, i1, steps, maxi)
                        == (SolveOutcome::BudgetExhausted, s2));
                } else {
                    assert(solve_run(s1, kn, i1, steps, maxi)
                        == solve_run(s2, kn, i2, steps + 1, maxi));
                }
                assert forall|s: Seq<u32>| #[trigger] is_solution(s, *old(board))
                    implies solution_exceeds(s, s2, kn, i2) by {
                    assert forall|i: int| 0 <= i < 81 && #[trigger] kn[i] implies s[i] == s1[i] by {
                        assert(old(board).knowns()[i]);
                        assert(s[i] == old(board).cells()[i]);
                        assert(s1[i] == old(board).cells()[i]);
                    }
                    lemma_exceeds_after_clear(s, s1, kn, i1, i2);
                }
            }
            idx = prev;
        }
        if max_attempts != -1 {
            attempts = attempts + 1;
            if attempts >= max_attempts {
                return SolveOutcome::BudgetExhausted;
            }
        }
        proof {
            steps = steps + 1;
        }
    }
}

} // verus!
