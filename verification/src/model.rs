//! The mathematical model of a Sudoku board.
//!
//! A board is a sequence of 81 cells in row-major order; a cell is `None`
//! (empty) or `Some(d)` with a digit `d` in `1..=9`. The predicates here
//! define structural validity (no duplicate digit in a row, column or 3x3
//! box), completion, and what counts as a solution of a board; the lemmas
//! state the laws the solver rests on.

use vstd::prelude::*;

verus! {

/// A cell holds no digit or one digit in `1..=9`.
pub open spec fn cell_wf(c: Option<u8>) -> bool {
    c matches Some(d) ==> 1 <= d <= 9
}

/// A well-formed grid: 81 cells, each well formed.
pub open spec fn grid_wf(g: Seq<Option<u8>>) -> bool {
    &&& g.len() == 81
    &&& forall|i: int| 0 <= i < 81 ==> cell_wf(#[trigger] g[i])
}

/// The cell of `g` at row `r`, column `c` (row-major layout).
pub open spec fn cell_at(g: Seq<Option<u8>>, r: int, c: int) -> Option<u8> {
    g[r * 9 + c]
}

/// Two cells hold the same non-empty digit.
pub open spec fn clash(a: Option<u8>, b: Option<u8>) -> bool {
    a is Some && a == b
}

/// No two cells of the sequence hold the same non-empty digit.
pub open spec fn no_dups(cells: Seq<Option<u8>>) -> bool {
    forall|i: int, j: int|
        #![trigger cells[i], cells[j]]
        0 <= i < j < cells.len() ==> !clash(cells[i], cells[j])
}

/// Row `r` contains no duplicate non-empty digit.
pub open spec fn row_ok(g: Seq<Option<u8>>, r: int) -> bool {
    forall|c1: int, c2: int|
        #![trigger cell_at(g, r, c1), cell_at(g, r, c2)]
        0 <= c1 < c2 < 9 ==> !clash(cell_at(g, r, c1), cell_at(g, r, c2))
}

/// Column `c` contains no duplicate non-empty digit.
pub open spec fn col_ok(g: Seq<Option<u8>>, c: int) -> bool {
    forall|r1: int, r2: int|
        #![trigger cell_at(g, r1, c), cell_at(g, r2, c)]
        0 <= r1 < r2 < 9 ==> !clash(cell_at(g, r1, c), cell_at(g, r2, c))
}

/// The `k`-th cell (row-major within the box) of box `b`, where boxes are
/// numbered `0..9` row-major: box `b` spans rows `(b / 3) * 3 ..` and
/// columns `(b % 3) * 3 ..`.
pub open spec fn box_cell(g: Seq<Option<u8>>, b: int, k: int) -> Option<u8> {
    cell_at(g, (b / 3) * 3 + k / 3, (b % 3) * 3 + k % 3)
}

/// Box `b` contains no duplicate non-empty digit.
pub open spec fn box_ok(g: Seq<Option<u8>>, b: int) -> bool {
    forall|k1: int, k2: int|
        #![trigger box_cell(g, b, k1), box_cell(g, b, k2)]
        0 <= k1 < k2 < 9 ==> !clash(box_cell(g, b, k1), box_cell(g, b, k2))
}

/// Structural validity: no row, column, or 3x3 box contains two cells with
/// the same non-empty digit. Empty cells never count as duplicates, so a
/// partially filled, consistent grid is valid.
pub open spec fn valid(g: Seq<Option<u8>>) -> bool {
    &&& forall|r: int| 0 <= r < 9 ==> #[trigger] row_ok(g, r)
    &&& forall|c: int| 0 <= c < 9 ==> #[trigger] col_ok(g, c)
    &&& forall|b: int| 0 <= b < 9 ==> #[trigger] box_ok(g, b)
}

/// Every cell is filled.
pub open spec fn complete(g: Seq<Option<u8>>) -> bool {
    forall|i: int| 0 <= i < 81 ==> (#[trigger] g[i]) is Some
}

/// `s` agrees with `b` on every cell that is non-empty in `b`: `s` is
/// reachable from `b` by filling empty cells only.
pub open spec fn extends(b: Seq<Option<u8>>, s: Seq<Option<u8>>) -> bool {
    forall|i: int| 0 <= i < 81 && (#[trigger] b[i]) is Some ==> s[i] == b[i]
}

/// `s` is a solution of `b`: a well-formed, fully filled, structurally
/// valid grid that keeps every originally non-empty cell of `b`.
pub open spec fn is_solution(b: Seq<Option<u8>>, s: Seq<Option<u8>>) -> bool {
    &&& grid_wf(s)
    &&& complete(s)
    &&& valid(s)
    &&& extends(b, s)
}

/// Some assignment of digits to the empty cells of `b` yields a
/// structurally valid, fully filled grid.
pub open spec fn solvable(b: Seq<Option<u8>>) -> bool {
    exists|s: Seq<Option<u8>>| is_solution(b, s)
}

/// The number of empty cells among the first `n` cells of `g`.
pub open spec fn empties_upto(g: Seq<Option<u8>>, n: int) -> nat
    decreases n,
{
    if n <= 0 {
        0
    } else {
        empties_upto(g, n - 1) + (if g[n - 1] is None { 1nat } else { 0nat })
    }
}

/// The number of empty cells of `g`.
pub open spec fn empties(g: Seq<Option<u8>>) -> nat {
    empties_upto(g, 81)
}

proof fn lemma_empties_upto_update(g: Seq<Option<u8>>, i: int, v: Option<u8>, n: int)
    requires
        0 <= i < g.len(),
        g[i] is None,
        v is Some,
        n <= g.len(),
    ensures
        i < n ==> empties_upto(g.update(i, v), n) + 1 == empties_upto(g, n),
        n <= i ==> empties_upto(g.update(i, v), n) == empties_upto(g, n),
    decreases n,
{
    if n > 0 {
        lemma_empties_upto_update(g, i, v, n - 1);
        if i == n - 1 {
            assert(g.update(i, v)[n - 1] == v);
        } else {
            assert(g.update(i, v)[n - 1] == g[n - 1]);
        }
    }
}

/// Filling an empty cell reduces the count of empty cells by exactly one.
pub proof fn lemma_empties_update(g: Seq<Option<u8>>, i: int, d: u8)
    requires
        g.len() == 81,
        0 <= i < 81,
        g[i] is None,
    ensures
        empties(g.update(i, Some(d))) + 1 == empties(g),
{
    lemma_empties_upto_update(g, i, Some(d), 81);
}

/// A structurally invalid board has no solution: a solution keeps every
/// non-empty cell, so a duplicate pair in the board survives in any
/// completion and makes it invalid too.
pub proof fn lemma_invalid_unsolvable(b: Seq<Option<u8>>)
    requires
        b.len() == 81,
        !valid(b),
    ensures
        !solvable(b),
{
    assert forall|s: Seq<Option<u8>>| !is_solution(b, s) by {
        if is_solution(b, s) {
            if !(forall|r: int| 0 <= r < 9 ==> #[trigger] row_ok(b, r)) {
                let r = choose|r: int| 0 <= r < 9 && !row_ok(b, r);
                let (c1, c2) = choose|c1: int, c2: int|
                    0 <= c1 < c2 < 9 && clash(cell_at(b, r, c1), cell_at(b, r, c2));
                assert(cell_at(b, r, c1) == b[r * 9 + c1]);
                assert(cell_at(b, r, c2) == b[r * 9 + c2]);
                assert(s[r * 9 + c1] == b[r * 9 + c1]);
                assert(s[r * 9 + c2] == b[r * 9 + c2]);
                assert(clash(cell_at(s, r, c1), cell_at(s, r, c2)));
                assert(!row_ok(s, r));
                assert(false);
            } else if !(forall|c: int| 0 <= c < 9 ==> #[trigger] col_ok(b, c)) {
                let c = choose|c: int| 0 <= c < 9 && !col_ok(b, c);
                let (r1, r2) = choose|r1: int, r2: int|
                    0 <= r1 < r2 < 9 && clash(cell_at(b, r1, c), cell_at(b, r2, c));
                assert(cell_at(b, r1, c) == b[r1 * 9 + c]);
                assert(cell_at(b, r2, c) == b[r2 * 9 + c]);
                assert(s[r1 * 9 + c] == b[r1 * 9 + c]);
                assert(s[r2 * 9 + c] == b[r2 * 9 + c]);
                assert(clash(cell_at(s, r1, c), cell_at(s, r2, c)));
                assert(!col_ok(s, c));
                assert(false);
            } else {
                let bx = choose|bx: int| 0 <= bx < 9 && !box_ok(b, bx);
                let (k1, k2) = choose|k1: int, k2: int|
                    0 <= k1 < k2 < 9 && clash(box_cell(b, bx, k1), box_cell(b, bx, k2));
                let r1 = (bx / 3) * 3 + k1 / 3;
                let c1 = (bx % 3) * 3 + k1 % 3;
                let r2 = (bx / 3) * 3 + k2 / 3;
                let c2 = (bx % 3) * 3 + k2 % 3;
                assert(0 <= r1 < 9 && 0 <= c1 < 9 && 0 <= r2 < 9 && 0 <= c2 < 9);
                assert(box_cell(b, bx, k1) == b[r1 * 9 + c1]);
                assert(box_cell(b, bx, k2) == b[r2 * 9 + c2]);
                assert(s[r1 * 9 + c1] == b[r1 * 9 + c1]);
                assert(s[r2 * 9 + c2] == b[r2 * 9 + c2]);
                assert(clash(box_cell(s, bx, k1), box_cell(s, bx, k2)));
                assert(!box_ok(s, bx));
                assert(false);
            }
        }
    }
}

/// Pinning an empty cell of `b` to the digit a solution `s` gives it keeps
/// `s` a solution.
pub proof fn lemma_solution_of_set(b: Seq<Option<u8>>, s: Seq<Option<u8>>, i: int, d: u8)
    requires
        b.len() == 81,
        0 <= i < 81,
        is_solution(b, s),
        s[i] == Some(d),
    ensures
        is_solution(b.update(i, Some(d)), s),
{
    let b2 = b.update(i, Some(d));
    assert forall|j: int| 0 <= j < 81 && (#[trigger] b2[j]) is Some implies s[j] == b2[j] by {
        if j != i {
            assert(b2[j] == b[j]);
        }
    }
}

/// A solution of `b` with one cell pinned is a solution of `b` itself.
pub proof fn lemma_solution_unset(b: Seq<Option<u8>>, s: Seq<Option<u8>>, i: int, d: u8)
    requires
        b.len() == 81,
        0 <= i < 81,
        b[i] is None,
        is_solution(b.update(i, Some(d)), s),
    ensures
        is_solution(b, s),
{
    let b2 = b.update(i, Some(d));
    assert forall|j: int| 0 <= j < 81 && (#[trigger] b[j]) is Some implies s[j] == b[j] by {
        assert(j != i);
        assert(b2[j] == b[j]);
        assert(s[j] == b2[j]);
    }
}

/// Re-solving a solved board changes nothing: a complete board is its own
/// only solution, so a solution of a solution is that solution itself.
pub proof fn lemma_solve_idempotent(b: Seq<Option<u8>>, s: Seq<Option<u8>>, t: Seq<Option<u8>>)
    requires
        is_solution(b, s),
        is_solution(s, t),
    ensures
        t == s,
{
    assert forall|i: int| 0 <= i < 81 implies t[i] == s[i] by {
        assert(s[i] is Some);
    }
    assert(t =~= s);
}

} // verus!
