//! The executable board: cells, mutation, validity checking and the
//! backtracking solver, verified against the model in [`crate::model`].

use vstd::prelude::*;

use crate::model::{
    box_cell, box_ok, cell_at, cell_wf, clash, col_ok, complete, empties, grid_wf, is_solution,
    lemma_empties_update, lemma_invalid_unsolvable, lemma_solution_of_set, lemma_solution_unset,
    no_dups, row_ok, solvable, valid,
};

verus! {

/// One grid position's content: empty, or a digit in `1..=9`.
#[derive(Clone, Copy, Debug, PartialEq, Eq)]
pub struct CellState(Option<u8>);

impl View for CellState {
    type V = Option<u8>;

    closed spec fn view(&self) -> Option<u8> {
        self.0
    }
}

impl CellState {
    /// The digit, when present, is in `1..=9`.
    pub open spec fn wf(self) -> bool {
        cell_wf(self@)
    }

    /// An empty cell.
    pub fn empty() -> (r: CellState)
        ensures
            r@ is None,
    {
        CellState(None)
    }

    /// Builds a cell from a raw digit: 0 means empty, 1..=9 that digit.
    pub fn new(value: u8) -> (r: CellState)
        requires
            value <= 9,
        ensures
            r@ == (if value == 0 { None::<u8> } else { Some(value) }),
            r.wf(),
    {
        if value == 0 {
            CellState(None)
        } else {
            CellState(Some(value))
        }
    }

    /// True iff the cell holds no digit.
    pub fn is_empty(&self) -> (r: bool)
        ensures
            r == (self@ is None),
    {
        self.0.is_none()
    }

    /// The cell's digit, with 0 standing for empty.
    pub fn digit(&self) -> (d: u8)
        ensures
            self@ matches Some(v) ==> d == v,
            self@ is None ==> d == 0,
    {
        match self.0 {
            Some(v) => v,
            None => 0,
        }
    }

    /// True iff both cells hold the same non-empty digit.
    pub fn clashes(&self, other: &CellState) -> (r: bool)
        ensures
            r == clash(self@, other@),
    {
        match (self.0, other.0) {
            (Some(a), Some(b)) => a == b,
            _ => false,
        }
    }
}

impl Default for CellState {
    /// A fresh cell is empty.
    fn default() -> (r: CellState)
        ensures
            r@ is None,
    {
        CellState(None)
    }
}

/// The content of a sequence of cells, as the model sees it.
pub open spec fn cells_view(cells: Seq<CellState>) -> Seq<Option<u8>> {
    cells.map_values(|c: CellState| c@)
}

/// True iff no two cells of `data` hold the same non-empty digit.
fn unique(data: &Vec<CellState>) -> (r: bool)
    ensures
        r == no_dups(cells_view(data@)),
{
    let n = data.len();
    let mut i: usize = 0;
    while i < n
        invariant
            n == data@.len(),
            i <= n,
            forall|a: int, b: int|
                #![trigger cells_view(data@)[a], cells_view(data@)[b]]
                0 <= a < b < n && a < i ==> !clash(cells_view(data@)[a], cells_view(data@)[b]),
        decreases n - i,
    {
        let mut j: usize = i + 1;
        while j < n
            invariant
                n == data@.len(),
                i < n,
                i + 1 <= j <= n,
                forall|a: int, b: int|
                    #![trigger cells_view(data@)[a], cells_view(data@)[b]]
                    0 <= a < b < n && a < i ==> !clash(cells_view(data@)[a], cells_view(data@)[b]),
                forall|b: int|
                    i < b < j ==> !clash(
                        cells_view(data@)[i as int],
                        #[trigger] cells_view(data@)[b],
                    ),
            decreases n - j,
        {
            if data[i].clashes(&data[j]) {
                proof {
                    assert(clash(cells_view(data@)[i as int], cells_view(data@)[j as int]));
                }
                return false;
            }
            j += 1;
        }
        i += 1;
    }
    true
}

/// The full 9x9 grid of cells, stored flat in row-major order.
#[derive(Debug, PartialEq, Eq)]
pub struct BoardState {
    cells: Vec<CellState>,
}

impl View for BoardState {
    type V = Seq<Option<u8>>;

    closed spec fn view(&self) -> Seq<Option<u8>> {
        cells_view(self.cells@)
    }
}

impl BoardState {
    /// 81 well-formed cells.
    pub open spec fn wf(&self) -> bool {
        grid_wf(self@)
    }

    /// A board with every cell empty.
    pub fn new() -> (r: BoardState)
        ensures
            r.wf(),
            forall|i: int| 0 <= i < 81 ==> (#[trigger] r@[i]) is None,
    {
        let mut cells: Vec<CellState> = Vec::new();
        let mut i: usize = 0;
        while i < 81
            invariant
                i <= 81,
                cells@.len() == i,
                forall|j: int| 0 <= j < i ==> (#[trigger] cells@[j])@ is None,
            decreases 81 - i,
        {
            cells.push(CellState::empty());
            i += 1;
        }
        BoardState { cells }
    }

    /// Reads the cell at (`row`, `col`).
    pub fn get(&self, row: usize, col: usize) -> (r: CellState)
        requires
            self.wf(),
            row < 9,
            col < 9,
        ensures
            r@ == cell_at(self@, row as int, col as int),
    {
        self.cells[row * 9 + col]
    }

    /// The 9 cells of row `r`, left to right.
    fn row(&self, r: usize) -> (v: Vec<CellState>)
        requires
            self.wf(),
            r < 9,
        ensures
            v@.len() == 9,
            forall|c: int| 0 <= c < 9 ==> #[trigger] cells_view(v@)[c] == cell_at(self@, r as int, c),
    {
        let mut v: Vec<CellState> = Vec::new();
        let mut c: usize = 0;
        while c < 9
            invariant
                self.wf(),
                r < 9,
                c <= 9,
                v@.len() == c,
                forall|k: int| 0 <= k < c ==> (#[trigger] v@[k])@ == cell_at(self@, r as int, k),
            decreases 9 - c,
        {
            v.push(self.cells[r * 9 + c]);
            c += 1;
        }
        proof {
            assert forall|k: int| 0 <= k < 9 implies #[trigger] cells_view(v@)[k]
                == cell_at(self@, r as int, k) by {
                assert(v@[k]@ == cell_at(self@, r as int, k));
            }
        }
        v
    }

    /// The 9 cells of column `column`, top to bottom, gathered by striding
    /// across rows.
    fn column(&self, column: usize) -> (v: Vec<CellState>)
        requires
            self.wf(),
            column < 9,
        ensures
            v@.len() == 9,
            forall|r: int| 0 <= r < 9 ==> #[trigger] cells_view(v@)[r] == cell_at(self@, r, column as int),
    {
        let mut v: Vec<CellState> = Vec::new();
        let mut r: usize = 0;
        while r < 9
            invariant
                self.wf(),
                column < 9,
                r <= 9,
                v@.len() == r,
                forall|k: int| 0 <= k < r ==> (#[trigger] v@[k])@ == cell_at(self@, k, column as int),
            decreases 9 - r,
        {
            v.push(self.cells[r * 9 + column]);
            r += 1;
        }
        proof {
            assert forall|k: int| 0 <= k < 9 implies #[trigger] cells_view(v@)[k]
                == cell_at(self@, k, column as int) by {
                assert(v@[k]@ == cell_at(self@, k, column as int));
            }
        }
        v
    }

    /// The 9 cells of the 3x3 box whose top-left corner is (`row`, `col`),
    /// row-major within the box.
    fn square(&self, row: usize, col: usize) -> (v: Vec<CellState>)
        requires
            self.wf(),
            row <= 6,
            col <= 6,
        ensures
            v@.len() == 9,
            forall|k: int|
                0 <= k < 9 ==> #[trigger] cells_view(v@)[k] == cell_at(
                    self@,
                    row as int + k / 3,
                    col as int + k % 3,
                ),
    {
        let mut v: Vec<CellState> = Vec::new();
        let mut k: usize = 0;
        while k < 9
            invariant
                self.wf(),
                row <= 6,
                col <= 6,
                k <= 9,
                v@.len() == k,
                forall|m: int|
                    0 <= m < k ==> (#[trigger] v@[m])@ == cell_at(
                        self@,
                        row as int + m / 3,
                        col as int + m % 3,
                    ),
            decreases 9 - k,
        {
            let rr = row + k / 3;
            let cc = col + k % 3;
            v.push(self.cells[rr * 9 + cc]);
            k += 1;
        }
        proof {
            assert forall|m: int| 0 <= m < 9 implies #[trigger] cells_view(v@)[m]
                == cell_at(self@, row as int + m / 3, col as int + m % 3) by {
                assert(v@[m]@ == cell_at(self@, row as int + m / 3, col as int + m % 3));
            }
        }
        v
    }

    /// True iff no row contains a duplicate non-empty digit.
    fn check_rows(&self) -> (r: bool)
        requires
            self.wf(),
        ensures
            r == (forall|row: int| 0 <= row < 9 ==> #[trigger] row_ok(self@, row)),
    {
        let mut i: usize = 0;
        while i < 9
            invariant
                self.wf(),
                i <= 9,
                forall|rr: int| 0 <= rr < i ==> #[trigger] row_ok(self@, rr),
            decreases 9 - i,
        {
            let cells = self.row(i);
            if !unique(&cells) {
                proof {
                    let cv = cells_view(cells@);
                    let (a, b) = choose|a: int, b: int| 0 <= a < b < cv.len() && clash(cv[a], cv[b]);
                    assert(cv[a] == cell_at(self@, i as int, a));
                    assert(cv[b] == cell_at(self@, i as int, b));
                    assert(!row_ok(self@, i as int));
                }
                return false;
            }
            proof {
                assert forall|c1: int, c2: int|
                    0 <= c1 < c2 < 9 implies !clash(
                    cell_at(self@, i as int, c1),
                    cell_at(self@, i as int, c2),
                ) by {
                    assert(cells_view(cells@)[c1] == cell_at(self@, i as int, c1));
                    assert(cells_view(cells@)[c2] == cell_at(self@, i as int, c2));
                }
                assert(row_ok(self@, i as int));
            }
            i += 1;
        }
        true
    }

    /// True iff no column contains a duplicate non-empty digit.
    fn check_columns(&self) -> (r: bool)
        requires
            self.wf(),
        ensures
            r == (forall|col: int| 0 <= col < 9 ==> #[trigger] col_ok(self@, col)),
    {
        let mut i: usize = 0;
        while i < 9
            invariant
                self.wf(),
                i <= 9,
                forall|cc: int| 0 <= cc < i ==> #[trigger] col_ok(self@, cc),
            decreases 9 - i,
        {
            let cells = self.column(i);
            if !unique(&cells) {
                proof {
                    let cv = cells_view(cells@);
                    let (a, b) = choose|a: int, b: int| 0 <= a < b < cv.len() && clash(cv[a], cv[b]);
                    assert(cv[a] == cell_at(self@, a, i as int));
                    assert(cv[b] == cell_at(self@, b, i as int));
                    assert(!col_ok(self@, i as int));
                }
                return false;
            }
            proof {
                assert forall|r1: int, r2: int|
                    0 <= r1 < r2 < 9 implies !clash(
                    cell_at(self@, r1, i as int),
                    cell_at(self@, r2, i as int),
                ) by {
                    assert(cells_view(cells@)[r1] == cell_at(self@, r1, i as int));
                    assert(cells_view(cells@)[r2] == cell_at(self@, r2, i as int));
                }
                assert(col_ok(self@, i as int));
            }
            i += 1;
        }
        true
    }

    /// True iff no 3x3 box contains a duplicate non-empty digit.
    fn check_boxes(&self) -> (r: bool)
        requires
            self.wf(),
        ensures
            r == (forall|b: int| 0 <= b < 9 ==> #[trigger] box_ok(self@, b)),
    {
        let mut b: usize = 0;
        while b < 9
            invariant
                self.wf(),
                b <= 9,
                forall|bb: int| 0 <= bb < b ==> #[trigger] box_ok(self@, bb),
            decreases 9 - b,
        {
            let row = (b / 3) * 3;
            let col = (b % 3) * 3;
            let cells = self.square(row, col);
            proof {
                assert forall|k: int| 0 <= k < 9 implies #[trigger] cells_view(cells@)[k]
                    == box_cell(self@, b as int, k) by {
                    assert(cells_view(cells@)[k] == cell_at(self@, row as int + k / 3, col as int + k % 3));
                }
            }
            if !unique(&cells) {
                proof {
                    let cv = cells_view(cells@);
                    let (k1, k2) = choose|k1: int, k2: int|
                        0 <= k1 < k2 < cv.len() && clash(cv[k1], cv[k2]);
                    assert(cv[k1] == box_cell(self@, b as int, k1));
                    assert(cv[k2] == box_cell(self@, b as int, k2));
                    assert(!box_ok(self@, b as int));
                }
                return false;
            }
            proof {
                assert forall|k1: int, k2: int|
                    0 <= k1 < k2 < 9 implies !clash(
                    box_cell(self@, b as int, k1),
                    box_cell(self@, b as int, k2),
                ) by {
                    assert(cells_view(cells@)[k1] == box_cell(self@, b as int, k1));
                    assert(cells_view(cells@)[k2] == box_cell(self@, b as int, k2));
                }
                assert(box_ok(self@, b as int));
            }
            b += 1;
        }
        true
    }

    /// Structural validity: the grid, empty cells included, contains no
    /// duplicate non-empty digit within any row, any column, or any of the
    /// nine non-overlapping 3x3 boxes.
    pub fn check(&self) -> (r: bool)
        requires
            self.wf(),
        ensures
            r == valid(self@),
    {
        self.check_rows() && self.check_columns() && self.check_boxes()
    }

    /// Writes the cell at (`row`, `col`); every other cell is untouched.
    pub fn set(&mut self, row: u8, col: u8, n: CellState)
        requires
            old(self).wf(),
            row < 9,
            col < 9,
            n.wf(),
        ensures
            final(self).wf(),
            final(self)@ == old(self)@.update(row as int * 9 + col as int, n@),
    {
        let i: usize = row as usize * 9 + col as usize;
        self.cells.set(i, n);
        proof {
            assert(self@ =~= old(self)@.update(i as int, n@));
        }
    }

    /// Writes the cell at linear index `pos`, decomposed as
    /// `row = pos / 9`, `col = pos % 9`.
    pub fn set_pos(&mut self, pos: usize, n: CellState)
        requires
            old(self).wf(),
            pos < 81,
            n.wf(),
        ensures
            final(self).wf(),
            final(self)@ == old(self)@.update(pos as int, n@),
    {
        let row = pos / 9;
        let col = pos % 9;
        let i: usize = row * 9 + col;
        self.cells.set(i, n);
        proof {
            assert(i == pos);
            assert(self@ =~= old(self)@.update(pos as int, n@));
        }
    }

    /// The linear index of the first empty cell in row-major order, or
    /// `None` if every cell is filled.
    fn next_cell(&self) -> (r: Option<usize>)
        requires
            self.wf(),
        ensures
            r matches Some(i) ==> i < 81 && self@[i as int] is None && forall|j: int|
                0 <= j < i ==> (#[trigger] self@[j]) is Some,
            r is None ==> complete(self@),
    {
        let mut i: usize = 0;
        while i < 81
            invariant
                self.wf(),
                i <= 81,
                forall|j: int| 0 <= j < i ==> (#[trigger] self@[j]) is Some,
            decreases 81 - i,
        {
            if self.cells[i].is_empty() {
                return Some(i);
            }
            i += 1;
        }
        None
    }

    /// Attempts to complete the board by filling empty cells only, trying
    /// digits 1 through 9 in ascending order at the first empty cell (in
    /// row-major order) and backtracking on failure. Returns a completed,
    /// structurally valid board that keeps every originally non-empty
    /// cell, or `None` exactly when no such completion exists. The
    /// receiver is never mutated: the search works on copies.
    pub fn solve(&self) -> (r: Option<BoardState>)
        requires
            self.wf(),
        ensures
            r matches Some(sol) ==> sol.wf() && is_solution(self@, sol@),
            r is Some <==> solvable(self@),
        decreases empties(self@),
    {
        if !self.check() {
            proof {
                lemma_invalid_unsolvable(self@);
            }
            return None;
        }
        match self.next_cell() {
            None => {
                let sol = self.clone();
                proof {
                    assert(is_solution(self@, sol@));
                }
                Some(sol)
            },
            Some(i) => {
                let ghost b0 = self@;
                proof {
                    assert forall|s: Seq<Option<u8>>| #[trigger] is_solution(b0, s)
                        implies s[i as int] matches Some(e) && 1 <= e <= 9 by {
                        assert(s[i as int] is Some);
                        assert(cell_wf(s[i as int]));
                    }
                }
                let mut d: u8 = 1;
                while d <= 9
                    invariant
                        self.wf(),
                        self@ == b0,
                        i < 81,
                        b0[i as int] is None,
                        1 <= d <= 10,
                        forall|s: Seq<Option<u8>>| #[trigger] is_solution(b0, s)
                            ==> (s[i as int] matches Some(e) && d <= e <= 9),
                    decreases 10 - d,
                {
                    let mut trial = self.clone();
                    trial.set_pos(i, CellState::new(d));
                    proof {
                        lemma_empties_update(b0, i as int, d);
                        assert(empties(trial@) < empties(self@));
                    }
                    match trial.solve() {
                        Some(sol) => {
                            proof {
                                lemma_solution_unset(b0, sol@, i as int, d);
                            }
                            return Some(sol);
                        },
                        None => {
                            proof {
                                assert forall|s: Seq<Option<u8>>| #[trigger] is_solution(b0, s)
                                    implies s[i as int] matches Some(e) && d + 1 <= e <= 9 by {
                                    assert(s[i as int] matches Some(e) && d <= e <= 9);
                                    if s[i as int] == Some(d) {
                                        lemma_solution_of_set(b0, s, i as int, d);
                                        assert(is_solution(trial@, s));
                                        assert(solvable(trial@));
                                        assert(false);
                                    }
                                }
                            }
                        },
                    }
                    d = d + 1;
                }
                proof {
                    if solvable(b0) {
                        let s = choose|s: Seq<Option<u8>>| is_solution(b0, s);
                        assert(is_solution(b0, s));
                        assert(s[i as int] matches Some(e) && 10 <= e <= 9);
                        assert(false);
                    }
                }
                None
            },
        }
    }

    /// True iff `solve` would produce a completion of this board.
    pub fn solvable(&self) -> (r: bool)
        requires
            self.wf(),
        ensures
            r == solvable(self@),
    {
        self.solve().is_some()
    }
}

impl Clone for BoardState {
    /// A clone has exactly the same cell values.
    fn clone(&self) -> (r: BoardState)
        ensures
            r@ == self@,
    {
        let mut cells: Vec<CellState> = Vec::new();
        let mut i: usize = 0;
        while i < self.cells.len()
            invariant
                i <= self.cells@.len(),
                cells@.len() == i,
                forall|j: int| 0 <= j < i ==> cells@[j] == self.cells@[j],
            decreases self.cells@.len() - i,
        {
            cells.push(self.cells[i]);
            i += 1;
        }
        proof {
            assert(cells@ =~= self.cells@);
        }
        BoardState { cells }
    }
}

impl Default for BoardState {
    /// A fresh board is empty.
    fn default() -> (r: BoardState)
        ensures
            r.wf(),
            forall|i: int| 0 <= i < 81 ==> (#[trigger] r@[i]) is None,
    {
        BoardState::new()
    }
}

} // verus!
