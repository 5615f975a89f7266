use rudoku::board::{BoardState, CellState};

fn board_from(rows: [[u8; 9]; 9]) -> BoardState {
    let mut b = BoardState::new();
    for r in 0..9u8 {
        for c in 0..9u8 {
            b.set(r, c, CellState::new(rows[r as usize][c as usize]));
        }
    }
    b
}

const PUZZLE: [[u8; 9]; 9] = [
    [5, 3, 0, 0, 7, 0, 0, 0, 0],
    [6, 0, 0, 1, 9, 5, 0, 0, 0],
    [0, 9, 8, 0, 0, 0, 0, 6, 0],
    [8, 0, 0, 0, 6, 0, 0, 0, 3],
    [4, 0, 0, 8, 0, 3, 0, 0, 1],
    [7, 0, 0, 0, 2, 0, 0, 0, 6],
    [0, 6, 0, 0, 0, 0, 2, 8, 0],
    [0, 0, 0, 4, 1, 9, 0, 0, 5],
    [0, 0, 0, 0, 8, 0, 0, 7, 9],
];

const SOLUTION: [[u8; 9]; 9] = [
    [5, 3, 4, 6, 7, 8, 9, 1, 2],
    [6, 7, 2, 1, 9, 5, 3, 4, 8],
    [1, 9, 8, 3, 4, 2, 5, 6, 7],
    [8, 5, 9, 7, 6, 1, 4, 2, 3],
    [4, 2, 6, 8, 5, 3, 7, 9, 1],
    [7, 1, 3, 9, 2, 4, 8, 5, 6],
    [9, 6, 1, 5, 3, 7, 2, 8, 4],
    [2, 8, 7, 4, 1, 9, 6, 3, 5],
    [3, 4, 5, 2, 8, 6, 1, 7, 9],
];

#[test]
fn empty_board_is_solvable() {
    let b = BoardState::new();
    let sol = b.solve().expect("an empty board has a completion");
    assert!(sol.check());
    for r in 0..9 {
        for c in 0..9 {
            let d = sol.get(r, c).digit();
            assert!((1..=9).contains(&d));
        }
    }
}

#[test]
fn known_puzzle_yields_known_solution() {
    let b = board_from(PUZZLE);
    assert!(b.check());
    let sol = b.solve().expect("the standard puzzle is solvable");
    for r in 0..9 {
        for c in 0..9 {
            assert_eq!(sol.get(r, c).digit(), SOLUTION[r][c]);
        }
    }
}

#[test]
fn solution_preserves_clues_and_fills_everything() {
    let b = board_from(PUZZLE);
    let sol = b.solve().expect("the standard puzzle is solvable");
    assert!(sol.check());
    for r in 0..9 {
        for c in 0..9 {
            assert!(!sol.get(r, c).is_empty());
            let clue = b.get(r, c).digit();
            if clue != 0 {
                assert_eq!(sol.get(r, c).digit(), clue);
            }
        }
    }
    // The receiver is untouched: it still has its empty cells.
    assert!(b.get(0, 2).is_empty());
}

#[test]
fn resolving_a_solved_board_returns_it_unchanged() {
    let solved = board_from(SOLUTION);
    let again = solved.solve().expect("a complete valid board solves to itself");
    assert_eq!(again, solved);
}

#[test]
fn cleared_cell_of_solved_board_is_restored() {
    let mut b = board_from(SOLUTION);
    b.set(4, 4, CellState::new(0));
    assert!(b.get(4, 4).is_empty());
    assert!(b.solvable());
    let sol = b.solve().expect("one cleared cell leaves the board solvable");
    assert_eq!(sol.get(4, 4).digit(), SOLUTION[4][4]);
    assert_eq!(sol, board_from(SOLUTION));
}

#[test]
fn invalid_board_yields_no_solution() {
    let mut b = board_from(PUZZLE);
    // A second 5 in row 0 contradicts the clue at (0, 0).
    b.set(0, 8, CellState::new(5));
    assert!(!b.check());
    assert!(b.solve().is_none());
    assert!(!b.solvable());
}

#[test]
fn unsatisfiable_cell_yields_no_solution() {
    // Row 0 holds 1..=8 and column 8 already holds a 9 lower down, so the
    // cell at (0, 8) has no digit left; the board is valid but unsolvable.
    let mut b = BoardState::new();
    for c in 0..8u8 {
        b.set(0, c, CellState::new(c + 1));
    }
    b.set(5, 8, CellState::new(9));
    assert!(b.check());
    assert!(b.solve().is_none());
    assert!(!b.solvable());
}
