use rudoku::board::{BoardState, CellState};

fn board_from(rows: [[u8; 9]; 9]) -> BoardState {
    let mut b = BoardState::new();
    for r in 0..9u8 {
        for c in 0..9u8 {
            b.set(r, c, CellState::new(rows[r as usize][c as usize]));
        }
    }
    b
}

#[test]
fn new_board_is_empty_and_valid() {
    let b = BoardState::new();
    for r in 0..9 {
        for c in 0..9 {
            assert!(b.get(r, c).is_empty());
            assert_eq!(b.get(r, c).digit(), 0);
        }
    }
    assert!(b.check());
}

#[test]
fn cell_from_zero_is_empty() {
    let c = CellState::new(0);
    assert!(c.is_empty());
    assert_eq!(c.digit(), 0);
}

#[test]
fn cell_from_digit_holds_it() {
    for d in 1..=9u8 {
        let c = CellState::new(d);
        assert!(!c.is_empty());
        assert_eq!(c.digit(), d);
    }
}

#[test]
fn set_then_clear_returns_cell_to_empty() {
    let mut b = BoardState::new();
    b.set(0, 0, CellState::new(5));
    assert_eq!(b.get(0, 0).digit(), 5);
    assert!(!b.get(0, 0).is_empty());
    b.set(0, 0, CellState::new(0));
    assert!(b.get(0, 0).is_empty());
    assert_eq!(b.get(0, 0).digit(), 0);
}

#[test]
fn set_pos_decomposes_linear_index() {
    let mut by_pos = BoardState::new();
    let mut by_coords = BoardState::new();
    by_pos.set_pos(10, CellState::new(7));
    by_coords.set(1, 1, CellState::new(7));
    assert_eq!(by_pos, by_coords);
    assert_eq!(by_pos.get(1, 1).digit(), 7);

    by_pos.set_pos(80, CellState::new(3));
    assert_eq!(by_pos.get(8, 8).digit(), 3);
}

#[test]
fn duplicate_in_row_is_invalid() {
    let mut b = BoardState::new();
    b.set(0, 0, CellState::new(5));
    b.set(0, 1, CellState::new(5));
    assert!(!b.check());
    assert!(b.solve().is_none());
    assert!(!b.solvable());
}

#[test]
fn duplicate_in_column_is_invalid() {
    let mut b = BoardState::new();
    b.set(0, 3, CellState::new(9));
    b.set(7, 3, CellState::new(9));
    assert!(!b.check());
}

#[test]
fn duplicate_in_box_is_invalid() {
    let mut b = BoardState::new();
    b.set(0, 0, CellState::new(4));
    b.set(1, 1, CellState::new(4));
    assert!(!b.check());
}

#[test]
fn consistent_partial_board_is_valid() {
    // The same digit may repeat on a diagonal of distinct boxes.
    let mut b = BoardState::new();
    b.set(0, 0, CellState::new(5));
    b.set(3, 3, CellState::new(5));
    b.set(6, 6, CellState::new(5));
    b.set(0, 8, CellState::new(1));
    assert!(b.check());
}

#[test]
fn full_valid_grid_checks_out() {
    let solved = [
        [5, 3, 4, 6, 7, 8, 9, 1, 2],
        [6, 7, 2, 1, 9, 5, 3, 4, 8],
        [1, 9, 8, 3, 4, 2, 5, 6, 7],
        [8, 5, 9, 7, 6, 1, 4, 2, 3],
        [4, 2, 6, 8, 5, 3, 7, 9, 1],
        [7, 1, 3, 9, 2, 4, 8, 5, 6],
        [9, 6, 1, 5, 3, 7, 2, 8, 4],
        [2, 8, 7, 4, 1, 9, 6, 3, 5],
        [3, 4, 5, 2, 8, 6, 1, 7, 9],
    ];
    let b = board_from(solved);
    assert!(b.check());
    let mut spoiled = board_from(solved);
    spoiled.set(8, 8, CellState::new(1));
    assert!(!spoiled.check());
}
