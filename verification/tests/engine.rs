use std::time::Instant;
use tictactoe_logic::grid::{FieldStates, Grid};
use tictactoe_logic::minimax::MiniMax;

#[test]
fn test_immediate_win() {
    let mut grid = Grid::new(3, 3);
    grid.set(0, 0, FieldStates::Player2);
    grid.set(1, 1, FieldStates::Player2);
    grid.set(0, 1, FieldStates::Player1);
    grid.set(0, 2, FieldStates::Player1);

    let mut minimax = MiniMax::new(&grid);
    let result = minimax.calculate(FieldStates::Player2);
    assert_eq!(result.get(2, 2), Some(&FieldStates::Player2));
}

#[test]
fn test_block_opponent_win() {
    let mut grid = Grid::new(3, 3);
    grid.set(0, 0, FieldStates::Player1);
    grid.set(1, 1, FieldStates::Player1);

    let mut minimax = MiniMax::new(&grid);
    let result = minimax.calculate(FieldStates::Player2);

    assert_eq!(result.get(2, 2), Some(&FieldStates::Player2));
}

#[test]
fn test_empty_board() {
    let grid = Grid::new(3, 3);
    let mut minimax = MiniMax::new(&grid);
    let result = minimax.calculate(FieldStates::Player2);

    // The first move should be in a corner or center for optimal play
    let corner_or_center = vec![(0, 0), (0, 2), (2, 0), (2, 2), (1, 1)];
    let first_move = corner_or_center
        .iter()
        .any(|&(x, y)| result.get(x, y) == Some(&FieldStates::Player2));
    assert!(first_move);
}

#[test]
fn test_prefer_win_over_block() {
    let mut grid = Grid::new(3, 3);
    grid.set(0, 0, FieldStates::Player2);
    grid.set(1, 1, FieldStates::Player2);
    grid.set(0, 1, FieldStates::Player1);
    grid.set(0, 2, FieldStates::Player1);
    grid.set(1, 0, FieldStates::Player1);

    let mut minimax = MiniMax::new(&grid);
    let result = minimax.calculate(FieldStates::Player2);

    // Player2 should choose to win rather than block
    assert_eq!(result.get(2, 2), Some(&FieldStates::Player2));
}

#[test]
fn test_tie_game() {
    let mut grid = Grid::new(3, 3);
    grid.set(0, 0, FieldStates::Player1);
    grid.set(0, 1, FieldStates::Player2);
    grid.set(0, 2, FieldStates::Player1);
    grid.set(1, 0, FieldStates::Player2);
    grid.set(1, 1, FieldStates::Player1);
    grid.set(2, 0, FieldStates::Player2);
    grid.set(2, 1, FieldStates::Player1);

    let mut minimax = MiniMax::new(&grid);
    let result = minimax.calculate(FieldStates::Player2);

    // The only move left should be (1, 2) or (2, 2)
    assert!(
        result.get(1, 2) == Some(&FieldStates::Player2)
            || result.get(2, 2) == Some(&FieldStates::Player2)
    );
}

#[test]
fn test_performance() {
    let grid = Grid::new(3, 3);
    let mut minimax = MiniMax::new(&grid);

    let start = Instant::now();
    minimax.calculate(FieldStates::Player2);
    let duration = start.elapsed();
    assert!(duration.as_secs() < 1, "Minimax took too long to calculate");
}

fn boards_equal(a: &Grid, b: &Grid) -> bool {
    if a.size() != b.size() {
        return false;
    }
    let (rows, cols) = a.size();
    for row in 0..rows {
        for col in 0..cols {
            if a.get(row, col) != b.get(row, col) {
                return false;
            }
        }
    }
    true
}

#[test]
fn pruned_and_unpruned_agree() {
    let positions = [
        "0 0 0\n0 0 0\n0 0 0",
        "1 0 0\n0 2 0\n0 0 0",
        "1 1 0\n2 2 0\n0 0 0",
        "1 2 1\n2 1 2\n0 0 0",
        "2 0 1\n0 1 0\n0 0 2",
    ];
    for text in positions {
        for player in [FieldStates::Player1, FieldStates::Player2] {
            let grid = Grid::from_text(text).unwrap();
            let mut pruned = MiniMax::new(&grid);
            let mut plain = MiniMax::new(&grid);
            let with_pruning = pruned.calculate(player);
            let without_pruning = plain.calculate_without_pruning(player);
            assert!(
                boards_equal(&with_pruning, &without_pruning),
                "pruned and unpruned disagree on {} for {:?}",
                text,
                player
            );
        }
    }
}

#[test]
fn repeated_search_is_deterministic() {
    let grid = Grid::new(3, 3);
    let mut first = MiniMax::new(&grid);
    let mut second = MiniMax::new(&grid);
    let a = first.calculate(FieldStates::Player2);
    let b = second.calculate(FieldStates::Player2);
    assert!(boards_equal(&a, &b));
}

#[test]
fn full_board_is_left_unchanged() {
    let grid = Grid::from_text("1 2 1\n2 1 2\n2 1 2").unwrap();
    let mut minimax = MiniMax::new(&grid);
    let result = minimax.calculate(FieldStates::Player1);
    assert!(boards_equal(&result, &grid));
}
