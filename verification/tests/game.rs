use tictactoe_logic::grid::FieldStates;
use tictactoe_logic::session::{GameData, MoveError, MoveResult, PlayerChoice, WinPossibilities};

#[test]
fn opposite_and_field_states() {
    assert_eq!(PlayerChoice::X.opposite(), PlayerChoice::O);
    assert_eq!(PlayerChoice::O.opposite(), PlayerChoice::X);
    assert_eq!(PlayerChoice::X.to_field_states(), FieldStates::Player1);
    assert_eq!(PlayerChoice::O.to_field_states(), FieldStates::Player2);
}

#[test]
fn turns_alternate_by_parity() {
    let mut session = GameData::new(3, 3, PlayerChoice::X);
    assert_eq!(session.who_moves(), PlayerChoice::X);
    assert!(matches!(session.make_move(4), Ok(MoveResult::Moved(4))));
    assert_eq!(session.who_moves(), PlayerChoice::O);
    // The human plays X, so a second human move in a row is rejected.
    assert_eq!(session.make_move(0), Err(MoveError::NotYourTurn));
    assert_eq!(session.who_moves(), PlayerChoice::O);
}

#[test]
fn rejected_moves_leave_the_session_unchanged() {
    let mut session = GameData::new(3, 3, PlayerChoice::X);
    session.make_move(4).unwrap();
    session.make_ki_move().unwrap();
    let before_moves = session.moves;
    // Occupied cell.
    assert_eq!(session.make_move(4), Err(MoveError::CellOccupied));
    assert_eq!(session.moves, before_moves);
    // Out-of-range index.
    assert_eq!(session.make_move(9), Err(MoveError::OutOfBounds));
    assert_eq!(session.moves, before_moves);
}

#[test]
fn engine_move_requires_engine_turn() {
    let mut session = GameData::new(3, 3, PlayerChoice::X);
    // It is the human's turn: the engine may not move.
    assert_eq!(session.make_ki_move(), Err(MoveError::NotYourTurn));
    session.make_move(0).unwrap();
    // Now the engine moves, and the human may not move again first.
    assert!(matches!(session.make_ki_move(), Ok(MoveResult::Moved(_))));
    assert_eq!(session.who_moves(), PlayerChoice::X);
}

#[test]
fn session_classifies_a_won_game() {
    let mut session = GameData::new(3, 3, PlayerChoice::X);
    // X: 0, 1, 2 is a winning top row; O answers far away.
    session.make_move(0).unwrap();
    session.grid.set_elem(6, FieldStates::Player2).unwrap();
    session.moves += 1;
    session.make_move(1).unwrap();
    session.grid.set_elem(7, FieldStates::Player2).unwrap();
    session.moves += 1;
    let result = session.make_move(2);
    assert!(matches!(result, Ok(MoveResult::Won(2))));
    assert!(session.won);
    assert_eq!(session.check_game_state(), WinPossibilities::XWon);
    // A finished game accepts no further move.
    assert_eq!(session.make_move(5), Err(MoveError::NoLegalMove));
    assert_eq!(session.make_ki_move(), Err(MoveError::NoLegalMove));
}

#[test]
fn tie_board_classifies_as_tie() {
    let mut session = GameData::new(3, 3, PlayerChoice::X);
    // 1 2 1 / 2 1 2 / 2 1 2: full, no line for either occupant.
    let marks = [
        (0u32, FieldStates::Player1),
        (1, FieldStates::Player2),
        (2, FieldStates::Player1),
        (3, FieldStates::Player2),
        (4, FieldStates::Player1),
        (5, FieldStates::Player2),
        (6, FieldStates::Player2),
        (7, FieldStates::Player1),
        (8, FieldStates::Player2),
    ];
    for (index, state) in marks {
        session.grid.set_elem(index as usize, state).unwrap();
        session.moves += 1;
    }
    assert_eq!(session.check_game_state(), WinPossibilities::Tie);
    assert_eq!(session.make_move(0), Err(MoveError::NoLegalMove));
}

#[test]
fn ongoing_game_classifies_as_ongoing() {
    let mut session = GameData::new(3, 3, PlayerChoice::X);
    assert_eq!(session.check_game_state(), WinPossibilities::Ongoing);
    session.make_move(4).unwrap();
    assert_eq!(session.check_game_state(), WinPossibilities::Ongoing);
}

#[test]
fn engine_blocks_or_wins_through_session() {
    // Human X takes two corners on the top row; the engine must block
    // the third cell of that row.
    let mut session = GameData::new(3, 3, PlayerChoice::X);
    session.make_move(0).unwrap();
    session.make_ki_move().unwrap();
    session.make_move(1).unwrap();
    let reply = session.make_ki_move().unwrap();
    match reply {
        MoveResult::Moved(index) | MoveResult::Won(index) => {
            // Either the engine already had a winning answer, or it
            // blocked the open cell of the top row.
            assert!(index == 2 || session.won);
        }
    }
    assert_eq!(
        session.grid.get(0, 2),
        Some(&FieldStates::Player2),
        "engine failed to block the top row"
    );
}
