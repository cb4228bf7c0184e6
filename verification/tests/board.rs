use tictactoe_logic::grid::{FieldStates, Grid};
use tictactoe_logic::patterns::patterns;
use tictactoe_logic::text::ParseError;

#[test]
fn test_grid_from_str() {
    // Test valid inputs
    let test_cases = vec![
        ("1 2 0\n2 1 2\n2 2 1", 3, 3),
        ("1 2 0\n0 1 2\n2 0 1", 3, 3),
        ("1 2 0 2\n2 1 2 0\n0 2 1 2\n2 0 2 1", 4, 4),
        ("1", 1, 1),
        ("1 2\n2 1", 2, 2),         // Added 2x2 grid
        ("1 2 0 1\n2 1 0 2", 2, 4), // Added 2x4 grid
    ];

    for (input, expected_rows, expected_cols) in test_cases {
        let grid = Grid::from_text(input).expect("Failed to parse valid grid");
        assert_eq!(
            grid.size(),
            (expected_rows, expected_cols),
            "Incorrect grid size for input: {}",
            input
        );

        // Verify grid contents
        let lines: Vec<&str> = input.lines().collect();
        for (row, line) in lines.iter().enumerate() {
            let fields: Vec<&str> = line.split_whitespace().collect();
            for (col, &field) in fields.iter().enumerate() {
                let expected_state = match field {
                    "1" => FieldStates::Player1,
                    "2" => FieldStates::Player2,
                    "0" => FieldStates::Empty,
                    _ => panic!("Unexpected field value in test case"),
                };
                assert_eq!(
                    grid.get(row, col),
                    Some(&expected_state),
                    "Mismatch at row {}, col {} for input: {}",
                    row,
                    col,
                    input
                );
            }
        }
    }

    // Test invalid inputs
    let invalid_cases = vec![
        "",             // Empty input
        "0 2\n2 1 1",   // Inconsistent number of columns
        "3 4 5\n1 2 0", // Invalid characters
        "1 2\n2 1\n0",  // Extra row
    ];

    for invalid_input in invalid_cases {
        assert!(
            Grid::from_text(invalid_input).is_err(),
            "Expected error for invalid input: {}",
            invalid_input
        );
    }
}

#[test]
pub fn check_win() {
    // Horizontal win for Player1
    let grid = Grid::from_text("1 1 1\n0 2 0\n2 0 2").unwrap();
    assert!(grid.check_win(FieldStates::Player1));
    assert!(!grid.check_win(FieldStates::Player2));

    // Vertical win for Player2
    let grid = Grid::from_text("2 1 0\n2 1 0\n2 0 1").unwrap();
    assert!(grid.check_win(FieldStates::Player2));
    assert!(!grid.check_win(FieldStates::Player1));

    // Diagonal win for Player1
    let grid = Grid::from_text("1 2 0\n0 1 2\n2 0 1").unwrap();
    assert!(grid.check_win(FieldStates::Player1));
    assert!(!grid.check_win(FieldStates::Player2));

    // No win
    let grid = Grid::from_text("1 2 0\n0 1 2\n2 0 0").unwrap();
    assert!(!grid.check_win(FieldStates::Player1));
    assert!(!grid.check_win(FieldStates::Player2));
}

#[test]
pub fn correct_patterns() {
    let initial = Grid::new(3, 3).populate();
    let pats = patterns(&initial, FieldStates::Player1);

    let expected_patterns = vec![
        // Diagonal from top-left to bottom-right
        "X - -\n- X -\n- - X\n",
        // Diagonal from top-right to bottom-left
        "- - X\n- X -\nX - -\n",
        // Rows
        "X X X\n- - -\n- - -\n",
        "- - -\nX X X\n- - -\n",
        "- - -\n- - -\nX X X\n",
        // Columns
        "X - -\nX - -\nX - -\n",
        "- X -\n- X -\n- X -\n",
        "- - X\n- - X\n- - X\n",
    ]
    .iter()
    .map(|string| string.replace("X", "1").replace("-", "0"))
    .collect::<Vec<_>>();

    assert_eq!(
        pats.len(),
        expected_patterns.len(),
        "Number of patterns doesn't match"
    );

    for (index, pattern) in pats.iter().enumerate() {
        let pattern_string = pattern.to_text();
        assert_eq!(
            pattern_string, expected_patterns[index],
            "Pattern {} doesn't match expected pattern:\nExpected:\n{}\nGot:\n{}",
            index, expected_patterns[index], pattern_string
        );
    }
}

#[test]
fn pattern_count_matches_shape() {
    let square = Grid::new(3, 3);
    assert_eq!(patterns(&square, FieldStates::Player1).len(), 3 + 3 + 2);
    let wide = Grid::new(2, 4);
    assert_eq!(patterns(&wide, FieldStates::Player2).len(), 2 + 4 + 2);
    let tall = Grid::new(4, 1);
    assert_eq!(patterns(&tall, FieldStates::Player1).len(), 4 + 1 + 2);
}

#[test]
fn serialize_then_parse_returns_same_grid() {
    let texts = ["1 2 0\n0 1 2\n2 0 1", "0", "1 2 0 1\n2 1 0 2"];
    for text in texts {
        let grid = Grid::from_text(text).unwrap();
        let serialized = grid.to_text();
        let reparsed = Grid::from_text(&serialized).unwrap();
        assert_eq!(reparsed.size(), grid.size());
        let (rows, cols) = grid.size();
        for row in 0..rows {
            for col in 0..cols {
                assert_eq!(reparsed.get(row, col), grid.get(row, col));
            }
        }
    }
}

#[test]
fn to_text_exact_form() {
    let grid = Grid::new(2, 2);
    assert_eq!(grid.to_text(), "0 0\n0 0\n");
    let mut grid = Grid::new(2, 3);
    grid.set(0, 1, FieldStates::Player1);
    grid.set(1, 2, FieldStates::Player2);
    assert_eq!(grid.to_text(), "0 1 0\n0 0 2\n");
}

#[test]
fn parse_accepts_extra_whitespace() {
    let grid = Grid::from_text("  1 2\t0\r\n0 1 2 \n2 0 1\n").unwrap();
    assert_eq!(grid.size(), (3, 3));
    assert_eq!(grid.get(0, 2), Some(&FieldStates::Empty));
    assert_eq!(grid.get(2, 0), Some(&FieldStates::Player2));
}

#[test]
fn parse_error_kinds() {
    assert!(matches!(Grid::from_text(""), Err(ParseError::EmptyInput)));
    assert!(matches!(
        Grid::from_text("  \n \t"),
        Err(ParseError::EmptyInput)
    ));
    assert!(matches!(
        Grid::from_text("1 2\n1"),
        Err(ParseError::RaggedRows { row: 1 })
    ));
    assert!(matches!(
        Grid::from_text("1 2\n\n1 2"),
        Err(ParseError::RaggedRows { row: 1 })
    ));
    assert!(matches!(
        Grid::from_text("1 x\n1 2"),
        Err(ParseError::InvalidToken { row: 0, col: 1 })
    ));
    assert!(matches!(
        Grid::from_text("1 2\n1 27"),
        Err(ParseError::InvalidToken { row: 1, col: 1 })
    ));
}

#[test]
fn set_occupies_once_and_rejects_overwrites() {
    let mut grid = Grid::new(3, 3);
    assert_eq!(grid.set(1, 1, FieldStates::Player1), Some(FieldStates::Empty));
    // A second mark on the same cell is rejected and changes nothing.
    assert_eq!(grid.set(1, 1, FieldStates::Player2), None);
    assert_eq!(grid.get(1, 1), Some(&FieldStates::Player1));
    // Same through the flat-index primitive.
    assert_eq!(grid.set_elem(4, FieldStates::Player2), None);
    assert_eq!(grid.get(1, 1), Some(&FieldStates::Player1));
    // Out-of-range positions are rejected.
    assert_eq!(grid.set(3, 0, FieldStates::Player1), None);
    assert_eq!(grid.set_elem(9, FieldStates::Player1), None);
    assert_eq!(grid.get(3, 0), None);
}

#[test]
fn is_full_reports_remaining_space() {
    let mut grid = Grid::new(2, 2);
    assert!(!grid.is_full());
    grid.set_elem(0, FieldStates::Player1);
    grid.set_elem(1, FieldStates::Player2);
    grid.set_elem(2, FieldStates::Player1);
    assert!(!grid.is_full());
    grid.set_elem(3, FieldStates::Player2);
    assert!(grid.is_full());
}

#[test]
fn from_vec_builds_row_major_grid() {
    let grid = Grid::from_vec(2, 2, vec!["1", "2", "0", "1"]);
    assert_eq!(grid.size(), (2, 2));
    assert_eq!(grid.get(0, 0), Some(&FieldStates::Player1));
    assert_eq!(grid.get(0, 1), Some(&FieldStates::Player2));
    assert_eq!(grid.get(1, 0), Some(&FieldStates::Empty));
    assert_eq!(grid.get(1, 1), Some(&FieldStates::Player1));
}

#[test]
fn from_token_reads_single_tokens() {
    assert_eq!(FieldStates::from_token("0"), Some(FieldStates::Empty));
    assert_eq!(FieldStates::from_token("1"), Some(FieldStates::Player1));
    assert_eq!(FieldStates::from_token("2"), Some(FieldStates::Player2));
    assert_eq!(FieldStates::from_token("3"), None);
    assert_eq!(FieldStates::from_token("10"), None);
    assert_eq!(FieldStates::from_token(""), None);
}

#[test]
fn random_keeps_the_shape() {
    let grid = Grid::new(3, 4).random();
    assert_eq!(grid.size(), (3, 4));
    for row in 0..3 {
        for col in 0..4 {
            assert!(grid.get(row, col).is_some());
        }
    }
}
