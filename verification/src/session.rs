//! The game session: turn sequencing by move-counter parity, move
//! legality, and game-state classification, built on the board, the win
//! detector and the search engine.

use crate::grid::{spec_is_full, FieldStates, Grid};
use crate::minimax::{lemma_mm_props, mm, MiniMax};
use crate::patterns::{lemma_wins_other_unchanged, wins};
use vstd::prelude::*;

verus! {

/// Which side a party plays: `X` moves on even turns, `O` on odd ones.
#[derive(Debug, Clone, Copy, Hash, PartialEq, Eq, Structural, PartialOrd, Ord)]
pub enum PlayerChoice {
    X,
    O,
}

/// The outcome of an accepted move: the move's flat cell index, and
/// whether it completed a winning line.
#[derive(Debug, Clone, Copy, PartialEq, Eq, Structural)]
pub enum MoveResult {
    Won(u32),
    Moved(u32),
}

/// Classification of a session's board.
#[derive(Debug, Clone, Copy, PartialEq, Eq, Structural)]
pub enum WinPossibilities {
    XWon,
    OWon,
    Tie,
    Ongoing,
}

/// Why a move was rejected; a rejected move never changes the session.
#[derive(Debug, Clone, Copy, PartialEq, Eq, Structural)]
pub enum MoveError {
    /// The cell index lies outside the board.
    OutOfBounds,
    /// The cell is already occupied.
    CellOccupied,
    /// It is the other party's turn.
    NotYourTurn,
    /// The game is over (won or the board is full): no move is legal.
    NoLegalMove,
}

impl PlayerChoice {
    /// The other side.
    pub open spec fn spec_opposite(self) -> PlayerChoice {
        if self == PlayerChoice::X {
            PlayerChoice::O
        } else {
            PlayerChoice::X
        }
    }

    /// The cell state this side marks.
    pub open spec fn spec_field(self) -> FieldStates {
        if self == PlayerChoice::X {
            FieldStates::Player1
        } else {
            FieldStates::Player2
        }
    }

    /// The other side.
    pub fn opposite(&self) -> (r: PlayerChoice)
        ensures
            r == self.spec_opposite(),
    {
        match self {
            PlayerChoice::X => PlayerChoice::O,
            PlayerChoice::O => PlayerChoice::X,
        }
    }

    /// The cell state this side marks.
    pub fn to_field_states(&self) -> (r: FieldStates)
        ensures
            r == self.spec_field(),
    {
        match self {
            PlayerChoice::X => FieldStates::Player1,
            PlayerChoice::O => FieldStates::Player2,
        }
    }
}

/// How many cells of `s` are occupied.
pub open(crate) spec fn count_occupied(s: Seq<FieldStates>) -> int
    decreases s.len(),
{
    if s.len() == 0 {
        0
    } else {
        count_occupied(s.drop_last()) + (if s.last() != FieldStates::Empty {
            1int
        } else {
            0int
        })
    }
}

/// Occupied-cell counts are nonnegative and at most the board size.
pub proof fn lemma_count_occupied_bound(s: Seq<FieldStates>)
    ensures
        0 <= count_occupied(s) <= s.len(),
    decreases s.len(),
{
    if s.len() > 0 {
        lemma_count_occupied_bound(s.drop_last());
    }
}

/// An all-empty board has no occupied cell.
pub proof fn lemma_count_occupied_empty(s: Seq<FieldStates>)
    requires
        forall|k: int| 0 <= k < s.len() ==> s[k] == FieldStates::Empty,
    ensures
        count_occupied(s) == 0,
    decreases s.len(),
{
    if s.len() > 0 {
        lemma_count_occupied_empty(s.drop_last());
    }
}

/// Occupying one empty cell raises the occupied count by one.
pub proof fn lemma_count_occupied_update(s: Seq<FieldStates>, i: int, f: FieldStates)
    requires
        0 <= i < s.len(),
        s[i] == FieldStates::Empty,
        f != FieldStates::Empty,
    ensures
        count_occupied(s.update(i, f)) == count_occupied(s) + 1,
    decreases s.len(),
{
    let s2 = s.update(i, f);
    if i == s.len() - 1 {
        assert(s2.drop_last() =~= s.drop_last());
    } else {
        assert(s2.drop_last() =~= s.drop_last().update(i, f));
        lemma_count_occupied_update(s.drop_last(), i, f);
    }
}

/// One session: the board, which side the human party plays, how many
/// moves have been accepted, and whether a winning line exists.
pub struct GameData {
    pub player: PlayerChoice,
    pub grid: Grid,
    pub moves: u32,
    pub won: bool,
}

impl GameData {
    /// The session invariant: a well-formed board small enough for the
    /// search engine, a move counter equal to the number of occupied
    /// cells, and a flag set exactly when either side has a winning
    /// line.
    pub open spec fn session_wf(&self) -> bool {
        &&& self.grid.wf()
        &&& self.grid.cells().len() + 11 <= i32::MAX
        &&& self.moves as int == count_occupied(self.grid.cells())
        &&& self.won <==> (wins(
            self.grid.cells(),
            self.grid.spec_rows(),
            self.grid.spec_cols(),
            FieldStates::Player1,
        ) || wins(
            self.grid.cells(),
            self.grid.spec_rows(),
            self.grid.spec_cols(),
            FieldStates::Player2,
        ))
    }

    /// The session's fields other than the board did not change, and
    /// the board itself is the same.
    pub open spec fn unchanged_from(&self, other: &GameData) -> bool {
        &&& self.player == other.player
        &&& self.moves == other.moves
        &&& self.won == other.won
        &&& self.grid.cells() == other.grid.cells()
        &&& self.grid.spec_rows() == other.grid.spec_rows()
        &&& self.grid.spec_cols() == other.grid.spec_cols()
    }

    /// A fresh session on an empty board.
    pub fn new(rows: usize, cols: usize, player: PlayerChoice) -> (s: GameData)
        requires
            1 <= rows,
            1 <= cols,
            rows * cols + 11 <= i32::MAX,
            rows + cols + 2 <= usize::MAX,
        ensures
            s.session_wf(),
            s.player == player,
            s.moves == 0,
            !s.won,
            s.grid.spec_rows() == rows,
            s.grid.spec_cols() == cols,
            forall|k: int|
                0 <= k < s.grid.cells().len() ==> s.grid.cells()[k] == FieldStates::Empty,
    {
        let grid = Grid::new(rows, cols);
        proof {
            lemma_count_occupied_empty(grid.cells());
            crate::patterns::lemma_no_win_on_empty(
                grid.cells(),
                rows as int,
                cols as int,
                FieldStates::Player1,
            );
            crate::patterns::lemma_no_win_on_empty(
                grid.cells(),
                rows as int,
                cols as int,
                FieldStates::Player2,
            );
        }
        GameData { player, grid, moves: 0, won: false }
    }

    /// Whose turn it is, by parity of the move counter: `X` moves on
    /// even counts, `O` on odd ones.
    pub open spec fn spec_who_moves(&self) -> PlayerChoice {
        if self.moves % 2 == 0 {
            PlayerChoice::X
        } else {
            PlayerChoice::O
        }
    }

    /// Whose turn it is.
    pub fn who_moves(&self) -> (r: PlayerChoice)
        ensures
            r == self.spec_who_moves(),
    {
        if self.moves % 2 == 0 {
            PlayerChoice::X
        } else {
            PlayerChoice::O
        }
    }

    /// Applies the human party's move at the given flat cell index.
    /// A rejected move (finished game, wrong turn, index out of range,
    /// occupied cell) leaves the session untouched; an accepted move
    /// marks the cell, advances the move counter and reports whether it
    /// completed a winning line.
    pub fn make_move(&mut self, grid_index: u32) -> (r: Result<MoveResult, MoveError>)
        requires
            old(self).session_wf(),
        ensures
            final(self).session_wf(),
            ({
                let g = old(self).grid.cells();
                let rows = old(self).grid.spec_rows();
                let cols = old(self).grid.spec_cols();
                let mover = old(self).spec_who_moves();
                let fs = mover.spec_field();
                let idx = grid_index as int;
                if old(self).won || spec_is_full(g) {
                    r == Err::<MoveResult, MoveError>(MoveError::NoLegalMove) && final(self).unchanged_from(old(self))
                } else if mover != old(self).player {
                    r == Err::<MoveResult, MoveError>(MoveError::NotYourTurn) && final(self).unchanged_from(old(self))
                } else if idx >= g.len() {
                    r == Err::<MoveResult, MoveError>(MoveError::OutOfBounds) && final(self).unchanged_from(old(self))
                } else if g[idx] != FieldStates::Empty {
                    r == Err::<MoveResult, MoveError>(MoveError::CellOccupied) && final(self).unchanged_from(old(self))
                } else {
                    let g2 = g.update(idx, fs);
                    let won2 = wins(g2, rows, cols, fs);
                    &&& final(self).grid.cells() == g2
                    &&& final(self).grid.spec_rows() == rows
                    &&& final(self).grid.spec_cols() == cols
                    &&& final(self).moves == old(self).moves + 1
                    &&& final(self).won == won2
                    &&& final(self).player == old(self).player
                    &&& r == Ok::<MoveResult, MoveError>(
                        if won2 {
                            MoveResult::Won(grid_index)
                        } else {
                            MoveResult::Moved(grid_index)
                        },
                    )
                }
            }),
    {
        proof {
            lemma_count_occupied_bound(self.grid.cells());
        }
        if self.won || self.grid.is_full() {
            return Err(MoveError::NoLegalMove);
        }
        let moves_side = self.who_moves();
        if moves_side != self.player {
            return Err(MoveError::NotYourTurn);
        }
        let current_state = moves_side.to_field_states();
        if grid_index as usize >= self.grid.size().0 * self.grid.size().1 {
            proof {
                assert(self.grid.spec_rows() * self.grid.spec_cols()
                    == self.grid.cells().len());
            }
            return Err(MoveError::OutOfBounds);
        }
        let ghost g = self.grid.cells();
        let ghost rows = self.grid.spec_rows();
        let ghost cols = self.grid.spec_cols();
        let ghost fs = current_state;
        match self.grid.set_elem(grid_index as usize, current_state) {
            None => Err(MoveError::CellOccupied),
            Some(_prev) => {
                proof {
                    lemma_count_occupied_update(g, grid_index as int, fs);
                    lemma_wins_other_unchanged(
                        g,
                        rows,
                        cols,
                        if fs == FieldStates::Player1 {
                            FieldStates::Player2
                        } else {
                            FieldStates::Player1
                        },
                        grid_index as int,
                        fs,
                    );
                }
                self.moves = self.moves + 1;
                let win_now = self.grid.check_win(current_state);
                if win_now {
                    self.won = true;
                    Ok(MoveResult::Won(grid_index))
                } else {
                    Ok(MoveResult::Moved(grid_index))
                }
            },
        }
    }

    /// Runs the search engine for the non-human side when it is that
    /// side's turn: the engine's move is applied, the move counter
    /// advances, and the move's index is reported together with whether
    /// it completed a winning line.  On a finished game, or when it is
    /// the human party's turn, nothing changes.
    #[verifier::loop_isolation(false)]
    pub fn make_ki_move(&mut self) -> (r: Result<MoveResult, MoveError>)
        requires
            old(self).session_wf(),
        ensures
            final(self).session_wf(),
            ({
                let g = old(self).grid.cells();
                let rows = old(self).grid.spec_rows();
                let cols = old(self).grid.spec_cols();
                let fs = old(self).player.spec_opposite().spec_field();
                if old(self).won || spec_is_full(g) {
                    r == Err::<MoveResult, MoveError>(MoveError::NoLegalMove) && final(self).unchanged_from(old(self))
                } else if old(self).spec_who_moves() == old(self).player {
                    r == Err::<MoveResult, MoveError>(MoveError::NotYourTurn) && final(self).unchanged_from(old(self))
                } else {
                    let mv = mm(g, rows, cols, rows * cols, true, fs).0;
                    let g2 = g.update(mv, fs);
                    let won2 = wins(g2, rows, cols, fs);
                    &&& final(self).grid.cells() == g2
                    &&& final(self).grid.spec_rows() == rows
                    &&& final(self).grid.spec_cols() == cols
                    &&& final(self).moves == old(self).moves + 1
                    &&& final(self).won == won2
                    &&& final(self).player == old(self).player
                    &&& r == Ok::<MoveResult, MoveError>(
                        if won2 {
                            MoveResult::Won(mv as u32)
                        } else {
                            MoveResult::Moved(mv as u32)
                        },
                    )
                }
            }),
    {
        proof {
            lemma_count_occupied_bound(self.grid.cells());
        }
        if self.won || self.grid.is_full() {
            return Err(MoveError::NoLegalMove);
        }
        let moves_side = self.who_moves();
        if moves_side == self.player {
            return Err(MoveError::NotYourTurn);
        }
        let field = self.player.opposite().to_field_states();
        let ghost g = self.grid.cells();
        let ghost rows = self.grid.spec_rows();
        let ghost cols = self.grid.spec_cols();
        let ghost mv = mm(g, rows, cols, rows * cols, true, field).0;
        proof {
            let w = choose|k: int| 0 <= k < g.len() && g[k] == FieldStates::Empty;
            assert(g.len() > 0);
            lemma_mm_props(g, rows, cols, rows * cols, true, field);
            assert(0 <= mv < g.len() && g[mv] == FieldStates::Empty);
        }
        let old_grid = self.grid.clone();
        let mut engine = MiniMax::new(&self.grid);
        self.grid = engine.calculate(field);
        proof {
            lemma_count_occupied_update(g, mv, field);
            lemma_wins_other_unchanged(
                g,
                rows,
                cols,
                if field == FieldStates::Player1 {
                    FieldStates::Player2
                } else {
                    FieldStates::Player1
                },
                mv,
                field,
            );
        }
        self.moves = self.moves + 1;
        let mut changed_index: usize = 0;
        let mut found = false;
        let mut i: usize = 0;
        while i < old_grid.fields.len()
            invariant
                i <= old_grid.fields.len(),
                found <==> mv < i,
                found ==> changed_index as int == mv,
            decreases old_grid.fields.len() - i,
        {
            if old_grid.fields[i] != self.grid.fields[i] {
                changed_index = i;
                found = true;
            }
            i += 1;
        }
        let win_now = self.grid.check_win(field);
        if win_now {
            self.won = true;
            Ok(MoveResult::Won(changed_index as u32))
        } else {
            Ok(MoveResult::Moved(changed_index as u32))
        }
    }

    /// Classification of the session's board: a win for either side,
    /// a tie on a full board, or still in play.
    pub fn check_game_state(&self) -> (r: WinPossibilities)
        requires
            self.grid.wf(),
        ensures
            r == (if wins(
                self.grid.cells(),
                self.grid.spec_rows(),
                self.grid.spec_cols(),
                FieldStates::Player1,
            ) {
                WinPossibilities::XWon
            } else if wins(
                self.grid.cells(),
                self.grid.spec_rows(),
                self.grid.spec_cols(),
                FieldStates::Player2,
            ) {
                WinPossibilities::OWon
            } else if spec_is_full(self.grid.cells()) {
                WinPossibilities::Tie
            } else {
                WinPossibilities::Ongoing
            }),
    {
        if self.grid.check_win(PlayerChoice::X.to_field_states()) {
            return WinPossibilities::XWon;
        }
        if self.grid.check_win(PlayerChoice::O.to_field_states()) {
            return WinPossibilities::OWon;
        }
        if self.grid.is_full() {
            return WinPossibilities::Tie;
        }
        WinPossibilities::Ongoing
    }
}

} // verus!
