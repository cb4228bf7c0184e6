//! The board: a fixed-shape grid of cells, each empty or occupied by one
//! of the two players, with single-assignment mutation (`set` succeeds
//! only on an empty cell and never overwrites an occupied one).

use crate::patterns::{
    col_seq, covers, diag1_seq, diag2_seq, patterns, row_seq, wins,
};
use vstd::prelude::*;

verus! {

/// The contents of one board cell.  The derived order exists only for
/// deterministic comparison in callers and tests; it carries no game
/// meaning.
#[derive(Debug, Clone, Copy, PartialEq, Eq, Structural, PartialOrd, Ord)]
pub enum FieldStates {
    Empty,
    Player1,
    Player2,
}

/// A board of `rows` x `cols` cells, stored row-major: the cell at
/// `(row, col)` lives at flat index `row * cols + col`.
pub struct Grid {
    pub(crate) rows: usize,
    pub(crate) cols: usize,
    pub(crate) fields: Vec<FieldStates>,
}

/// Every cell of `s` is `Empty`.
pub open(crate) spec fn all_empty(s: Seq<FieldStates>) -> bool {
    forall|k: int| 0 <= k < s.len() ==> s[k] == FieldStates::Empty
}

/// No cell of `s` is `Empty`.
pub open(crate) spec fn spec_is_full(s: Seq<FieldStates>) -> bool {
    forall|k: int| 0 <= k < s.len() ==> s[k] != FieldStates::Empty
}

/// Relies on rand's `thread_rng` and `Rng::gen_range`: a sample from
/// the nonempty range `0..3` lies in that range.
#[verifier::external_body]
fn draw_cell_choice() -> (r: u8)
    ensures
        r < 3,
{
    rand::Rng::gen_range(&mut rand::thread_rng(), 0..3u8)
}

/// A flat row-major index stays inside the grid.
pub proof fn lemma_flat_index_in_range(rows: int, cols: int, row: int, col: int)
    requires
        0 <= row < rows,
        0 <= col < cols,
    ensures
        0 <= row * cols + col < rows * cols,
{
    assert(0 <= row * cols + col < rows * cols) by (nonlinear_arith)
        requires
            0 <= row < rows,
            0 <= col < cols,
    ;
}

/// Row and column are recovered from a flat row-major index by division
/// and remainder.
pub proof fn lemma_flat_index_decompose(cols: int, row: int, col: int)
    requires
        0 <= row,
        0 <= col < cols,
    ensures
        (row * cols + col) / cols == row,
        (row * cols + col) % cols == col,
{
    assert((row * cols + col) / cols == row && (row * cols + col) % cols == col)
        by (nonlinear_arith)
        requires
            0 <= row,
            0 <= col < cols,
    ;
}

/// A flat row-major index decomposes into an in-range row and column.
pub proof fn lemma_flat_index_bounds(rows: int, cols: int, k: int)
    requires
        0 < cols,
        0 <= k < rows * cols,
    ensures
        0 <= k / cols < rows,
        0 <= k % cols < cols,
        k == (k / cols) * cols + k % cols,
{
    assert(0 <= k / cols < rows && 0 <= k % cols < cols && k == (k / cols) * cols + k % cols)
        by (nonlinear_arith)
        requires
            0 < cols,
            0 <= k < rows * cols,
    ;
}

impl Grid {
    /// The flat row-major cell contents.
    pub open(crate) spec fn cells(&self) -> Seq<FieldStates> {
        self.fields@
    }

    /// Number of rows.
    pub open(crate) spec fn spec_rows(&self) -> int {
        self.rows as int
    }

    /// Number of columns.
    pub open(crate) spec fn spec_cols(&self) -> int {
        self.cols as int
    }

    /// The storage invariant: exactly one cell for each board position.
    pub open(crate) spec fn wf(&self) -> bool {
        &&& self.cells().len() == self.spec_rows() * self.spec_cols()
        &&& self.spec_rows() * self.spec_cols() <= usize::MAX
        &&& self.spec_rows() + self.spec_cols() + 2 <= usize::MAX
    }

    /// The cell at `(row, col)`, as a spec value.
    pub open(crate) spec fn cell(&self, row: int, col: int) -> FieldStates {
        self.cells()[row * self.spec_cols() + col]
    }

    /// A fresh all-empty board of the given shape.
    pub fn new(rows: usize, cols: usize) -> (g: Grid)
        requires
            rows * cols <= usize::MAX,
            rows + cols + 2 <= usize::MAX,
        ensures
            g.wf(),
            g.spec_rows() == rows,
            g.spec_cols() == cols,
            all_empty(g.cells()),
    {
        let g = Grid { rows, cols, fields: Vec::new() };
        g.populate()
    }

    /// Resets every cell to `Empty`, keeping the shape.
    pub fn populate(self) -> (g: Grid)
        requires
            self.spec_rows() * self.spec_cols() <= usize::MAX,
            self.spec_rows() + self.spec_cols() + 2 <= usize::MAX,
        ensures
            g.wf(),
            g.spec_rows() == self.spec_rows(),
            g.spec_cols() == self.spec_cols(),
            all_empty(g.cells()),
    {
        let mut g = self;
        g.fields.clear();
        let n = g.rows * g.cols;
        while g.fields.len() < n
            invariant
                g.fields.len() <= n,
                n == g.spec_rows() * g.spec_cols(),
                n <= usize::MAX,
                g.spec_rows() == self.spec_rows(),
                g.spec_cols() == self.spec_cols(),
                all_empty(g.fields@),
            decreases n - g.fields.len(),
        {
            g.fields.push(FieldStates::Empty);
        }
        g
    }

    /// Refills every cell with a state drawn at random, keeping the
    /// shape.  Which states come out is up to the generator; the board
    /// is well formed whatever was drawn.
    pub fn random(self) -> (g: Grid)
        requires
            self.spec_rows() * self.spec_cols() <= usize::MAX,
            self.spec_rows() + self.spec_cols() + 2 <= usize::MAX,
        ensures
            g.wf(),
            g.spec_rows() == self.spec_rows(),
            g.spec_cols() == self.spec_cols(),
    {
        let mut g = self.populate();
        let mut i: usize = 0;
        while i < g.fields.len()
            invariant
                i <= g.fields.len(),
                g.wf(),
                g.spec_rows() == self.spec_rows(),
                g.spec_cols() == self.spec_cols(),
            decreases g.fields.len() - i,
        {
            let choice = draw_cell_choice();
            let state = if choice == 0 {
                FieldStates::Empty
            } else if choice == 1 {
                FieldStates::Player1
            } else {
                FieldStates::Player2
            };
            g.fields.set(i, state);
            i += 1;
        }
        g
    }

    /// The cell at `(row, col)`, or `None` when the position is outside
    /// the board.
    pub fn get(&self, row: usize, col: usize) -> (r: Option<&FieldStates>)
        requires
            self.wf(),
        ensures
            match r {
                Some(f) => row < self.spec_rows() && col < self.spec_cols() && *f == self.cell(
                    row as int,
                    col as int,
                ),
                None => row >= self.spec_rows() || col >= self.spec_cols(),
            },
    {
        if row < self.rows && col < self.cols {
            proof {
                lemma_flat_index_in_range(
                    self.spec_rows(),
                    self.spec_cols(),
                    row as int,
                    col as int,
                );
                assert(self.spec_cols() * row == row * self.spec_cols()) by (nonlinear_arith);
                assert(col + self.spec_cols() * row < self.cells().len());
            }
            Some(&self.fields[col + self.cols * row])
        } else {
            None
        }
    }

    /// Marks the cell at `(row, col)` and returns the previous contents
    /// (always `Empty`), or returns `None` and leaves the board untouched
    /// when the position is outside the board or the cell is already
    /// occupied.  This is the single mutation primitive: an occupied cell
    /// is never overwritten.
    pub fn set(&mut self, row: usize, col: usize, new_state: FieldStates) -> (r: Option<
        FieldStates,
    >)
        requires
            old(self).wf(),
        ensures
            final(self).wf(),
            final(self).spec_rows() == old(self).spec_rows(),
            final(self).spec_cols() == old(self).spec_cols(),
            if row < old(self).spec_rows() && col < old(self).spec_cols() && old(self).cell(
                row as int,
                col as int,
            ) == FieldStates::Empty {
                r == Some(FieldStates::Empty) && final(self).cells() == old(self).cells().update(
                    row as int * old(self).spec_cols() + col as int,
                    new_state,
                )
            } else {
                r == None::<FieldStates> && final(self).cells() == old(self).cells()
            },
    {
        if row < self.rows && col < self.cols {
            proof {
                lemma_flat_index_in_range(
                    self.spec_rows(),
                    self.spec_cols(),
                    row as int,
                    col as int,
                );
                assert(self.spec_cols() * row == row * self.spec_cols()) by (nonlinear_arith);
                assert(col + self.spec_cols() * row < self.cells().len());
            }
            self.set_elem(col + self.cols * row, new_state)
        } else {
            None
        }
    }

    /// `set` by flat row-major index: marks cell `element` and returns the
    /// previous contents (always `Empty`), or returns `None` and leaves
    /// the board untouched when the index is out of range or the cell is
    /// already occupied.
    pub fn set_elem(&mut self, element: usize, new_state: FieldStates) -> (r: Option<FieldStates>)
        requires
            old(self).wf(),
        ensures
            final(self).wf(),
            final(self).spec_rows() == old(self).spec_rows(),
            final(self).spec_cols() == old(self).spec_cols(),
            if element < old(self).cells().len() && old(self).cells()[element as int]
                == FieldStates::Empty {
                r == Some(FieldStates::Empty) && final(self).cells() == old(self).cells().update(
                    element as int,
                    new_state,
                )
            } else {
                r == None::<FieldStates> && final(self).cells() == old(self).cells()
            },
    {
        if element < self.fields.len() {
            let old_state = self.fields[element];
            if matches!(old_state, FieldStates::Empty) {
                self.fields.set(element, new_state);
                Some(old_state)
            } else {
                None
            }
        } else {
            None
        }
    }

    /// Subset match against a pattern grid: true when every cell the
    /// pattern marks with `player` is marked with `player` here as well.
    fn matches(&self, pattern: &Grid, player: FieldStates) -> (r: bool)
        requires
            pattern.cells().len() == self.cells().len(),
        ensures
            r == covers(self.cells(), pattern.cells(), player),
    {
        let mut k: usize = 0;
        while k < pattern.fields.len()
            invariant
                k <= pattern.fields.len(),
                pattern.fields@.len() == self.fields@.len(),
                forall|m: int|
                    0 <= m < k ==> !(pattern.fields@[m] == player && self.fields@[m] != player),
            decreases pattern.fields.len() - k,
        {
            if pattern.fields[k] == player && self.fields[k] != player {
                proof {
                    assert(pattern.cells()[k as int] == player && self.cells()[k as int] != player);
                }
                return false;
            }
            k += 1;
        }
        true
    }

    /// True exactly when `player` has a complete winning line (a diagonal,
    /// a row or a column) on this board.
    #[verifier::loop_isolation(false)]
    pub fn check_win(&self, player: FieldStates) -> (r: bool)
        requires
            self.wf(),
        ensures
            r == wins(self.cells(), self.spec_rows(), self.spec_cols(), player),
    {
        let ghost rows = self.spec_rows();
        let ghost cols = self.spec_cols();
        let possible_wins = patterns(self, player);
        let mut idx: usize = 0;
        while idx < possible_wins.len()
            invariant
                idx <= possible_wins@.len(),
                forall|q: int|
                    0 <= q < idx ==> !covers(
                        self.cells(),
                        (#[trigger] possible_wins@[q]).cells(),
                        player,
                    ),
            decreases possible_wins@.len() - idx,
        {
            if self.matches(&possible_wins[idx], player) {
                proof {
                    if idx == 0 {
                        assert(covers(self.cells(), diag1_seq(rows, cols, player), player));
                    } else if idx == 1 {
                        assert(covers(self.cells(), diag2_seq(rows, cols, player), player));
                    } else if idx < 2 + self.spec_rows() {
                        let i = idx - 2;
                        assert(possible_wins@[2 + i].cells() == row_seq(rows, cols, i, player));
                        assert(covers(self.cells(), row_seq(rows, cols, i, player), player));
                    } else {
                        let j = idx - 2 - self.spec_rows();
                        assert(possible_wins@[2 + rows + j].cells() == col_seq(
                            rows,
                            cols,
                            j,
                            player,
                        ));
                        assert(covers(self.cells(), col_seq(rows, cols, j, player), player));
                    }
                }
                return true;
            }
            idx += 1;
        }
        proof {
            assert(!covers(self.cells(), diag1_seq(rows, cols, player), player)) by {
                assert(possible_wins@[0].cells() == diag1_seq(rows, cols, player));
            }
            assert(!covers(self.cells(), diag2_seq(rows, cols, player), player)) by {
                assert(possible_wins@[1].cells() == diag2_seq(rows, cols, player));
            }
            assert forall|i: int| 0 <= i < rows implies !covers(
                self.cells(),
                row_seq(rows, cols, i, player),
                player,
            ) by {
                assert(possible_wins@[2 + i].cells() == row_seq(rows, cols, i, player));
            }
            assert forall|j: int| 0 <= j < cols implies !covers(
                self.cells(),
                col_seq(rows, cols, j, player),
                player,
            ) by {
                assert(possible_wins@[2 + rows + j].cells() == col_seq(rows, cols, j, player));
            }
        }
        false
    }

    /// The shape of the board as `(rows, cols)`.
    pub fn size(&self) -> (r: (usize, usize))
        ensures
            r.0 == self.spec_rows(),
            r.1 == self.spec_cols(),
    {
        (self.rows, self.cols)
    }

    /// True exactly when no empty cell remains.
    pub fn is_full(&self) -> (r: bool)
        requires
            self.wf(),
        ensures
            r == spec_is_full(self.cells()),
    {
        let mut i: usize = 0;
        while i < self.fields.len()
            invariant
                i <= self.fields.len(),
                forall|k: int| 0 <= k < i ==> self.fields@[k] != FieldStates::Empty,
            decreases self.fields.len() - i,
        {
            if matches!(self.fields[i], FieldStates::Empty) {
                return false;
            }
            i += 1;
        }
        true
    }
}

impl Clone for Grid {
    /// An independent copy: same shape, same cells, no shared state.
    fn clone(&self) -> (r: Grid)
        ensures
            r.spec_rows() == self.spec_rows(),
            r.spec_cols() == self.spec_cols(),
            r.cells() == self.cells(),
    {
        let mut fields: Vec<FieldStates> = Vec::new();
        let mut i: usize = 0;
        while i < self.fields.len()
            invariant
                i <= self.fields.len(),
                fields@ =~= self.fields@.subrange(0, i as int),
            decreases self.fields.len() - i,
        {
            fields.push(self.fields[i]);
            i += 1;
        }
        proof {
            assert(fields@ =~= self.fields@);
        }
        Grid { rows: self.rows, cols: self.cols, fields }
    }
}

} // verus!
