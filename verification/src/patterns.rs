//! The win-pattern generator: for a board shape it enumerates, in a fixed
//! order, one template grid per winning line — the two diagonals, then
//! every row, then every column.

use crate::grid::{
    lemma_flat_index_bounds, lemma_flat_index_decompose, lemma_flat_index_in_range, FieldStates,
    Grid,
};
use vstd::prelude::*;

verus! {

/// The main-diagonal pattern (top-left to bottom-right): `state` on every
/// cell whose row equals its column, `Empty` elsewhere.
pub open(crate) spec fn diag1_seq(rows: int, cols: int, state: FieldStates) -> Seq<FieldStates> {
    Seq::new(
        (rows * cols) as nat,
        |k: int|
            if k / cols == k % cols {
                state
            } else {
                FieldStates::Empty
            },
    )
}

/// The anti-diagonal pattern (top-right to bottom-left): `state` on every
/// cell whose column is `cols - 1 - row`, `Empty` elsewhere.
pub open(crate) spec fn diag2_seq(rows: int, cols: int, state: FieldStates) -> Seq<FieldStates> {
    Seq::new(
        (rows * cols) as nat,
        |k: int|
            if k % cols == cols - 1 - k / cols {
                state
            } else {
                FieldStates::Empty
            },
    )
}

/// The pattern for row `i`: `state` on that whole row, `Empty` elsewhere.
pub open(crate) spec fn row_seq(rows: int, cols: int, i: int, state: FieldStates) -> Seq<
    FieldStates,
> {
    Seq::new(
        (rows * cols) as nat,
        |k: int|
            if k / cols == i {
                state
            } else {
                FieldStates::Empty
            },
    )
}

/// The pattern for column `j`: `state` on that whole column, `Empty`
/// elsewhere.
pub open(crate) spec fn col_seq(rows: int, cols: int, j: int, state: FieldStates) -> Seq<
    FieldStates,
> {
    Seq::new(
        (rows * cols) as nat,
        |k: int|
            if k % cols == j {
                state
            } else {
                FieldStates::Empty
            },
    )
}

/// Subset match: every cell the pattern marks with `player` is marked
/// with `player` in the grid as well.  Cells the pattern leaves `Empty`
/// impose no constraint.
pub open(crate) spec fn covers(
    g: Seq<FieldStates>,
    p: Seq<FieldStates>,
    player: FieldStates,
) -> bool {
    forall|k: int| 0 <= k < p.len() && p[k] == player ==> g[k] == player
}

/// `player` has a winning line on the board: a covered diagonal, row or
/// column pattern.
pub open(crate) spec fn wins(
    g: Seq<FieldStates>,
    rows: int,
    cols: int,
    player: FieldStates,
) -> bool {
    ||| covers(g, diag1_seq(rows, cols, player), player)
    ||| covers(g, diag2_seq(rows, cols, player), player)
    ||| exists|i: int| 0 <= i < rows && covers(g, row_seq(rows, cols, i, player), player)
    ||| exists|j: int| 0 <= j < cols && covers(g, col_seq(rows, cols, j, player), player)
}

/// The cell of a flat row-major board at `(row, col)`.
pub open(crate) spec fn cell_at(g: Seq<FieldStates>, cols: int, row: int, col: int) -> FieldStates {
    g[row * cols + col]
}

/// Row `i` is entirely marked with `player`.
pub open(crate) spec fn full_row(g: Seq<FieldStates>, cols: int, i: int, player: FieldStates) -> bool {
    forall|j: int| 0 <= j < cols ==> #[trigger] cell_at(g, cols, i, j) == player
}

/// Column `j` is entirely marked with `player`.
pub open(crate) spec fn full_col(
    g: Seq<FieldStates>,
    rows: int,
    cols: int,
    j: int,
    player: FieldStates,
) -> bool {
    forall|i: int| 0 <= i < rows ==> #[trigger] cell_at(g, cols, i, j) == player
}

/// The main diagonal is entirely marked with `player`.
pub open(crate) spec fn full_diag_main(
    g: Seq<FieldStates>,
    rows: int,
    cols: int,
    player: FieldStates,
) -> bool {
    forall|i: int| 0 <= i < rows ==> #[trigger] cell_at(g, cols, i, i) == player
}

/// The anti-diagonal is entirely marked with `player`.
pub open(crate) spec fn full_diag_anti(
    g: Seq<FieldStates>,
    rows: int,
    cols: int,
    player: FieldStates,
) -> bool {
    forall|i: int| 0 <= i < rows ==> #[trigger] cell_at(g, cols, i, cols - 1 - i) == player
}

/// A complete line of one occupant is a win for it: a full row, a full
/// column, or — on a square board — a full diagonal all marked with
/// `player` make `wins` hold.
pub proof fn lemma_full_line_wins(g: Seq<FieldStates>, rows: int, cols: int, player: FieldStates)
    requires
        rows >= 0,
        cols >= 0,
        g.len() == rows * cols,
        player != FieldStates::Empty,
    ensures
        (exists|i: int| 0 <= i < rows && #[trigger] full_row(g, cols, i, player)) ==> wins(
            g,
            rows,
            cols,
            player,
        ),
        (exists|j: int| 0 <= j < cols && #[trigger] full_col(g, rows, cols, j, player)) ==> wins(
            g,
            rows,
            cols,
            player,
        ),
        rows == cols && full_diag_main(g, rows, cols, player) ==> wins(g, rows, cols, player),
        rows == cols && full_diag_anti(g, rows, cols, player) ==> wins(g, rows, cols, player),
{
    if exists|i: int| 0 <= i < rows && #[trigger] full_row(g, cols, i, player) {
        let i = choose|i: int| 0 <= i < rows && #[trigger] full_row(g, cols, i, player);
        if cols <= 0 {
            assert(rows * cols == 0) by (nonlinear_arith)
                requires
                    cols == 0,
            ;
            assert(row_seq(rows, cols, i, player).len() == 0);
        }
        assert(covers(g, row_seq(rows, cols, i, player), player)) by {
            assert forall|k: int|
                0 <= k < row_seq(rows, cols, i, player).len() && row_seq(rows, cols, i, player)[k]
                    == player implies g[k] == player by {
                assert(cols > 0) by (nonlinear_arith)
                    requires
                        0 <= k < rows * cols,
                        rows >= 0,
                        cols >= 0,
                ;
                lemma_flat_index_bounds(rows, cols, k);
                assert(cell_at(g, cols, k / cols, k % cols) == player);
                assert(k == (k / cols) * cols + k % cols);
            }
        }
    }
    if exists|j: int| 0 <= j < cols && #[trigger] full_col(g, rows, cols, j, player) {
        let j = choose|j: int| 0 <= j < cols && #[trigger] full_col(g, rows, cols, j, player);
        if cols <= 0 {
            assert(rows * cols == 0) by (nonlinear_arith)
                requires
                    cols == 0,
            ;
            assert(col_seq(rows, cols, j, player).len() == 0);
        }
        assert(covers(g, col_seq(rows, cols, j, player), player)) by {
            assert forall|k: int|
                0 <= k < col_seq(rows, cols, j, player).len() && col_seq(rows, cols, j, player)[k]
                    == player implies g[k] == player by {
                assert(cols > 0) by (nonlinear_arith)
                    requires
                        0 <= k < rows * cols,
                        rows >= 0,
                        cols >= 0,
                ;
                lemma_flat_index_bounds(rows, cols, k);
                assert(cell_at(g, cols, k / cols, k % cols) == player);
                assert(k == (k / cols) * cols + k % cols);
            }
        }
    }
    if rows == cols && full_diag_main(g, rows, cols, player) {
        if cols <= 0 {
            assert(rows * cols == 0) by (nonlinear_arith)
                requires
                    cols == 0,
            ;
            assert(diag1_seq(rows, cols, player).len() == 0);
        }
        assert(covers(g, diag1_seq(rows, cols, player), player)) by {
            assert forall|k: int|
                0 <= k < diag1_seq(rows, cols, player).len() && diag1_seq(rows, cols, player)[k]
                    == player implies g[k] == player by {
                assert(cols > 0) by (nonlinear_arith)
                    requires
                        0 <= k < rows * cols,
                        rows >= 0,
                        cols >= 0,
                ;
                lemma_flat_index_bounds(rows, cols, k);
                assert(cell_at(g, cols, k / cols, k % cols) == player);
                assert(k == (k / cols) * cols + k % cols);
            }
        }
    }
    if rows == cols && full_diag_anti(g, rows, cols, player) {
        if cols <= 0 {
            assert(rows * cols == 0) by (nonlinear_arith)
                requires
                    cols == 0,
            ;
            assert(diag2_seq(rows, cols, player).len() == 0);
        }
        assert(covers(g, diag2_seq(rows, cols, player), player)) by {
            assert forall|k: int|
                0 <= k < diag2_seq(rows, cols, player).len() && diag2_seq(rows, cols, player)[k]
                    == player implies g[k] == player by {
                assert(cols > 0) by (nonlinear_arith)
                    requires
                        0 <= k < rows * cols,
                        rows >= 0,
                        cols >= 0,
                ;
                lemma_flat_index_bounds(rows, cols, k);
                assert(cell_at(g, cols, k / cols, k % cols) == player);
                assert(k == (k / cols) * cols + k % cols);
            }
        }
    }
}

/// On an all-empty board neither occupant has a winning line.
pub proof fn lemma_no_win_on_empty(g: Seq<FieldStates>, rows: int, cols: int, player: FieldStates)
    requires
        rows >= 1,
        cols >= 1,
        g.len() == rows * cols,
        forall|k: int| 0 <= k < g.len() ==> g[k] == FieldStates::Empty,
        player != FieldStates::Empty,
    ensures
        !wins(g, rows, cols, player),
{
    assert(rows * cols >= cols) by (nonlinear_arith)
        requires
            rows >= 1,
            cols >= 1,
    ;
    assert(diag1_seq(rows, cols, player)[0] == player);
    assert(!covers(g, diag1_seq(rows, cols, player), player));
    lemma_flat_index_decompose(cols, 0, cols - 1);
    assert(diag2_seq(rows, cols, player)[cols - 1] == player);
    assert(!covers(g, diag2_seq(rows, cols, player), player));
    assert forall|i: int| 0 <= i < rows implies !covers(g, row_seq(rows, cols, i, player), player) by {
        lemma_flat_index_in_range(rows, cols, i, 0);
        lemma_flat_index_decompose(cols, i, 0);
        assert(row_seq(rows, cols, i, player)[i * cols] == player);
    }
    assert forall|j: int| 0 <= j < cols implies !covers(g, col_seq(rows, cols, j, player), player) by {
        lemma_flat_index_decompose(cols, 0, j);
        assert(col_seq(rows, cols, j, player)[j] == player);
    }
}

/// Marking a cell for one player neither creates nor destroys a win for
/// the other: every line of the other player is unaffected by the new
/// mark.
pub proof fn lemma_wins_other_unchanged(
    g: Seq<FieldStates>,
    rows: int,
    cols: int,
    player: FieldStates,
    i: int,
    mark: FieldStates,
)
    requires
        g.len() == rows * cols,
        0 <= i < g.len(),
        g[i] == FieldStates::Empty,
        mark != player,
        player != FieldStates::Empty,
    ensures
        wins(g.update(i, mark), rows, cols, player) == wins(g, rows, cols, player),
{
    let g2 = g.update(i, mark);
    assert forall|pt: Seq<FieldStates>| pt.len() == g.len() implies #[trigger] covers(g2, pt, player)
        == covers(g, pt, player) by {
        if covers(g2, pt, player) {
            assert forall|k: int| 0 <= k < pt.len() && pt[k] == player implies g[k] == player by {
                assert(g2[k] == player);
                assert(k != i);
            }
        }
        if covers(g, pt, player) {
            assert forall|k: int| 0 <= k < pt.len() && pt[k] == player implies g2[k] == player by {
                assert(g[k] == player);
                assert(k != i);
            }
        }
    }
    assert(diag1_seq(rows, cols, player).len() == g.len());
    assert(diag2_seq(rows, cols, player).len() == g.len());
    assert forall|q: int| 0 <= q < rows implies #[trigger] covers(g2, row_seq(rows, cols, q, player), player)
        == covers(g, row_seq(rows, cols, q, player), player) by {
        assert(row_seq(rows, cols, q, player).len() == g.len());
    }
    assert forall|q: int| 0 <= q < cols implies #[trigger] covers(g2, col_seq(rows, cols, q, player), player)
        == covers(g, col_seq(rows, cols, q, player), player) by {
        assert(col_seq(rows, cols, q, player).len() == g.len());
    }
}

/// All winning line patterns for the shape of `grid`, in the fixed order:
/// main diagonal, anti-diagonal, rows top to bottom, columns left to
/// right.  The order is part of the contract; callers index into it.
pub fn patterns(grid: &Grid, state: FieldStates) -> (pats: Vec<Grid>)
    requires
        grid.wf(),
    ensures
        pats@.len() == 2 + grid.spec_rows() + grid.spec_cols(),
        forall|p: int|
            0 <= p < pats@.len() ==> (#[trigger] pats@[p]).wf() && pats@[p].spec_rows()
                == grid.spec_rows() && pats@[p].spec_cols() == grid.spec_cols(),
        pats@[0].cells() == diag1_seq(grid.spec_rows(), grid.spec_cols(), state),
        pats@[1].cells() == diag2_seq(grid.spec_rows(), grid.spec_cols(), state),
        forall|i: int|
            0 <= i < grid.spec_rows() ==> #[trigger] pats@[2 + i].cells() == row_seq(
                grid.spec_rows(),
                grid.spec_cols(),
                i,
                state,
            ),
        forall|j: int|
            0 <= j < grid.spec_cols() ==> #[trigger] pats@[2 + grid.spec_rows() + j].cells()
                == col_seq(grid.spec_rows(), grid.spec_cols(), j, state),
{
    let (rows, cols) = grid.size();
    let m = if rows < cols {
        rows
    } else {
        cols
    };
    let mut pats: Vec<Grid> = Vec::new();

    // Main diagonal, top-left to bottom-right.
    let mut diagonal1 = Grid::new(rows, cols);
    let mut i: usize = 0;
    while i < m
        invariant
            i <= m,
            m <= rows,
            m <= cols,
            diagonal1.wf(),
            diagonal1.spec_rows() == rows,
            diagonal1.spec_cols() == cols,
            forall|k: int|
                0 <= k < rows * cols ==> #[trigger] diagonal1.cells()[k] == (if k / (cols as int)
                    == k % (cols as int) && k / (cols as int) < i {
                    state
                } else {
                    FieldStates::Empty
                }),
        decreases m - i,
    {
        proof {
            lemma_flat_index_in_range(rows as int, cols as int, i as int, i as int);
            lemma_flat_index_decompose(cols as int, i as int, i as int);
        }
        let _ = diagonal1.set(i, i, state);
        proof {
            assert forall|k: int| 0 <= k < rows * cols implies #[trigger] diagonal1.cells()[k] == (
            if k / (cols as int) == k % (cols as int) && k / (cols as int) < i + 1 {
                state
            } else {
                FieldStates::Empty
            }) by {
                lemma_flat_index_bounds(rows as int, cols as int, k);
            }
        }
        i += 1;
    }
    proof {
        assert(diagonal1.cells() =~= diag1_seq(rows as int, cols as int, state)) by {
            assert forall|k: int| 0 <= k < rows * cols implies diagonal1.cells()[k] == diag1_seq(
                rows as int,
                cols as int,
                state,
            )[k] by {
                lemma_flat_index_bounds(rows as int, cols as int, k);
            }
        }
    }
    pats.push(diagonal1);

    // Anti-diagonal, top-right to bottom-left.
    let mut diagonal2 = Grid::new(rows, cols);
    let mut i: usize = 0;
    while i < m
        invariant
            i <= m,
            m <= rows,
            m <= cols,
            diagonal2.wf(),
            diagonal2.spec_rows() == rows,
            diagonal2.spec_cols() == cols,
            forall|k: int|
                0 <= k < rows * cols ==> #[trigger] diagonal2.cells()[k] == (if k % (cols as int)
                    == cols - 1 - k / (cols as int) && k / (cols as int) < i {
                    state
                } else {
                    FieldStates::Empty
                }),
        decreases m - i,
    {
        proof {
            lemma_flat_index_in_range(rows as int, cols as int, i as int, cols - 1 - i as int);
            lemma_flat_index_decompose(cols as int, i as int, cols - 1 - i as int);
        }
        let _ = diagonal2.set(i, cols - 1 - i, state);
        proof {
            assert forall|k: int| 0 <= k < rows * cols implies #[trigger] diagonal2.cells()[k] == (
            if k % (cols as int) == cols - 1 - k / (cols as int) && k / (cols as int) < i + 1 {
                state
            } else {
                FieldStates::Empty
            }) by {
                lemma_flat_index_bounds(rows as int, cols as int, k);
            }
        }
        i += 1;
    }
    proof {
        assert(diagonal2.cells() =~= diag2_seq(rows as int, cols as int, state)) by {
            assert forall|k: int| 0 <= k < rows * cols implies diagonal2.cells()[k] == diag2_seq(
                rows as int,
                cols as int,
                state,
            )[k] by {
                lemma_flat_index_bounds(rows as int, cols as int, k);
            }
        }
    }
    pats.push(diagonal2);

    // One pattern per row, top to bottom.
    let mut i: usize = 0;
    while i < rows
        invariant
            i <= rows,
            grid.wf(),
            grid.spec_rows() == rows,
            grid.spec_cols() == cols,
            pats@.len() == 2 + i,
            forall|p: int|
                0 <= p < pats@.len() ==> (#[trigger] pats@[p]).wf() && pats@[p].spec_rows() == rows
                    && pats@[p].spec_cols() == cols,
            pats@[0].cells() == diag1_seq(rows as int, cols as int, state),
            pats@[1].cells() == diag2_seq(rows as int, cols as int, state),
            forall|q: int|
                0 <= q < i ==> #[trigger] pats@[2 + q].cells() == row_seq(
                    rows as int,
                    cols as int,
                    q,
                    state,
                ),
        decreases rows - i,
    {
        let mut row = Grid::new(rows, cols);
        let mut j: usize = 0;
        while j < cols
            invariant
                j <= cols,
                i < rows,
                row.wf(),
                row.spec_rows() == rows,
                row.spec_cols() == cols,
                forall|k: int|
                    0 <= k < rows * cols ==> #[trigger] row.cells()[k] == (if k / (cols as int)
                        == i && k % (cols as int) < j {
                        state
                    } else {
                        FieldStates::Empty
                    }),
            decreases cols - j,
        {
            proof {
                lemma_flat_index_in_range(rows as int, cols as int, i as int, j as int);
                lemma_flat_index_decompose(cols as int, i as int, j as int);
            }
            let _ = row.set(i, j, state);
            proof {
                assert forall|k: int| 0 <= k < rows * cols implies #[trigger] row.cells()[k] == (
                if k / (cols as int) == i && k % (cols as int) < j + 1 {
                    state
                } else {
                    FieldStates::Empty
                }) by {
                    lemma_flat_index_bounds(rows as int, cols as int, k);
                }
            }
            j += 1;
        }
        proof {
            assert(row.cells() =~= row_seq(rows as int, cols as int, i as int, state)) by {
                assert forall|k: int| 0 <= k < rows * cols implies row.cells()[k] == row_seq(
                    rows as int,
                    cols as int,
                    i as int,
                    state,
                )[k] by {
                    lemma_flat_index_bounds(rows as int, cols as int, k);
                }
            }
        }
        pats.push(row);
        i += 1;
    }

    // One pattern per column, left to right.
    let mut j: usize = 0;
    while j < cols
        invariant
            j <= cols,
            grid.wf(),
            grid.spec_rows() == rows,
            grid.spec_cols() == cols,
            pats@.len() == 2 + rows + j,
            forall|p: int|
                0 <= p < pats@.len() ==> (#[trigger] pats@[p]).wf() && pats@[p].spec_rows() == rows
                    && pats@[p].spec_cols() == cols,
            pats@[0].cells() == diag1_seq(rows as int, cols as int, state),
            pats@[1].cells() == diag2_seq(rows as int, cols as int, state),
            forall|q: int|
                0 <= q < rows ==> #[trigger] pats@[2 + q].cells() == row_seq(
                    rows as int,
                    cols as int,
                    q,
                    state,
                ),
            forall|q: int|
                0 <= q < j ==> #[trigger] pats@[2 + rows + q].cells() == col_seq(
                    rows as int,
                    cols as int,
                    q,
                    state,
                ),
        decreases cols - j,
    {
        let mut col = Grid::new(rows, cols);
        let mut i: usize = 0;
        while i < rows
            invariant
                i <= rows,
                j < cols,
                col.wf(),
                col.spec_rows() == rows,
                col.spec_cols() == cols,
                forall|k: int|
                    0 <= k < rows * cols ==> #[trigger] col.cells()[k] == (if k % (cols as int)
                        == j && k / (cols as int) < i {
                        state
                    } else {
                        FieldStates::Empty
                    }),
            decreases rows - i,
        {
            proof {
                lemma_flat_index_in_range(rows as int, cols as int, i as int, j as int);
                lemma_flat_index_decompose(cols as int, i as int, j as int);
            }
            let _ = col.set(i, j, state);
            proof {
                assert forall|k: int| 0 <= k < rows * cols implies #[trigger] col.cells()[k] == (
                if k % (cols as int) == j && k / (cols as int) < i + 1 {
                    state
                } else {
                    FieldStates::Empty
                }) by {
                    lemma_flat_index_bounds(rows as int, cols as int, k);
                }
            }
            i += 1;
        }
        proof {
            assert(col.cells() =~= col_seq(rows as int, cols as int, j as int, state)) by {
                assert forall|k: int| 0 <= k < rows * cols implies col.cells()[k] == col_seq(
                    rows as int,
                    cols as int,
                    j as int,
                    state,
                )[k] by {
                    lemma_flat_index_bounds(rows as int, cols as int, k);
                }
            }
        }
        pats.push(col);
        j += 1;
    }

    pats
}

} // verus!
