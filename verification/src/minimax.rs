//! The search engine: a bounded-depth minimax over board snapshots, in
//! two executable forms — plain, and with alpha-beta pruning — both
//! proved to return exactly the move and score of the mathematical
//! reference search `mm`, so the pruned search provably equals the
//! unpruned one.

use crate::grid::{spec_is_full, FieldStates, Grid};
use crate::patterns::wins;
use vstd::prelude::*;

verus! {

/// A searching player must be one of the two occupants.
pub open(crate) spec fn is_player(p: FieldStates) -> bool {
    p == FieldStates::Player1 || p == FieldStates::Player2
}

/// The other occupant.
pub open(crate) spec fn spec_opponent(p: FieldStates) -> FieldStates {
    if p == FieldStates::Player1 {
        FieldStates::Player2
    } else {
        FieldStates::Player1
    }
}

/// Score of a board in which the searching player has just been found to
/// win: higher for shallower wins.
pub open(crate) spec fn win_score(depth: int) -> int {
    10 + depth
}

/// The reference (unpruned) minimax value of a board: the chosen move as
/// a flat cell index (`-1` on a terminal board) and the backed-up score.
///
/// Terminal evaluation: a win for the searching player scores
/// `10 + depth`, a win for the opponent `-(10 + depth)`, and a full board
/// or an exhausted depth budget scores `0`.  Otherwise every empty cell
/// is tried in flat scan order by the player whose turn it is at this
/// ply, and the first strict improvement is kept, so ties go to the
/// lowest index.
pub open(crate) spec fn mm(
    g: Seq<FieldStates>,
    rows: int,
    cols: int,
    depth: int,
    maximize: bool,
    player: FieldStates,
) -> (int, int)
    decreases depth, g.len() + 1,
{
    if wins(g, rows, cols, player) {
        (-1, win_score(depth))
    } else if wins(g, rows, cols, spec_opponent(player)) {
        (-1, -win_score(depth))
    } else if depth <= 0 || spec_is_full(g) {
        (-1, 0)
    } else {
        mm_fold(g, rows, cols, depth, maximize, player, g.len() as int)
    }
}

/// The scan underlying `mm`: the best (move, score) among the first `i`
/// cells, starting from `(-1, worst)` and keeping only strict
/// improvements, exactly as the executable loop does.
pub open(crate) spec fn mm_fold(
    g: Seq<FieldStates>,
    rows: int,
    cols: int,
    depth: int,
    maximize: bool,
    player: FieldStates,
    i: int,
) -> (int, int)
    decreases depth, i,
{
    if i <= 0 || depth <= 0 {
        (-1, if maximize {
            i32::MIN as int
        } else {
            i32::MAX as int
        })
    } else {
        let prev = mm_fold(g, rows, cols, depth, maximize, player, i - 1);
        if g[i - 1] == FieldStates::Empty {
            let mover = if maximize {
                player
            } else {
                spec_opponent(player)
            };
            let cs = mm(g.update(i - 1, mover), rows, cols, depth - 1, !maximize, player).1;
            if (maximize && cs > prev.1) || (!maximize && cs < prev.1) {
                (i - 1, cs)
            } else {
                prev
            }
        } else {
            prev
        }
    }
}

/// Bounds and move validity for the scan: either nothing was found (all
/// scanned cells occupied, sentinel score) or the move is a scanned empty
/// cell and the score is a child score, bounded by `9 + depth`.
pub proof fn lemma_mm_fold_props(
    g: Seq<FieldStates>,
    rows: int,
    cols: int,
    depth: int,
    maximize: bool,
    player: FieldStates,
    i: int,
)
    requires
        1 <= depth,
        win_score(depth) <= i32::MAX,
        0 <= i <= g.len(),
    ensures
        ({
            let r = mm_fold(g, rows, cols, depth, maximize, player, i);
            ||| (r.0 == -1 && r.1 == (if maximize {
                i32::MIN as int
            } else {
                i32::MAX as int
            }) && (forall|j: int| 0 <= j < i ==> g[j] != FieldStates::Empty))
            ||| (0 <= r.0 < i && g[r.0] == FieldStates::Empty && -(9 + depth) <= r.1 <= 9 + depth)
        }),
    decreases depth, i,
{
    if i > 0 {
        lemma_mm_fold_props(g, rows, cols, depth, maximize, player, i - 1);
        if g[i - 1] == FieldStates::Empty {
            let mover = if maximize {
                player
            } else {
                spec_opponent(player)
            };
            lemma_mm_props(g.update(i - 1, mover), rows, cols, depth - 1, !maximize, player);
        }
    }
}

/// Bounds and move validity for the reference search: the score is
/// within `10 + depth` of zero; the move is `-1` on a terminal board and
/// otherwise an in-range empty cell.
pub proof fn lemma_mm_props(
    g: Seq<FieldStates>,
    rows: int,
    cols: int,
    depth: int,
    maximize: bool,
    player: FieldStates,
)
    requires
        0 <= depth,
        win_score(depth) <= i32::MAX,
    ensures
        ({
            let r = mm(g, rows, cols, depth, maximize, player);
            &&& -win_score(depth) <= r.1 <= win_score(depth)
            &&& r.0 == -1 || (0 <= r.0 < g.len() && g[r.0] == FieldStates::Empty)
            &&& (!wins(g, rows, cols, player) && !wins(g, rows, cols, spec_opponent(player))
                && depth > 0 && !spec_is_full(g)) ==> 0 <= r.0 < g.len()
        }),
    decreases depth, g.len() + 1,
{
    if !wins(g, rows, cols, player) && !wins(g, rows, cols, spec_opponent(player)) && depth > 0
        && !spec_is_full(g) {
        lemma_mm_fold_props(g, rows, cols, depth, maximize, player, g.len() as int);
        let r = mm_fold(g, rows, cols, depth, maximize, player, g.len() as int);
        if r.0 == -1 {
            let w = choose|k: int| 0 <= k < g.len() && g[k] == FieldStates::Empty;
            assert(g[w] != FieldStates::Empty);
            assert(false);
        }
    }
}

/// The scan score only improves as the scan lengthens, and it dominates
/// the true value of every scanned empty cell: no later child does
/// better than the scan's result in the scan's own direction.
pub proof fn lemma_mm_fold_dominates(
    g: Seq<FieldStates>,
    rows: int,
    cols: int,
    depth: int,
    maximize: bool,
    player: FieldStates,
    i: int,
)
    requires
        1 <= depth,
        0 <= i <= g.len(),
    ensures
        forall|j: int|
            0 <= j < i && g[j] == FieldStates::Empty ==> (if maximize {
                mm(
                    g.update(j, player),
                    rows,
                    cols,
                    depth - 1,
                    !maximize,
                    player,
                ).1 <= mm_fold(g, rows, cols, depth, maximize, player, i).1
            } else {
                mm(
                    g.update(j, spec_opponent(player)),
                    rows,
                    cols,
                    depth - 1,
                    !maximize,
                    player,
                ).1 >= mm_fold(g, rows, cols, depth, maximize, player, i).1
            }),
    decreases i,
{
    if i > 0 {
        lemma_mm_fold_dominates(g, rows, cols, depth, maximize, player, i - 1);
    }
}

/// The larger of two mathematical integers.
pub open(crate) spec fn spec_max(a: int, b: int) -> int {
    if a >= b {
        a
    } else {
        b
    }
}

/// The smaller of two mathematical integers.
pub open(crate) spec fn spec_min(a: int, b: int) -> int {
    if a <= b {
        a
    } else {
        b
    }
}

/// A search engine over a snapshot of one board.
pub struct MiniMax {
    pub(crate) grid: Grid,
}

impl MiniMax {
    /// The board the engine currently explores from.
    pub open(crate) spec fn board(&self) -> Grid {
        self.grid
    }

    /// A fresh engine exploring from a copy of `grid`; the original is
    /// never touched by the search.
    pub fn new(grid: &Grid) -> (m: MiniMax)
        ensures
            m.board().spec_rows() == grid.spec_rows(),
            m.board().spec_cols() == grid.spec_cols(),
            m.board().cells() == grid.cells(),
    {
        MiniMax { grid: grid.clone() }
    }

    /// The unpruned recursive search; returns exactly the reference value
    /// `mm` of the engine's board.
    #[verifier::loop_isolation(false)]
    fn minimax_simple(&self, depth: i32, maximize: bool, player: FieldStates) -> (r: (i32, i32))
        requires
            self.grid.wf(),
            is_player(player),
            0 <= depth,
            win_score(depth as int) <= i32::MAX,
            self.grid.cells().len() + 10 <= i32::MAX,
        ensures
            r.0 as int == mm(
                self.grid.cells(),
                self.grid.spec_rows(),
                self.grid.spec_cols(),
                depth as int,
                maximize,
                player,
            ).0,
            r.1 as int == mm(
                self.grid.cells(),
                self.grid.spec_rows(),
                self.grid.spec_cols(),
                depth as int,
                maximize,
                player,
            ).1,
        decreases depth,
    {
        let opponent = if matches!(player, FieldStates::Player1) {
            FieldStates::Player2
        } else {
            FieldStates::Player1
        };
        if self.grid.check_win(player) {
            return (-1, 10 + depth);
        }
        if self.grid.check_win(opponent) {
            return (-1, -10 - depth);
        }
        if depth == 0 || self.grid.is_full() {
            return (-1, 0);
        }
        let ghost gc = self.grid.cells();
        let ghost rows = self.grid.spec_rows();
        let ghost cols = self.grid.spec_cols();

        let mut best_move: i32 = -1;
        let mut best_score: i32 = if maximize {
            i32::MIN
        } else {
            i32::MAX
        };

        let n = self.grid.fields.len();
        let mut i: usize = 0;
        while i < n
            invariant
                i <= n,
                best_move as int == mm_fold(gc, rows, cols, depth as int, maximize, player, i as int).0,
                best_score as int == mm_fold(gc, rows, cols, depth as int, maximize, player, i as int).1,
            decreases n - i,
        {
            if matches!(self.grid.fields[i], FieldStates::Empty) {
                let mover = if maximize {
                    player
                } else {
                    opponent
                };
                let mut next_grid = self.grid.clone();
                let _ = next_grid.set_elem(i, mover);
                let next = MiniMax { grid: next_grid };
                let (_child_move, cs) = next.minimax_simple(depth - 1, !maximize, player);
                proof {
                    assert(next.grid.cells() == gc.update(i as int, mover));
                }
                if maximize {
                    if cs > best_score {
                        best_score = cs;
                        best_move = i as i32;
                    }
                } else {
                    if cs < best_score {
                        best_score = cs;
                        best_move = i as i32;
                    }
                }
            }
            proof {
                assert(best_move as int == mm_fold(
                    gc,
                    rows,
                    cols,
                    depth as int,
                    maximize,
                    player,
                    i + 1,
                ).0 && best_score as int == mm_fold(
                    gc,
                    rows,
                    cols,
                    depth as int,
                    maximize,
                    player,
                    i + 1,
                ).1);
            }
            i += 1;
        }
        (best_move, best_score)
    }

    /// The alpha-beta pruned recursive search.  Its result relates to
    /// the reference value `mm` as in the classic soundness statement
    /// for fail-soft alpha-beta: a result inside the `(alpha, beta)`
    /// window is exactly the reference move and score; a result at or
    /// below `alpha` bounds the reference score from above; a result at
    /// or above `beta` bounds it from below.  Called with the full
    /// window, it therefore returns exactly the unpruned result.
    #[verifier::loop_isolation(false)]
    fn minimax(&self, depth: i32, maximize: bool, alpha: i32, beta: i32, player: FieldStates) -> (r:
        (i32, i32))
        requires
            self.grid.wf(),
            is_player(player),
            0 <= depth,
            win_score(depth as int) <= i32::MAX,
            self.grid.cells().len() + 10 <= i32::MAX,
            alpha < beta,
        ensures
            ({
                let v = mm(
                    self.grid.cells(),
                    self.grid.spec_rows(),
                    self.grid.spec_cols(),
                    depth as int,
                    maximize,
                    player,
                );
                &&& -win_score(depth as int) <= r.1 <= win_score(depth as int)
                &&& r.1 <= alpha ==> v.1 <= r.1
                &&& r.1 >= beta ==> v.1 >= r.1
                &&& alpha < r.1 < beta ==> r.1 == v.1 && r.0 == v.0
            }),
        decreases depth,
    {
        let opponent = if matches!(player, FieldStates::Player1) {
            FieldStates::Player2
        } else {
            FieldStates::Player1
        };
        if self.grid.check_win(player) {
            return (-1, 10 + depth);
        }
        if self.grid.check_win(opponent) {
            return (-1, -10 - depth);
        }
        if depth == 0 || self.grid.is_full() {
            return (-1, 0);
        }
        let ghost gc = self.grid.cells();
        let ghost rows = self.grid.spec_rows();
        let ghost cols = self.grid.spec_cols();
        let ghost d = depth as int;

        let mut best_move: i32 = -1;
        let mut best_score: i32 = if maximize {
            i32::MIN
        } else {
            i32::MAX
        };
        let mut a = alpha;
        let mut b = beta;

        let n = self.grid.fields.len();
        let mut i: usize = 0;
        while i < n
            invariant
                i <= n,
                a < b,
                maximize ==> b == beta,
                maximize ==> a as int == spec_max(alpha as int, best_score as int),
                maximize ==> mm_fold(gc, rows, cols, d, maximize, player, i as int).1
                    <= best_score as int,
                maximize ==> best_score as int <= spec_max(
                    alpha as int,
                    mm_fold(gc, rows, cols, d, maximize, player, i as int).1,
                ),
                maximize && best_score > alpha ==> best_score as int == mm_fold(
                    gc,
                    rows,
                    cols,
                    d,
                    maximize,
                    player,
                    i as int,
                ).1 && best_move as int == mm_fold(gc, rows, cols, d, maximize, player, i as int).0,
                maximize ==> (best_score == i32::MIN || -(9 + d) <= best_score as int <= 9 + d),
                !maximize ==> a == alpha,
                !maximize ==> b as int == spec_min(beta as int, best_score as int),
                !maximize ==> mm_fold(gc, rows, cols, d, maximize, player, i as int).1
                    >= best_score as int,
                !maximize ==> best_score as int >= spec_min(
                    beta as int,
                    mm_fold(gc, rows, cols, d, maximize, player, i as int).1,
                ),
                !maximize && best_score < beta ==> best_score as int == mm_fold(
                    gc,
                    rows,
                    cols,
                    d,
                    maximize,
                    player,
                    i as int,
                ).1 && best_move as int == mm_fold(gc, rows, cols, d, maximize, player, i as int).0,
                !maximize ==> (best_score == i32::MAX || -(9 + d) <= best_score as int <= 9 + d),
            decreases n - i,
        {
            if matches!(self.grid.fields[i], FieldStates::Empty) {
                let mover = if maximize {
                    player
                } else {
                    opponent
                };
                let mut next_grid = self.grid.clone();
                let _ = next_grid.set_elem(i, mover);
                let next = MiniMax { grid: next_grid };
                let (_child_move, cs) = next.minimax(depth - 1, !maximize, a, b, player);
                proof {
                    assert(next.grid.cells() == gc.update(i as int, mover));
                }
                if maximize {
                    if cs > best_score {
                        best_score = cs;
                        best_move = i as i32;
                    }
                    a = if a >= best_score {
                        a
                    } else {
                        best_score
                    };
                } else {
                    if cs < best_score {
                        best_score = cs;
                        best_move = i as i32;
                    }
                    b = if b <= best_score {
                        b
                    } else {
                        best_score
                    };
                }
                proof {
                    let fi = mm_fold(gc, rows, cols, d, maximize, player, i as int);
                    let fi1 = mm_fold(gc, rows, cols, d, maximize, player, i + 1);
                    let fc = mm(gc.update(i as int, mover), rows, cols, d - 1, !maximize, player).1;
                    assert(fi1 == (if (maximize && fc > fi.1) || (!maximize && fc < fi.1) {
                        (i as int, fc)
                    } else {
                        fi
                    }));
                }
                if b <= a {
                    proof {
                        lemma_mm_fold_dominates(gc, rows, cols, d, maximize, player, gc.len() as int);
                        lemma_mm_props(
                            gc.update(i as int, mover),
                            rows,
                            cols,
                            d - 1,
                            !maximize,
                            player,
                        );
                    }
                    return (best_move, best_score);
                }
            } else {
                proof {
                    let fi1 = mm_fold(gc, rows, cols, d, maximize, player, i + 1);
                    assert(fi1 == mm_fold(gc, rows, cols, d, maximize, player, i as int));
                }
            }
            i += 1;
        }
        proof {
            lemma_mm_fold_props(gc, rows, cols, d, maximize, player, gc.len() as int);
        }
        (best_move, best_score)
    }

    /// Runs the pruned search for `player` on the engine's board, applies
    /// the chosen move (a terminal board is left unchanged) and returns a
    /// copy of the resulting board.  The move and the board are exactly
    /// those of `calculate_without_pruning` on the same inputs: pruning
    /// never changes the outcome.
    pub fn calculate(&mut self, player: FieldStates) -> (g: Grid)
        requires
            old(self).board().wf(),
            is_player(player),
            old(self).board().cells().len() + 11 <= i32::MAX,
        ensures
            final(self).board().wf(),
            final(self).board().spec_rows() == old(self).board().spec_rows(),
            final(self).board().spec_cols() == old(self).board().spec_cols(),
            g.spec_rows() == final(self).board().spec_rows(),
            g.spec_cols() == final(self).board().spec_cols(),
            g.cells() == final(self).board().cells(),
            ({
                let r = mm(
                    old(self).board().cells(),
                    old(self).board().spec_rows(),
                    old(self).board().spec_cols(),
                    old(self).board().spec_rows() * old(self).board().spec_cols(),
                    true,
                    player,
                );
                if r.0 >= 0 {
                    final(self).board().cells() == old(self).board().cells().update(r.0, player)
                } else {
                    final(self).board().cells() == old(self).board().cells()
                }
            }),
    {
        let size = self.grid.size();
        proof {
            assert(self.grid.spec_cols() * self.grid.spec_rows() == self.grid.spec_rows()
                * self.grid.spec_cols()) by (nonlinear_arith);
        }
        let depth = (size.1 * size.0) as i32;
        let (best_move, _score) = self.minimax(depth, true, i32::MIN, i32::MAX, player);
        proof {
            lemma_mm_props(
                self.grid.cells(),
                self.grid.spec_rows(),
                self.grid.spec_cols(),
                depth as int,
                true,
                player,
            );
        }
        if best_move >= 0 {
            let _ = self.grid.set_elem(best_move as usize, player);
        }
        self.grid.clone()
    }

    /// Runs the unpruned search for `player` on the engine's board,
    /// applies the chosen move (a terminal board is left unchanged) and
    /// returns a copy of the resulting board.
    pub fn calculate_without_pruning(&mut self, player: FieldStates) -> (g: Grid)
        requires
            old(self).board().wf(),
            is_player(player),
            old(self).board().cells().len() + 11 <= i32::MAX,
        ensures
            final(self).board().wf(),
            final(self).board().spec_rows() == old(self).board().spec_rows(),
            final(self).board().spec_cols() == old(self).board().spec_cols(),
            g.spec_rows() == final(self).board().spec_rows(),
            g.spec_cols() == final(self).board().spec_cols(),
            g.cells() == final(self).board().cells(),
            ({
                let r = mm(
                    old(self).board().cells(),
                    old(self).board().spec_rows(),
                    old(self).board().spec_cols(),
                    old(self).board().spec_rows() * old(self).board().spec_cols(),
                    true,
                    player,
                );
                if r.0 >= 0 {
                    final(self).board().cells() == old(self).board().cells().update(r.0, player)
                } else {
                    final(self).board().cells() == old(self).board().cells()
                }
            }),
    {
        let size = self.grid.size();
        proof {
            assert(self.grid.spec_cols() * self.grid.spec_rows() == self.grid.spec_rows()
                * self.grid.spec_cols()) by (nonlinear_arith);
        }
        let depth = (size.1 * size.0) as i32;
        let (best_move, _score) = self.minimax_simple(depth, true, player);
        proof {
            lemma_mm_props(
                self.grid.cells(),
                self.grid.spec_rows(),
                self.grid.spec_cols(),
                depth as int,
                true,
                player,
            );
        }
        if best_move >= 0 {
            let _ = self.grid.set_elem(best_move as usize, player);
        }
        self.grid.clone()
    }
}

} // verus!
