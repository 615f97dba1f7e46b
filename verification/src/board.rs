//! The mathematical model of a minefield: what a board is, and what each
//! operation makes of it.

use vstd::prelude::*;
use crate::cell::{Cell, CellState};
use crate::grid::BoardState;

verus! {

/// A minefield as a mathematical value: its size, and the square at each
/// position `(x, y)` with `0 <= x < width` and `0 <= y < height`.
pub struct Board {
    pub width: int,
    pub height: int,
    pub cells: Map<(int, int), Cell>,
}

/// Two different positions that touch, by a side or by a corner.
pub open spec fn adjacent(ax: int, ay: int, bx: int, by: int) -> bool {
    &&& ax != bx || ay != by
    &&& -1 <= bx - ax <= 1
    &&& -1 <= by - ay <= 1
}

/// The step to the `k`-th neighbor, clockwise from the upper left.
pub open spec fn neighbor_step(k: int) -> (int, int) {
    if k == 0 {
        (-1, -1)
    } else if k == 1 {
        (0, -1)
    } else if k == 2 {
        (1, -1)
    } else if k == 3 {
        (1, 0)
    } else if k == 4 {
        (1, 1)
    } else if k == 5 {
        (0, 1)
    } else if k == 6 {
        (-1, 1)
    } else {
        (-1, 0)
    }
}

/// The place that the step `(dx, dy)` has among the eight steps to a
/// neighbor, and 8 for any other step.
pub open spec fn neighbor_rank(dx: int, dy: int) -> int {
    if dx == -1 && dy == -1 {
        0
    } else if dx == 0 && dy == -1 {
        1
    } else if dx == 1 && dy == -1 {
        2
    } else if dx == 1 && dy == 0 {
        3
    } else if dx == 1 && dy == 1 {
        4
    } else if dx == 0 && dy == 1 {
        5
    } else if dx == -1 && dy == 1 {
        6
    } else if dx == -1 && dy == 0 {
        7
    } else {
        8
    }
}

impl Board {
    /// Whether `(x, y)` is a position of the board.
    pub open spec fn in_bounds(self, x: int, y: int) -> bool {
        0 <= x < self.width && 0 <= y < self.height
    }

    /// Whether `(x, y)` is a position of the board that holds a mine.
    pub open spec fn mine_at(self, x: int, y: int) -> bool {
        self.in_bounds(x, y) && self.cells[(x, y)].has_mine
    }

    /// 1 where `(x, y)` holds a mine, else 0.
    pub open spec fn mine_weight(self, x: int, y: int) -> int {
        if self.mine_at(x, y) {
            1
        } else {
            0
        }
    }

    /// The number of mines on the up to eight positions around `(x, y)`.
    pub open spec fn mined_neighbors(self, x: int, y: int) -> int {
        self.mine_weight(x - 1, y - 1) + self.mine_weight(x, y - 1)
            + self.mine_weight(x + 1, y - 1) + self.mine_weight(x + 1, y)
            + self.mine_weight(x + 1, y + 1) + self.mine_weight(x, y + 1)
            + self.mine_weight(x - 1, y + 1) + self.mine_weight(x - 1, y)
    }

    /// The board has a square at each of its positions and nowhere else.
    pub open spec fn shaped(self) -> bool {
        &&& self.width > 0
        &&& self.height > 0
        &&& forall|x: int, y: int| #[trigger]
            self.cells.dom().contains((x, y)) <==> self.in_bounds(x, y)
    }

    /// Every square knows how many of its neighbors are mined.
    pub open spec fn counted(self) -> bool {
        forall|x: int, y: int| #[trigger]
            self.in_bounds(x, y) ==> self.cells[(x, y)].neighboring_mines == self.mined_neighbors(
                x,
                y,
            )
    }

    /// A board is well formed when it is shaped and counted.
    pub open spec fn wf(self) -> bool {
        self.shaped() && self.counted()
    }

    /// The board of the given size on which every square is blank.
    pub open spec fn blank(width: int, height: int) -> Board {
        Board {
            width,
            height,
            cells: Map::new(
                |p: (int, int)| 0 <= p.0 < width && 0 <= p.1 < height,
                |p: (int, int)| Cell::blank(),
            ),
        }
    }

    /// Whether every square without a mine is exposed.
    pub open spec fn cleared(self) -> bool {
        forall|x: int, y: int| #[trigger]
            self.in_bounds(x, y) && !self.cells[(x, y)].has_mine ==> self.cells[(x, y)].state
                == CellState::Exposed
    }

    /// This board with every mined square exposed.
    pub open spec fn mines_revealed(self) -> Board {
        Board {
            cells: Map::new(
                |p: (int, int)| self.in_bounds(p.0, p.1),
                |p: (int, int)|
                    if self.cells[p].has_mine {
                        self.cells[p].exposed()
                    } else {
                        self.cells[p]
                    },
            ),
            ..self
        }
    }

    /// A square that a flood fill may expose: covered and without a mine.
    pub open spec fn fillable(self, x: int, y: int) -> bool {
        &&& self.in_bounds(x, y)
        &&& self.cells[(x, y)].state == CellState::Covered
        &&& !self.cells[(x, y)].has_mine
    }

    /// A square from which a flood fill goes on: fillable, with no mined
    /// neighbor.
    pub open spec fn spreads(self, x: int, y: int) -> bool {
        self.fillable(x, y) && self.cells[(x, y)].neighboring_mines == 0
    }

    /// A flood fill that exposes `(ax, ay)` goes on to `(bx, by)`.
    pub open spec fn fill_step(self, ax: int, ay: int, bx: int, by: int) -> bool {
        self.spreads(ax, ay) && self.fillable(bx, by) && adjacent(ax, ay, bx, by)
    }

    /// A walk over fillable squares on which every square but the last has
    /// no mined neighbor.
    pub open spec fn fill_path(self, path: Seq<(int, int)>) -> bool {
        &&& path.len() > 0
        &&& self.fillable(path[0].0, path[0].1)
        &&& forall|i: int|
            0 <= i < path.len() - 1 ==> self.fill_step(
                (#[trigger] path[i]).0,
                path[i].1,
                path[i + 1].0,
                path[i + 1].1,
            )
    }

    /// A flood fill that starts at `(sx, sy)` exposes `(tx, ty)`.
    pub open spec fn fill_reaches(self, sx: int, sy: int, tx: int, ty: int) -> bool {
        exists|path: Seq<(int, int)>|
            #[trigger] self.fill_path(path) && path[0] == (sx, sy) && path.last() == (tx, ty)
    }

    /// This board after a flood fill from `(x, y)`: the squares that the
    /// fill reaches are exposed, the others are as they were.
    pub open spec fn flooded(self, x: int, y: int) -> Board {
        Board {
            cells: Map::new(
                |p: (int, int)| self.in_bounds(p.0, p.1),
                |p: (int, int)|
                    if self.fill_reaches(x, y, p.0, p.1) {
                        self.cells[p].exposed()
                    } else {
                        self.cells[p]
                    },
            ),
            ..self
        }
    }

    /// This board after a click on `(x, y)`. A click off the board, or on a
    /// square that is not covered, changes nothing. A click on a mine
    /// exposes every mine. Any other click starts a flood fill.
    pub open spec fn uncovered(self, x: int, y: int) -> Board {
        if !self.in_bounds(x, y) || self.cells[(x, y)].state != CellState::Covered {
            self
        } else if self.cells[(x, y)].has_mine {
            self.mines_revealed()
        } else {
            self.flooded(x, y)
        }
    }

    /// What a click on `(x, y)` leads to: nothing where it changes nothing,
    /// a detonation on a mine, and otherwise a cleared board or not.
    pub open spec fn outcome(self, x: int, y: int) -> BoardState {
        if !self.in_bounds(x, y) || self.cells[(x, y)].state != CellState::Covered {
            BoardState::InProgress
        } else if self.cells[(x, y)].has_mine {
            BoardState::Detonated
        } else if self.flooded(x, y).cleared() {
            BoardState::Cleared
        } else {
            BoardState::InProgress
        }
    }

    /// This board after the flag at `(x, y)` was toggled: a covered square
    /// gets a flag, a flagged square loses it, and nothing else changes.
    pub open spec fn toggled(self, x: int, y: int) -> Board {
        if !self.in_bounds(x, y) {
            self
        } else {
            match self.cells[(x, y)].state {
                CellState::Covered => self.with_cell(
                    x,
                    y,
                    self.cells[(x, y)].with_state(CellState::Flagged),
                ),
                CellState::Flagged => self.with_cell(
                    x,
                    y,
                    self.cells[(x, y)].with_state(CellState::Covered),
                ),
                CellState::Exposed => self,
            }
        }
    }

    /// By how much toggling the flag at `(x, y)` changes the number of flags.
    pub open spec fn flag_delta(self, x: int, y: int) -> int {
        if !self.in_bounds(x, y) {
            0
        } else {
            match self.cells[(x, y)].state {
                CellState::Covered => 1,
                CellState::Flagged => -1,
                CellState::Exposed => 0,
            }
        }
    }

    /// This board with a new mine at `(x, y)`, counted by each neighbor.
    pub open spec fn with_mine(self, x: int, y: int) -> Board {
        Board {
            cells: Map::new(
                |p: (int, int)| self.in_bounds(p.0, p.1),
                |p: (int, int)|
                    if p.0 == x && p.1 == y {
                        self.cells[p].mined()
                    } else if adjacent(x, y, p.0, p.1) {
                        self.cells[p].bumped()
                    } else {
                        self.cells[p]
                    },
            ),
            ..self
        }
    }

    /// This board after a mine was placed at `(x, y)`. Off the board, and
    /// where there is a mine already, nothing changes.
    pub open spec fn mine_placed(self, x: int, y: int) -> Board {
        if self.in_bounds(x, y) && !self.cells[(x, y)].has_mine {
            self.with_mine(x, y)
        } else {
            self
        }
    }

    /// This board after a mine was placed at each of `targets` in turn.
    pub open spec fn mines_placed(self, targets: Seq<(int, int)>) -> Board
        decreases targets.len(),
    {
        if targets.len() == 0 {
            self
        } else {
            self.mines_placed(targets.drop_last()).mine_placed(
                targets.last().0,
                targets.last().1,
            )
        }
    }

    /// The squares on the board among the first `k` neighbors of `(x, y)`,
    /// clockwise from the upper left.
    pub open spec fn neighbors_upto(self, x: int, y: int, k: int) -> Seq<Cell>
        decreases k,
    {
        if k <= 0 {
            Seq::empty()
        } else {
            let rest = self.neighbors_upto(x, y, k - 1);
            let nx = x + neighbor_step(k - 1).0;
            let ny = y + neighbor_step(k - 1).1;
            if self.in_bounds(nx, ny) {
                rest.push(self.cells[(nx, ny)])
            } else {
                rest
            }
        }
    }

    /// The number of mines on the first `k` positions around `(x, y)`.
    pub open spec fn mined_upto(self, x: int, y: int, k: int) -> int
        decreases k,
    {
        if k <= 0 {
            0
        } else {
            self.mined_upto(x, y, k - 1) + self.mine_weight(
                x + neighbor_step(k - 1).0,
                y + neighbor_step(k - 1).1,
            )
        }
    }

    /// The squares around `(x, y)` that are on the board, clockwise from the
    /// upper left; none where `(x, y)` itself is off the board.
    pub open spec fn neighbors_of(self, x: int, y: int) -> Seq<Cell> {
        if self.in_bounds(x, y) {
            self.neighbors_upto(x, y, 8)
        } else {
            Seq::empty()
        }
    }

    /// The first `n` squares of row `y` as text, with a space between two
    /// squares.
    pub open spec fn row_text(self, y: int, n: int) -> Seq<char>
        decreases n,
    {
        if n <= 0 {
            Seq::empty()
        } else if n == 1 {
            seq![self.cells[(0, y)].symbol()]
        } else {
            self.row_text(y, n - 1) + seq![' ', self.cells[(n - 1, y)].symbol()]
        }
    }

    /// The first `n` rows as text, with a line break between two rows.
    pub open spec fn rows_text(self, n: int) -> Seq<char>
        decreases n,
    {
        if n <= 0 {
            Seq::empty()
        } else if n == 1 {
            self.row_text(0, self.width)
        } else {
            self.rows_text(n - 1) + seq!['\n'] + self.row_text(n - 1, self.width)
        }
    }

    /// The board as text: the rows from the top, a line break between two
    /// rows, a space between two squares of a row.
    pub open spec fn text(self) -> Seq<char> {
        self.rows_text(self.height)
    }

    /// This board with `c` at `(x, y)`.
    pub open spec fn with_cell(self, x: int, y: int, c: Cell) -> Board {
        Board { cells: self.cells.insert((x, y), c), ..self }
    }
}

/// The number of mined squares in `cells`.
pub open spec fn mined_among(cells: Seq<Cell>) -> nat
    decreases cells.len(),
{
    if cells.len() == 0 {
        0
    } else {
        mined_among(cells.drop_last()) + if cells.last().has_mine {
            1nat
        } else {
            0nat
        }
    }
}

/// Whether `(px, py)` comes before `(x, y)` when the board is read row by
/// row.
pub open spec fn scanned(px: int, py: int, x: int, y: int) -> bool {
    py < y || (py == y && px < x)
}

} // verus!
