//! The minefield as it is stored: a row-major array of squares.

use vstd::prelude::*;
use vstd::string::StringExecFns;
use crate::board::{mined_among, neighbor_rank, neighbor_step, scanned, Board};
use crate::cell::{Cell, CellState};
use crate::counts::{
    lemma_neighbors_hold_the_count, lemma_spreading_begin, lemma_spreading_end,
    lemma_spreading_step, lemma_states_keep_wf, mine_spreading,
};
use crate::flood::{
    fill_frontier, fill_sound, lemma_fill_begin, lemma_fill_end, lemma_fill_pop, lemma_fill_skip,
    lemma_fill_stop, lemma_fill_take, work_visited,
};
use crate::laws::{law_clearing_spares_mines, law_detonation_exposes_mines};

verus! {

/// What a click on the minefield led to.
#[derive(Clone, Copy, Debug, PartialEq, Eq, Structural)]
pub enum BoardState {
    InProgress,
    Cleared,
    Detonated,
}

/// Why a minefield could not be made.
#[derive(Clone, Copy, Debug, PartialEq, Eq, Structural)]
pub enum GridError {
    /// The width asked for is zero or negative.
    NonPositiveWidth,
    /// The height asked for is zero or negative.
    NonPositiveHeight,
}

/// A minefield of `width` by `height` squares. The square at `(x, y)` is
/// stored at index `x + y * width`.
pub struct Grid {
    cells: Vec<Cell>,
    width: i32,
    height: i32,
}

/// 1 for a covered square, else 0.
spec fn covered_weight(c: Cell) -> nat {
    if c.state == CellState::Covered {
        1
    } else {
        0
    }
}

/// The number of covered squares in `cells`.
spec fn covered_count(cells: Seq<Cell>) -> nat
    decreases cells.len(),
{
    if cells.len() == 0 {
        0
    } else {
        covered_count(cells.drop_last()) + covered_weight(cells.last())
    }
}

/// Putting another square at one place changes the number of covered squares
/// by the difference of the two weights.
proof fn lemma_covered_count_update(cells: Seq<Cell>, i: int, c: Cell)
    requires
        0 <= i < cells.len(),
    ensures
        covered_count(cells.update(i, c)) + covered_weight(cells[i]) == covered_count(cells)
            + covered_weight(c),
    decreases cells.len(),
{
    let after = cells.update(i, c);
    if i == cells.len() - 1 {
        assert(after.drop_last() =~= cells.drop_last());
    } else {
        lemma_covered_count_update(cells.drop_last(), i, c);
        assert(after.drop_last() =~= cells.drop_last().update(i, c));
    }
}

/// Where the square at `(x, y)` is stored on a board of the given width.
spec fn index_of(width: int, x: int, y: int) -> int {
    x + y * width
}

/// A position on the board is stored inside the array.
proof fn lemma_index_in_range(width: int, height: int, x: int, y: int)
    requires
        0 <= x < width,
        0 <= y < height,
    ensures
        0 <= y * width,
        0 <= index_of(width, x, y) < width * height,
        width * height == height * width,
{
    assert(0 <= y * width && y * width + width <= width * height && width * height == height
        * width) by (nonlinear_arith)
        requires
            0 <= y,
            y + 1 <= height,
            0 < width,
    ;
}

/// Two positions are stored at different places.
proof fn lemma_index_injective(width: int, ax: int, ay: int, bx: int, by: int)
    requires
        0 <= ax < width,
        0 <= bx < width,
        ax + ay * width == bx + by * width,
    ensures
        ax == bx,
        ay == by,
{
    assert(ay == by) by (nonlinear_arith)
        requires
            0 <= ax < width,
            0 <= bx < width,
            ax + ay * width == bx + by * width,
    {
        if ay < by {
            assert((by - ay) * width >= width);
        } else if by < ay {
            assert((ay - by) * width >= width);
        }
    }
}

/// The squares that `cells` refers to.
pub open spec fn cells_of(cells: Seq<&Cell>) -> Seq<Cell> {
    Seq::new(cells.len(), |i: int| *cells[i])
}

/// The step to the `k`-th neighbor, clockwise from the upper left.
fn neighbor_offset(k: usize) -> (step: (i32, i32))
    requires
        k < 8,
    ensures
        (step.0 as int, step.1 as int) == neighbor_step(k as int),
        neighbor_rank(step.0 as int, step.1 as int) == k,
        -1 <= step.0 <= 1,
        -1 <= step.1 <= 1,
{
    if k == 0 {
        (-1, -1)
    } else if k == 1 {
        (0, -1)
    } else if k == 2 {
        (1, -1)
    } else if k == 3 {
        (1, 0)
    } else if k == 4 {
        (1, 1)
    } else if k == 5 {
        (0, 1)
    } else if k == 6 {
        (-1, 1)
    } else {
        (-1, 0)
    }
}

/// The character that shows `cell` in a text dump, as a string.
fn cell_text(cell: &Cell) -> (text: &'static str)
    ensures
        text@ == seq![cell.symbol()],
{
    proof {
        reveal_strlit("-");
        reveal_strlit("F");
        reveal_strlit("%");
        reveal_strlit("0");
        reveal_strlit("1");
        reveal_strlit("2");
        reveal_strlit("3");
        reveal_strlit("4");
        reveal_strlit("5");
        reveal_strlit("6");
        reveal_strlit("7");
        reveal_strlit("8");
        reveal_strlit("9");
    }
    let c = cell.glyph();
    let text = if c == '-' {
        "-"
    } else if c == 'F' {
        "F"
    } else if c == '%' {
        "%"
    } else if c == '0' {
        "0"
    } else if c == '1' {
        "1"
    } else if c == '2' {
        "2"
    } else if c == '3' {
        "3"
    } else if c == '4' {
        "4"
    } else if c == '5' {
        "5"
    } else if c == '6' {
        "6"
    } else if c == '7' {
        "7"
    } else if c == '8' {
        "8"
    } else {
        "9"
    };
    assert(text@ =~= seq![cell.symbol()]);
    text
}

impl View for Grid {
    type V = Board;

    closed spec fn view(&self) -> Board {
        Board {
            width: self.width as int,
            height: self.height as int,
            cells: Map::new(
                |p: (int, int)| 0 <= p.0 < self.width && 0 <= p.1 < self.height,
                |p: (int, int)| self.cells@[index_of(self.width as int, p.0, p.1)],
            ),
        }
    }
}

impl Grid {
    /// The array holds exactly one square for each position.
    pub closed spec fn inv(&self) -> bool {
        &&& self.width > 0
        &&& self.height > 0
        &&& self.cells@.len() == self.width * self.height
    }

    /// The minefield is well formed: it is stored as it should be, and every
    /// square knows how many of its neighbors are mined.
    pub open spec fn wf(&self) -> bool {
        self.inv() && self@.wf()
    }

    /// The number of covered squares.
    spec fn covered(&self) -> nat {
        covered_count(self.cells@)
    }

    /// A stored minefield has the shape of a board.
    pub proof fn lemma_shaped(&self)
        requires
            self.inv(),
        ensures
            self@.shaped(),
            i32::MIN <= self@.width <= i32::MAX,
            i32::MIN <= self@.height <= i32::MAX,
    {
    }

    /// A minefield of the given size with every square covered and no mine,
    /// or the reason why there is no such minefield.
    pub fn new(width: i32, height: i32) -> (made: Result<Grid, GridError>)
        ensures
            width <= 0 ==> made == Err::<Grid, GridError>(GridError::NonPositiveWidth),
            width > 0 && height <= 0 ==> made == Err::<Grid, GridError>(
                GridError::NonPositiveHeight,
            ),
            width > 0 && height > 0 ==> made is Ok && made->Ok_0.wf() && made->Ok_0@
                == Board::blank(width as int, height as int),
    {
        if width <= 0 {
            return Err(GridError::NonPositiveWidth);
        }
        if height <= 0 {
            return Err(GridError::NonPositiveHeight);
        }
        let mut cells: Vec<Cell> = Vec::new();
        let mut y: i32 = 0;
        while y < height
            invariant
                0 <= y <= height,
                width > 0,
                cells@.len() == y * width,
                forall|i: int| 0 <= i < cells@.len() ==> cells@[i] == Cell::blank(),
            decreases height - y,
        {
            let mut x: i32 = 0;
            while x < width
                invariant
                    0 <= x <= width,
                    0 <= y < height,
                    cells@.len() == y * width + x,
                    forall|i: int| 0 <= i < cells@.len() ==> cells@[i] == Cell::blank(),
                decreases width - x,
            {
                cells.push(Cell::new(CellState::Covered, false, 0));
                x += 1;
            }
            assert(y * width + width == (y + 1) * width) by (nonlinear_arith);
            y += 1;
        }
        assert(height * width == width * height) by (nonlinear_arith);
        let grid = Grid { cells, width, height };
        proof {
            assert forall|p: (int, int)| 0 <= p.0 < width && 0 <= p.1 < height implies 0
                <= #[trigger] index_of(width as int, p.0, p.1) < grid.cells@.len() by {
                lemma_index_in_range(width as int, height as int, p.0, p.1);
            }
            assert(grid@.cells =~= Board::blank(width as int, height as int).cells);
        }
        Ok(grid)
    }

    /// The number of squares in a row.
    pub fn width(&self) -> (w: i32)
        ensures
            w == self@.width,
    {
        self.width
    }

    /// The number of rows.
    pub fn height(&self) -> (h: i32)
        ensures
            h == self@.height,
    {
        self.height
    }

    /// The index of the square at `(x, y)`, or `None` where the position is
    /// off the board.
    fn coord_to_index(&self, x: i32, y: i32) -> (index: Option<usize>)
        requires
            self.inv(),
        ensures
            self@.in_bounds(x as int, y as int) ==> index is Some && index->Some_0 == index_of(
                self.width as int,
                x as int,
                y as int,
            ) && index->Some_0 < self.cells@.len(),
            !self@.in_bounds(x as int, y as int) ==> index.is_none(),
    {
        if x >= 0 && x < self.width && y >= 0 && y < self.height {
            let len: usize = self.cells.len();
            proof {
                lemma_index_in_range(self.width as int, self.height as int, x as int, y as int);
            }
            Some(x as usize + y as usize * self.width as usize)
        } else {
            None
        }
    }

    /// The square at `(x, y)`, or `None` where the position is off the board.
    pub fn get(&self, x: i32, y: i32) -> (cell: Option<Cell>)
        requires
            self.inv(),
        ensures
            self@.in_bounds(x as int, y as int) ==> cell == Some(self@.cells[(x as int, y as int)]),
            !self@.in_bounds(x as int, y as int) ==> cell.is_none(),
    {
        match self.coord_to_index(x, y) {
            Some(index) => Some(self.cells[index]),
            None => None,
        }
    }

    /// Puts `c` at `(x, y)`.
    fn set_cell(&mut self, x: i32, y: i32, c: Cell)
        requires
            old(self).inv(),
            old(self)@.in_bounds(x as int, y as int),
        ensures
            final(self).inv(),
            final(self)@ == old(self)@.with_cell(x as int, y as int, c),
            final(self).covered() + covered_weight(old(self)@.cells[(x as int, y as int)]) == old(
                self,
            ).covered() + covered_weight(c),
    {
        let index = self.coord_to_index(x, y).unwrap();
        proof {
            lemma_covered_count_update(self.cells@, index as int, c);
            assert forall|p: (int, int)|
                0 <= p.0 < self.width && 0 <= p.1 < self.height && p != (
                    x as int,
                    y as int,
                ) implies #[trigger] index_of(self.width as int, p.0, p.1) != index by {
                if index_of(self.width as int, p.0, p.1) == index {
                    lemma_index_injective(self.width as int, p.0, p.1, x as int, y as int);
                }
            }
        }
        self.cells.set(index, c);
        proof {
            let want = old(self)@.with_cell(x as int, y as int, c);
            assert forall|p: (int, int)| self@.cells.dom().contains(p) implies self@.cells[p]
                == want.cells[p] by {
                if p == (x as int, y as int) {
                    assert(self@.cells[p] == c);
                } else {
                    lemma_index_in_range(self.width as int, self.height as int, p.0, p.1);
                    assert(index_of(self.width as int, p.0, p.1) != index);
                }
            }
            assert(self@.cells =~= want.cells);
        }
    }

    /// Exposes `(x, y)` and, from every exposed square with no mined
    /// neighbor, each neighbor that is covered and holds no mine.
    fn flood_fill(&mut self, x: i32, y: i32)
        requires
            old(self).inv(),
            old(self)@.fillable(x as int, y as int),
        ensures
            final(self).inv(),
            final(self)@ == old(self)@.flooded(x as int, y as int),
    {
        let ghost start = self@;
        let ghost sx = x as int;
        let ghost sy = y as int;
        proof {
            self.lemma_shaped();
        }
        let first = self.get(x, y).unwrap();
        self.set_cell(
            x,
            y,
            Cell {
                state: CellState::Exposed,
                has_mine: first.has_mine,
                neighboring_mines: first.neighboring_mines,
            },
        );
        let mut work: Vec<(i32, i32)> = Vec::new();
        work.push((x, y));
        proof {
            lemma_fill_begin(start, self@, work@, sx, sy);
        }
        while work.len() > 0
            invariant
                self.inv(),
                fill_sound(start, self@, sx, sy),
                fill_frontier(start, self@, work@, 0, 0, 8),
                work_visited(start, self@, work@, sx, sy),
            decreases 2 * self.covered() + work.len(),
        {
            let ghost waiting = work@;
            let ghost budget = 2 * self.covered() + work.len();
            let (cx, cy) = work.pop().unwrap();
            proof {
                lemma_fill_pop(start, self@, waiting, sx, sy);
                self.lemma_shaped();
            }
            let c = self.get(cx, cy).unwrap();
            if c.neighboring_mines == 0 {
                let mut k: usize = 0;
                while k < 8
                    invariant
                        0 <= k <= 8,
                        self.inv(),
                        self@.in_bounds(cx as int, cy as int),
                        fill_sound(start, self@, sx, sy),
                        fill_frontier(start, self@, work@, cx as int, cy as int, k as int),
                        work_visited(start, self@, work@, sx, sy),
                        start.fill_reaches(sx, sy, cx as int, cy as int),
                        start.spreads(cx as int, cy as int),
                        2 * self.covered() + work.len() < budget,
                    decreases 8 - k,
                {
                    let (dx, dy) = neighbor_offset(k);
                    proof {
                        self.lemma_shaped();
                    }
                    let bx: i32 = cx + dx;
                    let by: i32 = cy + dy;
                    match self.get(bx, by) {
                        Some(b) => {
                            if b.state == CellState::Covered && !b.has_mine {
                                proof {
                                    lemma_fill_take(
                                        start,
                                        self@,
                                        work@,
                                        sx,
                                        sy,
                                        cx as int,
                                        cy as int,
                                        k as int,
                                        (bx, by),
                                    );
                                }
                                self.set_cell(
                                    bx,
                                    by,
                                    Cell {
                                        state: CellState::Exposed,
                                        has_mine: b.has_mine,
                                        neighboring_mines: b.neighboring_mines,
                                    },
                                );
                                work.push((bx, by));
                            } else {
                                proof {
                                    lemma_fill_skip(
                                        start,
                                        self@,
                                        work@,
                                        sx,
                                        sy,
                                        cx as int,
                                        cy as int,
                                        k as int,
                                    );
                                }
                            }
                        },
                        None => {
                            proof {
                                lemma_fill_skip(
                                    start,
                                    self@,
                                    work@,
                                    sx,
                                    sy,
                                    cx as int,
                                    cy as int,
                                    k as int,
                                );
                            }
                        },
                    }
                    k += 1;
                }
                proof {
                    lemma_fill_stop(start, self@, work@, cx as int, cy as int, 8);
                }
            } else {
                proof {
                    lemma_fill_stop(start, self@, work@, cx as int, cy as int, 0);
                }
            }
        }
        proof {
            assert(work@ =~= Seq::empty());
            lemma_fill_end(start, self@, sx, sy);
        }
    }

    /// Whether every square without a mine is exposed.
    pub fn is_cleared(&self) -> (cleared: bool)
        requires
            self.inv(),
        ensures
            cleared == self@.cleared(),
    {
        let mut y: i32 = 0;
        while y < self.height
            invariant
                self.inv(),
                0 <= y <= self.height,
                forall|px: int, py: int| #[trigger]
                    self@.in_bounds(px, py) && py < y && !self@.cells[(px, py)].has_mine
                        ==> self@.cells[(px, py)].state == CellState::Exposed,
            decreases self.height - y,
        {
            let mut x: i32 = 0;
            while x < self.width
                invariant
                    self.inv(),
                    0 <= y < self.height,
                    0 <= x <= self.width,
                    forall|px: int, py: int| #[trigger]
                        self@.in_bounds(px, py) && scanned(px, py, x as int, y as int)
                            && !self@.cells[(px, py)].has_mine ==> self@.cells[(px, py)].state
                            == CellState::Exposed,
                decreases self.width - x,
            {
                let c = self.get(x, y).unwrap();
                if !c.has_mine && c.state != CellState::Exposed {
                    assert(self@.in_bounds(x as int, y as int));
                    return false;
                }
                x += 1;
            }
            y += 1;
        }
        true
    }

    /// Exposes every mined square.
    pub fn uncover_bombs(&mut self)
        requires
            old(self).wf(),
        ensures
            final(self).wf(),
            final(self)@ == old(self)@.mines_revealed(),
    {
        let ghost start = self@;
        let mut y: i32 = 0;
        while y < self.height
            invariant
                self.inv(),
                0 <= y <= self.height,
                self@.width == start.width,
                self@.height == start.height,
                forall|px: int, py: int| #[trigger]
                    start.in_bounds(px, py) ==> self@.cells[(px, py)] == if py < y && start.cells[(
                        px,
                        py,
                    )].has_mine {
                        start.cells[(px, py)].exposed()
                    } else {
                        start.cells[(px, py)]
                    },
            decreases self.height - y,
        {
            let mut x: i32 = 0;
            while x < self.width
                invariant
                    self.inv(),
                    0 <= y < self.height,
                    0 <= x <= self.width,
                    self@.width == start.width,
                    self@.height == start.height,
                    forall|px: int, py: int| #[trigger]
                        start.in_bounds(px, py) ==> self@.cells[(px, py)] == if scanned(
                            px,
                            py,
                            x as int,
                            y as int,
                        ) && start.cells[(px, py)].has_mine {
                            start.cells[(px, py)].exposed()
                        } else {
                            start.cells[(px, py)]
                        },
                decreases self.width - x,
            {
                assert(start.in_bounds(x as int, y as int));
                let c = self.get(x, y).unwrap();
                if c.has_mine {
                    self.set_cell(
                        x,
                        y,
                        Cell {
                            state: CellState::Exposed,
                            has_mine: c.has_mine,
                            neighboring_mines: c.neighboring_mines,
                        },
                    );
                }
                x += 1;
            }
            y += 1;
        }
        proof {
            self.lemma_shaped();
            let want = start.mines_revealed();
            assert forall|p: (int, int)| self@.cells.dom().contains(p) implies self@.cells[p]
                == want.cells[p] by {
                assert(self@.cells.dom().contains((p.0, p.1)));
                assert(start.in_bounds(p.0, p.1));
            }
            assert forall|p: (int, int)|
                self@.cells.dom().contains(p) <==> want.cells.dom().contains(p) by {
                assert(self@.cells.dom().contains((p.0, p.1)) <==> self@.in_bounds(p.0, p.1));
            }
            assert(self@.cells =~= want.cells);
            assert(start.cells.dom() =~= want.cells.dom()) by {
                assert forall|p: (int, int)|
                    start.cells.dom().contains(p) <==> want.cells.dom().contains(p) by {
                    assert(start.cells.dom().contains((p.0, p.1)) <==> start.in_bounds(p.0, p.1));
                }
            }
            lemma_states_keep_wf(start, want);
        }
    }

    /// A click on `(x, y)`. Off the board, or on a square that is exposed or
    /// flagged, it changes nothing. On a mine it exposes every mine, and the
    /// board has detonated. On any other square it starts a flood fill; the
    /// board is cleared where every square without a mine is then exposed.
    pub fn uncover(&mut self, x: i32, y: i32) -> (outcome: BoardState)
        requires
            old(self).wf(),
        ensures
            final(self).wf(),
            final(self)@ == old(self)@.uncovered(x as int, y as int),
            outcome == old(self)@.outcome(x as int, y as int),
            outcome == BoardState::Detonated ==> forall|px: int, py: int| #[trigger]
                final(self)@.mine_at(px, py) ==> final(self)@.cells[(px, py)].state
                    == CellState::Exposed,
            outcome == BoardState::Cleared ==> final(self)@.cleared(),
            outcome != BoardState::Detonated ==> forall|px: int, py: int| #[trigger]
                final(self)@.mine_at(px, py) ==> final(self)@.cells[(px, py)] == old(
                    self,
                )@.cells[(px, py)],
    {
        proof {
            self.lemma_shaped();
            if self@.outcome(x as int, y as int) == BoardState::Detonated {
                law_detonation_exposes_mines(self@, x as int, y as int);
            } else {
                law_clearing_spares_mines(self@, x as int, y as int);
            }
        }
        match self.get(x, y) {
            None => BoardState::InProgress,
            Some(c) => {
                if c.state != CellState::Covered {
                    BoardState::InProgress
                } else if c.has_mine {
                    self.uncover_bombs();
                    BoardState::Detonated
                } else {
                    self.flood_fill(x, y);
                    proof {
                        let start = old(self)@;
                        let want = start.flooded(x as int, y as int);
                        assert(start.cells.dom() =~= want.cells.dom()) by {
                            assert forall|p: (int, int)|
                                start.cells.dom().contains(p) <==> want.cells.dom().contains(
                                    p,
                                ) by {
                                assert(start.cells.dom().contains((p.0, p.1)) <==> start.in_bounds(
                                    p.0,
                                    p.1,
                                ));
                            }
                        }
                        lemma_states_keep_wf(start, want);
                    }
                    if self.is_cleared() {
                        BoardState::Cleared
                    } else {
                        BoardState::InProgress
                    }
                }
            },
        }
    }

    /// Toggles the flag at `(x, y)` and tells by how much the number of
    /// flags changed: a covered square gets a flag (+1), a flagged square
    /// loses it (-1), and anything else stays as it is (0).
    pub fn toggle_flag(&mut self, x: i32, y: i32) -> (delta: i32)
        requires
            old(self).wf(),
        ensures
            final(self).wf(),
            final(self)@ == old(self)@.toggled(x as int, y as int),
            delta == old(self)@.flag_delta(x as int, y as int),
    {
        match self.get(x, y) {
            None => 0,
            Some(c) => {
                let delta: i32 = match c.state {
                    CellState::Flagged => {
                        self.set_cell(
                            x,
                            y,
                            Cell {
                                state: CellState::Covered,
                                has_mine: c.has_mine,
                                neighboring_mines: c.neighboring_mines,
                            },
                        );
                        -1
                    },
                    CellState::Covered => {
                        self.set_cell(
                            x,
                            y,
                            Cell {
                                state: CellState::Flagged,
                                has_mine: c.has_mine,
                                neighboring_mines: c.neighboring_mines,
                            },
                        );
                        1
                    },
                    CellState::Exposed => 0,
                };
                proof {
                    let start = old(self)@;
                    let want = start.toggled(x as int, y as int);
                    assert(start.cells.dom() =~= want.cells.dom());
                    lemma_states_keep_wf(start, want);
                }
                delta
            },
        }
    }

    /// The squares around `(x, y)` that are on the board, clockwise from the
    /// upper left. Off the board there are none.
    pub fn get_neighbors(&self, x: i32, y: i32) -> (neighbors: Vec<&Cell>)
        requires
            self.inv(),
        ensures
            cells_of(neighbors@) == self@.neighbors_of(x as int, y as int),
    {
        let mut neighbors: Vec<&Cell> = Vec::new();
        if self.coord_to_index(x, y).is_none() {
            assert(cells_of(neighbors@) =~= Seq::<Cell>::empty());
            return neighbors;
        }
        proof {
            self.lemma_shaped();
        }
        let mut k: usize = 0;
        assert(cells_of(neighbors@) =~= self@.neighbors_upto(x as int, y as int, 0));
        while k < 8
            invariant
                0 <= k <= 8,
                self.inv(),
                self@.in_bounds(x as int, y as int),
                cells_of(neighbors@) == self@.neighbors_upto(x as int, y as int, k as int),
            decreases 8 - k,
        {
            let (dx, dy) = neighbor_offset(k);
            let ghost listed = cells_of(neighbors@);
            match self.coord_to_index(x + dx, y + dy) {
                Some(index) => {
                    neighbors.push(&self.cells[index]);
                    assert(cells_of(neighbors@) =~= listed.push(self.cells@[index as int]));
                },
                None => {},
            }
            k += 1;
        }
        neighbors
    }

    /// The number of mined squares in `cells`.
    fn count_mines(cells: &Vec<&Cell>) -> (mines: u8)
        requires
            cells@.len() <= 8,
        ensures
            mines == mined_among(cells_of(cells@)),
    {
        let ghost all = cells_of(cells@);
        let mut mines: u8 = 0;
        let mut i: usize = 0;
        while i < cells.len()
            invariant
                i <= cells@.len() <= 8,
                all == cells_of(cells@),
                mines == mined_among(all.subrange(0, i as int)),
                mines <= i,
            decreases cells@.len() - i,
        {
            assert(all.subrange(0, i + 1).drop_last() =~= all.subrange(0, i as int));
            if cells[i].has_mine {
                mines += 1;
            }
            i += 1;
        }
        assert(all.subrange(0, i as int) =~= all);
        mines
    }

    /// Places a mine at `(x, y)`: the square counts the mines around it,
    /// and each neighbor counts one mine more. Off the board, and where
    /// there is a mine already, nothing changes.
    pub fn place_mine(&mut self, x: i32, y: i32)
        requires
            old(self).wf(),
        ensures
            final(self).wf(),
            final(self)@ == old(self)@.mine_placed(x as int, y as int),
    {
        let ghost start = self@;
        let ghost mx = x as int;
        let ghost my = y as int;
        match self.get(x, y) {
            None => {},
            Some(c) => {
                if !c.has_mine {
                    proof {
                        self.lemma_shaped();
                        lemma_neighbors_hold_the_count(start, mx, my);
                    }
                    let around = self.get_neighbors(x, y);
                    let mines = Grid::count_mines(&around);
                    self.set_cell(
                        x,
                        y,
                        Cell { state: c.state, has_mine: true, neighboring_mines: mines },
                    );
                    proof {
                        lemma_spreading_begin(start, self@, mx, my);
                    }
                    let mut k: usize = 0;
                    while k < 8
                        invariant
                            0 <= k <= 8,
                            self.inv(),
                            mx == x,
                            my == y,
                            self@.in_bounds(mx, my),
                            mine_spreading(start, self@, mx, my, k as int),
                        decreases 8 - k,
                    {
                        let (dx, dy) = neighbor_offset(k);
                        proof {
                            self.lemma_shaped();
                            lemma_spreading_step(start, self@, mx, my, k as int);
                        }
                        let nx: i32 = x + dx;
                        let ny: i32 = y + dy;
                        match self.get(nx, ny) {
                            Some(n) => {
                                self.set_cell(
                                    nx,
                                    ny,
                                    Cell {
                                        state: n.state,
                                        has_mine: n.has_mine,
                                        neighboring_mines: n.neighboring_mines + 1,
                                    },
                                );
                            },
                            None => {},
                        }
                        k += 1;
                    }
                    proof {
                        lemma_spreading_end(start, self@, mx, my);
                    }
                }
            },
        }
    }

    /// The board as text: one line for each row, a space between two
    /// squares. A covered square shows as `-`, a flag as `F`, an exposed mine
    /// as `%`, and any other exposed square as the number of its mined
    /// neighbors.
    pub fn to_text(&self) -> (text: String)
        requires
            self.inv(),
        ensures
            text@ == self@.text(),
    {
        let mut text = String::new();
        let mut y: i32 = 0;
        while y < self.height
            invariant
                self.inv(),
                0 <= y <= self.height,
                text@ == self@.rows_text(y as int),
            decreases self.height - y,
        {
            if y > 0 {
                proof {
                    reveal_strlit("\n");
                }
                text.append("\n");
            }
            let ghost above = text@;
            let mut x: i32 = 0;
            while x < self.width
                invariant
                    self.inv(),
                    0 <= y < self.height,
                    0 <= x <= self.width,
                    text@ == above + self@.row_text(y as int, x as int),
                decreases self.width - x,
            {
                if x > 0 {
                    proof {
                        reveal_strlit(" ");
                    }
                    text.append(" ");
                }
                let cell = self.get(x, y).unwrap();
                text.append(cell_text(&cell));
                proof {
                    let row = self@.row_text(y as int, x as int);
                    let symbol = self@.cells[(x as int, y as int)].symbol();
                    if x > 0 {
                        assert(above + row + seq![' '] + seq![symbol] =~= above + (row + seq![
                            ' ',
                            symbol,
                        ]));
                    } else {
                        assert(above + row + seq![symbol] =~= above + seq![symbol]);
                    }
                }
                x += 1;
            }
            proof {
                if y > 0 {
                    assert(above + self@.row_text(y as int, self.width as int)
                        =~= self@.rows_text(y as int) + seq!['\n'] + self@.row_text(
                        y as int,
                        self.width as int,
                    ));
                } else {
                    assert(above + self@.row_text(y as int, self.width as int)
                        =~= self@.row_text(0, self.width as int));
                }
            }
            y += 1;
        }
        text
    }
}

} // verus!
