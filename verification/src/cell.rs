//! A single square of the minefield.

use vstd::prelude::*;

verus! {

/// What the player sees of a square. The three states exclude each other.
#[derive(Clone, Copy, Debug, PartialEq, Eq, Structural)]
pub enum CellState {
    Covered,
    Exposed,
    Flagged,
}

/// A square of the minefield. Its position is the place it has on the board.
#[derive(Clone, Copy, Debug, PartialEq, Eq, Structural)]
pub struct Cell {
    pub state: CellState,
    pub has_mine: bool,
    pub neighboring_mines: u8,
}

/// The first digit of `n` written in base ten.
pub open spec fn leading_digit(n: int) -> int {
    if n < 10 {
        n
    } else if n < 100 {
        n / 10
    } else {
        n / 100
    }
}

/// The character that stands for the digit `d`.
pub open spec fn digit_char(d: int) -> char {
    if d == 0 {
        '0'
    } else if d == 1 {
        '1'
    } else if d == 2 {
        '2'
    } else if d == 3 {
        '3'
    } else if d == 4 {
        '4'
    } else if d == 5 {
        '5'
    } else if d == 6 {
        '6'
    } else if d == 7 {
        '7'
    } else if d == 8 {
        '8'
    } else {
        '9'
    }
}

fn digit_to_char(d: u8) -> (c: char)
    requires
        d <= 9,
    ensures
        c == digit_char(d as int),
{
    if d == 0 {
        '0'
    } else if d == 1 {
        '1'
    } else if d == 2 {
        '2'
    } else if d == 3 {
        '3'
    } else if d == 4 {
        '4'
    } else if d == 5 {
        '5'
    } else if d == 6 {
        '6'
    } else if d == 7 {
        '7'
    } else if d == 8 {
        '8'
    } else {
        '9'
    }
}

impl Cell {
    /// A covered square without a mine and with no mined neighbor.
    pub open spec fn blank() -> Cell {
        Cell { state: CellState::Covered, has_mine: false, neighboring_mines: 0 }
    }

    /// This square, exposed.
    pub open spec fn exposed(self) -> Cell {
        Cell { state: CellState::Exposed, ..self }
    }

    /// This square with another state.
    pub open spec fn with_state(self, state: CellState) -> Cell {
        Cell { state, ..self }
    }

    /// This square, mined.
    pub open spec fn mined(self) -> Cell {
        Cell { has_mine: true, ..self }
    }

    /// This square with one more mined neighbor.
    pub open spec fn bumped(self) -> Cell {
        Cell { neighboring_mines: (self.neighboring_mines + 1) as u8, ..self }
    }

    /// The sprite that shows this square: 13 while covered, 11 while flagged,
    /// 10 for an exposed mine, 14 for an exposed square with no mined
    /// neighbor, and otherwise the number of mined neighbors.
    pub open spec fn sprite(self) -> int {
        match self.state {
            CellState::Covered => 13,
            CellState::Flagged => 11,
            CellState::Exposed => if self.has_mine {
                10
            } else if self.neighboring_mines == 0 {
                14
            } else {
                self.neighboring_mines as int
            },
        }
    }

    /// The character that shows this square in a text dump: `-` while covered,
    /// `F` while flagged, `%` for an exposed mine, and otherwise the first
    /// decimal digit of the number of mined neighbors.
    pub open spec fn symbol(self) -> char {
        match self.state {
            CellState::Covered => '-',
            CellState::Flagged => 'F',
            CellState::Exposed => if self.has_mine {
                '%'
            } else {
                digit_char(leading_digit(self.neighboring_mines as int))
            },
        }
    }

    /// A square with the given state, mine and count.
    pub fn new(state: CellState, has_mine: bool, neighboring_mines: u8) -> (cell: Cell)
        ensures
            cell == (Cell { state, has_mine, neighboring_mines }),
    {
        Cell { state, has_mine, neighboring_mines }
    }

    /// The index of the sprite that shows this square.
    pub fn sprite_index(&self) -> (index: usize)
        ensures
            index == self.sprite(),
    {
        match self.state {
            CellState::Covered => 13,
            CellState::Exposed => {
                if self.has_mine {
                    10
                } else if self.neighboring_mines == 0 {
                    14
                } else {
                    self.neighboring_mines as usize
                }
            },
            CellState::Flagged => 11,
        }
    }

    /// The character of this square in a text dump.
    pub fn glyph(&self) -> (c: char)
        ensures
            c == self.symbol(),
    {
        match self.state {
            CellState::Covered => '-',
            CellState::Exposed => {
                if self.has_mine {
                    '%'
                } else {
                    let n: u8 = self.neighboring_mines;
                    let d: u8 = if n < 10 {
                        n
                    } else if n < 100 {
                        n / 10
                    } else {
                        n / 100
                    };
                    digit_to_char(d)
                }
            },
            CellState::Flagged => 'F',
        }
    }
}

} // verus!
