//! A session of play: the counters, the play clock and the minefield, and
//! how a click moves them on.

use vstd::prelude::*;
use crate::board::Board;
use crate::grid::{BoardState, Grid};

verus! {

/// Where a session stands. Times are counted in ticks of the caller's clock.
/// `Playing` holds the time of the first click; `Won` and `Lost` hold the
/// time that the session took.
#[derive(Clone, Copy, Debug, PartialEq, Eq, Structural)]
pub enum PlayState {
    Unstarted,
    Playing(u64),
    Won(u64),
    Lost(u64),
}

/// A button of the mouse.
#[derive(Clone, Copy, Debug, PartialEq, Eq, Structural)]
pub enum Button {
    Left,
    Right,
    Other,
}

/// The time from `start` to `now`, and zero where `now` is the earlier one.
pub open spec fn time_between(start: u64, now: u64) -> u64 {
    if now >= start {
        (now - start) as u64
    } else {
        0
    }
}

/// Where a session that began at `start` stands after a click at `now` that
/// led to `outcome`.
pub open spec fn settled(start: u64, outcome: BoardState, now: u64) -> PlayState {
    match outcome {
        BoardState::InProgress => PlayState::Playing(start),
        BoardState::Cleared => PlayState::Won(time_between(start, now)),
        BoardState::Detonated => PlayState::Lost(time_between(start, now)),
    }
}

fn elapsed_between(start: u64, now: u64) -> (ticks: u64)
    ensures
        ticks == time_between(start, now),
{
    if now >= start {
        now - start
    } else {
        0
    }
}

impl PlayState {
    /// A session that was won or lost is finished.
    pub open spec fn finished(self) -> bool {
        self is Won || self is Lost
    }

    /// The state after a click at `now` that led to `outcome`. A finished
    /// session stays as it is. The first click starts the clock before its
    /// outcome counts.
    pub open spec fn after(self, outcome: BoardState, now: u64) -> PlayState {
        match self {
            PlayState::Unstarted => settled(now, outcome, now),
            PlayState::Playing(start) => settled(start, outcome, now),
            PlayState::Won(_) => self,
            PlayState::Lost(_) => self,
        }
    }

    /// The time to show at `now`: zero before the first click, the time
    /// since the first click while playing, and the time the session took
    /// once it is finished.
    pub open spec fn shown(self, now: u64) -> u64 {
        match self {
            PlayState::Unstarted => 0,
            PlayState::Playing(start) => time_between(start, now),
            PlayState::Won(took) => took,
            PlayState::Lost(took) => took,
        }
    }

    /// Whether the session was won or lost.
    pub fn is_finished(&self) -> (finished: bool)
        ensures
            finished == self.finished(),
    {
        match self {
            PlayState::Won(_) => true,
            PlayState::Lost(_) => true,
            _ => false,
        }
    }

    /// The state after a click at `now` that led to `outcome`.
    pub fn advance(self, outcome: BoardState, now: u64) -> (next: PlayState)
        ensures
            next == self.after(outcome, now),
    {
        let start: u64 = match self {
            PlayState::Unstarted => now,
            PlayState::Playing(start) => start,
            PlayState::Won(_) => {
                return self;
            },
            PlayState::Lost(_) => {
                return self;
            },
        };
        match outcome {
            BoardState::InProgress => PlayState::Playing(start),
            BoardState::Cleared => PlayState::Won(elapsed_between(start, now)),
            BoardState::Detonated => PlayState::Lost(elapsed_between(start, now)),
        }
    }

    /// The time to show at `now`.
    pub fn elapsed(&self, now: u64) -> (ticks: u64)
        ensures
            ticks == self.shown(now),
    {
        match self {
            PlayState::Unstarted => 0,
            PlayState::Playing(start) => elapsed_between(*start, now),
            PlayState::Won(took) => *took,
            PlayState::Lost(took) => *took,
        }
    }
}

/// A session as a mathematical value.
pub struct Session {
    pub total_mines: int,
    pub total_flags: int,
    pub turns: int,
    pub play_state: PlayState,
    pub board: Board,
}

impl Session {
    /// Whether a left click on `(x, y)` is played: the session is not
    /// finished and the position is on the board.
    pub open spec fn plays(self, x: int, y: int) -> bool {
        !self.play_state.finished() && self.board.in_bounds(x, y)
    }

    /// The session after a left click on `(x, y)` at `now`. A click that is
    /// played counts as a turn, uncovers the square and moves the play state
    /// on; any other click changes nothing.
    pub open spec fn left_clicked(self, x: int, y: int, now: u64) -> Session {
        if self.plays(x, y) {
            Session {
                turns: self.turns + 1,
                play_state: self.play_state.after(self.board.outcome(x, y), now),
                board: self.board.uncovered(x, y),
                ..self
            }
        } else {
            self
        }
    }

    /// What a left click on `(x, y)` leads to.
    pub open spec fn left_click_outcome(self, x: int, y: int) -> BoardState {
        if self.plays(x, y) {
            self.board.outcome(x, y)
        } else {
            BoardState::InProgress
        }
    }

    /// The session after a right click on `(x, y)`: unless the session is
    /// finished, the flag there is toggled and counted.
    pub open spec fn right_clicked(self, x: int, y: int) -> Session {
        if self.play_state.finished() {
            self
        } else {
            Session {
                total_flags: self.total_flags + self.board.flag_delta(x, y),
                board: self.board.toggled(x, y),
                ..self
            }
        }
    }

    /// The session after `button` went down on `(x, y)` at `now`. The left
    /// button clicks where it went down on the minefield, the right button
    /// toggles a flag, and any other button does nothing.
    pub open spec fn pressed(self, button: Button, x: int, y: int, on_field: bool, now: u64)
        -> Session {
        match button {
            Button::Left => if on_field {
                self.left_clicked(x, y, now)
            } else {
                self
            },
            Button::Right => self.right_clicked(x, y),
            Button::Other => self,
        }
    }

    /// By how much a right click on `(x, y)` changes the number of flags.
    pub open spec fn right_click_delta(self, x: int, y: int) -> int {
        if self.play_state.finished() {
            0
        } else {
            self.board.flag_delta(x, y)
        }
    }
}

/// A session of play on one minefield.
pub struct GameState {
    total_mines: i32,
    total_flags: i32,
    turns: i32,
    play_state: PlayState,
    grid: Grid,
}

impl View for GameState {
    type V = Session;

    closed spec fn view(&self) -> Session {
        Session {
            total_mines: self.total_mines as int,
            total_flags: self.total_flags as int,
            turns: self.turns as int,
            play_state: self.play_state,
            board: self.grid@,
        }
    }
}

impl GameState {
    /// The minefield of the session is well formed.
    pub closed spec fn wf(&self) -> bool {
        self.grid.wf()
    }

    /// The board of a well-formed session is well formed, and its counters
    /// are machine integers.
    pub proof fn lemma_wf(&self)
        requires
            self.wf(),
        ensures
            self@.board.wf(),
            i32::MIN <= self@.total_mines <= i32::MAX,
            i32::MIN <= self@.total_flags <= i32::MAX,
            i32::MIN <= self@.turns <= i32::MAX,
    {
    }

    /// A session on `grid` that has not started: no flag, no turn.
    pub fn new(total_mines: i32, grid: Grid) -> (game: GameState)
        requires
            grid.wf(),
        ensures
            game.wf(),
            game@ == (Session {
                total_mines: total_mines as int,
                total_flags: 0,
                turns: 0,
                play_state: PlayState::Unstarted,
                board: grid@,
            }),
    {
        GameState { total_mines, total_flags: 0, turns: 0, play_state: PlayState::Unstarted, grid }
    }

    /// The number of mines that the session was made with.
    pub fn total_mines(&self) -> (n: i32)
        ensures
            n == self@.total_mines,
    {
        self.total_mines
    }

    /// The number of flags that stand, as right clicks have counted them.
    pub fn total_flags(&self) -> (n: i32)
        ensures
            n == self@.total_flags,
    {
        self.total_flags
    }

    /// The number of left clicks that were played.
    pub fn turns(&self) -> (n: i32)
        ensures
            n == self@.turns,
    {
        self.turns
    }

    /// Where the session stands.
    pub fn play_state(&self) -> (state: PlayState)
        ensures
            state == self@.play_state,
    {
        self.play_state
    }

    /// The minefield, to look at.
    pub fn grid(&self) -> (grid: &Grid)
        ensures
            grid@ == self@.board,
            self.wf() ==> grid.wf(),
    {
        &self.grid
    }

    /// The time to show at `now`.
    pub fn elapsed(&self, now: u64) -> (ticks: u64)
        ensures
            ticks == self@.play_state.shown(now),
    {
        self.play_state.elapsed(now)
    }

    /// A left click on `(x, y)` at `now`. While the session is not finished,
    /// a click on the board counts as a turn, starts the clock if it is the
    /// first, uncovers the square, and ends the session where the board is
    /// then cleared or has detonated. Any other click changes nothing.
    pub fn on_left_click(&mut self, x: i32, y: i32, now: u64) -> (outcome: BoardState)
        requires
            old(self).wf(),
            old(self)@.turns < i32::MAX,
        ensures
            final(self).wf(),
            final(self)@ == old(self)@.left_clicked(x as int, y as int, now),
            outcome == old(self)@.left_click_outcome(x as int, y as int),
    {
        if self.play_state.is_finished() || self.grid.get(x, y).is_none() {
            return BoardState::InProgress;
        }
        let outcome = self.grid.uncover(x, y);
        self.play_state = self.play_state.advance(outcome, now);
        self.turns += 1;
        outcome
    }

    /// A right click on `(x, y)`. Unless the session is finished, it toggles
    /// the flag there and counts it. The play state stays as it is.
    pub fn on_right_click(&mut self, x: i32, y: i32) -> (delta: i32)
        requires
            old(self).wf(),
            i32::MIN < old(self)@.total_flags < i32::MAX,
        ensures
            final(self).wf(),
            final(self)@ == old(self)@.right_clicked(x as int, y as int),
            delta == old(self)@.right_click_delta(x as int, y as int),
    {
        if self.play_state.is_finished() {
            return 0;
        }
        let delta = self.grid.toggle_flag(x, y);
        self.total_flags += delta;
        delta
    }

    /// A button of the mouse went down on `(x, y)` at `now`; `on_field` tells
    /// whether that was on the minefield or on the panel above it. The left
    /// button is a left click where it went down on the minefield, the right
    /// button is a right click, and any other button does nothing.
    pub fn mouse_button_down_event(
        &mut self,
        button: Button,
        x: i32,
        y: i32,
        on_field: bool,
        now: u64,
    )
        requires
            old(self).wf(),
            button == Button::Left && on_field ==> old(self)@.turns < i32::MAX,
            button == Button::Right ==> i32::MIN < old(self)@.total_flags < i32::MAX,
        ensures
            final(self).wf(),
            final(self)@ == old(self)@.pressed(button, x as int, y as int, on_field, now),
    {
        match button {
            Button::Left => {
                if on_field {
                    self.on_left_click(x, y, now);
                }
            },
            Button::Right => {
                self.on_right_click(x, y);
            },
            Button::Other => {},
        }
    }
}

/// The decimal digits of `n`, the most significant first.
pub open spec fn decimal_digits(n: nat) -> Seq<u8>
    decreases n,
{
    if n < 10 {
        seq![n as u8]
    } else {
        decimal_digits(n / 10).push((n % 10) as u8)
    }
}

/// The digits that show `x` on the panel, one sprite each, the most
/// significant first.
pub fn number_to_sprites(x: i32) -> (sprites: Vec<u8>)
    requires
        x >= 0,
    ensures
        sprites@ == decimal_digits(x as nat),
{
    let mut sprites: Vec<u8> = Vec::new();
    sprites.push((x % 10) as u8);
    let mut rest: i32 = x / 10;
    while rest > 0
        invariant
            0 <= rest,
            x >= 0,
            decimal_digits(x as nat) == if rest > 0 {
                decimal_digits(rest as nat) + sprites@
            } else {
                sprites@
            },
        decreases rest,
    {
        let ghost shown = sprites@;
        sprites.insert(0, (rest % 10) as u8);
        proof {
            let digit = (rest % 10) as u8;
            assert(sprites@ =~= seq![digit] + shown);
            if rest >= 10 {
                assert(decimal_digits((rest / 10) as nat).push(digit) + shown =~= decimal_digits(
                    (rest / 10) as nat,
                ) + sprites@);
            } else {
                assert(seq![digit] + shown =~= sprites@);
            }
        }
        rest = rest / 10;
    }
    sprites
}

} // verus!
