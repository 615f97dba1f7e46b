//! Laws of the minefield and of a session, each proved from the model.

use vstd::prelude::*;
use crate::board::{adjacent, mined_among, Board};
use crate::cell::CellState;
use crate::counts::{lemma_mine_keeps_wf, lemma_neighbors_hold_the_count, lemma_states_keep_wf};
use crate::flood::{lemma_reach_extend, lemma_reach_fillable, lemma_reach_self};
use crate::game::Session;
use crate::grid::BoardState;

verus! {

/// An empty board is well formed.
pub proof fn law_blank_is_well_formed(width: int, height: int)
    requires
        width > 0,
        height > 0,
    ensures
        Board::blank(width, height).wf(),
{
    let b = Board::blank(width, height);
    assert forall|x: int, y: int| #[trigger] b.cells.dom().contains((x, y)) <==> b.in_bounds(
        x,
        y,
    ) by {}
}

/// On a well-formed board the count that a square holds is the number of
/// mined squares among its neighbors.
pub proof fn law_count_is_mined_neighbors(b: Board, x: int, y: int)
    requires
        b.wf(),
        b.in_bounds(x, y),
    ensures
        b.cells[(x, y)].neighboring_mines == mined_among(b.neighbors_of(x, y)),
        b.cells[(x, y)].neighboring_mines == b.mined_neighbors(x, y),
        b.cells[(x, y)].neighboring_mines <= 8,
{
    lemma_neighbors_hold_the_count(b, x, y);
}

/// Placing mines one after another keeps every count right: on the board
/// that results, each square counts exactly the mines among its neighbors.
/// The mines are those that were there and those that were placed on the
/// board.
pub proof fn law_placements_keep_counts(b: Board, targets: Seq<(int, int)>)
    requires
        b.wf(),
    ensures
        b.mines_placed(targets).wf(),
        b.mines_placed(targets).width == b.width,
        b.mines_placed(targets).height == b.height,
        forall|x: int, y: int| #[trigger]
            b.in_bounds(x, y) ==> b.mines_placed(targets).cells[(x, y)].neighboring_mines
                == b.mines_placed(targets).mined_neighbors(x, y),
        forall|x: int, y: int| #[trigger]
            b.in_bounds(x, y) ==> b.mines_placed(targets).cells[(x, y)].neighboring_mines
                == mined_among(b.mines_placed(targets).neighbors_of(x, y)),
        forall|x: int, y: int| #[trigger]
            b.in_bounds(x, y) ==> (b.mines_placed(targets).cells[(x, y)].has_mine <==> b.cells[(
                x,
                y,
            )].has_mine || targets.contains((x, y))),
    decreases targets.len(),
{
    if targets.len() > 0 {
        let front = targets.drop_last();
        let last = targets.last();
        let mid = b.mines_placed(front);
        law_placements_keep_counts(b, front);
        lemma_mine_keeps_wf(mid, last.0, last.1);
        let after = mid.mine_placed(last.0, last.1);
        assert forall|x: int, y: int| #[trigger] b.in_bounds(x, y) implies (after.cells[(
            x,
            y,
        )].has_mine <==> b.cells[(x, y)].has_mine || targets.contains((x, y))) by {
            assert(mid.in_bounds(x, y));
            if targets.contains((x, y)) {
                let i = choose|i: int| 0 <= i < targets.len() && targets[i] == (x, y);
                if i < front.len() {
                    assert(front[i] == (x, y));
                } else {
                    assert(last == (x, y));
                }
            }
            if front.contains((x, y)) {
                let i = choose|i: int| 0 <= i < front.len() && front[i] == (x, y);
                assert(targets[i] == (x, y));
            }
            if last.0 == x && last.1 == y {
                assert(targets[targets.len() - 1] == (x, y));
            }
        }
        assert forall|x: int, y: int| #[trigger] b.in_bounds(x, y) implies after.cells[(
            x,
            y,
        )].neighboring_mines == after.mined_neighbors(x, y) by {
            assert(after.in_bounds(x, y));
        }
    } else {
        assert forall|x: int, y: int| #[trigger] b.in_bounds(x, y) implies !targets.contains(
            (x, y),
        ) by {}
    }
    let placed = b.mines_placed(targets);
    assert forall|x: int, y: int| #[trigger] b.in_bounds(x, y) implies placed.cells[(
        x,
        y,
    )].neighboring_mines == mined_among(placed.neighbors_of(x, y)) by {
        assert(placed.in_bounds(x, y));
        lemma_neighbors_hold_the_count(placed, x, y);
    }
}

proof fn lemma_reach_along(b: Board, sx: int, sy: int, path: Seq<(int, int)>, n: int)
    requires
        b.fill_path(path),
        b.fill_reaches(sx, sy, path[0].0, path[0].1),
        0 <= n < path.len(),
    ensures
        b.fill_reaches(sx, sy, path[n].0, path[n].1),
    decreases n,
{
    if n > 0 {
        lemma_reach_along(b, sx, sy, path, n - 1);
        let i = n - 1;
        assert(b.fill_step(path[i].0, path[i].1, path[i + 1].0, path[i + 1].1));
        lemma_reach_extend(b, sx, sy, path[i].0, path[i].1, path[n].0, path[n].1);
    }
}

/// Where a flood fill from a first square reaches a second, it reaches
/// whatever a flood fill from the second reaches.
pub proof fn law_reach_is_transitive(
    b: Board,
    sx: int,
    sy: int,
    mx: int,
    my: int,
    tx: int,
    ty: int,
)
    requires
        b.fill_reaches(sx, sy, mx, my),
        b.fill_reaches(mx, my, tx, ty),
    ensures
        b.fill_reaches(sx, sy, tx, ty),
{
    let path = choose|path: Seq<(int, int)>|
        #[trigger] b.fill_path(path) && path[0] == (mx, my) && path.last() == (tx, ty);
    lemma_reach_along(b, sx, sy, path, path.len() - 1);
}

proof fn lemma_reach_back(b: Board, path: Seq<(int, int)>, n: int)
    requires
        b.fill_path(path),
        b.spreads(path.last().0, path.last().1),
        0 <= n < path.len(),
    ensures
        b.fill_reaches(path[n].0, path[n].1, path[0].0, path[0].1),
    decreases n,
{
    if n == 0 {
        lemma_reach_self(b, path[0].0, path[0].1);
    } else {
        lemma_reach_back(b, path, n - 1);
        let i = n - 1;
        assert(b.fill_step(path[i].0, path[i].1, path[i + 1].0, path[i + 1].1));
        if n < path.len() - 1 {
            assert(b.fill_step(path[n].0, path[n].1, path[n + 1].0, path[n + 1].1));
        }
        assert(b.spreads(path[n].0, path[n].1));
        assert(adjacent(path[n].0, path[n].1, path[i].0, path[i].1));
        lemma_reach_self(b, path[n].0, path[n].1);
        lemma_reach_extend(b, path[n].0, path[n].1, path[n].0, path[n].1, path[i].0, path[i].1);
        law_reach_is_transitive(
            b,
            path[n].0,
            path[n].1,
            path[i].0,
            path[i].1,
            path[0].0,
            path[0].1,
        );
    }
}

/// A flood fill does not depend on where in a region of squares without
/// mined neighbors it starts, nor on the order in which it visits them: from
/// two such squares of which one reaches the other, it exposes the same
/// squares, and a click on either leads to the same board and outcome.
pub proof fn law_flood_same_from_region(b: Board, sx: int, sy: int, tx: int, ty: int)
    requires
        b.spreads(sx, sy),
        b.spreads(tx, ty),
        b.fill_reaches(sx, sy, tx, ty),
    ensures
        forall|x: int, y: int| b.fill_reaches(sx, sy, x, y) <==> b.fill_reaches(tx, ty, x, y),
        b.flooded(sx, sy) == b.flooded(tx, ty),
        b.uncovered(sx, sy) == b.uncovered(tx, ty),
        b.outcome(sx, sy) == b.outcome(tx, ty),
{
    let path = choose|path: Seq<(int, int)>|
        #[trigger] b.fill_path(path) && path[0] == (sx, sy) && path.last() == (tx, ty);
    lemma_reach_back(b, path, path.len() - 1);
    assert(b.fill_reaches(tx, ty, sx, sy));
    assert forall|x: int, y: int| b.fill_reaches(sx, sy, x, y) <==> b.fill_reaches(
        tx,
        ty,
        x,
        y,
    ) by {
        if b.fill_reaches(sx, sy, x, y) {
            law_reach_is_transitive(b, tx, ty, sx, sy, x, y);
        }
        if b.fill_reaches(tx, ty, x, y) {
            law_reach_is_transitive(b, sx, sy, tx, ty, x, y);
        }
    }
    assert(b.flooded(sx, sy).cells =~= b.flooded(tx, ty).cells);
}

/// A flood fill from a square that counts a mined neighbor exposes that
/// square and stops.
pub proof fn law_count_stops_the_fill(b: Board, x: int, y: int)
    requires
        b.shaped(),
        b.fillable(x, y),
        b.cells[(x, y)].neighboring_mines > 0,
    ensures
        forall|tx: int, ty: int| b.fill_reaches(x, y, tx, ty) <==> tx == x && ty == y,
        b.flooded(x, y) == b.with_cell(x, y, b.cells[(x, y)].exposed()),
{
    assert forall|tx: int, ty: int| b.fill_reaches(x, y, tx, ty) <==> tx == x && ty == y by {
        if b.fill_reaches(x, y, tx, ty) {
            let path = choose|path: Seq<(int, int)>|
                #[trigger] b.fill_path(path) && path[0] == (x, y) && path.last() == (tx, ty);
            if path.len() > 1 {
                assert(b.fill_step(path[0].0, path[0].1, path[1].0, path[1].1));
            }
        }
        if tx == x && ty == y {
            lemma_reach_self(b, x, y);
        }
    }
    let want = b.with_cell(x, y, b.cells[(x, y)].exposed());
    assert forall|p: (int, int)| want.cells.dom().contains(p) <==> b.flooded(
        x,
        y,
    ).cells.dom().contains(p) by {
        assert(b.cells.dom().contains((p.0, p.1)) <==> b.in_bounds(p.0, p.1));
    }
    assert(b.flooded(x, y).cells =~= want.cells);
}

/// Toggling a flag twice on a square brings the board back, and the two
/// changes to the number of flags cancel.
pub proof fn law_toggle_twice(b: Board, x: int, y: int)
    requires
        b.shaped(),
    ensures
        b.toggled(x, y).toggled(x, y) == b,
        b.flag_delta(x, y) + b.toggled(x, y).flag_delta(x, y) == 0,
        b.in_bounds(x, y) && b.cells[(x, y)].state == CellState::Covered ==> b.toggled(
            x,
            y,
        ).cells[(x, y)].state == CellState::Flagged && b.flag_delta(x, y) == 1,
{
    if b.in_bounds(x, y) {
        assert(b.cells.dom().contains((x, y)));
        assert(b.toggled(x, y).toggled(x, y).cells =~= b.cells);
    }
}

/// After a detonation every mined square is exposed, and the squares without
/// a mine are as they were.
pub proof fn law_detonation_exposes_mines(b: Board, x: int, y: int)
    requires
        b.shaped(),
        b.outcome(x, y) == BoardState::Detonated,
    ensures
        forall|px: int, py: int| #[trigger]
            b.in_bounds(px, py) && b.cells[(px, py)].has_mine ==> b.uncovered(x, y).cells[(
                px,
                py,
            )] == b.cells[(px, py)].exposed(),
        forall|px: int, py: int| #[trigger]
            b.in_bounds(px, py) && !b.cells[(px, py)].has_mine ==> b.uncovered(x, y).cells[(
                px,
                py,
            )] == b.cells[(px, py)],
{
}

/// After a click that leaves the board cleared or in progress, every mined
/// square is as it was; where the board is cleared, every square without a
/// mine is exposed.
pub proof fn law_clearing_spares_mines(b: Board, x: int, y: int)
    requires
        b.shaped(),
        b.outcome(x, y) != BoardState::Detonated,
    ensures
        forall|px: int, py: int| #[trigger]
            b.in_bounds(px, py) && b.cells[(px, py)].has_mine ==> b.uncovered(x, y).cells[(
                px,
                py,
            )] == b.cells[(px, py)],
        b.outcome(x, y) == BoardState::Cleared ==> b.uncovered(x, y).cleared(),
{
    assert forall|px: int, py: int| #[trigger]
        b.in_bounds(px, py) && b.cells[(px, py)].has_mine implies b.uncovered(x, y).cells[(
        px,
        py,
    )] == b.cells[(px, py)] by {
        if b.fill_reaches(x, y, px, py) {
            lemma_reach_fillable(b, x, y, px, py);
        }
    }
}

/// Off the board nothing happens: a click, a flag and a mine leave the board
/// as it is, and there are no neighbors to list.
pub proof fn law_off_board_no_effect(b: Board, x: int, y: int)
    requires
        !b.in_bounds(x, y),
    ensures
        b.uncovered(x, y) == b,
        b.outcome(x, y) == BoardState::InProgress,
        b.toggled(x, y) == b,
        b.flag_delta(x, y) == 0,
        b.mine_placed(x, y) == b,
        b.neighbors_of(x, y) == Seq::<crate::cell::Cell>::empty(),
{
}

/// A click on a flagged or exposed square uncovers nothing.
pub proof fn law_uncover_needs_cover(b: Board, x: int, y: int)
    requires
        b.in_bounds(x, y),
        b.cells[(x, y)].state != CellState::Covered,
    ensures
        b.uncovered(x, y) == b,
        b.outcome(x, y) == BoardState::InProgress,
{
}

/// A click, a flag, a mine and the reveal of all mines each leave a
/// well-formed board well formed.
pub proof fn law_operations_keep_wf(b: Board, x: int, y: int)
    requires
        b.wf(),
    ensures
        b.uncovered(x, y).wf(),
        b.toggled(x, y).wf(),
        b.mines_revealed().wf(),
        b.mine_placed(x, y).wf(),
{
    lemma_mine_keeps_wf(b, x, y);
    assert(b.mines_revealed().cells.dom() =~= b.cells.dom()) by {
        assert forall|p: (int, int)|
            b.mines_revealed().cells.dom().contains(p) <==> b.cells.dom().contains(p) by {
            assert(b.cells.dom().contains((p.0, p.1)) <==> b.in_bounds(p.0, p.1));
        }
    }
    lemma_states_keep_wf(b, b.mines_revealed());
    assert(b.flooded(x, y).cells.dom() =~= b.cells.dom()) by {
        assert forall|p: (int, int)|
            b.flooded(x, y).cells.dom().contains(p) <==> b.cells.dom().contains(p) by {
            assert(b.cells.dom().contains((p.0, p.1)) <==> b.in_bounds(p.0, p.1));
        }
    }
    lemma_states_keep_wf(b, b.flooded(x, y));
    if b.in_bounds(x, y) {
        assert(b.cells.dom().contains((x, y)));
        assert(b.toggled(x, y).cells.dom() =~= b.cells.dom());
    }
    lemma_states_keep_wf(b, b.toggled(x, y));
}

/// No operation moves the edges of the board or takes a mine away, and only
/// the placing of a mine changes a count.
pub proof fn law_size_and_mines_stay(b: Board, x: int, y: int, px: int, py: int)
    requires
        b.shaped(),
        b.in_bounds(px, py),
    ensures
        b.uncovered(x, y).width == b.width && b.uncovered(x, y).height == b.height,
        b.toggled(x, y).width == b.width && b.toggled(x, y).height == b.height,
        b.mines_revealed().width == b.width && b.mines_revealed().height == b.height,
        b.mine_placed(x, y).width == b.width && b.mine_placed(x, y).height == b.height,
        b.uncovered(x, y).cells[(px, py)].has_mine == b.cells[(px, py)].has_mine,
        b.toggled(x, y).cells[(px, py)].has_mine == b.cells[(px, py)].has_mine,
        b.mines_revealed().cells[(px, py)].has_mine == b.cells[(px, py)].has_mine,
        b.cells[(px, py)].has_mine ==> b.mine_placed(x, y).cells[(px, py)].has_mine,
        b.uncovered(x, y).cells[(px, py)].neighboring_mines == b.cells[(
            px,
            py,
        )].neighboring_mines,
        b.toggled(x, y).cells[(px, py)].neighboring_mines == b.cells[(px, py)].neighboring_mines,
        b.mines_revealed().cells[(px, py)].neighboring_mines == b.cells[(
            px,
            py,
        )].neighboring_mines,
        b.mine_placed(x, y).cells[(px, py)].state == b.cells[(px, py)].state,
{
}

/// A finished session stays as it is, whatever is clicked.
pub proof fn law_finished_absorbs(s: Session, x: int, y: int, now: u64)
    requires
        s.play_state.finished(),
    ensures
        s.left_clicked(x, y, now) == s,
        s.left_click_outcome(x, y) == BoardState::InProgress,
        s.right_clicked(x, y) == s,
        s.right_click_delta(x, y) == 0,
{
}

/// A session is finished after a click exactly where it was finished before
/// or the click was played and cleared the board or set off a mine; a right
/// click never changes the play state.
pub proof fn law_clicks_and_play_state(s: Session, x: int, y: int, now: u64)
    ensures
        s.right_clicked(x, y).play_state == s.play_state,
        s.left_clicked(x, y, now).play_state.finished() <==> s.play_state.finished() || (s.plays(
            x,
            y,
        ) && s.board.outcome(x, y) != BoardState::InProgress),
        s.plays(x, y) ==> s.left_clicked(x, y, now).turns == s.turns + 1,
{
}

} // verus!
