//! Why the worklist flood fill exposes exactly the squares that the model
//! says it reaches.

use vstd::prelude::*;
use crate::board::{neighbor_rank, neighbor_step, Board};
use crate::cell::CellState;

verus! {

/// Whether `(x, y)` waits in the worklist.
pub(crate) closed spec fn queued(work: Seq<(i32, i32)>, x: int, y: int) -> bool {
    exists|i: int| 0 <= i < work.len() && (#[trigger] work[i]).0 == x && work[i].1 == y
}

/// Every square is as it was at the start, or was reached and exposed.
pub(crate) closed spec fn fill_sound(start: Board, now: Board, sx: int, sy: int) -> bool {
    &&& start.shaped()
    &&& now.shaped()
    &&& now.width == start.width
    &&& now.height == start.height
    &&& start.fillable(sx, sy)
    &&& now.cells[(sx, sy)].state == CellState::Exposed
    &&& forall|x: int, y: int| #[trigger]
        start.in_bounds(x, y) ==> {
            ||| now.cells[(x, y)] == start.cells[(x, y)]
            ||| start.fill_reaches(sx, sy, x, y) && now.cells[(x, y)] == start.cells[(
                x,
                y,
            )].exposed()
        }
}

/// Where an exposed square spreads to a square that is still covered, the
/// exposed square waits in the worklist, or it is `(cx, cy)` and the covered
/// square is its `k`-th neighbor or a later one.
pub(crate) closed spec fn fill_frontier(
    start: Board,
    now: Board,
    work: Seq<(i32, i32)>,
    cx: int,
    cy: int,
    k: int,
) -> bool {
    forall|ax: int, ay: int, bx: int, by: int| #[trigger]
        start.fill_step(ax, ay, bx, by) && now.cells[(ax, ay)].state == CellState::Exposed ==> {
            ||| now.cells[(bx, by)].state == CellState::Exposed
            ||| queued(work, ax, ay)
            ||| ax == cx && ay == cy && neighbor_rank(bx - ax, by - ay) >= k
        }
}

/// Every square in the worklist was reached and is exposed.
pub(crate) closed spec fn work_visited(
    start: Board,
    now: Board,
    work: Seq<(i32, i32)>,
    sx: int,
    sy: int,
) -> bool {
    forall|i: int|
        0 <= i < work.len() ==> start.fill_reaches(
            sx,
            sy,
            (#[trigger] work[i]).0 as int,
            work[i].1 as int,
        ) && now.cells[(work[i].0 as int, work[i].1 as int)].state == CellState::Exposed
}

/// A flood fill reaches the square it starts at.
pub proof fn lemma_reach_self(b: Board, x: int, y: int)
    requires
        b.fillable(x, y),
    ensures
        b.fill_reaches(x, y, x, y),
{
    let path = seq![(x, y)];
    assert(b.fill_path(path));
    assert(path[0] == (x, y) && path.last() == (x, y));
}

/// A flood fill reaches fillable squares only.
pub proof fn lemma_reach_fillable(b: Board, sx: int, sy: int, tx: int, ty: int)
    requires
        b.fill_reaches(sx, sy, tx, ty),
    ensures
        b.fillable(sx, sy),
        b.fillable(tx, ty),
{
    let path = choose|path: Seq<(int, int)>|
        #[trigger] b.fill_path(path) && path[0] == (sx, sy) && path.last() == (tx, ty);
    if path.len() > 1 {
        let i = path.len() - 2;
        assert(b.fill_step(path[i].0, path[i].1, path[i + 1].0, path[i + 1].1));
    }
}

/// A flood fill that reaches a square goes on to where that square spreads.
pub proof fn lemma_reach_extend(
    b: Board,
    sx: int,
    sy: int,
    ax: int,
    ay: int,
    bx: int,
    by: int,
)
    requires
        b.fill_reaches(sx, sy, ax, ay),
        b.fill_step(ax, ay, bx, by),
    ensures
        b.fill_reaches(sx, sy, bx, by),
{
    let path = choose|path: Seq<(int, int)>|
        #[trigger] b.fill_path(path) && path[0] == (sx, sy) && path.last() == (ax, ay);
    let longer = path.push((bx, by));
    assert forall|i: int| 0 <= i < longer.len() - 1 implies b.fill_step(
        (#[trigger] longer[i]).0,
        longer[i].1,
        longer[i + 1].0,
        longer[i + 1].1,
    ) by {
        if i < path.len() - 1 {
            assert(b.fill_step(path[i].0, path[i].1, path[i + 1].0, path[i + 1].1));
        }
    }
    assert(b.fill_path(longer));
    assert(longer[0] == (sx, sy) && longer.last() == (bx, by));
}

/// Where the exposed squares are closed under spreading, every square of a
/// fill path that starts on an exposed square is exposed.
proof fn lemma_closed_along_path(start: Board, now: Board, path: Seq<(int, int)>, n: int)
    requires
        start.fill_path(path),
        now.cells[(path[0].0, path[0].1)].state == CellState::Exposed,
        fill_frontier(start, now, Seq::empty(), 0, 0, 8),
        0 <= n < path.len(),
    ensures
        now.cells[(path[n].0, path[n].1)].state == CellState::Exposed,
    decreases n,
{
    if n > 0 {
        lemma_closed_along_path(start, now, path, n - 1);
        let i = n - 1;
        assert(start.fill_step(path[i].0, path[i].1, path[i + 1].0, path[i + 1].1));
        assert(!queued(Seq::<(i32, i32)>::empty(), path[i].0, path[i].1));
    }
}

/// At the start the first square is exposed and waits in the worklist.
pub(crate) proof fn lemma_fill_begin(
    start: Board,
    now: Board,
    work: Seq<(i32, i32)>,
    sx: int,
    sy: int,
)
    requires
        start.shaped(),
        start.fillable(sx, sy),
        now == start.with_cell(sx, sy, start.cells[(sx, sy)].exposed()),
        work.len() == 1,
        work[0].0 == sx,
        work[0].1 == sy,
    ensures
        fill_sound(start, now, sx, sy),
        fill_frontier(start, now, work, 0, 0, 8),
        work_visited(start, now, work, sx, sy),
{
    lemma_reach_self(start, sx, sy);
    assert forall|x: int, y: int| #[trigger] now.cells.dom().contains((x, y)) <==> now.in_bounds(
        x,
        y,
    ) by {
        assert(start.cells.dom().contains((x, y)) <==> start.in_bounds(x, y));
    }
    assert forall|ax: int, ay: int, bx: int, by: int| #[trigger]
        start.fill_step(ax, ay, bx, by) && now.cells[(ax, ay)].state
            == CellState::Exposed implies queued(work, ax, ay) by {
        assert(work[0].0 == ax && work[0].1 == ay);
    }
}

/// Taking the last square off the worklist makes it the square whose
/// neighbors are looked at next.
pub(crate) proof fn lemma_fill_pop(
    start: Board,
    now: Board,
    work: Seq<(i32, i32)>,
    sx: int,
    sy: int,
)
    requires
        work.len() > 0,
        fill_sound(start, now, sx, sy),
        fill_frontier(start, now, work, 0, 0, 8),
        work_visited(start, now, work, sx, sy),
    ensures
        fill_frontier(start, now, work.drop_last(), work.last().0 as int, work.last().1 as int, 0),
        work_visited(start, now, work.drop_last(), sx, sy),
        start.fill_reaches(sx, sy, work.last().0 as int, work.last().1 as int),
        start.fillable(work.last().0 as int, work.last().1 as int),
        now.in_bounds(work.last().0 as int, work.last().1 as int),
        now.cells[(work.last().0 as int, work.last().1 as int)].neighboring_mines
            == start.cells[(work.last().0 as int, work.last().1 as int)].neighboring_mines,
{
    let rest = work.drop_last();
    let c = work.last();
    assert(work[work.len() - 1] == c);
    lemma_reach_fillable(start, sx, sy, c.0 as int, c.1 as int);
    assert(start.in_bounds(c.0 as int, c.1 as int));
    assert forall|i: int| 0 <= i < rest.len() implies start.fill_reaches(
        sx,
        sy,
        (#[trigger] rest[i]).0 as int,
        rest[i].1 as int,
    ) && now.cells[(rest[i].0 as int, rest[i].1 as int)].state == CellState::Exposed by {
        assert(rest[i] == work[i]);
    }
    assert forall|ax: int, ay: int, bx: int, by: int| #[trigger]
        start.fill_step(ax, ay, bx, by) && now.cells[(ax, ay)].state
            == CellState::Exposed implies {
        ||| now.cells[(bx, by)].state == CellState::Exposed
        ||| queued(rest, ax, ay)
        ||| ax == c.0 && ay == c.1 && neighbor_rank(bx - ax, by - ay) >= 0
    } by {
        if now.cells[(bx, by)].state != CellState::Exposed {
            assert(queued(work, ax, ay));
            let i = choose|i: int| 0 <= i < work.len() && (#[trigger] work[i]).0 == ax && work[i].1 == ay;
            if i < rest.len() {
                assert(rest[i] == work[i]);
            }
        }
    }
}

/// A square is done with once all eight neighbors were looked at, or at once
/// where it does not spread.
pub(crate) proof fn lemma_fill_stop(
    start: Board,
    now: Board,
    work: Seq<(i32, i32)>,
    cx: int,
    cy: int,
    k: int,
)
    requires
        fill_frontier(start, now, work, cx, cy, k),
        k == 8 || !start.spreads(cx, cy),
    ensures
        fill_frontier(start, now, work, 0, 0, 8),
{
}

/// A neighbor that is off the board, not covered or mined is passed over.
pub(crate) proof fn lemma_fill_skip(
    start: Board,
    now: Board,
    work: Seq<(i32, i32)>,
    sx: int,
    sy: int,
    cx: int,
    cy: int,
    k: int,
)
    requires
        fill_sound(start, now, sx, sy),
        fill_frontier(start, now, work, cx, cy, k),
        0 <= k < 8,
        ({
            let bx = cx + neighbor_step(k).0;
            let by = cy + neighbor_step(k).1;
            !(now.in_bounds(bx, by) && now.cells[(bx, by)].state == CellState::Covered
                && !now.cells[(bx, by)].has_mine)
        }),
    ensures
        fill_frontier(start, now, work, cx, cy, k + 1),
{
    let nx = cx + neighbor_step(k).0;
    let ny = cy + neighbor_step(k).1;
    assert forall|ax: int, ay: int, bx: int, by: int| #[trigger]
        start.fill_step(ax, ay, bx, by) && now.cells[(ax, ay)].state
            == CellState::Exposed implies {
        ||| now.cells[(bx, by)].state == CellState::Exposed
        ||| queued(work, ax, ay)
        ||| ax == cx && ay == cy && neighbor_rank(bx - ax, by - ay) >= k + 1
    } by {
        if ax == cx && ay == cy && neighbor_rank(bx - ax, by - ay) == k {
            assert(bx == nx && by == ny);
            assert(start.in_bounds(bx, by));
        }
    }
}

/// A neighbor that is covered and holds no mine is exposed and put on the
/// worklist.
pub(crate) proof fn lemma_fill_take(
    start: Board,
    now: Board,
    work: Seq<(i32, i32)>,
    sx: int,
    sy: int,
    cx: int,
    cy: int,
    k: int,
    b: (i32, i32),
)
    requires
        fill_sound(start, now, sx, sy),
        fill_frontier(start, now, work, cx, cy, k),
        work_visited(start, now, work, sx, sy),
        start.fill_reaches(sx, sy, cx, cy),
        start.spreads(cx, cy),
        0 <= k < 8,
        b.0 == cx + neighbor_step(k).0,
        b.1 == cy + neighbor_step(k).1,
        now.in_bounds(b.0 as int, b.1 as int),
        now.cells[(b.0 as int, b.1 as int)].state == CellState::Covered,
        !now.cells[(b.0 as int, b.1 as int)].has_mine,
    ensures
        ({
            let next = now.with_cell(
                b.0 as int,
                b.1 as int,
                now.cells[(b.0 as int, b.1 as int)].exposed(),
            );
            &&& fill_sound(start, next, sx, sy)
            &&& fill_frontier(start, next, work.push(b), cx, cy, k + 1)
            &&& work_visited(start, next, work.push(b), sx, sy)
        }),
{
    let nx = b.0 as int;
    let ny = b.1 as int;
    let next = now.with_cell(nx, ny, now.cells[(nx, ny)].exposed());
    let more = work.push(b);
    assert(start.in_bounds(nx, ny));
    assert(now.cells[(nx, ny)] == start.cells[(nx, ny)]);
    assert(start.fill_step(cx, cy, nx, ny));
    lemma_reach_extend(start, sx, sy, cx, cy, nx, ny);
    assert forall|x: int, y: int| #[trigger] next.cells.dom().contains((x, y)) <==> next.in_bounds(
        x,
        y,
    ) by {
        assert(now.cells.dom().contains((x, y)) <==> now.in_bounds(x, y));
    }
    assert(start.in_bounds(sx, sy));
    assert forall|x: int, y: int| #[trigger] start.in_bounds(x, y) implies {
        ||| next.cells[(x, y)] == start.cells[(x, y)]
        ||| start.fill_reaches(sx, sy, x, y) && next.cells[(x, y)] == start.cells[(
            x,
            y,
        )].exposed()
    } by {}
    assert forall|i: int| 0 <= i < more.len() implies start.fill_reaches(
        sx,
        sy,
        (#[trigger] more[i]).0 as int,
        more[i].1 as int,
    ) && next.cells[(more[i].0 as int, more[i].1 as int)].state == CellState::Exposed by {
        if i < work.len() {
            assert(more[i] == work[i]);
        }
    }
    assert forall|ax: int, ay: int, bx: int, by: int| #[trigger]
        start.fill_step(ax, ay, bx, by) && next.cells[(ax, ay)].state
            == CellState::Exposed implies {
        ||| next.cells[(bx, by)].state == CellState::Exposed
        ||| queued(more, ax, ay)
        ||| ax == cx && ay == cy && neighbor_rank(bx - ax, by - ay) >= k + 1
    } by {
        if ax == nx && ay == ny {
            assert(more[work.len() as int] == b);
        } else if next.cells[(bx, by)].state != CellState::Exposed {
            assert(now.cells[(ax, ay)].state == CellState::Exposed);
            if queued(work, ax, ay) {
                let i = choose|i: int|
                    0 <= i < work.len() && (#[trigger] work[i]).0 == ax && work[i].1 == ay;
                assert(more[i] == work[i]);
            } else {
                assert(ax == cx && ay == cy);
                if neighbor_rank(bx - ax, by - ay) == k {
                    assert(bx == nx && by == ny);
                }
            }
        }
    }
}

/// With the worklist empty, the board is the flooded board of the model.
pub(crate) proof fn lemma_fill_end(start: Board, now: Board, sx: int, sy: int)
    requires
        fill_sound(start, now, sx, sy),
        fill_frontier(start, now, Seq::empty(), 0, 0, 8),
    ensures
        now == start.flooded(sx, sy),
{
    let want = start.flooded(sx, sy);
    assert forall|p: (int, int)| now.cells.dom().contains(p) implies now.cells[p]
        == want.cells[p] by {
        assert(now.cells.dom().contains((p.0, p.1)));
        assert(start.in_bounds(p.0, p.1));
        if start.fill_reaches(sx, sy, p.0, p.1) {
            let path = choose|path: Seq<(int, int)>|
                #[trigger] start.fill_path(path) && path[0] == (sx, sy) && path.last() == (
                    p.0,
                    p.1,
                );
            lemma_closed_along_path(start, now, path, path.len() - 1);
            lemma_reach_fillable(start, sx, sy, p.0, p.1);
        }
    }
    assert forall|p: (int, int)| now.cells.dom().contains(p) <==> want.cells.dom().contains(
        p,
    ) by {
        assert(now.cells.dom().contains((p.0, p.1)) <==> now.in_bounds(p.0, p.1));
    }
    assert(now.cells =~= want.cells);
}

} // verus!
