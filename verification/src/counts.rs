//! Proofs about the counts of mined neighbors: what keeps them right, and
//! how placing a mine moves them.

use vstd::prelude::*;
use crate::board::{adjacent, mined_among, neighbor_rank, neighbor_step, Board};

verus! {

/// A board on which only the states of squares changed is still well formed.
pub proof fn lemma_states_keep_wf(before: Board, after: Board)
    requires
        before.wf(),
        after.width == before.width,
        after.height == before.height,
        after.cells.dom() == before.cells.dom(),
        forall|x: int, y: int| #[trigger]
            before.in_bounds(x, y) ==> after.cells[(x, y)].has_mine == before.cells[(
                x,
                y,
            )].has_mine && after.cells[(x, y)].neighboring_mines == before.cells[(
                x,
                y,
            )].neighboring_mines,
    ensures
        after.wf(),
{
    assert forall|x: int, y: int| #[trigger] after.in_bounds(x, y) implies after.cells[(
        x,
        y,
    )].neighboring_mines == after.mined_neighbors(x, y) by {
        assert(before.in_bounds(x, y));
        lemma_same_mines_same_count(before, after, x, y);
    }
    assert forall|x: int, y: int| #[trigger]
        after.cells.dom().contains((x, y)) <==> after.in_bounds(x, y) by {
        assert(before.cells.dom().contains((x, y)) <==> before.in_bounds(x, y));
    }
}

/// Boards with the same mines count the same mines around a position.
proof fn lemma_same_mines_same_count(before: Board, after: Board, x: int, y: int)
    requires
        after.width == before.width,
        after.height == before.height,
        forall|x: int, y: int| #[trigger]
            before.in_bounds(x, y) ==> after.cells[(x, y)].has_mine == before.cells[(
                x,
                y,
            )].has_mine,
    ensures
        after.mined_neighbors(x, y) == before.mined_neighbors(x, y),
{
    lemma_same_mine_weight(before, after, x - 1, y - 1);
    lemma_same_mine_weight(before, after, x, y - 1);
    lemma_same_mine_weight(before, after, x + 1, y - 1);
    lemma_same_mine_weight(before, after, x + 1, y);
    lemma_same_mine_weight(before, after, x + 1, y + 1);
    lemma_same_mine_weight(before, after, x, y + 1);
    lemma_same_mine_weight(before, after, x - 1, y + 1);
    lemma_same_mine_weight(before, after, x - 1, y);
}

/// Boards with the same mines weigh each position alike.
proof fn lemma_same_mine_weight(before: Board, after: Board, x: int, y: int)
    requires
        after.width == before.width,
        after.height == before.height,
        forall|x: int, y: int| #[trigger]
            before.in_bounds(x, y) ==> after.cells[(x, y)].has_mine == before.cells[(
                x,
                y,
            )].has_mine,
    ensures
        after.mine_weight(x, y) == before.mine_weight(x, y),
{
    if before.in_bounds(x, y) {
        assert(after.cells[(x, y)].has_mine == before.cells[(x, y)].has_mine);
    }
}

/// Next to a square without a mine, a square of a well-formed board counts at
/// most seven mined neighbors.
pub proof fn lemma_room_for_mine(b: Board, x: int, y: int, nx: int, ny: int)
    requires
        b.wf(),
        b.in_bounds(nx, ny),
        adjacent(x, y, nx, ny),
        !b.mine_at(x, y),
    ensures
        b.cells[(nx, ny)].neighboring_mines <= 7,
{
    assert(b.mine_weight(x, y) == 0);
}

/// Placing a mine keeps a board well formed: every square still counts the
/// mines around it.
pub proof fn lemma_mine_keeps_wf(b: Board, x: int, y: int)
    requires
        b.wf(),
    ensures
        b.mine_placed(x, y).wf(),
{
    let after = b.mine_placed(x, y);
    if b.in_bounds(x, y) && !b.cells[(x, y)].has_mine {
        assert forall|px: int, py: int| #[trigger] after.in_bounds(px, py) implies after.cells[(
            px,
            py,
        )].neighboring_mines == after.mined_neighbors(px, py) by {
            assert(b.in_bounds(px, py));
            lemma_new_mine_weight(b, x, y, px - 1, py - 1);
            lemma_new_mine_weight(b, x, y, px, py - 1);
            lemma_new_mine_weight(b, x, y, px + 1, py - 1);
            lemma_new_mine_weight(b, x, y, px + 1, py);
            lemma_new_mine_weight(b, x, y, px + 1, py + 1);
            lemma_new_mine_weight(b, x, y, px, py + 1);
            lemma_new_mine_weight(b, x, y, px - 1, py + 1);
            lemma_new_mine_weight(b, x, y, px - 1, py);
            if adjacent(x, y, px, py) {
                lemma_room_for_mine(b, x, y, px, py);
            }
        }
    }
}

/// The first `k` neighbors that are listed hold the mines that are counted
/// on the first `k` positions.
proof fn lemma_mined_upto(b: Board, x: int, y: int, k: int)
    requires
        0 <= k <= 8,
    ensures
        mined_among(b.neighbors_upto(x, y, k)) == b.mined_upto(x, y, k),
        b.neighbors_upto(x, y, k).len() <= k,
    decreases k,
{
    if k > 0 {
        lemma_mined_upto(b, x, y, k - 1);
        let rest = b.neighbors_upto(x, y, k - 1);
        let nx = x + neighbor_step(k - 1).0;
        let ny = y + neighbor_step(k - 1).1;
        if b.in_bounds(nx, ny) {
            assert(rest.push(b.cells[(nx, ny)]).drop_last() =~= rest);
        }
    }
}

/// The squares that are listed around a position hold as many mines as are
/// counted around it; on a well-formed board that is the count that the
/// square there holds.
pub proof fn lemma_neighbors_hold_the_count(b: Board, x: int, y: int)
    requires
        b.in_bounds(x, y),
    ensures
        mined_among(b.neighbors_of(x, y)) == b.mined_neighbors(x, y),
        b.neighbors_of(x, y).len() <= 8,
        b.wf() ==> b.cells[(x, y)].neighboring_mines == mined_among(b.neighbors_of(x, y)),
{
    lemma_mined_upto(b, x, y, 8);
    reveal_with_fuel(Board::mined_upto, 9);
}

/// A mine was put at `(x, y)` and the first `k` neighbors have counted it.
pub(crate) closed spec fn mine_spreading(start: Board, now: Board, x: int, y: int, k: int) -> bool {
    &&& start.wf()
    &&& start.in_bounds(x, y)
    &&& !start.cells[(x, y)].has_mine
    &&& now.shaped()
    &&& now.width == start.width
    &&& now.height == start.height
    &&& forall|px: int, py: int| #[trigger]
        start.in_bounds(px, py) ==> now.cells[(px, py)] == if px == x && py == y {
            start.cells[(px, py)].mined()
        } else if adjacent(x, y, px, py) && neighbor_rank(px - x, py - y) < k {
            start.cells[(px, py)].bumped()
        } else {
            start.cells[(px, py)]
        }
}

/// Once the mine is put down, no neighbor has counted it yet.
pub(crate) proof fn lemma_spreading_begin(start: Board, now: Board, x: int, y: int)
    requires
        start.wf(),
        start.in_bounds(x, y),
        !start.cells[(x, y)].has_mine,
        now == start.with_cell(x, y, start.cells[(x, y)].mined()),
    ensures
        mine_spreading(start, now, x, y, 0),
{
    assert forall|px: int, py: int| #[trigger]
        now.cells.dom().contains((px, py)) <==> now.in_bounds(px, py) by {
        assert(start.cells.dom().contains((px, py)) <==> start.in_bounds(px, py));
    }
}

/// The `k`-th neighbor has room for one mine more, and counts it where it is
/// on the board.
pub(crate) proof fn lemma_spreading_step(start: Board, now: Board, x: int, y: int, k: int)
    requires
        mine_spreading(start, now, x, y, k),
        0 <= k < 8,
    ensures
        ({
            let nx = x + neighbor_step(k).0;
            let ny = y + neighbor_step(k).1;
            if now.in_bounds(nx, ny) {
                &&& now.cells[(nx, ny)].neighboring_mines <= 7
                &&& mine_spreading(
                    start,
                    now.with_cell(nx, ny, now.cells[(nx, ny)].bumped()),
                    x,
                    y,
                    k + 1,
                )
            } else {
                mine_spreading(start, now, x, y, k + 1)
            }
        }),
{
    let nx = x + neighbor_step(k).0;
    let ny = y + neighbor_step(k).1;
    assert(adjacent(x, y, nx, ny));
    assert(neighbor_rank(nx - x, ny - y) == k);
    if now.in_bounds(nx, ny) {
        let next = now.with_cell(nx, ny, now.cells[(nx, ny)].bumped());
        assert(start.in_bounds(nx, ny));
        lemma_room_for_mine(start, x, y, nx, ny);
        assert forall|px: int, py: int| #[trigger]
            next.cells.dom().contains((px, py)) <==> next.in_bounds(px, py) by {
            assert(now.cells.dom().contains((px, py)) <==> now.in_bounds(px, py));
        }
        assert forall|px: int, py: int| #[trigger] start.in_bounds(px, py) implies next.cells[(
            px,
            py,
        )] == if px == x && py == y {
            start.cells[(px, py)].mined()
        } else if adjacent(x, y, px, py) && neighbor_rank(px - x, py - y) < k + 1 {
            start.cells[(px, py)].bumped()
        } else {
            start.cells[(px, py)]
        } by {
            if px == nx && py == ny {
            } else {
                assert(next.cells[(px, py)] == now.cells[(px, py)]);
                if adjacent(x, y, px, py) {
                    assert(neighbor_rank(px - x, py - y) != k);
                }
            }
        }
    } else {
        assert forall|px: int, py: int| #[trigger] start.in_bounds(px, py) implies now.cells[(
            px,
            py,
        )] == if px == x && py == y {
            start.cells[(px, py)].mined()
        } else if adjacent(x, y, px, py) && neighbor_rank(px - x, py - y) < k + 1 {
            start.cells[(px, py)].bumped()
        } else {
            start.cells[(px, py)]
        } by {
            if adjacent(x, y, px, py) {
                assert(neighbor_rank(px - x, py - y) != k);
            }
        }
    }
}

/// Once all eight neighbors have counted the mine, the board is the one that
/// the model gives, and it is well formed.
pub(crate) proof fn lemma_spreading_end(start: Board, now: Board, x: int, y: int)
    requires
        mine_spreading(start, now, x, y, 8),
    ensures
        now == start.mine_placed(x, y),
        now.wf(),
{
    let want = start.with_mine(x, y);
    assert forall|p: (int, int)| now.cells.dom().contains(p) implies now.cells[p]
        == want.cells[p] by {
        assert(now.cells.dom().contains((p.0, p.1)));
        assert(start.in_bounds(p.0, p.1));
    }
    assert forall|p: (int, int)| now.cells.dom().contains(p) <==> want.cells.dom().contains(
        p,
    ) by {
        assert(now.cells.dom().contains((p.0, p.1)) <==> now.in_bounds(p.0, p.1));
    }
    assert(now.cells =~= want.cells);
    lemma_mine_keeps_wf(start, x, y);
}

/// A new mine weighs 1 where it was placed and changes no other weight.
proof fn lemma_new_mine_weight(b: Board, x: int, y: int, qx: int, qy: int)
    requires
        b.shaped(),
        b.in_bounds(x, y),
        !b.cells[(x, y)].has_mine,
    ensures
        b.with_mine(x, y).mine_weight(qx, qy) == if qx == x && qy == y {
            1int
        } else {
            b.mine_weight(qx, qy)
        },
{
}

} // verus!
