//! The maze grid and the randomized merge engine.
//!
//! A `Maze` owns a square matrix of cells. Cells at even-even coordinates are
//! passages, each starting in a connected component of its own; every other
//! cell starts as a wall. Walls are then knocked down in random order: a wall
//! is converted to a passage exactly when the two cells it separates lie in
//! different components, so the finished maze is connected and acyclic.

use rand::seq::SliceRandom;
use vstd::prelude::*;

use crate::maze_cell::Cell;
use crate::maze_cell::Neighbours;
use crate::maze_cell::Pos;
use crate::GROUND;
use crate::WALL;

verus! {

/// A square grid of cells, side length `size`.
#[derive(Clone, Debug)]
pub struct Maze {
    pub map: Vec<Vec<Cell>>,
    pub size: usize,
}

/// The in-bounds orthogonal neighbour positions of `(x, y)` on a grid of the
/// given side length.
pub open spec fn nb_of(size: int, x: int, y: int) -> Neighbours {
    Neighbours {
        top: if y > 0 {
            Some(Pos { x: x as isize, y: (y - 1) as isize })
        } else {
            None
        },
        bot: if y + 1 < size {
            Some(Pos { x: x as isize, y: (y + 1) as isize })
        } else {
            None
        },
        left: if x > 0 {
            Some(Pos { x: (x - 1) as isize, y: y as isize })
        } else {
            None
        },
        right: if x + 1 < size {
            Some(Pos { x: (x + 1) as isize, y: y as isize })
        } else {
            None
        },
    }
}

/// The cell the first full scan writes at `(x, y)`: passages at even-even
/// coordinates, each with the unique id `y * size + x + 1`; walls elsewhere,
/// with id 0.
pub open spec fn init_cell(size: int, x: int, y: int) -> Cell {
    Cell {
        pos: Pos { x: x as isize, y: y as isize },
        cell_type: if x % 2 == 0 && y % 2 == 0 {
            GROUND
        } else {
            WALL
        },
        id: if x % 2 == 0 && y % 2 == 0 {
            (y * size + x + 1) as usize
        } else {
            0
        },
        neighbours: nb_of(size, x, y),
    }
}

/// A merge along one axis may proceed only if the two cells it would join
/// already are passages and lie in different components.
pub open spec fn eligible(side: Cell, opposite: Cell) -> bool {
    opposite.id != side.id && opposite.cell_type != WALL && side.cell_type != WALL
}

/// What one successful merge writes at position `here`, given the old cell
/// `c` there: the centre wall and the opposite cell take `side`'s kind and
/// id, and every cell of `opposite`'s component is relabelled to `side`'s id.
pub open spec fn merged_cell(c: Cell, side: Cell, opposite: Cell, here: Pos, center: Pos, opp_pos: Pos) -> Cell {
    if here == center || here == opp_pos {
        Cell { cell_type: side.cell_type, id: side.id, ..c }
    } else if c.id == opposite.id {
        Cell { id: side.id, ..c }
    } else {
        c
    }
}

/// Exact description of one axis attempt: if the pair read from `pre` at
/// `side_pos` and `opp_pos` is eligible, `post` is `pre` with the merge
/// applied; otherwise `post` equals `pre` cell for cell.
pub open spec fn join_step(pre: Maze, post: Maze, side_pos: Pos, opp_pos: Pos, center: Pos) -> bool {
    let side = pre.cell_at(side_pos.x as int, side_pos.y as int);
    let opposite = pre.cell_at(opp_pos.x as int, opp_pos.y as int);
    &&& post.size == pre.size
    &&& post.map@.len() == pre.map@.len()
    &&& forall|y: int|
        0 <= y < pre.map@.len() ==> (#[trigger] post.map@[y])@.len() == pre.map@[y]@.len()
    &&& forall|x: int, y: int|
        pre.in_bounds(x, y) ==> #[trigger] post.cell_at(x, y) == (if eligible(side, opposite) {
            merged_cell(
                pre.cell_at(x, y),
                side,
                opposite,
                Pos { x: x as isize, y: y as isize },
                center,
                opp_pos,
            )
        } else {
            pre.cell_at(x, y)
        })
}

/// Whether a wall straddles a vertical pair of cells in bounds.
pub open spec fn vert_pair(wall: Cell) -> bool {
    wall.neighbours.top is Some && wall.neighbours.bot is Some
}

/// Whether a wall straddles a horizontal pair of cells in bounds.
pub open spec fn horiz_pair(wall: Cell) -> bool {
    wall.neighbours.left is Some && wall.neighbours.right is Some
}

/// Exact description of one worklist step on wall `wall`: first the vertical
/// axis is attempted (if the wall has both vertical neighbours), reaching the
/// intermediate grid `mid`, then the horizontal axis.
pub open spec fn join_cells_steps(pre: Maze, mid: Maze, post: Maze, wall: Cell) -> bool {
    &&& (if vert_pair(wall) {
        join_step(pre, mid, wall.neighbours.top->0, wall.neighbours.bot->0, wall.pos)
    } else {
        mid == pre
    })
    &&& (if horiz_pair(wall) {
        join_step(mid, post, wall.neighbours.left->0, wall.neighbours.right->0, wall.pos)
    } else {
        post == mid
    })
}

/// Number of even integers in `[0, n)`.
pub open spec fn evens_below(n: int) -> int {
    (n + 1) / 2
}

/// A worklist snapshot is sound for a grid of side `size`: it sits at an
/// in-bounds position of odd parity (a wall slot) and records the correct
/// neighbour positions for that slot.
pub open spec fn wall_snapshot_ok(c: Cell, size: int) -> bool {
    &&& 0 <= c.pos.x < size
    &&& 0 <= c.pos.y < size
    &&& (c.pos.x as int % 2 == 1 || c.pos.y as int % 2 == 1)
    &&& c.neighbours == nb_of(size, c.pos.x as int, c.pos.y as int)
}

/// Every snapshot in the worklist is sound.
pub open spec fn walls_ok(walls: Seq<Cell>, size: int) -> bool {
    forall|i: int| 0 <= i < walls.len() ==> wall_snapshot_ok(#[trigger] walls[i], size)
}

/// Row-major rank of a worklist snapshot's position.
pub open spec fn rank(c: Cell, size: int) -> int {
    (c.pos.y as int) * size + (c.pos.x as int)
}

/// Adding one to `n` adds one even number below the bound exactly when `n`
/// itself is even.
proof fn lemma_evens_step(n: int)
    requires
        n >= 0,
    ensures
        evens_below(n + 1) == evens_below(n) + if n % 2 == 0 {
            1int
        } else {
            0int
        },
{
}

/// Whether some snapshot in the worklist sits at `(x, y)`.
pub open spec fn listed(walls: Seq<Cell>, x: int, y: int) -> bool {
    exists|i: int|
        0 <= i < walls.len() && (#[trigger] walls[i]).pos == (Pos {
            x: x as isize,
            y: y as isize,
        })
}

/// The edge a wall slot straddles has been settled: the two cells the slot
/// separates lie in the same component. Slots with two odd coordinates (and
/// boundary slots, which never have an opposite pair) have no such edge and
/// count as settled from the start.
pub open spec fn pair_resolved(m: Maze, x: int, y: int) -> bool {
    if x % 2 == 1 && y % 2 == 0 {
        m.cell_at(x - 1, y).id == m.cell_at(x + 1, y).id
    } else if x % 2 == 0 && y % 2 == 1 {
        m.cell_at(x, y - 1).id == m.cell_at(x, y + 1).id
    } else {
        true
    }
}

/// Whether the cell at `(x, y)` is an open (passage) cell of the grid.
pub open spec fn is_open(m: Maze, x: int, y: int) -> bool {
    m.in_bounds(x, y) && m.cell_at(x, y).cell_type != WALL
}

/// Whether two grid positions are orthogonal neighbours.
pub open spec fn touching(p: (int, int), q: (int, int)) -> bool {
    ||| p.0 == q.0 && (p.1 == q.1 + 1 || q.1 == p.1 + 1)
    ||| p.1 == q.1 && (p.0 == q.0 + 1 || q.0 == p.0 + 1)
}

/// A walk through the maze: non-empty, every cell on it open, consecutive
/// cells orthogonal neighbours.
pub open spec fn open_path(m: Maze, p: Seq<(int, int)>) -> bool {
    &&& p.len() >= 1
    &&& forall|i: int| 0 <= i < p.len() ==> is_open(m, (#[trigger] p[i]).0, p[i].1)
    &&& forall|i: int| 0 <= i < p.len() - 1 ==> touching(#[trigger] p[i], p[i + 1])
}

/// Whether an open path joins `a` to `b`. Kept opaque so that the path
/// quantifier does not feed itself.
#[verifier::opaque]
pub open spec fn joined(m: Maze, a: (int, int), b: (int, int)) -> bool {
    exists|p: Seq<(int, int)>| open_path(m, p) && p.first() == a && p.last() == b
}

/// Component ids are sound for adjacency: any two open cells that share an
/// id are joined by an open path.
pub open spec fn ids_joined(m: Maze) -> bool {
    forall|x1: int, y1: int, x2: int, y2: int|
        #![trigger m.cell_at(x1, y1), m.cell_at(x2, y2)]
        is_open(m, x1, y1) && is_open(m, x2, y2) && m.cell_at(x1, y1).id == m.cell_at(x2, y2).id
            ==> joined(m, (x1, y1), (x2, y2))
}

/// Two touching open paths concatenate to one open path.
proof fn lemma_path_concat(m: Maze, p: Seq<(int, int)>, q: Seq<(int, int)>)
    requires
        open_path(m, p),
        open_path(m, q),
        touching(p.last(), q.first()),
    ensures
        open_path(m, p + q),
        (p + q).first() == p.first(),
        (p + q).last() == q.last(),
{
    let r = p + q;
    assert forall|i: int| 0 <= i < r.len() implies is_open(m, (#[trigger] r[i]).0, r[i].1) by {
        if i < p.len() {
            assert(r[i] == p[i]);
        } else {
            assert(r[i] == q[i - p.len()]);
        }
    }
    assert forall|i: int| 0 <= i < r.len() - 1 implies touching(#[trigger] r[i], r[i + 1]) by {
        if i + 1 < p.len() {
            assert(r[i] == p[i] && r[i + 1] == p[i + 1]);
        } else if i + 1 == p.len() {
            assert(r[i] == p[p.len() - 1] && r[i + 1] == q[0]);
        } else {
            assert(r[i] == q[i - p.len()] && r[i + 1] == q[i + 1 - p.len()]);
        }
    }
}

/// An open path read backwards is an open path.
proof fn lemma_path_reverse(m: Maze, p: Seq<(int, int)>)
    requires
        open_path(m, p),
    ensures
        open_path(m, p.reverse()),
        p.reverse().first() == p.last(),
        p.reverse().last() == p.first(),
{
    let r = p.reverse();
    assert forall|i: int| 0 <= i < r.len() implies is_open(m, (#[trigger] r[i]).0, r[i].1) by {
        assert(r[i] == p[p.len() - 1 - i]);
    }
    assert forall|i: int| 0 <= i < r.len() - 1 implies touching(#[trigger] r[i], r[i + 1]) by {
        assert(r[i] == p[p.len() - 1 - i] && r[i + 1] == p[p.len() - 2 - i]);
        assert(touching(p[p.len() - 2 - i], p[p.len() - 1 - i]));
    }
}

/// Joining is extended by one touching open cell.
proof fn lemma_joined_extend(m: Maze, a: (int, int), b: (int, int), c: (int, int))
    requires
        joined(m, a, b),
        touching(b, c),
        is_open(m, c.0, c.1),
    ensures
        joined(m, a, c),
{
    reveal(joined);
    let p = choose|p: Seq<(int, int)>| open_path(m, p) && p.first() == a && p.last() == b;
    let q: Seq<(int, int)> = seq![c];
    assert(open_path(m, q));
    lemma_path_concat(m, p, q);
    assert(open_path(m, p + q) && (p + q).first() == a && (p + q).last() == c);
}

/// Two cells each joined to a common hub are joined to each other.
proof fn lemma_joined_via(m: Maze, a: (int, int), b: (int, int), c: (int, int))
    requires
        joined(m, a, c),
        joined(m, b, c),
    ensures
        joined(m, a, b),
{
    reveal(joined);
    let p = choose|p: Seq<(int, int)>| open_path(m, p) && p.first() == a && p.last() == c;
    let q = choose|q: Seq<(int, int)>| open_path(m, q) && q.first() == b && q.last() == c;
    lemma_path_reverse(m, q);
    let r = q.reverse();
    if r.len() == 1 {
        // The hub is `b` itself.
        assert(p.last() == b);
        assert(open_path(m, p) && p.first() == a && p.last() == b);
    } else {
        let tail = r.drop_first();
        assert forall|i: int| 0 <= i < tail.len() implies is_open(
            m,
            (#[trigger] tail[i]).0,
            tail[i].1,
        ) by {
            assert(tail[i] == r[i + 1]);
        }
        assert forall|i: int| 0 <= i < tail.len() - 1 implies touching(
            #[trigger] tail[i],
            tail[i + 1],
        ) by {
            assert(tail[i] == r[i + 1] && tail[i + 1] == r[i + 2]);
        }
        assert(open_path(m, tail));
        assert(tail.first() == r[1]);
        assert(touching(r[0], r[1]));
        assert(r[0] == c);
        lemma_path_concat(m, p, tail);
        assert(tail.last() == r[r.len() - 1] && r[r.len() - 1] == b);
        assert(open_path(m, p + tail) && (p + tail).first() == a && (p + tail).last() == b);
    }
}

/// A merge step closes no cell: everything open stays open, the centre and
/// the opposite cell end open, and off the centre nothing opens anew.
proof fn lemma_step_openness(pre: Maze, post: Maze, sp: Pos, op: Pos, cp: Pos)
    requires
        pre.wf(),
        join_step(pre, post, sp, op, cp),
        pre.in_bounds(sp.x as int, sp.y as int),
        pre.in_bounds(op.x as int, op.y as int),
    ensures
        forall|x: int, y: int| is_open(pre, x, y) ==> #[trigger] is_open(post, x, y),
        forall|x: int, y: int|
            #[trigger] is_open(post, x, y) && !(x == cp.x as int && y == cp.y as int) ==> is_open(
                pre,
                x,
                y,
            ),
{
    let side = pre.cell_at(sp.x as int, sp.y as int);
    assert forall|x: int, y: int| is_open(pre, x, y) implies #[trigger] is_open(post, x, y) by {
        assert(post.cell_at(x, y).cell_type == WALL ==> pre.cell_at(x, y).cell_type == WALL);
    }
    assert forall|x: int, y: int|
        #[trigger] is_open(post, x, y) && !(x == cp.x as int && y == cp.y as int) implies is_open(
        pre,
        x,
        y,
    ) by {
        assert((Pos { x: x as isize, y: y as isize }) != cp);
        assert(pre.cell_at(x, y).cell_type == WALL ==> post.cell_at(x, y).cell_type == WALL);
    }
}

/// A path through the grid before a merge step is a path through it after.
proof fn lemma_step_path(pre: Maze, post: Maze, sp: Pos, op: Pos, cp: Pos, a: (int, int), b: (int, int))
    requires
        pre.wf(),
        join_step(pre, post, sp, op, cp),
        pre.in_bounds(sp.x as int, sp.y as int),
        pre.in_bounds(op.x as int, op.y as int),
        joined(pre, a, b),
    ensures
        joined(post, a, b),
{
    reveal(joined);
    lemma_step_openness(pre, post, sp, op, cp);
    let p = choose|p: Seq<(int, int)>| open_path(pre, p) && p.first() == a && p.last() == b;
    assert forall|i: int| 0 <= i < p.len() implies is_open(post, (#[trigger] p[i]).0, p[i].1) by {
        assert(is_open(pre, p[i].0, p[i].1));
    }
    assert(open_path(post, p));
}

/// Adjacent open cells always share an id: component ids respect the grid's
/// own adjacency.
pub open spec fn adjacent_share_id(m: Maze) -> bool {
    forall|x1: int, y1: int, x2: int, y2: int|
        #![trigger m.cell_at(x1, y1), m.cell_at(x2, y2)]
        is_open(m, x1, y1) && is_open(m, x2, y2) && touching((x1, y1), (x2, y2)) ==> m.cell_at(
            x1,
            y1,
        ).id == m.cell_at(x2, y2).id
}

/// Every open cell with two odd coordinates has one axis on which both of
/// its neighbours are open: a pillar only ever opens by bridging a pair.
pub open spec fn pillars_bridged(m: Maze) -> bool {
    forall|x: int, y: int|
        m.in_bounds(x, y) && x % 2 == 1 && y % 2 == 1 && (#[trigger] m.cell_at(x, y)).cell_type
            != WALL ==> ((is_open(m, x, y - 1) && is_open(m, x, y + 1)) || (is_open(m, x - 1, y)
            && is_open(m, x + 1, y)))
}

/// No four open cells form a 2 by 2 block: the rendered maze has no open
/// loop of minimal size.
pub open spec fn no_open_block(m: Maze) -> bool {
    forall|x: int, y: int|
        #![trigger m.cell_at(x, y)]
        m.in_bounds(x, y) && m.in_bounds(x + 1, y + 1) ==> !(is_open(m, x, y) && is_open(
            m,
            x + 1,
            y,
        ) && is_open(m, x, y + 1) && is_open(m, x + 1, y + 1))
}

/// A closed walk through distinct open cells: a cycle of the open region.
pub open spec fn open_cycle(m: Maze, p: Seq<(int, int)>) -> bool {
    &&& open_path(m, p)
    &&& p.len() >= 3
    &&& forall|i: int, j: int| #![trigger p[i], p[j]] 0 <= i < j < p.len() ==> p[i] != p[j]
    &&& touching(p.last(), p.first())
}

/// The open region is acyclic: no closed walk through distinct open cells
/// exists.
pub open spec fn no_open_cycle(m: Maze) -> bool {
    forall|p: Seq<(int, int)>| !#[trigger] open_cycle(m, p)
}

/// Dropping the first cell of a path of two or more leaves a path.
proof fn lemma_path_drop_first(m: Maze, p: Seq<(int, int)>)
    requires
        open_path(m, p),
        p.len() >= 2,
    ensures
        open_path(m, p.drop_first()),
        p.drop_first().first() == p[1],
        p.drop_first().last() == p.last(),
{
    let t = p.drop_first();
    assert forall|i: int| 0 <= i < t.len() implies is_open(m, (#[trigger] t[i]).0, t[i].1) by {
        assert(t[i] == p[i + 1]);
    }
    assert forall|i: int| 0 <= i < t.len() - 1 implies touching(#[trigger] t[i], t[i + 1]) by {
        assert(t[i] == p[i + 1] && t[i + 1] == p[i + 2]);
    }
}

/// Where adjacent open cells share ids, the two ends of any open path share
/// an id.
proof fn lemma_chain_ids(m: Maze, p: Seq<(int, int)>)
    requires
        adjacent_share_id(m),
        open_path(m, p),
    ensures
        m.cell_at(p.first().0, p.first().1).id == m.cell_at(p.last().0, p.last().1).id,
    decreases p.len(),
{
    if p.len() >= 2 {
        assert(touching(p[0], p[1]));
        assert(is_open(m, p[0].0, p[0].1) && is_open(m, p[1].0, p[1].1));
        assert(m.cell_at(p[0].0, p[0].1).id == m.cell_at(p[1].0, p[1].1).id);
        lemma_path_drop_first(m, p);
        lemma_chain_ids(m, p.drop_first());
    }
}

/// A contiguous piece of an open path is an open path.
proof fn lemma_path_subrange(m: Maze, p: Seq<(int, int)>, i: int, j: int)
    requires
        open_path(m, p),
        0 <= i < j <= p.len(),
    ensures
        open_path(m, p.subrange(i, j)),
        p.subrange(i, j).first() == p[i],
        p.subrange(i, j).last() == p[j - 1],
{
    let t = p.subrange(i, j);
    assert forall|k: int| 0 <= k < t.len() implies is_open(m, (#[trigger] t[k]).0, t[k].1) by {
        assert(t[k] == p[i + k]);
    }
    assert forall|k: int| 0 <= k < t.len() - 1 implies touching(#[trigger] t[k], t[k + 1]) by {
        assert(t[k] == p[i + k] && t[k + 1] == p[i + k + 1]);
    }
}

/// The two cells of a merge axis sit immediately on either side of the
/// centre, on one line with it.
pub open spec fn axis_shape(s2: (int, int), o2: (int, int), c2: (int, int)) -> bool {
    ||| (s2.0 == c2.0 && o2.0 == c2.0 && s2.1 + 1 == c2.1 && c2.1 + 1 == o2.1)
    ||| (s2.1 == c2.1 && o2.1 == c2.1 && s2.0 + 1 == c2.0 && c2.0 + 1 == o2.0)
}

/// A wall with an extra open neighbour off its merge axis cannot separate
/// two components: chains of adjacent open cells around that neighbour
/// already tie both sides of the axis together.
#[verifier::rlimit(100)]
#[verifier::spinoff_prover]
proof fn lemma_center_isolated(pre: Maze, cx: int, cy: int, sx: int, sy: int, ox: int, oy: int, nx: int, ny: int)
    requires
        pre.wf(),
        adjacent_share_id(pre),
        pillars_bridged(pre),
        pre.in_bounds(cx, cy),
        pre.in_bounds(sx, sy),
        pre.in_bounds(ox, oy),
        pre.in_bounds(nx, ny),
        cx % 2 == 1 || cy % 2 == 1,
        pre.cell_at(cx, cy).cell_type == WALL,
        axis_shape((sx, sy), (ox, oy), (cx, cy)),
        pre.cell_at(sx, sy).cell_type != WALL,
        pre.cell_at(ox, oy).cell_type != WALL,
        touching((nx, ny), (cx, cy)),
        !(nx == sx && ny == sy),
        !(nx == ox && ny == oy),
        is_open(pre, nx, ny),
    ensures
        pre.cell_at(sx, sy).id == pre.cell_at(ox, oy).id,
{
    if sx == cx {
        // Vertical merge axis; the extra neighbour sits beside the centre.
        let dx = nx - cx;
        assert(dx == 1 || dx == -1);
        if cy % 2 == 0 {
            // One-odd centre, both-odd axis cells; the neighbour is an
            // even-even passage. The axis cells are bridged pillars whose
            // open axis cannot pass through the closed centre.
            assert(is_open(pre, cx + dx, cy - 1) && is_open(pre, cx + dx, cy + 1));
            assert(touching((cx + dx, cy - 1), (nx, ny)));
            assert(touching((cx + dx, cy - 1), (sx, sy)));
            assert(pre.cell_at(cx + dx, cy - 1).id == pre.cell_at(nx, ny).id);
            assert(pre.cell_at(cx + dx, cy - 1).id == pre.cell_at(sx, sy).id);
            assert(touching((cx + dx, cy + 1), (nx, ny)));
            assert(touching((cx + dx, cy + 1), (ox, oy)));
            assert(pre.cell_at(cx + dx, cy + 1).id == pre.cell_at(nx, ny).id);
            assert(pre.cell_at(cx + dx, cy + 1).id == pre.cell_at(ox, oy).id);
        } else if cx % 2 == 1 {
            // Both-odd centre, one-odd axis cells; even-even passages in the
            // corners bridge the neighbour to both axis cells.
            assert(is_open(pre, cx + dx, cy - 1) && is_open(pre, cx + dx, cy + 1));
            assert(touching((cx + dx, cy - 1), (nx, ny)));
            assert(touching((cx + dx, cy - 1), (sx, sy)));
            assert(pre.cell_at(cx + dx, cy - 1).id == pre.cell_at(nx, ny).id);
            assert(pre.cell_at(cx + dx, cy - 1).id == pre.cell_at(sx, sy).id);
            assert(touching((cx + dx, cy + 1), (nx, ny)));
            assert(touching((cx + dx, cy + 1), (ox, oy)));
            assert(pre.cell_at(cx + dx, cy + 1).id == pre.cell_at(nx, ny).id);
            assert(pre.cell_at(cx + dx, cy + 1).id == pre.cell_at(ox, oy).id);
        } else {
            // One-odd centre with even column: the neighbour is a bridged
            // pillar whose open axis is vertical, since its horizontal axis
            // holds the closed centre.
            assert(nx % 2 == 1 && ny % 2 == 1);
            assert(is_open(pre, nx, ny - 1) && is_open(pre, nx, ny + 1));
            assert(touching((nx, ny - 1), (nx, ny)));
            assert(touching((nx, ny - 1), (sx, sy)));
            assert(pre.cell_at(nx, ny - 1).id == pre.cell_at(nx, ny).id);
            assert(pre.cell_at(nx, ny - 1).id == pre.cell_at(sx, sy).id);
            assert(touching((nx, ny + 1), (nx, ny)));
            assert(touching((nx, ny + 1), (ox, oy)));
            assert(pre.cell_at(nx, ny + 1).id == pre.cell_at(nx, ny).id);
            assert(pre.cell_at(nx, ny + 1).id == pre.cell_at(ox, oy).id);
        }
    } else {
        // Horizontal merge axis: the mirrored analysis.
        let dy = ny - cy;
        assert(dy == 1 || dy == -1);
        if cx % 2 == 0 {
            assert(is_open(pre, cx - 1, cy + dy) && is_open(pre, cx + 1, cy + dy));
            assert(touching((cx - 1, cy + dy), (nx, ny)));
            assert(touching((cx - 1, cy + dy), (sx, sy)));
            assert(pre.cell_at(cx - 1, cy + dy).id == pre.cell_at(nx, ny).id);
            assert(pre.cell_at(cx - 1, cy + dy).id == pre.cell_at(sx, sy).id);
            assert(touching((cx + 1, cy + dy), (nx, ny)));
            assert(touching((cx + 1, cy + dy), (ox, oy)));
            assert(pre.cell_at(cx + 1, cy + dy).id == pre.cell_at(nx, ny).id);
            assert(pre.cell_at(cx + 1, cy + dy).id == pre.cell_at(ox, oy).id);
        } else if cy % 2 == 1 {
            assert(is_open(pre, cx - 1, cy + dy) && is_open(pre, cx + 1, cy + dy));
            assert(touching((cx - 1, cy + dy), (nx, ny)));
            assert(touching((cx - 1, cy + dy), (sx, sy)));
            assert(pre.cell_at(cx - 1, cy + dy).id == pre.cell_at(nx, ny).id);
            assert(pre.cell_at(cx - 1, cy + dy).id == pre.cell_at(sx, sy).id);
            assert(touching((cx + 1, cy + dy), (nx, ny)));
            assert(touching((cx + 1, cy + dy), (ox, oy)));
            assert(pre.cell_at(cx + 1, cy + dy).id == pre.cell_at(nx, ny).id);
            assert(pre.cell_at(cx + 1, cy + dy).id == pre.cell_at(ox, oy).id);
        } else {
            assert(nx % 2 == 1 && ny % 2 == 1);
            assert(is_open(pre, nx - 1, ny) && is_open(pre, nx + 1, ny));
            assert(touching((nx - 1, ny), (nx, ny)));
            assert(touching((nx - 1, ny), (sx, sy)));
            assert(pre.cell_at(nx - 1, ny).id == pre.cell_at(nx, ny).id);
            assert(pre.cell_at(nx - 1, ny).id == pre.cell_at(sx, sy).id);
            assert(touching((nx + 1, ny), (nx, ny)));
            assert(touching((nx + 1, ny), (ox, oy)));
            assert(pre.cell_at(nx + 1, ny).id == pre.cell_at(nx, ny).id);
            assert(pre.cell_at(nx + 1, ny).id == pre.cell_at(ox, oy).id);
        }
    }
}

/// Two grids equal cell for cell share the geometric invariants.
proof fn lemma_geometry_unchanged(a: Maze, b: Maze)
    requires
        b.size == a.size,
        forall|x: int, y: int| a.in_bounds(x, y) ==> #[trigger] b.cell_at(x, y) == a.cell_at(x, y),
        adjacent_share_id(a),
        pillars_bridged(a),
        no_open_block(a),
    ensures
        adjacent_share_id(b),
        pillars_bridged(b),
        no_open_block(b),
{
    assert forall|x1: int, y1: int, x2: int, y2: int|
        #![trigger b.cell_at(x1, y1), b.cell_at(x2, y2)]
        is_open(b, x1, y1) && is_open(b, x2, y2) && touching((x1, y1), (x2, y2)) implies b.cell_at(
        x1,
        y1,
    ).id == b.cell_at(x2, y2).id by {
        assert(b.cell_at(x1, y1) == a.cell_at(x1, y1));
        assert(b.cell_at(x2, y2) == a.cell_at(x2, y2));
    }
    assert forall|x: int, y: int|
        b.in_bounds(x, y) && x % 2 == 1 && y % 2 == 1 && (#[trigger] b.cell_at(x, y)).cell_type
            != WALL implies ((is_open(b, x, y - 1) && is_open(b, x, y + 1)) || (is_open(
        b,
        x - 1,
        y,
    ) && is_open(b, x + 1, y))) by {
        assert(b.cell_at(x, y) == a.cell_at(x, y));
        if is_open(a, x, y - 1) && is_open(a, x, y + 1) {
            assert(b.cell_at(x, y - 1) == a.cell_at(x, y - 1));
            assert(b.cell_at(x, y + 1) == a.cell_at(x, y + 1));
        } else {
            assert(is_open(a, x - 1, y) && is_open(a, x + 1, y));
            assert(b.cell_at(x - 1, y) == a.cell_at(x - 1, y));
            assert(b.cell_at(x + 1, y) == a.cell_at(x + 1, y));
        }
    }
    assert forall|x: int, y: int|
        #![trigger b.cell_at(x, y)]
        b.in_bounds(x, y) && b.in_bounds(x + 1, y + 1) implies !(is_open(b, x, y) && is_open(
        b,
        x + 1,
        y,
    ) && is_open(b, x, y + 1) && is_open(b, x + 1, y + 1)) by {
        assert(b.cell_at(x, y) == a.cell_at(x, y));
        assert(b.cell_at(x + 1, y) == a.cell_at(x + 1, y));
        assert(b.cell_at(x, y + 1) == a.cell_at(x, y + 1));
        assert(b.cell_at(x + 1, y + 1) == a.cell_at(x + 1, y + 1));
    }
}

/// One merge step keeps adjacent open cells in one component, pillars
/// bridged, and the grid free of 2 by 2 open blocks.
#[verifier::rlimit(100)]
#[verifier::spinoff_prover]
proof fn lemma_step_geometry(pre: Maze, post: Maze, sp: Pos, op: Pos, cp: Pos)
    requires
        pre.wf(),
        join_step(pre, post, sp, op, cp),
        pre.in_bounds(sp.x as int, sp.y as int),
        pre.in_bounds(op.x as int, op.y as int),
        pre.in_bounds(cp.x as int, cp.y as int),
        cp.x as int % 2 == 1 || cp.y as int % 2 == 1,
        axis_shape(
            (sp.x as int, sp.y as int),
            (op.x as int, op.y as int),
            (cp.x as int, cp.y as int),
        ),
        adjacent_share_id(pre),
        pillars_bridged(pre),
        no_open_block(pre),
    ensures
        adjacent_share_id(post),
        pillars_bridged(post),
        no_open_block(post),
{
    let s2 = (sp.x as int, sp.y as int);
    let o2 = (op.x as int, op.y as int);
    let c2 = (cp.x as int, cp.y as int);
    let side = pre.cell_at(s2.0, s2.1);
    let opposite = pre.cell_at(o2.0, o2.1);
    if !eligible(side, opposite) {
        lemma_geometry_unchanged(pre, post);
    } else if pre.cell_at(c2.0, c2.1).cell_type != WALL {
        // A centre already open ties its two axis cells into one component,
        // so an eligible pair cannot exist around it.
        assert(touching(s2, c2) && touching(c2, o2));
        assert(pre.cell_at(s2.0, s2.1).id == pre.cell_at(c2.0, c2.1).id);
        assert(pre.cell_at(c2.0, c2.1).id == pre.cell_at(o2.0, o2.1).id);
        assert(false);
    } else {
        lemma_step_openness(pre, post, sp, op, cp);
        assert(is_open(post, c2.0, c2.1));
        assert(is_open(pre, s2.0, s2.1) && is_open(pre, o2.0, o2.1));
        assert(post.cell_at(c2.0, c2.1).id == side.id);
        assert(post.cell_at(s2.0, s2.1).id == side.id);
        assert(post.cell_at(o2.0, o2.1).id == side.id);
        assert forall|x1: int, y1: int, x2: int, y2: int|
            #![trigger post.cell_at(x1, y1), post.cell_at(x2, y2)]
            is_open(post, x1, y1) && is_open(post, x2, y2) && touching((x1, y1), (x2, y2))
            implies post.cell_at(x1, y1).id == post.cell_at(x2, y2).id by {
            if (x1, y1) == c2 || (x2, y2) == c2 {
                let n = if (x1, y1) == c2 {
                    (x2, y2)
                } else {
                    (x1, y1)
                };
                assert(n != c2);
                assert(is_open(pre, n.0, n.1));
                if n != s2 && n != o2 {
                    lemma_center_isolated(pre, c2.0, c2.1, s2.0, s2.1, o2.0, o2.1, n.0, n.1);
                    assert(false);
                }
            } else {
                assert(is_open(pre, x1, y1) && is_open(pre, x2, y2));
                assert(pre.cell_at(x1, y1).id == pre.cell_at(x2, y2).id);
                lemma_step_preserves_eq(pre, post, sp, op, cp, x1, y1, x2, y2);
            }
        }
        assert forall|x: int, y: int|
            post.in_bounds(x, y) && x % 2 == 1 && y % 2 == 1 && (#[trigger] post.cell_at(
                x,
                y,
            )).cell_type != WALL implies ((is_open(post, x, y - 1) && is_open(post, x, y + 1)) || (
        is_open(post, x - 1, y) && is_open(post, x + 1, y))) by {
            if (x, y) == c2 {
                if s2.0 == c2.0 {
                    assert(is_open(post, x, y - 1) && is_open(post, x, y + 1));
                } else {
                    assert(is_open(post, x - 1, y) && is_open(post, x + 1, y));
                }
            } else {
                assert(is_open(pre, x, y));
                if is_open(pre, x, y - 1) && is_open(pre, x, y + 1) {
                    assert(is_open(post, x, y - 1) && is_open(post, x, y + 1));
                } else {
                    assert(is_open(pre, x - 1, y) && is_open(pre, x + 1, y));
                    assert(is_open(post, x - 1, y) && is_open(post, x + 1, y));
                }
            }
        }
        assert forall|x: int, y: int|
            #![trigger post.cell_at(x, y)]
            post.in_bounds(x, y) && post.in_bounds(x + 1, y + 1) implies !(is_open(post, x, y)
            && is_open(post, x + 1, y) && is_open(post, x, y + 1) && is_open(
            post,
            x + 1,
            y + 1,
        )) by {
            if is_open(post, x, y) && is_open(post, x + 1, y) && is_open(post, x, y + 1)
                && is_open(post, x + 1, y + 1) {
                if c2 != ((x, y)) && c2 != ((x + 1, y)) && c2 != ((x, y + 1)) && c2 != ((
                x + 1,
                y + 1,
                )) {
                    assert(is_open(pre, x, y) && is_open(pre, x + 1, y) && is_open(pre, x, y + 1)
                        && is_open(pre, x + 1, y + 1));
                    assert(false);
                } else {
                    // The centre is one corner of the block; its block
                    // neighbour off the merge axis is an extra open
                    // neighbour, which an eligible merge rules out.
                    let n = if s2.0 == c2.0 {
                        // vertical axis: take the horizontal block partner
                        if c2 == ((x, y)) || c2 == ((x, y + 1)) {
                            (c2.0 + 1, c2.1)
                        } else {
                            (c2.0 - 1, c2.1)
                        }
                    } else {
                        if c2 == ((x, y)) || c2 == ((x + 1, y)) {
                            (c2.0, c2.1 + 1)
                        } else {
                            (c2.0, c2.1 - 1)
                        }
                    };
                    assert(touching(n, c2));
                    assert(n != s2 && n != o2);
                    assert(is_open(post, n.0, n.1) && n != c2);
                    assert(is_open(pre, n.0, n.1));
                    lemma_center_isolated(pre, c2.0, c2.1, s2.0, s2.1, o2.0, o2.1, n.0, n.1);
                    assert(false);
                }
            }
        }
    }
}

/// After an eligible merge, every open cell carrying the merged id is
/// joined to the centre: it was joined to one end of the merged pair
/// before, and the centre now bridges the two.
proof fn lemma_step_joined_to_center(pre: Maze, post: Maze, sp: Pos, op: Pos, cp: Pos, x: int, y: int)
    requires
        pre.wf(),
        join_step(pre, post, sp, op, cp),
        pre.in_bounds(sp.x as int, sp.y as int),
        pre.in_bounds(op.x as int, op.y as int),
        pre.in_bounds(cp.x as int, cp.y as int),
        touching((sp.x as int, sp.y as int), (cp.x as int, cp.y as int)),
        touching((cp.x as int, cp.y as int), (op.x as int, op.y as int)),
        eligible(
            pre.cell_at(sp.x as int, sp.y as int),
            pre.cell_at(op.x as int, op.y as int),
        ),
        is_open(post, x, y),
        (x, y) == ((cp.x as int, cp.y as int)) || joined(pre, (x, y), (sp.x as int, sp.y as int))
            || joined(pre, (x, y), (op.x as int, op.y as int)),
    ensures
        joined(post, (x, y), (cp.x as int, cp.y as int)),
{
    let s2 = (sp.x as int, sp.y as int);
    let o2 = (op.x as int, op.y as int);
    let c2 = (cp.x as int, cp.y as int);
    let side = pre.cell_at(s2.0, s2.1);
    assert(post.cell_at(c2.0, c2.1).cell_type == side.cell_type);
    assert(is_open(post, c2.0, c2.1));
    if (x, y) == c2 {
        reveal(joined);
        let q: Seq<(int, int)> = seq![c2];
        assert(open_path(post, q));
        assert(q.first() == c2 && q.last() == c2);
    } else if joined(pre, (x, y), s2) {
        lemma_step_path(pre, post, sp, op, cp, (x, y), s2);
        lemma_joined_extend(post, (x, y), s2, c2);
    } else {
        lemma_step_path(pre, post, sp, op, cp, (x, y), o2);
        lemma_joined_extend(post, (x, y), o2, c2);
    }
}

/// Two open cells of the merged grid sharing an id are joined by an open
/// path, provided ids were sound for adjacency before the step.
proof fn lemma_step_pair_joined(
    pre: Maze,
    post: Maze,
    sp: Pos,
    op: Pos,
    cp: Pos,
    x1: int,
    y1: int,
    x2: int,
    y2: int,
)
    requires
        pre.wf(),
        join_step(pre, post, sp, op, cp),
        pre.in_bounds(sp.x as int, sp.y as int),
        pre.in_bounds(op.x as int, op.y as int),
        pre.in_bounds(cp.x as int, cp.y as int),
        touching((sp.x as int, sp.y as int), (cp.x as int, cp.y as int)),
        touching((cp.x as int, cp.y as int), (op.x as int, op.y as int)),
        ids_joined(pre),
        is_open(post, x1, y1),
        is_open(post, x2, y2),
        post.cell_at(x1, y1).id == post.cell_at(x2, y2).id,
    ensures
        joined(post, (x1, y1), (x2, y2)),
{
    let s2 = (sp.x as int, sp.y as int);
    let o2 = (op.x as int, op.y as int);
    let c2 = (cp.x as int, cp.y as int);
    let side = pre.cell_at(s2.0, s2.1);
    let opposite = pre.cell_at(o2.0, o2.1);
    lemma_step_openness(pre, post, sp, op, cp);
    if !eligible(side, opposite) {
        assert(post.cell_at(x1, y1) == pre.cell_at(x1, y1));
        assert(post.cell_at(x2, y2) == pre.cell_at(x2, y2));
        assert(is_open(pre, x1, y1) && is_open(pre, x2, y2));
        assert(joined(pre, (x1, y1), (x2, y2)));
        lemma_step_path(pre, post, sp, op, cp, (x1, y1), (x2, y2));
    } else {
        assert(is_open(pre, s2.0, s2.1) && is_open(pre, o2.0, o2.1));
        assert(pre.cell_at(s2.0, s2.1).id == side.id);
        assert(pre.cell_at(o2.0, o2.1).id == opposite.id);
        assert(post.cell_at(c2.0, c2.1).id == side.id);
        if post.cell_at(x1, y1).id == side.id {
            assert forall|x: int, y: int|
                is_open(post, x, y) && #[trigger] post.cell_at(x, y).id == side.id implies (x, y)
                == c2 || joined(pre, (x, y), s2) || joined(pre, (x, y), o2) by {
                if (x, y) != c2 {
                    assert((Pos { x: x as isize, y: y as isize }) != cp);
                    assert(is_open(pre, x, y));
                    if pre.cell_at(x, y).id == opposite.id {
                        assert(joined(pre, (x, y), o2));
                    } else {
                        assert(pre.cell_at(x, y).id == side.id);
                        assert(joined(pre, (x, y), s2));
                    }
                }
            }
            lemma_step_joined_to_center(pre, post, sp, op, cp, x1, y1);
            lemma_step_joined_to_center(pre, post, sp, op, cp, x2, y2);
            lemma_joined_via(post, (x1, y1), (x2, y2), c2);
        } else {
            assert((x1, y1) != c2 && (x2, y2) != c2);
            assert((Pos { x: x1 as isize, y: y1 as isize }) != cp);
            assert((Pos { x: x2 as isize, y: y2 as isize }) != cp);
            assert(is_open(pre, x1, y1) && is_open(pre, x2, y2));
            assert(pre.cell_at(x1, y1).id == post.cell_at(x1, y1).id);
            assert(pre.cell_at(x2, y2).id == post.cell_at(x2, y2).id);
            assert(joined(pre, (x1, y1), (x2, y2)));
            lemma_step_path(pre, post, sp, op, cp, (x1, y1), (x2, y2));
        }
    }
}

/// A merge step keeps component ids sound for adjacency.
proof fn lemma_step_preserves_ids_joined(pre: Maze, post: Maze, sp: Pos, op: Pos, cp: Pos)
    requires
        pre.wf(),
        join_step(pre, post, sp, op, cp),
        pre.in_bounds(sp.x as int, sp.y as int),
        pre.in_bounds(op.x as int, op.y as int),
        pre.in_bounds(cp.x as int, cp.y as int),
        touching((sp.x as int, sp.y as int), (cp.x as int, cp.y as int)),
        touching((cp.x as int, cp.y as int), (op.x as int, op.y as int)),
        ids_joined(pre),
    ensures
        ids_joined(post),
{
    assert forall|x1: int, y1: int, x2: int, y2: int|
        #![trigger post.cell_at(x1, y1), post.cell_at(x2, y2)]
        is_open(post, x1, y1) && is_open(post, x2, y2) && post.cell_at(x1, y1).id == post.cell_at(
            x2,
            y2,
        ).id implies joined(post, (x1, y1), (x2, y2)) by {
        lemma_step_pair_joined(pre, post, sp, op, cp, x1, y1, x2, y2);
    }
}

/// One worklist step keeps component ids sound for adjacency.
proof fn lemma_steps_preserve_ids_joined(pre: Maze, mid: Maze, post: Maze, w: Cell)
    requires
        pre.wf(),
        wall_snapshot_ok(w, pre.size as int),
        join_cells_steps(pre, mid, post, w),
        ids_joined(pre),
    ensures
        ids_joined(post),
{
    let wx = w.pos.x as int;
    let wy = w.pos.y as int;
    lemma_steps_preserve_wf_anchored_weak(pre, mid, post, w);
    if vert_pair(w) {
        let tp = w.neighbours.top->0;
        let bp = w.neighbours.bot->0;
        assert(tp == (Pos { x: wx as isize, y: (wy - 1) as isize }));
        assert(bp == (Pos { x: wx as isize, y: (wy + 1) as isize }));
        assert(touching((wx, wy - 1), (wx, wy)));
        assert(touching((wx, wy), (wx, wy + 1)));
        lemma_step_preserves_ids_joined(pre, mid, tp, bp, w.pos);
    } else {
        assert(mid == pre);
    }
    if horiz_pair(w) {
        let lp = w.neighbours.left->0;
        let rp = w.neighbours.right->0;
        assert(lp == (Pos { x: (wx - 1) as isize, y: wy as isize }));
        assert(rp == (Pos { x: (wx + 1) as isize, y: wy as isize }));
        assert(touching((wx - 1, wy), (wx, wy)));
        assert(touching((wx, wy), (wx + 1, wy)));
        lemma_step_preserves_ids_joined(mid, post, lp, rp, w.pos);
    } else {
        assert(post == mid);
    }
}

/// One merge step cannot close a loop: the centre's only open neighbours
/// are the two cells of its merge axis, which lie in different components,
/// and any other cycle already existed.
#[verifier::rlimit(100)]
#[verifier::spinoff_prover]
proof fn lemma_step_no_cycle(pre: Maze, post: Maze, sp: Pos, op: Pos, cp: Pos)
    requires
        pre.wf(),
        join_step(pre, post, sp, op, cp),
        pre.in_bounds(sp.x as int, sp.y as int),
        pre.in_bounds(op.x as int, op.y as int),
        pre.in_bounds(cp.x as int, cp.y as int),
        cp.x as int % 2 == 1 || cp.y as int % 2 == 1,
        axis_shape(
            (sp.x as int, sp.y as int),
            (op.x as int, op.y as int),
            (cp.x as int, cp.y as int),
        ),
        adjacent_share_id(pre),
        pillars_bridged(pre),
        no_open_cycle(pre),
    ensures
        no_open_cycle(post),
{
    let s2 = (sp.x as int, sp.y as int);
    let o2 = (op.x as int, op.y as int);
    let c2 = (cp.x as int, cp.y as int);
    let side = pre.cell_at(s2.0, s2.1);
    let opposite = pre.cell_at(o2.0, o2.1);
    if !eligible(side, opposite) {
        assert forall|p: Seq<(int, int)>| !#[trigger] open_cycle(post, p) by {
            if open_cycle(post, p) {
                assert forall|i: int| 0 <= i < p.len() implies is_open(
                    pre,
                    (#[trigger] p[i]).0,
                    p[i].1,
                ) by {
                    assert(post.cell_at(p[i].0, p[i].1) == pre.cell_at(p[i].0, p[i].1));
                }
                assert(open_cycle(pre, p));
            }
        }
    } else if pre.cell_at(c2.0, c2.1).cell_type != WALL {
        assert(touching(s2, c2) && touching(c2, o2));
        assert(pre.cell_at(s2.0, s2.1).id == pre.cell_at(c2.0, c2.1).id);
        assert(pre.cell_at(c2.0, c2.1).id == pre.cell_at(o2.0, o2.1).id);
        assert(false);
    } else {
        lemma_step_openness(pre, post, sp, op, cp);
        assert forall|p: Seq<(int, int)>| !#[trigger] open_cycle(post, p) by {
            if open_cycle(post, p) {
                let len = p.len() as int;
                if exists|i: int| 0 <= i < len && #[trigger] p[i] == c2 {
                    let k = choose|k: int| 0 <= k < len && #[trigger] p[k] == c2;
                    let n1 = if k == 0 {
                        p[len - 1]
                    } else {
                        p[k - 1]
                    };
                    let n2 = if k == len - 1 {
                        p[0]
                    } else {
                        p[k + 1]
                    };
                    assert(touching(n1, c2));
                    assert(touching(n2, c2));
                    assert(n1 != c2 && n2 != c2 && n1 != n2);
                    assert(is_open(pre, n1.0, n1.1) && is_open(pre, n2.0, n2.1));
                    if n1 != s2 && n1 != o2 {
                        lemma_center_isolated(pre, c2.0, c2.1, s2.0, s2.1, o2.0, o2.1, n1.0, n1.1);
                        assert(false);
                    }
                    if n2 != s2 && n2 != o2 {
                        lemma_center_isolated(pre, c2.0, c2.1, s2.0, s2.1, o2.0, o2.1, n2.0, n2.1);
                        assert(false);
                    }
                    // The rest of the cycle is an open path of the old grid
                    // from one axis cell to the other, so the two components
                    // already coincided.
                    if k == 0 {
                        lemma_path_subrange(post, p, 1, len);
                        let t = p.subrange(1, len);
                        assert forall|i: int| 0 <= i < t.len() implies is_open(
                            pre,
                            (#[trigger] t[i]).0,
                            t[i].1,
                        ) by {
                            assert(t[i] == p[i + 1]);
                            assert(p[0] != p[i + 1]);
                        }
                        assert(open_path(pre, t));
                        lemma_chain_ids(pre, t);
                        assert(pre.cell_at(n2.0, n2.1).id == pre.cell_at(n1.0, n1.1).id);
                    } else if k == len - 1 {
                        lemma_path_subrange(post, p, 0, len - 1);
                        let t = p.subrange(0, len - 1);
                        assert forall|i: int| 0 <= i < t.len() implies is_open(
                            pre,
                            (#[trigger] t[i]).0,
                            t[i].1,
                        ) by {
                            assert(t[i] == p[i]);
                            assert(p[i] != p[k]);
                        }
                        assert(open_path(pre, t));
                        lemma_chain_ids(pre, t);
                        assert(pre.cell_at(n2.0, n2.1).id == pre.cell_at(n1.0, n1.1).id);
                    } else {
                        lemma_path_subrange(post, p, k + 1, len);
                        lemma_path_subrange(post, p, 0, k);
                        let t1 = p.subrange(k + 1, len);
                        let t2 = p.subrange(0, k);
                        assert forall|i: int| 0 <= i < t1.len() implies is_open(
                            pre,
                            (#[trigger] t1[i]).0,
                            t1[i].1,
                        ) by {
                            assert(t1[i] == p[k + 1 + i]);
                            assert(p[k] != p[k + 1 + i]);
                        }
                        assert forall|i: int| 0 <= i < t2.len() implies is_open(
                            pre,
                            (#[trigger] t2[i]).0,
                            t2[i].1,
                        ) by {
                            assert(t2[i] == p[i]);
                            assert(p[i] != p[k]);
                        }
                        assert(open_path(pre, t1));
                        assert(open_path(pre, t2));
                        assert(t1.last() == p[len - 1] && t2.first() == p[0]);
                        assert(touching(t1.last(), t2.first()));
                        lemma_path_concat(pre, t1, t2);
                        lemma_chain_ids(pre, t1 + t2);
                        assert((t1 + t2).first() == p[k + 1] && (t1 + t2).last() == p[k - 1]);
                        assert(pre.cell_at(n2.0, n2.1).id == pre.cell_at(n1.0, n1.1).id);
                    }
                    assert(pre.cell_at(s2.0, s2.1).id == pre.cell_at(o2.0, o2.1).id);
                    assert(false);
                } else {
                    assert forall|i: int| 0 <= i < len implies is_open(
                        pre,
                        (#[trigger] p[i]).0,
                        p[i].1,
                    ) by {
                        assert(p[i] != c2);
                    }
                    assert(open_cycle(pre, p));
                    assert(false);
                }
            }
        }
    }
}

/// One worklist step keeps the geometric invariants: if the first axis
/// merged, the opened centre makes the second axis ineligible, so at most
/// one axis ever merges per step.
proof fn lemma_steps_preserve_geometry(pre: Maze, mid: Maze, post: Maze, w: Cell)
    requires
        pre.wf(),
        wall_snapshot_ok(w, pre.size as int),
        join_cells_steps(pre, mid, post, w),
        adjacent_share_id(pre),
        pillars_bridged(pre),
        no_open_block(pre),
        no_open_cycle(pre),
    ensures
        adjacent_share_id(post),
        pillars_bridged(post),
        no_open_block(post),
        no_open_cycle(post),
{
    let wx = w.pos.x as int;
    let wy = w.pos.y as int;
    lemma_steps_preserve_wf_anchored_weak(pre, mid, post, w);
    if vert_pair(w) {
        let tp = w.neighbours.top->0;
        let bp = w.neighbours.bot->0;
        assert(tp == (Pos { x: wx as isize, y: (wy - 1) as isize }));
        assert(bp == (Pos { x: wx as isize, y: (wy + 1) as isize }));
        assert(axis_shape((wx, wy - 1), (wx, wy + 1), (wx, wy)));
        lemma_step_no_cycle(pre, mid, tp, bp, w.pos);
        lemma_step_geometry(pre, mid, tp, bp, w.pos);
    } else {
        assert(mid == pre);
    }
    if horiz_pair(w) {
        let lp = w.neighbours.left->0;
        let rp = w.neighbours.right->0;
        assert(lp == (Pos { x: (wx - 1) as isize, y: wy as isize }));
        assert(rp == (Pos { x: (wx + 1) as isize, y: wy as isize }));
        assert(axis_shape((wx - 1, wy), (wx + 1, wy), (wx, wy)));
        lemma_step_no_cycle(mid, post, lp, rp, w.pos);
        lemma_step_geometry(mid, post, lp, rp, w.pos);
    } else {
        assert(post == mid);
    }
}

/// The freshly collected grid has no open cycle: no two of its open cells
/// are even adjacent.
#[verifier::rlimit(100)]
#[verifier::spinoff_prover]
proof fn lemma_initial_no_cycle(m: Maze)
    requires
        m.initial_grid(),
    ensures
        no_open_cycle(m),
{
    assert forall|p: Seq<(int, int)>| !#[trigger] open_cycle(m, p) by {
        if open_cycle(m, p) {
            let a = p[0];
            let b = p[1];
            assert(is_open(m, a.0, a.1));
            assert(is_open(m, b.0, b.1));
            assert(m.cell_at(a.0, a.1) == init_cell(m.size as int, a.0, a.1));
            assert(m.cell_at(b.0, b.1) == init_cell(m.size as int, b.0, b.1));
            assert(a.0 % 2 == 0 && a.1 % 2 == 0);
            assert(b.0 % 2 == 0 && b.1 % 2 == 0);
            assert(touching(a, b));
            assert(false);
        }
    }
}

/// The freshly collected grid satisfies the geometric invariants: its open
/// cells sit at even-even coordinates, no two of which are adjacent.
proof fn lemma_initial_geometry(m: Maze)
    requires
        m.initial_grid(),
    ensures
        adjacent_share_id(m),
        pillars_bridged(m),
        no_open_block(m),
        no_open_cycle(m),
{
    lemma_initial_no_cycle(m);
    assert forall|x1: int, y1: int, x2: int, y2: int|
        #![trigger m.cell_at(x1, y1), m.cell_at(x2, y2)]
        is_open(m, x1, y1) && is_open(m, x2, y2) && touching((x1, y1), (x2, y2)) implies m.cell_at(
        x1,
        y1,
    ).id == m.cell_at(x2, y2).id by {
        assert(m.cell_at(x1, y1) == init_cell(m.size as int, x1, y1));
        assert(m.cell_at(x2, y2) == init_cell(m.size as int, x2, y2));
        assert(x1 % 2 == 0 && y1 % 2 == 0 && x2 % 2 == 0 && y2 % 2 == 0);
        assert(false);
    }
    assert forall|x: int, y: int|
        m.in_bounds(x, y) && x % 2 == 1 && y % 2 == 1 && (#[trigger] m.cell_at(x, y)).cell_type
            != WALL implies ((is_open(m, x, y - 1) && is_open(m, x, y + 1)) || (is_open(
        m,
        x - 1,
        y,
    ) && is_open(m, x + 1, y))) by {
        assert(m.cell_at(x, y) == init_cell(m.size as int, x, y));
        assert(false);
    }
    assert forall|x: int, y: int|
        #![trigger m.cell_at(x, y)]
        m.in_bounds(x, y) && m.in_bounds(x + 1, y + 1) implies !(is_open(m, x, y) && is_open(
        m,
        x + 1,
        y,
    ) && is_open(m, x, y + 1) && is_open(m, x + 1, y + 1)) by {
        let ax = if x % 2 == 1 {
            x
        } else {
            x + 1
        };
        let ay = if y % 2 == 1 {
            y
        } else {
            y + 1
        };
        assert(m.cell_at(ax, ay) == init_cell(m.size as int, ax, ay));
        assert(!is_open(m, ax, ay));
    }
}

/// In the freshly collected grid ids are sound for adjacency: ids are
/// pairwise distinct, so two open cells share one only if they are the same
/// cell.
proof fn lemma_initial_ids_joined(m: Maze)
    requires
        m.initial_grid(),
    ensures
        ids_joined(m),
{
    assert forall|x1: int, y1: int, x2: int, y2: int|
        #![trigger m.cell_at(x1, y1), m.cell_at(x2, y2)]
        is_open(m, x1, y1) && is_open(m, x2, y2) && m.cell_at(x1, y1).id == m.cell_at(
            x2,
            y2,
        ).id implies joined(m, (x1, y1), (x2, y2)) by {
        assert(m.cell_at(x1, y1) == init_cell(m.size as int, x1, y1));
        assert(m.cell_at(x2, y2) == init_cell(m.size as int, x2, y2));
        assert(x1 % 2 == 0 && y1 % 2 == 0 && x2 % 2 == 0 && y2 % 2 == 0);
        if !(x1 == x2 && y1 == y2) {
            crate::laws::lemma_initial_ids_distinct(m, x1, y1, x2, y2);
        }
        assert(x1 == x2 && y1 == y2);
        reveal(joined);
        let q: Seq<(int, int)> = seq![(x1, y1)];
        assert(open_path(m, q));
        assert(q.first() == ((x1, y1)) && q.last() == ((x2, y2)));
    }
}

/// A merge step keeps the grid structurally sound.
pub proof fn lemma_step_preserves_wf(pre: Maze, post: Maze, sp: Pos, op: Pos, cp: Pos)
    requires
        pre.wf(),
        join_step(pre, post, sp, op, cp),
        pre.in_bounds(sp.x as int, sp.y as int),
        pre.in_bounds(op.x as int, op.y as int),
    ensures
        post.wf(),
{
    assert forall|x: int, y: int| post.in_bounds(x, y) implies {
        let c = #[trigger] post.cell_at(x, y);
        &&& c.pos == pre.cell_at(x, y).pos
        &&& c.neighbours == pre.cell_at(x, y).neighbours
        &&& c.cell_type == WALL || c.cell_type == GROUND
        &&& (c.cell_type == WALL <==> c.id == 0)
        &&& (x % 2 == 0 && y % 2 == 0 ==> c.cell_type == GROUND)
    } by {
        assert(pre.in_bounds(x, y));
        assert(pre.cell_at(x, y).cell_type == WALL <==> pre.cell_at(x, y).id == 0);
    }
}

/// Off the centre slot, ids that were equal before a merge step are equal
/// after it: components are only ever fused, never split.
pub proof fn lemma_step_preserves_eq(
    pre: Maze,
    post: Maze,
    sp: Pos,
    op: Pos,
    cp: Pos,
    x1: int,
    y1: int,
    x2: int,
    y2: int,
)
    requires
        pre.size <= isize::MAX,
        join_step(pre, post, sp, op, cp),
        pre.in_bounds(x1, y1),
        pre.in_bounds(x2, y2),
        !(x1 == cp.x as int && y1 == cp.y as int),
        !(x2 == cp.x as int && y2 == cp.y as int),
        pre.cell_at(x1, y1).id == pre.cell_at(x2, y2).id,
    ensures
        post.cell_at(x1, y1).id == post.cell_at(x2, y2).id,
{
    assert((Pos { x: x1 as isize, y: y1 as isize }) != cp);
    assert((Pos { x: x2 as isize, y: y2 as isize }) != cp);
}

/// After a merge step whose two cells are passages, those two cells lie in
/// the same component: either they already did, or the step fused them.
pub proof fn lemma_step_resolves(pre: Maze, post: Maze, sp: Pos, op: Pos, cp: Pos)
    requires
        pre.size <= isize::MAX,
        join_step(pre, post, sp, op, cp),
        pre.in_bounds(sp.x as int, sp.y as int),
        pre.in_bounds(op.x as int, op.y as int),
        sp != cp,
        op != cp,
        pre.cell_at(sp.x as int, sp.y as int).cell_type != WALL,
        pre.cell_at(op.x as int, op.y as int).cell_type != WALL,
    ensures
        post.cell_at(sp.x as int, sp.y as int).id == post.cell_at(op.x as int, op.y as int).id,
{
    let side = pre.cell_at(sp.x as int, sp.y as int);
    let opposite = pre.cell_at(op.x as int, op.y as int);
    if eligible(side, opposite) {
        assert(post.cell_at(sp.x as int, sp.y as int) == merged_cell(
            side,
            side,
            opposite,
            Pos { x: sp.x as int as isize, y: sp.y as int as isize },
            cp,
            op,
        ));
        assert((Pos { x: sp.x as int as isize, y: sp.y as int as isize }) == sp);
        assert((Pos { x: op.x as int as isize, y: op.y as int as isize }) == op);
    }
}

/// One cell of the grid after a merge step still has an anchor: an even-even
/// passage cell of the original grid carrying the same id.
proof fn lemma_step_anchor_at(pre: Maze, post: Maze, sp: Pos, op: Pos, cp: Pos, x: int, y: int)
    requires
        pre.wf(),
        join_step(pre, post, sp, op, cp),
        pre.in_bounds(sp.x as int, sp.y as int),
        pre.in_bounds(op.x as int, op.y as int),
        cp.x as int % 2 == 1 || cp.y as int % 2 == 1,
        pre.in_bounds(cp.x as int, cp.y as int),
        pre.in_bounds(x, y),
        post.cell_at(x, y).cell_type != WALL,
        pre.cell_at(sp.x as int, sp.y as int).cell_type != WALL ==> pre.has_anchor(
            sp.x as int,
            sp.y as int,
        ),
        pre.cell_at(x, y).cell_type != WALL ==> pre.has_anchor(x, y),
    ensures
        post.has_anchor(x, y),
{
    reveal(Maze::has_anchor);
    let side = pre.cell_at(sp.x as int, sp.y as int);
    let opposite = pre.cell_at(op.x as int, op.y as int);
    if eligible(side, opposite) {
        if post.cell_at(x, y).id == side.id {
            // `side`'s anchor keeps its id, since that id is distinct from
            // `opposite`'s, so nothing relabels it.
            let (ex, ey): (int, int) = choose|ex: int, ey: int|
                pre.in_bounds(ex, ey) && ex % 2 == 0 && ey % 2 == 0 && (#[trigger] pre.cell_at(
                    ex,
                    ey,
                )).id == side.id;
            assert((Pos { x: ex as isize, y: ey as isize }) != cp);
            assert(post.cell_at(ex, ey).id == side.id);
        } else {
            // The cell kept its old id, and so did its old anchor, whose id
            // differs from `opposite`'s and so was not relabelled.
            assert((Pos { x: x as isize, y: y as isize }) != cp);
            assert(pre.cell_at(x, y).cell_type != WALL);
            let (ex, ey): (int, int) = choose|ex: int, ey: int|
                pre.in_bounds(ex, ey) && ex % 2 == 0 && ey % 2 == 0 && (#[trigger] pre.cell_at(
                    ex,
                    ey,
                )).id == pre.cell_at(x, y).id;
            assert((Pos { x: ex as isize, y: ey as isize }) != cp);
            assert(pre.cell_at(x, y).id != opposite.id);
            assert((Pos { x: ex as isize, y: ey as isize }) == op ==> pre.cell_at(ex, ey).id
                == opposite.id);
            assert(post.cell_at(ex, ey).id == post.cell_at(x, y).id);
        }
    } else {
        assert(post.cell_at(x, y) == pre.cell_at(x, y));
        let (ex, ey): (int, int) = choose|ex: int, ey: int|
            pre.in_bounds(ex, ey) && ex % 2 == 0 && ey % 2 == 0 && (#[trigger] pre.cell_at(
                ex,
                ey,
            )).id == pre.cell_at(x, y).id;
        assert(post.cell_at(ex, ey) == pre.cell_at(ex, ey));
    }
}

/// A merge step keeps every component anchored to an original passage cell.
pub proof fn lemma_step_preserves_anchored(pre: Maze, post: Maze, sp: Pos, op: Pos, cp: Pos)
    requires
        pre.wf(),
        pre.anchored(),
        join_step(pre, post, sp, op, cp),
        pre.in_bounds(sp.x as int, sp.y as int),
        pre.in_bounds(op.x as int, op.y as int),
        cp.x as int % 2 == 1 || cp.y as int % 2 == 1,
        pre.in_bounds(cp.x as int, cp.y as int),
    ensures
        post.anchored(),
{
    let side = pre.cell_at(sp.x as int, sp.y as int);
    let opposite = pre.cell_at(op.x as int, op.y as int);
    assert forall|x: int, y: int|
        post.in_bounds(x, y) && (#[trigger] post.cell_at(x, y)).cell_type != WALL
        implies post.has_anchor(x, y) by {
        assert(pre.in_bounds(x, y));
        if eligible(side, opposite) {
            lemma_step_anchor_at(pre, post, sp, op, cp, x, y);
        } else {
            assert(post.cell_at(x, y) == pre.cell_at(x, y));
            lemma_step_anchor_at(pre, post, sp, op, cp, x, y);
        }
    }
}

/// Both axis attempts of one worklist step keep the grid sound and anchored
/// and never change its size.
proof fn lemma_steps_preserve_wf_anchored(pre: Maze, mid: Maze, post: Maze, w: Cell)
    requires
        pre.wf(),
        pre.anchored(),
        wall_snapshot_ok(w, pre.size as int),
        join_cells_steps(pre, mid, post, w),
    ensures
        mid.wf(),
        post.wf(),
        post.anchored(),
        post.size == pre.size,
{
    let wx = w.pos.x as int;
    let wy = w.pos.y as int;
    if vert_pair(w) {
        let tp = w.neighbours.top->0;
        let bp = w.neighbours.bot->0;
        assert(tp == (Pos { x: wx as isize, y: (wy - 1) as isize }));
        assert(bp == (Pos { x: wx as isize, y: (wy + 1) as isize }));
        lemma_step_preserves_wf(pre, mid, tp, bp, w.pos);
        lemma_step_preserves_anchored(pre, mid, tp, bp, w.pos);
    } else {
        assert(mid == pre);
    }
    if horiz_pair(w) {
        let lp = w.neighbours.left->0;
        let rp = w.neighbours.right->0;
        assert(lp == (Pos { x: (wx - 1) as isize, y: wy as isize }));
        assert(rp == (Pos { x: (wx + 1) as isize, y: wy as isize }));
        lemma_step_preserves_wf(mid, post, lp, rp, w.pos);
        lemma_step_preserves_anchored(mid, post, lp, rp, w.pos);
    } else {
        assert(post == mid);
    }
}

/// Once the wall popped from the worklist has been processed, the edge it
/// straddles is settled: both its cells lie in the same component.
proof fn lemma_popped_resolved(pre: Maze, mid: Maze, post: Maze, w: Cell)
    requires
        pre.wf(),
        wall_snapshot_ok(w, pre.size as int),
        join_cells_steps(pre, mid, post, w),
    ensures
        pair_resolved(post, w.pos.x as int, w.pos.y as int),
{
    let size = pre.size as int;
    let wx = w.pos.x as int;
    let wy = w.pos.y as int;
    lemma_steps_preserve_wf_anchored_weak(pre, mid, post, w);
    if wx % 2 == 1 && wy % 2 == 0 {
        // The horizontal pair consists of two even-even passages; the second
        // axis attempt settles it.
        assert(wx + 1 < size);
        let lp = w.neighbours.left->0;
        let rp = w.neighbours.right->0;
        assert(lp == (Pos { x: (wx - 1) as isize, y: wy as isize }));
        assert(rp == (Pos { x: (wx + 1) as isize, y: wy as isize }));
        assert(mid.cell_at(wx - 1, wy).cell_type == GROUND);
        assert(mid.cell_at(wx + 1, wy).cell_type == GROUND);
        lemma_step_resolves(mid, post, lp, rp, w.pos);
    } else if wx % 2 == 0 && wy % 2 == 1 {
        // The vertical pair is settled by the first axis attempt and the
        // second attempt cannot split it again.
        assert(wy + 1 < size);
        let tp = w.neighbours.top->0;
        let bp = w.neighbours.bot->0;
        assert(tp == (Pos { x: wx as isize, y: (wy - 1) as isize }));
        assert(bp == (Pos { x: wx as isize, y: (wy + 1) as isize }));
        assert(pre.cell_at(wx, wy - 1).cell_type == GROUND);
        assert(pre.cell_at(wx, wy + 1).cell_type == GROUND);
        lemma_step_resolves(pre, mid, tp, bp, w.pos);
        if horiz_pair(w) {
            let lp = w.neighbours.left->0;
            let rp = w.neighbours.right->0;
            lemma_step_preserves_eq(mid, post, lp, rp, w.pos, wx, wy - 1, wx, wy + 1);
        } else {
            assert(post == mid);
        }
    }
}

/// Like `lemma_steps_preserve_wf_anchored`, but without the anchor argument,
/// for callers that only need soundness of the intermediate and final grids.
proof fn lemma_steps_preserve_wf_anchored_weak(pre: Maze, mid: Maze, post: Maze, w: Cell)
    requires
        pre.wf(),
        wall_snapshot_ok(w, pre.size as int),
        join_cells_steps(pre, mid, post, w),
    ensures
        mid.wf(),
        post.wf(),
        post.size == pre.size,
{
    let wx = w.pos.x as int;
    let wy = w.pos.y as int;
    if vert_pair(w) {
        let tp = w.neighbours.top->0;
        let bp = w.neighbours.bot->0;
        assert(tp == (Pos { x: wx as isize, y: (wy - 1) as isize }));
        assert(bp == (Pos { x: wx as isize, y: (wy + 1) as isize }));
        lemma_step_preserves_wf(pre, mid, tp, bp, w.pos);
    } else {
        assert(mid == pre);
    }
    if horiz_pair(w) {
        let lp = w.neighbours.left->0;
        let rp = w.neighbours.right->0;
        assert(lp == (Pos { x: (wx - 1) as isize, y: wy as isize }));
        assert(rp == (Pos { x: (wx + 1) as isize, y: wy as isize }));
        lemma_step_preserves_wf(mid, post, lp, rp, w.pos);
    } else {
        assert(post == mid);
    }
}

/// A settled edge elsewhere on the grid stays settled through one worklist
/// step: its two passage cells sit at even-even slots, never at the centre.
#[verifier::rlimit(100)]
#[verifier::spinoff_prover]
proof fn lemma_steps_preserve_resolved(pre: Maze, mid: Maze, post: Maze, w: Cell, x: int, y: int)
    requires
        pre.wf(),
        wall_snapshot_ok(w, pre.size as int),
        join_cells_steps(pre, mid, post, w),
        pre.in_bounds(x, y),
        pair_resolved(pre, x, y),
    ensures
        pair_resolved(post, x, y),
{
    let size = pre.size as int;
    let wx = w.pos.x as int;
    let wy = w.pos.y as int;
    lemma_steps_preserve_wf_anchored_weak(pre, mid, post, w);
    if x % 2 == 1 && y % 2 == 0 {
        assert(x + 1 < size);
        if vert_pair(w) {
            lemma_step_preserves_eq(
                pre,
                mid,
                w.neighbours.top->0,
                w.neighbours.bot->0,
                w.pos,
                x - 1,
                y,
                x + 1,
                y,
            );
        } else {
            assert(mid == pre);
        }
        if horiz_pair(w) {
            lemma_step_preserves_eq(
                mid,
                post,
                w.neighbours.left->0,
                w.neighbours.right->0,
                w.pos,
                x - 1,
                y,
                x + 1,
                y,
            );
        } else {
            assert(post == mid);
        }
    } else if x % 2 == 0 && y % 2 == 1 {
        assert(y + 1 < size);
        if vert_pair(w) {
            lemma_step_preserves_eq(
                pre,
                mid,
                w.neighbours.top->0,
                w.neighbours.bot->0,
                w.pos,
                x,
                y - 1,
                x,
                y + 1,
            );
        } else {
            assert(mid == pre);
        }
        if horiz_pair(w) {
            lemma_step_preserves_eq(
                mid,
                post,
                w.neighbours.left->0,
                w.neighbours.right->0,
                w.pos,
                x,
                y - 1,
                x,
                y + 1,
            );
        } else {
            assert(post == mid);
        }
    }
}

/// Number of passage cells of a grid of the given side length.
pub open spec fn passage_count(size: int) -> int {
    evens_below(size) * evens_below(size)
}

impl Maze {
    /// The cell stored at column `x`, row `y`.
    pub open spec fn cell_at(self, x: int, y: int) -> Cell {
        self.map@[y]@[x]
    }

    /// Whether `(x, y)` lies on the grid.
    pub open spec fn in_bounds(self, x: int, y: int) -> bool {
        0 <= x < self.size && 0 <= y < self.size
    }

    /// The matrix is square with side `size`.
    pub open spec fn dims_ok(self) -> bool {
        &&& self.map@.len() == self.size
        &&& forall|y: int|
            0 <= y < self.size ==> (#[trigger] self.map@[y])@.len() == self.size
    }

    /// The side length is odd and at least 5, small enough that ids and
    /// coordinates fit the machine, and every cell is structurally sound:
    /// its position and neighbours match its place in the matrix, its kind is
    /// `WALL` or `GROUND`, walls are exactly the cells with id 0, and
    /// even-even cells are passages.
    pub open spec fn wf(self) -> bool {
        &&& 5 <= self.size
        &&& self.size % 2 == 1
        &&& self.size * self.size <= usize::MAX
        &&& self.size <= isize::MAX
        &&& self.dims_ok()
        &&& forall|x: int, y: int|
            self.in_bounds(x, y) ==> (#[trigger] self.cell_at(x, y)).pos == (Pos {
                x: x as isize,
                y: y as isize,
            })
        &&& forall|x: int, y: int|
            self.in_bounds(x, y) ==> (#[trigger] self.cell_at(x, y)).neighbours == nb_of(
                self.size as int,
                x,
                y,
            )
        &&& forall|x: int, y: int|
            self.in_bounds(x, y) ==> ((#[trigger] self.cell_at(x, y)).cell_type == WALL
                || self.cell_at(x, y).cell_type == GROUND)
        &&& forall|x: int, y: int|
            self.in_bounds(x, y) ==> ((#[trigger] self.cell_at(x, y)).cell_type == WALL <==>
                self.cell_at(x, y).id == 0)
        &&& forall|x: int, y: int|
            self.in_bounds(x, y) && x % 2 == 0 && y % 2 == 0 ==> (#[trigger] self.cell_at(
                x,
                y,
            )).cell_type == GROUND
    }

    /// Every cell records the position of its own slot in the matrix.
    pub open spec fn pos_ok(self) -> bool {
        forall|x: int, y: int|
            self.in_bounds(x, y) ==> (#[trigger] self.cell_at(x, y)).pos == (Pos {
                x: x as isize,
                y: y as isize,
            })
    }

    /// Some even-even passage cell carries the same id as the cell at
    /// `(x, y)`. Kept opaque so that the quantifier does not feed itself.
    #[verifier::opaque]
    pub open spec fn has_anchor(self, x: int, y: int) -> bool {
        exists|ex: int, ey: int|
            self.in_bounds(ex, ey) && ex % 2 == 0 && ey % 2 == 0 && (#[trigger] self.cell_at(
                ex,
                ey,
            )).id == self.cell_at(x, y).id
    }

    /// Every passage cell shares its id with some even-even passage cell:
    /// component ids never float free of the original passages.
    pub open spec fn anchored(self) -> bool {
        forall|x: int, y: int|
            self.in_bounds(x, y) && (#[trigger] self.cell_at(x, y)).cell_type != WALL
                ==> self.has_anchor(x, y)
    }

    /// The grid is exactly what the first full scan produces.
    pub open spec fn initial_grid(self) -> bool {
        &&& self.wf()
        &&& forall|x: int, y: int|
            self.in_bounds(x, y) ==> #[trigger] self.cell_at(x, y) == init_cell(
                self.size as int,
                x,
                y,
            )
    }

    /// A fresh `size` by `size` grid of blank ground cells; positions,
    /// neighbours and ids are filled in by `collect_walls`.
    pub fn new(size: usize) -> (m: Maze)
        ensures
            m.size == size,
            m.dims_ok(),
            forall|x: int, y: int|
                m.in_bounds(x, y) ==> #[trigger] m.cell_at(x, y) == (Cell {
                    pos: (Pos { x: 0, y: 0 }),
                    cell_type: GROUND,
                    id: 0,
                    neighbours: (Neighbours { top: None, bot: None, left: None, right: None }),
                }),
    {
        let blank = Cell::new(0, 0, GROUND, 0);
        let mut rows: Vec<Vec<Cell>> = Vec::new();
        let mut y: usize = 0;
        while y < size
            invariant
                y <= size,
                rows@.len() == y,
                forall|r: int| 0 <= r < y ==> (#[trigger] rows@[r])@.len() == size,
                forall|r: int, c: int|
                    0 <= r < y && 0 <= c < size ==> #[trigger] rows@[r]@[c] == blank,
            decreases size - y,
        {
            let mut row: Vec<Cell> = Vec::new();
            let mut x: usize = 0;
            while x < size
                invariant
                    x <= size,
                    row@.len() == x,
                    forall|c: int| 0 <= c < x ==> #[trigger] row@[c] == blank,
                decreases size - x,
            {
                row.push(blank);
                x = x + 1;
            }
            rows.push(row);
            y = y + 1;
        }
        Maze { map: rows, size }
    }

    /// Read the cell at `pos`; `pos` must be on the grid.
    pub fn get_cell(&self, pos: &Pos) -> (c: Cell)
        requires
            self.dims_ok(),
            0 <= pos.x < self.size,
            0 <= pos.y < self.size,
        ensures
            c == self.cell_at(pos.x as int, pos.y as int),
    {
        self.map[pos.y as usize][pos.x as usize]
    }

    /// Overwrite the kind and id of the cell at `pos` with those of `cell`;
    /// the cell's position and neighbours are kept. No other cell changes.
    pub fn set_cell(&mut self, pos: &Pos, cell: &Cell)
        requires
            old(self).dims_ok(),
            0 <= pos.x < old(self).size,
            0 <= pos.y < old(self).size,
        ensures
            final(self).size == old(self).size,
            final(self).dims_ok(),
            final(self).cell_at(pos.x as int, pos.y as int) == (Cell {
                cell_type: cell.cell_type,
                id: cell.id,
                ..old(self).cell_at(pos.x as int, pos.y as int)
            }),
            forall|x: int, y: int|
                old(self).in_bounds(x, y) && !(x == pos.x as int && y == pos.y as int)
                    ==> #[trigger] final(self).cell_at(x, y) == old(self).cell_at(x, y),
    {
        let x = pos.x as usize;
        let y = pos.y as usize;
        let mut c = self.map[y][x];
        c.id = cell.id;
        c.cell_type = cell.cell_type;
        self.map[y][x] = c;
    }

    /// Attempt one merge along one axis. `side` and `opposite` must be fresh
    /// copies of the two cells the wall at `center.pos` separates on that
    /// axis. If they are eligible, the wall and the opposite cell take
    /// `side`'s kind and id and `opposite`'s whole component is relabelled to
    /// `side`'s id; otherwise nothing changes.
    fn join_sides(&mut self, side: &Cell, center: &Cell, opposite: &Cell)
        requires
            old(self).dims_ok(),
            old(self).size <= isize::MAX,
            0 <= side.pos.x < old(self).size,
            0 <= side.pos.y < old(self).size,
            0 <= opposite.pos.x < old(self).size,
            0 <= opposite.pos.y < old(self).size,
            0 <= center.pos.x < old(self).size,
            0 <= center.pos.y < old(self).size,
            *side == old(self).cell_at(side.pos.x as int, side.pos.y as int),
            *opposite == old(self).cell_at(opposite.pos.x as int, opposite.pos.y as int),
        ensures
            join_step(*old(self), *final(self), side.pos, opposite.pos, center.pos),
            !eligible(*side, *opposite) ==> *final(self) == *old(self),
    {
        if opposite.id != side.id && opposite.cell_type != WALL && side.cell_type != WALL {
            self.set_cell(&center.pos, side);
            self.set_cell(&opposite.pos, side);
            let ghost mid = *self;
            let size = self.size;
            let mut y: usize = 0;
            while y < size
                invariant
                    y <= size,
                    size == mid.size,
                    self.size == mid.size,
                    self.dims_ok(),
                    mid.dims_ok(),
                    forall|xx: int, yy: int|
                        mid.in_bounds(xx, yy) && yy < y ==> self.cell_at(xx, yy) == (
                        if (#[trigger] mid.cell_at(xx, yy)).id == opposite.id {
                            Cell { id: side.id, ..mid.cell_at(xx, yy) }
                        } else {
                            mid.cell_at(xx, yy)
                        }),
                    forall|xx: int, yy: int|
                        mid.in_bounds(xx, yy) && yy >= y ==> self.cell_at(xx, yy)
                            == #[trigger] mid.cell_at(xx, yy),
                decreases size - y,
            {
                let mut x: usize = 0;
                while x < size
                    invariant
                        y < size,
                        x <= size,
                        size == mid.size,
                        self.size == mid.size,
                        self.dims_ok(),
                        mid.dims_ok(),
                        forall|xx: int, yy: int|
                            mid.in_bounds(xx, yy) && (yy < y || (yy == y && xx < x))
                                ==> self.cell_at(xx, yy) == (
                            if (#[trigger] mid.cell_at(xx, yy)).id == opposite.id {
                                Cell { id: side.id, ..mid.cell_at(xx, yy) }
                            } else {
                                mid.cell_at(xx, yy)
                            }),
                        forall|xx: int, yy: int|
                            mid.in_bounds(xx, yy) && (yy > y || (yy == y && xx >= x))
                                ==> self.cell_at(xx, yy) == #[trigger] mid.cell_at(xx, yy),
                    decreases size - x,
                {
                    if self.map[y][x].id == opposite.id {
                        let mut c = self.map[y][x];
                        c.id = side.id;
                        self.map[y][x] = c;
                    }
                    x = x + 1;
                }
                y = y + 1;
            }
            proof {
                assert forall|x: int, y: int| old(self).in_bounds(x, y) implies #[trigger] self.cell_at(
                    x,
                    y,
                ) == merged_cell(
                    old(self).cell_at(x, y),
                    *side,
                    *opposite,
                    Pos { x: x as isize, y: y as isize },
                    center.pos,
                    opposite.pos,
                ) by {
                    let here = Pos { x: x as isize, y: y as isize };
                    assert(here == center.pos <==> (x == center.pos.x as int && y
                        == center.pos.y as int));
                    assert(here == opposite.pos <==> (x == opposite.pos.x as int && y
                        == opposite.pos.y as int));
                    assert(self.cell_at(x, y) == (if mid.cell_at(x, y).id == opposite.id {
                        Cell { id: side.id, ..mid.cell_at(x, y) }
                    } else {
                        mid.cell_at(x, y)
                    }));
                }
            }
        }
    }

    /// Process one wall from the worklist: attempt a merge across its
    /// vertical pair of neighbours, then across its horizontal pair. Each
    /// axis merges only if both its cells exist in bounds, are passages, and
    /// lie in different components.
    pub fn join_cells(&mut self, wall: &Cell)
        requires
            old(self).dims_ok(),
            old(self).pos_ok(),
            old(self).size <= isize::MAX,
            0 <= wall.pos.x < old(self).size,
            0 <= wall.pos.y < old(self).size,
            wall.neighbours == nb_of(old(self).size as int, wall.pos.x as int, wall.pos.y as int),
        ensures
            exists|mid: Maze| join_cells_steps(*old(self), mid, *final(self), *wall),
    {
        if wall.is_verticaly_bound() {
            let top = self.get_cell(wall.get_top_pos());
            let bottom = self.get_cell(wall.get_bot_pos());
            self.join_sides(&top, wall, &bottom);
        }
        let ghost mid = *self;
        proof {
            assert(self.dims_ok());
            assert forall|x: int, y: int| self.in_bounds(x, y) implies (#[trigger] self.cell_at(
                x,
                y,
            )).pos == (Pos { x: x as isize, y: y as isize }) by {
                assert(old(self).cell_at(x, y).pos == (Pos { x: x as isize, y: y as isize }));
            }
        }
        if wall.is_horizontaly_bound() {
            let left = self.get_cell(wall.get_left_pos());
            let right = self.get_cell(wall.get_right_pos());
            self.join_sides(&left, wall, &right);
        }
        proof {
            assert(join_cells_steps(*old(self), mid, *self, *wall));
        }
    }

    /// One full scan of the grid (the wall collector): write every cell's
    /// position, kind, id and neighbour positions per the structural
    /// invariant, and return the worklist holding exactly the wall cells, in
    /// row-major order. Passages are the even-even cells, each with the
    /// unique id `y * size + x + 1`; the worklist length is
    /// `size * size - passage_count(size)`.
    pub fn collect_walls(&mut self) -> (walls: Vec<Cell>)
        requires
            5 <= old(self).size,
            old(self).size % 2 == 1,
            old(self).size * old(self).size <= usize::MAX,
            old(self).size <= isize::MAX,
        ensures
            final(self).size == old(self).size,
            final(self).initial_grid(),
            final(self).wf(),
            final(self).anchored(),
            walls_ok(walls@, old(self).size as int),
            walls@.len() == old(self).size * old(self).size - passage_count(
                old(self).size as int,
            ),
            forall|i: int|
                0 <= i < walls@.len() ==> #[trigger] walls@[i] == final(self).cell_at(
                    walls@[i].pos.x as int,
                    walls@[i].pos.y as int,
                ),
            forall|x: int, y: int|
                final(self).in_bounds(x, y) && (x % 2 == 1 || y % 2 == 1) ==> listed(walls@, x, y),
            forall|i: int, j: int|
                0 <= i < j < walls@.len() ==> (#[trigger] walls@[i]).pos != (
                #[trigger] walls@[j]).pos,
            forall|i: int, j: int|
                #![trigger walls@[i], walls@[j]]
                0 <= i < j < walls@.len() ==> rank(walls@[i], old(self).size as int) < rank(
                    walls@[j],
                    old(self).size as int,
                ),
    {
        let size = self.size;
        let ghost sz = size as int;
        let mut rows: Vec<Vec<Cell>> = Vec::new();
        let mut walls: Vec<Cell> = Vec::new();
        let mut y: usize = 0;
        while y < size
            invariant
                size == old(self).size,
                5 <= size,
                size % 2 == 1,
                size * size <= usize::MAX,
                size <= isize::MAX,
                sz == size as int,
                y <= size,
                rows@.len() == y,
                forall|r: int| 0 <= r < y ==> (#[trigger] rows@[r])@.len() == size,
                forall|r: int, c: int|
                    0 <= r < y && 0 <= c < size ==> #[trigger] rows@[r]@[c] == init_cell(sz, c, r),
                walls@.len() == y * size - evens_below(y as int) * evens_below(sz),
                forall|i: int|
                    0 <= i < walls@.len() ==> #[trigger] walls@[i] == init_cell(
                        sz,
                        walls@[i].pos.x as int,
                        walls@[i].pos.y as int,
                    ),
                forall|i: int|
                    0 <= i < walls@.len() ==> wall_snapshot_ok(#[trigger] walls@[i], sz),
                forall|i: int| 0 <= i < walls@.len() ==> rank(#[trigger] walls@[i], sz) < y * size,
                forall|i: int, j: int|
                    #![trigger walls@[i], walls@[j]]
                    0 <= i < j < walls@.len() ==> rank(walls@[i], sz) < rank(walls@[j], sz),
                forall|xx: int, yy: int|
                    0 <= xx < size && 0 <= yy < y && (xx % 2 == 1 || yy % 2 == 1) ==> listed(
                        walls@,
                        xx,
                        yy,
                    ),
            decreases size - y,
        {
            let mut row: Vec<Cell> = Vec::new();
            let mut x: usize = 0;
            while x < size
                invariant
                    size == old(self).size,
                    5 <= size,
                    size % 2 == 1,
                    size * size <= usize::MAX,
                    size <= isize::MAX,
                    sz == size as int,
                    y < size,
                    x <= size,
                    rows@.len() == y,
                    forall|r: int| 0 <= r < y ==> (#[trigger] rows@[r])@.len() == size,
                    forall|r: int, c: int|
                        0 <= r < y && 0 <= c < size ==> #[trigger] rows@[r]@[c] == init_cell(
                            sz,
                            c,
                            r,
                        ),
                    row@.len() == x,
                    forall|c: int| 0 <= c < x ==> #[trigger] row@[c] == init_cell(sz, c, y as int),
                    walls@.len() == y * size + x - (evens_below(y as int) * evens_below(sz) + (
                    if y % 2 == 0 {
                        evens_below(x as int)
                    } else {
                        0int
                    })),
                    forall|i: int|
                        0 <= i < walls@.len() ==> #[trigger] walls@[i] == init_cell(
                            sz,
                            walls@[i].pos.x as int,
                            walls@[i].pos.y as int,
                        ),
                    forall|i: int|
                        0 <= i < walls@.len() ==> wall_snapshot_ok(#[trigger] walls@[i], sz),
                    forall|i: int|
                        0 <= i < walls@.len() ==> rank(#[trigger] walls@[i], sz) < y * size + x,
                    forall|i: int, j: int|
                        #![trigger walls@[i], walls@[j]]
                        0 <= i < j < walls@.len() ==> rank(walls@[i], sz) < rank(walls@[j], sz),
                    forall|xx: int, yy: int|
                        0 <= xx < size && 0 <= yy < y && (xx % 2 == 1 || yy % 2 == 1) ==> listed(
                            walls@,
                            xx,
                            yy,
                        ),
                    forall|xx: int|
                        0 <= xx < x && (xx % 2 == 1 || y as int % 2 == 1) ==> listed(
                            walls@,
                            xx,
                            y as int,
                        ),
                decreases size - x,
            {
                let xi = x as isize;
                let yi = y as isize;
                let top = if y > 0 {
                    Some(Pos { x: xi, y: (y - 1) as isize })
                } else {
                    None
                };
                let bot = if y + 1 < size {
                    Some(Pos { x: xi, y: (y + 1) as isize })
                } else {
                    None
                };
                let left = if x > 0 {
                    Some(Pos { x: (x - 1) as isize, y: yi })
                } else {
                    None
                };
                let right = if x + 1 < size {
                    Some(Pos { x: (x + 1) as isize, y: yi })
                } else {
                    None
                };
                let nbs = Neighbours { top, bot, left, right };
                proof {
                    assert(nbs == nb_of(sz, x as int, y as int));
                }
                let ghost prev_walls = walls@;
                let c: Cell;
                if x % 2 == 0 && y % 2 == 0 {
                    proof {
                        assert((y as int) * sz + (x as int) + 1 <= sz * sz) by (nonlinear_arith)
                            requires
                                0 <= (y as int) < sz,
                                0 <= (x as int) < sz,
                        ;
                    }
                    let id = y * size + x + 1;
                    c = Cell { pos: Pos { x: xi, y: yi }, cell_type: GROUND, id, neighbours: nbs };
                } else {
                    c = Cell { pos: Pos { x: xi, y: yi }, cell_type: WALL, id: 0, neighbours: nbs };
                    walls.push(c);
                }
                row.push(c);
                proof {
                    assert(c == init_cell(sz, x as int, y as int));
                    lemma_evens_step(x as int);
                    assert forall|xx: int, yy: int|
                        0 <= xx < size && 0 <= yy < y && (xx % 2 == 1 || yy % 2 == 1) implies listed(
                        walls@,
                        xx,
                        yy,
                    ) by {
                        assert(listed(prev_walls, xx, yy));
                        let i = choose|i: int|
                            0 <= i < prev_walls.len() && (#[trigger] prev_walls[i]).pos == (Pos {
                                x: xx as isize,
                                y: yy as isize,
                            });
                        assert(walls@[i] == prev_walls[i]);
                        assert(walls@[i].pos == (Pos { x: xx as isize, y: yy as isize }));
                    }
                    assert forall|xx: int|
                        0 <= xx < x + 1 && (xx % 2 == 1 || y as int % 2 == 1) implies listed(
                        walls@,
                        xx,
                        y as int,
                    ) by {
                        if xx < x {
                            assert(listed(prev_walls, xx, y as int));
                            let i = choose|i: int|
                                0 <= i < prev_walls.len() && (#[trigger] prev_walls[i]).pos == (Pos {
                                    x: xx as isize,
                                    y: y as isize,
                                });
                            assert(walls@[i] == prev_walls[i]);
                            assert(walls@[i].pos == (Pos { x: xx as isize, y: y as isize }));
                        } else {
                            assert(walls@[walls@.len() - 1].pos == (Pos {
                                x: xx as isize,
                                y: y as isize,
                            }));
                        }
                    }
                }
                x = x + 1;
            }
            rows.push(row);
            proof {
                assert((y as int + 1) * sz == (y as int) * sz + sz) by (nonlinear_arith);
                lemma_evens_step(y as int);
                assert(evens_below(y as int + 1) * evens_below(sz) == evens_below(y as int)
                    * evens_below(sz) + (if y as int % 2 == 0 {
                    evens_below(sz)
                } else {
                    0int
                })) by (nonlinear_arith)
                    requires
                        evens_below(y as int + 1) == evens_below(y as int) + (
                        if y as int % 2 == 0 {
                            1int
                        } else {
                            0int
                        }),
                ;
                if y % 2 == 0 {
                    assert(evens_below(sz) == evens_below(size as int));
                }
            }
            y = y + 1;
        }
        self.map = rows;
        proof {
            assert(self.dims_ok());
            assert forall|x: int, y: int| self.in_bounds(x, y) implies #[trigger] self.cell_at(
                x,
                y,
            ) == init_cell(sz, x, y) by {}
            assert forall|x: int, y: int| self.in_bounds(x, y) implies {
                let c = #[trigger] self.cell_at(x, y);
                &&& (c.cell_type == WALL || c.cell_type == GROUND)
                &&& (c.cell_type == WALL <==> c.id == 0)
                &&& (x % 2 == 0 && y % 2 == 0 ==> c.cell_type == GROUND)
            } by {
                if x % 2 == 0 && y % 2 == 0 {
                    assert(1 <= y * sz + x + 1 <= sz * sz) by (nonlinear_arith)
                        requires
                            0 <= y < sz,
                            0 <= x < sz,
                    ;
                }
            }
            assert forall|x: int, y: int|
                self.in_bounds(x, y) && (#[trigger] self.cell_at(x, y)).cell_type != WALL
                implies self.has_anchor(x, y) by {
                reveal(Maze::has_anchor);
                assert(self.in_bounds(x, y) && x % 2 == 0 && y % 2 == 0 && self.cell_at(x, y).id
                    == self.cell_at(x, y).id);
            }
            assert forall|i: int| 0 <= i < walls@.len() implies #[trigger] walls@[i]
                == self.cell_at(walls@[i].pos.x as int, walls@[i].pos.y as int) by {
                assert(wall_snapshot_ok(walls@[i], sz));
            }
        }
        walls
    }

    /// One iteration of the merge engine: reshuffle the whole remaining
    /// worklist uniformly at random, pop one wall, and attempt to merge
    /// across it. The edge of the popped wall is settled afterwards, every
    /// already settled edge stays settled, and the grid stays sound.
    pub fn merge_step(&mut self, walls: &mut Vec<Cell>)
        requires
            old(self).wf(),
            old(self).anchored(),
            walls_ok(old(walls)@, old(self).size as int),
            old(walls)@.len() > 0,
        ensures
            final(self).wf(),
            final(self).anchored(),
            final(self).size == old(self).size,
            walls_ok(final(walls)@, old(self).size as int),
            final(walls)@.len() == old(walls)@.len() - 1,
            ids_joined(*old(self)) ==> ids_joined(*final(self)),
            adjacent_share_id(*old(self)) && pillars_bridged(*old(self)) && no_open_block(
                *old(self),
            ) && no_open_cycle(*old(self)) ==> adjacent_share_id(*final(self))
                && pillars_bridged(*final(self)) && no_open_block(*final(self)) && no_open_cycle(
                *final(self),
            ),
            forall|x: int, y: int|
                #![trigger listed(old(walls)@, x, y)]
                #![trigger pair_resolved(*old(self), x, y)]
                old(self).in_bounds(x, y) && (listed(old(walls)@, x, y) || pair_resolved(
                    *old(self),
                    x,
                    y,
                )) ==> listed(final(walls)@, x, y) || pair_resolved(*final(self), x, y),
    {
        let ghost walls0 = walls@;
        let ghost size = old(self).size as int;
        shuffle_walls(walls);
        let ghost walls1 = walls@;
        proof {
            assert forall|i: int| 0 <= i < walls1.len() implies wall_snapshot_ok(
                #[trigger] walls1[i],
                size,
            ) by {
                assert(walls1.contains(walls1[i]));
                assert(walls0.contains(walls1[i]));
                let j = choose|j: int| 0 <= j < walls0.len() && walls0[j] == walls1[i];
                assert(wall_snapshot_ok(walls0[j], size));
            }
        }
        let w = walls.pop().unwrap();
        let ghost pre = *self;
        self.join_cells(&w);
        proof {
            let mid = choose|mid: Maze| join_cells_steps(pre, mid, *self, w);
            assert(w == walls1[walls1.len() - 1]);
            assert(wall_snapshot_ok(w, size));
            lemma_steps_preserve_wf_anchored(pre, mid, *self, w);
            if ids_joined(pre) {
                lemma_steps_preserve_ids_joined(pre, mid, *self, w);
            }
            if adjacent_share_id(pre) && pillars_bridged(pre) && no_open_block(pre)
                && no_open_cycle(pre) {
                lemma_steps_preserve_geometry(pre, mid, *self, w);
            }
            let wx = w.pos.x as int;
            let wy = w.pos.y as int;
            assert forall|x: int, y: int|
                #![trigger listed(walls0, x, y)]
                #![trigger pair_resolved(pre, x, y)]
                pre.in_bounds(x, y) && (listed(walls0, x, y) || pair_resolved(pre, x, y))
                implies listed(walls@, x, y) || pair_resolved(*self, x, y) by {
                let here = Pos { x: x as isize, y: y as isize };
                if listed(walls0, x, y) {
                    let i = choose|i: int| 0 <= i < walls0.len() && (#[trigger] walls0[i]).pos
                        == here;
                    assert(walls0.contains(walls0[i]));
                    assert(walls1.contains(walls0[i]));
                    let j = choose|j: int| 0 <= j < walls1.len() && walls1[j] == walls0[i];
                    if j < walls1.len() - 1 {
                        assert(walls@[j] == walls1[j]);
                        assert(listed(walls@, x, y));
                    } else {
                        assert(w.pos == here);
                        assert(wx == x && wy == y);
                        lemma_popped_resolved(pre, mid, *self, w);
                    }
                } else {
                    lemma_steps_preserve_resolved(pre, mid, *self, w, x, y);
                }
            }
        }
    }

    /// Run the merge engine to exhaustion: shuffle, pop and process walls
    /// until the worklist is empty. Afterwards every edge whose wall was in
    /// the worklist (and every edge already settled before) is settled.
    pub fn merge_walls(&mut self, walls: &mut Vec<Cell>)
        requires
            old(self).wf(),
            old(self).anchored(),
            walls_ok(old(walls)@, old(self).size as int),
        ensures
            final(self).wf(),
            final(self).anchored(),
            final(self).size == old(self).size,
            final(walls)@.len() == 0,
            ids_joined(*old(self)) ==> ids_joined(*final(self)),
            adjacent_share_id(*old(self)) && pillars_bridged(*old(self)) && no_open_block(
                *old(self),
            ) && no_open_cycle(*old(self)) ==> adjacent_share_id(*final(self))
                && pillars_bridged(*final(self)) && no_open_block(*final(self)) && no_open_cycle(
                *final(self),
            ),
            forall|x: int, y: int|
                #![trigger listed(old(walls)@, x, y)]
                #![trigger pair_resolved(*old(self), x, y)]
                old(self).in_bounds(x, y) && (listed(old(walls)@, x, y) || pair_resolved(
                    *old(self),
                    x,
                    y,
                )) ==> pair_resolved(*final(self), x, y),
    {
        while walls.len() != 0
            invariant
                self.wf(),
                self.anchored(),
                self.size == old(self).size,
                walls_ok(walls@, old(self).size as int),
                ids_joined(*old(self)) ==> ids_joined(*self),
                adjacent_share_id(*old(self)) && pillars_bridged(*old(self)) && no_open_block(
                    *old(self),
                ) && no_open_cycle(*old(self)) ==> adjacent_share_id(*self) && pillars_bridged(
                    *self,
                ) && no_open_block(*self) && no_open_cycle(*self),
                forall|x: int, y: int|
                    #![trigger listed(old(walls)@, x, y)]
                    #![trigger pair_resolved(*old(self), x, y)]
                    old(self).in_bounds(x, y) && (listed(old(walls)@, x, y) || pair_resolved(
                        *old(self),
                        x,
                        y,
                    )) ==> listed(walls@, x, y) || pair_resolved(*self, x, y),
            decreases walls@.len(),
        {
            let ghost prev_self = *self;
            let ghost prev_walls = walls@;
            self.merge_step(walls);
            proof {
                assert forall|x: int, y: int|
                    #![trigger listed(old(walls)@, x, y)]
                    #![trigger pair_resolved(*old(self), x, y)]
                    old(self).in_bounds(x, y) && (listed(old(walls)@, x, y) || pair_resolved(
                        *old(self),
                        x,
                        y,
                    )) implies listed(walls@, x, y) || pair_resolved(*self, x, y) by {
                    assert(prev_self.in_bounds(x, y));
                    if listed(prev_walls, x, y) || pair_resolved(prev_self, x, y) {
                        assert(listed(walls@, x, y) || pair_resolved(*self, x, y));
                    }
                }
            }
        }
    }
}

/// The character a cell renders as: its structural kind marker.
pub open spec fn char_of(c: Cell) -> char {
    if c.cell_type == WALL {
        '1'
    } else {
        '0'
    }
}

/// Row `y` of the grid rendered left to right.
pub open spec fn row_chars(m: Maze, y: int) -> Seq<char> {
    Seq::new(m.size as nat, |x: int| char_of(m.cell_at(x, y)))
}

/// The first `n` rows rendered in row-major order with no separators.
pub open spec fn rows_concat(m: Maze, n: int) -> Seq<char>
    decreases n,
{
    if n <= 0 {
        Seq::empty()
    } else {
        rows_concat(m, n - 1) + row_chars(m, n - 1)
    }
}

/// The first `n` rows rendered with a newline closing each row.
pub open spec fn rows_lines(m: Maze, n: int) -> Seq<char>
    decreases n,
{
    if n <= 0 {
        Seq::empty()
    } else {
        rows_lines(m, n - 1) + row_chars(m, n - 1) + seq!['\n']
    }
}

/// Compact form: the whole grid on one line, closed by one newline.
pub open spec fn render_compact_spec(m: Maze) -> Seq<char> {
    rows_concat(m, m.size as int) + seq!['\n']
}

/// Verbose form: one line per grid row.
pub open spec fn render_verbose_spec(m: Maze) -> Seq<char> {
    rows_lines(m, m.size as int)
}

impl Maze {
    /// Append row `y`'s kind markers to `s`.
    fn append_row(&self, s: &mut String, y: usize)
        requires
            self.dims_ok(),
            y < self.size,
        ensures
            final(s)@ == old(s)@ + row_chars(*self, y as int),
    {
        proof {
            reveal_strlit("0");
            reveal_strlit("1");
        }
        let size = self.size;
        let mut x: usize = 0;
        while x < size
            invariant
                self.dims_ok(),
                size == self.size,
                y < size,
                x <= size,
                s@ == old(s)@ + row_chars(*self, y as int).subrange(0, x as int),
            decreases size - x,
        {
            proof {
                reveal_strlit("0");
                reveal_strlit("1");
            }
            let ghost prev = s@;
            if self.map[y][x].cell_type == WALL {
                s.append("1");
                proof {
                    assert(s@ =~= prev + seq![char_of(self.cell_at(x as int, y as int))]);
                }
            } else {
                s.append("0");
                proof {
                    assert(s@ =~= prev + seq![char_of(self.cell_at(x as int, y as int))]);
                }
            }
            x = x + 1;
            proof {
                assert(row_chars(*self, y as int).subrange(0, x as int) =~= row_chars(
                    *self,
                    y as int,
                ).subrange(0, x as int - 1) + seq![char_of(self.cell_at(x as int - 1, y as int))]);
                assert(s@ =~= old(s)@ + row_chars(*self, y as int).subrange(0, x as int));
            }
        }
        proof {
            assert(row_chars(*self, y as int).subrange(0, size as int) =~= row_chars(
                *self,
                y as int,
            ));
        }
    }

    /// Serialize the grid in compact form: `size * size` kind characters in
    /// row-major order, closed by one newline. A pure function of the grid:
    /// rendering the same grid twice gives byte-identical output.
    pub fn render_compact(&self) -> (s: String)
        requires
            self.dims_ok(),
        ensures
            s@ == render_compact_spec(*self),
    {
        proof {
            reveal_strlit("\n");
        }
        let mut s = String::new();
        let size = self.size;
        let mut y: usize = 0;
        while y < size
            invariant
                self.dims_ok(),
                size == self.size,
                y <= size,
                s@ == rows_concat(*self, y as int),
            decreases size - y,
        {
            self.append_row(&mut s, y);
            y = y + 1;
        }
        let ghost prev = s@;
        s.append("\n");
        proof {
            assert(s@ =~= prev + seq!['\n']);
        }
        s
    }

    /// Serialize the grid in verbose form: one line per grid row, each row's
    /// kind characters closed by a newline. A pure function of the grid.
    pub fn render_verbose(&self) -> (s: String)
        requires
            self.dims_ok(),
        ensures
            s@ == render_verbose_spec(*self),
    {
        proof {
            reveal_strlit("\n");
        }
        let mut s = String::new();
        let size = self.size;
        let mut y: usize = 0;
        while y < size
            invariant
                self.dims_ok(),
                size == self.size,
                y <= size,
                s@ == rows_lines(*self, y as int),
            decreases size - y,
        {
            self.append_row(&mut s, y);
            let ghost prev = s@;
            s.append("\n");
            proof {
                reveal_strlit("\n");
                assert(s@ =~= prev + seq!['\n']);
            }
            y = y + 1;
        }
        s
    }
}

/// Build one finished maze: a fresh grid, one wall-collecting scan, and the
/// merge engine run to exhaustion. The result is a perfect maze over the
/// open cells: every open cell is joined to the origin by an open path, the
/// open region has no cycle (in particular no 2 by 2 open block), adjacent
/// open cells share their component id, and exactly one id survives.
pub fn generate_maze(size: usize) -> (m: Maze)
    requires
        5 <= size,
        size % 2 == 1,
        size * size <= usize::MAX,
        size <= isize::MAX,
    ensures
        m.wf(),
        m.size == size,
        forall|x: int, y: int| m.in_bounds(x, y) ==> #[trigger] pair_resolved(m, x, y),
        forall|x: int, y: int|
            m.in_bounds(x, y) && (#[trigger] m.cell_at(x, y)).cell_type != WALL ==> m.cell_at(
                x,
                y,
            ).id == m.cell_at(0, 0).id,
        m.cell_at(0, 0).cell_type == GROUND,
        m.cell_at(0, 0).id != 0,
        crate::laws::surviving_ids(m) =~= set![m.cell_at(0, 0).id],
        crate::laws::surviving_ids(m).len() == 1,
        ids_joined(m),
        forall|x: int, y: int| is_open(m, x, y) ==> #[trigger] joined(m, (0int, 0int), (x, y)),
        adjacent_share_id(m),
        no_open_block(m),
        no_open_cycle(m),
{
    let mut m = Maze::new(size);
    let mut walls = m.collect_walls();
    let ghost g0 = m;
    let ghost w0 = walls@;
    m.merge_walls(&mut walls);
    proof {
        assert forall|x: int, y: int| m.in_bounds(x, y) implies #[trigger] pair_resolved(
            m,
            x,
            y,
        ) by {
            assert(g0.in_bounds(x, y));
            if x % 2 == 1 || y % 2 == 1 {
                assert(listed(w0, x, y));
            } else {
                assert(pair_resolved(g0, x, y));
            }
        }
        crate::laws::lemma_connectivity(m);
        crate::laws::lemma_one_surviving_id(m);
        lemma_initial_ids_joined(g0);
        assert(ids_joined(m));
        lemma_initial_geometry(g0);
        assert(no_open_block(m) && no_open_cycle(m));
        assert forall|x: int, y: int| is_open(m, x, y) implies #[trigger] joined(
            m,
            (0int, 0int),
            (x, y),
        ) by {
            assert(m.cell_at(x, y).id == m.cell_at(0, 0).id);
            assert(is_open(m, 0, 0));
        }
    }
    m
}

/// Relies on rand's `SliceRandom::shuffle`: a Fisher-Yates shuffle that
/// permutes the slice in place by swapping elements, so afterwards the
/// worklist holds exactly the walls it held before, in some order.
#[verifier::external_body]
fn shuffle_walls(walls: &mut Vec<Cell>)
    ensures
        final(walls)@.len() == old(walls)@.len(),
        final(walls)@.to_multiset() == old(walls)@.to_multiset(),
        forall|c: Cell| final(walls)@.contains(c) <==> old(walls)@.contains(c),
{
    walls.as_mut_slice().shuffle(&mut rand::thread_rng());
}

} // verus!
