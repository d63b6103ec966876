//! The guarantees of the generator, stated and proved once: merges never fuse
//! a component with itself, the initial ids are pairwise distinct, and a grid
//! whose straddled edges are all settled carries one single component.

use vstd::prelude::*;

use crate::maze::eligible;
use crate::maze::init_cell;
use crate::maze::join_step;
use crate::maze::pair_resolved;
use crate::maze::render_compact_spec;
use crate::maze::render_verbose_spec;
use crate::maze::row_chars;
use crate::maze::rows_concat;
use crate::maze::Maze;
use crate::maze_cell::Pos;
use crate::GROUND;
use crate::WALL;

verus! {

/// Cycle-freedom: a merge attempt changes the grid only when the two cells
/// it would join lie in different components. If they already share an id,
/// or either of them is still a wall, every cell is left unchanged.
pub proof fn lemma_merge_needs_distinct_sets(pre: Maze, post: Maze, sp: Pos, op: Pos, cp: Pos)
    requires
        join_step(pre, post, sp, op, cp),
        !eligible(
            pre.cell_at(sp.x as int, sp.y as int),
            pre.cell_at(op.x as int, op.y as int),
        ),
    ensures
        forall|x: int, y: int|
            pre.in_bounds(x, y) ==> #[trigger] post.cell_at(x, y) == pre.cell_at(x, y),
{
}

/// In the freshly collected grid the passage ids are pairwise distinct: two
/// different even-even cells never start in the same component.
pub proof fn lemma_initial_ids_distinct(m: Maze, x1: int, y1: int, x2: int, y2: int)
    requires
        m.initial_grid(),
        m.in_bounds(x1, y1),
        m.in_bounds(x2, y2),
        x1 % 2 == 0 && y1 % 2 == 0,
        x2 % 2 == 0 && y2 % 2 == 0,
        !(x1 == x2 && y1 == y2),
    ensures
        m.cell_at(x1, y1).id != m.cell_at(x2, y2).id,
{
    let sz = m.size as int;
    assert(m.cell_at(x1, y1) == init_cell(sz, x1, y1));
    assert(m.cell_at(x2, y2) == init_cell(sz, x2, y2));
    assert(0 <= y1 * sz + x1 + 1 <= sz * sz && 0 <= y2 * sz + x2 + 1 <= sz * sz
        && y1 * sz + x1 + 1 != y2 * sz + x2 + 1) by (nonlinear_arith)
        requires
            0 <= x1 < sz,
            0 <= x2 < sz,
            0 <= y1 < sz,
            0 <= y2 < sz,
            !(x1 == x2 && y1 == y2),
    ;
}

/// Walking the even-even sub-grid two steps at a time: once every straddled
/// edge is settled, every even-even cell shares the origin's id.
pub proof fn lemma_component_spans(m: Maze, x: int, y: int)
    requires
        m.wf(),
        forall|a: int, b: int| m.in_bounds(a, b) ==> #[trigger] pair_resolved(m, a, b),
        m.in_bounds(x, y),
        x % 2 == 0,
        y % 2 == 0,
    ensures
        m.cell_at(x, y).id == m.cell_at(0, 0).id,
    decreases x + y,
{
    if x >= 2 {
        assert(pair_resolved(m, x - 1, y));
        lemma_component_spans(m, x - 2, y);
    } else if y >= 2 {
        assert(pair_resolved(m, x, y - 1));
        lemma_component_spans(m, x, y - 2);
    }
}

/// A cell with an anchor shares the origin's id once every straddled edge is
/// settled: its anchor is an even-even cell, which the sub-grid walk reaches.
proof fn lemma_anchor_to_origin(m: Maze, x: int, y: int)
    requires
        m.wf(),
        forall|a: int, b: int| m.in_bounds(a, b) ==> #[trigger] pair_resolved(m, a, b),
        m.in_bounds(x, y),
        m.has_anchor(x, y),
    ensures
        m.cell_at(x, y).id == m.cell_at(0, 0).id,
{
    reveal(Maze::has_anchor);
    let (ex, ey): (int, int) = choose|ex: int, ey: int|
        m.in_bounds(ex, ey) && ex % 2 == 0 && ey % 2 == 0 && (#[trigger] m.cell_at(ex, ey)).id
            == m.cell_at(x, y).id;
    lemma_component_spans(m, ex, ey);
}

/// Connectivity: in a sound, anchored grid whose straddled edges are all
/// settled, every passage cell carries the origin's id, so exactly one
/// component id survives among the passage cells, and it is not 0.
pub proof fn lemma_connectivity(m: Maze)
    requires
        m.wf(),
        m.anchored(),
        forall|a: int, b: int| m.in_bounds(a, b) ==> #[trigger] pair_resolved(m, a, b),
    ensures
        forall|x: int, y: int|
            m.in_bounds(x, y) && (#[trigger] m.cell_at(x, y)).cell_type != WALL ==> m.cell_at(
                x,
                y,
            ).id == m.cell_at(0, 0).id,
        m.cell_at(0, 0).cell_type == GROUND,
        m.cell_at(0, 0).id != 0,
{
    assert(m.in_bounds(0, 0));
    assert forall|x: int, y: int|
        m.in_bounds(x, y) && (#[trigger] m.cell_at(x, y)).cell_type != WALL implies m.cell_at(
        x,
        y,
    ).id == m.cell_at(0, 0).id by {
        lemma_anchor_to_origin(m, x, y);
    }
}

/// The set of component ids surviving among the passage cells of a grid.
pub open spec fn surviving_ids(m: Maze) -> Set<usize> {
    Set::new(
        |id: usize|
            exists|x: int, y: int|
                m.in_bounds(x, y) && (#[trigger] m.cell_at(x, y)).cell_type != WALL && m.cell_at(
                    x,
                    y,
                ).id == id,
    )
}

/// Connectivity, counted: once every straddled edge of a sound, anchored
/// grid is settled, exactly one component id survives among its passage
/// cells.
pub proof fn lemma_one_surviving_id(m: Maze)
    requires
        m.wf(),
        m.anchored(),
        forall|a: int, b: int| m.in_bounds(a, b) ==> #[trigger] pair_resolved(m, a, b),
    ensures
        surviving_ids(m) =~= set![m.cell_at(0, 0).id],
        surviving_ids(m).len() == 1,
{
    lemma_connectivity(m);
    let origin = m.cell_at(0, 0).id;
    assert forall|id: usize| surviving_ids(m).contains(id) implies set![origin].contains(id) by {
        let (x, y): (int, int) = choose|x: int, y: int|
            m.in_bounds(x, y) && (#[trigger] m.cell_at(x, y)).cell_type != WALL && m.cell_at(
                x,
                y,
            ).id == id;
        assert(m.cell_at(x, y).id == origin);
    }
    assert(m.in_bounds(0, 0) && m.cell_at(0, 0).cell_type != WALL && m.cell_at(0, 0).id == origin);
    assert(surviving_ids(m).contains(origin));
    assert(surviving_ids(m) =~= set![origin]);
}

/// Number of passage cells among the first `n` cells of row `y`.
pub open spec fn passages_in_row(m: Maze, y: int, n: int) -> int
    decreases n,
{
    if n <= 0 {
        0
    } else {
        passages_in_row(m, y, n - 1) + if m.cell_at(n - 1, y).cell_type != WALL {
            1int
        } else {
            0int
        }
    }
}

/// Number of passage cells in the first `n` rows of the grid.
pub open spec fn passages_in_grid(m: Maze, n: int) -> int
    decreases n,
{
    if n <= 0 {
        0
    } else {
        passages_in_grid(m, n - 1) + passages_in_row(m, n - 1, m.size as int)
    }
}

/// In the initial grid an even row holds one passage per even column and an
/// odd row holds none.
proof fn lemma_initial_row_count(m: Maze, y: int, n: int)
    requires
        m.initial_grid(),
        0 <= y < m.size,
        0 <= n <= m.size,
    ensures
        passages_in_row(m, y, n) == if y % 2 == 0 {
            crate::maze::evens_below(n)
        } else {
            0int
        },
    decreases n,
{
    if n > 0 {
        lemma_initial_row_count(m, y, n - 1);
        assert(m.cell_at(n - 1, y) == init_cell(m.size as int, n - 1, y));
    }
}

/// The first `n` rows of the initial grid hold `evens_below(n)` passage rows
/// of `evens_below(size)` passages each.
proof fn lemma_initial_grid_count(m: Maze, n: int)
    requires
        m.initial_grid(),
        0 <= n <= m.size,
    ensures
        passages_in_grid(m, n) == crate::maze::evens_below(n) * crate::maze::evens_below(
            m.size as int,
        ),
    decreases n,
{
    let e = crate::maze::evens_below(m.size as int);
    if n == 0 {
        assert(0int * e == 0) by (nonlinear_arith);
    } else {
        lemma_initial_grid_count(m, n - 1);
        lemma_initial_row_count(m, n - 1, m.size as int);
        let a = crate::maze::evens_below(n - 1);
        assert(crate::maze::evens_below(n) == a + if (n - 1) % 2 == 0 {
            1int
        } else {
            0int
        });
        if (n - 1) % 2 == 0 {
            assert((a + 1) * e == a * e + e) by (nonlinear_arith);
        }
    }
}

/// The initial grid holds exactly `((size + 1) / 2)^2` passage cells; all
/// other cells are walls with id 0.
pub proof fn lemma_initial_passage_count(m: Maze)
    requires
        m.initial_grid(),
    ensures
        passages_in_grid(m, m.size as int) == crate::maze::passage_count(m.size as int),
{
    lemma_initial_grid_count(m, m.size as int);
}

/// Idempotence of rendering: the rendered form is a pure function of the
/// grid, so rendering the same finished grid twice in the same mode yields
/// byte-identical output.
pub proof fn lemma_render_deterministic(m: Maze, a: Seq<char>, b: Seq<char>, compact: bool)
    requires
        a == if compact {
            render_compact_spec(m)
        } else {
            render_verbose_spec(m)
        },
        b == if compact {
            render_compact_spec(m)
        } else {
            render_verbose_spec(m)
        },
    ensures
        a == b,
{
}

/// The first `n` rendered rows hold `n * size` characters.
proof fn lemma_rows_concat_len(m: Maze, n: int)
    requires
        0 <= n,
    ensures
        rows_concat(m, n).len() == n * (m.size as int),
    decreases n,
{
    if n > 0 {
        lemma_rows_concat_len(m, n - 1);
        assert(rows_concat(m, n) == rows_concat(m, n - 1) + row_chars(m, n - 1));
        assert(row_chars(m, n - 1).len() == m.size as int);
        assert((n - 1) * (m.size as int) + (m.size as int) == n * (m.size as int))
            by (nonlinear_arith);
    } else {
        assert(rows_concat(m, n).len() == 0);
        assert(0int * (m.size as int) == 0) by (nonlinear_arith);
    }
}

/// The compact form holds exactly `size * size` kind characters and the
/// closing newline.
pub proof fn lemma_render_compact_len(m: Maze)
    ensures
        render_compact_spec(m).len() == m.size * m.size + 1,
{
    lemma_rows_concat_len(m, m.size as int);
}

} // verus!
