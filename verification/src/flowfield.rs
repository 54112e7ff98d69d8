use vstd::prelude::*;

use std::collections::VecDeque;

use crate::cell::{Cell, GridIdx, WorldPos};
use crate::grid::{cell_placed, in_obj_rect, with_cost, Grid, ObjSize, MAX_OBJ_EXTENT};
use crate::grid_direction::{all_dirs, all_directions, GridDirection};
use crate::utils::{
    dims_ok, flat_index, flat_index_exec, get_cell_from_world_position_helper,
    lemma_flat_index_bounds, lemma_flat_index_injective, locate_x, locate_y, MAX_GRID_DIM,
};

verus! {

/// A destination-scoped snapshot of the grid: a full value copy of its
/// cells taken at construction, an integration field propagated outward
/// from the destination by wavefront relaxation, and a direction per cell
/// derived from it. A flow field never aliases the grid; once built it is
/// immutable, and it goes stale if the grid's costs change afterwards — the
/// caller must discard and rebuild it then.
#[derive(Clone, PartialEq, Debug)]
pub struct FlowField {
    pub cell_radius: i64,
    pub cell_diameter: i64,
    pub destination_cell: Cell,
    pub cells: Vec<Cell>,
    pub size: GridIdx,
    pub units: Vec<u64>,
}

/// The cell of a row-major array at `(column, row)`.
pub open spec fn cell_at(cells: Seq<Cell>, sx: int, x: int, y: int) -> Cell {
    cells[flat_index(sx, x, y)]
}

/// Both cells agree on everything but the integration distance.
pub open spec fn cell_static_eq(a: Cell, b: Cell) -> bool {
    &&& a.world_position == b.world_position
    &&& a.grid_idx == b.grid_idx
    &&& a.cost == b.cost
    &&& a.best_direction == b.best_direction
}

/// One of the four cardinal directions the wavefront propagates along.
pub open spec fn is_cardinal(dir: GridDirection) -> bool {
    ||| dir == GridDirection::North
    ||| dir == GridDirection::East
    ||| dir == GridDirection::South
    ||| dir == GridDirection::West
}

/// Column of the neighbour of `cur` in direction `dir`.
pub open spec fn nb_x(cur: GridIdx, dir: GridDirection) -> int {
    cur.x + dir.dx()
}

/// Row of the neighbour of `cur` in direction `dir`.
pub open spec fn nb_y(cur: GridIdx, dir: GridDirection) -> int {
    cur.y + dir.dy()
}

/// The neighbour `(vx, vy)` cannot improve by stepping through `(ux, uy)`:
/// it is a wall, or its distance already undercuts its cost plus the
/// distance of `(ux, uy)`.
pub open spec fn relax_ok(cells: Seq<Cell>, sx: int, ux: int, uy: int, vx: int, vy: int) -> bool {
    ||| cell_at(cells, sx, vx, vy).cost == 255
    ||| cell_at(cells, sx, vx, vy).best_cost as int <= cell_at(cells, sx, vx, vy).cost + cell_at(
        cells,
        sx,
        ux,
        uy,
    ).best_cost
}

/// No in-bounds cardinal neighbour of `(x, y)` can still improve through
/// `(x, y)`. When this holds of every cell, the integration field has
/// converged: no relaxation step is applicable anywhere.
pub open spec fn relaxed_from(cells: Seq<Cell>, sx: int, sy: int, x: int, y: int) -> bool {
    &&& (x > 0 ==> relax_ok(cells, sx, x, y, x - 1, y))
    &&& (x < sx - 1 ==> relax_ok(cells, sx, x, y, x + 1, y))
    &&& (y > 0 ==> relax_ok(cells, sx, x, y, x, y - 1))
    &&& (y < sy - 1 ==> relax_ok(cells, sx, x, y, x, y + 1))
}

/// Some in-bounds cardinal neighbour accounts for the distance of
/// `(x, y)`: the cell's distance is at least its own cost plus that
/// neighbour's distance. Chains of such witnesses lead back to the
/// destination, and each witness is itself finite — so a wall (whose
/// distance keeps the sentinel) never sits inside such a chain.
pub open spec fn supported(cells: Seq<Cell>, sx: int, sy: int, x: int, y: int) -> bool {
    ||| (x > 0 && cell_at(cells, sx, x, y).best_cost as int >= cell_at(cells, sx, x, y).cost
        + cell_at(cells, sx, x - 1, y).best_cost)
    ||| (x < sx - 1 && cell_at(cells, sx, x, y).best_cost as int >= cell_at(cells, sx, x, y).cost
        + cell_at(cells, sx, x + 1, y).best_cost)
    ||| (y > 0 && cell_at(cells, sx, x, y).best_cost as int >= cell_at(cells, sx, x, y).cost
        + cell_at(cells, sx, x, y - 1).best_cost)
    ||| (y < sy - 1 && cell_at(cells, sx, x, y).best_cost as int >= cell_at(cells, sx, x, y).cost
        + cell_at(cells, sx, x, y + 1).best_cost)
}

/// Cell `(x, y)` is on the work queue.
pub open spec fn in_queue(q: Seq<GridIdx>, x: int, y: int) -> bool {
    exists|k: int| 0 <= k < q.len() && (#[trigger] q[k]).x == x && q[k].y == y
}

/// The soundness half of the integration-field contract: the destination
/// sits at distance 0; an impassable cell other than the destination keeps
/// the unreached sentinel (walls are never relaxed, so no distance is ever
/// propagated through them); and every other finite cell has a cardinal
/// neighbour accounting for its distance.
pub open spec fn distances_sound(cells: Seq<Cell>, sx: int, sy: int, dx: int, dy: int) -> bool {
    &&& cell_at(cells, sx, dx, dy).best_cost == 0
    &&& forall|x: int, y: int|
        0 <= x < sx && 0 <= y < sy && !(x == dx && y == dy) && (#[trigger] cell_at(
            cells,
            sx,
            x,
            y,
        )).cost == 255 ==> cell_at(cells, sx, x, y).best_cost == 65535
    &&& forall|x: int, y: int|
        0 <= x < sx && 0 <= y < sy && !(x == dx && y == dy) && cell_at(cells, sx, x, y).best_cost
            < 65535 ==> #[trigger] supported(cells, sx, sy, x, y)
}

/// The full integration-field contract: soundness plus convergence — no
/// relaxation step is applicable anywhere, so every distance is as small
/// as the cost field allows.
pub open spec fn integration_distances_ok(cells: Seq<Cell>, sx: int, sy: int, dx: int, dy: int) -> bool {
    &&& distances_sound(cells, sx, sy, dx, dy)
    &&& forall|x: int, y: int|
        0 <= x < sx && 0 <= y < sy ==> #[trigger] relaxed_from(cells, sx, sy, x, y)
}

/// The field's cells carry the grid's geometry and costs unchanged,
/// except that the destination cell's cost is forced to 0. (Directions are
/// the direction pass's own output and are not constrained here.)
pub open spec fn integration_static_ok(
    cells: Seq<Cell>,
    base: Seq<Cell>,
    sx: int,
    dx: int,
    dy: int,
) -> bool {
    &&& cells.len() == base.len()
    &&& forall|i: int|
        0 <= i < cells.len() ==> (#[trigger] cells[i]).world_position == base[i].world_position
            && cells[i].grid_idx == base[i].grid_idx && cells[i].cost == (if i == flat_index(
            sx,
            dx,
            dy,
        ) {
            0u8
        } else {
            base[i].cost
        })
}

/// Total of all integration distances; the wavefront's termination measure
/// shrinks with every improvement.
pub open spec fn sum_best(cells: Seq<Cell>) -> int
    decreases cells.len(),
{
    if cells.len() == 0 {
        0
    } else {
        cells[0].best_cost + sum_best(cells.drop_first())
    }
}

/// Integration distances are nonnegative, so their total is too.
proof fn lemma_sum_best_nonneg(s: Seq<Cell>)
    ensures
        0 <= sum_best(s),
    decreases s.len(),
{
    if s.len() > 0 {
        lemma_sum_best_nonneg(s.drop_first());
    }
}

/// Replacing one cell changes the total by exactly the difference of the
/// distances.
proof fn lemma_sum_best_update(s: Seq<Cell>, i: int, c: Cell)
    requires
        0 <= i < s.len(),
    ensures
        sum_best(s.update(i, c)) == sum_best(s) - s[i].best_cost + c.best_cost,
    decreases s.len(),
{
    let t = s.update(i, c);
    if i == 0 {
        assert(t.drop_first() =~= s.drop_first());
    } else {
        assert(t.drop_first() =~= s.drop_first().update(i - 1, c));
        lemma_sum_best_update(s.drop_first(), i - 1, c);
    }
}

/// The running best of the direction scan after considering the first `k`
/// directions of the fixed tie-break order: the direction picked so far
/// (initially `Stationary`) and the smallest integration distance seen so
/// far (initially the cell's own). A neighbour wins only by being
/// *strictly* smaller, so the first direction reaching the minimum is the
/// one that stays — the deterministic tie-break.
pub open spec fn scan_dir(
    cells: Seq<Cell>,
    sx: int,
    sy: int,
    x: int,
    y: int,
    k: int,
) -> (GridDirection, int)
    decreases k,
{
    if k <= 0 {
        (GridDirection::Stationary, cell_at(cells, sx, x, y).best_cost as int)
    } else {
        let prev = scan_dir(cells, sx, sy, x, y, k - 1);
        let dir = all_dirs()[k - 1];
        if 0 <= x + dir.dx() < sx && 0 <= y + dir.dy() < sy && cell_at(
            cells,
            sx,
            x + dir.dx(),
            y + dir.dy(),
        ).best_cost < prev.1 {
            (dir, cell_at(cells, sx, x + dir.dx(), y + dir.dy()).best_cost as int)
        } else {
            prev
        }
    }
}

/// The direction the flow field assigns to cell `(x, y)`: the first
/// direction, in tie-break order, whose neighbour has the strictly
/// smallest integration distance — or `Stationary` when no neighbour
/// improves on the cell's own distance (a local minimum, an unreached
/// cell, or the destination itself).
pub open spec fn flow_dir(cells: Seq<Cell>, sx: int, sy: int, x: int, y: int) -> GridDirection {
    scan_dir(cells, sx, sy, x, y, 8).0
}

/// The direction scan reads only integration distances, so two cell
/// arrays that agree on every distance scan identically.
proof fn lemma_scan_dir_congruent(
    a: Seq<Cell>,
    b: Seq<Cell>,
    sx: int,
    sy: int,
    x: int,
    y: int,
    k: int,
)
    requires
        a.len() == b.len(),
        forall|i: int| 0 <= i < a.len() ==> (#[trigger] a[i]).best_cost == b[i].best_cost,
        a.len() == sx * sy,
        1 <= sx,
        1 <= sy,
        0 <= x < sx,
        0 <= y < sy,
        0 <= k <= 8,
    ensures
        scan_dir(a, sx, sy, x, y, k) == scan_dir(b, sx, sy, x, y, k),
    decreases k,
{
    lemma_flat_index_bounds(sx, sy, x, y);
    if k > 0 {
        lemma_scan_dir_congruent(a, b, sx, sy, x, y, k - 1);
        let dir = all_dirs()[k - 1];
        if 0 <= x + dir.dx() < sx && 0 <= y + dir.dy() < sy {
            lemma_flat_index_bounds(sx, sy, x + dir.dx(), y + dir.dy());
        }
    }
}

/// A cell whose own distance is 0 is never beaten by a neighbour —
/// distances are nonnegative — so the scan keeps `Stationary` throughout.
proof fn lemma_scan_dir_zero(cells: Seq<Cell>, sx: int, sy: int, x: int, y: int, k: int)
    requires
        cells.len() == sx * sy,
        1 <= sx,
        1 <= sy,
        0 <= x < sx,
        0 <= y < sy,
        0 <= k <= 8,
        cell_at(cells, sx, x, y).best_cost == 0,
    ensures
        scan_dir(cells, sx, sy, x, y, k) == (GridDirection::Stationary, 0int),
    decreases k,
{
    if k > 0 {
        lemma_scan_dir_zero(cells, sx, sy, x, y, k - 1);
    }
}

/// The destination cell always ends with integration distance 0 and no
/// direction: it is the one cell the wavefront starts from, and the
/// direction pass finds no neighbour strictly below 0.
pub proof fn lemma_destination_settled(cells: Seq<Cell>, sx: int, sy: int, dx: int, dy: int)
    requires
        cells.len() == sx * sy,
        1 <= sx,
        1 <= sy,
        0 <= dx < sx,
        0 <= dy < sy,
        distances_sound(cells, sx, sy, dx, dy),
        forall|x: int, y: int|
            0 <= x < sx && 0 <= y < sy ==> (#[trigger] cell_at(cells, sx, x, y)).best_direction
                == flow_dir(cells, sx, sy, x, y),
    ensures
        cell_at(cells, sx, dx, dy).best_cost == 0,
        cell_at(cells, sx, dx, dy).best_direction == GridDirection::Stationary,
{
    lemma_scan_dir_zero(cells, sx, sy, dx, dy, 8);
    assert(cell_at(cells, sx, dx, dy).best_direction == flow_dir(cells, sx, sy, dx, dy));
}

/// Step of the uniqueness argument: if `b` satisfies the integration
/// contract and reads a finite distance of at most `n` at `(x, y)`, then
/// `a` — over the same cost field — reads no more there. The supporting
/// neighbour of `(x, y)` in `b` sits strictly closer (costs off the
/// destination are at least 1), so induction over the distance reaches the
/// destination, and `a`'s own convergence bounds it along the same chain.
proof fn lemma_distances_le_upto(
    a: Seq<Cell>,
    b: Seq<Cell>,
    sx: int,
    sy: int,
    dx: int,
    dy: int,
    x: int,
    y: int,
    n: int,
)
    requires
        a.len() == b.len(),
        a.len() == sx * sy,
        1 <= sx,
        1 <= sy,
        0 <= dx < sx,
        0 <= dy < sy,
        forall|i: int| 0 <= i < a.len() ==> (#[trigger] a[i]).cost == b[i].cost,
        forall|x2: int, y2: int|
            0 <= x2 < sx && 0 <= y2 < sy && !(x2 == dx && y2 == dy) ==> (#[trigger] cell_at(
                a,
                sx,
                x2,
                y2,
            )).cost >= 1,
        integration_distances_ok(a, sx, sy, dx, dy),
        integration_distances_ok(b, sx, sy, dx, dy),
        0 <= x < sx,
        0 <= y < sy,
        cell_at(b, sx, x, y).best_cost <= n,
        cell_at(b, sx, x, y).best_cost < 65535,
    ensures
        cell_at(a, sx, x, y).best_cost <= cell_at(b, sx, x, y).best_cost,
    decreases n,
{
    lemma_flat_index_bounds(sx, sy, x, y);
    if x == dx && y == dy {
        return ;
    }
    assert(supported(b, sx, sy, x, y));
    let bc = cell_at(b, sx, x, y).best_cost as int;
    let cost = cell_at(b, sx, x, y).cost as int;
    assert(cell_at(a, sx, x, y).cost as int == cost);
    assert(cost >= 1);
    if cost == 255 {
        // a wall other than the destination reads the sentinel in `b`
        assert(cell_at(b, sx, x, y).best_cost == 65535);
    }
    // pick the cardinal neighbour accounting for `b`'s distance
    let (mx, my): (int, int) = if x > 0 && bc >= cost + cell_at(b, sx, x - 1, y).best_cost {
        (x - 1, y)
    } else if x < sx - 1 && bc >= cost + cell_at(b, sx, x + 1, y).best_cost {
        (x + 1, y)
    } else if y > 0 && bc >= cost + cell_at(b, sx, x, y - 1).best_cost {
        (x, y - 1)
    } else {
        (x, y + 1)
    };
    lemma_flat_index_bounds(sx, sy, mx, my);
    assert(bc >= cost + cell_at(b, sx, mx, my).best_cost);
    // the witness is strictly closer, so the induction is well founded
    assert(cell_at(b, sx, mx, my).best_cost < bc);
    lemma_distances_le_upto(a, b, sx, sy, dx, dy, mx, my, n - 1);
    // `a` has converged, so stepping from the witness bounds `a` here
    assert(relaxed_from(a, sx, sy, mx, my));
    assert(cell_at(a, sx, x, y).best_cost as int <= cost + cell_at(a, sx, mx, my).best_cost);
}

/// The integration-field contract pins the distances: any two cell arrays
/// over the same cost field that both satisfy it — destination at 0,
/// walls at the sentinel, every finite distance accounted for by a
/// neighbour, and no relaxation step applicable anywhere — agree on every
/// cell's integration distance.
pub proof fn lemma_integration_distances_unique(
    a: Seq<Cell>,
    b: Seq<Cell>,
    sx: int,
    sy: int,
    dx: int,
    dy: int,
)
    requires
        a.len() == b.len(),
        a.len() == sx * sy,
        1 <= sx,
        1 <= sy,
        0 <= dx < sx,
        0 <= dy < sy,
        forall|i: int| 0 <= i < a.len() ==> (#[trigger] a[i]).cost == b[i].cost,
        forall|x2: int, y2: int|
            0 <= x2 < sx && 0 <= y2 < sy && !(x2 == dx && y2 == dy) ==> (#[trigger] cell_at(
                a,
                sx,
                x2,
                y2,
            )).cost >= 1,
        integration_distances_ok(a, sx, sy, dx, dy),
        integration_distances_ok(b, sx, sy, dx, dy),
    ensures
        forall|x: int, y: int|
            0 <= x < sx && 0 <= y < sy ==> (#[trigger] cell_at(a, sx, x, y)).best_cost == cell_at(
                b,
                sx,
                x,
                y,
            ).best_cost,
{
    assert forall|i: int| 0 <= i < b.len() implies (#[trigger] b[i]).cost == a[i].cost by {}
    assert forall|x2: int, y2: int|
        0 <= x2 < sx && 0 <= y2 < sy && !(x2 == dx && y2 == dy) implies (#[trigger] cell_at(
        b,
        sx,
        x2,
        y2,
    )).cost >= 1 by {
        lemma_flat_index_bounds(sx, sy, x2, y2);
        assert(cell_at(a, sx, x2, y2).cost >= 1);
    }
    assert forall|x: int, y: int|
        0 <= x < sx && 0 <= y < sy implies (#[trigger] cell_at(a, sx, x, y)).best_cost == cell_at(
        b,
        sx,
        x,
        y,
    ).best_cost by {
        lemma_flat_index_bounds(sx, sy, x, y);
        if cell_at(b, sx, x, y).best_cost < 65535 {
            lemma_distances_le_upto(
                a,
                b,
                sx,
                sy,
                dx,
                dy,
                x,
                y,
                cell_at(b, sx, x, y).best_cost as int,
            );
        }
        if cell_at(a, sx, x, y).best_cost < 65535 {
            lemma_distances_le_upto(
                b,
                a,
                sx,
                sy,
                dx,
                dy,
                x,
                y,
                cell_at(a, sx, x, y).best_cost as int,
            );
        }
    }
}

/// The distance contract reads only costs and distances, so it carries
/// over to any cell array agreeing on both — in particular across the
/// direction pass, which writes directions only.
proof fn lemma_distances_ok_congruent(
    a: Seq<Cell>,
    b: Seq<Cell>,
    sx: int,
    sy: int,
    dx: int,
    dy: int,
)
    requires
        a.len() == b.len(),
        a.len() == sx * sy,
        1 <= sx,
        1 <= sy,
        0 <= dx < sx,
        0 <= dy < sy,
        forall|i: int|
            0 <= i < a.len() ==> (#[trigger] a[i]).best_cost == b[i].best_cost && a[i].cost
                == b[i].cost,
        integration_distances_ok(b, sx, sy, dx, dy),
    ensures
        integration_distances_ok(a, sx, sy, dx, dy),
{
    lemma_flat_index_bounds(sx, sy, dx, dy);
    assert forall|x: int, y: int|
        0 <= x < sx && 0 <= y < sy implies {
        &&& ((#[trigger] cell_at(a, sx, x, y)).cost == 255 && !(x == dx && y == dy) ==> cell_at(
            a,
            sx,
            x,
            y,
        ).best_cost == 65535)
        &&& (cell_at(a, sx, x, y).best_cost < 65535 && !(x == dx && y == dy) ==> supported(
            a,
            sx,
            sy,
            x,
            y,
        ))
        &&& relaxed_from(a, sx, sy, x, y)
    } by {
        lemma_flat_index_bounds(sx, sy, x, y);
        assert(cell_at(b, sx, x, y).best_cost == cell_at(a, sx, x, y).best_cost);
        if x > 0 {
            lemma_flat_index_bounds(sx, sy, x - 1, y);
            assert(a[flat_index(sx, x - 1, y)].best_cost == b[flat_index(sx, x - 1, y)].best_cost);
        }
        if x < sx - 1 {
            lemma_flat_index_bounds(sx, sy, x + 1, y);
            assert(a[flat_index(sx, x + 1, y)].best_cost == b[flat_index(sx, x + 1, y)].best_cost);
        }
        if y > 0 {
            lemma_flat_index_bounds(sx, sy, x, y - 1);
            assert(a[flat_index(sx, x, y - 1)].best_cost == b[flat_index(sx, x, y - 1)].best_cost);
        }
        if y < sy - 1 {
            lemma_flat_index_bounds(sx, sy, x, y + 1);
            assert(a[flat_index(sx, x, y + 1)].best_cost == b[flat_index(sx, x, y + 1)].best_cost);
        }
        assert(relaxed_from(b, sx, sy, x, y));
        if cell_at(a, sx, x, y).best_cost < 65535 && !(x == dx && y == dy) {
            assert(supported(b, sx, sy, x, y));
        }
    }
}

/// When distances only shrink and `(x, y)` itself is untouched, a cell
/// through which no neighbour could improve stays that way: the improvable
/// side only got cheaper.
proof fn lemma_relaxed_persists(pre: Seq<Cell>, post: Seq<Cell>, sx: int, sy: int, x: int, y: int)
    requires
        pre.len() == post.len(),
        pre.len() == sx * sy,
        1 <= sx,
        1 <= sy,
        0 <= x < sx,
        0 <= y < sy,
        forall|i: int|
            0 <= i < post.len() ==> cell_static_eq(#[trigger] post[i], pre[i])
                && post[i].best_cost <= pre[i].best_cost,
        post[flat_index(sx, x, y)] == pre[flat_index(sx, x, y)],
        relaxed_from(pre, sx, sy, x, y),
    ensures
        relaxed_from(post, sx, sy, x, y),
{
    lemma_flat_index_bounds(sx, sy, x, y);
    if x > 0 {
        lemma_flat_index_bounds(sx, sy, x - 1, y);
        assert(cell_static_eq(post[flat_index(sx, x - 1, y)], pre[flat_index(sx, x - 1, y)]));
    }
    if x < sx - 1 {
        lemma_flat_index_bounds(sx, sy, x + 1, y);
        assert(cell_static_eq(post[flat_index(sx, x + 1, y)], pre[flat_index(sx, x + 1, y)]));
    }
    if y > 0 {
        lemma_flat_index_bounds(sx, sy, x, y - 1);
        assert(cell_static_eq(post[flat_index(sx, x, y - 1)], pre[flat_index(sx, x, y - 1)]));
    }
    if y < sy - 1 {
        lemma_flat_index_bounds(sx, sy, x, y + 1);
        assert(cell_static_eq(post[flat_index(sx, x, y + 1)], pre[flat_index(sx, x, y + 1)]));
    }
}

/// When distances only shrink and `(x, y)` itself is untouched, its
/// supporting witness survives: the witness's distance only got cheaper.
proof fn lemma_supported_persists(pre: Seq<Cell>, post: Seq<Cell>, sx: int, sy: int, x: int, y: int)
    requires
        pre.len() == post.len(),
        pre.len() == sx * sy,
        1 <= sx,
        1 <= sy,
        0 <= x < sx,
        0 <= y < sy,
        forall|i: int|
            0 <= i < post.len() ==> cell_static_eq(#[trigger] post[i], pre[i])
                && post[i].best_cost <= pre[i].best_cost,
        post[flat_index(sx, x, y)] == pre[flat_index(sx, x, y)],
        supported(pre, sx, sy, x, y),
    ensures
        supported(post, sx, sy, x, y),
{
    lemma_flat_index_bounds(sx, sy, x, y);
    if x > 0 {
        lemma_flat_index_bounds(sx, sy, x - 1, y);
        assert(cell_static_eq(post[flat_index(sx, x - 1, y)], pre[flat_index(sx, x - 1, y)]));
    }
    if x < sx - 1 {
        lemma_flat_index_bounds(sx, sy, x + 1, y);
        assert(cell_static_eq(post[flat_index(sx, x + 1, y)], pre[flat_index(sx, x + 1, y)]));
    }
    if y > 0 {
        lemma_flat_index_bounds(sx, sy, x, y - 1);
        assert(cell_static_eq(post[flat_index(sx, x, y - 1)], pre[flat_index(sx, x, y - 1)]));
    }
    if y < sy - 1 {
        lemma_flat_index_bounds(sx, sy, x, y + 1);
        assert(cell_static_eq(post[flat_index(sx, x, y + 1)], pre[flat_index(sx, x, y + 1)]));
    }
}

impl FlowField {
    /// Valid dimensions and a full row-major cell array: what every
    /// computed flow field satisfies, and what the per-agent lookup needs.
    pub open spec fn wf(self) -> bool {
        &&& dims_ok(self.size, self.cell_diameter)
        &&& self.cell_radius as int == self.cell_diameter as int / 2
        &&& self.cells@.len() == self.size.x * self.size.y
    }

    /// An empty field for the given grid geometry and unit group; the cells
    /// are filled in by the integration pass.
    pub fn new(cell_diameter: i64, grid_size: GridIdx, selected_units: Vec<u64>) -> (ff: FlowField)
        requires
            1 <= cell_diameter,
        ensures
            ff.cell_diameter == cell_diameter,
            ff.cell_radius as int == cell_diameter as int / 2,
            ff.size == grid_size,
            ff.units == selected_units,
            ff.cells@.len() == 0,
    {
        FlowField {
            cell_radius: ((cell_diameter as u64) / 2) as i64,
            cell_diameter,
            destination_cell: Cell::default(),
            cells: Vec::new(),
            size: grid_size,
            units: selected_units,
        }
    }

    /// The per-agent steering read: locate the cell an agent stands in
    /// (clamping out-of-extent positions to the nearest edge cell) and
    /// return it; its `best_direction` is all an agent needs at runtime.
    pub fn get_cell_from_world_position(&self, world_pos: WorldPos) -> (c: Cell)
        requires
            self.wf(),
        ensures
            0 <= locate_x(world_pos, self.size, self.cell_diameter) < self.size.x,
            0 <= locate_y(world_pos, self.size, self.cell_diameter) < self.size.y,
            c == cell_at(
                self.cells@,
                self.size.x as int,
                locate_x(world_pos, self.size, self.cell_diameter),
                locate_y(world_pos, self.size, self.cell_diameter),
            ),
    {
        get_cell_from_world_position_helper(world_pos, self.size, self.cell_diameter, &self.cells)
    }

    /// Build the integration field for one destination: copy the grid's
    /// cells verbatim, force the destination cell to cost 0 and distance 0,
    /// then propagate distances outward with a FIFO wavefront. A cell is
    /// re-visited whenever a cheaper path to it is found — label-correcting
    /// relaxation, not a priority-queue search — which is correct for the
    /// positive integer costs used here. Termination is guaranteed because
    /// distances are nonnegative and strictly decrease on every re-queue.
    ///
    /// On return the distances are converged: the destination reads 0;
    /// walls (cost 255) other than the destination keep the unreached
    /// sentinel, so nothing ever propagates through them; every other
    /// finite distance is accounted for by a cardinal neighbour; and no
    /// relaxation step applies anywhere. Unreached cells keep the
    /// sentinel. No distance ever exceeds its starting value.
    pub fn create_integration_field(&mut self, grid: &Grid, destination_cell: Cell)
        requires
            grid.wf(),
            old(self).size == grid.size,
            old(self).cell_diameter == grid.cell_diameter,
            old(self).cell_radius == grid.cell_radius,
            destination_cell.grid_idx.x < grid.size.x,
            destination_cell.grid_idx.y < grid.size.y,
        ensures
            final(self).wf(),
            final(self).size == old(self).size,
            final(self).cell_diameter == old(self).cell_diameter,
            final(self).cell_radius == old(self).cell_radius,
            final(self).units == old(self).units,
            integration_static_ok(
                final(self).cells@,
                grid.cells@,
                grid.size.x as int,
                destination_cell.grid_idx.x as int,
                destination_cell.grid_idx.y as int,
            ),
            integration_distances_ok(
                final(self).cells@,
                grid.size.x as int,
                grid.size.y as int,
                destination_cell.grid_idx.x as int,
                destination_cell.grid_idx.y as int,
            ),
            forall|i: int|
                0 <= i < final(self).cells@.len() ==> (#[trigger] final(self).cells@[i]).best_cost
                    <= grid.cells@[i].best_cost,
            forall|i: int|
                0 <= i < final(self).cells@.len()
                    ==> (#[trigger] final(self).cells@[i]).best_direction
                    == grid.cells@[i].best_direction,
            final(self).destination_cell == cell_at(
                final(self).cells@,
                grid.size.x as int,
                destination_cell.grid_idx.x as int,
                destination_cell.grid_idx.y as int,
            ),
    {
        let ghost sx = grid.size.x as int;
        let ghost sy = grid.size.y as int;
        let dest_idx = destination_cell.grid_idx;
        let ghost dxi = dest_idx.x as int;
        let ghost dyi = dest_idx.y as int;

        // value snapshot of the shared cost field — a flow field owns its
        // cells outright and never aliases the grid
        let mut cells: Vec<Cell> = Vec::new();
        let mut i: usize = 0;
        while i < grid.cells.len()
            invariant
                i <= grid.cells@.len(),
                cells@.len() == i,
                forall|j: int| 0 <= j < i ==> #[trigger] cells@[j] == grid.cells@[j],
            decreases grid.cells@.len() - i,
        {
            let c = grid.cells[i];
            cells.push(c);
            i = i + 1;
        }
        self.cells = cells;

        proof {
            lemma_flat_index_bounds(sx, sy, dxi, dyi);
        }
        let di = flat_index_exec(grid.size.x, dest_idx.x, dest_idx.y);
        let mut dc = self.cells[di];
        dc.cost = 0;
        dc.best_cost = 0;
        self.cells.set(di, dc);
        self.destination_cell = dc;

        let ghost start = self.cells@;
        let mut q: VecDeque<GridIdx> = VecDeque::new();
        q.push_back(GridIdx::new(dest_idx.x, dest_idx.y));

        proof {
            lemma_sum_best_nonneg(start);
            assert forall|x: int, y: int|
                0 <= x < sx && 0 <= y < sy && !(x == dxi && y == dyi) implies cell_at(
                start,
                sx,
                x,
                y,
            ) == cell_at(grid.cells@, sx, x, y) && cell_at(start, sx, x, y).best_cost == 65535 by {
                lemma_flat_index_bounds(sx, sy, x, y);
                if flat_index(sx, x, y) == di as int {
                    lemma_flat_index_injective(sx, x, y, dxi, dyi);
                }
                assert(cell_placed(grid.cells@, grid.size, grid.cell_diameter, x, y));
            }
            assert forall|x: int, y: int|
                0 <= x < sx && 0 <= y < sy implies in_queue(q@, x, y) || relaxed_from(
                start,
                sx,
                sy,
                x,
                y,
            ) by {
                if x == dxi && y == dyi {
                    assert(q@[0] == (GridIdx { x: dest_idx.x, y: dest_idx.y }));
                    assert(in_queue(q@, x, y));
                } else {
                    lemma_flat_index_bounds(sx, sy, x, y);
                    assert(cell_at(start, sx, x, y).best_cost == 65535);
                    if x > 0 {
                        lemma_flat_index_bounds(sx, sy, x - 1, y);
                    }
                    if x < sx - 1 {
                        lemma_flat_index_bounds(sx, sy, x + 1, y);
                    }
                    if y > 0 {
                        lemma_flat_index_bounds(sx, sy, x, y - 1);
                    }
                    if y < sy - 1 {
                        lemma_flat_index_bounds(sx, sy, x, y + 1);
                    }
                    assert(relaxed_from(start, sx, sy, x, y));
                }
            }
        }

        while q.len() != 0
            invariant
                grid.wf(),
                self.size == grid.size,
                self.cell_diameter == grid.cell_diameter,
                self.cell_radius == grid.cell_radius,
                self.units == old(self).units,
                sx == grid.size.x as int,
                sy == grid.size.y as int,
                dxi == destination_cell.grid_idx.x as int,
                dyi == destination_cell.grid_idx.y as int,
                dest_idx == destination_cell.grid_idx,
                0 <= dxi < sx,
                0 <= dyi < sy,
                start.len() == sx * sy,
                self.cells@.len() == sx * sy,
                integration_static_ok(start, grid.cells@, sx, dxi, dyi),
                self.destination_cell == start[flat_index(sx, dxi, dyi)],
                forall|i: int|
                    0 <= i < self.cells@.len() ==> cell_static_eq(
                        #[trigger] self.cells@[i],
                        start[i],
                    ) && self.cells@[i].best_cost <= start[i].best_cost,
                distances_sound(self.cells@, sx, sy, dxi, dyi),
                forall|k: int|
                    0 <= k < q@.len() ==> (#[trigger] q@[k]).x < grid.size.x && q@[k].y
                        < grid.size.y,
                forall|x: int, y: int|
                    0 <= x < sx && 0 <= y < sy ==> in_queue(q@, x, y) || #[trigger] relaxed_from(
                        self.cells@,
                        sx,
                        sy,
                        x,
                        y,
                    ),
                0 <= sum_best(self.cells@),
            decreases sum_best(self.cells@) + q@.len(),
        {
            let ghost s0 = self.cells@;
            let ghost qe = q@;
            let cur = q.pop_front().unwrap();
            let ghost q0 = q@;
            proof {
                lemma_flat_index_bounds(sx, sy, cur.x as int, cur.y as int);
            }
            let ci = flat_index_exec(self.size.x, cur.x, cur.y);
            let ghost fc = ci as int;
            let cur_best = self.cells[ci].best_cost;

            self.relax_neighbor(&mut q, cur, GridDirection::North, cur_best, Ghost(dest_idx));
            let ghost s1 = self.cells@;
            let ghost q1 = q@;
            self.relax_neighbor(&mut q, cur, GridDirection::East, cur_best, Ghost(dest_idx));
            let ghost s2 = self.cells@;
            let ghost q2 = q@;
            self.relax_neighbor(&mut q, cur, GridDirection::South, cur_best, Ghost(dest_idx));
            let ghost s3 = self.cells@;
            let ghost q3 = q@;
            self.relax_neighbor(&mut q, cur, GridDirection::West, cur_best, Ghost(dest_idx));
            let ghost s4 = self.cells@;
            let ghost q4 = q@;

            proof {
                lemma_sum_best_nonneg(s4);
                // distances only ever shrink, and nothing else changes
                assert forall|ii: int|
                    0 <= ii < s4.len() implies cell_static_eq(#[trigger] s4[ii], start[ii])
                    && s4[ii].best_cost <= start[ii].best_cost by {
                    assert(cell_static_eq(s1[ii], s0[ii]) && s1[ii].best_cost <= s0[ii].best_cost);
                    assert(cell_static_eq(s2[ii], s1[ii]) && s2[ii].best_cost <= s1[ii].best_cost);
                    assert(cell_static_eq(s3[ii], s2[ii]) && s3[ii].best_cost <= s2[ii].best_cost);
                    assert(cell_static_eq(s4[ii], s3[ii]) && s4[ii].best_cost <= s3[ii].best_cost);
                }
                // the popped cell itself was never touched
                assert(s4[fc] == s0[fc]);
                // every queue entry is an in-bounds index
                assert forall|k: int|
                    0 <= k < q4.len() implies (#[trigger] q4[k]).x < grid.size.x && q4[k].y
                    < grid.size.y by {
                    if k < q0.len() {
                        assert(q1[k] == q0[k]);
                        assert(q2[k] == q1[k]);
                        assert(q3[k] == q2[k]);
                        assert(q4[k] == q3[k]);
                        assert(q0[k] == qe[k + 1]);
                    } else if k < q1.len() {
                        assert(q2[k] == q1[k]);
                        assert(q3[k] == q2[k]);
                        assert(q4[k] == q3[k]);
                    } else if k < q2.len() {
                        assert(q3[k] == q2[k]);
                        assert(q4[k] == q3[k]);
                    } else if k < q3.len() {
                        assert(q4[k] == q3[k]);
                    }
                }
                // coverage: every cell is either still queued or fully relaxed
                assert forall|x: int, y: int|
                    0 <= x < sx && 0 <= y < sy implies in_queue(q4, x, y) || relaxed_from(
                    s4,
                    sx,
                    sy,
                    x,
                    y,
                ) by {
                    if x == cur.x as int && y == cur.y as int {
                        // the four guarantees of this visit, carried to the
                        // final state of the iteration
                        lemma_flat_index_bounds(sx, sy, x, y);
                        if y > 0 {
                            let nf = flat_index(sx, x, y - 1);
                            lemma_flat_index_bounds(sx, sy, x, y - 1);
                            assert(cell_static_eq(s2[nf], s1[nf]) && s2[nf].best_cost
                                <= s1[nf].best_cost);
                            assert(cell_static_eq(s3[nf], s2[nf]) && s3[nf].best_cost
                                <= s2[nf].best_cost);
                            assert(cell_static_eq(s4[nf], s3[nf]) && s4[nf].best_cost
                                <= s3[nf].best_cost);
                            assert(relax_ok(s4, sx, x, y, x, y - 1));
                        }
                        if x < sx - 1 {
                            let nf = flat_index(sx, x + 1, y);
                            lemma_flat_index_bounds(sx, sy, x + 1, y);
                            assert(cell_static_eq(s3[nf], s2[nf]) && s3[nf].best_cost
                                <= s2[nf].best_cost);
                            assert(cell_static_eq(s4[nf], s3[nf]) && s4[nf].best_cost
                                <= s3[nf].best_cost);
                            assert(relax_ok(s4, sx, x, y, x + 1, y));
                        }
                        if y < sy - 1 {
                            let nf = flat_index(sx, x, y + 1);
                            lemma_flat_index_bounds(sx, sy, x, y + 1);
                            assert(cell_static_eq(s4[nf], s3[nf]) && s4[nf].best_cost
                                <= s3[nf].best_cost);
                            assert(relax_ok(s4, sx, x, y, x, y + 1));
                        }
                        if x > 0 {
                            let nf = flat_index(sx, x - 1, y);
                            lemma_flat_index_bounds(sx, sy, x - 1, y);
                            assert(relax_ok(s4, sx, x, y, x - 1, y));
                        }
                        assert(relaxed_from(s4, sx, sy, x, y));
                    } else {
                        if in_queue(qe, x, y) {
                            let k = choose|k: int|
                                0 <= k < qe.len() && (#[trigger] qe[k]).x == x && qe[k].y == y;
                            assert(qe[0] == cur);
                            assert(k >= 1);
                            assert(q0[k - 1] == qe[k]);
                            assert(q1[k - 1] == q0[k - 1]);
                            assert(q2[k - 1] == q1[k - 1]);
                            assert(q3[k - 1] == q2[k - 1]);
                            assert(q4[k - 1] == q3[k - 1]);
                            assert(in_queue(q4, x, y));
                        } else {
                            assert(in_queue(q0, x, y) || relaxed_from(s0, sx, sy, x, y));
                            assert(in_queue(q1, x, y) || relaxed_from(s1, sx, sy, x, y));
                            assert(in_queue(q2, x, y) || relaxed_from(s2, sx, sy, x, y));
                            assert(in_queue(q3, x, y) || relaxed_from(s3, sx, sy, x, y));
                            assert(in_queue(q4, x, y) || relaxed_from(s4, sx, sy, x, y));
                        }
                    }
                }
                // the measure shrank: four relaxations never grow it, and
                // the pop removed one entry for good
                assert(sum_best(s4) + q4.len() <= sum_best(s0) + q0.len());
                assert(q0.len() == qe.len() - 1);
            }
        }

        proof {
            // an empty queue means convergence everywhere
            assert forall|x: int, y: int|
                0 <= x < sx && 0 <= y < sy implies #[trigger] relaxed_from(
                self.cells@,
                sx,
                sy,
                x,
                y,
            ) by {
                if in_queue(q@, x, y) {
                    let k = choose|k: int|
                        0 <= k < q@.len() && (#[trigger] q@[k]).x == x && q@[k].y == y;
                    assert(false);
                }
            }
            // the final cells still carry the grid's geometry and costs
            assert forall|ii: int|
                0 <= ii < self.cells@.len() implies (#[trigger] self.cells@[ii]).world_position
                == grid.cells@[ii].world_position && self.cells@[ii].grid_idx
                == grid.cells@[ii].grid_idx && self.cells@[ii].best_direction
                == grid.cells@[ii].best_direction && self.cells@[ii].cost == (if ii == flat_index(
                sx,
                dxi,
                dyi,
            ) {
                0u8
            } else {
                grid.cells@[ii].cost
            }) && self.cells@[ii].best_cost <= grid.cells@[ii].best_cost by {
                assert(cell_static_eq(self.cells@[ii], start[ii]));
            }
            // the destination cell ends exactly as it was recorded
            lemma_flat_index_bounds(sx, sy, dxi, dyi);
            assert(self.cells@[flat_index(sx, dxi, dyi)].best_cost == 0);
            assert(cell_static_eq(self.cells@[flat_index(sx, dxi, dyi)], start[flat_index(
                sx,
                dxi,
                dyi,
            )]));
            assert(self.cells@[flat_index(sx, dxi, dyi)] == start[flat_index(sx, dxi, dyi)]);
        }
    }

    /// Derive the direction field: for every cell, pick the neighbour with
    /// the strictly smallest integration distance among all eight compass
    /// neighbours, walking them in the fixed tie-break order; keep
    /// `Stationary` when no neighbour improves on the cell's own distance.
    /// This pass only reads distances and only writes directions, and runs
    /// strictly after the integration field has converged.
    pub fn create_flowfield(&mut self)
        requires
            old(self).wf(),
        ensures
            final(self).wf(),
            final(self).size == old(self).size,
            final(self).cell_diameter == old(self).cell_diameter,
            final(self).cell_radius == old(self).cell_radius,
            final(self).units == old(self).units,
            final(self).destination_cell == old(self).destination_cell,
            final(self).cells@.len() == old(self).cells@.len(),
            forall|i: int|
                0 <= i < old(self).cells@.len() ==> (#[trigger] final(self).cells@[i]).best_cost
                    == old(self).cells@[i].best_cost && final(self).cells@[i].cost == old(
                    self,
                ).cells@[i].cost && final(self).cells@[i].world_position == old(
                    self,
                ).cells@[i].world_position && final(self).cells@[i].grid_idx == old(
                    self,
                ).cells@[i].grid_idx,
            forall|x: int, y: int|
                0 <= x < old(self).size.x && 0 <= y < old(self).size.y ==> (#[trigger] cell_at(
                    final(self).cells@,
                    old(self).size.x as int,
                    x,
                    y,
                )).best_direction == flow_dir(
                    final(self).cells@,
                    old(self).size.x as int,
                    old(self).size.y as int,
                    x,
                    y,
                ),
    {
        let ghost cells0 = self.cells@;
        let ghost sx = self.size.x as int;
        let ghost sy = self.size.y as int;
        let sxu = self.size.x;
        let syu = self.size.y;
        let dirs = all_directions();
        let mut y: usize = 0;
        while y < syu
            invariant
                self.size == old(self).size,
                self.cell_diameter == old(self).cell_diameter,
                self.cell_radius == old(self).cell_radius,
                self.units == old(self).units,
                self.destination_cell == old(self).destination_cell,
                old(self).wf(),
                sxu == self.size.x,
                syu == self.size.y,
                sx == self.size.x as int,
                sy == self.size.y as int,
                cells0.len() == sx * sy,
                self.cells@.len() == cells0.len(),
                dirs@ == all_dirs(),
                y <= syu,
                forall|i: int|
                    0 <= i < cells0.len() ==> (#[trigger] self.cells@[i]).best_cost
                        == cells0[i].best_cost && self.cells@[i].cost == cells0[i].cost
                        && self.cells@[i].world_position == cells0[i].world_position
                        && self.cells@[i].grid_idx == cells0[i].grid_idx,
                forall|x2: int, y2: int|
                    0 <= x2 < sx && 0 <= y2 < y ==> (#[trigger] cell_at(
                        self.cells@,
                        sx,
                        x2,
                        y2,
                    )).best_direction == flow_dir(cells0, sx, sy, x2, y2),
            decreases syu - y,
        {
            let mut x: usize = 0;
            while x < sxu
                invariant
                    self.size == old(self).size,
                    self.cell_diameter == old(self).cell_diameter,
                    self.cell_radius == old(self).cell_radius,
                    self.units == old(self).units,
                    self.destination_cell == old(self).destination_cell,
                    old(self).wf(),
                    sxu == self.size.x,
                    syu == self.size.y,
                    sx == self.size.x as int,
                    sy == self.size.y as int,
                    cells0.len() == sx * sy,
                    self.cells@.len() == cells0.len(),
                    dirs@ == all_dirs(),
                    y < syu,
                    x <= sxu,
                    forall|i: int|
                        0 <= i < cells0.len() ==> (#[trigger] self.cells@[i]).best_cost
                            == cells0[i].best_cost && self.cells@[i].cost == cells0[i].cost
                            && self.cells@[i].world_position == cells0[i].world_position
                            && self.cells@[i].grid_idx == cells0[i].grid_idx,
                    forall|x2: int, y2: int|
                        0 <= x2 < sx && 0 <= y2 < y ==> (#[trigger] cell_at(
                            self.cells@,
                            sx,
                            x2,
                            y2,
                        )).best_direction == flow_dir(cells0, sx, sy, x2, y2),
                    forall|x2: int|
                        0 <= x2 < x ==> (#[trigger] cell_at(
                            self.cells@,
                            sx,
                            x2,
                            y as int,
                        )).best_direction == flow_dir(cells0, sx, sy, x2, y as int),
                decreases sxu - x,
            {
                proof {
                    lemma_flat_index_bounds(sx, sy, x as int, y as int);
                }
                let i0 = flat_index_exec(sxu, x, y);
                let c0 = self.cells[i0];
                let mut best_cost: u16 = c0.best_cost;
                let mut best_dir = GridDirection::Stationary;
                let mut t: usize = 0;
                while t < dirs.len()
                    invariant
                        dirs@ == all_dirs(),
                        t <= 8,
                        sxu == self.size.x,
                        syu == self.size.y,
                        sx == self.size.x as int,
                        sy == self.size.y as int,
                        1 <= sxu <= MAX_GRID_DIM,
                        1 <= syu <= MAX_GRID_DIM,
                        x < sxu,
                        y < syu,
                        cells0.len() == sx * sy,
                        self.cells@.len() == cells0.len(),
                        forall|i: int|
                            0 <= i < cells0.len() ==> (#[trigger] self.cells@[i]).best_cost
                                == cells0[i].best_cost,
                        scan_dir(cells0, sx, sy, x as int, y as int, t as int).0 == best_dir,
                        scan_dir(cells0, sx, sy, x as int, y as int, t as int).1 == best_cost as int,
                    decreases 8 - t,
                {
                    let dir = dirs[t];
                    let (ddx, ddy) = dir.vector();
                    let nx = x as i64 + ddx;
                    let ny = y as i64 + ddy;
                    proof {
                        assert(all_dirs()[t as int] == dir);
                    }
                    if 0 <= nx && nx < sxu as i64 && 0 <= ny && ny < syu as i64 {
                        proof {
                            lemma_flat_index_bounds(sx, sy, nx as int, ny as int);
                        }
                        let nf = flat_index_exec(sxu, nx as usize, ny as usize);
                        let nb = self.cells[nf];
                        if nb.best_cost < best_cost {
                            best_cost = nb.best_cost;
                            best_dir = dir;
                        }
                    }
                    t = t + 1;
                }
                let mut c = c0;
                c.best_direction = best_dir;
                let ghost pre = self.cells@;
                self.cells.set(i0, c);
                proof {
                    assert forall|x2: int, y2: int|
                        0 <= x2 < sx && 0 <= y2 < y implies (#[trigger] cell_at(
                        self.cells@,
                        sx,
                        x2,
                        y2,
                    )).best_direction == flow_dir(cells0, sx, sy, x2, y2) by {
                        lemma_flat_index_bounds(sx, sy, x2, y2);
                        if flat_index(sx, x2, y2) == i0 as int {
                            lemma_flat_index_injective(sx, x2, y2, x as int, y as int);
                        }
                        assert(cell_at(self.cells@, sx, x2, y2) == cell_at(pre, sx, x2, y2));
                    }
                    assert forall|x2: int|
                        0 <= x2 <= x implies (#[trigger] cell_at(
                        self.cells@,
                        sx,
                        x2,
                        y as int,
                    )).best_direction == flow_dir(cells0, sx, sy, x2, y as int) by {
                        lemma_flat_index_bounds(sx, sy, x2, y as int);
                        if x2 < x {
                            if flat_index(sx, x2, y as int) == i0 as int {
                                lemma_flat_index_injective(sx, x2, y as int, x as int, y as int);
                            }
                            assert(cell_at(self.cells@, sx, x2, y as int) == cell_at(
                                pre,
                                sx,
                                x2,
                                y as int,
                            ));
                        } else {
                            assert(cell_at(self.cells@, sx, x as int, y as int) == c);
                        }
                    }
                }
                x = x + 1;
            }
            y = y + 1;
        }
        proof {
            assert forall|x: int, y2: int|
                0 <= x < sx && 0 <= y2 < sy implies (#[trigger] cell_at(
                self.cells@,
                sx,
                x,
                y2,
            )).best_direction == flow_dir(self.cells@, sx, sy, x, y2) by {
                lemma_scan_dir_congruent(self.cells@, cells0, sx, sy, x, y2, 8);
            }
        }
    }

    /// Relax one cardinal neighbour of `cur`: if it is in bounds and
    /// passable and `cur`'s distance plus the neighbour's cost undercuts
    /// the neighbour's distance, lower it and queue the neighbour for
    /// another visit. Everything else is untouched, and every invariant of
    /// the wavefront — soundness of the distances, and coverage of every
    /// still-improvable cell by the queue — is preserved.
    fn relax_neighbor(
        &mut self,
        q: &mut VecDeque<GridIdx>,
        cur: GridIdx,
        dir: GridDirection,
        cur_best: u16,
        Ghost(dest): Ghost<GridIdx>,
    )
        requires
            is_cardinal(dir),
            old(self).cells@.len() == old(self).size.x * old(self).size.y,
            1 <= old(self).size.x <= MAX_GRID_DIM,
            1 <= old(self).size.y <= MAX_GRID_DIM,
            cur.x < old(self).size.x,
            cur.y < old(self).size.y,
            dest.x < old(self).size.x,
            dest.y < old(self).size.y,
            cell_at(old(self).cells@, old(self).size.x as int, cur.x as int, cur.y as int).best_cost
                <= cur_best,
            distances_sound(
                old(self).cells@,
                old(self).size.x as int,
                old(self).size.y as int,
                dest.x as int,
                dest.y as int,
            ),
        ensures
            final(self).size == old(self).size,
            final(self).cell_diameter == old(self).cell_diameter,
            final(self).cell_radius == old(self).cell_radius,
            final(self).units == old(self).units,
            final(self).destination_cell == old(self).destination_cell,
            final(self).cells@.len() == old(self).cells@.len(),
            forall|i: int|
                0 <= i < old(self).cells@.len() ==> cell_static_eq(
                    #[trigger] final(self).cells@[i],
                    old(self).cells@[i],
                ) && final(self).cells@[i].best_cost <= old(self).cells@[i].best_cost,
            final(self).cells@[flat_index(old(self).size.x as int, cur.x as int, cur.y as int)]
                == old(self).cells@[flat_index(old(self).size.x as int, cur.x as int, cur.y as int)],
            distances_sound(
                final(self).cells@,
                old(self).size.x as int,
                old(self).size.y as int,
                dest.x as int,
                dest.y as int,
            ),
            forall|x: int, y: int|
                #![trigger in_queue(old(q)@, x, y)]
                #![trigger relaxed_from(old(self).cells@, old(self).size.x as int, old(self).size.y as int, x, y)]
                0 <= x < old(self).size.x && 0 <= y < old(self).size.y && (in_queue(old(q)@, x, y)
                    || relaxed_from(
                    old(self).cells@,
                    old(self).size.x as int,
                    old(self).size.y as int,
                    x,
                    y,
                )) ==> (in_queue(final(q)@, x, y) || relaxed_from(
                    final(self).cells@,
                    old(self).size.x as int,
                    old(self).size.y as int,
                    x,
                    y,
                )),
            old(q)@.len() <= final(q)@.len(),
            forall|k: int| 0 <= k < old(q)@.len() ==> #[trigger] final(q)@[k] == old(q)@[k],
            forall|k: int|
                old(q)@.len() <= k < final(q)@.len() ==> (#[trigger] final(q)@[k]).x < old(
                    self,
                ).size.x && final(q)@[k].y < old(self).size.y,
            (0 <= nb_x(cur, dir) < old(self).size.x && 0 <= nb_y(cur, dir) < old(self).size.y)
                ==> ({
                let sx = old(self).size.x as int;
                let nbf = flat_index(sx, nb_x(cur, dir), nb_y(cur, dir));
                final(self).cells@[nbf].cost == 255 || final(self).cells@[nbf].best_cost as int
                    <= final(self).cells@[nbf].cost + cur_best
            }),
            sum_best(final(self).cells@) + final(q)@.len() <= sum_best(old(self).cells@) + old(
                q,
            )@.len(),
    {
        let ghost sx = self.size.x as int;
        let ghost sy = self.size.y as int;
        let ghost pre = self.cells@;
        let ghost qpre = q@;
        let (ddx, ddy) = dir.vector();
        let nx = cur.x as i64 + ddx;
        let ny = cur.y as i64 + ddy;
        if 0 <= nx && nx < self.size.x as i64 && 0 <= ny && ny < self.size.y as i64 {
            let nxi = nx as usize;
            let nyi = ny as usize;
            proof {
                lemma_flat_index_bounds(sx, sy, nxi as int, nyi as int);
                lemma_flat_index_bounds(sx, sy, cur.x as int, cur.y as int);
                if flat_index(sx, nxi as int, nyi as int) == flat_index(
                    sx,
                    cur.x as int,
                    cur.y as int,
                ) {
                    lemma_flat_index_injective(sx, nxi as int, nyi as int, cur.x as int, cur.y as int);
                }
            }
            let ni = flat_index_exec(self.size.x, nxi, nyi);
            let nc = self.cells[ni];
            if nc.cost != u8::MAX {
                let cand: u32 = nc.cost as u32 + cur_best as u32;
                if cand < nc.best_cost as u32 {
                    let mut c2 = nc;
                    c2.best_cost = cand as u16;
                    self.cells.set(ni, c2);
                    q.push_back(GridIdx::new(nxi, nyi));
                    proof {
                        lemma_sum_best_update(pre, ni as int, c2);
                        self.lemma_relax_step_sound(
                            pre,
                            cur,
                            dir,
                            cur_best,
                            dest,
                            ni as int,
                        );
                        assert forall|x: int, y: int|
                            #![trigger in_queue(qpre, x, y)]
                            #![trigger relaxed_from(pre, sx, sy, x, y)]
                            0 <= x < sx && 0 <= y < sy && (in_queue(qpre, x, y) || relaxed_from(
                                pre,
                                sx,
                                sy,
                                x,
                                y,
                            )) implies (in_queue(q@, x, y) || relaxed_from(
                                self.cells@,
                                sx,
                                sy,
                                x,
                                y,
                            )) by {
                            lemma_flat_index_bounds(sx, sy, x, y);
                            if in_queue(qpre, x, y) {
                                let k = choose|k: int|
                                    0 <= k < qpre.len() && (#[trigger] qpre[k]).x == x && qpre[k].y
                                        == y;
                                assert(q@[k] == qpre[k]);
                                assert(in_queue(q@, x, y));
                            } else {
                                if x == nxi as int && y == nyi as int {
                                    assert(q@[qpre.len() as int] == (GridIdx { x: nxi, y: nyi }));
                                    assert(in_queue(q@, x, y));
                                } else {
                                    if flat_index(sx, x, y) == ni as int {
                                        lemma_flat_index_injective(
                                            sx,
                                            x,
                                            y,
                                            nxi as int,
                                            nyi as int,
                                        );
                                    }
                                    assert(self.cells@[flat_index(sx, x, y)] == pre[flat_index(
                                        sx,
                                        x,
                                        y,
                                    )]);
                                    assert(relaxed_from(self.cells@, sx, sy, x, y)) by {
                                        lemma_relaxed_persists(pre, self.cells@, sx, sy, x, y);
                                    }
                                }
                            }
                        }
                    }
                }
            }
        }
    }

    /// After lowering the neighbour's distance to its cost plus `cur`'s
    /// distance, the soundness bundle still holds: the new value is
    /// witnessed by `cur` itself, walls were never touched, and every
    /// other cell kept its value while its witnesses only got cheaper.
    proof fn lemma_relax_step_sound(
        &self,
        pre: Seq<Cell>,
        cur: GridIdx,
        dir: GridDirection,
        cur_best: u16,
        dest: GridIdx,
        ni: int,
    )
        requires
            is_cardinal(dir),
            pre.len() == self.size.x * self.size.y,
            1 <= self.size.x <= MAX_GRID_DIM,
            1 <= self.size.y <= MAX_GRID_DIM,
            cur.x < self.size.x,
            cur.y < self.size.y,
            dest.x < self.size.x,
            dest.y < self.size.y,
            0 <= nb_x(cur, dir) < self.size.x,
            0 <= nb_y(cur, dir) < self.size.y,
            ni == flat_index(self.size.x as int, nb_x(cur, dir), nb_y(cur, dir)),
            cell_at(pre, self.size.x as int, cur.x as int, cur.y as int).best_cost <= cur_best,
            distances_sound(
                pre,
                self.size.x as int,
                self.size.y as int,
                dest.x as int,
                dest.y as int,
            ),
            self.cells@.len() == pre.len(),
            self.cells@ == pre.update(ni, self.cells@[ni]),
            cell_static_eq(self.cells@[ni], pre[ni]),
            self.cells@[ni].cost != 255,
            self.cells@[ni].best_cost < pre[ni].best_cost,
            self.cells@[ni].best_cost as int == self.cells@[ni].cost + cur_best,
        ensures
            distances_sound(
                self.cells@,
                self.size.x as int,
                self.size.y as int,
                dest.x as int,
                dest.y as int,
            ),
    {
        let sx = self.size.x as int;
        let sy = self.size.y as int;
        let dx = dest.x as int;
        let dy = dest.y as int;
        let post = self.cells@;
        lemma_flat_index_bounds(sx, sy, cur.x as int, cur.y as int);
        lemma_flat_index_bounds(sx, sy, nb_x(cur, dir), nb_y(cur, dir));
        lemma_flat_index_bounds(sx, sy, dx, dy);
        assert forall|i: int|
            0 <= i < post.len() implies cell_static_eq(#[trigger] post[i], pre[i])
            && post[i].best_cost <= pre[i].best_cost by {
            if i != ni {
                assert(post[i] == pre[i]);
            }
        }
        // the destination cannot be the lowered cell: its distance is
        // already 0 and distances are nonnegative
        if ni == flat_index(sx, dx, dy) {
            assert(post[ni].best_cost < 0);
        }
        assert(cell_at(post, sx, dx, dy).best_cost == 0);
        assert forall|x: int, y: int|
            0 <= x < sx && 0 <= y < sy && !(x == dx && y == dy) && (#[trigger] cell_at(
                post,
                sx,
                x,
                y,
            )).cost == 255 implies cell_at(post, sx, x, y).best_cost == 65535 by {
            lemma_flat_index_bounds(sx, sy, x, y);
            if flat_index(sx, x, y) == ni {
                assert(false);
            }
            assert(cell_at(post, sx, x, y) == cell_at(pre, sx, x, y));
        }
        assert forall|x: int, y: int|
            0 <= x < sx && 0 <= y < sy && !(x == dx && y == dy) && (#[trigger] cell_at(
                post,
                sx,
                x,
                y,
            )).best_cost < 65535 implies supported(post, sx, sy, x, y) by {
            lemma_flat_index_bounds(sx, sy, x, y);
            if flat_index(sx, x, y) == ni {
                // the lowered cell: `cur` is the cardinal neighbour it was
                // relaxed from, and `cur` only ever gets cheaper
                lemma_flat_index_injective(sx, x, y, nb_x(cur, dir), nb_y(cur, dir));
                assert(x == nb_x(cur, dir) && y == nb_y(cur, dir));
                assert(cell_at(post, sx, cur.x as int, cur.y as int).best_cost <= cur_best);
                if dir == GridDirection::North {
                    assert(cur.x as int == x && cur.y as int == y + 1);
                } else if dir == GridDirection::East {
                    assert(cur.x as int == x - 1 && cur.y as int == y);
                } else if dir == GridDirection::South {
                    assert(cur.x as int == x && cur.y as int == y - 1);
                } else {
                    assert(cur.x as int == x + 1 && cur.y as int == y);
                }
                assert(supported(post, sx, sy, x, y));
            } else {
                assert(cell_at(post, sx, x, y) == cell_at(pre, sx, x, y));
                assert(supported(pre, sx, sy, x, y));
                lemma_supported_persists(pre, post, sx, sy, x, y);
            }
        }
    }
}

/// What the flow-field builder reads of one selected unit: the host's
/// entity id, the translation of its transform, and the extents of its
/// bounding box.
#[derive(Clone, Copy, PartialEq, Eq, Structural, Debug)]
pub struct SelectedUnit {
    pub entity: u64,
    pub translation: WorldPos,
    pub size: ObjSize,
}

/// A unit the builder can act on: extents nonnegative and within machine
/// bounds.
pub open spec fn unit_ok(u: SelectedUnit) -> bool {
    &&& 0 <= u.size.x <= MAX_OBJ_EXTENT
    &&& 0 <= u.size.z <= MAX_OBJ_EXTENT
}

/// Whether cell `(x, y)` lies in the footprint of one of the first `n`
/// selected units.
pub open spec fn covered_by_units_prefix(
    units: Seq<SelectedUnit>,
    n: int,
    size: GridIdx,
    d: i64,
    x: int,
    y: int,
) -> bool {
    exists|k: int|
        0 <= k < n && in_obj_rect(size, d, (#[trigger] units[k]).translation, units[k].size, x, y)
}

/// Whether cell `(x, y)` lies in the footprint of any selected unit.
pub open spec fn covered_by_units(
    units: Seq<SelectedUnit>,
    size: GridIdx,
    d: i64,
    x: int,
    y: int,
) -> bool {
    covered_by_units_prefix(units, units.len() as int, size, d, x, y)
}

/// The entity ids of the selected units, in order.
pub open spec fn unit_ids(units: Seq<SelectedUnit>) -> Seq<u64> {
    units.map_values(|u: SelectedUnit| u.entity)
}

/// Answer a move order: make each selected unit's own footprint passable
/// again (so the group does not path around itself), pick the destination
/// cell under the given world position, and compute a complete flow field
/// for the group — integration pass, then direction pass. The caller hands
/// the finished field to its consumers; it goes stale if the grid's costs
/// change afterwards.
pub fn initialize_flowfield(
    grid: &mut Grid,
    selected: &Vec<SelectedUnit>,
    destination_pos: WorldPos,
) -> (ff: FlowField)
    requires
        old(grid).wf(),
        forall|k: int| 0 <= k < selected@.len() ==> unit_ok(#[trigger] selected@[k]),
    ensures
        final(grid).wf(),
        final(grid).size == old(grid).size,
        final(grid).cell_diameter == old(grid).cell_diameter,
        final(grid).cell_radius == old(grid).cell_radius,
        final(grid).cells@.len() == old(grid).cells@.len(),
        forall|x: int, y: int|
            0 <= x < old(grid).size.x && 0 <= y < old(grid).size.y
                ==> final(grid).cells@[#[trigger] flat_index(old(grid).size.x as int, x, y)] == (
            if covered_by_units(selected@, old(grid).size, old(grid).cell_diameter, x, y) {
                with_cost(old(grid).cells@[flat_index(old(grid).size.x as int, x, y)], 1)
            } else {
                old(grid).cells@[flat_index(old(grid).size.x as int, x, y)]
            }),
        ff.wf(),
        ff.size == old(grid).size,
        ff.cell_diameter == old(grid).cell_diameter,
        ff.cell_radius == old(grid).cell_radius,
        ff.units@ == unit_ids(selected@),
        integration_static_ok(
            ff.cells@,
            final(grid).cells@,
            old(grid).size.x as int,
            locate_x(destination_pos, old(grid).size, old(grid).cell_diameter),
            locate_y(destination_pos, old(grid).size, old(grid).cell_diameter),
        ),
        integration_distances_ok(
            ff.cells@,
            old(grid).size.x as int,
            old(grid).size.y as int,
            locate_x(destination_pos, old(grid).size, old(grid).cell_diameter),
            locate_y(destination_pos, old(grid).size, old(grid).cell_diameter),
        ),
        forall|x: int, y: int|
            0 <= x < old(grid).size.x && 0 <= y < old(grid).size.y ==> (#[trigger] cell_at(
                ff.cells@,
                old(grid).size.x as int,
                x,
                y,
            )).best_direction == flow_dir(
                ff.cells@,
                old(grid).size.x as int,
                old(grid).size.y as int,
                x,
                y,
            ),
        ff.destination_cell == cell_at(
            ff.cells@,
            old(grid).size.x as int,
            locate_x(destination_pos, old(grid).size, old(grid).cell_diameter),
            locate_y(destination_pos, old(grid).size, old(grid).cell_diameter),
        ),
{
    let ghost g0 = *grid;
    let ghost sx = g0.size.x as int;
    let ghost sy = g0.size.y as int;
    let ghost d = g0.cell_diameter;

    // selected units stop blocking their own path
    let mut n: usize = 0;
    while n < selected.len()
        invariant
            g0.wf(),
            forall|k: int| 0 <= k < selected@.len() ==> unit_ok(#[trigger] selected@[k]),
            sx == g0.size.x as int,
            sy == g0.size.y as int,
            d == g0.cell_diameter,
            n <= selected@.len(),
            grid.wf(),
            grid.size == g0.size,
            grid.cell_diameter == g0.cell_diameter,
            grid.cell_radius == g0.cell_radius,
            grid.cells@.len() == g0.cells@.len(),
            forall|x: int, y: int|
                0 <= x < sx && 0 <= y < sy ==> grid.cells@[#[trigger] flat_index(sx, x, y)] == (
                if covered_by_units_prefix(selected@, n as int, g0.size, d, x, y) {
                    with_cost(g0.cells@[flat_index(sx, x, y)], 1)
                } else {
                    g0.cells@[flat_index(sx, x, y)]
                }),
        decreases selected@.len() - n,
    {
        let ghost prev = *grid;
        let u = selected[n];
        let _changed = grid.reset_cell_costs(u.translation, u.size);
        proof {
            assert forall|x: int, y: int|
                0 <= x < sx && 0 <= y < sy implies grid.cells@[#[trigger] flat_index(sx, x, y)]
                == (if covered_by_units_prefix(selected@, n + 1, g0.size, d, x, y) {
                with_cost(g0.cells@[flat_index(sx, x, y)], 1)
            } else {
                g0.cells@[flat_index(sx, x, y)]
            }) by {
                if in_obj_rect(g0.size, d, selected@[n as int].translation, selected@[n as int].size, x, y) {
                    assert(covered_by_units_prefix(selected@, n + 1, g0.size, d, x, y));
                } else {
                    if covered_by_units_prefix(selected@, n + 1, g0.size, d, x, y) {
                        let k = choose|k: int|
                            0 <= k < n + 1 && in_obj_rect(
                                g0.size,
                                d,
                                (#[trigger] selected@[k]).translation,
                                selected@[k].size,
                                x,
                                y,
                            );
                        if k < n {
                            assert(covered_by_units_prefix(selected@, n as int, g0.size, d, x, y));
                        }
                    }
                    if covered_by_units_prefix(selected@, n as int, g0.size, d, x, y) {
                        assert(covered_by_units_prefix(selected@, n + 1, g0.size, d, x, y));
                    }
                }
            }
        }
        n = n + 1;
    }

    let destination_cell = grid.get_cell_from_world_position(destination_pos);

    let mut ids: Vec<u64> = Vec::new();
    let mut i: usize = 0;
    while i < selected.len()
        invariant
            i <= selected@.len(),
            ids@.len() == i,
            forall|j: int| 0 <= j < i ==> #[trigger] ids@[j] == selected@[j].entity,
        decreases selected@.len() - i,
    {
        let u = selected[i];
        ids.push(u.entity);
        i = i + 1;
    }
    proof {
        assert(ids@ =~= unit_ids(selected@));
    }

    let mut ff = FlowField::new(grid.cell_diameter, grid.size, ids);
    ff.create_integration_field(grid, destination_cell);
    let ghost mid = ff.cells@;
    ff.create_flowfield();
    proof {
        let dxi = locate_x(destination_pos, g0.size, d);
        let dyi = locate_y(destination_pos, g0.size, d);
        lemma_flat_index_bounds(sx, sy, dxi, dyi);
        lemma_distances_ok_congruent(ff.cells@, mid, sx, sy, dxi, dyi);
        // the destination keeps distance 0, so the direction pass leaves
        // it `Stationary`, exactly as it was recorded
        assert(ff.cells@[flat_index(sx, dxi, dyi)].best_cost == mid[flat_index(
            sx,
            dxi,
            dyi,
        )].best_cost);
        assert(cell_at(mid, sx, dxi, dyi).best_cost == 0);
        assert(cell_placed(grid.cells@, grid.size, grid.cell_diameter, dxi, dyi));
        assert(cell_at(mid, sx, dxi, dyi).best_direction == GridDirection::Stationary);
        lemma_scan_dir_zero(ff.cells@, sx, sy, dxi, dyi, 8);
        assert(cell_at(ff.cells@, sx, dxi, dyi).best_direction == flow_dir(
            ff.cells@,
            sx,
            sy,
            dxi,
            dyi,
        ));
        assert(cell_at(ff.cells@, sx, dxi, dyi) == cell_at(mid, sx, dxi, dyi));
    }
    ff
}

} // verus!

