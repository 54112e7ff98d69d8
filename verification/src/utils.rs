use vstd::prelude::*;

use vstd::arithmetic::div_mod::{
    lemma_div_is_ordered, lemma_div_pos_is_pos, lemma_fundamental_div_mod,
    lemma_fundamental_div_mod_converse_div,
};
use vstd::arithmetic::mul::{
    lemma_mul_is_commutative, lemma_mul_nonnegative, lemma_mul_upper_bound,
};

use crate::cell::{Cell, GridIdx, WorldPos};

verus! {

/// Largest supported number of columns or rows of a grid.
pub const MAX_GRID_DIM: usize = 0xFFFF;

/// Largest supported cell edge length, in world units.
pub const MAX_CELL_DIAMETER: i64 = 0x100_0000_0000;

/// The dimensions a grid (or a flow field copied from one) may have: at
/// least one column and one row, a positive cell edge length, and small
/// enough that every coordinate computation below fits its machine integer.
pub open spec fn dims_ok(size: GridIdx, cell_diameter: i64) -> bool {
    &&& 1 <= size.x <= MAX_GRID_DIM
    &&& 1 <= size.y <= MAX_GRID_DIM
    &&& 1 <= cell_diameter <= MAX_CELL_DIAMETER
}

/// Half the world-space extent of an axis with `n` cells of edge length `d`:
/// the grid is centred on the world origin, so cell `0` starts at minus this
/// offset.
pub open spec fn grid_half_extent(n: int, d: int) -> int {
    (n * d) / 2
}

/// World coordinate of the centre of cell `k` on an axis with `n` cells of
/// edge length `d`.
pub open spec fn cell_center(k: int, n: int, d: int) -> int {
    d * k + d / 2 - grid_half_extent(n, d)
}

/// Grid index that world coordinate `p` falls in on an axis with `n` cells
/// of edge length `d`. Positions outside the grid's physical extent clamp to
/// the nearest edge cell: the result is always in `[0, n)`, never an error.
pub open spec fn locate_axis(p: int, n: int, d: int) -> int {
    let t = p + grid_half_extent(n, d);
    if t < 0 {
        0
    } else if t / d >= n {
        n - 1
    } else {
        t / d
    }
}

/// Row-major position of cell `(x, y)` in the flat cell array of a grid
/// with `sx` columns.
pub open spec fn flat_index(sx: int, x: int, y: int) -> int {
    y * sx + x
}

/// Column index a world position falls in.
pub open spec fn locate_x(pos: WorldPos, size: GridIdx, d: i64) -> int {
    locate_axis(pos.x as int, size.x as int, d as int)
}

/// Row index a world position falls in (rows run along the world `z` axis).
pub open spec fn locate_y(pos: WorldPos, size: GridIdx, d: i64) -> int {
    locate_axis(pos.z as int, size.y as int, d as int)
}

/// For a positive edge length, the half-cell offset is a proper remainder.
proof fn lemma_half_cell_bounds(d: int)
    requires
        1 <= d,
    ensures
        0 <= d / 2 < d,
{
    lemma_div_pos_is_pos(d, 2);
    lemma_fundamental_div_mod(d, 2);
}

/// Clamping law: whatever the input coordinate, the located index is a valid
/// cell index of its axis.
pub proof fn lemma_locate_axis_in_bounds(p: int, n: int, d: int)
    requires
        1 <= n,
        1 <= d,
    ensures
        0 <= locate_axis(p, n, d) < n,
{
    let t = p + grid_half_extent(n, d);
    if t >= 0 {
        lemma_div_pos_is_pos(t, d);
    }
}

/// The located index never decreases as the coordinate grows.
pub proof fn lemma_locate_axis_monotone(p1: int, p2: int, n: int, d: int)
    requires
        1 <= n,
        1 <= d,
        p1 <= p2,
    ensures
        locate_axis(p1, n, d) <= locate_axis(p2, n, d),
{
    let t1 = p1 + grid_half_extent(n, d);
    let t2 = p2 + grid_half_extent(n, d);
    lemma_locate_axis_in_bounds(p1, n, d);
    lemma_locate_axis_in_bounds(p2, n, d);
    if t1 >= 0 {
        lemma_div_is_ordered(t1, t2, d);
    }
}

/// Round trip: the centre of a cell locates back to that very cell, on any
/// axis and for any positive edge length.
pub proof fn lemma_locate_round_trip(k: int, n: int, d: int)
    requires
        0 <= k < n,
        1 <= d,
    ensures
        locate_axis(cell_center(k, n, d), n, d) == k,
{
    let t = cell_center(k, n, d) + grid_half_extent(n, d);
    assert(t == d * k + d / 2);
    lemma_half_cell_bounds(d);
    lemma_mul_nonnegative(d, k);
    lemma_mul_is_commutative(d, k);
    lemma_fundamental_div_mod_converse_div(t, d, k, d / 2);
}

/// A cell's row-major position lies within the flat array.
pub proof fn lemma_flat_index_bounds(sx: int, sy: int, x: int, y: int)
    requires
        0 <= x < sx,
        0 <= y < sy,
    ensures
        0 <= flat_index(sx, x, y) < sx * sy,
{
    lemma_mul_nonnegative(y, sx);
    assert(y * sx + x < sx * sy) by (nonlinear_arith)
        requires
            0 <= x < sx,
            0 <= y < sy,
    ;
}

/// Distinct cells occupy distinct row-major positions.
pub proof fn lemma_flat_index_injective(sx: int, x1: int, y1: int, x2: int, y2: int)
    requires
        0 <= x1 < sx,
        0 <= x2 < sx,
        flat_index(sx, x1, y1) == flat_index(sx, x2, y2),
    ensures
        x1 == x2 && y1 == y2,
{
    assert(y1 == y2) by (nonlinear_arith)
        requires
            0 <= x1 < sx,
            0 <= x2 < sx,
            y1 * sx + x1 == y2 * sx + x2,
    ;
}

/// Locate one axis of a world coordinate. `p` is widened so callers may
/// offset a raw `i64` coordinate by an object extent without wrapping.
pub fn locate_axis_exec(p: i128, n: usize, d: i64) -> (k: usize)
    requires
        1 <= n <= MAX_GRID_DIM,
        1 <= d <= MAX_CELL_DIAMETER,
        -0x1000_0000_0000_0000_0000 <= p <= 0x1000_0000_0000_0000_0000,
    ensures
        k == locate_axis(p as int, n as int, d as int),
        k < n,
{
    proof {
        lemma_mul_upper_bound(n as int, MAX_GRID_DIM as int, d as int, MAX_CELL_DIAMETER as int);
        lemma_mul_nonnegative(n as int, d as int);
        lemma_locate_axis_in_bounds(p as int, n as int, d as int);
    }
    let half: u64 = (n as u64) * (d as u64) / 2;
    let t: i128 = p + half as i128;
    if t < 0 {
        0
    } else {
        proof {
            lemma_div_pos_is_pos(t as int, d as int);
        }
        let q: u128 = (t as u128) / (d as u128);
        if q >= n as u128 {
            n - 1
        } else {
            q as usize
        }
    }
}

/// World coordinate of the centre of cell `k` on one axis.
pub fn cell_center_exec(k: usize, n: usize, d: i64) -> (c: i64)
    requires
        k < n,
        n <= MAX_GRID_DIM,
        1 <= d <= MAX_CELL_DIAMETER,
    ensures
        c == cell_center(k as int, n as int, d as int),
{
    proof {
        lemma_mul_upper_bound(n as int, MAX_GRID_DIM as int, d as int, MAX_CELL_DIAMETER as int);
        lemma_mul_nonnegative(n as int, d as int);
        lemma_mul_upper_bound(d as int, MAX_CELL_DIAMETER as int, k as int, MAX_GRID_DIM as int);
        lemma_mul_nonnegative(d as int, k as int);
    }
    let half: u64 = (n as u64) * (d as u64) / 2;
    let r: u64 = (d as u64) / 2;
    d * (k as i64) + (r as i64) - (half as i64)
}

/// Row-major position of cell `(x, y)` in a flat cell array with `sx`
/// columns per row.
pub fn flat_index_exec(sx: usize, x: usize, y: usize) -> (i: usize)
    requires
        x < sx,
        sx <= MAX_GRID_DIM,
        y <= MAX_GRID_DIM,
    ensures
        i == flat_index(sx as int, x as int, y as int),
{
    proof {
        lemma_mul_upper_bound(y as int, MAX_GRID_DIM as int, sx as int, MAX_GRID_DIM as int);
        lemma_mul_nonnegative(y as int, sx as int);
    }
    y * sx + x
}

/// The canonical world-to-cell lookup shared by the grid and every flow
/// field: locate each axis with clamping, then read the cell at the
/// resulting row-major index.
pub fn get_cell_from_world_position_helper(
    world_pos: WorldPos,
    grid_size: GridIdx,
    cell_diameter: i64,
    cells: &Vec<Cell>,
) -> (c: Cell)
    requires
        dims_ok(grid_size, cell_diameter),
        cells@.len() == grid_size.x * grid_size.y,
    ensures
        0 <= locate_x(world_pos, grid_size, cell_diameter) < grid_size.x,
        0 <= locate_y(world_pos, grid_size, cell_diameter) < grid_size.y,
        c == cells@[flat_index(
            grid_size.x as int,
            locate_x(world_pos, grid_size, cell_diameter),
            locate_y(world_pos, grid_size, cell_diameter),
        )],
{
    let ix = locate_axis_exec(world_pos.x as i128, grid_size.x, cell_diameter);
    let iy = locate_axis_exec(world_pos.z as i128, grid_size.y, cell_diameter);
    proof {
        lemma_flat_index_bounds(grid_size.x as int, grid_size.y as int, ix as int, iy as int);
    }
    let i = flat_index_exec(grid_size.x, ix, iy);
    cells[i]
}

} // verus!
