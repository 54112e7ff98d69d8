use vstd::prelude::*;

use vstd::arithmetic::mul::{
    lemma_mul_inequality, lemma_mul_is_commutative, lemma_mul_nonnegative,
};

use vstd::arithmetic::div_mod::{
    lemma_div_pos_is_pos, lemma_fundamental_div_mod, lemma_fundamental_div_mod_converse_div,
    lemma_fundamental_div_mod_converse_mod, lemma_mod_division_less_than_divisor,
};

use crate::cell::{Cell, GridIdx, WorldPos};
use crate::events::UpdateCostEv;
use crate::grid_direction::GridDirection;
use crate::utils::{
    cell_center, cell_center_exec, dims_ok, flat_index, flat_index_exec,
    get_cell_from_world_position_helper, lemma_flat_index_bounds, lemma_flat_index_injective,
    lemma_locate_axis_monotone, lemma_locate_round_trip, locate_axis, locate_axis_exec,
    locate_x, locate_y,
    MAX_CELL_DIAMETER, MAX_GRID_DIM,
};

verus! {

/// Largest supported world-space extent of a blocking object's bounding
/// box along one axis.
pub const MAX_OBJ_EXTENT: i64 = 0x4000_0000_0000_0000;

/// Full world-space extents of a blocking object's axis-aligned bounding
/// box along the two ground axes.
#[derive(Clone, Copy, PartialEq, Eq, Structural, Debug)]
pub struct ObjSize {
    pub x: i64,
    pub z: i64,
}

/// `c` with its traversal cost replaced and every other field kept.
pub open spec fn with_cost(c: Cell, k: u8) -> Cell {
    Cell {
        world_position: c.world_position,
        grid_idx: c.grid_idx,
        cost: k,
        best_cost: c.best_cost,
        best_direction: c.best_direction,
    }
}

/// Rejected grid construction: a grid must have at least one column and one
/// row; a degenerate size is an error, never silently clamped.
#[derive(Clone, Copy, PartialEq, Eq, Structural, Debug)]
pub enum GridError {
    ZeroSizedGrid,
}

/// The shared cost-field authority: one cell per `(column, row)` index,
/// stored row-major, centred on the world origin. All flow fields copy
/// their cells from here; the grid itself is the sole owner of per-cell
/// traversal cost and is mutated in place as obstacles come and go.
#[derive(Clone, PartialEq, Debug)]
pub struct Grid {
    pub cell_radius: i64,
    pub cell_diameter: i64,
    pub cells: Vec<Cell>,
    pub size: GridIdx,
}

/// Leftmost column of the footprint of an object with bounding box centre
/// `t` and full extents `s`: the column its box's min corner locates to,
/// clamped like every world-to-index mapping.
pub open spec fn obj_x0(size: GridIdx, d: i64, t: WorldPos, s: ObjSize) -> int {
    locate_axis(t.x as int - s.x as int / 2, size.x as int, d as int)
}

/// Rightmost column of the object's footprint (inclusive).
pub open spec fn obj_x1(size: GridIdx, d: i64, t: WorldPos, s: ObjSize) -> int {
    locate_axis(t.x as int + s.x as int / 2, size.x as int, d as int)
}

/// Topmost row of the object's footprint (inclusive).
pub open spec fn obj_y0(size: GridIdx, d: i64, t: WorldPos, s: ObjSize) -> int {
    locate_axis(t.z as int - s.z as int / 2, size.y as int, d as int)
}

/// Bottommost row of the object's footprint (inclusive).
pub open spec fn obj_y1(size: GridIdx, d: i64, t: WorldPos, s: ObjSize) -> int {
    locate_axis(t.z as int + s.z as int / 2, size.y as int, d as int)
}

/// Number of columns the object's footprint covers.
pub open spec fn obj_w(size: GridIdx, d: i64, t: WorldPos, s: ObjSize) -> int {
    obj_x1(size, d, t, s) - obj_x0(size, d, t, s) + 1
}

/// Number of rows the object's footprint covers.
pub open spec fn obj_h(size: GridIdx, d: i64, t: WorldPos, s: ObjSize) -> int {
    obj_y1(size, d, t, s) - obj_y0(size, d, t, s) + 1
}

/// Whether cell `(x, y)` lies in the object's footprint rectangle.
pub open spec fn in_obj_rect(size: GridIdx, d: i64, t: WorldPos, s: ObjSize, x: int, y: int) -> bool {
    &&& obj_x0(size, d, t, s) <= x <= obj_x1(size, d, t, s)
    &&& obj_y0(size, d, t, s) <= y <= obj_y1(size, d, t, s)
}

/// Row-major position of cell `(x, y)` within the object's footprint
/// rectangle (only meaningful for cells inside it).
pub open spec fn rect_pos(size: GridIdx, d: i64, t: WorldPos, s: ObjSize, x: int, y: int) -> int {
    (y - obj_y0(size, d, t, s)) * obj_w(size, d, t, s) + (x - obj_x0(size, d, t, s))
}

/// The cell at `(x, y)` of `cells` carries exactly the index and world
/// position the grid's geometry assigns to that slot.
pub open spec fn cell_placed(cells: Seq<Cell>, size: GridIdx, d: i64, x: int, y: int) -> bool {
    let c = cells[flat_index(size.x as int, x, y)];
    &&& c.grid_idx.x == x
    &&& c.grid_idx.y == y
    &&& c.world_position.x as int == cell_center(x, size.x as int, d as int)
    &&& c.world_position.y == 0
    &&& c.world_position.z as int == cell_center(y, size.y as int, d as int)
    &&& 1 <= c.cost
    &&& c.best_cost == u16::MAX
    &&& c.best_direction == GridDirection::Stationary
}

impl Grid {
    /// The grid's structural invariant: valid dimensions, a full row-major
    /// cell array, every cell carrying its own index and world position, a
    /// cost of at least the passable baseline, and the per-destination
    /// fields still at their sentinels (those belong to flow fields, not to
    /// the shared grid).
    pub open spec fn wf(self) -> bool {
        &&& dims_ok(self.size, self.cell_diameter)
        &&& self.cell_radius as int == self.cell_diameter as int / 2
        &&& self.cells@.len() == self.size.x * self.size.y
        &&& forall|x: int, y: int|
            0 <= x < self.size.x && 0 <= y < self.size.y ==> cell_placed(
                self.cells@,
                self.size,
                self.cell_diameter,
                x,
                y,
            )
    }

    /// Create the grid and its cost field; every flow field built later
    /// shares this one cost field. Each cell starts at the passable
    /// baseline cost of 1; blockage is applied afterwards through the
    /// cost-raising operations. Fails exactly when a dimension is zero.
    pub fn new(size: GridIdx, cell_diameter: i64) -> (r: Result<Grid, GridError>)
        requires
            size.x <= MAX_GRID_DIM,
            size.y <= MAX_GRID_DIM,
            1 <= cell_diameter <= MAX_CELL_DIAMETER,
        ensures
            (r is Ok) <==> (1 <= size.x && 1 <= size.y),
            (r matches Ok(g) ==> {
                &&& g.wf()
                &&& g.size == size
                &&& g.cell_diameter == cell_diameter
                &&& forall|i: int| 0 <= i < g.cells@.len() ==> #[trigger] g.cells@[i].cost == 1
            }),
    {
        if size.x == 0 || size.y == 0 {
            return Err(GridError::ZeroSizedGrid);
        }

        let mut cells: Vec<Cell> = Vec::new();
        let mut y: usize = 0;
        while y < size.y
            invariant
                size.x <= MAX_GRID_DIM,
                size.y <= MAX_GRID_DIM,
                1 <= size.x,
                1 <= size.y,
                1 <= cell_diameter <= MAX_CELL_DIAMETER,
                y <= size.y,
                cells@.len() == y * size.x,
                forall|x2: int, y2: int|
                    0 <= x2 < size.x && 0 <= y2 < y ==> cell_placed(
                        cells@,
                        size,
                        cell_diameter,
                        x2,
                        y2,
                    ),
                forall|i: int| 0 <= i < cells@.len() ==> #[trigger] cells@[i].cost == 1,
            decreases size.y - y,
        {
            let mut x: usize = 0;
            while x < size.x
                invariant
                    size.x <= MAX_GRID_DIM,
                    size.y <= MAX_GRID_DIM,
                    1 <= size.x,
                    1 <= size.y,
                    1 <= cell_diameter <= MAX_CELL_DIAMETER,
                    y < size.y,
                    x <= size.x,
                    cells@.len() == y * size.x + x,
                    forall|x2: int, y2: int|
                        0 <= x2 < size.x && 0 <= y2 < y ==> cell_placed(
                            cells@,
                            size,
                            cell_diameter,
                            x2,
                            y2,
                        ),
                    forall|x2: int|
                        0 <= x2 < x ==> cell_placed(cells@, size, cell_diameter, x2, y as int),
                    forall|i: int| 0 <= i < cells@.len() ==> #[trigger] cells@[i].cost == 1,
                decreases size.x - x,
            {
                let cx = cell_center_exec(x, size.x, cell_diameter);
                let cz = cell_center_exec(y, size.y, cell_diameter);
                let c = Cell::new(WorldPos::new(cx, 0, cz), GridIdx::new(x, y));
                let ghost prev = cells@;
                cells.push(c);
                proof {
                    assert forall|x2: int, y2: int|
                        0 <= x2 < size.x && 0 <= y2 < y implies cell_placed(
                        cells@,
                        size,
                        cell_diameter,
                        x2,
                        y2,
                    ) by {
                        lemma_flat_lt_row(size.x as int, x2, y2, y as int);
                        assert(cell_placed(prev, size, cell_diameter, x2, y2));
                        assert(cells@[flat_index(size.x as int, x2, y2)] == prev[flat_index(
                            size.x as int,
                            x2,
                            y2,
                        )]);
                    }
                    assert forall|x2: int| 0 <= x2 <= x implies cell_placed(
                        cells@,
                        size,
                        cell_diameter,
                        x2,
                        y as int,
                    ) by {
                        if x2 < x {
                            assert(cell_placed(prev, size, cell_diameter, x2, y as int));
                            assert(flat_index(size.x as int, x2, y as int) < prev.len());
                            assert(cells@[flat_index(size.x as int, x2, y as int)]
                                == prev[flat_index(size.x as int, x2, y as int)]);
                        } else {
                            assert(flat_index(size.x as int, x2, y as int) == prev.len());
                            assert(cells@[flat_index(size.x as int, x2, y as int)] == c);
                        }
                    }
                }
                x = x + 1;
            }
            proof {
                assert((y + 1) * size.x == y * size.x + size.x) by (nonlinear_arith);
            }
            y = y + 1;
        }

        proof {
            lemma_mul_nonnegative(cell_diameter as int, 1);
        }
        let cell_radius = ((cell_diameter as u64) / 2) as i64;
        let g = Grid { cell_radius, cell_diameter, cells, size };
        proof {
            assert(size.y * size.x == size.x * size.y) by (nonlinear_arith);
            assert forall|x2: int, y2: int|
                0 <= x2 < size.x && 0 <= y2 < size.y implies cell_placed(
                g.cells@,
                size,
                cell_diameter,
                x2,
                y2,
            ) by {
                assert(cell_placed(g.cells@, size, cell_diameter, x2, y2));
            }
        }
        Ok(g)
    }

    /// Create the grid with its cost field classified in one pass: build
    /// every cell, then apply one blockage verdict per cell — `blocked`
    /// holds, row-major, what a collision collaborator answered when asked
    /// about each cell's world position. A blocked cell is raised through
    /// the saturating increase, not overwritten, so later incremental
    /// raises compose. Fails exactly when a dimension is zero.
    pub fn new_with_blocked(size: GridIdx, cell_diameter: i64, blocked: &Vec<bool>) -> (r: Result<
        Grid,
        GridError,
    >)
        requires
            size.x <= MAX_GRID_DIM,
            size.y <= MAX_GRID_DIM,
            1 <= cell_diameter <= MAX_CELL_DIAMETER,
            blocked@.len() == size.x * size.y,
        ensures
            (r is Ok) <==> (1 <= size.x && 1 <= size.y),
            (r matches Ok(g) ==> {
                &&& g.wf()
                &&& g.size == size
                &&& g.cell_diameter == cell_diameter
                &&& forall|i: int|
                    0 <= i < g.cells@.len() ==> #[trigger] g.cells@[i].cost == (if blocked@[i] {
                        255u8
                    } else {
                        1u8
                    })
            }),
    {
        let mut g = match Grid::new(size, cell_diameter) {
            Result::Ok(g) => g,
            Result::Err(e) => {
                return Err(e);
            },
        };
        let ghost g0 = g;
        let ghost sx = size.x as int;
        let ghost sy = size.y as int;
        let mut y: usize = 0;
        while y < size.y
            invariant
                g0.wf(),
                g0.size == size,
                g0.cell_diameter == cell_diameter,
                forall|i: int| 0 <= i < g0.cells@.len() ==> #[trigger] g0.cells@[i].cost == 1,
                sx == size.x as int,
                sy == size.y as int,
                blocked@.len() == sx * sy,
                y <= size.y,
                g.wf(),
                g.size == size,
                g.cell_diameter == cell_diameter,
                g.cell_radius == g0.cell_radius,
                g.cells@.len() == g0.cells@.len(),
                forall|x2: int, y2: int|
                    0 <= x2 < sx && 0 <= y2 < sy ==> g.cells@[#[trigger] flat_index(sx, x2, y2)]
                        == (if y2 < y && blocked@[flat_index(sx, x2, y2)] {
                        with_cost(g0.cells@[flat_index(sx, x2, y2)], 255)
                    } else {
                        g0.cells@[flat_index(sx, x2, y2)]
                    }),
            decreases size.y - y,
        {
            let mut x: usize = 0;
            while x < size.x
                invariant
                    g0.wf(),
                    g0.size == size,
                    g0.cell_diameter == cell_diameter,
                    forall|i: int| 0 <= i < g0.cells@.len() ==> #[trigger] g0.cells@[i].cost == 1,
                    sx == size.x as int,
                    sy == size.y as int,
                    blocked@.len() == sx * sy,
                    y < size.y,
                    x <= size.x,
                    g.wf(),
                    g.size == size,
                    g.cell_diameter == cell_diameter,
                    g.cell_radius == g0.cell_radius,
                    g.cells@.len() == g0.cells@.len(),
                    forall|x2: int, y2: int|
                        0 <= x2 < sx && 0 <= y2 < sy ==> g.cells@[#[trigger] flat_index(
                            sx,
                            x2,
                            y2,
                        )] == (if (y2 < y || (y2 == y && x2 < x)) && blocked@[flat_index(
                            sx,
                            x2,
                            y2,
                        )] {
                            with_cost(g0.cells@[flat_index(sx, x2, y2)], 255)
                        } else {
                            g0.cells@[flat_index(sx, x2, y2)]
                        }),
                decreases size.x - x,
            {
                proof {
                    lemma_flat_index_bounds(sx, sy, x as int, y as int);
                }
                let i = flat_index_exec(size.x, x, y);
                let ghost prev = g;
                if blocked[i] {
                    g.update_cell_cost_helper(GridIdx::new(x, y));
                }
                proof {
                    assert forall|x2: int, y2: int|
                        0 <= x2 < sx && 0 <= y2 < sy implies g.cells@[#[trigger] flat_index(
                        sx,
                        x2,
                        y2,
                    )] == (if (y2 < y || (y2 == y && x2 <= x)) && blocked@[flat_index(sx, x2, y2)] {
                        with_cost(g0.cells@[flat_index(sx, x2, y2)], 255)
                    } else {
                        g0.cells@[flat_index(sx, x2, y2)]
                    }) by {
                        lemma_flat_index_bounds(sx, sy, x2, y2);
                        if x2 == x as int && y2 == y as int {
                        } else {
                            if flat_index(sx, x2, y2) == i as int {
                                lemma_flat_index_injective(sx, x2, y2, x as int, y as int);
                            }
                            assert(g.cells@[flat_index(sx, x2, y2)] == prev.cells@[flat_index(
                                sx,
                                x2,
                                y2,
                            )]);
                        }
                    }
                }
                x = x + 1;
            }
            y = y + 1;
        }
        proof {
            assert forall|i: int|
                0 <= i < g.cells@.len() implies #[trigger] g.cells@[i].cost == (if blocked@[i] {
                255u8
            } else {
                1u8
            }) by {
                lemma_rect_index_decompose(i, sx, sy);
                let x2 = i % sx;
                let y2 = i / sx;
                lemma_mul_is_commutative(y2, sx);
                assert(flat_index(sx, x2, y2) == i);
                assert(g.cells@[flat_index(sx, x2, y2)] == (if blocked@[i] {
                    with_cost(g0.cells@[flat_index(sx, x2, y2)], 255)
                } else {
                    g0.cells@[flat_index(sx, x2, y2)]
                }));
            }
        }
        Ok(g)
    }

    /// Locate the cell a world position falls in. Positions outside the
    /// grid's physical extent clamp to the nearest edge cell, so the result
    /// is always a valid in-bounds cell — destination picking and obstacle
    /// footprints must never receive an out-of-range index.
    pub fn get_cell_from_world_position(&self, world_pos: WorldPos) -> (c: Cell)
        requires
            self.wf(),
        ensures
            0 <= locate_x(world_pos, self.size, self.cell_diameter) < self.size.x,
            0 <= locate_y(world_pos, self.size, self.cell_diameter) < self.size.y,
            c == self.cells@[flat_index(
                self.size.x as int,
                locate_x(world_pos, self.size, self.cell_diameter),
                locate_y(world_pos, self.size, self.cell_diameter),
            )],
            c.grid_idx.x as int == locate_x(world_pos, self.size, self.cell_diameter),
            c.grid_idx.y as int == locate_y(world_pos, self.size, self.cell_diameter),
    {
        let c = get_cell_from_world_position_helper(
            world_pos,
            self.size,
            self.cell_diameter,
            &self.cells,
        );
        proof {
            let ix = locate_x(world_pos, self.size, self.cell_diameter);
            let iy = locate_y(world_pos, self.size, self.cell_diameter);
            assert(cell_placed(self.cells@, self.size, self.cell_diameter, ix, iy));
        }
        c
    }

    /// Resolve an object's footprint: map the min and max corners of its
    /// world-space bounding box through the clamping world-to-index
    /// mapping, and list the inclusive index rectangle between them in
    /// row-major order. The same footprint marks cost up when the object
    /// appears and resets it when the object leaves.
    pub fn footprint(&self, translation: WorldPos, obj_size: ObjSize) -> (fp: Vec<GridIdx>)
        requires
            self.wf(),
            0 <= obj_size.x <= MAX_OBJ_EXTENT,
            0 <= obj_size.z <= MAX_OBJ_EXTENT,
        ensures
            0 <= obj_x0(self.size, self.cell_diameter, translation, obj_size),
            obj_x0(self.size, self.cell_diameter, translation, obj_size) <= obj_x1(
                self.size,
                self.cell_diameter,
                translation,
                obj_size,
            ) < self.size.x,
            0 <= obj_y0(self.size, self.cell_diameter, translation, obj_size),
            obj_y0(self.size, self.cell_diameter, translation, obj_size) <= obj_y1(
                self.size,
                self.cell_diameter,
                translation,
                obj_size,
            ) < self.size.y,
            fp@.len() == obj_w(self.size, self.cell_diameter, translation, obj_size) * obj_h(
                self.size,
                self.cell_diameter,
                translation,
                obj_size,
            ),
            forall|j: int|
                0 <= j < fp@.len() ==> (#[trigger] fp@[j]).x as int == obj_x0(
                    self.size,
                    self.cell_diameter,
                    translation,
                    obj_size,
                ) + j % obj_w(self.size, self.cell_diameter, translation, obj_size)
                    && fp@[j].y as int == obj_y0(self.size, self.cell_diameter, translation, obj_size)
                    + j / obj_w(self.size, self.cell_diameter, translation, obj_size),
    {
        let ghost size = self.size;
        let ghost d = self.cell_diameter;
        let hx: i64 = ((obj_size.x as u64) / 2) as i64;
        let hz: i64 = ((obj_size.z as u64) / 2) as i64;
        let x0 = locate_axis_exec(
            (translation.x as i128) - (hx as i128),
            self.size.x,
            self.cell_diameter,
        );
        let x1 = locate_axis_exec(
            (translation.x as i128) + (hx as i128),
            self.size.x,
            self.cell_diameter,
        );
        let y0 = locate_axis_exec(
            (translation.z as i128) - (hz as i128),
            self.size.y,
            self.cell_diameter,
        );
        let y1 = locate_axis_exec(
            (translation.z as i128) + (hz as i128),
            self.size.y,
            self.cell_diameter,
        );
        proof {
            lemma_locate_axis_monotone(
                translation.x as int - obj_size.x as int / 2,
                translation.x as int + obj_size.x as int / 2,
                size.x as int,
                d as int,
            );
            lemma_locate_axis_monotone(
                translation.z as int - obj_size.z as int / 2,
                translation.z as int + obj_size.z as int / 2,
                size.y as int,
                d as int,
            );
        }
        let w = x1 - x0 + 1;
        let ghost ww = obj_w(size, d, translation, obj_size);
        let mut fp: Vec<GridIdx> = Vec::new();
        let mut yy = y0;
        while yy <= y1
            invariant
                x0 == obj_x0(size, d, translation, obj_size),
                x1 == obj_x1(size, d, translation, obj_size),
                y0 == obj_y0(size, d, translation, obj_size),
                y1 == obj_y1(size, d, translation, obj_size),
                x0 <= x1 < size.x <= MAX_GRID_DIM,
                y0 <= y1 < size.y <= MAX_GRID_DIM,
                y0 <= yy <= y1 + 1,
                w == ww == x1 - x0 + 1,
                fp@.len() == (yy - y0) * ww,
                forall|j: int|
                    0 <= j < fp@.len() ==> (#[trigger] fp@[j]).x as int == x0 + j % ww
                        && fp@[j].y as int == y0 + j / ww,
            decreases y1 + 1 - yy,
        {
            let mut xx = x0;
            while xx <= x1
                invariant
                    x0 <= x1 < size.x <= MAX_GRID_DIM,
                    y0 <= yy <= y1 < size.y <= MAX_GRID_DIM,
                    x0 <= xx <= x1 + 1,
                    w == ww == x1 - x0 + 1,
                    fp@.len() == (yy - y0) * ww + (xx - x0),
                    forall|j: int|
                        0 <= j < fp@.len() ==> (#[trigger] fp@[j]).x as int == x0 + j % ww
                            && fp@[j].y as int == y0 + j / ww,
                decreases x1 + 1 - xx,
            {
                let ghost j = fp@.len() as int;
                fp.push(GridIdx::new(xx, yy));
                proof {
                    lemma_mul_nonnegative(yy as int - y0 as int, ww);
                    lemma_fundamental_div_mod_converse_div(j, ww, yy as int - y0 as int, xx as int - x0 as int);
                    lemma_fundamental_div_mod_converse_mod(j, ww, yy as int - y0 as int, xx as int - x0 as int);
                }
                xx = xx + 1;
            }
            proof {
                assert((yy + 1 - y0) * ww == (yy - y0) * ww + ww) by (nonlinear_arith);
            }
            yy = yy + 1;
        }
        proof {
            assert((y1 + 1 - y0) * ww == ww * (y1 + 1 - y0)) by (nonlinear_arith);
        }
        fp
    }

    /// Apply one target cost to every cell of an object's footprint and
    /// report the fresh state of each affected cell, in footprint order.
    /// Raising marks the cells impassable; resetting returns them to the
    /// passable baseline.
    fn apply_cost_to_obj(&mut self, translation: WorldPos, obj_size: ObjSize, raise: bool) -> (changed:
        Vec<Cell>)
        requires
            old(self).wf(),
            0 <= obj_size.x <= MAX_OBJ_EXTENT,
            0 <= obj_size.z <= MAX_OBJ_EXTENT,
        ensures
            final(self).wf(),
            final(self).size == old(self).size,
            final(self).cell_diameter == old(self).cell_diameter,
            final(self).cell_radius == old(self).cell_radius,
            final(self).cells@.len() == old(self).cells@.len(),
            forall|x: int, y: int|
                0 <= x < old(self).size.x && 0 <= y < old(self).size.y
                    ==> final(self).cells@[flat_index(old(self).size.x as int, x, y)] == (if in_obj_rect(
                    old(self).size,
                    old(self).cell_diameter,
                    translation,
                    obj_size,
                    x,
                    y,
                ) {
                    with_cost(
                        old(self).cells@[flat_index(old(self).size.x as int, x, y)],
                        if raise {
                            255
                        } else {
                            1
                        },
                    )
                } else {
                    old(self).cells@[flat_index(old(self).size.x as int, x, y)]
                }),
            changed@.len() == obj_w(old(self).size, old(self).cell_diameter, translation, obj_size)
                * obj_h(old(self).size, old(self).cell_diameter, translation, obj_size),
            forall|j: int|
                0 <= j < changed@.len() ==> #[trigger] changed@[j] == with_cost(
                    old(self).cells@[flat_index(
                        old(self).size.x as int,
                        obj_x0(old(self).size, old(self).cell_diameter, translation, obj_size) + j
                            % obj_w(old(self).size, old(self).cell_diameter, translation, obj_size),
                        obj_y0(old(self).size, old(self).cell_diameter, translation, obj_size) + j
                            / obj_w(old(self).size, old(self).cell_diameter, translation, obj_size),
                    )],
                    if raise {
                        255
                    } else {
                        1
                    },
                ),
    {
        let fp = self.footprint(translation, obj_size);
        let ghost g0 = *self;
        let ghost sx = g0.size.x as int;
        let ghost sy = g0.size.y as int;
        let ghost d = g0.cell_diameter;
        let ghost x0 = obj_x0(g0.size, d, translation, obj_size);
        let ghost y0 = obj_y0(g0.size, d, translation, obj_size);
        let ghost ww = obj_w(g0.size, d, translation, obj_size);
        let ghost hh = obj_h(g0.size, d, translation, obj_size);
        let ghost cv: u8 = if raise {
            255
        } else {
            1
        };
        let mut changed: Vec<Cell> = Vec::new();
        let mut k: usize = 0;
        while k < fp.len()
            invariant
                g0.wf(),
                0 <= obj_size.x <= MAX_OBJ_EXTENT,
                0 <= obj_size.z <= MAX_OBJ_EXTENT,
                sx == g0.size.x as int,
                sy == g0.size.y as int,
                d == g0.cell_diameter,
                x0 == obj_x0(g0.size, d, translation, obj_size),
                y0 == obj_y0(g0.size, d, translation, obj_size),
                ww == obj_w(g0.size, d, translation, obj_size),
                hh == obj_h(g0.size, d, translation, obj_size),
                0 <= x0,
                x0 + ww - 1 < sx,
                0 <= y0,
                y0 + hh - 1 < sy,
                1 <= ww,
                1 <= hh,
                cv == (if raise {
                    255u8
                } else {
                    1u8
                }),
                fp@.len() == ww * hh,
                forall|j: int|
                    0 <= j < fp@.len() ==> (#[trigger] fp@[j]).x as int == x0 + j % ww
                        && fp@[j].y as int == y0 + j / ww,
                k <= fp@.len(),
                self.wf(),
                self.size == g0.size,
                self.cell_diameter == g0.cell_diameter,
                self.cell_radius == g0.cell_radius,
                self.cells@.len() == g0.cells@.len(),
                forall|x: int, y: int|
                    0 <= x < sx && 0 <= y < sy ==> self.cells@[#[trigger] flat_index(sx, x, y)] == (if in_obj_rect(
                        g0.size,
                        d,
                        translation,
                        obj_size,
                        x,
                        y,
                    ) && rect_pos(g0.size, d, translation, obj_size, x, y) < k {
                        with_cost(g0.cells@[flat_index(sx, x, y)], cv)
                    } else {
                        g0.cells@[flat_index(sx, x, y)]
                    }),
                changed@.len() == k,
                forall|j: int|
                    0 <= j < k ==> #[trigger] changed@[j] == with_cost(
                        g0.cells@[flat_index(sx, x0 + j % ww, y0 + j / ww)],
                        cv,
                    ),
            decreases fp@.len() - k,
        {
            let idx = fp[k];
            let ghost j = k as int;
            let ghost gx = x0 + j % ww;
            let ghost gy = y0 + j / ww;
            proof {
                lemma_rect_index_decompose(j, ww, hh);
                lemma_rect_pos_unique(j % ww, j / ww, ww, j);
                assert(idx.x as int == gx && idx.y as int == gy);
                lemma_flat_index_bounds(sx, sy, gx, gy);
            }
            let ghost prev = *self;
            if raise {
                self.update_cell_cost_helper(idx);
            } else {
                self.reset_cell_cost_helper(idx);
            }
            let i = flat_index_exec(self.size.x, idx.x, idx.y);
            changed.push(self.cells[i]);
            proof {
                // The cell just written held its original value, because its
                // own footprint position is exactly `k`.
                assert(rect_pos(g0.size, d, translation, obj_size, gx, gy) == j);
                assert(prev.cells@[flat_index(sx, gx, gy)] == g0.cells@[flat_index(sx, gx, gy)]);
                assert forall|x: int, y: int|
                    0 <= x < sx && 0 <= y < sy implies self.cells@[#[trigger] flat_index(sx, x, y)] == (if in_obj_rect(
                    g0.size,
                    d,
                    translation,
                    obj_size,
                    x,
                    y,
                ) && rect_pos(g0.size, d, translation, obj_size, x, y) < k + 1 {
                    with_cost(g0.cells@[flat_index(sx, x, y)], cv)
                } else {
                    g0.cells@[flat_index(sx, x, y)]
                }) by {
                    lemma_flat_index_bounds(sx, sy, x, y);
                    if x == gx && y == gy {
                        assert(self.cells@[flat_index(sx, x, y)] == with_cost(
                            g0.cells@[flat_index(sx, x, y)],
                            cv,
                        ));
                    } else {
                        if flat_index(sx, x, y) == flat_index(sx, gx, gy) {
                            lemma_flat_index_injective(sx, x, y, gx, gy);
                        }
                        assert(self.cells@[flat_index(sx, x, y)] == prev.cells@[flat_index(
                            sx,
                            x,
                            y,
                        )]);
                        if in_obj_rect(g0.size, d, translation, obj_size, x, y) && rect_pos(
                            g0.size,
                            d,
                            translation,
                            obj_size,
                            x,
                            y,
                        ) == j {
                            lemma_rect_pos_unique(x - x0, y - y0, ww, j);
                            assert(false);
                        }
                    }
                }
            }
            k = k + 1;
        }
        proof {
            assert forall|x: int, y: int|
                0 <= x < sx && 0 <= y < sy && in_obj_rect(
                    g0.size,
                    d,
                    translation,
                    obj_size,
                    x,
                    y,
                ) implies rect_pos(g0.size, d, translation, obj_size, x, y) < ww * hh by {
                lemma_mul_inequality(y - y0, hh - 1, ww);
                assert((hh - 1) * ww + ww == hh * ww) by (nonlinear_arith);
                assert(hh * ww == ww * hh) by (nonlinear_arith);
            }
            assert forall|x: int, y: int|
                0 <= x < sx && 0 <= y < sy && in_obj_rect(
                    g0.size,
                    d,
                    translation,
                    obj_size,
                    x,
                    y,
                ) implies 0 <= rect_pos(g0.size, d, translation, obj_size, x, y) by {
                lemma_mul_nonnegative(y - y0, ww);
            }
        }
        changed
    }

    /// Raise every cell of the object's footprint to the impassable cost,
    /// returning the fresh state of each affected cell in footprint order —
    /// the observable change event the maintenance protocol hands to
    /// consumers.
    pub fn update_cell_costs(&mut self, translation: WorldPos, obj_size: ObjSize) -> (changed:
        Vec<Cell>)
        requires
            old(self).wf(),
            0 <= obj_size.x <= MAX_OBJ_EXTENT,
            0 <= obj_size.z <= MAX_OBJ_EXTENT,
        ensures
            final(self).wf(),
            final(self).size == old(self).size,
            final(self).cell_diameter == old(self).cell_diameter,
            final(self).cell_radius == old(self).cell_radius,
            final(self).cells@.len() == old(self).cells@.len(),
            forall|x: int, y: int|
                0 <= x < old(self).size.x && 0 <= y < old(self).size.y
                    ==> final(self).cells@[flat_index(old(self).size.x as int, x, y)] == (if in_obj_rect(
                    old(self).size,
                    old(self).cell_diameter,
                    translation,
                    obj_size,
                    x,
                    y,
                ) {
                    with_cost(old(self).cells@[flat_index(old(self).size.x as int, x, y)], 255)
                } else {
                    old(self).cells@[flat_index(old(self).size.x as int, x, y)]
                }),
            changed@.len() == obj_w(old(self).size, old(self).cell_diameter, translation, obj_size)
                * obj_h(old(self).size, old(self).cell_diameter, translation, obj_size),
            forall|j: int|
                0 <= j < changed@.len() ==> #[trigger] changed@[j] == with_cost(
                    old(self).cells@[flat_index(
                        old(self).size.x as int,
                        obj_x0(old(self).size, old(self).cell_diameter, translation, obj_size) + j
                            % obj_w(old(self).size, old(self).cell_diameter, translation, obj_size),
                        obj_y0(old(self).size, old(self).cell_diameter, translation, obj_size) + j
                            / obj_w(old(self).size, old(self).cell_diameter, translation, obj_size),
                    )],
                    255,
                ),
    {
        self.apply_cost_to_obj(translation, obj_size, true)
    }

    /// Reset every cell of the object's footprint to the baseline cost of
    /// 1, returning the fresh state of each affected cell in footprint
    /// order. Resolving the footprint from the object's last known
    /// transform undoes the raise applied when it appeared.
    ///
    /// Known limitation: resetting hardcodes the baseline of 1, which
    /// discards any non-uniform terrain cost (mud, snow) the cell carried
    /// before the object covered it. Restoring that would take a per-cell
    /// base terrain cost kept separately from the dynamic occupancy cost.
    pub fn reset_cell_costs(&mut self, translation: WorldPos, obj_size: ObjSize) -> (changed:
        Vec<Cell>)
        requires
            old(self).wf(),
            0 <= obj_size.x <= MAX_OBJ_EXTENT,
            0 <= obj_size.z <= MAX_OBJ_EXTENT,
        ensures
            final(self).wf(),
            final(self).size == old(self).size,
            final(self).cell_diameter == old(self).cell_diameter,
            final(self).cell_radius == old(self).cell_radius,
            final(self).cells@.len() == old(self).cells@.len(),
            forall|x: int, y: int|
                0 <= x < old(self).size.x && 0 <= y < old(self).size.y
                    ==> final(self).cells@[flat_index(old(self).size.x as int, x, y)] == (if in_obj_rect(
                    old(self).size,
                    old(self).cell_diameter,
                    translation,
                    obj_size,
                    x,
                    y,
                ) {
                    with_cost(old(self).cells@[flat_index(old(self).size.x as int, x, y)], 1)
                } else {
                    old(self).cells@[flat_index(old(self).size.x as int, x, y)]
                }),
            changed@.len() == obj_w(old(self).size, old(self).cell_diameter, translation, obj_size)
                * obj_h(old(self).size, old(self).cell_diameter, translation, obj_size),
            forall|j: int|
                0 <= j < changed@.len() ==> #[trigger] changed@[j] == with_cost(
                    old(self).cells@[flat_index(
                        old(self).size.x as int,
                        obj_x0(old(self).size, old(self).cell_diameter, translation, obj_size) + j
                            % obj_w(old(self).size, old(self).cell_diameter, translation, obj_size),
                        obj_y0(old(self).size, old(self).cell_diameter, translation, obj_size) + j
                            / obj_w(old(self).size, old(self).cell_diameter, translation, obj_size),
                    )],
                    1,
                ),
    {
        self.apply_cost_to_obj(translation, obj_size, false)
    }

    /// Mark one cell impassable through the saturating raise, so that
    /// incremental raises compose with whatever cost the cell already held.
    fn update_cell_cost_helper(&mut self, idx: GridIdx)
        requires
            old(self).wf(),
            idx.x < old(self).size.x,
            idx.y < old(self).size.y,
        ensures
            final(self).wf(),
            final(self).size == old(self).size,
            final(self).cell_diameter == old(self).cell_diameter,
            final(self).cell_radius == old(self).cell_radius,
            final(self).cells@ == old(self).cells@.update(
                flat_index(old(self).size.x as int, idx.x as int, idx.y as int),
                with_cost(
                    old(self).cells@[flat_index(old(self).size.x as int, idx.x as int, idx.y as int)],
                    255,
                ),
            ),
    {
        proof {
            lemma_flat_index_bounds(
                self.size.x as int,
                self.size.y as int,
                idx.x as int,
                idx.y as int,
            );
            assert(cell_placed(self.cells@, self.size, self.cell_diameter, idx.x as int, idx.y as int));
        }
        let i = flat_index_exec(self.size.x, idx.x, idx.y);
        let mut c = self.cells[i];
        c.increase_cost(u8::MAX);
        self.cells.set(i, c);
        proof {
            self.lemma_wf_after_cell_update(*old(self), idx, i as int);
        }
    }

    /// Reset one cell back to the passable baseline cost of 1.
    fn reset_cell_cost_helper(&mut self, idx: GridIdx)
        requires
            old(self).wf(),
            idx.x < old(self).size.x,
            idx.y < old(self).size.y,
        ensures
            final(self).wf(),
            final(self).size == old(self).size,
            final(self).cell_diameter == old(self).cell_diameter,
            final(self).cell_radius == old(self).cell_radius,
            final(self).cells@ == old(self).cells@.update(
                flat_index(old(self).size.x as int, idx.x as int, idx.y as int),
                with_cost(
                    old(self).cells@[flat_index(old(self).size.x as int, idx.x as int, idx.y as int)],
                    1,
                ),
            ),
    {
        proof {
            lemma_flat_index_bounds(
                self.size.x as int,
                self.size.y as int,
                idx.x as int,
                idx.y as int,
            );
        }
        let i = flat_index_exec(self.size.x, idx.x, idx.y);
        let mut c = self.cells[i];
        c.cost = 1;
        self.cells.set(i, c);
        proof {
            self.lemma_wf_after_cell_update(*old(self), idx, i as int);
        }
    }

    /// Replacing one cell's cost by a positive value keeps the grid well
    /// formed: every other cell is untouched, and the replaced cell keeps
    /// its index, position and sentinels.
    proof fn lemma_wf_after_cell_update(&self, prev: Grid, idx: GridIdx, i: int)
        requires
            prev.wf(),
            idx.x < prev.size.x,
            idx.y < prev.size.y,
            i == flat_index(prev.size.x as int, idx.x as int, idx.y as int),
            self.size == prev.size,
            self.cell_diameter == prev.cell_diameter,
            self.cell_radius == prev.cell_radius,
            0 <= i < prev.cells@.len(),
            self.cells@ =~= prev.cells@.update(i, self.cells@[i]),
            1 <= self.cells@[i].cost,
            self.cells@[i] == with_cost(prev.cells@[i], self.cells@[i].cost),
        ensures
            self.wf(),
    {
        assert forall|x2: int, y2: int|
            0 <= x2 < self.size.x && 0 <= y2 < self.size.y implies cell_placed(
            self.cells@,
            self.size,
            self.cell_diameter,
            x2,
            y2,
        ) by {
            lemma_flat_index_bounds(self.size.x as int, self.size.y as int, x2, y2);
            assert(cell_placed(prev.cells@, prev.size, prev.cell_diameter, x2, y2));
            if flat_index(self.size.x as int, x2, y2) != i {
                assert(self.cells@[flat_index(self.size.x as int, x2, y2)] == prev.cells@[flat_index(
                    self.size.x as int,
                    x2,
                    y2,
                )]);
            }
        }
    }
}

/// What the cost-maintenance protocol reads of one blocking object: the
/// translation of its world transform and the full extents of its bounding
/// box. A host whose objects carry richer transforms flattens them to this
/// on its side of the boundary.
#[derive(Clone, Copy, PartialEq, Eq, Structural, Debug)]
pub struct ObjState {
    pub translation: WorldPos,
    pub size: ObjSize,
}

/// An object the maintenance protocol can act on: extents nonnegative and
/// within machine bounds.
pub open spec fn obj_ok(o: ObjState) -> bool {
    &&& 0 <= o.size.x <= MAX_OBJ_EXTENT
    &&& 0 <= o.size.z <= MAX_OBJ_EXTENT
}

/// Whether cell `(x, y)` lies in the footprint of one of the first `n`
/// objects of the batch.
pub open spec fn covered_prefix(
    objs: Seq<ObjState>,
    n: int,
    size: GridIdx,
    d: i64,
    x: int,
    y: int,
) -> bool {
    exists|k: int|
        0 <= k < n && in_obj_rect(size, d, (#[trigger] objs[k]).translation, objs[k].size, x, y)
}

/// Whether cell `(x, y)` lies in the footprint of any object of the batch.
pub open spec fn covered_by_any(objs: Seq<ObjState>, size: GridIdx, d: i64, x: int, y: int) -> bool {
    covered_prefix(objs, objs.len() as int, size, d, x, y)
}

/// The event describes a cell the batch really covers, with the state that
/// cell has after the whole batch was applied: its original value from `g0`
/// with the cost raised to impassable.
pub open spec fn event_fresh(ev: UpdateCostEv, g0: Grid, objs: Seq<ObjState>) -> bool {
    let x = ev.cell.grid_idx.x as int;
    let y = ev.cell.grid_idx.y as int;
    &&& 0 <= x < g0.size.x
    &&& 0 <= y < g0.size.y
    &&& covered_by_any(objs, g0.size, g0.cell_diameter, x, y)
    &&& ev.cell == with_cost(g0.cells@[flat_index(g0.size.x as int, x, y)], 255)
}

/// Some event of the batch reports cell `(x, y)`.
pub open spec fn has_event(es: Seq<UpdateCostEv>, x: int, y: int) -> bool {
    exists|j: int|
        0 <= j < es.len() && (#[trigger] es[j]).cell.grid_idx.x == x && es[j].cell.grid_idx.y == y
}

/// Build the cost field from the blocking objects present at world
/// initialization: raise every cell each object's footprint covers to the
/// impassable cost. Afterwards a cell is impassable exactly when some
/// object of the batch covers it; every uncovered cell is untouched.
pub fn initialize_costfield(grid: &mut Grid, objects: &Vec<ObjState>)
    requires
        old(grid).wf(),
        forall|k: int| 0 <= k < objects@.len() ==> obj_ok(#[trigger] objects@[k]),
    ensures
        final(grid).wf(),
        final(grid).size == old(grid).size,
        final(grid).cell_diameter == old(grid).cell_diameter,
        final(grid).cell_radius == old(grid).cell_radius,
        final(grid).cells@.len() == old(grid).cells@.len(),
        forall|x: int, y: int|
            0 <= x < old(grid).size.x && 0 <= y < old(grid).size.y
                ==> final(grid).cells@[#[trigger] flat_index(old(grid).size.x as int, x, y)] == (
            if covered_by_any(objects@, old(grid).size, old(grid).cell_diameter, x, y) {
                with_cost(old(grid).cells@[flat_index(old(grid).size.x as int, x, y)], 255)
            } else {
                old(grid).cells@[flat_index(old(grid).size.x as int, x, y)]
            }),
{
    let ghost g0 = *grid;
    let ghost sx = g0.size.x as int;
    let ghost sy = g0.size.y as int;
    let ghost d = g0.cell_diameter;
    let mut n: usize = 0;
    while n < objects.len()
        invariant
            g0.wf(),
            forall|k: int| 0 <= k < objects@.len() ==> obj_ok(#[trigger] objects@[k]),
            sx == g0.size.x as int,
            sy == g0.size.y as int,
            d == g0.cell_diameter,
            n <= objects@.len(),
            grid.wf(),
            grid.size == g0.size,
            grid.cell_diameter == g0.cell_diameter,
            grid.cell_radius == g0.cell_radius,
            grid.cells@.len() == g0.cells@.len(),
            forall|x: int, y: int|
                0 <= x < sx && 0 <= y < sy ==> grid.cells@[#[trigger] flat_index(sx, x, y)] == (
                if covered_prefix(objects@, n as int, g0.size, d, x, y) {
                    with_cost(g0.cells@[flat_index(sx, x, y)], 255)
                } else {
                    g0.cells@[flat_index(sx, x, y)]
                }),
        decreases objects@.len() - n,
    {
        let ghost prev = *grid;
        let o = objects[n];
        let _changed = grid.update_cell_costs(o.translation, o.size);
        proof {
            assert forall|x: int, y: int|
                0 <= x < sx && 0 <= y < sy implies grid.cells@[#[trigger] flat_index(sx, x, y)]
                == (if covered_prefix(objects@, n + 1, g0.size, d, x, y) {
                with_cost(g0.cells@[flat_index(sx, x, y)], 255)
            } else {
                g0.cells@[flat_index(sx, x, y)]
            }) by {
                if in_obj_rect(g0.size, d, objects@[n as int].translation, objects@[n as int].size, x, y) {
                    assert(covered_prefix(objects@, n + 1, g0.size, d, x, y));
                } else {
                    if covered_prefix(objects@, n + 1, g0.size, d, x, y) {
                        let k = choose|k: int|
                            0 <= k < n + 1 && in_obj_rect(
                                g0.size,
                                d,
                                (#[trigger] objects@[k]).translation,
                                objects@[k].size,
                                x,
                                y,
                            );
                        assert(k < n + 1);
                        if k < n {
                            assert(covered_prefix(objects@, n as int, g0.size, d, x, y));
                        }
                    }
                    if covered_prefix(objects@, n as int, g0.size, d, x, y) {
                        assert(covered_prefix(objects@, n + 1, g0.size, d, x, y));
                    }
                }
            }
        }
        n = n + 1;
    }
}

/// Incremental update when blocking objects appear: raise cost over every
/// footprint, then report one event per covered cell with its fresh state.
/// An empty batch changes nothing and reports nothing; a non-empty batch
/// always produces events, and every covered cell appears in them.
pub fn update_costfield_on_add(grid: &mut Grid, objects: &Vec<ObjState>) -> (evs: Option<
    Vec<UpdateCostEv>,
>)
    requires
        old(grid).wf(),
        forall|k: int| 0 <= k < objects@.len() ==> obj_ok(#[trigger] objects@[k]),
    ensures
        objects@.len() == 0 ==> *final(grid) == *old(grid) && (evs is None),
        objects@.len() > 0 ==> (evs is Some),
        final(grid).wf(),
        final(grid).size == old(grid).size,
        final(grid).cell_diameter == old(grid).cell_diameter,
        final(grid).cell_radius == old(grid).cell_radius,
        final(grid).cells@.len() == old(grid).cells@.len(),
        forall|x: int, y: int|
            0 <= x < old(grid).size.x && 0 <= y < old(grid).size.y
                ==> final(grid).cells@[#[trigger] flat_index(old(grid).size.x as int, x, y)] == (
            if covered_by_any(objects@, old(grid).size, old(grid).cell_diameter, x, y) {
                with_cost(old(grid).cells@[flat_index(old(grid).size.x as int, x, y)], 255)
            } else {
                old(grid).cells@[flat_index(old(grid).size.x as int, x, y)]
            }),
        (evs matches Some(es) ==> forall|j: int|
            0 <= j < es@.len() ==> event_fresh(#[trigger] es@[j], *old(grid), objects@)),
        (evs matches Some(es) ==> forall|x: int, y: int|
            0 <= x < old(grid).size.x && 0 <= y < old(grid).size.y && covered_by_any(
                objects@,
                old(grid).size,
                old(grid).cell_diameter,
                x,
                y,
            ) ==> has_event(es@, x, y)),
{
    if objects.len() == 0 {
        return None;
    }

    let ghost g0 = *grid;
    let ghost sx = g0.size.x as int;
    let ghost sy = g0.size.y as int;
    let ghost d = g0.cell_diameter;

    initialize_costfield(grid, objects);

    let ghost g1 = *grid;
    let mut es: Vec<UpdateCostEv> = Vec::new();
    let mut n: usize = 0;
    while n < objects.len()
        invariant
            g0.wf(),
            forall|k: int| 0 <= k < objects@.len() ==> obj_ok(#[trigger] objects@[k]),
            sx == g0.size.x as int,
            sy == g0.size.y as int,
            d == g0.cell_diameter,
            n <= objects@.len(),
            *grid == g1,
            g1.wf(),
            g1.size == g0.size,
            g1.cell_diameter == g0.cell_diameter,
            g1.cells@.len() == g0.cells@.len(),
            forall|x: int, y: int|
                0 <= x < sx && 0 <= y < sy ==> g1.cells@[#[trigger] flat_index(sx, x, y)] == (
                if covered_by_any(objects@, g0.size, d, x, y) {
                    with_cost(g0.cells@[flat_index(sx, x, y)], 255)
                } else {
                    g0.cells@[flat_index(sx, x, y)]
                }),
            forall|j: int| 0 <= j < es@.len() ==> event_fresh(#[trigger] es@[j], g0, objects@),
            forall|x: int, y: int|
                0 <= x < sx && 0 <= y < sy && covered_prefix(objects@, n as int, g0.size, d, x, y)
                    ==> has_event(es@, x, y),
        decreases objects@.len() - n,
    {
        let o = objects[n];
        let fp = grid.footprint(o.translation, o.size);
        let ghost x0 = obj_x0(g0.size, d, o.translation, o.size);
        let ghost y0 = obj_y0(g0.size, d, o.translation, o.size);
        let ghost ww = obj_w(g0.size, d, o.translation, o.size);
        let ghost hh = obj_h(g0.size, d, o.translation, o.size);
        let ghost start = es@.len() as int;
        let mut i: usize = 0;
        while i < fp.len()
            invariant
                g0.wf(),
                sx == g0.size.x as int,
                sy == g0.size.y as int,
                d == g0.cell_diameter,
                *grid == g1,
                g1.wf(),
                g1.size == g0.size,
                g1.cell_diameter == g0.cell_diameter,
                forall|x: int, y: int|
                    0 <= x < sx && 0 <= y < sy ==> g1.cells@[#[trigger] flat_index(sx, x, y)] == (
                    if covered_by_any(objects@, g0.size, d, x, y) {
                        with_cost(g0.cells@[flat_index(sx, x, y)], 255)
                    } else {
                        g0.cells@[flat_index(sx, x, y)]
                    }),
                n < objects@.len(),
                o == objects@[n as int],
                obj_ok(o),
                x0 == obj_x0(g0.size, d, o.translation, o.size),
                y0 == obj_y0(g0.size, d, o.translation, o.size),
                ww == obj_w(g0.size, d, o.translation, o.size),
                hh == obj_h(g0.size, d, o.translation, o.size),
                0 <= x0,
                x0 + ww - 1 < sx,
                0 <= y0,
                y0 + hh - 1 < sy,
                1 <= ww,
                1 <= hh,
                fp@.len() == ww * hh,
                forall|j: int|
                    0 <= j < fp@.len() ==> (#[trigger] fp@[j]).x as int == x0 + j % ww
                        && fp@[j].y as int == y0 + j / ww,
                i <= fp@.len(),
                es@.len() == start + i,
                0 <= start,
                forall|j: int| 0 <= j < es@.len() ==> event_fresh(#[trigger] es@[j], g0, objects@),
                forall|j: int|
                    start <= j < es@.len() ==> (#[trigger] es@[j]).cell == g1.cells@[flat_index(
                        sx,
                        x0 + (j - start) % ww,
                        y0 + (j - start) / ww,
                    )],
                forall|x: int, y: int|
                    0 <= x < sx && 0 <= y < sy && covered_prefix(objects@, n as int, g0.size, d, x, y)
                        ==> has_event(es@, x, y),
            decreases fp@.len() - i,
        {
            let idx = fp[i];
            proof {
                lemma_rect_index_decompose(i as int, ww, hh);
                lemma_flat_index_bounds(sx, sy, idx.x as int, idx.y as int);
            }
            let ci = flat_index_exec(grid.size.x, idx.x, idx.y);
            let c = grid.cells[ci];
            let ghost prev_es = es@;
            es.push(UpdateCostEv::new(c));
            proof {
                let j = start + i;
                let gx = x0 + (i as int) % ww;
                let gy = y0 + (i as int) / ww;
                assert(covered_prefix(objects@, objects@.len() as int, g0.size, d, gx, gy));
                assert(cell_placed(g1.cells@, g1.size, g1.cell_diameter, gx, gy));
                assert(event_fresh(es@[j], g0, objects@));
                assert forall|x: int, y: int|
                    0 <= x < sx && 0 <= y < sy && covered_prefix(
                        objects@,
                        n as int,
                        g0.size,
                        d,
                        x,
                        y,
                    ) implies has_event(es@, x, y) by {
                    assert(has_event(prev_es, x, y));
                    let jj = choose|jj: int|
                        0 <= jj < prev_es.len() && (#[trigger] prev_es[jj]).cell.grid_idx.x == x
                            && prev_es[jj].cell.grid_idx.y == y;
                    assert(es@[jj] == prev_es[jj]);
                }
            }
            i = i + 1;
        }
        proof {
            assert forall|x: int, y: int|
                0 <= x < sx && 0 <= y < sy && covered_prefix(
                    objects@,
                    n + 1,
                    g0.size,
                    d,
                    x,
                    y,
                ) implies has_event(es@, x, y) by {
                if covered_prefix(objects@, n as int, g0.size, d, x, y) {
                    // an event existed before this object's pass, and pushes
                    // keep earlier entries in place
                } else {
                    let k = choose|k: int|
                        0 <= k < n + 1 && in_obj_rect(
                            g0.size,
                            d,
                            (#[trigger] objects@[k]).translation,
                            objects@[k].size,
                            x,
                            y,
                        );
                    if k < n {
                        assert(covered_prefix(objects@, n as int, g0.size, d, x, y));
                    }
                    assert(in_obj_rect(g0.size, d, o.translation, o.size, x, y));
                    let p = rect_pos(g0.size, d, o.translation, o.size, x, y);
                    lemma_mul_nonnegative(y - y0, ww);
                    lemma_mul_inequality(y - y0, hh - 1, ww);
                    assert((hh - 1) * ww + ww == hh * ww) by (nonlinear_arith);
                    assert(hh * ww == ww * hh) by (nonlinear_arith);
                    assert(0 <= p < ww * hh);
                    lemma_rect_pos_unique(x - x0, y - y0, ww, p);
                    lemma_flat_index_bounds(sx, sy, x, y);
                    assert(cell_placed(g1.cells@, g1.size, g1.cell_diameter, x, y));
                    assert(0 <= start + p < es@.len());
                    assert(es@[start + p].cell == g1.cells@[flat_index(sx, x, y)]);
                    assert(es@[start + p].cell.grid_idx.x == x);
                    assert(es@[start + p].cell.grid_idx.y == y);
                    assert(has_event(es@, x, y));
                }
            }
        }
        n = n + 1;
    }
    proof {
        assert forall|x: int, y: int|
            0 <= x < sx && 0 <= y < sy && covered_by_any(
                objects@,
                g0.size,
                d,
                x,
                y,
            ) implies has_event(es@, x, y) by {
            assert(covered_prefix(objects@, objects@.len() as int, g0.size, d, x, y));
        }
    }
    Some(es)
}

/// Incremental update when a blocking object leaves: resolve the footprint
/// from its last known transform, reset every covered cell to the baseline
/// cost, and report one event per covered cell with its fresh state. An
/// object whose transform could not be resolved is skipped — the grid is
/// untouched and nothing is reported, but the caller's batch goes on.
pub fn update_costfield_on_remove(grid: &mut Grid, obj: Option<ObjState>) -> (evs: Option<
    Vec<UpdateCostEv>,
>)
    requires
        old(grid).wf(),
        obj matches Some(o) ==> obj_ok(o),
    ensures
        (obj is None) ==> *final(grid) == *old(grid) && (evs is None),
        final(grid).wf(),
        final(grid).size == old(grid).size,
        final(grid).cell_diameter == old(grid).cell_diameter,
        final(grid).cell_radius == old(grid).cell_radius,
        final(grid).cells@.len() == old(grid).cells@.len(),
        (obj matches Some(o) ==> forall|x: int, y: int|
            0 <= x < old(grid).size.x && 0 <= y < old(grid).size.y
                ==> final(grid).cells@[#[trigger] flat_index(old(grid).size.x as int, x, y)] == (
            if in_obj_rect(old(grid).size, old(grid).cell_diameter, o.translation, o.size, x, y) {
                with_cost(old(grid).cells@[flat_index(old(grid).size.x as int, x, y)], 1)
            } else {
                old(grid).cells@[flat_index(old(grid).size.x as int, x, y)]
            })),
        (obj matches Some(o) ==> (evs matches Some(es) && es@.len() == obj_w(
            old(grid).size,
            old(grid).cell_diameter,
            o.translation,
            o.size,
        ) * obj_h(old(grid).size, old(grid).cell_diameter, o.translation, o.size) && forall|j: int|
            0 <= j < es@.len() ==> (#[trigger] es@[j]).cell == with_cost(
                old(grid).cells@[flat_index(
                    old(grid).size.x as int,
                    obj_x0(old(grid).size, old(grid).cell_diameter, o.translation, o.size) + j % obj_w(
                        old(grid).size,
                        old(grid).cell_diameter,
                        o.translation,
                        o.size,
                    ),
                    obj_y0(old(grid).size, old(grid).cell_diameter, o.translation, o.size) + j / obj_w(
                        old(grid).size,
                        old(grid).cell_diameter,
                        o.translation,
                        o.size,
                    ),
                )],
                1,
            ))),
{
    match obj {
        Option::None => None,
        Option::Some(o) => {
            let changed = grid.reset_cell_costs(o.translation, o.size);
            let mut es: Vec<UpdateCostEv> = Vec::new();
            let mut i: usize = 0;
            while i < changed.len()
                invariant
                    es@.len() == i,
                    i <= changed@.len(),
                    forall|j: int|
                        0 <= j < i ==> (#[trigger] es@[j]).cell == changed@[j],
                decreases changed@.len() - i,
            {
                let c = changed[i];
                es.push(UpdateCostEv::new(c));
                i = i + 1;
            }
            Some(es)
        },
    }
}

/// Round trip of the world-index mapping on a well-formed grid: locating
/// any cell's own world position yields exactly that cell's index, for
/// every grid geometry.
pub proof fn lemma_grid_round_trip(g: Grid, x: int, y: int)
    requires
        g.wf(),
        0 <= x < g.size.x,
        0 <= y < g.size.y,
    ensures
        locate_x(g.cells@[flat_index(g.size.x as int, x, y)].world_position, g.size, g.cell_diameter)
            == x,
        locate_y(g.cells@[flat_index(g.size.x as int, x, y)].world_position, g.size, g.cell_diameter)
            == y,
{
    assert(cell_placed(g.cells@, g.size, g.cell_diameter, x, y));
    lemma_locate_round_trip(x, g.size.x as int, g.cell_diameter as int);
    lemma_locate_round_trip(y, g.size.y as int, g.cell_diameter as int);
}

/// A row-major position within a `w` by `h` rectangle decomposes into a
/// valid row and column offset.
proof fn lemma_rect_index_decompose(j: int, w: int, h: int)
    requires
        1 <= w,
        1 <= h,
        0 <= j < w * h,
    ensures
        0 <= j % w < w,
        0 <= j / w < h,
        j == (j / w) * w + (j % w),
{
    lemma_fundamental_div_mod(j, w);
    lemma_mod_division_less_than_divisor(j, w);
    lemma_div_pos_is_pos(j, w);
    lemma_mul_is_commutative(w, j / w);
    lemma_mul_is_commutative(w, h);
    if j / w >= h {
        lemma_mul_inequality(h, j / w, w);
        assert(false);
    }
}

/// Row and column offsets within a rectangle are recovered uniquely from
/// the row-major position.
proof fn lemma_rect_pos_unique(a: int, b: int, w: int, j: int)
    requires
        0 <= a < w,
        0 <= b,
        j == b * w + a,
    ensures
        j / w == b,
        j % w == a,
{
    lemma_fundamental_div_mod_converse_div(j, w, b, a);
    lemma_fundamental_div_mod_converse_mod(j, w, b, a);
}

/// A cell in a fully built earlier row sits strictly below the current
/// write position of the row-major fill.
proof fn lemma_flat_lt_row(sx: int, x: int, y: int, row: int)
    requires
        0 <= x < sx,
        0 <= y < row,
    ensures
        0 <= flat_index(sx, x, y) < row * sx,
{
    lemma_mul_nonnegative(y, sx);
    assert(y * sx + x < row * sx) by (nonlinear_arith)
        requires
            0 <= x < sx,
            0 <= y < row,
    ;
}

} // verus!
