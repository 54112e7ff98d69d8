use vstd::prelude::*;

use crate::grid_direction::GridDirection;

verus! {

/// A position on the ground plane, in integer world units chosen by the
/// caller. `x` and `z` span the plane; `y` is the unused vertical component
/// and is kept only so positions read like the host's 3-component vectors.
#[derive(Clone, Copy, PartialEq, Eq, Structural, Debug)]
pub struct WorldPos {
    pub x: i64,
    pub y: i64,
    pub z: i64,
}

impl WorldPos {
    pub fn new(x: i64, y: i64, z: i64) -> (p: WorldPos)
        ensures
            p.x == x,
            p.y == y,
            p.z == z,
    {
        WorldPos { x, y, z }
    }

    /// A position on the ground plane (vertical component zero).
    pub fn ground(x: i64, z: i64) -> (p: WorldPos)
        ensures
            p.x == x,
            p.y == 0,
            p.z == z,
    {
        WorldPos { x, y: 0, z }
    }
}

/// A `(column, row)` pair addressing one cell of a grid, 0-based. The same
/// pair type carries a grid's size as `(columns, rows)`.
#[derive(Clone, Copy, PartialEq, Eq, Structural, Debug)]
pub struct GridIdx {
    pub x: usize,
    pub y: usize,
}

impl GridIdx {
    pub fn new(x: usize, y: usize) -> (i: GridIdx)
        ensures
            i.x == x,
            i.y == y,
    {
        GridIdx { x, y }
    }
}

/// The smallest unit of the battlefield: its world position, its index in
/// the owning grid, its traversal cost, and the two per-destination values a
/// flow field computes for it.
///
/// * `cost` is 1 for baseline passable terrain and 255 for impassable; a
///   flow field forces it to 0 at the destination cell only.
/// * `best_cost` is the integration distance from the destination;
///   `u16::MAX` is the sentinel for "unreached".
/// * `best_direction` points at the neighbour with the smallest integration
///   distance, or is `Stationary` when no neighbour improves on this cell.
#[derive(Clone, Copy, PartialEq, Eq, Structural, Debug)]
pub struct Cell {
    pub world_position: WorldPos,
    pub grid_idx: GridIdx,
    pub cost: u8,
    pub best_cost: u16,
    pub best_direction: GridDirection,
}

impl Cell {
    /// A fresh cell: baseline cost, unreached, no direction.
    pub fn new(world_position: WorldPos, grid_idx: GridIdx) -> (c: Cell)
        ensures
            c.world_position == world_position,
            c.grid_idx == grid_idx,
            c.cost == 1,
            c.best_cost == u16::MAX,
            c.best_direction == GridDirection::Stationary,
    {
        Cell {
            world_position,
            grid_idx,
            cost: 1,
            best_cost: u16::MAX,
            best_direction: GridDirection::Stationary,
        }
    }

    /// Raise the traversal cost by `amount`, saturating at 255: increasing
    /// the cost of an already impassable cell, or past 255, clamps instead
    /// of wrapping.
    pub fn increase_cost(&mut self, amount: u8)
        ensures
            final(self).cost == if old(self).cost + amount > 255 {
                255int
            } else {
                old(self).cost + amount
            },
            final(self).world_position == old(self).world_position,
            final(self).grid_idx == old(self).grid_idx,
            final(self).best_cost == old(self).best_cost,
            final(self).best_direction == old(self).best_direction,
    {
        if self.cost == u8::MAX {
            return;
        }

        if let Some(new_cost) = self.cost.checked_add(amount) {
            self.cost = new_cost;
        } else {
            self.cost = u8::MAX;
        }
    }
}

impl Default for Cell {
    /// The zeroed placeholder a flow field starts from before a destination
    /// is recorded.
    fn default() -> (c: Cell)
        ensures
            c.world_position == (WorldPos { x: 0, y: 0, z: 0 }),
            c.grid_idx == (GridIdx { x: 0, y: 0 }),
            c.cost == 0,
            c.best_cost == 0,
            c.best_direction == GridDirection::Stationary,
    {
        Cell {
            world_position: WorldPos { x: 0, y: 0, z: 0 },
            grid_idx: GridIdx { x: 0, y: 0 },
            cost: 0,
            best_cost: 0,
            best_direction: GridDirection::Stationary,
        }
    }
}

} // verus!
