//! Flow-field pathfinding for groups of agents on a discretized 2D
//! battlefield.
//!
//! The crate is organised around three ideas:
//!
//! * a shared [`grid::Grid`] holds one traversal-cost value per cell (the
//!   *cost field*) and translates between world positions and grid indices;
//! * a [`flowfield::FlowField`] is a destination-scoped snapshot of that
//!   grid: it copies the cells, propagates distances outward from the
//!   destination by wavefront relaxation (the *integration field*), and then
//!   derives a best-neighbour direction per cell (the *flow field*);
//! * incremental cost maintenance keeps the grid consistent as blocking
//!   objects are added, moved or removed, and reports the affected cells so
//!   consumers know a cached flow field went stale.
//!
//! A `FlowField` owns a value copy of the cells, never a reference: a grid
//! mutation after the snapshot leaves the field *stale* but never corrupts
//! it, and it is the caller's responsibility to discard and rebuild stale
//! fields.
//!
//! World coordinates are integers in caller-chosen units (for instance
//! millimetres); a host working in floating point scales on its side of the
//! boundary.

pub mod cell;
pub mod debug;
pub mod events;
pub mod flowfield;
pub mod grid;
pub mod grid_direction;
pub mod utils;
