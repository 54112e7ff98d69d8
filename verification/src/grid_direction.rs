use vstd::prelude::*;

verus! {

/// One of the eight compass directions, or `Stationary` for a cell with no
/// improving neighbour (the destination itself, an unreached cell, or a
/// local minimum of the integration field).
///
/// The grid is indexed column-major in `x` and row-major in `y`: `North`
/// decreases the row index `y`, `South` increases it, `East` increases the
/// column index `x`, `West` decreases it.
#[derive(Clone, Copy, PartialEq, Eq, Structural, Debug)]
pub enum GridDirection {
    Stationary,
    North,
    NorthEast,
    East,
    SouthEast,
    South,
    SouthWest,
    West,
    NorthWest,
}

impl GridDirection {
    /// Column offset of the neighbour this direction points at.
    pub open spec fn dx(self) -> int {
        match self {
            GridDirection::Stationary => 0,
            GridDirection::North => 0,
            GridDirection::NorthEast => 1,
            GridDirection::East => 1,
            GridDirection::SouthEast => 1,
            GridDirection::South => 0,
            GridDirection::SouthWest => -1,
            GridDirection::West => -1,
            GridDirection::NorthWest => -1,
        }
    }

    /// Row offset of the neighbour this direction points at.
    pub open spec fn dy(self) -> int {
        match self {
            GridDirection::Stationary => 0,
            GridDirection::North => -1,
            GridDirection::NorthEast => -1,
            GridDirection::East => 0,
            GridDirection::SouthEast => 1,
            GridDirection::South => 1,
            GridDirection::SouthWest => 1,
            GridDirection::West => 0,
            GridDirection::NorthWest => -1,
        }
    }

    /// The `(column, row)` index offset of the neighbour this direction
    /// points at.
    pub fn vector(&self) -> (v: (i64, i64))
        ensures
            v.0 == self.dx(),
            v.1 == self.dy(),
    {
        match self {
            GridDirection::Stationary => (0, 0),
            GridDirection::North => (0, -1),
            GridDirection::NorthEast => (1, -1),
            GridDirection::East => (1, 0),
            GridDirection::SouthEast => (1, 1),
            GridDirection::South => (0, 1),
            GridDirection::SouthWest => (-1, 1),
            GridDirection::West => (-1, 0),
            GridDirection::NorthWest => (-1, -1),
        }
    }
}

/// The four cardinal directions, in the fixed order the integration-field
/// wavefront visits neighbours.
pub open spec fn cardinal_dirs() -> Seq<GridDirection> {
    seq![
        GridDirection::North,
        GridDirection::East,
        GridDirection::South,
        GridDirection::West,
    ]
}

/// All eight compass directions, in the fixed enumeration order that breaks
/// ties when the flow field picks a best neighbour: the first direction with
/// the smallest integration distance wins.
pub open spec fn all_dirs() -> Seq<GridDirection> {
    seq![
        GridDirection::North,
        GridDirection::NorthEast,
        GridDirection::East,
        GridDirection::SouthEast,
        GridDirection::South,
        GridDirection::SouthWest,
        GridDirection::West,
        GridDirection::NorthWest,
    ]
}

/// The four cardinal directions in wavefront order.
pub fn cardinal_directions() -> (r: Vec<GridDirection>)
    ensures
        r@ == cardinal_dirs(),
{
    let mut r: Vec<GridDirection> = Vec::new();
    r.push(GridDirection::North);
    r.push(GridDirection::East);
    r.push(GridDirection::South);
    r.push(GridDirection::West);
    proof {
        assert(r@ =~= cardinal_dirs());
    }
    r
}

/// All eight compass directions in tie-break order.
pub fn all_directions() -> (r: Vec<GridDirection>)
    ensures
        r@ == all_dirs(),
{
    let mut r: Vec<GridDirection> = Vec::new();
    r.push(GridDirection::North);
    r.push(GridDirection::NorthEast);
    r.push(GridDirection::East);
    r.push(GridDirection::SouthEast);
    r.push(GridDirection::South);
    r.push(GridDirection::SouthWest);
    r.push(GridDirection::West);
    r.push(GridDirection::NorthWest);
    proof {
        assert(r@ =~= all_dirs());
    }
    r
}

} // verus!
