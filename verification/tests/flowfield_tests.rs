use rts_pathfinding::cell::{Cell, GridIdx, WorldPos};
use rts_pathfinding::flowfield::{initialize_flowfield, FlowField, SelectedUnit};
use rts_pathfinding::grid::{update_costfield_on_add, update_costfield_on_remove, Grid, ObjSize, ObjState};
use rts_pathfinding::grid_direction::GridDirection;

fn grid_5x5() -> Grid {
    Grid::new(GridIdx::new(5, 5), 2).unwrap()
}

fn build_field(grid: &Grid, destination: WorldPos) -> FlowField {
    let destination_cell = grid.get_cell_from_world_position(destination);
    let mut ff = FlowField::new(grid.cell_diameter, grid.size, Vec::new());
    ff.create_integration_field(grid, destination_cell);
    ff.create_flowfield();
    ff
}

fn field_cell(ff: &FlowField, x: usize, y: usize) -> &Cell {
    &ff.cells[y * ff.size.x + x]
}

#[test]
fn open_grid_distances_are_manhattan() {
    let grid = grid_5x5();
    // destination at index (4, 4), whose cell centre is (4, 0, 4)
    let ff = build_field(&grid, WorldPos::new(4, 0, 4));
    for y in 0..5usize {
        for x in 0..5usize {
            let expected = (4 - x) + (4 - y);
            assert_eq!(field_cell(&ff, x, y).best_cost as usize, expected);
        }
    }
    assert_eq!(field_cell(&ff, 0, 0).best_cost, 8);
}

#[test]
fn destination_cell_is_settled() {
    let grid = grid_5x5();
    let ff = build_field(&grid, WorldPos::new(4, 0, 4));
    let dest = field_cell(&ff, 4, 4);
    assert_eq!(dest.best_cost, 0);
    assert_eq!(dest.cost, 0);
    assert_eq!(dest.best_direction, GridDirection::Stationary);
    assert_eq!(ff.destination_cell, *dest);
}

#[test]
fn directions_follow_the_tie_break_order() {
    let grid = grid_5x5();
    let ff = build_field(&grid, WorldPos::new(4, 0, 4));
    // interior cells: the diagonal neighbour is strictly cheaper than both
    // cardinal ones, so the scan settles on it
    assert_eq!(field_cell(&ff, 0, 0).best_direction, GridDirection::SouthEast);
    assert_eq!(field_cell(&ff, 2, 1).best_direction, GridDirection::SouthEast);
    // on the destination row or column only a cardinal step improves
    assert_eq!(field_cell(&ff, 4, 0).best_direction, GridDirection::South);
    assert_eq!(field_cell(&ff, 0, 4).best_direction, GridDirection::East);
    assert_eq!(field_cell(&ff, 4, 4).best_direction, GridDirection::Stationary);
}

#[test]
fn distances_never_exceed_their_starting_values() {
    let grid = grid_5x5();
    let ff = build_field(&grid, WorldPos::new(4, 0, 4));
    // every distance starts at the sentinel (or 0 at the destination) and
    // only ever shrinks during relaxation
    for (i, cell) in ff.cells.iter().enumerate() {
        let initial = if i == 4 * 5 + 4 { 0 } else { u16::MAX };
        assert!(cell.best_cost <= initial);
    }
    // the computation is deterministic: rebuilding gives the same field
    let again = build_field(&grid, WorldPos::new(4, 0, 4));
    assert_eq!(again.cells, ff.cells);
}

#[test]
fn walls_block_propagation_through_them() {
    // 3x3 grid with the centre cell impassable: the far corner is reached
    // around the wall, never through it, and the wall itself keeps the
    // unreached sentinel
    let mut grid = Grid::new(GridIdx::new(3, 3), 2).unwrap();
    let wall = ObjState { translation: WorldPos::new(0, 0, 0), size: ObjSize { x: 1, z: 1 } };
    update_costfield_on_add(&mut grid, &vec![wall]);
    assert_eq!(grid.cells[1 * 3 + 1].cost, 255);

    // destination at index (0, 0), cell centre (-2, 0, -2)
    let ff = build_field(&grid, WorldPos::new(-2, 0, -2));
    assert_eq!(field_cell(&ff, 0, 0).best_cost, 0);
    assert_eq!(field_cell(&ff, 1, 0).best_cost, 1);
    assert_eq!(field_cell(&ff, 0, 1).best_cost, 1);
    assert_eq!(field_cell(&ff, 2, 0).best_cost, 2);
    assert_eq!(field_cell(&ff, 0, 2).best_cost, 2);
    assert_eq!(field_cell(&ff, 2, 1).best_cost, 3);
    assert_eq!(field_cell(&ff, 1, 2).best_cost, 3);
    // going around costs 4; a path through the centre would read 2
    assert_eq!(field_cell(&ff, 2, 2).best_cost, 4);
    // the wall was never relaxed; its own direction still points at the
    // cheapest neighbour (the destination, diagonally up-left)
    assert_eq!(field_cell(&ff, 1, 1).best_cost, u16::MAX);
    assert_eq!(field_cell(&ff, 1, 1).best_direction, GridDirection::NorthWest);
}

#[test]
fn dynamic_maintenance_round_trip() {
    let mut grid = grid_5x5();
    let baseline = build_field(&grid, WorldPos::new(4, 0, 4));

    // an obstacle covering indices (2, 2) and (2, 3)
    let obj = ObjState { translation: WorldPos::new(0, 0, 1), size: ObjSize { x: 1, z: 2 } };
    let evs = update_costfield_on_add(&mut grid, &vec![obj]).unwrap();
    assert_eq!(evs.len(), 2);
    assert_eq!(grid.cells[2 * 5 + 2].cost, 255);
    assert_eq!(grid.cells[3 * 5 + 2].cost, 255);

    let blocked = build_field(&grid, WorldPos::new(4, 0, 4));
    // the covered cells are excluded from propagation
    assert_eq!(field_cell(&blocked, 2, 2).best_cost, u16::MAX);
    assert_eq!(field_cell(&blocked, 2, 3).best_cost, u16::MAX);
    // every passable cell still has a route of the same length around the
    // obstacle here, but steering west of it no longer crosses it: the
    // cell left of the wall now detours south instead of south-east
    for y in 0..5usize {
        for x in 0..5usize {
            if !(x == 2 && (y == 2 || y == 3)) {
                assert_eq!(
                    field_cell(&blocked, x, y).best_cost,
                    field_cell(&baseline, x, y).best_cost
                );
            }
        }
    }
    assert_eq!(field_cell(&baseline, 1, 2).best_direction, GridDirection::SouthEast);
    assert_eq!(field_cell(&blocked, 1, 2).best_direction, GridDirection::South);

    // removing the obstacle restores the baseline exactly
    let evs = update_costfield_on_remove(&mut grid, Some(obj)).unwrap();
    assert_eq!(evs.len(), 2);
    assert!(grid.cells.iter().all(|c| c.cost == 1));
    let rebuilt = build_field(&grid, WorldPos::new(4, 0, 4));
    assert_eq!(rebuilt.cells, baseline.cells);
    assert_eq!(rebuilt.destination_cell, baseline.destination_cell);
}

#[test]
fn steering_read_clamps_and_returns_a_direction() {
    let grid = grid_5x5();
    let ff = build_field(&grid, WorldPos::new(4, 0, 4));
    // an agent far outside the field reads the nearest edge cell
    let c = ff.get_cell_from_world_position(WorldPos::new(-1_000_000, 0, -1_000_000));
    assert_eq!(c.grid_idx, GridIdx::new(0, 0));
    assert_eq!(c.best_direction, GridDirection::SouthEast);
}

#[test]
fn initialize_flowfield_frees_the_selected_units_and_builds_the_field() {
    let mut grid = grid_5x5();
    let unit_state = ObjState { translation: WorldPos::new(0, 0, 1), size: ObjSize { x: 1, z: 2 } };
    update_costfield_on_add(&mut grid, &vec![unit_state]);
    assert_eq!(grid.cells[2 * 5 + 2].cost, 255);

    let unit = SelectedUnit { entity: 7, translation: unit_state.translation, size: unit_state.size };
    let ff = initialize_flowfield(&mut grid, &vec![unit], WorldPos::new(4, 0, 4));

    // the unit's own footprint is passable again
    assert!(grid.cells.iter().all(|c| c.cost == 1));
    assert_eq!(ff.units, vec![7u64]);
    assert_eq!(ff.size, grid.size);
    assert_eq!(ff.cell_diameter, grid.cell_diameter);

    // with the footprint freed the field matches the unobstructed one
    let baseline = build_field(&grid, WorldPos::new(4, 0, 4));
    assert_eq!(ff.cells, baseline.cells);
}
