use rts_pathfinding::cell::{Cell, GridIdx, WorldPos};
use rts_pathfinding::grid::{
    initialize_costfield, update_costfield_on_add, update_costfield_on_remove, Grid, GridError,
    ObjSize, ObjState,
};
use rts_pathfinding::grid_direction::{all_directions, cardinal_directions, GridDirection};
use rts_pathfinding::utils::get_cell_from_world_position_helper;

fn grid_5x5() -> Grid {
    Grid::new(GridIdx::new(5, 5), 2).unwrap()
}

fn cell_ref(grid: &Grid, x: usize, y: usize) -> &Cell {
    &grid.cells[y * grid.size.x + x]
}

#[test]
fn direction_vectors_and_orders() {
    assert_eq!(GridDirection::North.vector(), (0, -1));
    assert_eq!(GridDirection::SouthEast.vector(), (1, 1));
    assert_eq!(GridDirection::Stationary.vector(), (0, 0));
    assert_eq!(
        cardinal_directions(),
        vec![
            GridDirection::North,
            GridDirection::East,
            GridDirection::South,
            GridDirection::West
        ]
    );
    let all = all_directions();
    assert_eq!(all.len(), 8);
    assert_eq!(all[0], GridDirection::North);
    assert_eq!(all[3], GridDirection::SouthEast);
    assert_eq!(all[7], GridDirection::NorthWest);
}

#[test]
fn lookup_helper_matches_the_grid_lookup() {
    let grid = grid_5x5();
    for pos in [WorldPos::new(3, 0, -4), WorldPos::new(-100, 0, 100), WorldPos::new(0, 0, 0)] {
        let a = grid.get_cell_from_world_position(pos);
        let b = get_cell_from_world_position_helper(pos, grid.size, grid.cell_diameter, &grid.cells);
        assert_eq!(a, b);
    }
}

#[test]
fn zero_sized_grid_is_rejected() {
    assert_eq!(Grid::new(GridIdx::new(0, 5), 2), Err(GridError::ZeroSizedGrid));
    assert_eq!(Grid::new(GridIdx::new(5, 0), 2), Err(GridError::ZeroSizedGrid));
    assert_eq!(Grid::new(GridIdx::new(0, 0), 7), Err(GridError::ZeroSizedGrid));
    assert!(Grid::new(GridIdx::new(1, 1), 1).is_ok());
}

#[test]
fn new_grid_has_baseline_cost_field() {
    let grid = Grid::new(GridIdx::new(3, 2), 2).unwrap();
    assert_eq!(grid.cells.len(), 6);
    assert_eq!(grid.cell_diameter, 2);
    assert_eq!(grid.cell_radius, 1);
    for y in 0..2 {
        for x in 0..3 {
            let c = cell_ref(&grid, x, y);
            assert_eq!(c.grid_idx, GridIdx::new(x, y));
            assert_eq!(c.cost, 1);
            assert_eq!(c.best_cost, u16::MAX);
            assert_eq!(c.best_direction, GridDirection::Stationary);
        }
    }
    // centred on the origin: columns at -2, 0, 2 and rows at -1, 1
    assert_eq!(cell_ref(&grid, 0, 0).world_position, WorldPos::new(-2, 0, -1));
    assert_eq!(cell_ref(&grid, 2, 1).world_position, WorldPos::new(2, 0, 1));
}

#[test]
fn locate_always_returns_an_in_bounds_cell() {
    let grid = grid_5x5();
    let far = [
        WorldPos::new(i64::MAX, 0, i64::MAX),
        WorldPos::new(i64::MIN, 0, i64::MIN),
        WorldPos::new(i64::MAX, 0, i64::MIN),
        WorldPos::new(-1_000_000, 0, 3),
        WorldPos::new(0, 0, 0),
    ];
    for pos in far {
        let c = grid.get_cell_from_world_position(pos);
        assert!(c.grid_idx.x < 5 && c.grid_idx.y < 5);
    }
    // clamping picks the nearest edge cell
    let c = grid.get_cell_from_world_position(WorldPos::new(i64::MAX, 0, i64::MIN));
    assert_eq!(c.grid_idx, GridIdx::new(4, 0));
}

#[test]
fn locate_round_trips_every_cell_center() {
    for (sx, sy, d) in [(5usize, 5usize, 2i64), (3, 4, 3), (1, 1, 1), (7, 2, 5)] {
        let grid = Grid::new(GridIdx::new(sx, sy), d).unwrap();
        for cell in grid.cells.iter() {
            let located = grid.get_cell_from_world_position(cell.world_position);
            assert_eq!(located.grid_idx, cell.grid_idx);
        }
    }
}

#[test]
fn increase_cost_saturates_at_impassable() {
    let mut c = Cell::new(WorldPos::new(0, 0, 0), GridIdx::new(0, 0));
    assert_eq!(c.cost, 1);
    c.increase_cost(200);
    assert_eq!(c.cost, 201);
    c.increase_cost(200);
    assert_eq!(c.cost, 255);
    c.increase_cost(1);
    assert_eq!(c.cost, 255);

    let mut near = Cell::new(WorldPos::new(0, 0, 0), GridIdx::new(0, 0));
    near.increase_cost(253);
    assert_eq!(near.cost, 254);
    near.increase_cost(1);
    assert_eq!(near.cost, 255);
}

#[test]
fn raising_and_resetting_an_object_footprint() {
    let mut grid = grid_5x5();
    // a thin box spanning z in [-2, 2] covers column 2, rows 1 through 3
    let translation = WorldPos::new(0, 0, 0);
    let size = ObjSize { x: 1, z: 4 };
    let changed = grid.update_cell_costs(translation, size);
    assert_eq!(changed.len(), 3);
    assert!(changed.iter().all(|c| c.cost == 255));
    assert_eq!(cell_ref(&grid, 2, 1).cost, 255);
    assert_eq!(cell_ref(&grid, 2, 2).cost, 255);
    assert_eq!(cell_ref(&grid, 2, 3).cost, 255);
    // everything else is untouched
    let raised: usize = grid.cells.iter().filter(|c| c.cost == 255).count();
    assert_eq!(raised, 3);

    let reset = grid.reset_cell_costs(translation, size);
    assert_eq!(reset.len(), 3);
    assert!(reset.iter().all(|c| c.cost == 1));
    assert!(grid.cells.iter().all(|c| c.cost == 1));
}

#[test]
fn resetting_a_never_raised_cell_is_a_no_op() {
    let mut grid = grid_5x5();
    let before = grid.cells.clone();
    let changed = grid.reset_cell_costs(WorldPos::new(0, 0, 0), ObjSize { x: 1, z: 1 });
    assert_eq!(changed.len(), 1);
    assert_eq!(changed[0].cost, 1);
    assert_eq!(grid.cells, before);
}

#[test]
fn footprint_of_a_far_away_object_clamps_to_the_edge() {
    let grid = grid_5x5();
    // far to the north-west: both corners clamp to cell (0, 0)
    let fp = grid.footprint(WorldPos::new(-1_000_000, 0, -1_000_000), ObjSize { x: 2, z: 2 });
    assert_eq!(fp, vec![GridIdx::new(0, 0)]);
}

#[test]
fn classified_construction_raises_blocked_cells() {
    // verdicts of a classifier that blocks the centre cell of a 3x3 grid
    let mut blocked = vec![false; 9];
    blocked[1 * 3 + 1] = true;
    let grid = Grid::new_with_blocked(GridIdx::new(3, 3), 2, &blocked).unwrap();
    for (i, cell) in grid.cells.iter().enumerate() {
        let expected = if i == 4 { 255 } else { 1 };
        assert_eq!(cell.cost, expected);
    }
    // the zero-size rejection applies here too
    assert!(Grid::new_with_blocked(GridIdx::new(0, 3), 2, &Vec::new()).is_err());
}

#[test]
fn initialize_costfield_marks_every_covered_cell() {
    let mut grid = grid_5x5();
    let objects = vec![
        ObjState { translation: WorldPos::new(0, 0, 0), size: ObjSize { x: 1, z: 1 } },
        ObjState { translation: WorldPos::new(4, 0, 4), size: ObjSize { x: 1, z: 1 } },
    ];
    initialize_costfield(&mut grid, &objects);
    assert_eq!(cell_ref(&grid, 2, 2).cost, 255);
    assert_eq!(cell_ref(&grid, 4, 4).cost, 255);
    let raised: usize = grid.cells.iter().filter(|c| c.cost == 255).count();
    assert_eq!(raised, 2);
}

#[test]
fn on_add_with_no_objects_reports_nothing() {
    let mut grid = grid_5x5();
    let before = grid.cells.clone();
    let evs = update_costfield_on_add(&mut grid, &Vec::new());
    assert!(evs.is_none());
    assert_eq!(grid.cells, before);
}

#[test]
fn on_add_reports_every_covered_cell_with_fresh_state() {
    let mut grid = grid_5x5();
    let objects = vec![ObjState {
        translation: WorldPos::new(0, 0, 1),
        size: ObjSize { x: 1, z: 2 },
    }];
    let evs = update_costfield_on_add(&mut grid, &objects).unwrap();
    assert_eq!(evs.len(), 2);
    let mut covered: Vec<(usize, usize)> =
        evs.iter().map(|ev| (ev.cell.grid_idx.x, ev.cell.grid_idx.y)).collect();
    covered.sort();
    assert_eq!(covered, vec![(2, 2), (2, 3)]);
    for ev in evs.iter() {
        assert_eq!(ev.cell.cost, 255);
        let now = cell_ref(&grid, ev.cell.grid_idx.x, ev.cell.grid_idx.y);
        assert_eq!(*now, ev.cell);
    }
}

#[test]
fn on_remove_skips_an_unresolvable_object() {
    let mut grid = grid_5x5();
    let before = grid.cells.clone();
    let evs = update_costfield_on_remove(&mut grid, None);
    assert!(evs.is_none());
    assert_eq!(grid.cells, before);
}

#[test]
fn on_remove_resets_the_footprint_and_reports_it() {
    let mut grid = grid_5x5();
    let obj = ObjState { translation: WorldPos::new(0, 0, 1), size: ObjSize { x: 1, z: 2 } };
    update_costfield_on_add(&mut grid, &vec![obj]);
    let evs = update_costfield_on_remove(&mut grid, Some(obj)).unwrap();
    assert_eq!(evs.len(), 2);
    for ev in evs.iter() {
        assert_eq!(ev.cell.cost, 1);
    }
    assert!(grid.cells.iter().all(|c| c.cost == 1));
}
