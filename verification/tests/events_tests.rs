use rts_pathfinding::cell::{Cell, GridIdx, WorldPos};
use rts_pathfinding::debug::{
    draw_on_startup, set_active_dbg_flowfield, trigger_events, ActiveDbgFlowfield, DrawEv,
};
use rts_pathfinding::events::{InitializeFlowFieldEv, SetActiveFlowfieldEv, UpdateCostEv};
use rts_pathfinding::flowfield::FlowField;
use rts_pathfinding::grid::Grid;
use rts_pathfinding::grid_direction::GridDirection;

fn some_field() -> FlowField {
    let grid = Grid::new(GridIdx::new(2, 2), 2).unwrap();
    let destination_cell = grid.get_cell_from_world_position(WorldPos::new(0, 0, 0));
    let mut ff = FlowField::new(grid.cell_diameter, grid.size, vec![1, 2]);
    ff.create_integration_field(&grid, destination_cell);
    ff.create_flowfield();
    ff
}

#[test]
fn update_cost_event_carries_the_fresh_cell() {
    let cell = Cell::new(WorldPos::new(3, 0, -5), GridIdx::new(1, 2));
    let ev = UpdateCostEv::new(cell);
    assert_eq!(ev.cell, cell);
    assert_eq!(ev.cell.cost, 1);
    assert_eq!(ev.cell.best_direction, GridDirection::Stationary);
}

#[test]
fn flowfield_request_carries_the_unit_group() {
    let ev = InitializeFlowFieldEv(vec![10, 11, 12]);
    assert_eq!(ev.0, vec![10, 11, 12]);
}

#[test]
fn startup_draws_everything_once() {
    assert_eq!(draw_on_startup(), DrawEv::All);
}

#[test]
fn full_redraw_fans_out_in_a_fixed_order() {
    assert_eq!(
        trigger_events(),
        vec![DrawEv::Grid, DrawEv::CostField, DrawEv::FlowField, DrawEv::IntegrationField]
    );
}

#[test]
fn activating_a_flowfield_requests_a_redraw() {
    let mut active = ActiveDbgFlowfield(None);
    let ff = some_field();

    // nothing to deactivate: no redraw
    assert!(!set_active_dbg_flowfield(&mut active, None));
    assert!(active.0.is_none());

    // a fresh field becomes active and triggers a redraw
    assert!(set_active_dbg_flowfield(&mut active, Some(ff.clone())));
    assert_eq!(active.0, Some(ff));

    // deactivating an active field also triggers a redraw
    assert!(set_active_dbg_flowfield(&mut active, None));
    assert!(active.0.is_none());
}

#[test]
fn broadcast_event_carries_the_field_or_deactivates() {
    let ff = some_field();
    let ev = SetActiveFlowfieldEv(Some(ff.clone()));
    assert_eq!(ev.0, Some(ff));
    let off = SetActiveFlowfieldEv(None);
    assert!(off.0.is_none());
}
