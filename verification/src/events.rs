use vstd::prelude::*;

use crate::cell::Cell;
use crate::flowfield::FlowField;

verus! {

/// Broadcast of the flow field that consumers (steering, debug overlays)
/// should track from now on; `None` deactivates the current one. Emitted
/// with the freshly computed field after a move order.
pub struct SetActiveFlowfieldEv(pub Option<FlowField>);

/// Request to compute a flow field for a group of selected units,
/// identified by the host's entity ids. Carried from input handling to the
/// flow-field builder; the ids travel into the resulting field's `units`
/// list and do not affect the computation.
pub struct InitializeFlowFieldEv(pub Vec<u64>);

/// Notification that one cell of the shared cost field changed. It carries
/// the fresh cell state, not merely a dirty flag: consumers such as debug
/// overlays redraw straight from the event, and flow-field owners learn
/// that a cached field touching this cell went stale.
#[derive(Clone, Copy, PartialEq, Eq, Structural, Debug)]
pub struct UpdateCostEv {
    pub cell: Cell,
}

impl UpdateCostEv {
    pub fn new(cell: Cell) -> (ev: UpdateCostEv)
        ensures
            ev.cell == cell,
    {
        UpdateCostEv { cell }
    }
}

} // verus!
