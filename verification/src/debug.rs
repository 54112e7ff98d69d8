use vstd::prelude::*;

use crate::flowfield::FlowField;

verus! {

/// One redraw request of the debug overlay: everything, or one layer —
/// the grid lines, the cost field digits, the flow-field arrows, or the
/// integration-field digits.
#[derive(Clone, Copy, PartialEq, Eq, Structural, Debug)]
pub enum DrawEv {
    All,
    Grid,
    CostField,
    FlowField,
    IntegrationField,
}

/// Groups the debug-draw dispatch: which redraw requests are raised at
/// startup, how a full redraw fans out into the per-layer requests, and
/// which flow field the overlay tracks. The rendering itself (meshes,
/// digit atlas, GPU buffers) belongs to the hosting engine and consumes
/// the cells, costs and directions this crate computes.
pub struct DrawPlugin;

/// The flow field the debug overlay currently draws, if any.
pub struct ActiveDbgFlowfield(pub Option<FlowField>);

/// At startup the overlay draws everything once.
pub fn draw_on_startup() -> (ev: DrawEv)
    ensures
        ev == DrawEv::All,
{
    DrawEv::All
}

/// A full redraw fans out into the per-layer requests, in a fixed order:
/// grid lines first, then cost field, flow field, and integration field.
pub fn trigger_events() -> (evs: Vec<DrawEv>)
    ensures
        evs@ == seq![DrawEv::Grid, DrawEv::CostField, DrawEv::FlowField, DrawEv::IntegrationField],
{
    let mut evs: Vec<DrawEv> = Vec::new();
    evs.push(DrawEv::Grid);
    evs.push(DrawEv::CostField);
    evs.push(DrawEv::FlowField);
    evs.push(DrawEv::IntegrationField);
    proof {
        assert(evs@ =~= seq![
            DrawEv::Grid,
            DrawEv::CostField,
            DrawEv::FlowField,
            DrawEv::IntegrationField,
        ]);
    }
    evs
}

/// Track a newly broadcast flow field: a fresh field replaces the current
/// one and the overlay redraws; `None` deactivates it, redrawing only if
/// something was active. Returns whether a redraw is due.
pub fn set_active_dbg_flowfield(active: &mut ActiveDbgFlowfield, new_ff: Option<FlowField>) -> (redraw:
    bool)
    ensures
        final(active).0 == new_ff,
        redraw == ((new_ff is Some) || (old(active).0 is Some)),
{
    match new_ff {
        Option::Some(ff) => {
            active.0 = Some(ff);
            true
        },
        Option::None => {
            if active.0.is_some() {
                active.0 = None;
                true
            } else {
                false
            }
        },
    }
}

} // verus!
