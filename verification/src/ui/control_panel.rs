use vstd::prelude::*;

verus! {

/// The buttons pressed in one frame of the control panel.
#[derive(Clone, Debug)]
pub struct ControlAction {
    pub zoom_in: bool,
    pub zoom_out: bool,
    pub zoom_reset: bool,
    /// One sub-step forward.
    pub step_forward_sub: bool,
    /// To the end of the current phase.
    pub step_forward_phase: bool,
    /// One sub-step back.
    pub step_backward_sub: bool,
    /// Back to the start of the current phase.
    pub step_backward_phase: bool,
    pub run_all: bool,
    pub reset_and_step: bool,
    pub open_overlay_config: bool,
    pub open_layer_config: bool,
    /// Open the settings of the current phase's algorithm.
    pub open_step_config: bool,
    pub open_geo_preview: bool,
    pub open_shape_sandbox: bool,
    pub export_png: bool,
    pub export_lwd: bool,
    pub import_lwd: bool,
    /// Apply the seed typed into the seed field.
    pub apply_seed: bool,
    pub open_perf_panel: bool,
}

/// No button is pressed.
pub open spec fn is_no_action(a: ControlAction) -> bool {
    &&& !a.zoom_in && !a.zoom_out && !a.zoom_reset
    &&& !a.step_forward_sub && !a.step_forward_phase && !a.step_backward_sub && !a.step_backward_phase
    &&& !a.run_all && !a.reset_and_step
    &&& !a.open_overlay_config && !a.open_layer_config && !a.open_step_config
    &&& !a.open_geo_preview && !a.open_shape_sandbox
    &&& !a.export_png && !a.export_lwd && !a.import_lwd
    &&& !a.apply_seed && !a.open_perf_panel
}

impl ControlAction {
    /// The action with no button pressed.
    pub fn none() -> (a: ControlAction)
        ensures
            is_no_action(a),
    {
        ControlAction {
            zoom_in: false,
            zoom_out: false,
            zoom_reset: false,
            step_forward_sub: false,
            step_forward_phase: false,
            step_backward_sub: false,
            step_backward_phase: false,
            run_all: false,
            reset_and_step: false,
            open_overlay_config: false,
            open_layer_config: false,
            open_step_config: false,
            open_geo_preview: false,
            open_shape_sandbox: false,
            export_png: false,
            export_lwd: false,
            import_lwd: false,
            apply_seed: false,
            open_perf_panel: false,
        }
    }
}

/// The world size chosen in the control panel.
#[derive(Clone, Copy, Debug, PartialEq, Eq, Structural)]
pub enum WorldSizeSelection {
    Small,
    Medium,
    Large,
    Custom,
}

impl WorldSizeSelection {
    /// The default selection, the small world.
    pub fn default_selection() -> (s: WorldSizeSelection)
        ensures
            s == WorldSizeSelection::Small,
    {
        WorldSizeSelection::Small
    }
}

impl Default for WorldSizeSelection {
    /// The small world, as [`WorldSizeSelection::default_selection`].
    fn default() -> (s: WorldSizeSelection)
        ensures
            s == WorldSizeSelection::Small,
    {
        WorldSizeSelection::default_selection()
    }
}

} // verus!
