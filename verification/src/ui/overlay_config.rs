use vstd::prelude::*;

verus! {

/// The four independent switches of the canvas overlay.
#[derive(Clone, Copy, Debug, PartialEq, Eq, Structural)]
pub struct OverlaySettings {
    /// Translucent biome colours.
    pub show_biome_color: bool,
    /// Biome name labels.
    pub show_biome_labels: bool,
    /// Layer boundary lines.
    pub show_layer_lines: bool,
    /// Layer name labels.
    pub show_layer_labels: bool,
}

impl OverlaySettings {
    /// The initial switches: layer lines and labels on, biome overlay off.
    pub fn default_settings() -> (s: OverlaySettings)
        ensures
            s == (OverlaySettings {
                show_biome_color: false,
                show_biome_labels: false,
                show_layer_lines: true,
                show_layer_labels: true,
            }),
    {
        OverlaySettings {
            show_biome_color: false,
            show_biome_labels: false,
            show_layer_lines: true,
            show_layer_labels: true,
        }
    }
}

impl Default for OverlaySettings {
    /// As [`OverlaySettings::default_settings`].
    fn default() -> (s: OverlaySettings)
        ensures
            s == (OverlaySettings {
                show_biome_color: false,
                show_biome_labels: false,
                show_layer_lines: true,
                show_layer_labels: true,
            }),
    {
        OverlaySettings::default_settings()
    }
}

} // verus!
