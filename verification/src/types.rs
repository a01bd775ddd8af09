//! Plain-value descriptions of modes, connectors, logical outputs and
//! per-output configuration records.

use vstd::prelude::*;

verus! {

/// One display mode advertised by a connector: pixel size, refresh rate in
/// millihertz, and whether the driver flags it as the preferred mode.
#[derive(Clone, Copy, PartialEq, Eq, Structural, Debug)]
pub struct Mode {
    pub width: u16,
    pub height: u16,
    pub refresh_mhz: u32,
    pub preferred: bool,
}

/// The mutable configuration record attached to a logical output: whether the
/// output is enabled, the configured resolution and refresh-rate target,
/// whether variable refresh rate is requested, and the position in the global
/// space.
#[derive(Clone, Copy, PartialEq, Eq, Structural, Debug)]
pub struct OutputConfig {
    pub enabled: bool,
    pub mode_w: u16,
    pub mode_h: u16,
    pub refresh_target_mhz: u32,
    pub vrr: bool,
    pub pos_x: i32,
    pub pos_y: i32,
}

/// Everything the mode-setting driver reports about one connector when a
/// surface is set up: the interface name, the EDID manufacturer and model
/// strings, the physical size in millimetres, the advertised mode list, the
/// mode currently programmed on the CRTC (if any), and whether variable
/// refresh rate could be enabled.
pub struct ConnectorInfo {
    pub interface: String,
    pub manufacturer: String,
    pub model: String,
    pub phys_w: u32,
    pub phys_h: u32,
    pub modes: Vec<Mode>,
    pub current_mode: Option<Mode>,
    pub vrr_on: bool,
}

/// A logical output published to the compositor: identity, connector name,
/// EDID strings, physical size, the advertised modes, the preferred and
/// current mode, the position in the global space, and the attached
/// configuration record.
pub struct Output {
    pub id: u64,
    pub name: String,
    pub make: String,
    pub model: String,
    pub phys_w: u32,
    pub phys_h: u32,
    pub modes: Vec<Mode>,
    pub preferred_mode: Mode,
    pub current_mode: Option<Mode>,
    pub pos_x: i32,
    pub pos_y: i32,
    pub config: OutputConfig,
}

/// What applying a configuration to an output did: whether a fresh swapchain
/// was created (the output newly joins the rendering set and a render is
/// scheduled at once), and whether an existing swapchain was dropped (the
/// output leaves the rendering set).
#[derive(Clone, Copy, PartialEq, Eq, Structural, Debug)]
pub struct ApplyResult {
    pub recreated: bool,
    pub detached: bool,
}

/// Why applying a configuration to an output failed.
#[derive(Clone, Copy, PartialEq, Eq, Structural, Debug)]
pub enum ConfigError {
    /// No advertised mode matches the configured resolution.
    NoMatchingMode,
    /// The driver could not switch variable refresh rate on an output that
    /// already has a swapchain.
    VrrFailed,
    /// The driver could not create the mode-setting surface or its swapchain.
    SwapchainFailed,
}

} // verus!
