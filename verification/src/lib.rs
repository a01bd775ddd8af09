//! Verified core of a mode-setting display backend for a Wayland compositor.
//!
//! The library models the state a backend keeps for every GPU and every
//! display output — devices, surfaces, swapchains, scheduled renders and
//! event-loop registrations — and verifies the logic that drives it:
//! hot-plug reconciliation, output enumeration diffing, mode selection,
//! multi-GPU render-node placement and the render scheduling protocol.
//!
//! All hardware interaction (opening device files, mode-setting ioctls,
//! buffer allocation, composition) happens outside this crate in an
//! unverified driver, which feeds the results of those calls into the
//! verified state machine as plain values.

pub mod backend;
pub mod device;
pub mod registry;
pub mod select;
pub mod surface;
pub mod types;

pub use backend::KmsState;
pub use device::Device;
pub use device::OutputChanges;
pub use registry::LoopRegistry;
pub use surface::Surface;
pub use surface::Swapchain;
pub use types::ConnectorInfo;
pub use types::Mode;
pub use types::Output;
pub use types::OutputConfig;
