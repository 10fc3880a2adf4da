//! Tracking of allow-listed Bluetooth game controllers: filtering of raw
//! device snapshots, reconciliation into a stable, disambiguated list, and the
//! decisions of the polling cycle that keeps that list up to date.

mod controller;
pub mod model;
mod naming;
mod state;
mod allow_list;
mod supervisor;
pub mod laws;

pub use controller::{controller_status, BluetoothController, BluetoothError, ControllerStatus, ControllerView, DeviceInfo};
pub use state::BluetoothState;
pub use allow_list::{allowed_controllers, is_allowed_controller};
pub use supervisor::{apply_power_reading, apply_snapshot, discovery_state, find_device, PollingSupervisor, SupervisorPhase, INIT_RETRY_SECS, TICK_INTERVAL_SECS};
pub use naming::{decimal_text, suffixed_name};
