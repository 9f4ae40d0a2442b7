//! Audio: devices, the rings between callbacks, and the engine.
pub mod callbacks;
pub mod devices;
pub mod engine;
pub mod laws_devices;
pub mod laws_flow;
pub mod listing;
pub mod monitor;
pub mod passthrough;
pub mod ring;
pub mod session;
