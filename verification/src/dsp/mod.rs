//! The voice processors.
//!
//! Everything here works on blocks of mono samples and is safe to call from a real-time audio
//! callback: no allocation, no blocking, no I/O.
pub mod biquad;
pub mod chain;
pub mod compressor;
pub mod eq;
pub mod gain;
pub mod gate;
pub mod laws_blocks;
pub mod laws_chain;
pub mod laws_dynamics;
pub mod laws_eq;
pub mod laws_levels;
pub mod laws_limiter;
pub mod laws_ramp;
pub mod laws_response;
pub mod laws_runs;
pub mod laws_shelf;
pub mod laws_stages;
pub mod laws_tilt;
pub mod level;
pub mod limiter;
pub mod meter;

pub use biquad::HighPass;
pub use chain::VoiceChain;
pub use compressor::Compressor;
pub use eq::{BandKind, EqBand};
pub use gain::{Gain, SmoothedValue};
pub use gate::Gate;
pub use level::{db_to_linear, linear_to_db, time_to_coeff, Elementary, Processor};
pub use limiter::Limiter;
pub use meter::PeakMeter;
