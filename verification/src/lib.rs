pub mod accuracy;
pub mod app;
pub mod arith;
pub mod audio;
pub mod cli;
pub mod controls;
pub mod double;
pub mod dsp;
pub mod float;
pub mod laws;
pub mod nearest;
pub mod numbers;
pub mod numeric;
pub mod rounding;
pub mod single;
pub mod state;
pub mod text;
pub mod tray;
