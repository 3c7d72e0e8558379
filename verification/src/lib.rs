//! Transparent control-stick overlays from Betaflight blackbox logs.

pub mod canvas;
pub mod color;
pub mod decoder;
pub mod encode;
pub mod firmware;
pub mod inputs;
pub mod log;
pub mod options;
pub mod output;
pub mod render;
pub mod resample;
pub mod sticks;
pub mod style;
pub mod text;
