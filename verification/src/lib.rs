//! Keyframe ramping for RapidRAW sidecars.
pub mod json;
pub mod params;
pub mod rrdata;
pub mod sequence;
pub mod interpolate;
pub mod preview;
pub mod deflicker;
pub mod commands;
