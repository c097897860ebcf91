//! Snaps blurry pixel art to a clean grid.

pub mod args;
pub mod candidate;
pub mod config;
pub mod cuts;
pub mod error;
pub mod lines;
pub mod order;
pub mod palette;
pub mod picture;
pub mod quantize;
pub mod resample;
pub mod stabilize;
pub mod steps;
pub mod text;
pub mod walk;
