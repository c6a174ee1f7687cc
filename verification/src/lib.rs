//! Measuring, publishing and controlling a camera's video: the decisions, verified.
//!
//! Each module holds what one command decides, as functions from plain values to
//! plain values. Whoever calls them does the waiting, sending and printing.

pub mod camera;
pub mod crop;
pub mod framestats;
pub mod paths;
pub mod single;
pub mod syphon;
pub mod text;
pub mod ui;
