//! Verified core of a golden-report test runner for trading strategies.

pub mod cli;
pub mod csv;
pub mod json;
pub mod keymap;
pub mod model;
pub mod property;
pub mod render;
pub mod runner;
pub mod session;
pub mod text;
pub mod tolerance;
