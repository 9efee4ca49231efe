//! A cycle-driven command scheduler for shared hardware resources.
//!
//! Commands declare the subsystems they need before they run; the manager
//! admits at most one holder per subsystem per cycle, resolves conflicts
//! deterministically, backfills idle subsystems with their default commands,
//! and invokes every subsystem's periodic upkeep exactly once per cycle.
//! Exact integer-coordinate geometry and unit types used by command code
//! live alongside the scheduler core.

pub mod command;
pub mod composite;
pub mod geometry;
pub mod laws;
pub mod manager;
pub mod subsystem;
pub mod trigger;
pub mod units;
