//! Dynamic-programming planners for a turn-based crafting simulation.
//!
//! Given a crafter's attributes and a recipe, the planners find actions that
//! finish the craft while adding as much quality as they can, preferring the
//! shorter plan when two reach as much.
//!
//! - [`progress`]: the progress table, filled eagerly;
//! - [`quality`]: the quality table, filled lazily, which admits a touch only
//!   while the progress table still guarantees finishing;
//! - [`ordinary`]: the same quality recurrence filled eagerly, once per
//!   progress credit;
//! - [`memory_search`]: a quality-only search over actions that cannot fail;
//! - [`solver`]: the interface all planners share; [`registry`]: the
//!   lifecycle of one planner per craft;
//! - [`table`]: the flat tables behind them; [`slot`]: their entries;
//! - [`laws`]: properties that hold of every plan and state.
//!
//! The simulation itself (what one action does to a state, and whether it is
//! legal) comes from the `ffxiv_crafting` crate and is reached only through
//! the wrappers of [`oracle`]. Everything else is verified here.
pub mod laws;
pub mod memory_search;
pub mod model;
pub mod oracle;
pub mod ordinary;
pub mod progress;
pub mod quality;
pub mod registry;
pub mod slot;
pub mod solver;
pub mod table;
