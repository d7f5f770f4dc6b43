//! Flame-chart layouts and aggregations of a thread's samples.
//!
//! [`layout()`] is the time-ordered chart, [`call_tree()`] the samples merged by call
//! path, [`left_heavy()`] the chart of that tree, and [`flat_profile`] one row per
//! function.

pub mod call_tree;
pub mod functions;
pub mod layout;
pub mod left_heavy;

pub use call_tree::{call_tree, CallNode, CallTree};
pub use functions::{flat_profile, sample_gap, symbol_stats, FunctionStat, Stats};
pub use layout::{layout, Brick};
pub use left_heavy::left_heavy;
