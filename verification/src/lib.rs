//! The core of a flamegraph viewer: the common profile model, the parsers that fill it,
//! and the layouts, aggregations and reports made from it.
//!
//! * [`profile`] – frames, interning, samples, threads and profiles;
//! * [`recording`] – what a profile says of the records that it was built from;
//! * [`parsers`] – `perf script` text, perf JSON and Gecko documents, and format
//!   detection;
//! * [`flame`] – the time-ordered chart, the call tree, the left-heavy chart and the
//!   flat profile;
//! * [`validate`], [`hotspots`], [`viewer`] – the validator, the report and the state of
//!   the window;
//! * [`synthetic`] – generated profiles;
//! * [`text`], [`sort`] – strings as sequences of characters, and a merge sort.
//!
//! Times are opaque here: a [`profile::Profile`] is generic over the type of its
//! timestamps and only carries them. Layouts count samples or events, and where a time
//! is asked for, the library says which samples it is made of.

pub mod flame;
pub mod hotspots;
pub mod parsers;
pub mod profile;
pub mod recording;
pub mod sort;
pub mod synthetic;
pub mod text;
pub mod validate;
pub mod viewer;
