//! Reader, control-flow graph and coverage report for gcov note and data files.
//!
//! Bytes are decoded by [`reader::Reader`] into the raw record model of [`raw`], merged into a
//! [`graph::Graph`], completed by [`graph::Graph::analyze`] and projected into a
//! [`report::Report`].
//!
//! What each step does is stated over mathematical models: [`format`] says what bytes are
//! read as, [`model`] what merging does to the graph, [`flow`] and [`counts`] what the
//! analysis establishes, and [`projection`] how the report follows from the graph.
//! [`merging`], [`line_counts`], [`conservation`] and [`solution`] hold what follows from
//! that. [`natural`] compares names in natural order.

pub mod bitset;
pub mod bytes;
pub mod conservation;
pub mod counts;
pub mod error;
pub mod flow;
pub mod format;
pub mod graph;
pub mod intern;
pub mod line_counts;
pub mod merging;
pub mod model;
pub mod natural;
pub mod projection;
pub mod raw;
pub mod reader;
pub mod report;
pub mod solution;
pub mod sourcepath;
pub mod specimen;
pub mod topology;
pub mod utils;
