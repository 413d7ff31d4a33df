//! The task hierarchy engine of a command-line client for a remote
//! task-tracking service.
//!
//! A flat collection of task records, each with an optional parent
//! reference, is assembled into a forest of depth-annotated nodes
//! ([`tree`]), pruned by predicates either strictly or expandingly
//! ([`filter`]), ordered by a family of comparators ([`sort`]), and
//! optionally partitioned into per-project buckets with member counts
//! ([`group`]). Around the engine stand the validated pieces of the
//! surrounding commands: date ranges for the completed-tasks listing
//! ([`dates`]) and the deadline and duration arguments of task creation
//! and editing ([`params`]).
pub mod api;
pub mod dates;
pub mod filter;
pub mod group;
pub mod model;
pub mod params;
pub mod project;
pub mod section;
pub mod sort;
pub mod tree;
