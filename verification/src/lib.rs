//! A finite-domain constraint solver: integer variables with explicit
//! domains, propagators that prune them, an event graph that schedules
//! propagators, and a depth-first search over the resulting spaces.

pub mod variables;
pub mod constraints;
pub mod graph;
pub mod branchers;
pub mod spaces;
pub mod search;
pub mod event_graph;
pub mod demo_graph;
