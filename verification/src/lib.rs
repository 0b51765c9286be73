//! An anytime search library for minimum-length walks that visit every node
//! of a weighted, undirected multigraph.
//!
//! The crate holds the verified core of the search: the candidate-walk type
//! with its repetition rules, the bounded frontier store that spills its cold
//! tail into an encoded byte stack, the expansion and goal-acceptance logic of
//! a worker, and the decision state of the solution and log sinks.  Thread
//! plumbing, channels and file handles live outside the library and only call
//! into these verified functions.

pub mod codec;
pub mod graph;
pub mod search;
pub mod sink;
pub mod store;
pub mod walk;
