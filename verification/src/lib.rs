//! An in-memory commit-history visualizer core: a commit DAG keyed by id,
//! a deterministic layout over it, and a pan/zoom viewport state machine.
pub mod graph;
pub mod layout;
pub mod rat;
pub mod viewport;

use vstd::prelude::*;

verus! {

/// Intents emitted toward the hosting application.
#[derive(Debug, Clone)]
pub enum Message {
    RefreshTree,
    SelectCommit(String),
    UnselectCommit,
    SwitchToCommit(String),
}

} // verus!
