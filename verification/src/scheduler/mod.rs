//! Scheduling judges over the worker nodes.
pub mod accounting;
pub mod by_deadline;
pub mod deadlines;
pub mod laws;
pub mod model;
pub mod ranking;
pub mod task_queue;

use vstd::prelude::*;

verus! {

/// Why the scheduler refused a request.
#[derive(Clone, Copy, Debug, PartialEq, Eq, Structural)]
pub enum SchedulerError {
    NoNodeFound,
    NodeAlreadyExists,
    Unknown,
}

/// What a scheduler operation returns.
pub type SchedulerResult<T> = Result<T, SchedulerError>;

/// A request to the scheduler. `K` is the type of a node's shared key.
pub enum SchedulerIssue<K> {
    /// A node connected: `(node_id)`.
    NewNode(u128),
    /// A node left: `(node_id)`.
    RemoveNode(u128),
    /// A judge to run: `(judge_id, estimated time, weight)`.
    NewTask(u128, u64, u64),
    /// A node finished what it ran: `(node_id)`.
    Touch(u128),
    /// A node completed its handshake: `(node_id, shared key)`.
    HandshakeEstablished(u128, K),
    /// Whether a node is registered: `(node_id)`.
    Exists(u128),
    /// Hand the waiting tasks out again. Not meant for general use.
    ForceRebalance,
}

/// The scheduler's answer to a request.
#[derive(Clone, Copy, Debug, PartialEq, Eq, Structural)]
pub enum SchedulerResp {
    /// Done, with nothing to report.
    Empty,
    Node(u128),
    Error(SchedulerError),
}

} // verus!
