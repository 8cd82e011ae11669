//! Fixed values shared by the scheduler and the judge pipeline.
use vstd::prelude::*;

verus! {

/// Seconds between two liveness probes of a connected node.
pub const CHECK_ALIVE_SECS: u64 = 5;

/// The holding node: tasks wait here while no worker node can take them.
pub const NODE_ZERO: u128 = 0;

/// The weight of a first-priority judge.
pub const FIRST_PRIORITY: u64 = 1;

/// Where a grader archive keeps the main file when the request names none.
pub const DEFAULT_MAIN_PATH: &'static str = "graders/main.pms";

/// Where a grader archive keeps the object file when the request names none.
pub const DEFAULT_OBJECT_PATH: &'static str = "graders/object.pms";

/// The number of processes a grader runs when the request names none.
pub const DEFAULT_PROCESSES: usize = 2;

} // verus!
