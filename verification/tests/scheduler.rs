use pms_master::constants::NODE_ZERO;
use pms_master::scheduler::by_deadline::ByDeadlineWeighted;
use pms_master::scheduler::model::Dispatch;
use pms_master::scheduler::task_queue::TaskQueue;
use pms_master::scheduler::{SchedulerError, SchedulerIssue, SchedulerResp};

fn ready_node(s: &mut ByDeadlineWeighted<u32>, node: u128, key: u32) {
    let (r, ds) = s.register(node);
    assert_eq!(r, Ok(()));
    assert!(ds.is_empty());
    assert_eq!(s.promote(node, key), Ok(()));
}

#[test]
fn queue_serves_earliest_deadline_then_shortest_then_largest_id() {
    let mut q = TaskQueue::new();
    q.push((5, 1, 1));
    q.push((3, 9, 2));
    q.push((3, 2, 3));
    q.push((3, 2, 9));
    assert_eq!(q.len(), 4);
    assert_eq!(q.pop(), Some((3, 2, 9)));
    assert_eq!(q.pop(), Some((3, 2, 3)));
    assert_eq!(q.pop(), Some((3, 9, 2)));
    assert_eq!(q.pop(), Some((5, 1, 1)));
    assert_eq!(q.pop(), None);
    assert_eq!(q.len(), 0);
}

#[test]
fn task_without_ready_node_waits_on_holding_node() {
    let mut s: ByDeadlineWeighted<u32> = ByDeadlineWeighted::new();
    let (r, d) = s.push(7, 10, 1);
    assert_eq!(r, Ok(NODE_ZERO));
    assert_eq!(d, None);
}

#[test]
fn task_goes_to_idle_ready_node_and_starts() {
    let mut s: ByDeadlineWeighted<u32> = ByDeadlineWeighted::new();
    ready_node(&mut s, 1, 11);
    let (r, d) = s.push(100, 10, 2);
    assert_eq!(r, Ok(1));
    assert_eq!(d, Some(Dispatch { judge: 100, node: 1 }));
    assert_eq!(*s.key_of(1), 11);
    // the node is busy: the next task waits
    let (r, d) = s.push(101, 3, 1);
    assert_eq!(r, Ok(1));
    assert_eq!(d, None);
}

#[test]
fn task_goes_to_least_loaded_node() {
    let mut s: ByDeadlineWeighted<u32> = ByDeadlineWeighted::new();
    ready_node(&mut s, 1, 11);
    ready_node(&mut s, 2, 22);
    // both idle with load 0: the smaller id wins
    let (r, d) = s.push(100, 10, 2);
    assert_eq!(r, Ok(1));
    assert_eq!(d, Some(Dispatch { judge: 100, node: 1 }));
    // node 1 now carries 20, node 2 carries 0
    let (r, d) = s.push(101, 5, 1);
    assert_eq!(r, Ok(2));
    assert_eq!(d, Some(Dispatch { judge: 101, node: 2 }));
    // node 1: 20, node 2: 5
    let (r, d) = s.push(102, 1, 1);
    assert_eq!(r, Ok(2));
    assert_eq!(d, None);
}

#[test]
fn touch_settles_and_starts_next_by_deadline() {
    let mut s: ByDeadlineWeighted<u32> = ByDeadlineWeighted::new();
    ready_node(&mut s, 1, 11);
    let (_, d) = s.push(100, 10, 1);
    assert_eq!(d, Some(Dispatch { judge: 100, node: 1 }));
    // queued behind judge 100: deadlines 0 + 7 and 0 + 4
    let (_, d) = s.push(101, 7, 1);
    assert_eq!(d, None);
    let (_, d) = s.push(102, 4, 1);
    assert_eq!(d, None);
    // judge 100 done: the earliest deadline, judge 102, starts
    assert_eq!(s.touch(1), Some(Dispatch { judge: 102, node: 1 }));
    assert_eq!(s.touch(1), Some(Dispatch { judge: 101, node: 1 }));
    assert_eq!(s.touch(1), None);
    // idle again: a new task starts at once
    let (_, d) = s.push(103, 1, 1);
    assert_eq!(d, Some(Dispatch { judge: 103, node: 1 }));
}

#[test]
fn waiting_task_starts_on_an_idle_node_when_its_node_leaves() {
    let mut s: ByDeadlineWeighted<u32> = ByDeadlineWeighted::new();
    ready_node(&mut s, 1, 11);
    let (_, d) = s.push(100, 10, 1);
    assert_eq!(d, Some(Dispatch { judge: 100, node: 1 }));
    let (_, d) = s.push(101, 10, 1);
    assert_eq!(d, None);
    ready_node(&mut s, 2, 22);
    // node 1 leaves: judge 101 goes to the idle node 2 and starts; judge 100 is forgotten
    let (r, ds) = s.unregister(1);
    assert_eq!(r, Ok(()));
    assert_eq!(ds, vec![Dispatch { judge: 101, node: 2 }]);
    assert_eq!(*s.key_of(2), 22);
}

#[test]
fn removing_a_node_hands_its_tasks_to_the_others() {
    let mut s: ByDeadlineWeighted<u32> = ByDeadlineWeighted::new();
    ready_node(&mut s, 5, 55);
    let (_, d) = s.push(200, 10, 1);
    assert_eq!(d, Some(Dispatch { judge: 200, node: 5 }));
    let (_, d) = s.push(201, 2, 1);
    assert_eq!(d, None);
    ready_node(&mut s, 9, 99);
    let (r, d) = s.push(202, 1, 1);
    assert_eq!(r, Ok(9));
    assert_eq!(d, Some(Dispatch { judge: 202, node: 9 }));
    let (r, ds) = s.unregister(5);
    assert_eq!(r, Ok(()));
    // judge 201 was waiting on node 5; node 9 is busy, so it waits there
    assert!(ds.is_empty());
    assert_eq!(s.touch(9), Some(Dispatch { judge: 201, node: 9 }));
}

#[test]
fn holding_tasks_wait_until_a_node_is_ready() {
    let mut s: ByDeadlineWeighted<u32> = ByDeadlineWeighted::new();
    let (r, _) = s.push(300, 1, 1);
    assert_eq!(r, Ok(NODE_ZERO));
    let (r, _) = s.push(301, 2, 1);
    assert_eq!(r, Ok(NODE_ZERO));
    // a node registers before its handshake: the waiting tasks stay put
    let (r, ds) = s.register(4);
    assert_eq!(r, Ok(()));
    assert!(ds.is_empty());
    assert_eq!(s.waiting_on(NODE_ZERO), 2);
    assert!(s.rebalance().is_empty());
    assert_eq!(s.waiting_on(NODE_ZERO), 2);
    // once the handshake is done, rebalancing hands them out
    assert_eq!(s.promote(4, 44), Ok(()));
    assert_eq!(s.rebalance(), vec![Dispatch { judge: 300, node: 4 }]);
    assert_eq!(s.waiting_on(NODE_ZERO), 0);
    assert_eq!(s.touch(4), Some(Dispatch { judge: 301, node: 4 }));
    assert_eq!(s.touch(4), None);
}

#[test]
fn holding_tasks_survive_the_last_ready_node_leaving() {
    let mut s: ByDeadlineWeighted<u32> = ByDeadlineWeighted::new();
    ready_node(&mut s, 1, 11);
    let (_, d) = s.push(400, 5, 1);
    assert_eq!(d, Some(Dispatch { judge: 400, node: 1 }));
    let (_, d) = s.push(401, 5, 1);
    assert_eq!(d, None);
    let (r, ds) = s.register(2);
    assert_eq!(r, Ok(()));
    assert!(ds.is_empty());
    // node 1 leaves while node 2 has no handshake: judge 401 waits on the holding node
    let (r, ds) = s.unregister(1);
    assert_eq!(r, Ok(()));
    assert!(ds.is_empty());
    assert_eq!(s.waiting_on(NODE_ZERO), 1);
    assert_eq!(s.promote(2, 22), Ok(()));
    assert_eq!(s.rebalance(), vec![Dispatch { judge: 401, node: 2 }]);
}

#[test]
fn registering_twice_and_removing_unknown_nodes_fail() {
    let mut s: ByDeadlineWeighted<u32> = ByDeadlineWeighted::new();
    let (r, _) = s.register(1);
    assert_eq!(r, Ok(()));
    let (r, ds) = s.register(1);
    assert_eq!(r, Err(SchedulerError::NodeAlreadyExists));
    assert!(ds.is_empty());
    let (r, _) = s.register(NODE_ZERO);
    assert_eq!(r, Err(SchedulerError::NodeAlreadyExists));
    let (r, _) = s.unregister(2);
    assert_eq!(r, Err(SchedulerError::NoNodeFound));
    assert_eq!(s.promote(2, 0), Err(SchedulerError::NoNodeFound));
}

#[test]
fn handle_answers_each_request() {
    let mut s: ByDeadlineWeighted<u32> = ByDeadlineWeighted::new();
    let (r, ds) = s.handle(SchedulerIssue::NewNode(1));
    assert_eq!(r, SchedulerResp::Empty);
    assert!(ds.is_empty());
    let (r, _) = s.handle(SchedulerIssue::NewNode(1));
    assert_eq!(r, SchedulerResp::Error(SchedulerError::NodeAlreadyExists));
    let (r, _) = s.handle(SchedulerIssue::Exists(1));
    assert_eq!(r, SchedulerResp::Empty);
    let (r, _) = s.handle(SchedulerIssue::Exists(2));
    assert_eq!(r, SchedulerResp::Error(SchedulerError::NoNodeFound));
    let (r, _) = s.handle(SchedulerIssue::HandshakeEstablished(2, 7));
    assert_eq!(r, SchedulerResp::Error(SchedulerError::NoNodeFound));
    let (r, _) = s.handle(SchedulerIssue::HandshakeEstablished(1, 7));
    assert_eq!(r, SchedulerResp::Empty);
    let (r, ds) = s.handle(SchedulerIssue::NewTask(40, 3, 2));
    assert_eq!(r, SchedulerResp::Node(1));
    assert_eq!(ds, vec![Dispatch { judge: 40, node: 1 }]);
    let (r, ds) = s.handle(SchedulerIssue::NewTask(41, 3, 2));
    assert_eq!(r, SchedulerResp::Node(1));
    assert!(ds.is_empty());
    let (r, ds) = s.handle(SchedulerIssue::Touch(1));
    assert_eq!(r, SchedulerResp::Empty);
    assert_eq!(ds, vec![Dispatch { judge: 41, node: 1 }]);
    let (r, ds) = s.handle(SchedulerIssue::ForceRebalance);
    assert_eq!(r, SchedulerResp::Empty);
    assert!(ds.is_empty());
    let (r, _) = s.handle(SchedulerIssue::RemoveNode(1));
    assert_eq!(r, SchedulerResp::Empty);
    let (r, _) = s.handle(SchedulerIssue::RemoveNode(1));
    assert_eq!(r, SchedulerResp::Error(SchedulerError::NoNodeFound));
    assert!(!s.contains_node(1));
    assert!(s.contains_node(NODE_ZERO));
}

#[test]
fn arithmetic_limits_are_reported() {
    let mut s: ByDeadlineWeighted<u32> = ByDeadlineWeighted::new();
    assert!(s.fits_push(u64::MAX));
    let (r, _) = s.push(1, u64::MAX, 1);
    assert_eq!(r, Ok(NODE_ZERO));
    assert!(!s.fits_push(1));
    assert!(s.fits_push(0));
    assert_eq!(s.waiting_on(NODE_ZERO), 1);
    ready_node(&mut s, 3, 33);
    let (_, d) = s.push(2, 10, 1);
    assert_eq!(d, Some(Dispatch { judge: 2, node: 3 }));
    assert!(s.fits_touch(3));
    assert!(s.fits_push(u64::MAX - 10));
    assert!(!s.fits_push(u64::MAX - 9));
}

#[test]
fn rebalancing_limits_are_reported() {
    let mut s: ByDeadlineWeighted<u32> = ByDeadlineWeighted::new();
    let (r, _) = s.push(1, u64::MAX, 1);
    assert_eq!(r, Ok(NODE_ZERO));
    // nothing else registered, and no node may receive tasks yet
    assert!(s.fits_rebalance());
    assert!(s.fits_register(2));
    ready_node(&mut s, 2, 22);
    let (_, d) = s.push(2, 10, 1);
    assert_eq!(d, Some(Dispatch { judge: 2, node: 2 }));
    // handing the long task to node 2 would push its load past u64::MAX
    assert!(!s.fits_rebalance());
    assert!(s.fits_register(2));
    assert!(!s.fits_register(3));
    assert!(s.fits_unregister(9));
    // node 2 has nothing waiting: removing it adds nothing to the holding node
    assert!(s.fits_unregister(2));
    let (_, d) = s.push(3, 5, 1);
    assert_eq!(d, None);
    assert!(!s.fits_unregister(2));
}

#[test]
fn load_is_running_plus_waiting_time() {
    let mut s: ByDeadlineWeighted<u32> = ByDeadlineWeighted::new();
    ready_node(&mut s, 1, 11);
    ready_node(&mut s, 2, 22);
    let (r, _) = s.push(100, 10, 1);
    assert_eq!(r, Ok(1));
    let (r, _) = s.push(101, 4, 1);
    assert_eq!(r, Ok(2));
    let (r, d) = s.push(102, 3, 1);
    assert_eq!(r, Ok(2));
    assert_eq!(d, None);
    // node 2 is the least loaded: 4 running plus 3 waiting
    assert!(s.fits_push(u64::MAX - 7));
    assert!(!s.fits_push(u64::MAX - 6));
}

#[test]
fn repeated_handshake_changes_nothing() {
    let mut s: ByDeadlineWeighted<u32> = ByDeadlineWeighted::new();
    ready_node(&mut s, 1, 11);
    assert_eq!(s.promote(1, 11), Ok(()));
    assert_eq!(*s.key_of(1), 11);
    assert!(s.fits_push(u64::MAX));
    let (r, d) = s.push(100, 2, 1);
    assert_eq!(r, Ok(1));
    assert_eq!(d, Some(Dispatch { judge: 100, node: 1 }));
    assert!(s.fits_push(u64::MAX - 2));
    assert!(!s.fits_push(u64::MAX - 1));
}
