//! The deadlines the scheduler gives the tasks it hands to worker nodes.
use vstd::multiset::Multiset;
use vstd::prelude::*;

use super::model::{has_ranked, least_loaded, lemma_least_exists, SchedulerModel};
use super::task_queue::{is_next, lemma_next_exists, next_task, Task};
use crate::constants::NODE_ZERO;

verus! {

/// Every task that `after` holds more often than `before` is due once the
/// node has completed `done` units of work plus the task's weighted time.
pub open spec fn added_due(before: Multiset<Task>, after: Multiset<Task>, done: u64) -> bool {
    forall|y: Task| #[trigger] after.count(y) > before.count(y) ==> y.0 == done + y.1
}

/// A judge queued on a ready node is due once that node has completed the
/// work it completed so far plus the judge's weighted time: it waits there
/// with that deadline, or, when the node was idle, the node starts the task
/// it serves first among those waiting and the new one.
pub proof fn lemma_push_deadline<K>(s: SchedulerModel<K>, judge: u128, tw: u64)
    requires
        s.wf(),
        s.push_fits(tw),
        has_ranked(s.ranked),
    ensures
        ({
            let (t, id, d) = s.push(judge, tw);
            let task = ((s.times[id] + tw) as u64, tw, judge);
            &&& s.keys.contains_key(id)
            &&& task.0 == s.times[id] + tw
            &&& t.times == s.times
            &&& d is None ==> t.queues[id] == s.queues[id].insert(task)
            &&& d matches Some(x) ==> {
                &&& x.node == id
                &&& s.pending[id] == (0u128, 0u64)
                &&& exists|y: Task|
                    #[trigger] is_next(s.queues[id].insert(task), y) && y.2 == x.judge
                        && t.queues[id] == s.queues[id].insert(task).remove(y)
            }
        }),
{
    lemma_least_exists(s.ranked);
    let m = least_loaded(s.ranked);
    let id = m.1;
    assert(s.keys.contains_key(id));
    let task = ((s.times[id] + tw) as u64, tw, judge);
    let q1 = s.queues[id].insert(task);
    let (t, id2, d) = s.push(judge, tw);
    if d is Some {
        lemma_next_exists(q1);
        let y = next_task(q1);
        assert(is_next(q1, y));
    }
}

proof fn lemma_hand_out_all_deadlines<K>(s: SchedulerModel<K>, used: Set<u128>)
    requires
        s.wf(),
        s.hand_out_all_fits(),
    ensures
        s.hand_out_all(used).0.times == s.times,
        s.hand_out_all(used).0.pending == s.pending,
        s.hand_out_all(used).0.queues.dom() == s.queues.dom(),
        forall|n: u128|
            s.queues.contains_key(n) && n != NODE_ZERO ==> added_due(
                s.queues[n],
                #[trigger] s.hand_out_all(used).0.queues[n],
                s.times[n],
            ),
    decreases s.queues[NODE_ZERO].len(),
{
    if s.can_hand_out() {
        s.lemma_hand_out_next_wf();
        lemma_next_exists(s.queues[NODE_ZERO]);
        lemma_least_exists(s.ranked);
        let x = next_task(s.queues[NODE_ZERO]);
        let (t, id) = s.hand_out_next();
        let task = ((s.times[id] + x.1) as u64, x.1, x.2);
        assert(s.hand_out_next_fits());
        lemma_hand_out_all_deadlines(t, used.insert(id));
        let e = t.hand_out_all(used.insert(id)).0;
        assert(s.hand_out_all(used).0 == e);
        assert forall|n: u128| s.queues.contains_key(n) && n != NODE_ZERO implies added_due(
            s.queues[n],
            #[trigger] s.hand_out_all(used).0.queues[n],
            s.times[n],
        ) by {
            assert(t.queues.contains_key(n));
            assert(added_due(t.queues[n], e.queues[n], t.times[n]));
            assert forall|y: Task| #[trigger] e.queues[n].count(y) > s.queues[n].count(y) implies y.0
                == s.times[n] + y.1 by {
                if e.queues[n].count(y) <= t.queues[n].count(y) {
                    assert(n == id && y == task);
                }
            }
        }
    }
}

/// Rebalancing hands each task to a ready node with as deadline that
/// node's completed work plus the task's weighted time: every task that
/// waits on a worker node afterwards and did not wait there before is so due.
pub proof fn lemma_rebalance_deadlines<K>(s: SchedulerModel<K>)
    requires
        s.wf(),
        s.rebalance_fits(),
    ensures
        s.rebalance().queues.dom() == s.queues.dom(),
        forall|n: u128|
            s.queues.contains_key(n) && n != NODE_ZERO ==> added_due(
                s.queues[n],
                #[trigger] s.rebalance().queues[n],
                s.times[n],
            ),
{
    if s.queues.dom().len() > 1 {
        lemma_hand_out_all_deadlines(s, Set::empty());
        let (e, used) = s.hand_out_all(Set::empty());
        let r = s.rebalance();
        assert(r.queues.dom() =~= s.queues.dom());
        assert forall|n: u128| s.queues.contains_key(n) && n != NODE_ZERO implies added_due(
            s.queues[n],
            #[trigger] s.rebalance().queues[n],
            s.times[n],
        ) by {
            assert(e.queues.contains_key(n));
            assert(added_due(s.queues[n], e.queues[n], s.times[n]));
            assert forall|y: Task| #[trigger] r.queues[n].count(y) > s.queues[n].count(y) implies y.0
                == s.times[n] + y.1 by {
                assert(r.queues[n].count(y) <= e.queues[n].count(y));
            }
        }
    }
}

} // verus!
