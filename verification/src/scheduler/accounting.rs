//! The loads of the worker nodes account exactly for their work.
use vstd::multiset::Multiset;
use vstd::prelude::*;

use super::by_deadline::{served, serves};
use super::model::{has_ranked, least_loaded, lemma_least_exists, Dispatch, SchedulerModel};
use super::task_queue::{
    holds_judge, lemma_next_exists, lemma_queued_work_empty, lemma_queued_work_insert,
    lemma_queued_work_remove, lemma_reset_empty, lemma_reset_remove, next_task, queued_work,
    reset_deadlines, Task,
};
use super::{SchedulerIssue, SchedulerResp};
use crate::constants::NODE_ZERO;

verus! {

proof fn lemma_lacks_after_remove(q: Multiset<Task>, x: Task, j: u128)
    requires
        !holds_judge(q, j),
    ensures
        !holds_judge(q.remove(x), j),
{
    if holds_judge(q.remove(x), j) {
        let y = choose|y: Task| q.remove(x).contains(y) && y.2 == j;
        assert(q.contains(y));
    }
}

proof fn lemma_lacks_after_insert(q: Multiset<Task>, x: Task, j: u128)
    requires
        !holds_judge(q, j),
        x.2 != j,
    ensures
        !holds_judge(q.insert(x), j),
{
    if holds_judge(q.insert(x), j) {
        let y = choose|y: Task| q.insert(x).contains(y) && y.2 == j;
        assert(q.contains(y));
    }
}

proof fn lemma_reset_lacks(q: Multiset<Task>, j: u128)
    requires
        !holds_judge(q, j),
    ensures
        !holds_judge(reset_deadlines(q), j),
    decreases q.len(),
{
    if q.len() == 0 {
        assert(q =~= Multiset::empty());
        lemma_reset_empty();
    } else {
        let x = q.choose();
        assert(q.contains(x));
        lemma_reset_remove(q, x);
        lemma_lacks_after_remove(q, x, j);
        lemma_reset_lacks(q.remove(x), j);
        lemma_lacks_after_insert(reset_deadlines(q.remove(x)), (0u64, x.1, x.2), j);
    }
}

proof fn lemma_add_lacks(a: Multiset<Task>, b: Multiset<Task>, j: u128)
    requires
        !holds_judge(a, j),
        !holds_judge(b, j),
    ensures
        !holds_judge(a.add(b), j),
{
    if holds_judge(a.add(b), j) {
        let y = choose|y: Task| a.add(b).contains(y) && y.2 == j;
        assert(a.contains(y) || b.contains(y));
    }
}

/// The tables of `s` cover the same nodes.
spec fn same_nodes<K>(s: SchedulerModel<K>) -> bool {
    &&& s.queues.dom() == s.pending.dom()
    &&& s.queues.dom() == s.loads.dom()
    &&& s.queues.contains_key(NODE_ZERO)
}

proof fn lemma_touch_exact<K>(s: SchedulerModel<K>, n: u128)
    requires
        same_nodes(s),
        s.exact_loads(),
        s.queues.contains_key(n),
        n == NODE_ZERO ==> s.queues[NODE_ZERO].len() == 0,
    ensures
        s.touch(n).0.exact_loads(),
        same_nodes(s.touch(n).0),
{
    let s1 = s.settle(n);
    assert(s1.pending[n] == (0u128, 0u64));
    assert(s1.exact_loads()) by {
        if s.pending[n].0 != 0 {
            assert forall|m: u128| #[trigger]
                s1.queues.contains_key(m) && m != NODE_ZERO implies s1.loads[m] == queued_work(
                s1.queues[m],
            ) + s1.pending[m].1 by {
                if m != n {
                    assert(s.queues.contains_key(m));
                }
            }
        }
    }
    assert(same_nodes(s1)) by {
        assert(s1.pending.dom() =~= s.pending.dom());
        assert(s1.loads.dom() =~= s.loads.dom());
    }
    if s1.queues[n].len() > 0 {
        lemma_next_exists(s1.queues[n]);
        let x = next_task(s1.queues[n]);
        let t = s.touch(n).0;
        lemma_queued_work_remove(s1.queues[n], x);
        assert(x.2 != 0) by {
            if x.2 == 0 {
                assert(holds_judge(s1.queues[n], 0));
            }
        }
        lemma_lacks_after_remove(s1.queues[n], x, 0);
        assert(t.queues.dom() =~= s1.queues.dom());
        assert(t.pending.dom() =~= s1.pending.dom());
        assert forall|m: u128| #[trigger] t.queues.contains_key(m) implies !holds_judge(
            t.queues[m],
            0,
        ) by {
            assert(s1.queues.contains_key(m));
        }
        assert forall|m: u128| #[trigger]
            t.queues.contains_key(m) && t.pending[m].0 == 0 implies t.pending[m].1 == 0 by {
            assert(s1.queues.contains_key(m));
        }
        assert forall|m: u128| #[trigger]
            t.queues.contains_key(m) && m != NODE_ZERO implies t.loads[m] == queued_work(
            t.queues[m],
        ) + t.pending[m].1 by {
            assert(s1.queues.contains_key(m));
        }
    }
}

proof fn lemma_push_exact<K>(s: SchedulerModel<K>, judge: u128, tw: u64)
    requires
        s.wf(),
        s.exact_loads(),
        s.push_fits(tw),
        judge != 0,
    ensures
        s.push(judge, tw).0.exact_loads(),
{
    if has_ranked(s.ranked) {
        lemma_least_exists(s.ranked);
        let m = least_loaded(s.ranked);
        let id = m.1;
        assert(s.keys.contains_key(id));
        let task = ((s.times[id] + tw) as u64, tw, judge);
        let s1 = SchedulerModel {
            queues: s.queues.insert(id, s.queues[id].insert(task)),
            loads: s.loads.insert(id, (m.0 + tw) as u64),
            ranked: s.ranked.remove(m).insert(((m.0 + tw) as u64, id)),
            ..s
        };
        lemma_queued_work_insert(s.queues[id], task);
        lemma_lacks_after_insert(s.queues[id], task, 0);
        assert(s1.queues.dom() =~= s.queues.dom());
        assert(s1.loads.dom() =~= s.loads.dom());
        assert(s1.exact_loads()) by {
            assert forall|n: u128| #[trigger] s1.queues.contains_key(n) implies !holds_judge(
                s1.queues[n],
                0,
            ) by {
                assert(s.queues.contains_key(n));
            }
            assert forall|n: u128| #[trigger]
                s1.queues.contains_key(n) && s1.pending[n].0 == 0 implies s1.pending[n].1 == 0 by {
                assert(s.queues.contains_key(n));
            }
            assert forall|n: u128| #[trigger]
                s1.queues.contains_key(n) && n != NODE_ZERO implies s1.loads[n] == queued_work(
                s1.queues[n],
            ) + s1.pending[n].1 by {
                assert(s.queues.contains_key(n));
            }
        }
        if s1.pending[id] == (0u128, 0u64) {
            lemma_touch_exact(s1, id);
        }
    } else {
        let t = s.push(judge, tw).0;
        lemma_lacks_after_insert(s.queues[NODE_ZERO], (0u64, tw, judge), 0);
        assert forall|n: u128| #[trigger] t.queues.contains_key(n) implies !holds_judge(
            t.queues[n],
            0,
        ) by {
            assert(s.queues.contains_key(n));
        }
        assert forall|n: u128| #[trigger]
            t.queues.contains_key(n) && t.pending[n].0 == 0 implies t.pending[n].1 == 0 by {
            assert(s.queues.contains_key(n));
        }
        assert forall|n: u128| #[trigger]
            t.queues.contains_key(n) && n != NODE_ZERO implies t.loads[n] == queued_work(
            t.queues[n],
        ) + t.pending[n].1 by {
            assert(s.queues.contains_key(n));
        }
    }
}

proof fn lemma_hand_out_all_exact<K>(s: SchedulerModel<K>, used: Set<u128>)
    requires
        s.wf(),
        s.exact_loads(),
        s.hand_out_all_fits(),
        !used.contains(NODE_ZERO),
    ensures
        s.hand_out_all(used).0.exact_loads(),
        s.hand_out_all(used).0.wf(),
        !s.hand_out_all(used).1.contains(NODE_ZERO),
    decreases s.queues[NODE_ZERO].len(),
{
    if s.can_hand_out() {
        s.lemma_hand_out_next_wf();
        lemma_next_exists(s.queues[NODE_ZERO]);
        lemma_least_exists(s.ranked);
        let x = next_task(s.queues[NODE_ZERO]);
        let m = least_loaded(s.ranked);
        let (t, id) = s.hand_out_next();
        let task = ((s.times[id] + x.1) as u64, x.1, x.2);
        assert(x.2 != 0) by {
            if x.2 == 0 {
                assert(holds_judge(s.queues[NODE_ZERO], 0));
            }
        }
        lemma_lacks_after_remove(s.queues[NODE_ZERO], x, 0);
        lemma_lacks_after_insert(s.queues[id], task, 0);
        lemma_queued_work_insert(s.queues[id], task);
        assert(t.exact_loads()) by {
            assert forall|n: u128| #[trigger] t.queues.contains_key(n) implies !holds_judge(
                t.queues[n],
                0,
            ) by {
                assert(s.queues.contains_key(n));
            }
            assert forall|n: u128| #[trigger]
                t.queues.contains_key(n) && t.pending[n].0 == 0 implies t.pending[n].1 == 0 by {
                assert(s.queues.contains_key(n));
            }
            assert forall|n: u128| #[trigger]
                t.queues.contains_key(n) && n != NODE_ZERO implies t.loads[n] == queued_work(
                t.queues[n],
            ) + t.pending[n].1 by {
                assert(s.queues.contains_key(n));
            }
        }
        lemma_hand_out_all_exact(t, used.insert(id));
    }
}

proof fn lemma_start_idle_exact<K>(s: SchedulerModel<K>, used: Set<u128>)
    requires
        same_nodes(s),
        s.exact_loads(),
        !used.contains(NODE_ZERO),
    ensures
        s.start_idle(used).exact_loads(),
{
    let t = s.start_idle(used);
    assert forall|n: u128| #[trigger] t.queues.contains_key(n) implies !holds_judge(
        t.queues[n],
        0,
    ) by {
        if s.starts(used, n) {
            lemma_lacks_after_remove(s.queues[n], next_task(s.queues[n]), 0);
        }
    }
    assert forall|n: u128| #[trigger]
        t.queues.contains_key(n) && t.pending[n].0 == 0 implies t.pending[n].1 == 0 by {
        if s.starts(used, n) {
            lemma_next_exists(s.queues[n]);
            let x = next_task(s.queues[n]);
            if x.2 == 0 {
                assert(holds_judge(s.queues[n], 0));
            }
        }
    }
    assert forall|n: u128| #[trigger]
        t.queues.contains_key(n) && n != NODE_ZERO implies t.loads[n] == queued_work(t.queues[n])
        + t.pending[n].1 by {
        if s.starts(used, n) {
            lemma_next_exists(s.queues[n]);
            lemma_queued_work_remove(s.queues[n], next_task(s.queues[n]));
        }
    }
}

proof fn lemma_rebalance_exact<K>(s: SchedulerModel<K>)
    requires
        s.wf(),
        s.exact_loads(),
        s.rebalance_fits(),
    ensures
        s.rebalance().exact_loads(),
{
    if s.queues.dom().len() > 1 {
        lemma_hand_out_all_exact(s, Set::empty());
        let (e, used) = s.hand_out_all(Set::empty());
        lemma_start_idle_exact(e, used);
    }
}

proof fn lemma_with_node_exact<K>(s: SchedulerModel<K>, n: u128)
    requires
        s.wf(),
        s.exact_loads(),
        !s.queues.contains_key(n),
    ensures
        s.with_node(n).exact_loads(),
{
    let t = s.with_node(n);
    lemma_queued_work_empty();
    assert forall|m: u128| #[trigger] t.queues.contains_key(m) implies !holds_judge(
        t.queues[m],
        0,
    ) by {
        if m == n {
            lemma_lacks_after_remove(Multiset::<Task>::empty(), (0u64, 0u64, 0u128), 0);
            assert(!holds_judge(Multiset::<Task>::empty(), 0));
        } else {
            assert(s.queues.contains_key(m));
        }
    }
    assert forall|m: u128| #[trigger]
        t.queues.contains_key(m) && t.pending[m].0 == 0 implies t.pending[m].1 == 0 by {
        if m != n {
            assert(s.queues.contains_key(m));
        }
    }
    assert forall|m: u128| #[trigger]
        t.queues.contains_key(m) && m != NODE_ZERO implies t.loads[m] == queued_work(t.queues[m])
        + t.pending[m].1 by {
        if m != n {
            assert(s.queues.contains_key(m));
        }
    }
}

proof fn lemma_without_node_exact<K>(s: SchedulerModel<K>, n: u128)
    requires
        s.wf(),
        s.exact_loads(),
        s.queues.contains_key(n),
        n != NODE_ZERO,
    ensures
        s.without_node(n).exact_loads(),
{
    let t = s.without_node(n);
    lemma_reset_lacks(s.queues[n], 0);
    lemma_add_lacks(s.queues[NODE_ZERO], reset_deadlines(s.queues[n]), 0);
    assert forall|m: u128| #[trigger] t.queues.contains_key(m) implies !holds_judge(
        t.queues[m],
        0,
    ) by {
        assert(s.queues.contains_key(m));
    }
    assert forall|m: u128| #[trigger]
        t.queues.contains_key(m) && t.pending[m].0 == 0 implies t.pending[m].1 == 0 by {
        assert(s.queues.contains_key(m));
    }
    assert forall|m: u128| #[trigger]
        t.queues.contains_key(m) && m != NODE_ZERO implies t.loads[m] == queued_work(t.queues[m])
        + t.pending[m].1 by {
        assert(s.queues.contains_key(m));
    }
}

/// Every request the scheduler serves keeps the loads exact, as long as no
/// task is queued for the nil judge: a worker node's load stays the time of
/// what waits on it plus that of what it runs, and the holding node runs
/// nothing.
pub proof fn lemma_served_keeps_exact_loads<K>(
    s: SchedulerModel<K>,
    msg: SchedulerIssue<K>,
    t: SchedulerModel<K>,
    resp: SchedulerResp,
    ds: Seq<Dispatch>,
)
    requires
        s.wf(),
        s.exact_loads(),
        serves(s, msg),
        served(s, msg, t, resp, ds),
        msg matches SchedulerIssue::NewTask(j, _, _) ==> j != 0,
    ensures
        t.exact_loads(),
{
    match msg {
        SchedulerIssue::NewNode(n) => {
            if !s.queues.contains_key(n) {
                s.lemma_with_node_wf(n);
                lemma_with_node_exact(s, n);
                lemma_rebalance_exact(s.with_node(n));
            }
        },
        SchedulerIssue::RemoveNode(n) => {
            if s.queues.contains_key(n) {
                s.lemma_without_node_wf(n);
                lemma_without_node_exact(s, n);
                lemma_rebalance_exact(s.without_node(n));
            }
        },
        SchedulerIssue::ForceRebalance => {
            lemma_rebalance_exact(s);
        },
        SchedulerIssue::NewTask(j, tt, w) => {
            lemma_push_exact(s, j, (tt * w) as u64);
        },
        SchedulerIssue::Touch(n) => {
            lemma_touch_exact(s, n);
        },
        SchedulerIssue::HandshakeEstablished(n, k) => {},
        SchedulerIssue::Exists(n) => {},
    }
}

} // verus!
