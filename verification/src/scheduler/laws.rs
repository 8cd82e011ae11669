//! What holds of the scheduler across its operations.
use vstd::multiset::Multiset;
use vstd::prelude::*;

use super::model::{
    has_ranked, is_least, least_loaded, lemma_least_exists, lighter, outstanding, Dispatch,
    SchedulerModel,
};
use super::task_queue::{
    holds_judge, is_next, lemma_next_exists, lemma_reset_remove, next_task, reset_deadlines, Task,
};
use crate::constants::NODE_ZERO;

verus! {

proof fn lemma_holds_after_remove(q: Multiset<Task>, x: Task, j: u128)
    requires
        holds_judge(q, j),
        x.2 != j,
    ensures
        holds_judge(q.remove(x), j),
{
    let y = choose|y: Task| q.contains(y) && y.2 == j;
    assert(q.remove(x).contains(y));
}

proof fn lemma_holds_after_insert(q: Multiset<Task>, x: Task, j: u128)
    requires
        holds_judge(q, j) || x.2 == j,
    ensures
        holds_judge(q.insert(x), j),
{
    if x.2 == j {
        assert(q.insert(x).contains(x));
    } else {
        let y = choose|y: Task| q.contains(y) && y.2 == j;
        assert(q.insert(x).contains(y));
    }
}

/// A queue keeps a judge when its deadlines are reset.
pub proof fn lemma_reset_holds(q: Multiset<Task>, j: u128)
    requires
        holds_judge(q, j),
    ensures
        holds_judge(reset_deadlines(q), j),
{
    let y = choose|y: Task| q.contains(y) && y.2 == j;
    lemma_reset_remove(q, y);
    lemma_holds_after_insert(reset_deadlines(q.remove(y)), (0u64, y.1, y.2), j);
}

/// A task goes to the least loaded node that completed its handshake, or
/// waits on the holding node while no node has; in both cases its judge is
/// then waiting or running there.
pub proof fn lemma_push_targets_least_loaded<K>(s: SchedulerModel<K>, judge: u128, tw: u64)
    requires
        s.wf(),
        judge != 0,
    ensures
        ({
            let (t, id, d) = s.push(judge, tw);
            &&& holds_judge(t.queues[id], judge) || t.pending[id].0 == judge
            &&& has_ranked(s.ranked) ==> s.keys.contains_key(id) && forall|n: u128|
                #[trigger] s.keys.contains_key(n) ==> lighter((s.loads[id], id), (s.loads[n], n))
            &&& !has_ranked(s.ranked) ==> id == NODE_ZERO && d is None
        }),
{
    let (t, id, d) = s.push(judge, tw);
    if has_ranked(s.ranked) {
        lemma_least_exists(s.ranked);
        let m = least_loaded(s.ranked);
        assert forall|n: u128| #[trigger] s.keys.contains_key(n) implies lighter(
            (s.loads[id], id),
            (s.loads[n], n),
        ) by {
            assert(s.ranked.contains((s.loads[n], n)));
        }
        let task = ((s.times[id] + tw) as u64, tw, judge);
        let q1 = s.queues[id].insert(task);
        lemma_holds_after_insert(s.queues[id], task, judge);
        if s.pending[id] == (0u128, 0u64) {
            lemma_next_exists(q1);
            let x = next_task(q1);
            if x.2 != judge {
                lemma_holds_after_remove(q1, x, judge);
            }
        }
    } else {
        lemma_holds_after_insert(s.queues[NODE_ZERO], (0u64, tw, judge), judge);
    }
}

/// Queuing a task keeps every judge that was waiting or running.
pub proof fn lemma_push_keeps<K>(s: SchedulerModel<K>, judge: u128, tw: u64, j: u128)
    requires
        s.wf(),
        j != 0,
        outstanding(s, j),
    ensures
        outstanding(s.push(judge, tw).0, j),
{
    let (t, id, d) = s.push(judge, tw);
    let n = choose|n: u128|
        s.queues.contains_key(n) && (holds_judge(s.queues[n], j) || (j != 0 && s.pending[n].0
            == j));
    assert(t.queues.dom() == s.queues.dom()) by {
        if has_ranked(s.ranked) {
            lemma_least_exists(s.ranked);
            assert(s.keys.contains_key(id));
        }
        assert(t.queues.dom() =~= s.queues.dom());
    }
    if n != id {
        assert(t.queues[n] == s.queues[n]);
        assert(t.pending[n] == s.pending[n]);
        assert(t.queues.contains_key(n));
    } else if has_ranked(s.ranked) {
        let task = ((s.times[id] + tw) as u64, tw, judge);
        let q1 = s.queues[id].insert(task);
        if holds_judge(s.queues[id], j) {
            lemma_holds_after_insert(s.queues[id], task, j);
            if s.pending[id] == (0u128, 0u64) {
                lemma_next_exists(q1);
                let x = next_task(q1);
                if x.2 != j {
                    lemma_holds_after_remove(q1, x, j);
                }
            }
        }
        assert(t.queues.contains_key(n));
    } else {
        if holds_judge(s.queues[id], j) {
            lemma_holds_after_insert(s.queues[id], (0u64, tw, judge), j);
        }
        assert(t.queues.contains_key(n));
    }
}

/// A node runs one task at a time: queuing a task starts one only on the
/// chosen node, only when it runs nothing, and the node then runs what was
/// started.
pub proof fn lemma_push_starts_only_idle<K>(s: SchedulerModel<K>, judge: u128, tw: u64)
    requires
        s.wf(),
    ensures
        ({
            let (t, id, d) = s.push(judge, tw);
            d matches Some(x) ==> {
                &&& x.node == id
                &&& s.pending[id] == (0u128, 0u64)
                &&& t.pending[id].0 == x.judge
            }
        }),
{
}

/// Settling a node moves the time of what it ran from its load to its
/// completed time, so their sum stays the same; and whatever the node runs
/// afterwards was handed to it by that very call.
pub proof fn lemma_touch_keeps_node_work<K>(s: SchedulerModel<K>, n: u128)
    requires
        s.wf(),
        s.queues.contains_key(n),
        s.touch_fits(n),
    ensures
        s.touch(n).0.loads[n] + s.touch(n).0.times[n] == s.loads[n] + s.times[n],
        s.touch(n).0.pending[n].0 != 0 ==> s.touch(n).1 == Some(
            Dispatch { judge: s.touch(n).0.pending[n].0, node: n },
        ),
{
}

/// A node starts the task it was given with the earliest deadline.
pub proof fn lemma_touch_starts_earliest<K>(s: SchedulerModel<K>, n: u128)
    requires
        s.wf(),
        s.queues.contains_key(n),
        s.queues[n].len() > 0,
    ensures
        exists|x: Task|
            is_next(s.queues[n], x) && s.touch(n).1 == Some(Dispatch { judge: x.2, node: n })
                && forall|y: Task| s.queues[n].contains(y) ==> x.0 <= y.0,
{
    lemma_next_exists(s.queues[n]);
    let x = next_task(s.queues[n]);
    assert(s.settle(n).queues == s.queues);
    assert(is_next(s.queues[n], x));
}

/// Settling a node keeps every other judge that was waiting or running.
pub proof fn lemma_touch_keeps<K>(s: SchedulerModel<K>, n: u128, j: u128)
    requires
        s.wf(),
        s.queues.contains_key(n),
        j != 0,
        j != s.pending[n].0,
        outstanding(s, j),
    ensures
        outstanding(s.touch(n).0, j),
{
    let s1 = s.settle(n);
    let (t, d) = s.touch(n);
    let m = choose|m: u128|
        s.queues.contains_key(m) && (holds_judge(s.queues[m], j) || (j != 0 && s.pending[m].0
            == j));
    assert(t.queues.contains_key(m));
    if m == n && s1.queues[n].len() > 0 && holds_judge(s.queues[n], j) {
        lemma_next_exists(s1.queues[n]);
        let x = next_task(s1.queues[n]);
        if x.2 != j {
            lemma_holds_after_remove(s1.queues[n], x, j);
        }
    }
}

/// One hand-out step keeps every waiting or running judge.
proof fn lemma_hand_out_next_keeps<K>(s: SchedulerModel<K>, j: u128)
    requires
        s.wf(),
        s.can_hand_out(),
        j != 0,
        outstanding(s, j),
    ensures
        outstanding(s.hand_out_next().0, j),
{
    lemma_next_exists(s.queues[NODE_ZERO]);
    lemma_least_exists(s.ranked);
    let x = next_task(s.queues[NODE_ZERO]);
    let m = least_loaded(s.ranked);
    let id = m.1;
    assert(s.keys.contains_key(id));
    let t = s.hand_out_next().0;
    let task = ((s.times[id] + x.1) as u64, x.1, x.2);
    let n = choose|n: u128|
        s.queues.contains_key(n) && (holds_judge(s.queues[n], j) || (j != 0 && s.pending[n].0
            == j));
    assert(t.queues.contains_key(n));
    if holds_judge(s.queues[n], j) {
        if n == NODE_ZERO {
            if x.2 == j {
                lemma_holds_after_insert(s.queues[id], task, j);
                assert(t.queues.contains_key(id));
            } else {
                lemma_holds_after_remove(s.queues[NODE_ZERO], x, j);
            }
        } else if n == id {
            lemma_holds_after_insert(s.queues[id], task, j);
        }
    }
}

proof fn lemma_hand_out_all_keeps<K>(s: SchedulerModel<K>, used: Set<u128>, j: u128)
    requires
        s.wf(),
        s.hand_out_all_fits(),
        j != 0,
        outstanding(s, j),
    ensures
        outstanding(s.hand_out_all(used).0, j),
    decreases s.queues[NODE_ZERO].len(),
{
    if s.can_hand_out() {
        s.lemma_hand_out_next_wf();
        lemma_hand_out_next_keeps(s, j);
        let (s1, id) = s.hand_out_next();
        lemma_hand_out_all_keeps(s1, used.insert(id), j);
    }
}

/// Handing out stops only when the holding node is empty or no node may
/// receive tasks; once some node may, it empties the holding node.
proof fn lemma_hand_out_all_stops<K>(s: SchedulerModel<K>, used: Set<u128>)
    requires
        s.wf(),
        s.hand_out_all_fits(),
    ensures
        s.hand_out_all(used).0.wf(),
        has_ranked(s.ranked) ==> s.hand_out_all(used).0.queues[NODE_ZERO].len() == 0,
    decreases s.queues[NODE_ZERO].len(),
{
    if s.can_hand_out() {
        s.lemma_hand_out_next_wf();
        let (s1, id) = s.hand_out_next();
        lemma_hand_out_all_stops(s1, used.insert(id));
    } else if has_ranked(s.ranked) {
        lemma_least_exists(s.ranked);
        assert(s.keys.contains_key(least_loaded(s.ranked).1));
    }
}

proof fn lemma_start_idle_keeps<K>(s: SchedulerModel<K>, used: Set<u128>, j: u128)
    requires
        s.wf(),
        j != 0,
        outstanding(s, j),
    ensures
        outstanding(s.start_idle(used), j),
{
    let t = s.start_idle(used);
    let n = choose|n: u128|
        s.queues.contains_key(n) && (holds_judge(s.queues[n], j) || (j != 0 && s.pending[n].0
            == j));
    assert(t.queues.contains_key(n));
    if s.starts(used, n) && holds_judge(s.queues[n], j) {
        lemma_next_exists(s.queues[n]);
        let x = next_task(s.queues[n]);
        if x.2 != j {
            lemma_holds_after_remove(s.queues[n], x, j);
        }
    }
}

/// Rebalancing while some node may receive tasks leaves nothing waiting on
/// the holding node.
pub proof fn lemma_rebalance_empties_holding<K>(s: SchedulerModel<K>)
    requires
        s.wf(),
        s.rebalance_fits(),
        has_ranked(s.ranked),
    ensures
        s.rebalance().queues[NODE_ZERO].len() == 0,
{
    let x = choose|x: (u64, u128)| s.ranked.contains(x);
    assert(s.keys.contains_key(x.1));
    let two = set![NODE_ZERO, x.1];
    assert(two.subset_of(s.queues.dom()));
    assert(two.len() == 2);
    vstd::set_lib::lemma_len_subset(two, s.queues.dom());
    lemma_hand_out_all_stops(s, Set::empty());
    let (e, used) = s.hand_out_all(Set::empty());
    assert(!e.starts(used, NODE_ZERO));
}

/// While no node may receive tasks, rebalancing changes nothing and starts
/// nothing: the waiting tasks stay on the holding node.
pub proof fn lemma_rebalance_waits<K>(s: SchedulerModel<K>, ds: Seq<Dispatch>)
    requires
        s.wf(),
        !has_ranked(s.ranked),
        s.rebalance_starts(ds),
    ensures
        s.rebalance() == s,
        ds.len() == 0,
{
    if s.queues.dom().len() > 1 {
        assert(!s.can_hand_out());
        assert(s.hand_out_all(Set::empty()) == (s, Set::<u128>::empty()));
        s.lemma_start_idle_none();
        if ds.len() > 0 {
            assert(s.starts(Set::empty(), ds[0].node));
        }
    }
}

/// Rebalancing keeps every judge that was waiting or running.
pub proof fn lemma_rebalance_keeps<K>(s: SchedulerModel<K>, j: u128)
    requires
        s.wf(),
        s.rebalance_fits(),
        j != 0,
        outstanding(s, j),
    ensures
        outstanding(s.rebalance(), j),
{
    if s.queues.dom().len() > 1 {
        lemma_hand_out_all_keeps(s, Set::empty(), j);
        lemma_hand_out_all_stops(s, Set::empty());
        let (e, used) = s.hand_out_all(Set::empty());
        lemma_start_idle_keeps(e, used, j);
    }
}

/// Removing a node keeps every judge waiting anywhere or running on another
/// node; only what the removed node ran is forgotten.
pub proof fn lemma_unregister_keeps<K>(s: SchedulerModel<K>, n: u128, j: u128)
    requires
        s.wf(),
        n != NODE_ZERO,
        s.queues.contains_key(n),
        s.unregister_fits(n),
        j != 0,
        j != s.pending[n].0 || holds_judge(s.queues[n], j),
        outstanding(s, j),
    ensures
        outstanding(s.without_node(n).rebalance(), j),
{
    let w = s.without_node(n);
    s.lemma_without_node_wf(n);
    let m = choose|m: u128|
        s.queues.contains_key(m) && (holds_judge(s.queues[m], j) || (j != 0 && s.pending[m].0
            == j));
    if holds_judge(s.queues[n], j) {
        lemma_reset_holds(s.queues[n], j);
        let y = choose|y: Task| reset_deadlines(s.queues[n]).contains(y) && y.2 == j;
        assert(w.queues[NODE_ZERO].contains(y));
        assert(w.queues.contains_key(NODE_ZERO));
    } else if m == NODE_ZERO {
        let y = choose|y: Task| s.queues[NODE_ZERO].contains(y) && y.2 == j;
        assert(w.queues[NODE_ZERO].contains(y));
        assert(w.queues.contains_key(NODE_ZERO));
    } else {
        assert(m != n);
        assert(w.queues.contains_key(m));
        assert(w.queues[m] == s.queues[m]);
        assert(w.pending[m] == s.pending[m]);
    }
    lemma_rebalance_keeps(w, j);
}

/// Reporting the same handshake twice leaves the state of reporting it once.
pub proof fn lemma_promote_twice<K>(s: SchedulerModel<K>, n: u128, key: K)
    ensures
        s.promote(n, key).promote(n, key) == s.promote(n, key),
{
    let once = s.promote(n, key);
    let twice = once.promote(n, key);
    assert(twice.keys =~= once.keys);
    assert(twice.ranked =~= once.ranked);
}

} // verus!
