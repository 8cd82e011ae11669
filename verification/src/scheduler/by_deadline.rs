//! The scheduler that hands each judge to the least loaded node and lets
//! every node serve its tasks by earliest deadline.
use std::collections::{BTreeSet, HashMap};
use vstd::multiset::Multiset;
use vstd::prelude::*;

use vstd::std_specs::btree::{increasing_seq, spec_btree_keys_iter};
use vstd::std_specs::iter::IteratorSpec;

use super::model::{
    has_ranked, hand_out_fits, inflight, lemma_hand_out_fits_times, lemma_least_is, Dispatch,
    SchedulerModel,
};
use super::ranking::least_entry;
use super::task_queue::{
    is_next, lemma_next_exists, lemma_next_unique, lemma_queued_work_empty, lemma_queued_work_insert,
    lemma_queued_work_remove, lemma_reset_empty, lemma_reset_remove, next_task, queued_work,
    reset_deadlines, Task, TaskQueue,
};
use super::{SchedulerError, SchedulerIssue, SchedulerResp, SchedulerResult};
use crate::constants::NODE_ZERO;

verus! {

/// The dispatches an optional one makes.
pub open spec fn dispatch_seq(d: Option<Dispatch>) -> Seq<Dispatch> {
    match d {
        Some(x) => seq![x],
        None => Seq::empty(),
    }
}

/// The requests the scheduler can serve from state `s`; on the others the
/// service would panic, loop forever or overflow. A handshake is never
/// reported for the holding node, whose nil id no node is given (node ids
/// are random version-4 UUIDs).
pub open spec fn serves<K>(s: SchedulerModel<K>, msg: SchedulerIssue<K>) -> bool {
    match msg {
        SchedulerIssue::NewNode(n) => !s.queues.contains_key(n) ==> s.with_node(n).rebalance_fits(),
        SchedulerIssue::RemoveNode(n) => n != NODE_ZERO && (s.queues.contains_key(n)
            ==> s.unregister_fits(n)),
        SchedulerIssue::ForceRebalance => s.rebalance_fits(),
        SchedulerIssue::NewTask(_, t, w) => t * w <= u64::MAX && s.push_fits((t * w) as u64),
        SchedulerIssue::Touch(n) => {
            &&& s.queues.contains_key(n)
            &&& n == NODE_ZERO ==> s.queues[NODE_ZERO].len() == 0
            &&& s.touch_fits(n)
        },
        SchedulerIssue::HandshakeEstablished(n, _) => n != NODE_ZERO,
        SchedulerIssue::Exists(_) => true,
    }
}

/// What serving `msg` from state `s` leaves, answers and starts.
pub open spec fn served<K>(
    s: SchedulerModel<K>,
    msg: SchedulerIssue<K>,
    t: SchedulerModel<K>,
    resp: SchedulerResp,
    ds: Seq<Dispatch>,
) -> bool {
    match msg {
        SchedulerIssue::NewNode(n) => if s.queues.contains_key(n) {
            t == s && resp == SchedulerResp::Error(SchedulerError::NodeAlreadyExists) && ds.len()
                == 0
        } else {
            t == s.with_node(n).rebalance() && resp == SchedulerResp::Empty
                && s.with_node(n).rebalance_starts(ds)
        },
        SchedulerIssue::RemoveNode(n) => if s.queues.contains_key(n) {
            t == s.without_node(n).rebalance() && resp == SchedulerResp::Empty
                && s.without_node(n).rebalance_starts(ds)
        } else {
            t == s && resp == SchedulerResp::Error(SchedulerError::NoNodeFound) && ds.len() == 0
        },
        SchedulerIssue::ForceRebalance => t == s.rebalance() && resp == SchedulerResp::Empty
            && s.rebalance_starts(ds),
        SchedulerIssue::NewTask(j, tt, w) => {
            let (u, id, d) = s.push(j, (tt * w) as u64);
            t == u && resp == SchedulerResp::Node(id) && ds == dispatch_seq(d)
        },
        SchedulerIssue::Touch(n) => {
            let (u, d) = s.touch(n);
            t == u && resp == SchedulerResp::Empty && ds == dispatch_seq(d)
        },
        SchedulerIssue::HandshakeEstablished(n, k) => if s.queues.contains_key(n) {
            t == s.promote(n, k) && resp == SchedulerResp::Empty && ds.len() == 0
        } else {
            t == s && resp == SchedulerResp::Error(SchedulerError::NoNodeFound) && ds.len() == 0
        },
        SchedulerIssue::Exists(n) => t == s && ds.len() == 0 && resp == if s.queues.contains_key(
            n,
        ) {
            SchedulerResp::Empty
        } else {
            SchedulerResp::Error(SchedulerError::NoNodeFound)
        },
    }
}

/// The waiting tasks of each node, as multisets.
pub closed spec fn queues_of(m: Map<u128, TaskQueue>) -> Map<u128, Multiset<Task>> {
    m.map_values(|q: TaskQueue| q@)
}

proof fn lemma_queues_insert(m: Map<u128, TaskQueue>, k: u128, v: TaskQueue)
    ensures
        queues_of(m.insert(k, v)) == queues_of(m).insert(k, v@),
{
    assert(queues_of(m.insert(k, v)) =~= queues_of(m).insert(k, v@));
}

proof fn lemma_queues_remove(m: Map<u128, TaskQueue>, k: u128)
    ensures
        queues_of(m.remove(k)) == queues_of(m).remove(k),
{
    assert(queues_of(m.remove(k)) =~= queues_of(m).remove(k));
}

proof fn lemma_queues_index(m: Map<u128, TaskQueue>, k: u128)
    ensures
        queues_of(m).contains_key(k) == m.contains_key(k),
        m.contains_key(k) ==> queues_of(m)[k] == m[k]@,
        queues_of(m).dom() == m.dom(),
{
    assert(queues_of(m).dom() =~= m.dom());
}

proof fn lemma_take_to_set_next<A>(s: Seq<A>, i: int)
    requires
        0 <= i < s.len(),
    ensures
        s.take(i + 1).to_set() == s.take(i).to_set().insert(s[i]),
        s.take(0).to_set() == Set::<A>::empty(),
{
    let t1 = s.take(i + 1);
    let t0 = s.take(i);
    let a = t1.to_set();
    let b = t0.to_set().insert(s[i]);
    assert forall|x: A| a.contains(x) <==> b.contains(x) by {
        if a.contains(x) {
            let j = choose|j: int| 0 <= j < i + 1 && #[trigger] t1[j] == x;
            if j < i {
                assert(t0[j] == x);
            }
        }
        if b.contains(x) {
            if x != s[i] {
                let j = choose|j: int| 0 <= j < i && #[trigger] t0[j] == x;
                assert(t1[j] == x);
            } else {
                assert(t1[i] == x);
            }
        }
    }
    assert(a =~= b);
    assert(s.take(0).to_set() =~= Set::<A>::empty());
}

/// Hands judges to nodes: a new judge goes to the node with the least load,
/// and each node runs its tasks one at a time, earliest deadline first.
/// Tasks that no node can take wait on the holding node [`NODE_ZERO`].
/// Each node's shared key, of type `K`, is kept for the dispatches.
pub struct ByDeadlineWeighted<K> {
    nodes: HashMap<u128, TaskQueue>,
    shared_key: HashMap<u128, K>,
    pending: HashMap<u128, (u128, u64)>,
    nodes_sz: HashMap<u128, u64>,
    nodes_by_sz: BTreeSet<(u64, u128)>,
    node_time: HashMap<u128, u64>,
}

impl<K> View for ByDeadlineWeighted<K> {
    type V = SchedulerModel<K>;

    closed spec fn view(&self) -> SchedulerModel<K> {
        SchedulerModel {
            queues: queues_of(self.nodes@),
            keys: self.shared_key@,
            pending: self.pending@,
            loads: self.nodes_sz@,
            ranked: self.nodes_by_sz@,
            times: self.node_time@,
        }
    }
}

impl<K> ByDeadlineWeighted<K> {
    /// A scheduler holding only the idle, empty holding node.
    pub fn new() -> (s: ByDeadlineWeighted<K>)
        ensures
            s@ == SchedulerModel::<K>::initial(),
            s@.wf(),
            s@.exact_loads(),
    {
        let mut s = ByDeadlineWeighted {
            nodes: HashMap::new(),
            pending: HashMap::new(),
            nodes_sz: HashMap::new(),
            nodes_by_sz: BTreeSet::new(),
            shared_key: HashMap::new(),
            node_time: HashMap::new(),
        };
        s.nodes.insert(NODE_ZERO, TaskQueue::new());
        s.pending.insert(NODE_ZERO, (0, 0));
        s.nodes_sz.insert(NODE_ZERO, 0);
        s.node_time.insert(NODE_ZERO, 0);
        proof {
            lemma_queues_insert(Map::empty(), NODE_ZERO, s.nodes@[NODE_ZERO]);
            assert(queues_of(Map::<u128, TaskQueue>::empty()) =~= Map::empty());
            assert(s@.queues =~= Map::empty().insert(NODE_ZERO, Multiset::<Task>::empty()));
            assert(s@.keys =~= Map::empty());
            assert(s@.pending =~= Map::empty().insert(NODE_ZERO, (0u128, 0u64)));
            assert(s@.loads =~= Map::empty().insert(NODE_ZERO, 0u64));
            assert(s@.times =~= Map::empty().insert(NODE_ZERO, 0u64));
            assert(s@.ranked =~= Set::empty());
            assert(s@.queues.dom() =~= set![NODE_ZERO]);
            assert(s@.pending.dom() =~= set![NODE_ZERO]);
            assert(s@.loads.dom() =~= set![NODE_ZERO]);
            assert(s@.times.dom() =~= set![NODE_ZERO]);
            lemma_queued_work_empty();
        }
        s
    }

    /// Whether node `node_id` is registered.
    pub fn contains_node(&self, node_id: u128) -> (b: bool)
        ensures
            b == self@.queues.contains_key(node_id),
    {
        proof {
            lemma_queues_index(self.nodes@, node_id);
        }
        self.nodes.contains_key(&node_id)
    }

    /// The shared key of a node whose handshake is done.
    pub fn key_of(&self, node_id: u128) -> (k: &K)
        requires
            self@.keys.contains_key(node_id),
        ensures
            *k == self@.keys[node_id],
    {
        self.shared_key.get(&node_id).unwrap()
    }

    /// Adds `task` to the queue of node `id`.
    fn queue_task(&mut self, id: u128, task: Task)
        requires
            old(self)@.queues.contains_key(id),
        ensures
            final(self)@ == (SchedulerModel {
                queues: old(self)@.queues.insert(id, old(self)@.queues[id].insert(task)),
                ..old(self)@
            }),
    {
        proof {
            lemma_queues_index(self.nodes@, id);
        }
        let ghost nodes0 = self.nodes@;
        let mut q = self.nodes.remove(&id).unwrap();
        q.push(task);
        self.nodes.insert(id, q);
        proof {
            lemma_queues_insert(nodes0.remove(id), id, q);
            lemma_queues_remove(nodes0, id);
            assert(queues_of(nodes0).remove(id).insert(id, q@) =~= queues_of(nodes0).insert(
                id,
                q@,
            ));
        }
    }

    /// Records that node `node_id` completed its handshake: it keeps `key`
    /// and may receive tasks from now on.
    ///
    /// The holding node is refused: node ids are drawn as random version-4
    /// UUIDs, which are never nil, so no node ever completes a handshake
    /// under it; were it ranked, rebalancing would hand its tasks back to it
    /// without end.
    pub fn promote(&mut self, node_id: u128, key: K) -> (r: Result<(), SchedulerError>)
        requires
            old(self)@.wf(),
            node_id != NODE_ZERO,
        ensures
            final(self)@.wf(),
            old(self)@.queues.contains_key(node_id) ==> r is Ok && final(self)@ == old(
                self,
            )@.promote(node_id, key),
            !old(self)@.queues.contains_key(node_id) ==> r == Err::<(), SchedulerError>(
                SchedulerError::NoNodeFound,
            ) && final(self)@ == old(self)@,
    {
        proof {
            lemma_queues_index(self.nodes@, node_id);
        }
        if self.nodes.contains_key(&node_id) {
            let ghost s0 = self@;
            self.shared_key.insert(node_id, key);
            let sz = *self.nodes_sz.get(&node_id).unwrap();
            self.nodes_by_sz.insert((sz, node_id));
            proof {
                let s1 = self@;
                assert(s1 == s0.promote(node_id, key));
                assert forall|p: (u64, u128)| #[trigger]
                    s1.ranked.contains(p) implies s1.keys.contains_key(p.1) && s1.loads[p.1]
                    == p.0 by {
                    if p != (sz, node_id) {
                        assert(s0.ranked.contains(p));
                    }
                }
                assert forall|n: u128| #[trigger]
                    s1.keys.contains_key(n) implies s1.ranked.contains((s1.loads[n], n)) by {
                    if n != node_id {
                        assert(s0.keys.contains_key(n));
                    }
                }
            }
            Ok(())
        } else {
            Err(SchedulerError::NoNodeFound)
        }
    }

    /// Queues judge `judge_uuid`, of estimated time `total_time` and weight
    /// `weight`, on the least loaded node that may receive tasks, or on the
    /// holding node while no node may. The chosen node starts it at once
    /// when it runs nothing.
    pub fn push(&mut self, judge_uuid: u128, total_time: u64, weight: u64) -> (r: (
        Result<u128, SchedulerError>,
        Option<Dispatch>,
    ))
        requires
            old(self)@.wf(),
            total_time * weight <= u64::MAX,
            old(self)@.push_fits((total_time * weight) as u64),
        ensures
            final(self)@.wf(),
            ({
                let (s, id, d) = old(self)@.push(judge_uuid, (total_time * weight) as u64);
                &&& final(self)@ == s
                &&& r.0 == Ok::<u128, SchedulerError>(id)
                &&& r.1 == d
            }),
            r.1 matches Some(x) ==> final(self)@.keys.contains_key(x.node),
    {
        let ghost s0 = self@;
        let tw = total_time * weight;
        match least_entry(&self.nodes_by_sz) {
            Some(least) => {
                let (sz, id) = least;
                proof {
                    lemma_least_is(s0.ranked, least);
                    assert(s0.keys.contains_key(id));
                }
                let new_sz = sz + tw;
                let deadline = *self.node_time.get(&id).unwrap() + tw;
                self.queue_task(id, (deadline, tw, judge_uuid));
                self.nodes_sz.insert(id, new_sz);
                self.nodes_by_sz.remove(&(sz, id));
                self.nodes_by_sz.insert((new_sz, id));
                let ghost s1 = self@;
                proof {
                    lemma_queued_work_insert(s0.queues[id], (deadline, tw, judge_uuid));
                    assert(s1.ranked.finite());
                    assert(s1.queues.dom() =~= s0.queues.dom());
                    assert(s1.loads.dom() =~= s0.loads.dom());
                    assert forall|p: (u64, u128)| #[trigger]
                        s1.ranked.contains(p) implies s1.keys.contains_key(p.1) && s1.loads[p.1]
                        == p.0 by {
                        if p != (new_sz, id) {
                            assert(s0.ranked.contains(p));
                        }
                    }
                    assert forall|n: u128| #[trigger]
                        s1.keys.contains_key(n) implies s1.ranked.contains((s1.loads[n], n)) by {
                        if n != id {
                            assert(s0.ranked.contains((s0.loads[n], n)));
                        }
                    }
                    assert forall|n: u128| #[trigger]
                        s1.queues.contains_key(n) implies s1.loads[n] >= queued_work(s1.queues[n])
                        + inflight(s1.pending[n]) by {
                        if n != id {
                            assert(s0.queues.contains_key(n));
                        }
                    }
                    assert(s1.wf());
                }
                let p = *self.pending.get(&id).unwrap();
                if p.0 == 0 && p.1 == 0 {
                    let d = self.touch(id);
                    (Ok(id), d)
                } else {
                    (Ok(id), None)
                }
            },
            None => {
                let sz = *self.nodes_sz.get(&NODE_ZERO).unwrap();
                let new_sz = sz + tw;
                self.queue_task(NODE_ZERO, (0, tw, judge_uuid));
                self.nodes_sz.insert(NODE_ZERO, new_sz);
                proof {
                    let s1 = self@;
                    lemma_queued_work_insert(s0.queues[NODE_ZERO], (0u64, tw, judge_uuid));
                    assert(!has_ranked(s0.ranked));
                    assert(s1.queues.dom() =~= s0.queues.dom());
                    assert(s1.loads.dom() =~= s0.loads.dom());
                    assert forall|n: u128| #[trigger]
                        s1.queues.contains_key(n) implies s1.loads[n] >= queued_work(s1.queues[n])
                        + inflight(s1.pending[n]) by {
                        if n != NODE_ZERO {
                            assert(s0.queues.contains_key(n));
                        }
                    }
                    assert forall|n: u128| #[trigger]
                        s1.queues.contains_key(n) && n != NODE_ZERO && s1.queues[n].len()
                        > 0 implies s1.keys.contains_key(n) by {
                        assert(s0.queues.contains_key(n));
                    }
                }
                (Ok(NODE_ZERO), None)
            },
        }
    }

    /// Whether queuing a task of weighted time `tw` stays within `u64`.
    pub fn fits_push(&self, tw: u64) -> (b: bool)
        requires
            self@.wf(),
        ensures
            b == self@.push_fits(tw),
    {
        match least_entry(&self.nodes_by_sz) {
            Some(least) => {
                proof {
                    lemma_least_is(self@.ranked, least);
                }
                let t = *self.node_time.get(&least.1).unwrap();
                least.0 <= u64::MAX - tw && t <= u64::MAX - tw
            },
            None => *self.nodes_sz.get(&NODE_ZERO).unwrap() <= u64::MAX - tw,
        }
    }

    /// The entries of the nodes that may receive tasks, copied.
    fn ranked_copy(&self) -> (r: BTreeSet<(u64, u128)>)
        ensures
            r@ == self@.ranked,
    {
        let mut r: BTreeSet<(u64, u128)> = BTreeSet::new();
        let ghost rem = spec_btree_keys_iter(&self.nodes_by_sz).remaining();
        proof {
            vstd::std_specs::btree::axiom_spec_btree_keys_iter(&self.nodes_by_sz);
            assert(rem.unref().take(0).to_set() =~= Set::<(u64, u128)>::empty());
            assert(r@ =~= Set::<(u64, u128)>::empty());
        }
        for p in it: self.nodes_by_sz.iter()
            invariant
                it.seq() == rem,
                rem.unref().to_set() == self.nodes_by_sz@,
                r@ == rem.unref().take(it.index() as int).to_set(),
        {
            let ghost idx = it.index() as int;
            proof {
                assert(rem.unref()[idx] == *p);
                lemma_take_to_set_next(rem.unref(), idx);
            }
            r.insert(*p);
        }
        proof {
            assert(rem.unref().take(rem.len() as int) =~= rem.unref());
        }
        r
    }

    /// Whether handing out the tasks of `q` over the entries `r`, as
    /// rebalancing does, stays within `u64`.
    fn fits_hand_out(&self, queue: TaskQueue, ranked: BTreeSet<(u64, u128)>) -> (b: bool)
        requires
            self@.wf(),
            ranked@.finite(),
            forall|p: (u64, u128)| #[trigger]
                ranked@.contains(p) ==> self@.times.contains_key(p.1) && p.1 != NODE_ZERO,
        ensures
            b == hand_out_fits(queue@, ranked@, self@.times),
    {
        let ghost goal = hand_out_fits(queue@, ranked@, self@.times);
        let mut q = queue;
        let mut r = ranked;
        loop
            invariant
                goal == hand_out_fits(queue@, ranked@, self@.times),
                r@.finite(),
                forall|p: (u64, u128)| #[trigger]
                    r@.contains(p) ==> self@.times.contains_key(p.1) && p.1 != NODE_ZERO,
                hand_out_fits(q@, r@, self@.times) == goal,
            decreases q@.len(),
        {
            if q.len() == 0 {
                return true;
            }
            let m = match least_entry(&r) {
                Some(m) => m,
                None => {
                    return true;
                },
            };
            let ghost q0 = q@;
            let ghost r0 = r@;
            proof {
                lemma_least_is(r0, m);
                lemma_next_exists(q0);
            }
            let x = q.pop().unwrap();
            proof {
                lemma_next_unique(q0, x, next_task(q0));
            }
            let t = *self.node_time.get(&m.1).unwrap();
            if m.0 > u64::MAX - x.1 || t > u64::MAX - x.1 {
                return false;
            }
            r.remove(&m);
            r.insert((m.0 + x.1, m.1));
            proof {
                assert forall|p: (u64, u128)| #[trigger]
                    r@.contains(p) implies self@.times.contains_key(p.1) && p.1 != NODE_ZERO by {
                    if p != ((m.0 + x.1) as u64, m.1) {
                        assert(r0.contains(p));
                    }
                }
            }
        }
    }

    /// Whether rebalancing now stays within `u64`.
    pub fn fits_rebalance(&self) -> (b: bool)
        requires
            self@.wf(),
        ensures
            b == self@.rebalance_fits(),
    {
        proof {
            lemma_queues_index(self.nodes@, NODE_ZERO);
        }
        if self.nodes.len() > 1 {
            let q = self.nodes.get(&NODE_ZERO).unwrap().duplicate();
            let r = self.ranked_copy();
            proof {
                self@.lemma_hand_out_fits_eq();
                assert forall|p: (u64, u128)| #[trigger]
                    r@.contains(p) implies self@.times.contains_key(p.1) && p.1 != NODE_ZERO by {
                    assert(self@.keys.contains_key(p.1));
                }
            }
            self.fits_hand_out(q, r)
        } else {
            true
        }
    }

    /// Whether registering node `node_id` stays within `u64`.
    pub fn fits_register(&self, node_id: u128) -> (b: bool)
        requires
            self@.wf(),
        ensures
            b == (!self@.queues.contains_key(node_id) ==> self@.with_node(node_id).rebalance_fits()),
    {
        if self.contains_node(node_id) {
            return true;
        }
        proof {
            lemma_queues_index(self.nodes@, NODE_ZERO);
        }
        let q = self.nodes.get(&NODE_ZERO).unwrap().duplicate();
        let r = self.ranked_copy();
        proof {
            let s = self@;
            let w = s.with_node(node_id);
            w.lemma_hand_out_fits_eq();
            assert(w.queues[NODE_ZERO] == s.queues[NODE_ZERO]);
            assert forall|p: (u64, u128)| #[trigger]
                r@.contains(p) implies s.times.contains_key(p.1) && p.1 != NODE_ZERO by {
                assert(s.keys.contains_key(p.1));
            }
            assert forall|p: (u64, u128)| #[trigger] r@.contains(p) implies w.times[p.1] == s.times[p.1] by {
                assert(s.keys.contains_key(p.1));
            }
            lemma_hand_out_fits_times(s.queues[NODE_ZERO], s.ranked, w.times, s.times);
            let one = set![NODE_ZERO];
            assert(one.len() == 1);
            vstd::set_lib::lemma_len_subset(one, s.queues.dom());
            assert(w.queues.dom() =~= s.queues.dom().insert(node_id));
        }
        self.fits_hand_out(q, r)
    }

    /// Whether removing node `node_id` stays within `u64`.
    pub fn fits_unregister(&self, node_id: u128) -> (b: bool)
        requires
            self@.wf(),
            node_id != NODE_ZERO,
        ensures
            b == (self@.queues.contains_key(node_id) ==> self@.unregister_fits(node_id)),
    {
        if !self.contains_node(node_id) {
            return true;
        }
        let ghost s = self@;
        proof {
            lemma_queues_index(self.nodes@, NODE_ZERO);
            lemma_queues_index(self.nodes@, node_id);
        }
        let mut zq = self.nodes.get(&NODE_ZERO).unwrap().duplicate();
        let mut nq = self.nodes.get(&node_id).unwrap().duplicate();
        let mut acc: u64 = *self.nodes_sz.get(&NODE_ZERO).unwrap();
        let ghost target = s.queues[NODE_ZERO].add(reset_deadlines(s.queues[node_id]));
        let ghost budget = s.loads[NODE_ZERO] + queued_work(s.queues[node_id]);
        while nq.len() > 0
            invariant
                zq@.add(reset_deadlines(nq@)) == target,
                acc + queued_work(nq@) == budget,
                s == self@,
                s.queues.contains_key(node_id),
                target == s.queues[NODE_ZERO].add(reset_deadlines(s.queues[node_id])),
                budget == s.loads[NODE_ZERO] + queued_work(s.queues[node_id]),
            decreases nq@.len(),
        {
            let ghost q0 = nq@;
            let ghost z0 = zq@;
            let x = nq.pop().unwrap();
            proof {
                lemma_queued_work_remove(q0, x);
                lemma_reset_remove(q0, x);
            }
            if acc > u64::MAX - x.1 {
                return false;
            }
            acc = acc + x.1;
            zq.push((0, x.1, x.2));
            proof {
                assert(zq@.add(reset_deadlines(nq@)) =~= z0.add(reset_deadlines(q0)));
            }
        }
        proof {
            assert(nq@ =~= Multiset::empty());
            lemma_reset_empty();
            lemma_queued_work_empty();
            assert(zq@.add(Multiset::empty()) =~= zq@);
        }
        let w = Ghost(s.without_node(node_id));
        proof {
            assert(w@.queues.dom() =~= s.queues.dom().remove(node_id));
        }
        if self.nodes.len() > 2 {
            let mut r = self.ranked_copy();
            let sz = *self.nodes_sz.get(&node_id).unwrap();
            r.remove(&(sz, node_id));
            proof {
                w@.lemma_hand_out_fits_eq();
                assert(r@ == w@.ranked);
                assert forall|p: (u64, u128)| #[trigger]
                    r@.contains(p) implies s.times.contains_key(p.1) && p.1 != NODE_ZERO && p.1
                    != node_id by {
                    assert(s.keys.contains_key(p.1));
                }
                assert forall|p: (u64, u128)| #[trigger] r@.contains(p) implies w@.times[p.1]
                    == s.times[p.1] by {
                    assert(s.keys.contains_key(p.1));
                }
                lemma_hand_out_fits_times(target, r@, w@.times, s.times);
            }
            self.fits_hand_out(zq, r)
        } else {
            true
        }
    }

    /// Whether settling node `id` stays within `u64`.
    pub fn fits_touch(&self, id: u128) -> (b: bool)
        requires
            self@.wf(),
            self@.queues.contains_key(id),
        ensures
            b == self@.touch_fits(id),
    {
        let (uuid, sz) = *self.pending.get(&id).unwrap();
        uuid == 0 || *self.node_time.get(&id).unwrap() <= u64::MAX - sz
    }

    /// The number of tasks waiting on node `id`.
    pub fn waiting_on(&self, id: u128) -> (n: usize)
        requires
            self@.queues.contains_key(id),
        ensures
            n == self@.queues[id].len(),
    {
        proof {
            lemma_queues_index(self.nodes@, id);
        }
        self.nodes.get(&id).unwrap().len()
    }

    /// Takes out the task node `id` serves next, if any.
    fn take_next(&mut self, id: u128) -> (r: Option<Task>)
        requires
            old(self)@.queues.contains_key(id),
        ensures
            match r {
                None => old(self)@.queues[id].len() == 0 && final(self)@ == old(self)@,
                Some(x) => is_next(old(self)@.queues[id], x) && final(self)@ == (SchedulerModel {
                    queues: old(self)@.queues.insert(id, old(self)@.queues[id].remove(x)),
                    ..old(self)@
                }),
            },
    {
        proof {
            lemma_queues_index(self.nodes@, id);
        }
        let ghost nodes0 = self.nodes@;
        let mut q = self.nodes.remove(&id).unwrap();
        let r = q.pop();
        self.nodes.insert(id, q);
        proof {
            lemma_queues_insert(nodes0.remove(id), id, q);
            lemma_queues_remove(nodes0, id);
            assert(queues_of(nodes0).remove(id).insert(id, q@) =~= queues_of(nodes0).insert(
                id,
                q@,
            ));
            if r is None {
                assert(self@.queues =~= old(self)@.queues);
            }
        }
        r
    }

    /// When some node besides the holding one is registered, hands the tasks
    /// of the holding node, next served first, each to the then least loaded
    /// node that may receive tasks; while no node may, they stay on the
    /// holding node, so a judge queued before any node completed its
    /// handshake is handed out by a later rebalance. Then each node that
    /// received tasks and runs nothing starts one, by increasing node id.
    /// Gives the tasks started.
    pub fn rebalance(&mut self) -> (ds: Vec<Dispatch>)
        requires
            old(self)@.wf(),
            old(self)@.rebalance_fits(),
        ensures
            final(self)@.wf(),
            final(self)@ == old(self)@.rebalance(),
            old(self)@.rebalance_starts(ds@),
            forall|i: int| 0 <= i < ds@.len() ==> final(self)@.keys.contains_key(#[trigger] ds@[i].node),
    {
        let ghost s0 = self@;
        let mut ds: Vec<Dispatch> = Vec::new();
        proof {
            lemma_queues_index(self.nodes@, NODE_ZERO);
        }
        if self.nodes.len() > 1 {
            let mut used: BTreeSet<u128> = BTreeSet::new();
            loop
                invariant
                    self@.wf(),
                    self@.hand_out_all(used@) == s0.hand_out_all(Set::empty()),
                    self@.hand_out_all_fits(),
                    self@.queues.dom() == s0.queues.dom(),
                    self@.keys == s0.keys,
                    forall|n: u128| used@.contains(n) ==> self@.keys.contains_key(n),
                ensures
                    !self@.can_hand_out(),
                decreases self@.queues[NODE_ZERO].len(),
            {
                if self.waiting_on(NODE_ZERO) == 0 {
                    break;
                }
                let least = match least_entry(&self.nodes_by_sz) {
                    Some(least) => least,
                    None => break,
                };
                let ghost s = self@;
                let ghost used_before = used@;
                let (sz, node_id) = least;
                proof {
                    lemma_least_is(s.ranked, least);
                    assert(s.keys.contains_key(node_id));
                    assert(s.can_hand_out());
                    s.lemma_hand_out_next_wf();
                }
                let x = self.take_next(NODE_ZERO).unwrap();
                proof {
                    lemma_next_exists(s.queues[NODE_ZERO]);
                    lemma_next_unique(s.queues[NODE_ZERO], x, next_task(s.queues[NODE_ZERO]));
                }
                let new_sz = sz + x.1;
                let deadline = *self.node_time.get(&node_id).unwrap() + x.1;
                self.queue_task(node_id, (deadline, x.1, x.2));
                self.nodes_sz.insert(node_id, new_sz);
                self.nodes_by_sz.remove(&(sz, node_id));
                self.nodes_by_sz.insert((new_sz, node_id));
                used.insert(node_id);
                proof {
                    assert(self@ == s.hand_out_next().0);
                    assert(used@ == used_before.insert(node_id));
                }
            }
            let ghost s_end = self@;
            let ghost used_end = used@;
            let ghost rem = spec_btree_keys_iter(&used).remaining();
            proof {
                vstd::std_specs::btree::axiom_spec_btree_keys_iter(&used);
                assert(s0.hand_out_all(Set::empty()) == (s_end, used_end));
                s_end.lemma_start_idle_none();
                assert(rem.unref().take(0).to_set() =~= Set::<u128>::empty());
                assert(s_end.started(Set::empty(), ds@));
            }
            for node_id in it: used.iter()
                invariant
                    it.seq() == rem,
                    rem.unref().to_set() == used_end,
                    increasing_seq(rem),
                    rem.no_duplicates(),
                    s0.hand_out_all(Set::empty()) == (s_end, used_end),
                    s_end.wf(),
                    forall|n: u128| used_end.contains(n) ==> s_end.keys.contains_key(n),
                    self@.wf(),
                    self@ == s_end.start_idle(rem.unref().take(it.index() as int).to_set()),
                    s_end.started(rem.unref().take(it.index() as int).to_set(), ds@),
            {
                let ghost idx = it.index() as int;
                let ghost pre = rem.unref().take(idx).to_set();
                let ghost post = rem.unref().take(idx + 1).to_set();
                let n = *node_id;
                proof {
                    assert(rem.unref()[idx] == n);
                    lemma_take_to_set_next(rem.unref(), idx);
                    assert(post == pre.insert(n));
                    assert(!pre.contains(n)) by {
                        if pre.contains(n) {
                            let j = choose|j: int| 0 <= j < idx && rem.unref().take(idx)[j] == n;
                            assert(rem[j] == rem[idx]);
                        }
                    }
                    assert(used_end.contains(n));
                    assert(s_end.keys.contains_key(n));
                    s_end.lemma_start_idle_step(pre, n);
                }
                let p = *self.pending.get(&n).unwrap();
                if p.0 == 0 && p.1 == 0 {
                    let ghost before = self@;
                    let d = self.touch(n);
                    let ghost ds0 = ds@;
                    match d {
                        Some(x) => {
                            ds.push(x);
                            proof {
                                assert(s_end.starts(post, n));
                                assert forall|i: int, j: int|
                                    0 <= i < j < ds@.len() implies ds@[i].node < ds@[j].node by {
                                    if j == ds@.len() - 1 {
                                        assert(s_end.starts(pre, ds0[i].node));
                                        assert(pre.contains(ds0[i].node));
                                        let k = choose|k: int|
                                            0 <= k < idx && rem.unref().take(idx)[k] == ds0[i].node;
                                        super::ranking::lemma_ascending(rem, k, idx);
                                    }
                                }
                                assert forall|i: int| 0 <= i < ds@.len() implies s_end.starts(
                                    post,
                                    #[trigger] ds@[i].node,
                                ) && ds@[i].judge == next_task(s_end.queues[ds@[i].node]).2 by {
                                    if i < ds0.len() {
                                        assert(s_end.starts(pre, ds0[i].node));
                                    }
                                }
                                assert forall|m: u128| s_end.starts(post, m) implies exists|i: int|
                                    0 <= i < ds@.len() && #[trigger] ds@[i].node == m by {
                                    if m == n {
                                        assert(ds@[ds@.len() - 1].node == m);
                                    } else {
                                        assert(s_end.starts(pre, m));
                                        let i = choose|i: int| 0 <= i < ds0.len() && #[trigger] ds0[i].node == m;
                                        assert(ds@[i].node == m);
                                    }
                                }
                            }
                        },
                        None => {
                            proof {
                                assert(!s_end.starts(post, n));
                                assert forall|i: int| 0 <= i < ds@.len() implies s_end.starts(
                                    post,
                                    #[trigger] ds@[i].node,
                                ) && ds@[i].judge == next_task(s_end.queues[ds@[i].node]).2 by {
                                    assert(s_end.starts(pre, ds0[i].node));
                                }
                                assert forall|m: u128| s_end.starts(post, m) implies exists|i: int|
                                    0 <= i < ds@.len() && #[trigger] ds@[i].node == m by {
                                    assert(s_end.starts(pre, m));
                                }
                            }
                        },
                    }
                } else {
                    proof {
                        assert(!s_end.starts(post, n));
                        assert forall|i: int| 0 <= i < ds@.len() implies s_end.starts(
                            post,
                            #[trigger] ds@[i].node,
                        ) && ds@[i].judge == next_task(s_end.queues[ds@[i].node]).2 by {
                            assert(s_end.starts(pre, ds@[i].node));
                        }
                        assert forall|m: u128| s_end.starts(post, m) implies exists|i: int|
                            0 <= i < ds@.len() && #[trigger] ds@[i].node == m by {
                            assert(s_end.starts(pre, m));
                        }
                    }
                }
            }
            proof {
                assert(rem.unref().take(rem.len() as int) =~= rem.unref());
            }
        }
        ds
    }

    /// Registers node `node_id`, idle and empty; it receives tasks once its
    /// handshake is done. The waiting tasks are then handed out again.
    pub fn register(&mut self, node_id: u128) -> (r: (SchedulerResult<()>, Vec<Dispatch>))
        requires
            old(self)@.wf(),
            !old(self)@.queues.contains_key(node_id) ==> old(self)@.with_node(
                node_id,
            ).rebalance_fits(),
        ensures
            final(self)@.wf(),
            old(self)@.queues.contains_key(node_id) ==> {
                &&& r.0 == Err::<(), SchedulerError>(SchedulerError::NodeAlreadyExists)
                &&& final(self)@ == old(self)@
                &&& r.1@.len() == 0
            },
            !old(self)@.queues.contains_key(node_id) ==> {
                &&& r.0 == Ok::<(), SchedulerError>(())
                &&& final(self)@ == old(self)@.with_node(node_id).rebalance()
                &&& old(self)@.with_node(node_id).rebalance_starts(r.1@)
            },
            forall|i: int|
                0 <= i < r.1@.len() ==> final(self)@.keys.contains_key(#[trigger] r.1@[i].node),
    {
        proof {
            lemma_queues_index(self.nodes@, node_id);
        }
        if !self.nodes.contains_key(&node_id) {
            let ghost s0 = self@;
            let ghost nodes0 = self.nodes@;
            self.nodes.insert(node_id, TaskQueue::new());
            self.pending.insert(node_id, (0, 0));
            self.nodes_sz.insert(node_id, 0);
            self.node_time.insert(node_id, 0);
            proof {
                lemma_queues_insert(nodes0, node_id, self.nodes@[node_id]);
                assert(self@ == s0.with_node(node_id));
                s0.lemma_with_node_wf(node_id);
            }
            let ds = self.rebalance();
            (Ok(()), ds)
        } else {
            (Err(SchedulerError::NodeAlreadyExists), Vec::new())
        }
    }

    /// Removes node `node_id`: its waiting tasks move to the holding node,
    /// deadlines reset, what it ran is forgotten, and the waiting tasks are
    /// then handed out again.
    pub fn unregister(&mut self, node_id: u128) -> (r: (SchedulerResult<()>, Vec<Dispatch>))
        requires
            old(self)@.wf(),
            node_id != NODE_ZERO,
            old(self)@.queues.contains_key(node_id) ==> old(self)@.unregister_fits(node_id),
        ensures
            final(self)@.wf(),
            !old(self)@.queues.contains_key(node_id) ==> {
                &&& r.0 == Err::<(), SchedulerError>(SchedulerError::NoNodeFound)
                &&& final(self)@ == old(self)@
                &&& r.1@.len() == 0
            },
            old(self)@.queues.contains_key(node_id) ==> {
                &&& r.0 == Ok::<(), SchedulerError>(())
                &&& final(self)@ == old(self)@.without_node(node_id).rebalance()
                &&& old(self)@.without_node(node_id).rebalance_starts(r.1@)
            },
            forall|i: int|
                0 <= i < r.1@.len() ==> final(self)@.keys.contains_key(#[trigger] r.1@[i].node),
    {
        proof {
            lemma_queues_index(self.nodes@, node_id);
        }
        if self.nodes.contains_key(&node_id) {
            let ghost s0 = self@;
            let sz = *self.nodes_sz.get(&node_id).unwrap();
            self.nodes_by_sz.remove(&(sz, node_id));
            let ghost s1 = self@;
            let ghost target = s0.queues[NODE_ZERO].add(reset_deadlines(s0.queues[node_id]));
            let ghost budget = s0.loads[NODE_ZERO] + queued_work(s0.queues[node_id]);
            proof {
                lemma_queues_index(self.nodes@, NODE_ZERO);
            }
            while self.waiting_on(node_id) > 0
                invariant
                    node_id != NODE_ZERO,
                    self@.queues.contains_key(node_id),
                    self@.queues.contains_key(NODE_ZERO),
                    self@.loads.contains_key(NODE_ZERO),
                    self@.queues[NODE_ZERO].add(reset_deadlines(self@.queues[node_id])) == target,
                    self@.loads[NODE_ZERO] + queued_work(self@.queues[node_id]) == budget,
                    budget <= u64::MAX,
                    self@.queues.remove(node_id).remove(NODE_ZERO) == s1.queues.remove(
                        node_id,
                    ).remove(NODE_ZERO),
                    self@.queues.dom() == s1.queues.dom(),
                    self@.loads.remove(NODE_ZERO) == s1.loads.remove(NODE_ZERO),
                    self@.loads.dom() == s1.loads.dom(),
                    self@.keys == s1.keys,
                    self@.pending == s1.pending,
                    self@.ranked == s1.ranked,
                    self@.times == s1.times,
                decreases self@.queues[node_id].len(),
            {
                let ghost s = self@;
                let x = self.take_next(node_id).unwrap();
                let zsz = *self.nodes_sz.get(&NODE_ZERO).unwrap();
                proof {
                    lemma_queued_work_remove(s.queues[node_id], x);
                }
                self.nodes_sz.insert(NODE_ZERO, zsz + x.1);
                self.queue_task(NODE_ZERO, (0, x.1, x.2));
                proof {
                    let t = self@;
                    lemma_reset_remove(s.queues[node_id], x);
                    assert(t.queues[NODE_ZERO].add(reset_deadlines(t.queues[node_id]))
                        =~= s.queues[NODE_ZERO].add(reset_deadlines(s.queues[node_id])));
                    assert(t.queues.remove(node_id).remove(NODE_ZERO) =~= s.queues.remove(
                        node_id,
                    ).remove(NODE_ZERO));
                    assert(t.queues.dom() =~= s.queues.dom());
                    assert(t.loads.remove(NODE_ZERO) =~= s.loads.remove(NODE_ZERO));
                    assert(t.loads.dom() =~= s.loads.dom());
                }
            }
            let ghost s2 = self@;
            proof {
                assert(s2.queues[node_id] =~= Multiset::empty());
                lemma_reset_empty();
                lemma_queued_work_empty();
                assert(s2.queues[NODE_ZERO].add(Multiset::empty()) =~= s2.queues[NODE_ZERO]);
            }
            let ghost nodes2 = self.nodes@;
            self.nodes.remove(&node_id);
            self.node_time.remove(&node_id);
            self.nodes_sz.remove(&node_id);
            self.pending.remove(&node_id);
            self.shared_key.remove(&node_id);
            proof {
                lemma_queues_remove(nodes2, node_id);
                let t = self@;
                let w = s0.without_node(node_id);
                assert(t.queues =~= w.queues) by {
                    assert forall|m: u128| #[trigger] t.queues.contains_key(m) == w.queues.contains_key(m) by {
                        if m != node_id && m != NODE_ZERO {
                            assert(s2.queues.remove(node_id).remove(NODE_ZERO).contains_key(m)
                                == s1.queues.remove(node_id).remove(NODE_ZERO).contains_key(m));
                        }
                    }
                    assert forall|m: u128| t.queues.contains_key(m) implies #[trigger] t.queues[m] == w.queues[m] by {
                        if m != NODE_ZERO {
                            assert(s2.queues.remove(node_id).remove(NODE_ZERO)[m] == s1.queues.remove(
                                node_id,
                            ).remove(NODE_ZERO)[m]);
                        }
                    }
                }
                assert(t.loads =~= w.loads) by {
                    assert forall|m: u128| #[trigger] t.loads.contains_key(m) == w.loads.contains_key(m) by {
                        if m != NODE_ZERO {
                            assert(s2.loads.remove(NODE_ZERO).contains_key(m) == s1.loads.remove(
                                NODE_ZERO,
                            ).contains_key(m));
                        }
                    }
                    assert forall|m: u128| t.loads.contains_key(m) implies #[trigger] t.loads[m] == w.loads[m] by {
                        if m != NODE_ZERO {
                            assert(s2.loads.remove(NODE_ZERO)[m] == s1.loads.remove(NODE_ZERO)[m]);
                        }
                    }
                }
                assert(t.keys =~= w.keys);
                assert(t.pending =~= w.pending);
                assert(t.times =~= w.times);
                assert(t.ranked =~= w.ranked);
                assert(t == w);
                s0.lemma_without_node_wf(node_id);
            }
            let ds = self.rebalance();
            (Ok(()), ds)
        } else {
            (Err(SchedulerError::NoNodeFound), Vec::new())
        }
    }

    /// Serves one request, answering as the scheduler service does; also
    /// gives the tasks that nodes start on it, each for a node whose
    /// handshake is done.
    pub fn handle(&mut self, msg: SchedulerIssue<K>) -> (r: (SchedulerResp, Vec<Dispatch>))
        requires
            old(self)@.wf(),
            serves(old(self)@, msg),
        ensures
            final(self)@.wf(),
            served(old(self)@, msg, final(self)@, r.0, r.1@),
            forall|i: int|
                0 <= i < r.1@.len() ==> final(self)@.keys.contains_key(#[trigger] r.1@[i].node),
    {
        match msg {
            SchedulerIssue::NewNode(node_id) => {
                let (res, ds) = self.register(node_id);
                match res {
                    Err(e) => (SchedulerResp::Error(e), ds),
                    Ok(()) => (SchedulerResp::Empty, ds),
                }
            },
            SchedulerIssue::RemoveNode(node_id) => {
                let (res, ds) = self.unregister(node_id);
                match res {
                    Err(e) => (SchedulerResp::Error(e), ds),
                    Ok(()) => (SchedulerResp::Empty, ds),
                }
            },
            SchedulerIssue::ForceRebalance => {
                let ds = self.rebalance();
                (SchedulerResp::Empty, ds)
            },
            SchedulerIssue::NewTask(task_uuid, total_time, weight) => {
                let (res, d) = self.push(task_uuid, total_time, weight);
                let mut ds = Vec::new();
                if let Some(x) = d {
                    ds.push(x);
                }
                proof {
                    assert(ds@ =~= dispatch_seq(d));
                }
                match res {
                    Err(e) => (SchedulerResp::Error(e), ds),
                    Ok(node_id) => (SchedulerResp::Node(node_id), ds),
                }
            },
            SchedulerIssue::Touch(node_id) => {
                let d = self.touch(node_id);
                let mut ds = Vec::new();
                if let Some(x) = d {
                    ds.push(x);
                }
                proof {
                    assert(ds@ =~= dispatch_seq(d));
                }
                (SchedulerResp::Empty, ds)
            },
            SchedulerIssue::HandshakeEstablished(node_id, key) => {
                match self.promote(node_id, key) {
                    Err(e) => (SchedulerResp::Error(e), Vec::new()),
                    Ok(()) => (SchedulerResp::Empty, Vec::new()),
                }
            },
            SchedulerIssue::Exists(node_id) => {
                if self.contains_node(node_id) {
                    (SchedulerResp::Empty, Vec::new())
                } else {
                    (SchedulerResp::Error(SchedulerError::NoNodeFound), Vec::new())
                }
            },
        }
    }

    /// Settles what node `node_id` ran and starts its next task.
    pub fn touch(&mut self, node_id: u128) -> (d: Option<Dispatch>)
        requires
            old(self)@.wf(),
            old(self)@.queues.contains_key(node_id),
            node_id == NODE_ZERO ==> old(self)@.queues[NODE_ZERO].len() == 0,
            old(self)@.touch_fits(node_id),
        ensures
            final(self)@.wf(),
            (final(self)@, d) == old(self)@.touch(node_id),
            d matches Some(x) ==> final(self)@.keys.contains_key(x.node),
    {
        let ghost s0 = self@;
        proof {
            lemma_queues_index(self.nodes@, node_id);
        }
        let (uuid, sz) = *self.pending.get(&node_id).unwrap();
        if uuid != 0 {
            let cur = *self.nodes_sz.get(&node_id).unwrap();
            self.nodes_by_sz.remove(&(cur, node_id));
            let new_sz = cur - sz;
            self.nodes_sz.insert(node_id, new_sz);
            self.nodes_by_sz.insert((new_sz, node_id));
            let t = *self.node_time.get(&node_id).unwrap();
            self.node_time.insert(node_id, t + sz);
            self.pending.insert(node_id, (0, 0));
        }
        let ghost s1 = self@;
        proof {
            assert(s1 == s0.settle(node_id));
            assert(s1.wf()) by {
                if uuid != 0 {
                    assert(s1.queues.dom() =~= s1.pending.dom());
                    assert(s1.queues.dom() =~= s1.loads.dom());
                    assert(s1.queues.dom() =~= s1.times.dom());
                    assert(s1.ranked.finite());
                    assert forall|n: u128| #[trigger]
                        s1.queues.contains_key(n) implies s1.loads[n] >= queued_work(s1.queues[n])
                        + inflight(s1.pending[n]) by {
                        if n == node_id {
                            assert(s0.loads[n] >= queued_work(s0.queues[n]) + sz);
                        }
                    }
                    assert forall|p: (u64, u128)| #[trigger]
                        s1.ranked.contains(p) implies s1.keys.contains_key(p.1) && s1.loads[p.1]
                        == p.0 by {
                        if p.1 != node_id {
                            assert(s0.ranked.contains(p));
                        }
                    }
                    assert forall|n: u128| #[trigger]
                        s1.keys.contains_key(n) implies s1.ranked.contains((s1.loads[n], n)) by {
                        if n != node_id {
                            assert(s0.ranked.contains((s0.loads[n], n)));
                        }
                    }
                }
            }
        }
        let ghost nodes1 = self.nodes@;
        let mut q = self.nodes.remove(&node_id).unwrap();
        let popped = q.pop();
        self.nodes.insert(node_id, q);
        proof {
            lemma_queues_insert(nodes1.remove(node_id), node_id, q);
            lemma_queues_remove(nodes1, node_id);
            assert(queues_of(nodes1).remove(node_id).insert(node_id, q@) =~= queues_of(
                nodes1,
            ).insert(node_id, q@));
        }
        match popped {
            Some(x) => {
                self.pending.insert(node_id, (x.2, x.1));
                proof {
                    lemma_next_exists(s1.queues[node_id]);
                    lemma_next_unique(s1.queues[node_id], x, next_task(s1.queues[node_id]));
                    lemma_queued_work_remove(s1.queues[node_id], x);
                    let s2 = self@;
                    assert(s2.queues.dom() =~= s2.pending.dom());
                    assert(s2.queues.dom() =~= s1.queues.dom());
                }
                Some(Dispatch { judge: x.2, node: node_id })
            },
            None => {
                proof {
                    assert(self@.queues =~= s1.queues);
                }
                None
            },
        }
    }
}

} // verus!
