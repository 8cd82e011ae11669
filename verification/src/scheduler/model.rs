//! The abstract state of the deadline scheduler and what each of its
//! operations does to it.
use vstd::multiset::Multiset;
use vstd::prelude::*;

use super::task_queue::{
    holds_judge, lemma_next_exists, lemma_queued_work_add_reset, lemma_queued_work_empty,
    lemma_queued_work_insert, lemma_queued_work_remove, next_task, queued_work, reset_deadlines,
    Task,
};
use crate::constants::NODE_ZERO;

verus! {

/// A judge handed to a node: the node is to run `judge` now.
#[derive(Clone, Copy, Debug, PartialEq, Eq, Structural)]
pub struct Dispatch {
    pub judge: u128,
    pub node: u128,
}

/// What the scheduler holds, node by node.
pub struct SchedulerModel<K> {
    /// The tasks waiting on each registered node.
    pub queues: Map<u128, Multiset<Task>>,
    /// The shared key of each node whose handshake is done.
    pub keys: Map<u128, K>,
    /// The task each node runs now: `(judge, weighted time)`, judge 0 for none.
    pub pending: Map<u128, (u128, u64)>,
    /// The load of each node: the work handed to it and not yet settled.
    pub loads: Map<u128, u64>,
    /// `(load, node)` for every node that may receive tasks.
    pub ranked: Set<(u64, u128)>,
    /// The work each node has completed, which starts the deadlines it is given.
    pub times: Map<u128, u64>,
}

/// The time a running task still holds on its node.
pub open spec fn inflight(p: (u128, u64)) -> nat {
    if p.0 != 0 {
        p.1 as nat
    } else {
        0
    }
}

/// `a` is less loaded than `b`, ties going to the smaller node id.
pub open spec fn lighter(a: (u64, u128), b: (u64, u128)) -> bool {
    a.0 < b.0 || (a.0 == b.0 && a.1 <= b.1)
}

/// `x` is the least loaded entry of `r`.
pub open spec fn is_least(r: Set<(u64, u128)>, x: (u64, u128)) -> bool {
    &&& r.contains(x)
    &&& forall|y: (u64, u128)| r.contains(y) ==> lighter(x, y)
}

/// The least loaded entry of a non-empty `r`.
pub open spec fn least_loaded(r: Set<(u64, u128)>) -> (u64, u128) {
    choose|x: (u64, u128)| is_least(r, x)
}

/// Whether some node may receive tasks.
pub open spec fn has_ranked(r: Set<(u64, u128)>) -> bool {
    exists|x: (u64, u128)| r.contains(x)
}

/// The least loaded entry is unique.
pub proof fn lemma_least_unique(r: Set<(u64, u128)>, x: (u64, u128), y: (u64, u128))
    requires
        is_least(r, x),
        is_least(r, y),
    ensures
        x == y,
{
    assert(lighter(x, y));
    assert(lighter(y, x));
}

/// Once some entry is least, `least_loaded` names it.
pub proof fn lemma_least_is(r: Set<(u64, u128)>, x: (u64, u128))
    requires
        is_least(r, x),
    ensures
        least_loaded(r) == x,
        has_ranked(r),
{
    lemma_least_unique(r, x, least_loaded(r));
}

/// A finite set with some entry has a least loaded one.
pub proof fn lemma_least_exists(r: Set<(u64, u128)>)
    requires
        r.finite(),
        has_ranked(r),
    ensures
        is_least(r, least_loaded(r)),
    decreases r.len(),
{
    let c = r.choose();
    assert(r.contains(c));
    let rest = r.remove(c);
    if has_ranked(rest) {
        lemma_least_exists(rest);
        let m = least_loaded(rest);
        if lighter(m, c) {
            assert forall|y: (u64, u128)| r.contains(y) implies lighter(m, y) by {
                if y != c {
                    assert(rest.contains(y));
                }
            }
            lemma_least_is(r, m);
        } else {
            assert forall|y: (u64, u128)| r.contains(y) implies lighter(c, y) by {
                if y != c {
                    assert(rest.contains(y));
                }
            }
            lemma_least_is(r, c);
        }
    } else {
        assert forall|y: (u64, u128)| r.contains(y) implies lighter(c, y) by {
            if y != c {
                assert(rest.contains(y));
            }
        }
        lemma_least_is(r, c);
    }
}

/// Whether handing out the tasks `q`, each to the then least loaded entry
/// of `r`, with completed times `times`, stays within `u64`.
pub open spec fn hand_out_fits(q: Multiset<Task>, r: Set<(u64, u128)>, times: Map<u128, u64>) -> bool
    decreases q.len(),
{
    if q.len() > 0 && has_ranked(r) && least_loaded(r).1 != NODE_ZERO {
        proof {
            lemma_next_exists(q);
        }
        let x = next_task(q);
        let m = least_loaded(r);
        &&& m.0 + x.1 <= u64::MAX
        &&& times[m.1] + x.1 <= u64::MAX
        &&& hand_out_fits(q.remove(x), r.remove(m).insert(((m.0 + x.1) as u64, m.1)), times)
    } else {
        true
    }
}

/// Only the completed times of ranked nodes matter to `hand_out_fits`.
pub proof fn lemma_hand_out_fits_times(
    q: Multiset<Task>,
    r: Set<(u64, u128)>,
    t1: Map<u128, u64>,
    t2: Map<u128, u64>,
)
    requires
        r.finite(),
        forall|p: (u64, u128)| #[trigger] r.contains(p) ==> t1[p.1] == t2[p.1],
    ensures
        hand_out_fits(q, r, t1) == hand_out_fits(q, r, t2),
    decreases q.len(),
{
    if q.len() > 0 && has_ranked(r) && least_loaded(r).1 != NODE_ZERO {
        lemma_next_exists(q);
        let x = next_task(q);
        let m = least_loaded(r);
        let r1 = r.remove(m).insert(((m.0 + x.1) as u64, m.1));
        lemma_least_exists(r);
        assert forall|p: (u64, u128)| #[trigger] r1.contains(p) implies t1[p.1] == t2[p.1] by {
            if p != ((m.0 + x.1) as u64, m.1) {
                assert(r.contains(p));
            } else {
                assert(r.contains(m));
            }
        }
        lemma_hand_out_fits_times(q.remove(x), r1, t1, t2);
    }
}

/// Whether judge `j` waits on some node or runs on one.
pub open spec fn outstanding<K>(s: SchedulerModel<K>, j: u128) -> bool {
    exists|n: u128|
        s.queues.contains_key(n) && (holds_judge(s.queues[n], j) || (j != 0 && s.pending[n].0 == j))
}

impl<K> SchedulerModel<K> {
    /// The consistency of the scheduler's tables.
    pub open spec fn wf(self) -> bool {
        &&& self.queues.dom() == self.pending.dom()
        &&& self.queues.dom() == self.loads.dom()
        &&& self.queues.dom() == self.times.dom()
        &&& self.queues.dom().finite()
        &&& self.queues.contains_key(NODE_ZERO)
        &&& forall|n: u128| #[trigger] self.keys.contains_key(n) ==> self.queues.contains_key(n)
        &&& !self.keys.contains_key(NODE_ZERO)
        &&& self.ranked.finite()
        &&& forall|p: (u64, u128)|
            #[trigger] self.ranked.contains(p) ==> self.keys.contains_key(p.1) && self.loads[p.1]
                == p.0
        &&& forall|n: u128| #[trigger]
            self.keys.contains_key(n) ==> self.ranked.contains((self.loads[n], n))
        &&& forall|n: u128| #[trigger]
            self.queues.contains_key(n) ==> self.loads[n] >= queued_work(self.queues[n]) + inflight(
                self.pending[n],
            )
        &&& forall|n: u128| #[trigger]
            self.queues.contains_key(n) && self.pending[n].0 != 0 ==> self.keys.contains_key(n)
        &&& forall|n: u128| #[trigger]
            self.queues.contains_key(n) && n != NODE_ZERO && self.queues[n].len() > 0
                ==> self.keys.contains_key(n)
    }

    /// The load of every node besides the holding one is exactly the time of
    /// the tasks waiting on it plus that of the task it runs; the holding
    /// node runs nothing; no task of the nil judge waits anywhere, and a node
    /// that runs no judge holds no running time.
    pub open spec fn exact_loads(self) -> bool {
        &&& self.pending[NODE_ZERO] == (0u128, 0u64)
        &&& forall|n: u128| #[trigger]
            self.queues.contains_key(n) ==> !holds_judge(self.queues[n], 0)
        &&& forall|n: u128| #[trigger]
            self.queues.contains_key(n) && self.pending[n].0 == 0 ==> self.pending[n].1 == 0
        &&& forall|n: u128| #[trigger]
            self.queues.contains_key(n) && n != NODE_ZERO ==> self.loads[n] == queued_work(
                self.queues[n],
            ) + self.pending[n].1
    }

    /// The scheduler as it starts: only the holding node, idle and empty.
    pub open spec fn initial() -> SchedulerModel<K> {
        SchedulerModel {
            queues: Map::empty().insert(NODE_ZERO, Multiset::empty()),
            keys: Map::empty(),
            pending: Map::empty().insert(NODE_ZERO, (0u128, 0u64)),
            loads: Map::empty().insert(NODE_ZERO, 0u64),
            ranked: Set::empty(),
            times: Map::empty().insert(NODE_ZERO, 0u64),
        }
    }

    /// Settling the task node `n` runs: its time leaves the load and joins
    /// the completed time.
    pub open spec fn settle(self, n: u128) -> SchedulerModel<K> {
        if self.pending[n].0 != 0 {
            let sz = self.pending[n].1;
            let new_load = (self.loads[n] - sz) as u64;
            SchedulerModel {
                loads: self.loads.insert(n, new_load),
                times: self.times.insert(n, (self.times[n] + sz) as u64),
                pending: self.pending.insert(n, (0u128, 0u64)),
                ranked: self.ranked.remove((self.loads[n], n)).insert((new_load, n)),
                ..self
            }
        } else {
            self
        }
    }

    /// Starting the next task waiting on node `n`, if any.
    pub open spec fn start_next(self, n: u128) -> (SchedulerModel<K>, Option<Dispatch>) {
        if self.queues[n].len() == 0 {
            (self, None)
        } else {
            let x = next_task(self.queues[n]);
            (
                SchedulerModel {
                    queues: self.queues.insert(n, self.queues[n].remove(x)),
                    pending: self.pending.insert(n, (x.2, x.1)),
                    ..self
                },
                Some(Dispatch { judge: x.2, node: n }),
            )
        }
    }

    /// A node reports: what it ran is settled and its next task starts.
    pub open spec fn touch(self, n: u128) -> (SchedulerModel<K>, Option<Dispatch>) {
        self.settle(n).start_next(n)
    }

    /// The arithmetic of `touch` stays within `u64`.
    pub open spec fn touch_fits(self, n: u128) -> bool {
        self.pending[n].0 != 0 ==> self.times[n] + self.pending[n].1 <= u64::MAX
    }

    /// Queuing a task of weighted time `tw` on the least loaded node that may
    /// receive tasks, or on the holding node when none may; an idle receiving
    /// node starts it at once. Also gives the node chosen.
    pub open spec fn push(self, judge: u128, tw: u64) -> (SchedulerModel<K>, u128, Option<Dispatch>) {
        if has_ranked(self.ranked) {
            let m = least_loaded(self.ranked);
            let id = m.1;
            let new_load = (m.0 + tw) as u64;
            let s1 = SchedulerModel {
                queues: self.queues.insert(
                    id,
                    self.queues[id].insert(((self.times[id] + tw) as u64, tw, judge)),
                ),
                loads: self.loads.insert(id, new_load),
                ranked: self.ranked.remove(m).insert((new_load, id)),
                ..self
            };
            if s1.pending[id] == (0u128, 0u64) {
                let (s2, d) = s1.touch(id);
                (s2, id, d)
            } else {
                (s1, id, None)
            }
        } else {
            (
                SchedulerModel {
                    queues: self.queues.insert(
                        NODE_ZERO,
                        self.queues[NODE_ZERO].insert((0u64, tw, judge)),
                    ),
                    loads: self.loads.insert(NODE_ZERO, (self.loads[NODE_ZERO] + tw) as u64),
                    ..self
                },
                NODE_ZERO,
                None,
            )
        }
    }

    /// The arithmetic of `push` stays within `u64`.
    pub open spec fn push_fits(self, tw: u64) -> bool {
        if has_ranked(self.ranked) {
            let m = least_loaded(self.ranked);
            m.0 + tw <= u64::MAX && self.times[m.1] + tw <= u64::MAX
        } else {
            self.loads[NODE_ZERO] + tw <= u64::MAX
        }
    }

    /// Whether the holding node has a task waiting and some node may receive
    /// it. (Under `wf` the holding node itself never ranks; the last clause
    /// only says so where `wf` is not assumed.)
    pub open spec fn can_hand_out(self) -> bool {
        &&& self.queues[NODE_ZERO].len() > 0
        &&& has_ranked(self.ranked)
        &&& least_loaded(self.ranked).1 != NODE_ZERO
    }

    /// Handing the next task of the holding node to the least loaded node
    /// that may receive tasks; also gives that node.
    pub open spec fn hand_out_next(self) -> (SchedulerModel<K>, u128) {
        let x = next_task(self.queues[NODE_ZERO]);
        let m = least_loaded(self.ranked);
        let id = m.1;
        let new_load = (m.0 + x.1) as u64;
        let rest = self.queues.insert(NODE_ZERO, self.queues[NODE_ZERO].remove(x));
        (
            SchedulerModel {
                queues: rest.insert(id, rest[id].insert(((self.times[id] + x.1) as u64, x.1, x.2))),
                loads: self.loads.insert(id, new_load),
                ranked: self.ranked.remove(m).insert((new_load, id)),
                ..self
            },
            id,
        )
    }

    /// One hand-out step keeps the tables consistent and some node ranked,
    /// and gives the task to a node whose handshake is done.
    pub proof fn lemma_hand_out_next_wf(self)
        requires
            self.wf(),
            self.can_hand_out(),
            self.hand_out_next_fits(),
        ensures
            ({
                let (t, id) = self.hand_out_next();
                &&& t.wf()
                &&& t.queues.dom() == self.queues.dom()
                &&& t.keys == self.keys
                &&& t.pending == self.pending
                &&& t.times == self.times
                &&& t.queues[NODE_ZERO].len() < self.queues[NODE_ZERO].len()
                &&& self.keys.contains_key(id)
                &&& has_ranked(t.ranked)
            }),
    {
        lemma_next_exists(self.queues[NODE_ZERO]);
        let x = next_task(self.queues[NODE_ZERO]);
        lemma_queued_work_remove(self.queues[NODE_ZERO], x);
        lemma_least_exists(self.ranked);
        let m = least_loaded(self.ranked);
        let id = m.1;
        assert(self.keys.contains_key(id));
        let new_load = (m.0 + x.1) as u64;
        let task = ((self.times[id] + x.1) as u64, x.1, x.2);
        let rest = self.queues.insert(NODE_ZERO, self.queues[NODE_ZERO].remove(x));
        let t = self.hand_out_next().0;
        lemma_queued_work_insert(rest[id], task);
        assert(t.ranked.contains((new_load, id)));
        assert(t.queues.dom() =~= self.queues.dom());
        assert(t.loads.dom() =~= self.loads.dom());
        assert(t.ranked.finite());
        assert forall|p: (u64, u128)| #[trigger]
            t.ranked.contains(p) implies t.keys.contains_key(p.1) && t.loads[p.1] == p.0 by {
            if p != (new_load, id) {
                assert(self.ranked.contains(p));
            }
        }
        assert forall|n: u128| #[trigger]
            t.keys.contains_key(n) implies t.ranked.contains((t.loads[n], n)) by {
            if n != id {
                assert(self.ranked.contains((self.loads[n], n)));
            }
        }
        assert forall|n: u128| #[trigger]
            t.queues.contains_key(n) implies t.loads[n] >= queued_work(t.queues[n]) + inflight(
                t.pending[n],
            ) by {
            if n != id && n != NODE_ZERO {
                assert(self.queues.contains_key(n));
            }
        }
        assert forall|n: u128| #[trigger]
            t.queues.contains_key(n) && n != NODE_ZERO && t.queues[n].len() > 0 implies t.keys.contains_key(n) by {
            assert(self.queues.contains_key(n));
        }
    }

    /// The arithmetic of `hand_out_next` stays within `u64`.
    pub open spec fn hand_out_next_fits(self) -> bool {
        let m = least_loaded(self.ranked);
        let x = next_task(self.queues[NODE_ZERO]);
        m.0 + x.1 <= u64::MAX && self.times[m.1] + x.1 <= u64::MAX
    }

    /// Handing out the tasks of the holding node one by one, for as long as
    /// some node may receive them; `used` gathers the nodes that received
    /// some. With no such node every task stays where it is.
    pub open spec fn hand_out_all(self, used: Set<u128>) -> (SchedulerModel<K>, Set<u128>)
        decreases self.queues[NODE_ZERO].len(),
    {
        if self.can_hand_out() {
            proof {
                lemma_next_exists(self.queues[NODE_ZERO]);
            }
            let (s1, id) = self.hand_out_next();
            s1.hand_out_all(used.insert(id))
        } else {
            (self, used)
        }
    }

    /// The arithmetic of `hand_out_all` stays within `u64`.
    pub open spec fn hand_out_all_fits(self) -> bool
        decreases self.queues[NODE_ZERO].len(),
    {
        if self.can_hand_out() {
            proof {
                lemma_next_exists(self.queues[NODE_ZERO]);
            }
            self.hand_out_next_fits() && self.hand_out_next().0.hand_out_all_fits()
        } else {
            true
        }
    }

    /// `hand_out_all_fits` depends only on what waits on the holding node,
    /// on the ranked entries and on the completed times.
    pub proof fn lemma_hand_out_fits_eq(self)
        ensures
            self.hand_out_all_fits() == hand_out_fits(
                self.queues[NODE_ZERO],
                self.ranked,
                self.times,
            ),
        decreases self.queues[NODE_ZERO].len(),
    {
        if self.can_hand_out() {
            lemma_next_exists(self.queues[NODE_ZERO]);
            let x = next_task(self.queues[NODE_ZERO]);
            let (t, id) = self.hand_out_next();
            assert(t.queues[NODE_ZERO] == self.queues[NODE_ZERO].remove(x));
            t.lemma_hand_out_fits_eq();
        }
    }

    /// Node `n` received tasks, runs nothing and so starts its next one.
    pub open spec fn starts(self, used: Set<u128>, n: u128) -> bool {
        &&& used.contains(n)
        &&& self.queues.contains_key(n)
        &&& self.pending[n] == (0u128, 0u64)
        &&& self.queues[n].len() > 0
    }

    /// Every node of `used` that runs nothing starts its next task.
    pub open spec fn start_idle(self, used: Set<u128>) -> SchedulerModel<K> {
        SchedulerModel {
            queues: Map::new(
                |n: u128| self.queues.contains_key(n),
                |n: u128|
                    if self.starts(used, n) {
                        self.queues[n].remove(next_task(self.queues[n]))
                    } else {
                        self.queues[n]
                    },
            ),
            pending: Map::new(
                |n: u128| self.pending.contains_key(n),
                |n: u128|
                    if self.starts(used, n) {
                        (next_task(self.queues[n]).2, next_task(self.queues[n]).1)
                    } else {
                        self.pending[n]
                    },
            ),
            ..self
        }
    }

    /// Starting the idle nodes of no set changes nothing.
    pub proof fn lemma_start_idle_none(self)
        ensures
            self.start_idle(Set::empty()) == self,
    {
        let t = self.start_idle(Set::empty());
        assert(t.queues =~= self.queues);
        assert(t.pending =~= self.pending);
    }

    /// Starting the idle nodes of `used` and then node `k` as `touch` does
    /// is starting those of `used` with `k`.
    pub proof fn lemma_start_idle_step(self, used: Set<u128>, k: u128)
        requires
            self.wf(),
            self.queues.contains_key(k),
            !used.contains(k),
        ensures
            self.start_idle(used).pending[k] == self.pending[k],
            self.start_idle(used).queues[k] == self.queues[k],
            self.pending[k] == (0u128, 0u64) ==> {
                let (t, d) = self.start_idle(used).touch(k);
                &&& t == self.start_idle(used.insert(k))
                &&& d == if self.queues[k].len() > 0 {
                    Some(Dispatch { judge: next_task(self.queues[k]).2, node: k })
                } else {
                    None::<Dispatch>
                }
            },
            self.pending[k] != (0u128, 0u64) ==> self.start_idle(used) == self.start_idle(
                used.insert(k),
            ),
    {
        let a = self.start_idle(used);
        let b = self.start_idle(used.insert(k));
        assert(a.pending.contains_key(k));
        if self.pending[k] == (0u128, 0u64) {
            assert(a.settle(k) == a);
            let (t, d) = a.touch(k);
            if self.queues[k].len() > 0 {
                assert(t.queues =~= b.queues);
                assert(t.pending =~= b.pending);
            } else {
                assert(a.queues =~= b.queues);
                assert(a.pending =~= b.pending);
            }
        } else {
            assert(a.queues =~= b.queues);
            assert(a.pending =~= b.pending);
        }
    }

    /// `ds` lists the tasks `start_idle(used)` starts, by increasing node id.
    pub open spec fn started(self, used: Set<u128>, ds: Seq<Dispatch>) -> bool {
        &&& forall|i: int, j: int| 0 <= i < j < ds.len() ==> ds[i].node < ds[j].node
        &&& forall|i: int|
            0 <= i < ds.len() ==> self.starts(used, #[trigger] ds[i].node) && ds[i].judge
                == next_task(self.queues[ds[i].node]).2
        &&& forall|n: u128| self.starts(used, n) ==> exists|i: int| 0 <= i < ds.len() && #[trigger] ds[i].node == n
    }

    /// Rebalancing: with some node besides the holding one registered, the
    /// tasks of the holding node are handed out while some node may receive
    /// them, and the idle nodes that received tasks start one.
    pub open spec fn rebalance(self) -> SchedulerModel<K> {
        if self.queues.dom().len() > 1 {
            let (s, used) = self.hand_out_all(Set::empty());
            s.start_idle(used)
        } else {
            self
        }
    }

    /// `ds` lists the tasks `rebalance` starts, by increasing node id.
    pub open spec fn rebalance_starts(self, ds: Seq<Dispatch>) -> bool {
        if self.queues.dom().len() > 1 {
            let (s, used) = self.hand_out_all(Set::empty());
            s.started(used, ds)
        } else {
            ds.len() == 0
        }
    }

    /// The arithmetic of `rebalance` stays within `u64`.
    pub open spec fn rebalance_fits(self) -> bool {
        self.queues.dom().len() > 1 ==> self.hand_out_all_fits()
    }

    /// A newly registered node: idle, empty, not yet receiving tasks.
    pub open spec fn with_node(self, n: u128) -> SchedulerModel<K> {
        SchedulerModel {
            queues: self.queues.insert(n, Multiset::empty()),
            pending: self.pending.insert(n, (0u128, 0u64)),
            loads: self.loads.insert(n, 0u64),
            times: self.times.insert(n, 0u64),
            ..self
        }
    }

    /// Registering a node not yet registered keeps the tables consistent.
    pub proof fn lemma_with_node_wf(self, n: u128)
        requires
            self.wf(),
            !self.queues.contains_key(n),
        ensures
            self.with_node(n).wf(),
            self.with_node(n).keys == self.keys,
            self.with_node(n).queues.dom() == self.queues.dom().insert(n),
    {
        let t = self.with_node(n);
        lemma_queued_work_empty();
        assert(t.queues.dom() =~= self.queues.dom().insert(n));
        assert(t.pending.dom() =~= self.queues.dom().insert(n));
        assert(t.loads.dom() =~= self.queues.dom().insert(n));
        assert(t.times.dom() =~= self.queues.dom().insert(n));
        assert forall|p: (u64, u128)| #[trigger]
            t.ranked.contains(p) implies t.keys.contains_key(p.1) && t.loads[p.1] == p.0 by {
            assert(self.ranked.contains(p));
        }
        assert forall|m: u128| #[trigger]
            t.keys.contains_key(m) implies t.ranked.contains((t.loads[m], m)) by {
            assert(self.ranked.contains((self.loads[m], m)));
        }
        assert forall|m: u128| #[trigger]
            t.queues.contains_key(m) implies t.loads[m] >= queued_work(t.queues[m]) + inflight(
                t.pending[m],
            ) by {
            if m != n {
                assert(self.queues.contains_key(m));
            }
        }
        assert forall|m: u128| #[trigger]
            t.queues.contains_key(m) && t.pending[m].0 != 0 implies t.keys.contains_key(m) by {
            assert(self.queues.contains_key(m));
        }
        assert forall|m: u128| #[trigger]
            t.queues.contains_key(m) && m != NODE_ZERO && t.queues[m].len() > 0 implies t.keys.contains_key(m) by {
            assert(self.queues.contains_key(m));
        }
    }

    /// Removing a registered node other than the holding one keeps the
    /// tables consistent.
    pub proof fn lemma_without_node_wf(self, n: u128)
        requires
            self.wf(),
            self.queues.contains_key(n),
            n != NODE_ZERO,
            self.loads[NODE_ZERO] + queued_work(self.queues[n]) <= u64::MAX,
        ensures
            self.without_node(n).wf(),
            self.without_node(n).queues.dom() == self.queues.dom().remove(n),
    {
        let t = self.without_node(n);
        lemma_queued_work_add_reset(self.queues[NODE_ZERO], self.queues[n]);
        assert(t.queues.dom() =~= self.queues.dom().remove(n));
        assert(t.pending.dom() =~= self.queues.dom().remove(n));
        assert(t.loads.dom() =~= self.queues.dom().remove(n));
        assert(t.times.dom() =~= self.queues.dom().remove(n));
        assert(t.ranked.finite());
        assert forall|p: (u64, u128)| #[trigger]
            t.ranked.contains(p) implies t.keys.contains_key(p.1) && t.loads[p.1] == p.0 by {
            assert(self.ranked.contains(p));
        }
        assert forall|m: u128| #[trigger]
            t.keys.contains_key(m) implies t.ranked.contains((t.loads[m], m)) by {
            assert(self.ranked.contains((self.loads[m], m)));
        }
        assert forall|m: u128| #[trigger]
            t.queues.contains_key(m) implies t.loads[m] >= queued_work(t.queues[m]) + inflight(
                t.pending[m],
            ) by {
            assert(self.queues.contains_key(m));
        }
        assert forall|m: u128| #[trigger]
            t.queues.contains_key(m) && t.pending[m].0 != 0 implies t.keys.contains_key(m) by {
            assert(self.queues.contains_key(m));
        }
        assert forall|m: u128| #[trigger]
            t.queues.contains_key(m) && m != NODE_ZERO && t.queues[m].len() > 0 implies t.keys.contains_key(m) by {
            assert(self.queues.contains_key(m));
        }
    }

    /// A node that completed its handshake: it keeps `key` and may receive tasks.
    pub open spec fn promote(self, n: u128, key: K) -> SchedulerModel<K> {
        SchedulerModel {
            keys: self.keys.insert(n, key),
            ranked: self.ranked.insert((self.loads[n], n)),
            ..self
        }
    }

    /// A node leaves: its waiting tasks move to the holding node with their
    /// deadlines reset, and its running task is forgotten.
    pub open spec fn without_node(self, n: u128) -> SchedulerModel<K> {
        SchedulerModel {
            queues: self.queues.remove(n).insert(
                NODE_ZERO,
                self.queues[NODE_ZERO].add(reset_deadlines(self.queues[n])),
            ),
            keys: self.keys.remove(n),
            pending: self.pending.remove(n),
            loads: self.loads.remove(n).insert(
                NODE_ZERO,
                (self.loads[NODE_ZERO] + queued_work(self.queues[n])) as u64,
            ),
            ranked: self.ranked.remove((self.loads[n], n)),
            times: self.times.remove(n),
        }
    }

    /// The arithmetic of removing node `n` stays within `u64`.
    pub open spec fn unregister_fits(self, n: u128) -> bool {
        &&& self.loads[NODE_ZERO] + queued_work(self.queues[n]) <= u64::MAX
        &&& self.without_node(n).rebalance_fits()
    }
}

} // verus!
