//! The per-node queue of judge tasks, served in deadline order.
use vstd::multiset::Multiset;
use vstd::prelude::*;

verus! {

broadcast use vstd::seq_lib::group_to_multiset_ensures;

/// A queued judge task: `(deadline, weighted time, judge id)`.
pub type Task = (u64, u64, u128);

/// `a` is served no later than `b`: earlier deadline first, then the shorter
/// task, then the larger judge id.
pub open spec fn served_before(a: Task, b: Task) -> bool {
    ||| a.0 < b.0
    ||| (a.0 == b.0 && a.1 < b.1)
    ||| (a.0 == b.0 && a.1 == b.1 && a.2 >= b.2)
}

/// `x` is the task that a queue holding `q` serves next.
pub open spec fn is_next(q: Multiset<Task>, x: Task) -> bool {
    &&& q.contains(x)
    &&& forall|y: Task| q.contains(y) ==> served_before(x, y)
}

/// The task that a non-empty queue holding `q` serves next.
pub open spec fn next_task(q: Multiset<Task>) -> Task {
    choose|x: Task| is_next(q, x)
}

/// The sum of the weighted times of the tasks in `q`.
pub closed spec fn queued_work(q: Multiset<Task>) -> nat
    decreases q.len(),
{
    if q.len() == 0 {
        0
    } else {
        let c = q.choose();
        queued_work(q.remove(c)) + (c.1 as nat)
    }
}

/// The tasks of `q` with their deadlines set to zero, as the holding node keeps them.
pub closed spec fn reset_deadlines(q: Multiset<Task>) -> Multiset<Task>
    decreases q.len(),
{
    if q.len() == 0 {
        Multiset::empty()
    } else {
        let c = q.choose();
        reset_deadlines(q.remove(c)).insert((0, c.1, c.2))
    }
}

/// Whether some task of `q` belongs to judge `j`.
pub open spec fn holds_judge(q: Multiset<Task>, j: u128) -> bool {
    exists|x: Task| q.contains(x) && x.2 == j
}

proof fn lemma_remove_len(q: Multiset<Task>, x: Task)
    requires
        q.contains(x),
    ensures
        q.remove(x).len() == q.len() - 1,
        q.len() > 0,
{
}

/// Removing any task takes exactly its time off the total.
pub proof fn lemma_queued_work_remove(q: Multiset<Task>, x: Task)
    requires
        q.contains(x),
    ensures
        queued_work(q) == queued_work(q.remove(x)) + x.1,
    decreases q.len(),
{
    lemma_remove_len(q, x);
    let c = q.choose();
    assert(q.contains(c));
    if c != x {
        let qc = q.remove(c);
        let qx = q.remove(x);
        assert(qc.contains(x));
        assert(qx.contains(c));
        lemma_remove_len(q, c);
        lemma_queued_work_remove(qc, x);
        lemma_queued_work_remove(qx, c);
        assert(qc.remove(x) =~= qx.remove(c));
    }
}

/// Adding a task adds exactly its time to the total.
pub proof fn lemma_queued_work_insert(q: Multiset<Task>, x: Task)
    ensures
        queued_work(q.insert(x)) == queued_work(q) + x.1,
{
    lemma_queued_work_remove(q.insert(x), x);
    assert(q.insert(x).remove(x) =~= q);
}

/// The empty queue holds no work.
pub proof fn lemma_queued_work_empty()
    ensures
        queued_work(Multiset::<Task>::empty()) == 0,
{
}

/// Resetting deadlines commutes with taking any one task out.
pub proof fn lemma_reset_remove(q: Multiset<Task>, x: Task)
    requires
        q.contains(x),
    ensures
        reset_deadlines(q) == reset_deadlines(q.remove(x)).insert((0u64, x.1, x.2)),
    decreases q.len(),
{
    lemma_remove_len(q, x);
    let c = q.choose();
    assert(q.contains(c));
    if c != x {
        let qc = q.remove(c);
        let qx = q.remove(x);
        assert(qc.contains(x));
        assert(qx.contains(c));
        lemma_remove_len(q, c);
        lemma_reset_remove(qc, x);
        lemma_reset_remove(qx, c);
        assert(qc.remove(x) =~= qx.remove(c));
        let r = reset_deadlines(qc.remove(x));
        assert(r.insert((0u64, x.1, x.2)).insert((0u64, c.1, c.2)) =~= r.insert(
            (0u64, c.1, c.2),
        ).insert((0u64, x.1, x.2)));
    }
}

/// Moving the tasks of `b`, deadlines reset, into `a` adds their work to `a`'s.
pub proof fn lemma_queued_work_add_reset(a: Multiset<Task>, b: Multiset<Task>)
    ensures
        queued_work(a.add(reset_deadlines(b))) == queued_work(a) + queued_work(b),
    decreases b.len(),
{
    if b.len() == 0 {
        assert(b =~= Multiset::empty());
        assert(a.add(reset_deadlines(b)) =~= a);
    } else {
        let c = b.choose();
        assert(b.contains(c));
        lemma_remove_len(b, c);
        let rc = (0u64, c.1, c.2);
        lemma_queued_work_add_reset(a, b.remove(c));
        assert(a.add(reset_deadlines(b)) =~= a.add(reset_deadlines(b.remove(c))).insert(rc));
        lemma_queued_work_insert(a.add(reset_deadlines(b.remove(c))), rc);
        lemma_queued_work_remove(b, c);
    }
}

/// Resetting the deadlines of the empty queue gives the empty queue.
pub proof fn lemma_reset_empty()
    ensures
        reset_deadlines(Multiset::<Task>::empty()) == Multiset::<Task>::empty(),
{
}

/// The task served next is unique.
pub proof fn lemma_next_unique(q: Multiset<Task>, x: Task, y: Task)
    requires
        is_next(q, x),
        is_next(q, y),
    ensures
        x == y,
{
    assert(served_before(x, y));
    assert(served_before(y, x));
}

/// A non-empty queue has a task that it serves next.
pub proof fn lemma_next_exists(q: Multiset<Task>)
    requires
        q.len() > 0,
    ensures
        is_next(q, next_task(q)),
    decreases q.len(),
{
    let c = q.choose();
    assert(q.contains(c));
    lemma_remove_len(q, c);
    let r = q.remove(c);
    if r.len() == 0 {
        assert forall|y: Task| q.contains(y) implies served_before(c, y) by {
            if y != c {
                assert(r.count(y) == q.count(y));
            }
        }
        assert(is_next(q, c));
    } else {
        lemma_next_exists(r);
        let m = next_task(r);
        if served_before(m, c) {
            assert forall|y: Task| q.contains(y) implies served_before(m, y) by {
                if y != c {
                    assert(r.contains(y));
                }
            }
            assert(is_next(q, m));
        } else {
            assert forall|y: Task| q.contains(y) implies served_before(c, y) by {
                if y != c {
                    assert(r.contains(y));
                    assert(served_before(m, y));
                }
            }
            assert(is_next(q, c));
        }
    }
}

/// The tasks waiting on one node. Replaces a binary heap: the queue serves
/// the task with the earliest deadline first, ties going to the shorter task
/// and then to the larger judge id.
pub struct TaskQueue {
    items: Vec<Task>,
}

impl View for TaskQueue {
    type V = Multiset<Task>;

    closed spec fn view(&self) -> Multiset<Task> {
        self.items@.to_multiset()
    }
}

impl TaskQueue {
    /// An empty queue.
    pub fn new() -> (q: TaskQueue)
        ensures
            q@ == Multiset::<Task>::empty(),
    {
        let q = TaskQueue { items: Vec::new() };
        proof {
            assert(q.items@ =~= Seq::<Task>::empty());
        }
        q
    }

    /// The number of queued tasks.
    pub fn len(&self) -> (n: usize)
        ensures
            n == self@.len(),
    {
        self.items.len()
    }

    /// A queue holding the same tasks.
    pub fn duplicate(&self) -> (q: TaskQueue)
        ensures
            q@ == self@,
    {
        let mut items: Vec<Task> = Vec::new();
        for i in 0..self.items.len()
            invariant
                items@ == self.items@.take(i as int),
        {
            items.push(self.items[i]);
            proof {
                assert(items@ =~= self.items@.take(i + 1));
            }
        }
        proof {
            assert(self.items@.take(self.items@.len() as int) =~= self.items@);
        }
        TaskQueue { items }
    }

    /// Adds a task.
    pub fn push(&mut self, t: Task)
        ensures
            final(self)@ == old(self)@.insert(t),
    {
        self.items.push(t);
    }

    /// Takes out the task served next, if any.
    pub fn pop(&mut self) -> (r: Option<Task>)
        ensures
            match r {
                None => old(self)@.len() == 0 && final(self)@ == old(self)@,
                Some(x) => is_next(old(self)@, x) && final(self)@ == old(self)@.remove(x),
            },
    {
        let n = self.items.len();
        if n == 0 {
            return None;
        }
        let mut best: usize = 0;
        let mut i: usize = 1;
        while i < n
            invariant
                n == self.items.len(),
                0 < i <= n,
                best < i,
                forall|k: int| 0 <= k < i ==> served_before(self.items@[best as int], #[trigger] self.items@[k]),
            decreases n - i,
        {
            let a = self.items[best];
            let b = self.items[i];
            if b.0 < a.0 || (b.0 == a.0 && b.1 < a.1) || (b.0 == a.0 && b.1 == a.1 && b.2 > a.2) {
                best = i;
            }
            i = i + 1;
        }
        let ghost old_items = self.items@;
        let x = self.items.remove(best);
        proof {
            assert forall|y: Task| old_items.to_multiset().contains(y) implies served_before(x, y) by {
                assert(old_items.contains(y));
                let k = choose|k: int| 0 <= k < old_items.len() && old_items[k] == y;
                assert(served_before(old_items[best as int], old_items[k]));
            }
            assert(old_items.contains(x));
        }
        Some(x)
    }
}

} // verus!
