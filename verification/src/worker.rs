use vstd::prelude::*;
use vstd::multiset::Multiset;
use crate::task::{Task, TaskState};
use crate::queue::WorkStealingDeque;

verus! {

broadcast use vstd::multiset::group_multiset_axioms;

/// The three process-wide counters.  `total` is fixed once submission ends;
/// `completed` is incremented exactly once per executed task and `stolen`
/// exactly once per successful steal.
#[derive(Debug, Clone, Copy, PartialEq, Eq, Structural)]
pub struct Counters {
    pub completed: usize,
    pub stolen: usize,
    pub total: usize,
}

/// Telemetry record of one task execution: which worker ran the task, whether
/// it had been stolen, and the local queue depth at dispatch time.
#[derive(Debug, Clone, Copy, PartialEq, Eq, Structural)]
pub struct ExecEvent {
    pub worker: usize,
    pub task: Task,
    pub was_stolen: bool,
    pub queue_depth: usize,
}

/// Telemetry record of one successful steal.
#[derive(Debug, Clone, Copy, PartialEq, Eq, Structural)]
pub struct StealEvent {
    pub thief: usize,
    pub victim: usize,
    pub task_id: usize,
}

/// What one pass of the scheduling loop did.
#[derive(Debug, Clone, Copy, PartialEq, Eq, Structural)]
pub enum StepOutcome {
    /// The termination predicate held; the worker leaves its loop.
    Exit,
    /// A task from the worker's own queue was executed.
    ExecutedLocal,
    /// A task stolen from a peer was executed.
    ExecutedStolen,
    /// No work was found anywhere; the worker backs off briefly.
    Slept,
}

/// Minimum size difference between a peer's queue and the stealer's own queue
/// required before a steal is attempted.  Any positive imbalance qualifies.
pub const IMBALANCE_THRESHOLD: usize = 0;

/// The observed sizes of all queues, as the workers read them.
pub open spec fn sizes_of(qs: Seq<WorkStealingDeque>) -> Seq<usize> {
    Seq::new(qs.len(), |i: int| qs[i]@.len() as usize)
}

/// Smallest candidate index at or above `k` (skipping the designated worker 0
/// and the stealer itself) whose queue exceeds the stealer's own by more than
/// the imbalance threshold.
pub open spec fn scan_victim(sizes: Seq<usize>, id: int, k: int) -> Option<int>
    decreases sizes.len() - k,
{
    if k >= sizes.len() {
        None
    } else if k != 0 && k != id && sizes[k] > sizes[id] + IMBALANCE_THRESHOLD {
        Some(k)
    } else {
        scan_victim(sizes, id, k + 1)
    }
}

/// The queue a stealer will take from: the designated worker's queue first,
/// then the remaining peers in index order.  The designated worker (id 0)
/// never steals.
pub open spec fn first_victim(sizes: Seq<usize>, id: int) -> Option<int> {
    if id == 0 {
        None
    } else if 0 < sizes.len() && id < sizes.len() && sizes[0] > sizes[id] + IMBALANCE_THRESHOLD {
        Some(0)
    } else {
        scan_victim(sizes, id, 1)
    }
}

/// Total number of tasks waiting across all queues.
pub open spec fn total_queued(qs: Seq<WorkStealingDeque>) -> int
    decreases qs.len(),
{
    if qs.len() == 0 {
        0
    } else {
        total_queued(qs.drop_last()) + qs.last()@.len()
    }
}

/// The multiset of task ids held by one queue.
pub open spec fn queue_ids(q: Seq<Task>) -> Multiset<usize>
    decreases q.len(),
{
    if q.len() == 0 {
        Multiset::empty()
    } else {
        queue_ids(q.drop_last()).insert(q.last().id)
    }
}

/// The multiset of task ids waiting in any queue.
pub open spec fn queued_ids(qs: Seq<WorkStealingDeque>) -> Multiset<usize>
    decreases qs.len(),
{
    if qs.len() == 0 {
        Multiset::empty()
    } else {
        queued_ids(qs.drop_last()).add(queue_ids(qs.last()@))
    }
}

/// The multiset of task ids already executed.
pub open spec fn exec_ids(el: Seq<ExecEvent>) -> Multiset<usize>
    decreases el.len(),
{
    if el.len() == 0 {
        Multiset::empty()
    } else {
        exec_ids(el.drop_last()).insert(el.last().task.id)
    }
}

/// Every task id known to the system, waiting or executed.
pub open spec fn system_ids(qs: Seq<WorkStealingDeque>, el: Seq<ExecEvent>) -> Multiset<usize> {
    queued_ids(qs).add(exec_ids(el))
}

/// No id occurs twice anywhere in the system.
pub open spec fn ids_unique(m: Multiset<usize>) -> bool {
    forall|x: usize| m.count(x) <= 1
}

/// Some queue other than `id`'s own shows residual work.
pub open spec fn peer_work_exists(sizes: Seq<usize>, id: int) -> bool {
    exists|j: int| 0 <= j < sizes.len() && j != id && sizes[j] > 0
}

/// The distributed termination predicate: all submitted tasks are accounted
/// for and no peer queue holds residual work.
pub open spec fn termination_holds(qs: Seq<WorkStealingDeque>, c: Counters, id: int) -> bool {
    c.completed + c.stolen >= c.total && !peer_work_exists(sizes_of(qs), id)
}

/// Well-formedness of the shared scheduling state: the counters agree with
/// the telemetry logs and the queues, every waiting or executed id is unique,
/// and every recorded steal names a valid non-designated thief.
pub open spec fn sys_wf(
    qs: Seq<WorkStealingDeque>,
    c: Counters,
    el: Seq<ExecEvent>,
    sl: Seq<StealEvent>,
) -> bool {
    &&& forall|i: int| 0 <= i < qs.len() ==> (#[trigger] qs[i]).wf()
    &&& c.completed == el.len()
    &&& c.stolen == sl.len()
    &&& c.total == el.len() + total_queued(qs)
    &&& c.stolen <= c.completed
    &&& forall|i: int, p: int|
        0 <= i < qs.len() && 0 <= p < qs[i]@.len()
            ==> (#[trigger] qs[i]@[p]).state is Ready
    &&& ids_unique(system_ids(qs, el))
    &&& forall|i: int| 0 <= i < sl.len() ==> {
        &&& (#[trigger] sl[i]).thief != 0
        &&& sl[i].thief < qs.len()
        &&& sl[i].victim < qs.len()
        &&& sl[i].victim != sl[i].thief
    }
    &&& forall|i: int| 0 <= i < el.len() ==> (#[trigger] el[i]).worker < qs.len()
        && el[i].task.state is Completed
}

proof fn lemma_scan_victim_props(sizes: Seq<usize>, id: int, k: int)
    ensures
        match scan_victim(sizes, id, k) {
            Some(v) => k <= v < sizes.len() && v != id && v != 0
                && sizes[v] > sizes[id] + IMBALANCE_THRESHOLD,
            None => forall|j: int|
                k <= j < sizes.len() && j != id && j != 0
                    ==> sizes[j] <= sizes[id] + IMBALANCE_THRESHOLD,
        },
    decreases sizes.len() - k,
{
    if k >= sizes.len() {
    } else {
        lemma_scan_victim_props(sizes, id, k + 1);
    }
}

/// What a successful or failed victim choice means: a chosen victim is a
/// valid, distinct peer with a genuinely larger queue; no choice means no
/// peer exceeded the threshold.
pub proof fn lemma_first_victim_props(sizes: Seq<usize>, id: int)
    requires
        0 <= id < sizes.len(),
    ensures
        match first_victim(sizes, id) {
            Some(v) => 0 <= v < sizes.len() && v != id && id != 0
                && sizes[v] > sizes[id] + IMBALANCE_THRESHOLD,
            None => id == 0 || forall|j: int|
                0 <= j < sizes.len() && j != id
                    ==> sizes[j] <= sizes[id] + IMBALANCE_THRESHOLD,
        },
{
    lemma_scan_victim_props(sizes, id, 1);
}

/// Replacing one queue shifts the total count by the length difference.
pub(crate) proof fn lemma_total_queued_update(qs: Seq<WorkStealingDeque>, i: int, q2: WorkStealingDeque)
    requires
        0 <= i < qs.len(),
    ensures
        total_queued(qs.update(i, q2)) == total_queued(qs) - qs[i]@.len() + q2@.len(),
    decreases qs.len(),
{
    let upd = qs.update(i, q2);
    if i == qs.len() - 1 {
        assert(upd.drop_last() =~= qs.drop_last());
    } else {
        assert(upd.drop_last() =~= qs.drop_last().update(i, q2));
        lemma_total_queued_update(qs.drop_last(), i, q2);
    }
}

/// Replacing one queue exchanges exactly that queue's contribution of ids.
pub(crate) proof fn lemma_queued_ids_update(qs: Seq<WorkStealingDeque>, i: int, q2: WorkStealingDeque)
    requires
        0 <= i < qs.len(),
    ensures
        queued_ids(qs.update(i, q2)).add(queue_ids(qs[i]@))
            =~= queued_ids(qs).add(queue_ids(q2@)),
    decreases qs.len(),
{
    let upd = qs.update(i, q2);
    if i == qs.len() - 1 {
        assert(upd.drop_last() =~= qs.drop_last());
    } else {
        assert(upd.drop_last() =~= qs.drop_last().update(i, q2));
        lemma_queued_ids_update(qs.drop_last(), i, q2);
        assert(upd.last() == qs.last());
        assert(qs.drop_last()[i] == qs[i]);
        let a2 = queued_ids(qs.drop_last().update(i, q2));
        let a = queued_ids(qs.drop_last());
        let l = queue_ids(qs.last()@);
        let c = queue_ids(qs[i]@);
        let q2m = queue_ids(q2@);
        assert(a2.add(c) =~= a.add(q2m));
        assert forall|x: usize|
            queued_ids(upd).add(c).count(x) == queued_ids(qs).add(q2m).count(x) by {
            assert(a2.add(c).count(x) == a.add(q2m).count(x));
        }
        assert(queued_ids(upd).add(c) =~= queued_ids(qs).add(q2m));
    }
}

/// Taking the front element removes exactly its id from the queue's multiset.
proof fn lemma_queue_ids_drop_first(q: Seq<Task>)
    requires
        q.len() > 0,
    ensures
        queue_ids(q) =~= queue_ids(q.drop_first()).insert(q[0].id),
    decreases q.len(),
{
    if q.len() == 1 {
        assert(q.drop_last() =~= Seq::<Task>::empty());
        assert(q.drop_first() =~= Seq::<Task>::empty());
    } else {
        lemma_queue_ids_drop_first(q.drop_last());
        assert(q.drop_first().drop_last() =~= q.drop_last().drop_first());
        assert(q.drop_last()[0] == q[0]);
        assert(q.drop_first().last() == q.last());
    }
}

/// Appending an execution event inserts exactly that task's id.
proof fn lemma_exec_ids_push(el: Seq<ExecEvent>, e: ExecEvent)
    ensures
        exec_ids(el.push(e)) == exec_ids(el).insert(e.task.id),
{
    assert(el.push(e).drop_last() =~= el);
}

/// A fresh queue appended at the end contributes its own length and ids.
pub proof fn lemma_queues_push(qs: Seq<WorkStealingDeque>, q: WorkStealingDeque)
    ensures
        total_queued(qs.push(q)) == total_queued(qs) + q@.len(),
        queued_ids(qs.push(q)) == queued_ids(qs).add(queue_ids(q@)),
{
    assert(qs.push(q).drop_last() =~= qs);
}

/// The total count is never negative, and it is zero exactly when every
/// queue is empty.
pub proof fn lemma_total_queued_empty(qs: Seq<WorkStealingDeque>)
    ensures
        total_queued(qs) >= 0,
        (total_queued(qs) == 0) <==> (forall|i: int|
            0 <= i < qs.len() ==> (#[trigger] qs[i])@.len() == 0),
    decreases qs.len(),
{
    if qs.len() > 0 {
        lemma_total_queued_empty(qs.drop_last());
        if total_queued(qs) == 0 {
            assert forall|i: int| 0 <= i < qs.len() implies (#[trigger] qs[i])@.len() == 0 by {
                if i < qs.len() - 1 {
                    assert(qs.drop_last()[i] == qs[i]);
                }
            }
        }
        if forall|i: int| 0 <= i < qs.len() ==> (#[trigger] qs[i])@.len() == 0 {
            assert forall|i: int| 0 <= i < qs.drop_last().len()
                implies (#[trigger] qs.drop_last()[i])@.len() == 0 by {
                assert(qs.drop_last()[i] == qs[i]);
            }
        }
    }
}

/// Whether some waiting task in the sequence carries the id.
pub open spec fn queue_holds_id(q: Seq<Task>, x: usize) -> bool {
    exists|p: int| 0 <= p < q.len() && q[p].id == x
}

/// Whether some execution record carries the id.
pub open spec fn log_holds_id(el: Seq<ExecEvent>, x: usize) -> bool {
    exists|p: int| 0 <= p < el.len() && el[p].task.id == x
}

/// An id present at a position counts in the queue's multiset.
pub proof fn lemma_queue_ids_count(q: Seq<Task>, p: int)
    requires
        0 <= p < q.len(),
    ensures
        queue_ids(q).count(q[p].id) >= 1,
    decreases q.len(),
{
    if p < q.len() - 1 {
        lemma_queue_ids_count(q.drop_last(), p);
        assert(q.drop_last()[p] == q[p]);
    }
}

/// An id present at two positions counts twice in the queue's multiset.
pub proof fn lemma_queue_ids_count_two(q: Seq<Task>, p: int, r: int)
    requires
        0 <= p < r < q.len(),
        q[p].id == q[r].id,
    ensures
        queue_ids(q).count(q[p].id) >= 2,
    decreases q.len(),
{
    if r == q.len() - 1 {
        lemma_queue_ids_count(q.drop_last(), p);
        assert(q.drop_last()[p] == q[p]);
    } else {
        lemma_queue_ids_count_two(q.drop_last(), p, r);
        assert(q.drop_last()[p] == q[p]);
    }
}

/// One queue's count is a lower bound on the count across all queues.
pub proof fn lemma_queued_ids_le(qs: Seq<WorkStealingDeque>, j: int, x: usize)
    requires
        0 <= j < qs.len(),
    ensures
        queued_ids(qs).count(x) >= queue_ids(qs[j]@).count(x),
    decreases qs.len(),
{
    if j < qs.len() - 1 {
        lemma_queued_ids_le(qs.drop_last(), j, x);
        assert(qs.drop_last()[j] == qs[j]);
    }
}

/// Two distinct queues contribute their counts independently.
pub proof fn lemma_queued_ids_pair(qs: Seq<WorkStealingDeque>, j: int, k: int, x: usize)
    requires
        0 <= j < k < qs.len(),
    ensures
        queued_ids(qs).count(x) >= queue_ids(qs[j]@).count(x) + queue_ids(qs[k]@).count(x),
    decreases qs.len(),
{
    if k == qs.len() - 1 {
        lemma_queued_ids_le(qs.drop_last(), j, x);
        assert(qs.drop_last()[j] == qs[j]);
    } else {
        lemma_queued_ids_pair(qs.drop_last(), j, k, x);
        assert(qs.drop_last()[j] == qs[j]);
        assert(qs.drop_last()[k] == qs[k]);
    }
}

/// An id present in an execution record counts in the executed multiset.
pub proof fn lemma_exec_ids_count(el: Seq<ExecEvent>, p: int)
    requires
        0 <= p < el.len(),
    ensures
        exec_ids(el).count(el[p].task.id) >= 1,
    decreases el.len(),
{
    if p < el.len() - 1 {
        lemma_exec_ids_count(el.drop_last(), p);
        assert(el.drop_last()[p] == el[p]);
    }
}

/// An id present in two execution records counts twice.
pub proof fn lemma_exec_ids_count_two(el: Seq<ExecEvent>, p: int, r: int)
    requires
        0 <= p < r < el.len(),
        el[p].task.id == el[r].task.id,
    ensures
        exec_ids(el).count(el[p].task.id) >= 2,
    decreases el.len(),
{
    if r == el.len() - 1 {
        lemma_exec_ids_count(el.drop_last(), p);
        assert(el.drop_last()[p] == el[p]);
    } else {
        lemma_exec_ids_count_two(el.drop_last(), p, r);
        assert(el.drop_last()[p] == el[p]);
    }
}

/// Moving one task from a queue into the execution log leaves the system's
/// id multiset unchanged.
proof fn lemma_move_task(
    qs: Seq<WorkStealingDeque>,
    qs2: Seq<WorkStealingDeque>,
    v: int,
    el: Seq<ExecEvent>,
    e: ExecEvent,
)
    requires
        0 <= v < qs.len(),
        qs2 == qs.update(v, qs2[v]),
        qs[v]@.len() > 0,
        queue_ids(qs[v]@) == queue_ids(qs2[v]@).insert(e.task.id),
    ensures
        system_ids(qs2, el.push(e)) =~= system_ids(qs, el),
{
    lemma_queued_ids_update(qs, v, qs2[v]);
    lemma_exec_ids_push(el, e);
    assert forall|y: usize|
        system_ids(qs2, el.push(e)).count(y) == system_ids(qs, el).count(y) by {
        assert(queued_ids(qs.update(v, qs2[v])).add(queue_ids(qs[v]@)).count(y)
            == queued_ids(qs).add(queue_ids(qs2[v]@)).count(y));
    }
}

/// Empty queues contribute no ids.
pub proof fn lemma_queued_ids_all_empty(qs: Seq<WorkStealingDeque>)
    requires
        forall|i: int| 0 <= i < qs.len() ==> (#[trigger] qs[i])@.len() == 0,
    ensures
        queued_ids(qs) =~= Multiset::<usize>::empty(),
    decreases qs.len(),
{
    if qs.len() > 0 {
        assert forall|i: int| 0 <= i < qs.drop_last().len()
            implies (#[trigger] qs.drop_last()[i])@.len() == 0 by {
            assert(qs.drop_last()[i] == qs[i]);
        }
        lemma_queued_ids_all_empty(qs.drop_last());
        assert(qs.last()@.len() == 0);
        assert(queue_ids(qs.last()@) =~= Multiset::<usize>::empty());
    }
}

/// A worker: an identity, exclusive use of the queue at the same index, and a
/// steal capability on every peer queue.  The shared state itself (queues,
/// counters, telemetry) is handed to each operation by the caller that owns
/// it, so the same decision logic serves both the verified sequential runner
/// and an external threaded one.
#[derive(Debug, Clone, Copy, PartialEq, Eq, Structural)]
pub struct Worker {
    pub id: usize,
}

impl Worker {
    pub fn new(id: usize) -> (w: Worker)
        ensures
            w.id == id,
    {
        Worker { id }
    }

    /// Whether any peer queue still shows work, judged from a snapshot of all
    /// queue sizes (the worker's own entry is skipped).
    pub fn work_exists_in_system(&self, sizes: &Vec<usize>) -> (r: bool)
        ensures
            r == peer_work_exists(sizes@, self.id as int),
    {
        let mut j: usize = 0;
        let mut found = false;
        while j < sizes.len()
            invariant
                j <= sizes@.len(),
                found == exists|k: int| 0 <= k < j && k != self.id && sizes@[k] > 0,
            decreases sizes@.len() - j,
        {
            if j != self.id && sizes[j] > 0 {
                found = true;
            }
            j = j + 1;
        }
        found
    }

    /// The exit test of the scheduling loop: exit only when all tasks are
    /// accounted for and no peer queue shows residual work.
    pub fn all_work_complete(&self, counters: &Counters, sizes: &Vec<usize>) -> (r: bool)
        ensures
            r == (counters.completed + counters.stolen >= counters.total
                && !peer_work_exists(sizes@, self.id as int)),
    {
        let accounted = match counters.completed.checked_add(counters.stolen) {
            Some(s) => s >= counters.total,
            None => true,
        };
        accounted && !self.work_exists_in_system(sizes)
    }

    /// Pick the queue to steal from, if any: the designated worker's queue
    /// first, then the remaining peers in index order, each considered only
    /// when its observed size exceeds this worker's own by more than the
    /// imbalance threshold.
    pub fn choose_victim(&self, sizes: &Vec<usize>) -> (r: Option<usize>)
        requires
            self.id == 0 || (self.id as int) < sizes@.len(),
        ensures
            match r {
                Some(v) => first_victim(sizes@, self.id as int) == Some(v as int),
                None => first_victim(sizes@, self.id as int) is None,
            },
    {
        if self.id == 0 {
            return None;
        }
        let our_size = sizes[self.id];
        if sizes.len() > 0 && sizes[0] > our_size + IMBALANCE_THRESHOLD {
            return Some(0);
        }
        let mut j: usize = 1;
        while j < sizes.len()
            invariant
                1 <= j,
                (self.id as int) < sizes@.len(),
                self.id != 0,
                our_size == sizes@[self.id as int],
                sizes@[0] <= sizes@[self.id as int] + IMBALANCE_THRESHOLD,
                scan_victim(sizes@, self.id as int, 1) == scan_victim(sizes@, self.id as int, j as int),
            decreases sizes@.len() - j,
        {
            if j != self.id && sizes[j] > our_size + IMBALANCE_THRESHOLD {
                return Some(j);
            }
            j = j + 1;
        }
        None
    }

    /// Attempt to steal one task, trying the designated worker's queue first
    /// and then the remaining peers in index order.  A successful steal takes
    /// the front of the victim's queue and records the event.
    pub fn steal_task(
        &self,
        queues: &mut Vec<WorkStealingDeque>,
        steal_log: &mut Vec<StealEvent>,
    ) -> (r: Option<Task>)
        requires
            (self.id as int) < old(queues)@.len(),
            forall|i: int| 0 <= i < old(queues)@.len() ==> (#[trigger] old(queues)@[i]).wf(),
        ensures
            final(queues)@.len() == old(queues)@.len(),
            forall|i: int| 0 <= i < final(queues)@.len() ==> (#[trigger] final(queues)@[i]).wf(),
            match first_victim(sizes_of(old(queues)@), self.id as int) {
                None => r is None && final(queues)@ == old(queues)@
                    && final(steal_log)@ == old(steal_log)@,
                Some(v) => {
                    &&& r == Some(old(queues)@[v]@[0])
                    &&& final(queues)@[v]@ == old(queues)@[v]@.drop_first()
                    &&& forall|k: int|
                        0 <= k < old(queues)@.len() && k != v
                            ==> final(queues)@[k] == old(queues)@[k]
                    &&& final(steal_log)@ == old(steal_log)@.push((StealEvent {
                        thief: self.id,
                        victim: v as usize,
                        task_id: old(queues)@[v]@[0].id,
                    }))
                },
            },
    {
        if self.id == 0 {
            return None;
        }
        let sizes = snapshot_sizes(queues);
        match self.choose_victim(&sizes) {
            None => None,
            Some(v) => {
                proof {
                    lemma_first_victim_props(sizes@, self.id as int);
                }
                let stolen = queues[v].steal();
                match stolen {
                    Some(task) => {
                        steal_log.push(StealEvent { thief: self.id, victim: v, task_id: task.id });
                        Some(task)
                    },
                    None => {
                        proof {
                            assert(false);
                        }
                        None
                    },
                }
            },
        }
    }

    /// Execute a task on this worker: mark it running, account its simulated
    /// cost, mark it completed and count it, appending the telemetry record.
    /// A live runner spends the task's cost in wall-clock time at exactly
    /// this point; the cost travels with the recorded task either way.
    pub fn execute_task(
        &self,
        task: &mut Task,
        counters: &mut Counters,
        exec_log: &mut Vec<ExecEvent>,
        queue_depth: usize,
    )
        requires
            old(counters).completed < usize::MAX,
        ensures
            *final(task) == (Task {
                id: old(task).id,
                priority: old(task).priority,
                work_units: old(task).work_units,
                state: TaskState::Completed,
            }),
            *final(counters) == (Counters {
                completed: (old(counters).completed + 1) as usize,
                stolen: old(counters).stolen,
                total: old(counters).total,
            }),
            final(exec_log)@ == old(exec_log)@.push((ExecEvent {
                worker: self.id,
                task: *final(task),
                was_stolen: old(task).state is Stolen,
                queue_depth,
            })),
    {
        let was_stolen = matches!(task.state, TaskState::Stolen);
        task.state = TaskState::Running;
        task.state = TaskState::Completed;
        counters.completed = counters.completed + 1;
        exec_log.push(ExecEvent { worker: self.id, task: *task, was_stolen, queue_depth });
    }

    /// One pass of the scheduling loop: exit if the termination predicate
    /// holds; otherwise a non-designated worker whose local queue is empty
    /// tries to steal and execute; otherwise pop and execute a local task;
    /// otherwise nothing is available and only a brief backoff remains.
    ///
    /// Only the designated worker can ever reach the backoff: for any other
    /// worker an empty local queue and a failed steal imply that every queue
    /// is empty, and then the termination predicate already held.
    #[verifier::rlimit(100)]
    #[verifier::spinoff_prover]
    pub fn step(
        &self,
        queues: &mut Vec<WorkStealingDeque>,
        counters: &mut Counters,
        exec_log: &mut Vec<ExecEvent>,
        steal_log: &mut Vec<StealEvent>,
    ) -> (r: StepOutcome)
        requires
            sys_wf(old(queues)@, *old(counters), old(exec_log)@, old(steal_log)@),
            (self.id as int) < old(queues)@.len(),
        ensures
            sys_wf(final(queues)@, *final(counters), final(exec_log)@, final(steal_log)@),
            final(queues)@.len() == old(queues)@.len(),
            forall|k: int|
                0 <= k < final(queues)@.len()
                    ==> (#[trigger] final(queues)@[k])@.len() <= old(queues)@[k]@.len(),
            system_ids(final(queues)@, final(exec_log)@)
                == system_ids(old(queues)@, old(exec_log)@),
            final(counters).total == old(counters).total,
            final(counters).completed >= old(counters).completed,
            final(counters).stolen >= old(counters).stolen,
            final(counters).stolen - old(counters).stolen
                <= final(counters).completed - old(counters).completed,
            final(exec_log)@.subrange(0, old(exec_log)@.len() as int) == old(exec_log)@,
            final(steal_log)@.subrange(0, old(steal_log)@.len() as int) == old(steal_log)@,
            (r is Exit) == termination_holds(old(queues)@, *old(counters), self.id as int),
            (r is Exit || r is Slept) ==> final(queues)@ == old(queues)@
                && *final(counters) == *old(counters)
                && final(exec_log)@ == old(exec_log)@
                && final(steal_log)@ == old(steal_log)@,
            r is Slept ==> self.id == 0 && old(queues)@[0]@.len() == 0,
            (self.id != 0 && old(queues)@[self.id as int]@.len() == 0
                && !termination_holds(old(queues)@, *old(counters), self.id as int))
                ==> r is ExecutedStolen,
            (r is ExecutedLocal || r is ExecutedStolen) ==> {
                &&& total_queued(final(queues)@) == total_queued(old(queues)@) - 1
                &&& final(counters).completed == old(counters).completed + 1
                &&& final(exec_log)@ == old(exec_log)@.push(final(exec_log)@.last())
                &&& final(exec_log)@.last().worker == self.id
                &&& final(exec_log)@.last().was_stolen == (r is ExecutedStolen)
            },
            r is ExecutedLocal ==> {
                &&& final(counters).stolen == old(counters).stolen
                &&& final(steal_log)@ == old(steal_log)@
                &&& old(queues)@[self.id as int]@.len() > 0
                &&& final(queues)@[self.id as int]@ == old(queues)@[self.id as int]@.drop_last()
                &&& forall|k: int|
                    0 <= k < old(queues)@.len() && k != self.id
                        ==> final(queues)@[k] == old(queues)@[k]
                &&& final(exec_log)@.last().task.id == old(queues)@[self.id as int]@.last().id
            },
            r is ExecutedStolen ==> {
                &&& self.id != 0
                &&& old(queues)@[self.id as int]@.len() == 0
                &&& final(counters).stolen == old(counters).stolen + 1
                &&& first_victim(sizes_of(old(queues)@), self.id as int) matches Some(v)
                    && final(queues)@[v]@ == old(queues)@[v]@.drop_first()
                    && (forall|k: int|
                        0 <= k < old(queues)@.len() && k != v
                            ==> final(queues)@[k] == old(queues)@[k])
                    && final(steal_log)@ == old(steal_log)@.push((StealEvent {
                        thief: self.id,
                        victim: v as usize,
                        task_id: old(queues)@[v]@[0].id,
                    }))
                    && final(exec_log)@.last().task.id == old(queues)@[v]@[0].id
            },
    {
        let ghost qs0 = queues@;
        let ghost c0 = *counters;
        let ghost el0 = exec_log@;
        let ghost sl0 = steal_log@;
        let sizes = snapshot_sizes(queues);
        if self.all_work_complete(counters, &sizes) {
            return StepOutcome::Exit;
        }
        if self.id != 0 && queues[self.id].size() == 0 {
            let stolen = self.steal_task(queues, steal_log);
            match stolen {
                Some(mut t) => {
                    let ghost v = first_victim(sizes_of(qs0), self.id as int)->0;
                    proof {
                        lemma_first_victim_props(sizes_of(qs0), self.id as int);
                        assert(queues@ =~= qs0.update(v, queues@[v]));
                        lemma_total_queued_update(qs0, v, queues@[v]);
                        lemma_total_queued_empty(queues@);
                        lemma_queue_ids_drop_first(qs0[v]@);
                    }
                    t.state = TaskState::Stolen;
                    counters.stolen = counters.stolen + 1;
                    let depth = queues[self.id].size();
                    self.execute_task(&mut t, counters, exec_log, depth);
                    proof {
                        lemma_move_task(qs0, queues@, v, el0, exec_log@.last());
                        assert(exec_log@.subrange(0, el0.len() as int) =~= el0);
                        assert(steal_log@.subrange(0, sl0.len() as int) =~= sl0);
                        assert forall|k: int|
                            0 <= k < queues@.len()
                                implies (#[trigger] queues@[k])@.len() <= qs0[k]@.len() by {}
                        assert forall|i: int, p: int|
                            0 <= i < queues@.len() && 0 <= p < queues@[i]@.len()
                                implies (#[trigger] queues@[i]@[p]).state is Ready by {
                            if i == v {
                                assert(queues@[v]@[p] == qs0[v]@[p + 1]);
                            } else {
                                assert(queues@[i] == qs0[i]);
                            }
                        }
                        assert(forall|i: int| 0 <= i < queues@.len() ==> (#[trigger] queues@[i]).wf());
                        assert(counters.completed == exec_log@.len());
                        assert(counters.stolen == steal_log@.len());
                        assert(counters.total == exec_log@.len() + total_queued(queues@));
                        assert(counters.stolen <= counters.completed);
                        assert(ids_unique(system_ids(queues@, exec_log@)));
                        assert forall|i: int| 0 <= i < steal_log@.len() implies {
                            &&& (#[trigger] steal_log@[i]).thief != 0
                            &&& steal_log@[i].thief < queues@.len()
                            &&& steal_log@[i].victim < queues@.len()
                            &&& steal_log@[i].victim != steal_log@[i].thief
                        } by {
                            if i < sl0.len() {
                                assert(steal_log@[i] == sl0[i]);
                            } else {
                                assert(i == sl0.len());
                                assert(steal_log@[i] == (StealEvent {
                                    thief: self.id,
                                    victim: v as usize,
                                    task_id: qs0[v]@[0].id,
                                }));
                            }
                        }
                        assert(forall|i: int| 0 <= i < exec_log@.len()
                            ==> (#[trigger] exec_log@[i]).worker < queues@.len()
                            && exec_log@[i].task.state is Completed);
                        assert(sys_wf(queues@, *counters, exec_log@, steal_log@));
                    }
                    return StepOutcome::ExecutedStolen;
                },
                None => {},
            }
        }
        let popped = queues[self.id].pop();
        match popped {
            Some(mut t) => {
                proof {
                    assert(queues@ =~= qs0.update(self.id as int, queues@[self.id as int]));
                    lemma_total_queued_update(qs0, self.id as int, queues@[self.id as int]);
                    lemma_total_queued_empty(qs0);
                }
                let depth = queues[self.id].size();
                self.execute_task(&mut t, counters, exec_log, depth);
                proof {
                    assert(queue_ids(qs0[self.id as int]@)
                        == queue_ids(queues@[self.id as int]@).insert(exec_log@.last().task.id));
                    lemma_move_task(qs0, queues@, self.id as int, el0, exec_log@.last());
                    assert(exec_log@.subrange(0, el0.len() as int) =~= el0);
                    assert forall|k: int|
                        0 <= k < queues@.len()
                            implies (#[trigger] queues@[k])@.len() <= qs0[k]@.len() by {}
                    assert forall|i: int, p: int|
                        0 <= i < queues@.len() && 0 <= p < queues@[i]@.len()
                            implies (#[trigger] queues@[i]@[p]).state is Ready by {
                        if i == self.id as int {
                            assert(queues@[i]@[p] == qs0[i]@[p]);
                        } else {
                            assert(queues@[i] == qs0[i]);
                        }
                    }
                }
                StepOutcome::ExecutedLocal
            },
            None => {
                proof {
                    assert(queues@ =~= qs0.update(self.id as int, queues@[self.id as int]));
                    assert(queues@ =~= qs0);
                    if self.id != 0 {
                        lemma_first_victim_props(sizes_of(qs0), self.id as int);
                        assert(qs0[self.id as int]@.len() == 0);
                        assert(first_victim(sizes_of(qs0), self.id as int) is None);
                        assert forall|i: int|
                            0 <= i < qs0.len() implies (#[trigger] qs0[i])@.len() == 0 by {
                            if i != self.id as int {
                                qs0[i].lemma_wf_len();
                                assert(sizes_of(qs0)[i] <= sizes_of(qs0)[self.id as int]
                                    + IMBALANCE_THRESHOLD);
                                assert(sizes_of(qs0)[i] == qs0[i]@.len() as usize);
                            }
                        }
                        lemma_total_queued_empty(qs0);
                        assert(termination_holds(qs0, c0, self.id as int));
                        assert(false);
                    }
                }
                StepOutcome::Slept
            },
        }
    }
}

/// The observed size of every queue, read in index order.
fn snapshot_sizes(queues: &Vec<WorkStealingDeque>) -> (s: Vec<usize>)
    requires
        forall|i: int| 0 <= i < queues@.len() ==> (#[trigger] queues@[i]).wf(),
    ensures
        s@ == sizes_of(queues@),
{
    let mut s: Vec<usize> = Vec::new();
    let mut i: usize = 0;
    while i < queues.len()
        invariant
            i <= queues@.len(),
            s@.len() == i,
            forall|k: int| 0 <= k < i ==> s@[k] == queues@[k]@.len(),
            forall|k: int| 0 <= k < queues@.len() ==> (#[trigger] queues@[k]).wf(),
        decreases queues@.len() - i,
    {
        s.push(queues[i].size());
        i = i + 1;
    }
    proof {
        assert(s@ =~= sizes_of(queues@));
    }
    s
}

} // verus!
