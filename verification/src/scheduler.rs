use vstd::prelude::*;
use vstd::multiset::Multiset;
use crate::task::Task;
use crate::queue::WorkStealingDeque;
use crate::worker::{
    lemma_exec_ids_count, lemma_exec_ids_count_two, lemma_queue_ids_count,
    lemma_queue_ids_count_two, lemma_queued_ids_le, lemma_queued_ids_pair, log_holds_id,
    queue_holds_id,
    Counters, ExecEvent, StealEvent, StepOutcome, Worker, lemma_queued_ids_all_empty,
    lemma_queues_push, lemma_total_queued_empty, peer_work_exists, queue_ids, queued_ids,
    sizes_of, sys_wf, system_ids, termination_holds, total_queued, exec_ids,
};

verus! {

broadcast use vstd::multiset::group_multiset_axioms;

/// Number of workers still inside their scheduling loop.
spec fn active_count(ex: Seq<bool>) -> int
    decreases ex.len(),
{
    if ex.len() == 0 {
        0
    } else {
        active_count(ex.drop_last()) + if ex.last() {
            0int
        } else {
            1int
        }
    }
}

proof fn lemma_active_count_bounds(ex: Seq<bool>)
    ensures
        0 <= active_count(ex) <= ex.len(),
        (active_count(ex) == 0) <==> (forall|j: int| 0 <= j < ex.len() ==> ex[j]),
    decreases ex.len(),
{
    if ex.len() > 0 {
        lemma_active_count_bounds(ex.drop_last());
        if active_count(ex) == 0 {
            assert forall|j: int| 0 <= j < ex.len() implies ex[j] by {
                if j < ex.len() - 1 {
                    assert(ex.drop_last()[j] == ex[j]);
                }
            }
        }
        if forall|j: int| 0 <= j < ex.len() ==> ex[j] {
            assert forall|j: int| 0 <= j < ex.drop_last().len() implies ex.drop_last()[j] by {
                assert(ex.drop_last()[j] == ex[j]);
            }
        }
    }
}

proof fn lemma_active_count_update(ex: Seq<bool>, j: int)
    requires
        0 <= j < ex.len(),
        !ex[j],
    ensures
        active_count(ex.update(j, true)) == active_count(ex) - 1,
    decreases ex.len(),
{
    let upd = ex.update(j, true);
    if j == ex.len() - 1 {
        assert(upd.drop_last() =~= ex.drop_last());
    } else {
        assert(upd.drop_last() =~= ex.drop_last().update(j, true));
        lemma_active_count_update(ex.drop_last(), j);
        assert(upd.last() == ex.last());
    }
}

proof fn lemma_prefix_trans<A>(s2: Seq<A>, s1: Seq<A>, s0: Seq<A>)
    requires
        s1.len() >= s0.len(),
        s2.len() >= s1.len(),
        s1.subrange(0, s0.len() as int) == s0,
        s2.subrange(0, s1.len() as int) == s1,
    ensures
        s2.subrange(0, s0.len() as int) == s0,
{
    assert forall|i: int| 0 <= i < s0.len() implies s2.subrange(0, s0.len() as int)[i] == s0[i] by {
        assert(s2.subrange(0, s1.len() as int)[i] == s1[i]);
        assert(s1.subrange(0, s0.len() as int)[i] == s0[i]);
    }
    assert(s2.subrange(0, s0.len() as int) =~= s0);
}

/// A fully idle round is impossible: once every non-designated worker has
/// exited, every recorded thief's queue has drained, and the designated
/// worker's own queue is empty, the designated worker's termination
/// predicate must already hold.
proof fn lemma_designated_not_stuck(
    qs: Seq<WorkStealingDeque>,
    c: Counters,
    el: Seq<ExecEvent>,
    sl: Seq<StealEvent>,
    ex: Seq<bool>,
)
    requires
        sys_wf(qs, c, el, sl),
        ex.len() == qs.len(),
        ex.len() >= 1,
        !ex[0],
        forall|j: int| 1 <= j < ex.len() ==> ex[j],
        forall|j: int|
            0 <= j < ex.len() && (#[trigger] ex[j]) ==> (forall|k: int|
                0 <= k < qs.len() && k != j ==> (#[trigger] qs[k])@.len() == 0),
        forall|j: int| 0 <= j < ex.len() && (#[trigger] ex[j]) ==> c.completed + c.stolen >= c.total,
        forall|i: int| 0 <= i < sl.len() ==> qs[(#[trigger] sl[i]).thief as int]@.len() == 0,
        qs[0]@.len() == 0,
    ensures
        termination_holds(qs, c, 0),
{
    lemma_total_queued_empty(qs);
    if total_queued(qs) == 0 {
        assert forall|j: int| 0 <= j < sizes_of(qs).len() && j != 0
            implies !(sizes_of(qs)[j] > 0) by {
            assert(qs[j]@.len() == 0);
        }
        assert(!peer_work_exists(sizes_of(qs), 0));
    } else {
        assert(exists|j: int| 0 <= j < qs.len() && (#[trigger] qs[j])@.len() > 0);
        let j = choose|j: int| 0 <= j < qs.len() && (#[trigger] qs[j])@.len() > 0;
        assert(j != 0);
        assert(ex[j]);
        assert(c.completed + c.stolen >= c.total);
        assert(c.total == el.len() + total_queued(qs));
        assert(c.stolen > 0);
        assert(sl.len() > 0);
        let t = sl[0].thief as int;
        assert(t != 0 && t < qs.len());
        assert(qs[t]@.len() == 0);
        assert(t != j);
        assert(ex[t]);
        assert(qs[j]@.len() == 0);
        assert(false);
    }
}

/// The work-stealing scheduler: it owns one queue per worker, the set of
/// workers, the three process-wide counters, and the telemetry logs that a
/// live runner would print as progress lines.
///
/// Lifecycle: construct, submit tasks with `add_task` (pre-run only), then
/// `run` until every worker has independently reached the termination
/// predicate.
pub struct WorkStealingScheduler {
    workers: Vec<Worker>,
    queues: Vec<WorkStealingDeque>,
    counters: Counters,
    exec_log: Vec<ExecEvent>,
    steal_log: Vec<StealEvent>,
}

impl WorkStealingScheduler {
    pub closed spec fn queues_view(&self) -> Seq<WorkStealingDeque> {
        self.queues@
    }

    pub closed spec fn workers_view(&self) -> Seq<Worker> {
        self.workers@
    }

    pub closed spec fn counters_view(&self) -> Counters {
        self.counters
    }

    pub closed spec fn exec_log_view(&self) -> Seq<ExecEvent> {
        self.exec_log@
    }

    pub closed spec fn steal_log_view(&self) -> Seq<StealEvent> {
        self.steal_log@
    }

    pub open spec fn num_workers_view(&self) -> int {
        self.queues_view().len() as int
    }

    /// The tasks currently waiting in worker `i`'s queue.
    pub open spec fn queue_view(&self, i: int) -> Seq<Task> {
        self.queues_view()[i]@
    }

    /// Scheduler well-formedness: the shared state is well formed and worker
    /// `i` owns queue `i`.
    pub open spec fn wf(&self) -> bool {
        &&& sys_wf(
            self.queues_view(),
            self.counters_view(),
            self.exec_log_view(),
            self.steal_log_view(),
        )
        &&& self.workers_view().len() == self.queues_view().len()
        &&& forall|i: int|
            0 <= i < self.workers_view().len() ==> (#[trigger] self.workers_view()[i]).id == i
    }

    /// Allocate `num_workers` empty queues and wire one worker to each.
    pub fn new(num_workers: usize) -> (s: Self)
        ensures
            s.wf(),
            s.num_workers_view() == num_workers,
            s.counters_view() == (Counters { completed: 0, stolen: 0, total: 0 }),
            s.exec_log_view() == Seq::<ExecEvent>::empty(),
            s.steal_log_view() == Seq::<StealEvent>::empty(),
            forall|i: int| 0 <= i < num_workers ==> s.queue_view(i) == Seq::<Task>::empty(),
    {
        let mut queues: Vec<WorkStealingDeque> = Vec::new();
        let mut workers: Vec<Worker> = Vec::new();
        let mut i: usize = 0;
        while i < num_workers
            invariant
                i <= num_workers,
                queues@.len() == i,
                workers@.len() == i,
                forall|k: int|
                    0 <= k < i ==> (#[trigger] queues@[k]).wf() && queues@[k]@.len() == 0,
                forall|k: int| 0 <= k < i ==> (#[trigger] workers@[k]).id == k,
                total_queued(queues@) == 0,
                queued_ids(queues@) == Multiset::<usize>::empty(),
            decreases num_workers - i,
        {
            let ghost prev = queues@;
            queues.push(WorkStealingDeque::new());
            workers.push(Worker::new(i));
            proof {
                lemma_queues_push(prev, queues@.last());
                assert(queue_ids(queues@.last()@) == Multiset::<usize>::empty());
                assert(queued_ids(queues@) =~= Multiset::<usize>::empty());
            }
            i = i + 1;
        }
        WorkStealingScheduler {
            workers,
            queues,
            counters: Counters { completed: 0, stolen: 0, total: 0 },
            exec_log: Vec::new(),
            steal_log: Vec::new(),
        }
    }

    /// Pre-run submission: push a fresh `Ready` task into the named worker's
    /// queue and count it in `total`.  Not meant to run concurrently with
    /// `run`; task ids are never reused, so the submitted id must be new to
    /// the system.
    pub fn add_task(&mut self, worker_id: usize, task: Task)
        requires
            old(self).wf(),
            (worker_id as int) < old(self).num_workers_view(),
            task.state is Ready,
            task.work_units > 0,
            old(self).counters_view().total < usize::MAX,
            !system_ids(old(self).queues_view(), old(self).exec_log_view()).contains(task.id),
        ensures
            final(self).wf(),
            final(self).num_workers_view() == old(self).num_workers_view(),
            final(self).counters_view() == (Counters {
                total: (old(self).counters_view().total + 1) as usize,
                completed: old(self).counters_view().completed,
                stolen: old(self).counters_view().stolen,
            }),
            final(self).queue_view(worker_id as int)
                == old(self).queue_view(worker_id as int).push(task),
            forall|k: int|
                0 <= k < old(self).num_workers_view() && k != worker_id
                    ==> final(self).queue_view(k) == old(self).queue_view(k),
            final(self).exec_log_view() == old(self).exec_log_view(),
            final(self).steal_log_view() == old(self).steal_log_view(),
            final(self).workers_view() == old(self).workers_view(),
            system_ids(final(self).queues_view(), final(self).exec_log_view())
                == system_ids(old(self).queues_view(), old(self).exec_log_view()).insert(task.id),
    {
        let ghost qs0 = self.queues@;
        self.counters.total = self.counters.total + 1;
        self.queues[worker_id].push(task);
        proof {
            let w = worker_id as int;
            assert(self.queues@ =~= qs0.update(w, self.queues@[w]));
            crate::worker::lemma_total_queued_update(qs0, w, self.queues@[w]);
            crate::worker::lemma_queued_ids_update(qs0, w, self.queues@[w]);
            assert(self.queues@[w]@.drop_last() =~= qs0[w]@);
            assert(queue_ids(self.queues@[w]@) == queue_ids(qs0[w]@).insert(task.id));
            assert forall|y: usize|
                system_ids(self.queues@, self.exec_log@).count(y)
                    == system_ids(qs0, self.exec_log@).insert(task.id).count(y) by {
                assert(queued_ids(qs0.update(w, self.queues@[w])).add(queue_ids(qs0[w]@)).count(y)
                    == queued_ids(qs0).add(queue_ids(self.queues@[w]@)).count(y));
            }
            assert(system_ids(self.queues@, self.exec_log@)
                =~= system_ids(qs0, self.exec_log@).insert(task.id));
            assert forall|i: int, p: int|
                0 <= i < self.queues@.len() && 0 <= p < self.queues@[i]@.len()
                    implies (#[trigger] self.queues@[i]@[p]).state is Ready by {
                if i == w {
                    if p < qs0[w]@.len() {
                        assert(self.queues@[w]@[p] == qs0[w]@[p]);
                    } else {
                        assert(self.queues@[w]@[p] == task);
                    }
                } else {
                    assert(self.queues@[i] == qs0[i]);
                }
            }
        }
    }

    /// Run the scheduler to completion: every worker repeatedly takes one
    /// pass of its scheduling loop until each has independently observed the
    /// termination predicate.  A live runner gives each worker its own OS
    /// thread; this runner interleaves the same passes round-robin, which is
    /// one admissible schedule of the same protocol.
    ///
    /// On return every queue is drained and `completed == total`: each
    /// submitted task was executed exactly once, as the execution log
    /// records.  The precondition on recorded thieves (their queues must
    /// already be empty) holds trivially before a first run, where nothing
    /// has been stolen, and after any completed run, where every queue is
    /// empty; it is what guarantees that residual work is always visible to
    /// some worker that is still allowed to take it.
    #[verifier::rlimit(100)]
    pub fn run(&mut self)
        requires
            old(self).wf(),
            forall|i: int|
                0 <= i < old(self).steal_log_view().len()
                    ==> old(self).queue_view(
                    (#[trigger] old(self).steal_log_view()[i]).thief as int,
                ).len() == 0,
        ensures
            final(self).wf(),
            final(self).num_workers_view() == old(self).num_workers_view(),
            final(self).workers_view() == old(self).workers_view(),
            forall|k: int|
                0 <= k < final(self).num_workers_view()
                    ==> final(self).queue_view(k).len() == 0,
            final(self).counters_view().total == old(self).counters_view().total,
            final(self).counters_view().completed == final(self).counters_view().total,
            exec_ids(final(self).exec_log_view())
                == system_ids(old(self).queues_view(), old(self).exec_log_view()),
            final(self).exec_log_view().subrange(0, old(self).exec_log_view().len() as int)
                == old(self).exec_log_view(),
            final(self).exec_log_view().len() == old(self).exec_log_view().len()
                + total_queued(old(self).queues_view()),
            final(self).steal_log_view().subrange(0, old(self).steal_log_view().len() as int)
                == old(self).steal_log_view(),
            final(self).counters_view().stolen >= old(self).counters_view().stolen,
            final(self).counters_view().stolen - old(self).counters_view().stolen
                <= final(self).counters_view().completed - old(self).counters_view().completed,
    {
        let n = self.queues.len();
        let ghost qs_in = self.queues@;
        let ghost c_in = self.counters;
        let ghost el_in = self.exec_log@;
        let ghost sl_in = self.steal_log@;
        let mut exited: Vec<bool> = Vec::new();
        let mut i: usize = 0;
        while i < n
            invariant
                i <= n,
                exited@.len() == i,
                active_count(exited@) == i,
                forall|k: int| 0 <= k < i ==> !(#[trigger] exited@[k]),
            decreases n - i,
        {
            let ghost prev = exited@;
            exited.push(false);
            proof {
                assert(exited@.drop_last() =~= prev);
            }
            i = i + 1;
        }
        let mut remaining: usize = n;
        proof {
            assert(self.exec_log@.subrange(0, el_in.len() as int) =~= el_in);
            assert(self.steal_log@.subrange(0, sl_in.len() as int) =~= sl_in);
        }
        while remaining > 0
            invariant
                n == qs_in.len(),
                self.queues@.len() == n,
                self.workers@.len() == n,
                forall|i2: int| 0 <= i2 < n ==> (#[trigger] self.workers@[i2]).id == i2,
                sys_wf(self.queues@, self.counters, self.exec_log@, self.steal_log@),
                exited@.len() == n,
                remaining as int == active_count(exited@),
                forall|j: int|
                    0 <= j < n && (#[trigger] exited@[j]) ==> (forall|k: int|
                        0 <= k < n && k != j ==> (#[trigger] self.queues@[k])@.len() == 0),
                forall|j: int|
                    0 <= j < n && (#[trigger] exited@[j])
                        ==> self.counters.completed + self.counters.stolen >= self.counters.total,
                forall|idx: int|
                    0 <= idx < self.steal_log@.len()
                        ==> self.queues@[(#[trigger] self.steal_log@[idx]).thief as int]@.len()
                        == 0,
                self.counters.total == c_in.total,
                self.counters.completed >= c_in.completed,
                self.counters.stolen >= c_in.stolen,
                self.counters.stolen - c_in.stolen <= self.counters.completed - c_in.completed,
                system_ids(self.queues@, self.exec_log@) == system_ids(qs_in, el_in),
                self.exec_log@.len() >= el_in.len(),
                self.steal_log@.len() >= sl_in.len(),
                self.exec_log@.subrange(0, el_in.len() as int) == el_in,
                self.steal_log@.subrange(0, sl_in.len() as int) == sl_in,
            decreases total_queued(self.queues@), remaining,
        {
            let ghost tq0 = total_queued(self.queues@);
            let ghost rem0 = remaining as int;
            let ghost ex0 = exited@;
            let ghost qs0 = self.queues@;
            let ghost c0 = self.counters;
            let ghost el0 = self.exec_log@;
            let ghost sl0 = self.steal_log@;
            proof {
                lemma_total_queued_empty(self.queues@);
            }
            let mut wid: usize = 0;
            while wid < n
                invariant
                    n == qs_in.len(),
                    wid <= n,
                    self.queues@.len() == n,
                    self.workers@.len() == n,
                    forall|i2: int| 0 <= i2 < n ==> (#[trigger] self.workers@[i2]).id == i2,
                    sys_wf(self.queues@, self.counters, self.exec_log@, self.steal_log@),
                    exited@.len() == n,
                    remaining as int == active_count(exited@),
                    forall|j: int|
                        0 <= j < n && (#[trigger] exited@[j]) ==> (forall|k: int|
                            0 <= k < n && k != j ==> (#[trigger] self.queues@[k])@.len() == 0),
                    forall|j: int|
                        0 <= j < n && (#[trigger] exited@[j])
                            ==> self.counters.completed + self.counters.stolen
                            >= self.counters.total,
                    forall|idx: int|
                        0 <= idx < self.steal_log@.len()
                            ==> self.queues@[(#[trigger] self.steal_log@[idx]).thief as int]@.len()
                            == 0,
                    self.counters.total == c_in.total,
                    self.counters.completed >= c_in.completed,
                    self.counters.stolen >= c_in.stolen,
                    self.counters.stolen - c_in.stolen <= self.counters.completed - c_in.completed,
                    system_ids(self.queues@, self.exec_log@) == system_ids(qs_in, el_in),
                    self.exec_log@.len() >= el_in.len(),
                    self.steal_log@.len() >= sl_in.len(),
                    self.exec_log@.subrange(0, el_in.len() as int) == el_in,
                    self.steal_log@.subrange(0, sl_in.len() as int) == sl_in,
                    total_queued(self.queues@) <= tq0,
                    remaining as int <= rem0,
                    (total_queued(self.queues@) == tq0 && remaining as int == rem0) ==> {
                        &&& self.queues@ == qs0
                        &&& self.counters == c0
                        &&& exited@ == ex0
                        &&& self.exec_log@ == el0
                        &&& self.steal_log@ == sl0
                        &&& forall|j: int|
                            0 <= j < wid && !(#[trigger] ex0[j]) ==> j == 0 && qs0[0]@.len() == 0
                                && !termination_holds(qs0, c0, 0)
                    },
                decreases n - wid,
            {
                if !exited[wid] {
                    let w = self.workers[wid];
                    let ghost qs_pre = self.queues@;
                    let ghost c_pre = self.counters;
                    let ghost el_pre = self.exec_log@;
                    let ghost sl_pre = self.steal_log@;
                    let outcome = w.step(
                        &mut self.queues,
                        &mut self.counters,
                        &mut self.exec_log,
                        &mut self.steal_log,
                    );
                    proof {
                        lemma_prefix_trans(self.exec_log@, el_pre, el_in);
                        lemma_prefix_trans(self.steal_log@, sl_pre, sl_in);
                        lemma_total_queued_empty(self.queues@);
                        // previously exited workers keep empty peers: queues only shrink
                        assert forall|j: int|
                            0 <= j < n && (#[trigger] exited@[j]) implies (forall|k: int|
                                0 <= k < n && k != j
                                    ==> (#[trigger] self.queues@[k])@.len() == 0) by {
                            assert forall|k: int|
                                0 <= k < n && k != j
                                    implies (#[trigger] self.queues@[k])@.len() == 0 by {
                                assert(qs_pre[k]@.len() == 0);
                                assert(self.queues@[k]@.len() <= qs_pre[k]@.len());
                            }
                        }
                        // recorded thieves' queues stay empty for the same reason
                        assert forall|idx: int|
                            0 <= idx < self.steal_log@.len()
                                implies self.queues@[(#[trigger] self.steal_log@[idx]).thief
                                as int]@.len() == 0 by {
                            if idx < sl_pre.len() {
                                assert(self.steal_log@[idx] == sl_pre[idx]);
                                assert(qs_pre[sl_pre[idx].thief as int]@.len() == 0);
                                assert(self.queues@[sl_pre[idx].thief as int]@.len()
                                    <= qs_pre[sl_pre[idx].thief as int]@.len());
                            } else {
                                // a new steal event: the thief had an empty local queue,
                                // and the victim it shrank is someone else's queue
                                assert(outcome is ExecutedStolen);
                                crate::worker::lemma_first_victim_props(
                                    sizes_of(qs_pre),
                                    wid as int,
                                );
                                assert(self.steal_log@[idx].thief == wid);
                                assert(qs_pre[wid as int]@.len() == 0);
                                assert(self.queues@[wid as int]@.len()
                                    <= qs_pre[wid as int]@.len());
                            }
                        }
                    }
                    if matches!(outcome, StepOutcome::Exit) {
                        proof {
                            lemma_active_count_update(exited@, wid as int);
                            lemma_active_count_bounds(exited@.update(wid as int, true));
                            // the termination predicate names this worker's peers empty
                            assert forall|k: int|
                                0 <= k < n && k != wid
                                    implies (#[trigger] self.queues@[k])@.len() == 0 by {
                                self.queues@[k].lemma_wf_len();
                                assert(!(sizes_of(qs_pre)[k] > 0));
                                assert(sizes_of(qs_pre)[k] == qs_pre[k]@.len() as usize);
                            }
                        }
                        exited.set(wid, true);
                        remaining = remaining - 1;
                    }
                    proof {
                        // round-progress bookkeeping for the equality case
                        if total_queued(self.queues@) == tq0 && remaining as int == rem0 {
                            assert(outcome is Slept);
                            assert(qs_pre == qs0 && c_pre == c0);
                            assert(self.queues@ == qs0);
                            assert(self.counters == c0);
                            assert(self.exec_log@ == el0);
                            assert(self.steal_log@ == sl0);
                            assert(exited@ =~= ex0);
                            assert(wid == 0);
                            assert(qs0[0]@.len() == 0);
                            assert(!termination_holds(qs0, c0, 0));
                        }
                    }
                }
                wid = wid + 1;
            }
            proof {
                lemma_total_queued_empty(self.queues@);
                if total_queued(self.queues@) == tq0 && remaining as int == rem0 {
                    lemma_active_count_bounds(ex0);
                    assert(active_count(ex0) == rem0);
                    assert(rem0 > 0);
                    assert(!(forall|j: int| 0 <= j < ex0.len() ==> ex0[j]));
                    let a = choose|j: int| 0 <= j < ex0.len() && !ex0[j];
                    assert(a == 0);
                    assert(!ex0[0]);
                    assert forall|j: int| 1 <= j < ex0.len() implies ex0[j] by {
                        if !ex0[j] {
                            assert(j == 0);
                        }
                    }
                    lemma_designated_not_stuck(qs0, c0, el0, sl0, ex0);
                    assert(false);
                }
            }
        }
        proof {
            lemma_active_count_bounds(exited@);
            if n >= 2 {
                assert(exited@[0]);
                assert(exited@[1]);
                assert forall|k: int|
                    0 <= k < n implies (#[trigger] self.queues@[k])@.len() == 0 by {
                    if k != 0 {
                        assert(self.queues@[k]@.len() == 0);
                    } else {
                        assert(self.queues@[0]@.len() == 0);
                    }
                }
            } else if n == 1 {
                assert(exited@[0]);
                assert(self.counters.completed + self.counters.stolen >= self.counters.total);
                if self.steal_log@.len() > 0 {
                    assert(self.steal_log@[0].thief != 0 && self.steal_log@[0].thief < 1);
                    assert(false);
                }
                assert(self.counters.stolen == 0);
                lemma_total_queued_empty(self.queues@);
            }
            lemma_total_queued_empty(self.queues@);
            assert(total_queued(self.queues@) == 0);
            lemma_queued_ids_all_empty(self.queues@);
            assert forall|y: usize|
                exec_ids(self.exec_log@).count(y) == system_ids(qs_in, el_in).count(y) by {
                assert(system_ids(self.queues@, self.exec_log@).count(y)
                    == system_ids(qs_in, el_in).count(y));
            }
            assert(exec_ids(self.exec_log@) =~= system_ids(qs_in, el_in));
        }
    }

    /// How many workers the scheduler owns.
    pub fn num_workers(&self) -> (r: usize)
        ensures
            r == self.num_workers_view(),
    {
        self.queues.len()
    }

    /// Tasks executed so far.
    pub fn completed(&self) -> (r: usize)
        ensures
            r == self.counters_view().completed,
    {
        self.counters.completed
    }

    /// Successful steals so far.
    pub fn stolen(&self) -> (r: usize)
        ensures
            r == self.counters_view().stolen,
    {
        self.counters.stolen
    }

    /// Tasks submitted in total.
    pub fn total(&self) -> (r: usize)
        ensures
            r == self.counters_view().total,
    {
        self.counters.total
    }

    /// The observed size of one worker's queue.
    pub fn queue_size(&self, worker_id: usize) -> (r: usize)
        requires
            self.wf(),
            (worker_id as int) < self.num_workers_view(),
        ensures
            r == self.queue_view(worker_id as int).len(),
    {
        self.queues[worker_id].size()
    }

    /// The execution telemetry, one record per executed task.
    pub fn exec_log(&self) -> (r: &Vec<ExecEvent>)
        ensures
            r@ == self.exec_log_view(),
    {
        &self.exec_log
    }

    /// The steal telemetry, one record per successful steal.
    pub fn steal_log(&self) -> (r: &Vec<StealEvent>)
        ensures
            r@ == self.steal_log_view(),
    {
        &self.steal_log
    }
}

/// Mutual exclusion on tasks: under the scheduler invariant a task id
/// occupies at most one place in the whole system at any instant.  It sits
/// in at most one queue, at most once there; it is never both waiting in a
/// queue and present in the execution log; and the execution log holds it
/// at most once, so no task is ever executed twice.
pub proof fn lemma_task_exclusive(s: &WorkStealingScheduler, x: usize)
    requires
        s.wf(),
    ensures
        forall|j: int, k: int|
            0 <= j < s.num_workers_view() && 0 <= k < s.num_workers_view() && j != k
                ==> !(queue_holds_id(#[trigger] s.queue_view(j), x)
                    && queue_holds_id(#[trigger] s.queue_view(k), x)),
        forall|j: int|
            0 <= j < s.num_workers_view() && queue_holds_id(#[trigger] s.queue_view(j), x)
                ==> !log_holds_id(s.exec_log_view(), x),
        forall|j: int, p: int, r: int|
            0 <= j < s.num_workers_view() && 0 <= p < r < s.queue_view(j).len()
                ==> !((#[trigger] s.queue_view(j)[p]).id == x
                    && (#[trigger] s.queue_view(j)[r]).id == x),
        forall|p: int, r: int|
            0 <= p < r < s.exec_log_view().len()
                ==> !((#[trigger] s.exec_log_view()[p]).task.id == x
                    && (#[trigger] s.exec_log_view()[r]).task.id == x),
{
    let qs = s.queues_view();
    let el = s.exec_log_view();
    assert(system_ids(qs, el).count(x) <= 1);
    assert forall|j: int, k: int|
        0 <= j < qs.len() && 0 <= k < qs.len() && j != k
            implies !(queue_holds_id(#[trigger] s.queue_view(j), x)
                && queue_holds_id(#[trigger] s.queue_view(k), x)) by {
        if queue_holds_id(qs[j]@, x) && queue_holds_id(qs[k]@, x) {
            let pj = choose|p: int| 0 <= p < qs[j]@.len() && qs[j]@[p].id == x;
            let pk = choose|p: int| 0 <= p < qs[k]@.len() && qs[k]@[p].id == x;
            lemma_queue_ids_count(qs[j]@, pj);
            lemma_queue_ids_count(qs[k]@, pk);
            if j < k {
                lemma_queued_ids_pair(qs, j, k, x);
            } else {
                lemma_queued_ids_pair(qs, k, j, x);
            }
            assert(false);
        }
    }
    assert forall|j: int|
        0 <= j < qs.len() && queue_holds_id(#[trigger] s.queue_view(j), x)
            implies !log_holds_id(el, x) by {
        if log_holds_id(el, x) {
            let pj = choose|p: int| 0 <= p < qs[j]@.len() && qs[j]@[p].id == x;
            let pe = choose|p: int| 0 <= p < el.len() && el[p].task.id == x;
            lemma_queue_ids_count(qs[j]@, pj);
            lemma_queued_ids_le(qs, j, x);
            lemma_exec_ids_count(el, pe);
            assert(false);
        }
    }
    assert forall|j: int, p: int, r: int|
        0 <= j < qs.len() && 0 <= p < r < s.queue_view(j).len()
            implies !((#[trigger] s.queue_view(j)[p]).id == x
                && (#[trigger] s.queue_view(j)[r]).id == x) by {
        if s.queue_view(j)[p].id == x && s.queue_view(j)[r].id == x {
            lemma_queue_ids_count_two(qs[j]@, p, r);
            lemma_queued_ids_le(qs, j, x);
            assert(false);
        }
    }
    assert forall|p: int, r: int|
        0 <= p < r < el.len()
            implies !((#[trigger] el[p]).task.id == x && (#[trigger] el[r]).task.id == x) by {
        if el[p].task.id == x && el[r].task.id == x {
            lemma_exec_ids_count_two(el, p, r);
            assert(false);
        }
    }
}

/// Idle termination: with nothing submitted every worker's termination
/// predicate holds from the start, so `run` exits each worker on its first
/// pass and, by its contract, executes nothing and records nothing.
pub proof fn lemma_idle_termination(s: &WorkStealingScheduler)
    requires
        s.wf(),
        s.counters_view().total == 0,
    ensures
        forall|wid: int|
            0 <= wid < s.num_workers_view()
                ==> termination_holds(s.queues_view(), s.counters_view(), wid),
        s.counters_view().completed == 0,
        total_queued(s.queues_view()) == 0,
        forall|k: int| 0 <= k < s.num_workers_view() ==> s.queue_view(k).len() == 0,
{
    lemma_total_queued_empty(s.queues_view());
    assert(total_queued(s.queues_view()) == 0);
    assert forall|wid: int|
        0 <= wid < s.num_workers_view()
            implies termination_holds(s.queues_view(), s.counters_view(), wid) by {
        assert forall|j: int|
            0 <= j < sizes_of(s.queues_view()).len() && j != wid
                implies !(sizes_of(s.queues_view())[j] > 0) by {
            assert(s.queues_view()[j]@.len() == 0);
        }
        assert(!peer_work_exists(sizes_of(s.queues_view()), wid));
    }
}

/// Idempotent shutdown: on a drained scheduler the termination predicate
/// already holds for every worker and no work is left anywhere, so by
/// `run`'s contract another run returns with its logs and counters grown by
/// exactly zero.
pub proof fn lemma_idempotent_shutdown(s: &WorkStealingScheduler)
    requires
        s.wf(),
        forall|k: int| 0 <= k < s.num_workers_view() ==> s.queue_view(k).len() == 0,
    ensures
        s.counters_view().completed == s.counters_view().total,
        total_queued(s.queues_view()) == 0,
        forall|wid: int|
            0 <= wid < s.num_workers_view()
                ==> termination_holds(s.queues_view(), s.counters_view(), wid),
{
    assert forall|k: int|
        0 <= k < s.queues_view().len() implies (#[trigger] s.queues_view()[k])@.len() == 0 by {
        assert(s.queue_view(k).len() == 0);
    }
    lemma_total_queued_empty(s.queues_view());
    assert(total_queued(s.queues_view()) == 0);
    assert forall|wid: int|
        0 <= wid < s.num_workers_view()
            implies termination_holds(s.queues_view(), s.counters_view(), wid) by {
        assert forall|j: int|
            0 <= j < sizes_of(s.queues_view()).len() && j != wid
                implies !(sizes_of(s.queues_view())[j] > 0) by {
            assert(s.queues_view()[j]@.len() == 0);
        }
        assert(!peer_work_exists(sizes_of(s.queues_view()), wid));
    }
}

} // verus!
