use vstd::prelude::*;

verus! {

/// A double-ended job queue backed by a growable vector.
pub struct Deque<T> {
    items: Vec<T>,
}

impl<T> View for Deque<T> {
    type V = Seq<T>;

    closed spec fn view(&self) -> Seq<T> {
        self.items@
    }
}

impl<T> Deque<T> {
    pub fn new() -> (q: Self)
        ensures
            q@ == Seq::<T>::empty(),
    {
        Deque { items: Vec::new() }
    }

    pub fn push_front(&mut self, item: T)
        ensures
            final(self)@ == old(self)@.insert(0, item),
    {
        self.items.insert(0, item);
    }

    pub fn pop_front(&mut self) -> (r: Option<T>)
        ensures
            old(self)@.len() > 0 ==> r == Some(old(self)@[0])
                && final(self)@ == old(self)@.drop_first(),
            old(self)@.len() == 0 ==> r is None && *final(self) == *old(self),
    {
        if self.items.len() == 0 {
            None
        } else {
            let item = self.items.remove(0);
            proof {
                assert(self.items@ =~= old(self).items@.drop_first());
            }
            Some(item)
        }
    }

    pub fn push_back(&mut self, item: T)
        ensures
            final(self)@ == old(self)@.push(item),
    {
        self.items.push(item);
    }

    pub fn pop_back(&mut self) -> (r: Option<T>)
        ensures
            old(self)@.len() > 0 ==> r == Some(old(self)@.last())
                && final(self)@ == old(self)@.drop_last(),
            old(self)@.len() == 0 ==> r is None && *final(self) == *old(self),
    {
        if self.items.len() == 0 {
            None
        } else {
            self.items.pop()
        }
    }

    pub fn is_empty(&self) -> (r: bool)
        ensures
            r == (self@.len() == 0),
    {
        self.items.len() == 0
    }
}

/// One executor's slot in the pool: a deque of queued jobs.  The owner
/// enqueues and dispatches at the back (LIFO, preserving locality); a
/// stealing peer takes from the front (FIFO, the oldest job).
pub struct Worker<T> {
    deque: Deque<T>,
}

impl<T> View for Worker<T> {
    type V = Seq<T>;

    closed spec fn view(&self) -> Seq<T> {
        self.deque@
    }
}

impl<T> Worker<T> {
    pub fn new() -> (w: Self)
        ensures
            w@ == Seq::<T>::empty(),
    {
        Worker { deque: Deque::new() }
    }

    /// New jobs join at the back.
    pub fn push(&mut self, item: T)
        ensures
            final(self)@ == old(self)@.push(item),
    {
        self.deque.push_back(item);
    }

    /// The owner dispatches from the back: the most recently queued job
    /// runs first.
    pub fn pop(&mut self) -> (r: Option<T>)
        ensures
            old(self)@.len() > 0 ==> r == Some(old(self)@.last())
                && final(self)@ == old(self)@.drop_last(),
            old(self)@.len() == 0 ==> r is None && *final(self) == *old(self),
    {
        self.deque.pop_back()
    }

    /// A steal takes the oldest job from the front of another worker's
    /// deque; the stealer's own queue is untouched.
    pub fn steal(&mut self, other: &mut Worker<T>) -> (r: Option<T>)
        ensures
            *final(self) == *old(self),
            old(other)@.len() > 0 ==> r == Some(old(other)@[0])
                && final(other)@ == old(other)@.drop_first(),
            old(other)@.len() == 0 ==> r is None && *final(other) == *old(other),
    {
        other.deque.pop_front()
    }
}

/// Record of one job dispatch during an `execute` round: who ran it and
/// whether it was stolen from a peer.
#[derive(Debug, Clone, PartialEq, Eq)]
pub struct JobRun<T> {
    pub worker: usize,
    pub job: T,
    pub stolen: bool,
}

/// Jobs dispatched in the local phase of an execute round, in worker order:
/// every worker with queued work runs the job at the back of its own queue.
pub open spec fn local_runs<T>(ws: Seq<Seq<T>>, i: int) -> Seq<JobRun<T>>
    decreases ws.len() - i,
{
    if i < 0 || i >= ws.len() {
        Seq::empty()
    } else if ws[i].len() > 0 {
        seq![JobRun { worker: i as usize, job: ws[i].last(), stolen: false }]
            + local_runs(ws, i + 1)
    } else {
        local_runs(ws, i + 1)
    }
}

/// Queues as the local phase leaves them: each loaded queue loses its back.
pub open spec fn drained<T>(ws: Seq<Seq<T>>) -> Seq<Seq<T>> {
    Seq::new(ws.len(), |i: int| if ws[i].len() > 0 { ws[i].drop_last() } else { ws[i] })
}

/// The first worker other than `i`, scanning from `k` upward, whose queue
/// still holds a job.
pub open spec fn steal_source<T>(ds: Seq<Seq<T>>, i: int, k: int) -> Option<int>
    decreases ds.len() - k,
{
    if k >= ds.len() {
        None
    } else if k != i && ds[k].len() > 0 {
        Some(k)
    } else {
        steal_source(ds, i, k + 1)
    }
}

/// The steal phase of an execute round: each worker that was idle at
/// dispatch time takes the oldest (front) job of the first loaded peer, in
/// worker order.  Yields the final queues and the dispatch records.
pub open spec fn steal_phase<T>(ds: Seq<Seq<T>>, orig: Seq<Seq<T>>, i: int) -> (
    Seq<Seq<T>>,
    Seq<JobRun<T>>,
)
    decreases ds.len() - i,
{
    if i < 0 || i >= ds.len() {
        (ds, Seq::empty())
    } else if 0 <= i < orig.len() && orig[i].len() == 0 {
        match steal_source(ds, i, 0) {
            Some(j) => {
                if 0 <= j < ds.len() {
                    let ev = JobRun { worker: i as usize, job: ds[j][0], stolen: true };
                    let rec = steal_phase(ds.update(j, ds[j].drop_first()), orig, i + 1);
                    (rec.0, seq![ev] + rec.1)
                } else {
                    steal_phase(ds, orig, i + 1)
                }
            },
            None => steal_phase(ds, orig, i + 1),
        }
    } else {
        steal_phase(ds, orig, i + 1)
    }
}

/// A fixed set of workers sharing one round-based dispatcher.
pub struct ThreadPool<T> {
    workers: Vec<Worker<T>>,
}

impl<T> ThreadPool<T> {
    pub closed spec fn workers_view(&self) -> Seq<Worker<T>> {
        self.workers@
    }

    /// The jobs currently queued, per worker.
    pub open spec fn jobs_view(&self) -> Seq<Seq<T>> {
        Seq::new(self.workers_view().len(), |i: int| self.workers_view()[i]@)
    }

    pub fn new(num_threads: usize) -> (p: Self)
        ensures
            p.jobs_view().len() == num_threads,
            forall|i: int| 0 <= i < num_threads ==> (#[trigger] p.jobs_view()[i]).len() == 0,
    {
        let mut workers: Vec<Worker<T>> = Vec::with_capacity(num_threads);
        let mut i: usize = 0;
        while i < num_threads
            invariant
                i <= num_threads,
                workers@.len() == i,
                forall|k: int| 0 <= k < i ==> (#[trigger] workers@[k])@.len() == 0,
            decreases num_threads - i,
        {
            workers.push(Worker::new());
            i = i + 1;
        }
        let p = ThreadPool { workers };
        proof {
            assert forall|k: int|
                0 <= k < num_threads implies (#[trigger] p.jobs_view()[k]).len() == 0 by {
                assert(p.jobs_view()[k] == p.workers_view()[k]@);
            }
        }
        p
    }

    /// Queue a job.  The slot index comes out of a fixed division, which
    /// lands every job on worker 0 whenever the pool has at least two
    /// workers; fewer than two would send the index out of bounds.
    pub fn spawn(&mut self, job: T)
        requires
            old(self).jobs_view().len() >= 2,
        ensures
            final(self).jobs_view().len() == old(self).jobs_view().len(),
            final(self).jobs_view()[0] == old(self).jobs_view()[0].push(job),
            forall|k: int|
                0 < k < old(self).jobs_view().len()
                    ==> final(self).jobs_view()[k] == old(self).jobs_view()[k],
    {
        let thread_index: usize = 1 / self.workers.len();
        proof {
            vstd::arithmetic::div_mod::lemma_basic_div(1, self.workers@.len() as int);
            assert(thread_index == 0);
        }
        self.workers[thread_index].push(job);
        proof {
            assert(self.jobs_view()[0] == self.workers@[0]@);
            assert(old(self).jobs_view()[0] == old(self).workers@[0]@);
            assert forall|k: int|
                0 < k < old(self).jobs_view().len()
                    implies self.jobs_view()[k] == old(self).jobs_view()[k] by {
                assert(self.workers@[k] == old(self).workers@[k]);
            }
        }
    }

    /// One dispatch round: first every worker runs the job at the back of
    /// its own queue; then every worker found idle steals the oldest job
    /// from the front of the first loaded peer's queue, in worker order.
    /// The returned records say which worker ran which job and whether it
    /// was stolen.
    pub fn execute(&mut self) -> (runs: Vec<JobRun<T>>)
        ensures
            final(self).jobs_view().len() == old(self).jobs_view().len(),
            final(self).jobs_view()
                == steal_phase(drained(old(self).jobs_view()), old(self).jobs_view(), 0).0,
            runs@ == local_runs(old(self).jobs_view(), 0)
                + steal_phase(drained(old(self).jobs_view()), old(self).jobs_view(), 0).1,
    {
        let n = self.workers.len();
        let ghost orig = self.jobs_view();
        let mut runs: Vec<JobRun<T>> = Vec::new();
        let mut idle: Vec<bool> = Vec::new();
        let mut i: usize = 0;
        while i < n
            invariant
                i <= n,
                self.workers@.len() == n,
                n == orig.len(),
                idle@.len() == i,
                forall|k: int| 0 <= k < i ==> (#[trigger] idle@[k]) == (orig[k].len() == 0),
                forall|k: int|
                    0 <= k < i ==> (#[trigger] self.jobs_view()[k]) == drained(orig)[k],
                forall|k: int| i <= k < n ==> (#[trigger] self.jobs_view()[k]) == orig[k],
                runs@ + local_runs(orig, i as int) == local_runs(orig, 0),
            decreases n - i,
        {
            let ghost pre = self.jobs_view();
            let ghost wpre = self.workers@;
            let ghost runs_pre = runs@;
            let ghost idle_pre = idle@;
            let popped = self.workers[i].pop();
            let was_idle = match popped {
                Some(job) => {
                    runs.push(JobRun { worker: i, job, stolen: false });
                    false
                },
                None => true,
            };
            idle.push(was_idle);
            proof {
                assert(idle@ == idle_pre.push(was_idle));
                assert(was_idle == (wpre[i as int]@.len() == 0));
                assert forall|k: int|
                    0 <= k < n && k != i implies self.jobs_view()[k] == pre[k] by {
                    assert(self.workers@[k] == wpre[k]);
                    assert(self.jobs_view()[k] == self.workers@[k]@);
                    assert(pre[k] == wpre[k]@);
                }
                assert(pre[i as int] == wpre[i as int]@);
                assert(pre[i as int] == orig[i as int]);
                assert(self.jobs_view()[i as int] == self.workers@[i as int]@);
                if orig[i as int].len() > 0 {
                    assert(self.jobs_view()[i as int] == orig[i as int].drop_last());
                    assert(runs@ =~= runs_pre.push((JobRun {
                        worker: i,
                        job: orig[i as int].last(),
                        stolen: false,
                    })));
                    assert(runs@ + local_runs(orig, i + 1)
                        =~= runs_pre + local_runs(orig, i as int));
                } else {
                    assert(self.jobs_view()[i as int] == orig[i as int]);
                    assert(local_runs(orig, i as int) == local_runs(orig, i + 1));
                }
                assert(drained(orig)[i as int] == if orig[i as int].len() > 0 {
                    orig[i as int].drop_last()
                } else {
                    orig[i as int]
                });
                assert forall|k: int|
                    i + 1 <= k < n implies (#[trigger] self.jobs_view()[k]) == orig[k] by {
                    assert(self.jobs_view()[k] == pre[k]);
                    assert(pre[k] == orig[k]);
                }
                assert forall|k: int|
                    0 <= k < i + 1 implies (#[trigger] self.jobs_view()[k]) == drained(orig)[k] by {
                    if k < i {
                        assert(self.jobs_view()[k] == pre[k]);
                        assert(pre[k] == drained(orig)[k]);
                    }
                }
                assert forall|k: int|
                    0 <= k < i + 1 implies (#[trigger] idle@[k]) == (orig[k].len() == 0) by {
                    if k < i {
                        assert(idle@[k] == idle_pre[k]);
                    }
                }
            }
            i = i + 1;
        }
        let ghost ds0 = drained(orig);
        let ghost goal = steal_phase(ds0, orig, 0);
        proof {
            assert(self.jobs_view() =~= ds0);
            assert(local_runs(orig, n as int) == Seq::<JobRun<T>>::empty());
            assert(runs@ =~= local_runs(orig, 0));
            assert(runs@ + steal_phase(self.jobs_view(), orig, 0).1
                =~= local_runs(orig, 0) + goal.1);
        }
        let mut i2: usize = 0;
        while i2 < n
            invariant
                i2 <= n,
                self.workers@.len() == n,
                n == orig.len(),
                idle@.len() == n,
                forall|k: int| 0 <= k < n ==> (#[trigger] idle@[k]) == (orig[k].len() == 0),
                steal_phase(self.jobs_view(), orig, i2 as int).0 == goal.0,
                runs@ + steal_phase(self.jobs_view(), orig, i2 as int).1
                    == local_runs(orig, 0) + goal.1,
            decreases n - i2,
        {
            let ghost ds = self.jobs_view();
            if idle[i2] {
                let mut j: usize = 0;
                let mut victim: Option<usize> = None;
                while j < n
                    invariant
                        j <= n,
                        i2 < n,
                        self.workers@.len() == n,
                        n == orig.len(),
                        ds == self.jobs_view(),
                        match victim {
                            Some(v) => steal_source(ds, i2 as int, 0) == Some(v as int)
                                && (v as int) < n && ds[v as int].len() > 0,
                            None => steal_source(ds, i2 as int, 0)
                                == steal_source(ds, i2 as int, j as int),
                        },
                    decreases n - j,
                {
                    if matches!(victim, None) && j != i2 {
                        if !self.workers[j].deque.is_empty() {
                            victim = Some(j);
                            proof {
                                assert(self.jobs_view()[j as int] == self.workers@[j as int]@);
                                assert(steal_source(ds, i2 as int, j as int) == Some(j as int));
                            }
                        }
                    }
                    proof {
                        if matches!(victim, None) {
                            assert(self.jobs_view()[j as int] == self.workers@[j as int]@);
                            assert(steal_source(ds, i2 as int, j as int)
                                == steal_source(ds, i2 as int, j + 1));
                        }
                    }
                    j = j + 1;
                }
                match victim {
                    Some(v) => {
                        let ghost runs_pre = runs@;
                        let job_opt = self.workers[v].deque.pop_front();
                        match job_opt {
                            Some(job) => {
                                runs.push(JobRun { worker: i2, job, stolen: true });
                                proof {
                                    assert forall|k: int|
                                        0 <= k < n && k != v
                                            implies self.jobs_view()[k] == ds[k] by {
                                        assert(self.jobs_view()[k] == self.workers@[k]@);
                                    }
                                    assert(self.jobs_view()[v as int]
                                        == self.workers@[v as int]@);
                                    assert(self.jobs_view()
                                        =~= ds.update(v as int, ds[v as int].drop_first()));
                                    assert(steal_phase(ds, orig, i2 as int).0
                                        == steal_phase(self.jobs_view(), orig, i2 + 1).0);
                                    assert(runs@ =~= runs_pre.push((JobRun {
                                        worker: i2,
                                        job: ds[v as int][0],
                                        stolen: true,
                                    })));
                                    assert(runs@ + steal_phase(self.jobs_view(), orig, i2 + 1).1
                                        =~= runs_pre + steal_phase(ds, orig, i2 as int).1);
                                }
                            },
                            None => {
                                proof {
                                    assert(false);
                                }
                            },
                        }
                    },
                    None => {
                        proof {
                            assert(steal_phase(ds, orig, i2 as int)
                                == steal_phase(ds, orig, i2 + 1));
                        }
                    },
                }
            } else {
                proof {
                    assert(orig[i2 as int].len() > 0);
                    assert(steal_phase(ds, orig, i2 as int) == steal_phase(ds, orig, i2 + 1));
                }
            }
            i2 = i2 + 1;
        }
        proof {
            assert(steal_phase(self.jobs_view(), orig, n as int).0 == self.jobs_view());
            assert(steal_phase(self.jobs_view(), orig, n as int).1
                == Seq::<JobRun<T>>::empty());
            assert(runs@ =~= local_runs(orig, 0) + goal.1);
        }
        runs
    }
}

} // verus!
