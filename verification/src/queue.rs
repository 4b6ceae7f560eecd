use vstd::prelude::*;
use crate::task::Task;

verus! {

/// A double-ended task queue: the sole owner of one worker's backlog.
///
/// Access discipline: the owning worker pushes and pops at the back (LIFO,
/// preserving locality); stealing peers remove from the front (FIFO, taking
/// the oldest work).  The queue carries an explicit element count next to the
/// storage; the well-formedness invariant says the two never disagree, so a
/// size observation made just before a removal is an honest snapshot.
pub struct WorkStealingDeque {
    tasks: Vec<Task>,
    size: usize,
}

impl View for WorkStealingDeque {
    type V = Seq<Task>;

    closed spec fn view(&self) -> Seq<Task> {
        self.tasks@
    }
}

impl WorkStealingDeque {
    /// The size count always equals the number of tasks physically present.
    pub closed spec fn wf(&self) -> bool {
        self.size == self.tasks@.len()
    }

    pub fn new() -> (q: Self)
        ensures
            q.wf(),
            q@ == Seq::<Task>::empty(),
    {
        WorkStealingDeque { tasks: Vec::new(), size: 0 }
    }

    /// Append a task at the back; the count moves together with the mutation.
    pub fn push(&mut self, task: Task)
        requires
            old(self).wf(),
        ensures
            final(self).wf(),
            final(self)@ == old(self)@.push(task),
    {
        self.tasks.push(task);
        self.size = self.tasks.len();
    }

    /// Remove and return the back element if present (owner side, LIFO).
    pub fn pop(&mut self) -> (r: Option<Task>)
        requires
            old(self).wf(),
        ensures
            final(self).wf(),
            old(self)@.len() > 0 ==> r == Some(old(self)@.last()) && final(self)@ == old(self)@.drop_last(),
            old(self)@.len() == 0 ==> r is None && *final(self) == *old(self),
    {
        if self.tasks.len() == 0 {
            None
        } else {
            let task = self.tasks.pop();
            self.size = self.size - 1;
            task
        }
    }

    /// Remove and return the front element if present (thief side, FIFO).
    pub fn steal(&mut self) -> (r: Option<Task>)
        requires
            old(self).wf(),
        ensures
            final(self).wf(),
            old(self)@.len() > 0 ==> r == Some(old(self)@[0]) && final(self)@ == old(self)@.drop_first(),
            old(self)@.len() == 0 ==> r is None && *final(self) == *old(self),
    {
        if self.tasks.len() == 0 {
            None
        } else {
            let task = self.tasks.remove(0);
            self.size = self.size - 1;
            proof {
                assert(self.tasks@ =~= old(self).tasks@.drop_first());
            }
            Some(task)
        }
    }

    /// A well-formed queue's length fits the machine's size type, because the
    /// count field mirrors it.
    pub proof fn lemma_wf_len(&self)
        requires
            self.wf(),
        ensures
            self@.len() <= usize::MAX,
    {
    }

    /// The current task count.
    pub fn size(&self) -> (r: usize)
        requires
            self.wf(),
        ensures
            r == self@.len(),
    {
        self.size
    }
}

} // verus!
