use vstd::prelude::*;

verus! {

/// Lifecycle of a task.  A task is created `Ready`, becomes `Running` when a
/// worker begins executing it, and ends `Completed`.  `Stolen` is a transient
/// tag applied the moment a thief removes the task from a peer's queue; it is
/// cleared to `Completed` once the thief finishes executing it.
#[derive(Debug, Clone, Copy, PartialEq, Eq, Structural)]
pub enum TaskState {
    Ready,
    Running,
    Completed,
    Stolen,
}

/// An immutable unit of work.
///
/// `id` identifies the task and is never reused; `priority` is advisory only
/// and not consulted by the steal or dispatch logic; `work_units` is the
/// simulated execution cost in milliseconds.
#[derive(Debug, Clone, Copy, PartialEq, Eq, Structural)]
pub struct Task {
    pub id: usize,
    pub priority: usize,
    pub work_units: usize,
    pub state: TaskState,
}

} // verus!
