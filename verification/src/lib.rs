//! A multi-worker work-stealing task scheduler.
//!
//! A fixed pool of workers each owns a local task queue.  The owner pushes and
//! pops at the back (LIFO); idle peers steal from the front (FIFO).  Three
//! process-wide counters (`completed`, `stolen`, `total`) drive a distributed
//! termination protocol: a worker exits once every submitted task is accounted
//! for and no peer queue shows residual work.
//!
//! The scheduling logic — queue discipline, steal heuristic, termination
//! predicate, and the step-by-step worker loop — lives here, fully specified
//! and verified.  The thin threaded runner that gives each worker an OS thread
//! sits outside the library and only replays decisions made by verified code.

pub mod task;
pub mod queue;
pub mod worker;
pub mod scheduler;
pub mod coroutine;
pub mod generator;
pub mod pool;
