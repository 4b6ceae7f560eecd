use work_stealing::coroutine::{Coroutine, CoroutineState, Scheduler};

#[test]
fn new_coroutine_is_ready() {
    let coro = Coroutine::new(|| {});
    assert!(matches!(coro.state(), CoroutineState::Ready));
}

#[test]
fn scheduler_starts_empty() {
    let sched: Scheduler<fn()> = Scheduler::new();
    assert_eq!(sched.queue_len(), 0);
}

#[test]
fn spawn_enqueues_ready_coroutines() {
    let mut sched = Scheduler::new();
    for _ in 0..3 {
        sched.spawn(|| {});
    }
    assert_eq!(sched.queue_len(), 3);
}

#[test]
fn run_drains_the_queue() {
    let mut sched = Scheduler::new();
    for _ in 0..5 {
        sched.spawn(|| {});
    }
    sched.run();
    assert_eq!(sched.queue_len(), 0);
}

#[test]
fn run_on_empty_scheduler_is_a_no_op() {
    let mut sched: Scheduler<fn()> = Scheduler::new();
    sched.run();
    assert_eq!(sched.queue_len(), 0);
}
