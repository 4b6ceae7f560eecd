use work_stealing::pool::{Deque, ThreadPool, Worker};

#[test]
fn deque_serves_both_ends() {
    let mut d: Deque<u32> = Deque::new();
    assert!(d.is_empty());
    d.push_back(1);
    d.push_back(2);
    d.push_front(0);
    assert!(!d.is_empty());
    assert_eq!(d.pop_front(), Some(0));
    assert_eq!(d.pop_back(), Some(2));
    assert_eq!(d.pop_back(), Some(1));
    assert_eq!(d.pop_back(), None);
    assert_eq!(d.pop_front(), None);
}

#[test]
fn worker_pops_newest_first() {
    let mut w: Worker<&str> = Worker::new();
    w.push("a");
    w.push("b");
    w.push("c");
    assert_eq!(w.pop(), Some("c"));
    assert_eq!(w.pop(), Some("b"));
    assert_eq!(w.pop(), Some("a"));
    assert_eq!(w.pop(), None);
}

#[test]
fn steal_takes_the_victims_oldest_job() {
    let mut thief: Worker<u32> = Worker::new();
    let mut victim: Worker<u32> = Worker::new();
    victim.push(1);
    victim.push(2);
    victim.push(3);
    assert_eq!(thief.steal(&mut victim), Some(1));
    assert_eq!(thief.steal(&mut victim), Some(2));
    assert_eq!(victim.pop(), Some(3));
    assert_eq!(thief.steal(&mut victim), None);
    assert_eq!(thief.pop(), None);
}

#[test]
fn spawn_lands_on_the_first_worker() {
    let mut pool: ThreadPool<u32> = ThreadPool::new(4);
    for job in 0..10 {
        pool.spawn(job);
    }
    let runs = pool.execute();
    // worker 0 runs its newest job; the three idle workers steal the
    // oldest remaining jobs from its front, in worker order
    assert_eq!(runs.len(), 4);
    assert_eq!(runs[0].worker, 0);
    assert_eq!(runs[0].job, 9);
    assert!(!runs[0].stolen);
    assert_eq!(runs[1].worker, 1);
    assert_eq!(runs[1].job, 0);
    assert!(runs[1].stolen);
    assert_eq!(runs[2].worker, 2);
    assert_eq!(runs[2].job, 1);
    assert!(runs[2].stolen);
    assert_eq!(runs[3].worker, 3);
    assert_eq!(runs[3].job, 2);
    assert!(runs[3].stolen);
}

#[test]
fn execute_on_an_idle_pool_dispatches_nothing() {
    let mut pool: ThreadPool<u32> = ThreadPool::new(3);
    let runs = pool.execute();
    assert!(runs.is_empty());
}

#[test]
fn idle_worker_steals_the_oldest_job() {
    let mut pool: ThreadPool<u32> = ThreadPool::new(2);
    // both jobs land on worker 0; it runs the newest, and the idle worker 1
    // steals the oldest
    pool.spawn(1);
    pool.spawn(2);
    let runs = pool.execute();
    assert_eq!(runs.len(), 2);
    assert_eq!(runs[0].worker, 0);
    assert_eq!(runs[0].job, 2);
    assert!(!runs[0].stolen);
    assert_eq!(runs[1].worker, 1);
    assert_eq!(runs[1].job, 1);
    assert!(runs[1].stolen);
}
