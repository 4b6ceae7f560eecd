use work_stealing::scheduler::WorkStealingScheduler;
use work_stealing::task::{Task, TaskState};

fn task(id: usize, cost: usize) -> Task {
    Task { id, priority: id % 3, work_units: cost, state: TaskState::Ready }
}

#[test]
fn conservation_every_task_runs_once() {
    let mut sched = WorkStealingScheduler::new(2);
    for id in 0..6 {
        sched.add_task(id % 2, task(id, 100));
    }
    assert_eq!(sched.total(), 6);
    sched.run();
    assert_eq!(sched.completed(), sched.total());
    assert_eq!(sched.exec_log().len(), 6);
    let mut ids: Vec<usize> = sched.exec_log().iter().map(|e| e.task.id).collect();
    ids.sort();
    assert_eq!(ids, vec![0, 1, 2, 3, 4, 5]);
    for worker_id in 0..2 {
        assert_eq!(sched.queue_size(worker_id), 0);
    }
}

#[test]
fn executed_tasks_end_completed() {
    let mut sched = WorkStealingScheduler::new(2);
    sched.add_task(0, task(1, 50));
    sched.add_task(1, task(2, 50));
    sched.run();
    for e in sched.exec_log() {
        assert!(matches!(e.task.state, TaskState::Completed));
    }
}

#[test]
fn idle_termination_returns_promptly() {
    let mut sched = WorkStealingScheduler::new(3);
    assert_eq!(sched.total(), 0);
    sched.run();
    assert_eq!(sched.completed(), 0);
    assert_eq!(sched.stolen(), 0);
    assert!(sched.exec_log().is_empty());
    assert!(sched.steal_log().is_empty());
}

#[test]
fn designated_worker_never_steals() {
    let mut sched = WorkStealingScheduler::new(4);
    // heavy load on workers 1..3, nothing on worker 0: any steal that
    // happens must still never name worker 0 as the thief
    for id in 0..9 {
        sched.add_task(1 + id % 3, task(id, 100));
    }
    sched.run();
    for e in sched.steal_log() {
        assert_ne!(e.thief, 0);
    }
}

#[test]
fn imbalance_scenario() {
    let mut sched = WorkStealingScheduler::new(4);
    // worker 0 receives 9 long tasks, workers 1..3 one quick task each
    for id in 0..9 {
        sched.add_task(0, task(id, 3000));
    }
    for id in 9..12 {
        sched.add_task(id - 8, task(id, 100));
    }
    sched.run();
    assert_eq!(sched.completed(), 12);

    // each non-designated worker stole from worker 0 at least once
    for thief in 1..4 {
        let stole_from_zero = sched
            .steal_log()
            .iter()
            .any(|e| e.thief == thief && e.victim == 0);
        assert!(stole_from_zero);
    }
    // worker 0 never appears as a thief
    for e in sched.steal_log() {
        assert_ne!(e.thief, 0);
    }

    // parallel speedup: no worker spends anywhere near the serial
    // 9 * 3000 ms of simulated cost
    let mut busy = [0usize; 4];
    for e in sched.exec_log() {
        busy[e.worker] += e.task.work_units;
    }
    let makespan = busy.iter().copied().max().unwrap();
    assert!(makespan < 9 * 3000);
}

#[test]
fn idempotent_shutdown() {
    let mut sched = WorkStealingScheduler::new(3);
    for id in 0..5 {
        sched.add_task(id % 3, task(id, 20));
    }
    sched.run();
    let completed = sched.completed();
    let stolen = sched.stolen();
    let total = sched.total();
    let exec_len = sched.exec_log().len();
    let steal_len = sched.steal_log().len();
    sched.run();
    assert_eq!(sched.completed(), completed);
    assert_eq!(sched.stolen(), stolen);
    assert_eq!(sched.total(), total);
    assert_eq!(sched.exec_log().len(), exec_len);
    assert_eq!(sched.steal_log().len(), steal_len);
}

#[test]
fn single_worker_drains_alone() {
    let mut sched = WorkStealingScheduler::new(1);
    for id in 0..4 {
        sched.add_task(0, task(id, 10));
    }
    sched.run();
    assert_eq!(sched.completed(), 4);
    assert_eq!(sched.stolen(), 0);
    assert!(sched.steal_log().is_empty());
}

#[test]
fn stolen_counter_matches_steal_log() {
    let mut sched = WorkStealingScheduler::new(3);
    for id in 0..8 {
        sched.add_task(0, task(id, 500));
    }
    sched.run();
    assert_eq!(sched.stolen(), sched.steal_log().len());
    assert!(sched.stolen() > 0);
}

#[test]
fn add_task_updates_total_and_queue() {
    let mut sched = WorkStealingScheduler::new(2);
    assert_eq!(sched.num_workers(), 2);
    sched.add_task(1, task(42, 7));
    assert_eq!(sched.total(), 1);
    assert_eq!(sched.queue_size(1), 1);
    assert_eq!(sched.queue_size(0), 0);
}

#[test]
fn steal_events_record_real_victims() {
    let mut sched = WorkStealingScheduler::new(4);
    for id in 0..10 {
        sched.add_task(0, task(id, 1000));
    }
    sched.run();
    for e in sched.steal_log() {
        assert!(e.thief < 4);
        assert!(e.victim < 4);
        assert_ne!(e.thief, e.victim);
        assert!(e.task_id < 10);
    }
}
