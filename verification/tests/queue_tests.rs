use work_stealing::queue::WorkStealingDeque;
use work_stealing::task::{Task, TaskState};

fn task(id: usize) -> Task {
    Task { id, priority: 0, work_units: 10, state: TaskState::Ready }
}

#[test]
fn owner_pops_lifo() {
    let mut q = WorkStealingDeque::new();
    q.push(task(1));
    q.push(task(2));
    q.push(task(3));
    assert_eq!(q.size(), 3);
    assert_eq!(q.pop().unwrap().id, 3);
    assert_eq!(q.pop().unwrap().id, 2);
    assert_eq!(q.pop().unwrap().id, 1);
    assert!(q.pop().is_none());
}

#[test]
fn thief_steals_fifo() {
    let mut q = WorkStealingDeque::new();
    q.push(task(1));
    q.push(task(2));
    q.push(task(3));
    assert_eq!(q.steal().unwrap().id, 1);
    assert_eq!(q.steal().unwrap().id, 2);
    assert_eq!(q.steal().unwrap().id, 3);
    assert!(q.steal().is_none());
}

#[test]
fn empty_queue_yields_none() {
    let mut q = WorkStealingDeque::new();
    assert_eq!(q.size(), 0);
    assert!(q.pop().is_none());
    assert!(q.steal().is_none());
    assert_eq!(q.size(), 0);
}

#[test]
fn size_tracks_every_mutation() {
    let mut q = WorkStealingDeque::new();
    q.push(task(7));
    assert_eq!(q.size(), 1);
    q.push(task(8));
    assert_eq!(q.size(), 2);
    let _ = q.steal();
    assert_eq!(q.size(), 1);
    let _ = q.pop();
    assert_eq!(q.size(), 0);
}

#[test]
fn mixed_ends_interleave() {
    let mut q = WorkStealingDeque::new();
    q.push(task(1));
    q.push(task(2));
    q.push(task(3));
    q.push(task(4));
    assert_eq!(q.steal().unwrap().id, 1);
    assert_eq!(q.pop().unwrap().id, 4);
    assert_eq!(q.steal().unwrap().id, 2);
    assert_eq!(q.pop().unwrap().id, 3);
    assert!(q.pop().is_none());
}
