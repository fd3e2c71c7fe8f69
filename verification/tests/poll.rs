use std::sync::atomic::{AtomicUsize, Ordering};
use std::sync::Arc;
use std::task::{Wake, Waker};

use axio::poll::{Inner, PollSet, POLL_SET_CAPACITY};

/// A task that counts how often it was woken.
struct Task {
    wakes: AtomicUsize,
}

impl Wake for Task {
    fn wake(self: Arc<Self>) {
        self.wakes.fetch_add(1, Ordering::SeqCst);
    }
}

fn task() -> (Arc<Task>, Waker) {
    let task = Arc::new(Task { wakes: AtomicUsize::new(0) });
    let waker = Waker::from(task.clone());
    (task, waker)
}

fn wakes(task: &Arc<Task>) -> usize {
    task.wakes.load(Ordering::SeqCst)
}

#[test]
fn wake_on_an_empty_set_wakes_nothing() {
    let set = PollSet::new();
    assert_eq!(set.wake(), 0);
    let set = PollSet::default();
    assert_eq!(set.wake(), 0);
}

#[test]
fn every_registered_task_is_woken_once() {
    let set = PollSet::new();
    let tasks: Vec<(Arc<Task>, Waker)> = (0..5).map(|_| task()).collect();
    for (_, waker) in &tasks {
        set.register(waker);
    }
    for (task, _) in &tasks {
        assert_eq!(wakes(task), 0);
    }
    assert_eq!(set.wake(), 5);
    for (task, _) in &tasks {
        assert_eq!(wakes(task), 1);
    }
    assert_eq!(set.wake(), 0);
    for (task, _) in &tasks {
        assert_eq!(wakes(task), 1);
    }
}

#[test]
fn a_full_set_is_woken_whole() {
    let set = PollSet::new();
    let tasks: Vec<(Arc<Task>, Waker)> = (0..POLL_SET_CAPACITY).map(|_| task()).collect();
    for (_, waker) in &tasks {
        set.register(waker);
    }
    assert_eq!(set.wake(), POLL_SET_CAPACITY);
    for (task, _) in &tasks {
        assert_eq!(wakes(task), 1);
    }
    assert_eq!(set.wake(), 0);
}

#[test]
fn a_task_registered_twice_is_woken_twice_at_most() {
    let set = PollSet::new();
    let (task, waker) = task();
    set.register(&waker);
    set.register(&waker);
    assert_eq!(set.wake(), 2);
    assert_eq!(wakes(&task), 2);
    assert_eq!(set.wake(), 0);
    assert_eq!(wakes(&task), 2);
}

#[test]
fn a_set_can_be_used_again_after_a_wake() {
    let set = PollSet::new();
    let (first, first_waker) = task();
    set.register(&first_waker);
    assert_eq!(set.wake(), 1);
    let (second, second_waker) = task();
    set.register(&second_waker);
    assert_eq!(set.wake(), 1);
    assert_eq!(wakes(&first), 1);
    assert_eq!(wakes(&second), 1);
}

#[test]
fn a_registration_into_a_taken_slot_wakes_the_handle_it_pushes_out() {
    let set = PollSet::new();
    let tasks: Vec<(Arc<Task>, Waker)> = (0..POLL_SET_CAPACITY + 2).map(|_| task()).collect();
    for (_, waker) in &tasks[..POLL_SET_CAPACITY] {
        set.register(waker);
    }
    for (task, _) in &tasks {
        assert_eq!(wakes(task), 0);
    }
    set.register(&tasks[POLL_SET_CAPACITY].1);
    assert_eq!(wakes(&tasks[0].0), 1);
    assert_eq!(wakes(&tasks[1].0), 0);
    set.register(&tasks[POLL_SET_CAPACITY + 1].1);
    assert_eq!(wakes(&tasks[1].0), 1);
    assert_eq!(wakes(&tasks[2].0), 0);
    assert_eq!(set.wake(), POLL_SET_CAPACITY);
    for (task, _) in &tasks {
        assert_eq!(wakes(task), 1);
    }
}

#[test]
fn a_handle_pushed_out_by_its_own_task_is_not_woken() {
    let set = PollSet::new();
    let (task, waker) = task();
    for _ in 0..POLL_SET_CAPACITY {
        set.register(&waker);
    }
    set.register(&waker);
    assert_eq!(wakes(&task), 0);
    assert_eq!(set.wake(), POLL_SET_CAPACITY);
    assert_eq!(wakes(&task), POLL_SET_CAPACITY);
}

#[test]
fn a_full_set_stays_full_however_many_are_registered() {
    let set = PollSet::new();
    let tasks: Vec<(Arc<Task>, Waker)> = (0..2 * POLL_SET_CAPACITY).map(|_| task()).collect();
    for (_, waker) in &tasks {
        set.register(waker);
    }
    // The first half was pushed out and woken; the second half is still held.
    for (task, _) in &tasks[..POLL_SET_CAPACITY] {
        assert_eq!(wakes(task), 1);
    }
    for (task, _) in &tasks[POLL_SET_CAPACITY..] {
        assert_eq!(wakes(task), 0);
    }
    assert_eq!(set.wake(), POLL_SET_CAPACITY);
    for (task, _) in &tasks {
        assert_eq!(wakes(task), 1);
    }
    assert_eq!(set.wake(), 0);
}

#[test]
fn no_task_is_lost_over_many_rounds() {
    let set = PollSet::new();
    let tasks: Vec<(Arc<Task>, Waker)> = (0..3 * POLL_SET_CAPACITY + 5).map(|_| task()).collect();
    for (_, waker) in &tasks {
        set.register(waker);
    }
    for (task, _) in &tasks[..2 * POLL_SET_CAPACITY + 5] {
        assert_eq!(wakes(task), 1);
    }
    assert_eq!(set.wake(), POLL_SET_CAPACITY);
    for (task, _) in &tasks {
        assert_eq!(wakes(task), 1);
    }
}

#[test]
fn the_ring_counts_what_it_holds() {
    let mut ring = Inner::new();
    assert!(ring.is_empty());
    assert_eq!(ring.len(), 0);
    let (task, waker) = task();
    ring.register(&waker);
    assert!(!ring.is_empty());
    assert_eq!(ring.len(), 1);
    for _ in 0..POLL_SET_CAPACITY + 5 {
        ring.register(&waker);
    }
    assert_eq!(ring.len(), POLL_SET_CAPACITY);
    assert_eq!(wakes(&task), 0);
    assert_eq!(ring.wake_all(), POLL_SET_CAPACITY);
    assert_eq!(wakes(&task), POLL_SET_CAPACITY);
    assert!(ring.is_empty());
    assert_eq!(ring.wake_all(), 0);
}

#[test]
fn the_ring_wakes_slot_by_slot() {
    let order = Arc::new(std::sync::Mutex::new(Vec::new()));
    struct Numbered {
        number: usize,
        order: Arc<std::sync::Mutex<Vec<usize>>>,
    }
    impl Wake for Numbered {
        fn wake(self: Arc<Self>) {
            self.order.lock().unwrap().push(self.number);
        }
    }
    let mut ring = Inner::new();
    for number in 0..POLL_SET_CAPACITY + 3 {
        let waker = Waker::from(Arc::new(Numbered { number, order: order.clone() }));
        ring.register(&waker);
    }
    assert_eq!(*order.lock().unwrap(), vec![0, 1, 2]);
    assert_eq!(ring.wake_all(), POLL_SET_CAPACITY);
    let mut expected = vec![0, 1, 2, 64, 65, 66];
    expected.extend(3..POLL_SET_CAPACITY);
    assert_eq!(*order.lock().unwrap(), expected);
}

#[test]
fn the_answer_of_the_stale_handle_decides_whether_it_is_woken() {
    let mut ring = Inner::new();
    let tasks: Vec<(Arc<Task>, Waker)> = (0..POLL_SET_CAPACITY + 2).map(|_| task()).collect();
    assert!(ring.stale().is_none());
    for (_, waker) in &tasks[..POLL_SET_CAPACITY] {
        ring.register_with(waker, false);
        // Nothing is pushed out yet, whatever is said of it.
    }
    assert!(ring.stale().unwrap().will_wake(&tasks[0].1));
    ring.register_with(&tasks[POLL_SET_CAPACITY].1, true);
    assert_eq!(wakes(&tasks[0].0), 0);
    assert!(ring.stale().unwrap().will_wake(&tasks[1].1));
    ring.register_with(&tasks[POLL_SET_CAPACITY + 1].1, false);
    assert_eq!(wakes(&tasks[1].0), 1);
    assert_eq!(ring.len(), POLL_SET_CAPACITY);
    assert_eq!(ring.wake_all(), POLL_SET_CAPACITY);
    assert_eq!(wakes(&tasks[0].0), 0);
    assert_eq!(wakes(&tasks[1].0), 1);
    for (task, _) in &tasks[2..] {
        assert_eq!(wakes(task), 1);
    }
}

#[test]
fn a_full_ring_always_has_a_stale_handle() {
    let mut ring = Inner::new();
    let (task, waker) = task();
    for _ in 0..2 * POLL_SET_CAPACITY - 1 {
        ring.register_with(&waker, true);
    }
    assert!(ring.stale().is_some());
    ring.register_with(&waker, true);
    assert!(ring.stale().is_some());
    assert!(!ring.is_empty());
    assert_eq!(ring.len(), POLL_SET_CAPACITY);
    ring.register_with(&waker, false);
    assert_eq!(wakes(&task), 1);
    assert_eq!(ring.wake_all(), POLL_SET_CAPACITY);
    assert_eq!(wakes(&task), POLL_SET_CAPACITY + 1);
    assert!(ring.is_empty());
}

#[test]
fn taking_the_ring_leaves_it_empty() {
    let mut ring = Inner::new();
    let mut taken = ring.take();
    assert!(taken.is_empty());
    assert!(ring.is_empty());
    let (task, waker) = task();
    ring.register(&waker);
    ring.register(&waker);
    let mut taken_full = ring.take();
    assert!(ring.is_empty());
    assert_eq!(taken_full.len(), 2);
    assert_eq!(wakes(&task), 0);
    assert_eq!(ring.wake_all(), 0);
    assert_eq!(taken.wake_all(), 0);
    assert_eq!(taken_full.wake_all(), 2);
    assert_eq!(wakes(&task), 2);
}
