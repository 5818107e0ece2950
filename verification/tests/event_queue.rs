//! The queue of application events.

use blueos_loader::application::event_queue::{ApplicationEvent, ApplicationEventQueue};

fn exited(id: usize) -> ApplicationEvent {
    ApplicationEvent::ExecutionUnitExited { thread_id: id }
}

#[test]
fn enqueue_and_drain_are_fifo() {
    let mut queue = ApplicationEventQueue::new(4);
    assert!(queue.enqueue(exited(1)));
    assert!(queue.enqueue(exited(2)));
    assert!(queue.enqueue(exited(3)));
    assert_eq!(queue.drain(), vec![exited(1), exited(2), exited(3)]);
    assert!(queue.is_empty());
}

#[test]
fn reserved_capacity_never_drops_the_newest_exit() {
    // Two members reserve two slots; three exits still retain the newest two.
    let mut queue = ApplicationEventQueue::new(0);
    assert!(queue.reserve_capacity(2));
    assert!(queue.enqueue(exited(1)));
    assert!(queue.enqueue(exited(2)));

    // Full: the third exit evicts the oldest.
    let evicted = queue.enqueue_or_oldest(exited(3));
    assert_eq!(evicted, Some(exited(1)));
    assert_eq!(queue.drain(), vec![exited(2), exited(3)]);
}

#[test]
fn enqueue_returns_false_only_when_full() {
    let mut queue = ApplicationEventQueue::new(1);
    assert!(queue.enqueue(exited(1)));
    assert!(!queue.enqueue(exited(2)));
    assert_eq!(queue.drain(), vec![exited(1)]);
}

#[test]
fn zero_capacity_queue_rejects_everything() {
    let mut queue = ApplicationEventQueue::new(0);
    assert!(!queue.enqueue(exited(1)));
    assert!(queue.drain().is_empty());
}

#[test]
fn reserve_capacity_preserves_fifo_order() {
    let mut queue = ApplicationEventQueue::new(1);
    assert!(queue.enqueue(exited(1)));
    assert!(queue.reserve_capacity(3));
    assert!(queue.enqueue(exited(2)));
    assert!(queue.enqueue(exited(3)));
    assert_eq!(queue.drain(), vec![exited(1), exited(2), exited(3)]);
}

#[test]
fn forced_events_keep_the_newest() {
    let mut queue = ApplicationEventQueue::new(2);
    let mut evicted = Vec::new();
    for id in 1..=5 {
        if let Some(event) = queue.enqueue_or_oldest(exited(id)) {
            evicted.push(event);
        }
    }
    assert_eq!(evicted, vec![exited(1), exited(2), exited(3)]);
    assert_eq!(queue.len(), 2);
    assert_eq!(queue.drain(), vec![exited(4), exited(5)]);
}

#[test]
fn an_impossible_capacity_changes_nothing() {
    let mut queue = ApplicationEventQueue::new(1);
    assert!(queue.enqueue(exited(1)));
    assert!(!queue.reserve_capacity(usize::MAX));
    assert!(queue.reserve_capacity(0));
    assert!(!queue.enqueue(exited(2)));
    assert_eq!(queue.drain(), vec![exited(1)]);
}

#[test]
fn a_ring_wraps_around() {
    let mut queue = ApplicationEventQueue::new(3);
    for round in 0..4 {
        assert!(queue.enqueue(exited(2 * round)));
        assert!(queue.enqueue(exited(2 * round + 1)));
        assert_eq!(queue.drain(), vec![exited(2 * round), exited(2 * round + 1)]);
    }
}

#[test]
fn reserved_slots_are_all_usable() {
    let mut queue = ApplicationEventQueue::new(3);
    assert!(queue.enqueue(exited(1)));
    assert!(queue.enqueue(exited(2)));
    // Three slots and four more, two of them taken.
    assert!(queue.reserve_capacity(4));
    for id in 3..=7 {
        assert!(queue.enqueue(exited(id)));
    }
    assert!(!queue.enqueue(exited(8)));
    let events: Vec<ApplicationEvent> = (1..=7).map(exited).collect();
    assert_eq!(queue.drain(), events);
}

#[test]
fn a_queue_grows_into_a_reserved_ring() {
    let mut queue = ApplicationEventQueue::new(1);
    assert!(queue.enqueue(exited(1)));
    assert_eq!(queue.grown_capacity(2), Some(3));
    assert!(queue.grow_into(2, Some(Vec::new())));
    assert!(queue.enqueue(exited(2)));
    assert!(queue.enqueue(exited(3)));
    assert!(!queue.enqueue(exited(4)));
    assert_eq!(queue.drain(), vec![exited(1), exited(2), exited(3)]);
}

#[test]
fn a_queue_without_a_ring_stays_as_it_is() {
    let mut queue = ApplicationEventQueue::new(1);
    assert!(queue.enqueue(exited(1)));
    assert!(!queue.grow_into(2, None));
    assert!(!queue.enqueue(exited(2)));
    // No slot is wanted, or no number counts the slots.
    assert!(queue.grow_into(0, None));
    assert_eq!(queue.grown_capacity(usize::MAX), None);
    assert!(!queue.grow_into(usize::MAX, Some(Vec::new())));
    assert_eq!(queue.drain(), vec![exited(1)]);
}
