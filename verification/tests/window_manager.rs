use rhubarb::window_manager::{Event, EventQueue, EVENT_QUEUE_CAPACITY};

#[test]
fn events_wait_in_order_up_to_the_capacity() {
    let mut queue = EventQueue::new();
    assert_eq!(queue.next_event(), None);
    for _ in 0..EVENT_QUEUE_CAPACITY {
        assert!(queue.send_event(Event::ClockUpdate));
    }
    assert!(!queue.send_event(Event::ClockUpdate));
    let mut taken = 0;
    while let Some(event) = queue.next_event() {
        assert_eq!(event, Event::ClockUpdate);
        taken += 1;
    }
    assert_eq!(taken, EVENT_QUEUE_CAPACITY);
    assert!(queue.send_event(Event::ClockUpdate));
    assert_eq!(queue.next_event(), Some(Event::ClockUpdate));
}
