use rhubarb::input::{InputEvent, InputQueue, QUEUE_SIZE};

#[test]
fn input_queue_keeps_order_and_drains() {
    let mut queue = InputQueue::new();
    assert_eq!(queue.push(InputEvent::KeyPress { code: 1 }), None);
    assert_eq!(queue.push(InputEvent::MouseWheel { delta: -3 }), None);
    let events = queue.drain();
    assert_eq!(events, vec![InputEvent::KeyPress { code: 1 }, InputEvent::MouseWheel { delta: -3 }]);
    assert!(queue.drain().is_empty());
}

#[test]
fn input_queue_drops_oldest_when_full() {
    let mut queue = InputQueue::new();
    for i in 0..QUEUE_SIZE {
        assert_eq!(queue.push(InputEvent::KeyPress { code: i as u16 }), None);
    }
    let missed = queue.push(InputEvent::MouseMove { delta_x: 1, delta_y: 2 });
    assert_eq!(missed, Some(InputEvent::KeyPress { code: 0 }));
    let events = queue.drain();
    assert_eq!(events.len(), QUEUE_SIZE);
    assert_eq!(events[0], InputEvent::KeyPress { code: 1 });
    assert_eq!(events[QUEUE_SIZE - 1], InputEvent::MouseMove { delta_x: 1, delta_y: 2 });
}

#[test]
fn the_q_key_quits() {
    assert!(rhubarb::input::is_quit_key(rhubarb::input::InputEvent::KeyPress { code: 16 }));
    assert!(!rhubarb::input::is_quit_key(rhubarb::input::InputEvent::KeyPress { code: 17 }));
    assert!(!rhubarb::input::is_quit_key(rhubarb::input::InputEvent::MouseWheel { delta: 16 }));
}
