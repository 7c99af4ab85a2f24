use rhubarb::input;
use rhubarb::virtio::{
    addr_in_bar, features_accepted, find_capability, initialize_writes, queue_setup_writes,
    ConfigWrite, DEVICE_STATUS_ACKNOWLEDGE, DEVICE_STATUS_DRIVER, DEVICE_STATUS_FAILED,
    DEVICE_STATUS_FEATURES_OK, DEVICE_STATUS_RESET, queue_notify_addr, VirtioPciCap, Virtqueue, VirtqueueDesc,
    VirtqueueMessage, VIRTIO_PCI_CAP_COMMON_CFG, VIRTIO_PCI_CAP_DEVICE_CFG, VIRTIO_PCI_CAP_ISR_CFG,
    VIRTIO_PCI_CAP_NOTIFY_CFG, VIRTQ_DESC_F_NEXT, VIRTQ_DESC_F_WRITE,
};
use rhubarb::virtio_input::codes::{EV_KEY, EV_REL, EV_SYN, KEY_A, REL_WHEEL, REL_X, REL_Y, REL_Z};
use rhubarb::virtio_input::{
    convert_input_event, fill_event_queue, poll, InputEvent, InputEventCode, InputEventType,
};

fn cap(cfg_type: u8, bar: u8, offset: u32) -> VirtioPciCap {
    VirtioPciCap {
        cap_vndr: 9,
        cap_next: 0,
        cap_len: 16,
        cfg_type,
        bar,
        padding: [0; 3],
        offset,
        length: 0x1000,
    }
}

#[test]
fn finds_the_first_capability_of_a_type() {
    let caps = [
        cap(VIRTIO_PCI_CAP_NOTIFY_CFG, 4, 0x3000),
        cap(VIRTIO_PCI_CAP_COMMON_CFG, 4, 0x0),
        cap(VIRTIO_PCI_CAP_COMMON_CFG, 2, 0x100),
        cap(VIRTIO_PCI_CAP_DEVICE_CFG, 4, 0x2000),
    ];
    let offsets = [0x40, 0x50, 0x60, 0x70];
    let found = find_capability(&caps, &offsets, VIRTIO_PCI_CAP_COMMON_CFG).unwrap();
    assert_eq!(found.config_space_offset, 0x50);
    assert_eq!(found.virtio_cap.bar, 4);
    assert!(find_capability(&caps, &offsets, VIRTIO_PCI_CAP_ISR_CFG).is_none());
}

#[test]
fn capability_addresses() {
    assert_eq!(addr_in_bar(0xFEBD_0000, &cap(VIRTIO_PCI_CAP_COMMON_CFG, 4, 0x20)), Some(0xFEBD_0020));
    assert_eq!(addr_in_bar(u64::MAX, &cap(VIRTIO_PCI_CAP_COMMON_CFG, 4, 1)), None);
    assert_eq!(queue_notify_addr(0x2000, 3, 4), Some(0x200C));
    assert_eq!(queue_notify_addr(u64::MAX - 1, 1, 2), None);
}

fn queue() -> Virtqueue<u64> {
    Virtqueue::new(1, &[0x1000, 0x2000, 0x3000, 0x4000], 0x5000)
}

#[test]
fn a_new_queue_is_empty() {
    let q = queue();
    assert_eq!(q.index(), 1);
    assert_eq!(q.notify_addr(), 0x5000);
    assert_eq!(q.queue_size(), 4);
    for i in 0..4 {
        assert!(q.is_free(i));
        assert_eq!(q.descriptor(i), VirtqueueDesc { addr: 0x1000 * (i as u64 + 1), len: 0, flags: 0, next: 0 });
    }
}

#[test]
fn push_chains_the_first_free_descriptors() {
    let mut q = queue();
    let messages = [VirtqueueMessage::DeviceRead { data: 7u64, len: None }, VirtqueueMessage::DeviceWrite];
    assert_eq!(q.push(&messages), Ok(()));
    assert_eq!(
        q.descriptor(0),
        VirtqueueDesc { addr: 0x1000, len: 8, flags: VIRTQ_DESC_F_NEXT, next: 1 }
    );
    assert_eq!(q.descriptor(1), VirtqueueDesc { addr: 0x2000, len: 8, flags: VIRTQ_DESC_F_WRITE, next: 0 });
    assert!(!q.is_free(0));
    assert!(!q.is_free(1));
    assert!(q.is_free(2));
    assert_eq!(q.available_entry(0), (1, 0));

    let messages = [VirtqueueMessage::DeviceRead { data: 9u64, len: Some(3) }];
    assert_eq!(q.push(&messages), Ok(()));
    assert_eq!(q.descriptor(2), VirtqueueDesc { addr: 0x3000, len: 3, flags: 0, next: 0 });
    assert_eq!(q.available_entry(1), (2, 2));
}

#[test]
fn push_without_enough_free_descriptors_changes_nothing() {
    let mut q = queue();
    assert_eq!(q.push(&[VirtqueueMessage::DeviceWrite, VirtqueueMessage::DeviceWrite]), Ok(()));
    let three = [VirtqueueMessage::DeviceWrite, VirtqueueMessage::DeviceWrite, VirtqueueMessage::DeviceWrite];
    assert_eq!(q.push(&three), Err(()));
    assert!(q.is_free(2));
    assert!(q.is_free(3));
    assert_eq!(q.descriptor(2), VirtqueueDesc { addr: 0x3000, len: 0, flags: 0, next: 0 });
    assert_eq!(q.available_entry(1), (1, 0));
}

#[test]
fn pop_takes_back_a_chain_in_order() {
    let mut q = queue();
    let messages = [VirtqueueMessage::DeviceRead { data: 7u64, len: None }, VirtqueueMessage::DeviceWrite];
    q.push(&messages).unwrap();
    assert_eq!(q.pop(2), None);
    q.device_write(1, 42);
    q.device_use(0, 8);
    assert_eq!(q.pop(3), Some(vec![Some(7), Some(42), None]));
    assert!(q.is_free(0));
    assert!(q.is_free(1));
    assert_eq!(q.pop(3), None);
}

fn event(type_: u16, code: u16, value: u32) -> InputEvent {
    InputEvent { type_: InputEventType(type_), code: InputEventCode(code), value }
}

#[test]
fn converts_device_events() {
    assert_eq!(convert_input_event(event(EV_KEY, KEY_A, 0)), Some(input::InputEvent::KeyPress { code: KEY_A }));
    assert_eq!(convert_input_event(event(EV_KEY, KEY_A, 1)), None);
    assert_eq!(
        convert_input_event(event(EV_REL, REL_X, 0xFFFF_FFFF)),
        Some(input::InputEvent::MouseMove { delta_x: -1, delta_y: 0 })
    );
    assert_eq!(
        convert_input_event(event(EV_REL, REL_Y, 5)),
        Some(input::InputEvent::MouseMove { delta_x: 0, delta_y: 5 })
    );
    assert_eq!(convert_input_event(event(EV_REL, REL_WHEEL, 2)), Some(input::InputEvent::MouseWheel { delta: 2 }));
    assert_eq!(convert_input_event(event(EV_REL, REL_Z, 2)), None);
    assert_eq!(convert_input_event(event(EV_SYN, 0, 0)), None);
}

#[test]
fn polls_reported_events_and_requeues_their_buffers() {
    let mut q: Virtqueue<InputEvent> = Virtqueue::new(0, &[0x1000, 0x1100, 0x1200, 0x1300], 0x9000);
    fill_event_queue(&mut q);
    for i in 0..4 {
        assert!(!q.is_free(i));
        assert_eq!(q.descriptor(i).flags, VIRTQ_DESC_F_WRITE);
    }
    assert_eq!(q.available_entry(3), (4, 3));
    assert!(poll(&mut q).is_empty());

    let first = event(EV_KEY, KEY_A, 0);
    let second = event(EV_REL, REL_X, 3);
    q.device_write(2, first);
    q.device_write(0, second);
    q.device_use(2, 8);
    q.device_use(0, 8);
    assert_eq!(poll(&mut q), vec![first, second]);
    for i in 0..4 {
        assert!(!q.is_free(i));
    }
    assert!(poll(&mut q).is_empty());
}

#[test]
fn polls_only_a_queue_whose_device_behaved() {
    use_poll_ready();
}

fn use_poll_ready() {
    let mut q: Virtqueue<InputEvent> = Virtqueue::new(0, &[0x1000, 0x1100], 0x9000);
    fill_event_queue(&mut q);
    assert!(rhubarb::virtio_input::is_poll_ready(&q));
    q.device_use(1, 8);
    assert!(rhubarb::virtio_input::is_poll_ready(&q));
    q.device_use(1, 8);
    assert!(!rhubarb::virtio_input::is_poll_ready(&q));
    let mut fresh: Virtqueue<InputEvent> = Virtqueue::new(0, &[0x1000, 0x1100], 0x9000);
    fresh.device_use(0, 8);
    assert!(!rhubarb::virtio_input::is_poll_ready(&fresh));
}

#[test]
fn device_setup_writes_follow_the_initialization_sequence() {
    let writes = initialize_writes(0x30);
    assert_eq!(
        writes,
        vec![
            ConfigWrite::DeviceStatus(DEVICE_STATUS_RESET),
            ConfigWrite::Msix(false),
            ConfigWrite::DeviceStatus(DEVICE_STATUS_ACKNOWLEDGE),
            ConfigWrite::DeviceStatus(DEVICE_STATUS_DRIVER),
            ConfigWrite::DriverFeature { select: 0, bits: 0x30 },
            ConfigWrite::DriverFeature { select: 1, bits: 1 },
            ConfigWrite::DeviceStatus(DEVICE_STATUS_FEATURES_OK),
        ]
    );
    assert!(features_accepted(DEVICE_STATUS_FEATURES_OK));
    assert!(!features_accepted(DEVICE_STATUS_FEATURES_OK | DEVICE_STATUS_FAILED));
    assert_eq!(
        queue_setup_writes(2, 0x1000, 0x2000, 0x3000),
        vec![
            ConfigWrite::QueueSelect(2),
            ConfigWrite::QueueDesc(0x1000),
            ConfigWrite::QueueDriver(0x2000),
            ConfigWrite::QueueDevice(0x3000),
            ConfigWrite::QueueEnable(1),
        ]
    );
}

#[test]
fn a_queue_keeps_its_number_and_notify_address() {
    let mut q = queue();
    assert_eq!(q.index(), 1);
    assert_eq!(q.notify_addr(), 0x5000);
    q.push(&[VirtqueueMessage::DeviceWrite]).unwrap();
    assert_eq!(q.index(), 1);
    assert_eq!(q.notify_addr(), 0x5000);
}
