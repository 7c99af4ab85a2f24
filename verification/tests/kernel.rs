use rhubarb::idt::{general_protection_ends_process, page_fault_action, FramebufferMapping, PageFaultAction, CAUSED_BY_WRITE, USER_MODE};
use rhubarb::paging::PageTableFlags;
use rhubarb::scheduler::{translate_answer, AccessPolicy, CpuRegisters, Priority, Scheduler};

#[test]
fn scheduler_serves_priorities_in_order() {
    let mut s: Scheduler<&str> = Scheduler::new();
    assert!(!s.preempt_current());
    s.add_to_queue("idle", Priority::Idle);
    s.add_to_queue("a", Priority::Normal);
    s.add_to_queue("b", Priority::Normal);
    assert!(s.schedule_next());
    assert!(!s.schedule_next());
    assert!(s.preempt_current());
    assert!(s.schedule_next());
    assert_eq!(s.take_current(), Some(("b", Priority::Normal)));
    assert!(s.schedule_next());
    assert_eq!(s.take_current(), Some(("a", Priority::Normal)));
    assert_eq!(s.next_ready(), Some(("idle", Priority::Idle)));
    assert_eq!(s.next_ready(), None);
}

#[test]
fn scheduler_values() {
    assert_eq!(Priority::Normal.level(), 32);
    assert_eq!(Priority::Idle.level(), 255);
    assert_eq!(AccessPolicy::default(), AccessPolicy::Normal);
    assert_eq!(CpuRegisters::empty().rax, 0);
    assert_eq!(translate_answer(Some(0x1234)), 0x1234);
    assert_eq!(translate_answer(None) as i64, -2);
}

#[test]
fn page_fault_decisions() {
    let fb = FramebufferMapping { addr: 0x8000_0000, size: 0x1000, flags: PageTableFlags::present() };
    let rw = PageTableFlags::present().union(PageTableFlags::writable());
    assert_eq!(page_fault_action(0, 0x10, None, fb, AccessPolicy::All), PageFaultAction::Panic);
    assert_eq!(
        page_fault_action(USER_MODE, 0x8000_0010, None, fb, AccessPolicy::Normal),
        PageFaultAction::GrantFramebuffer { flags: PageTableFlags::present().union(PageTableFlags::user_accessible()) }
    );
    assert_eq!(page_fault_action(USER_MODE, 0x8000_1000, None, fb, AccessPolicy::Normal), PageFaultAction::ExitProcess);
    assert_eq!(page_fault_action(USER_MODE, 0x10, Some(rw), fb, AccessPolicy::All), PageFaultAction::MapSection { flags: rw });
    assert_eq!(
        page_fault_action(USER_MODE, 0x10, Some(rw), fb, AccessPolicy::Normal),
        PageFaultAction::MapSection { flags: PageTableFlags::present() }
    );
    assert_eq!(
        page_fault_action(USER_MODE | CAUSED_BY_WRITE, 0x10, Some(rw), fb, AccessPolicy::Normal),
        PageFaultAction::ExitProcess
    );
    assert!(general_protection_ends_process(0xE4));
    assert!(general_protection_ends_process(0xEF));
    assert!(!general_protection_ends_process(0x90));
}

#[test]
fn process_stacks_and_entry_points() {
    let top = rhubarb::memory_types::VirtualAddress::new(0x40_0000);
    let (pages, flags) = rhubarb::scheduler::process_stack(top, None, true);
    assert_eq!(pages.end.number(), 0x400);
    assert_eq!(pages.start.number(), 0x400 - 16);
    assert_eq!(flags.bits(), 0x8000_0000_0000_0007);
    let (pages, flags) = rhubarb::scheduler::process_stack(top, None, false);
    assert_eq!(pages.start.number(), 0x400 - 8);
    assert_eq!(flags.bits(), 0x3);
    let (pages, _) = rhubarb::scheduler::process_stack(top, Some(4097), true);
    assert_eq!(pages.start.number(), 0x400 - 2);
    assert_eq!(rhubarb::scheduler::user_entry_point(top, 0x123).to_raw(), 0x40_0123);
    assert_eq!(rhubarb::scheduler::user_entry_point(rhubarb::memory_types::VirtualAddress::new(0x7FFF_FFFF_F000), 0x1000).to_raw(), 0xFFFF_8000_0000_0000);
}

#[test]
fn the_idle_process_runs_when_nothing_else_is_ready() {
    let mut s: Scheduler<&str> = Scheduler::new();
    s.init("idle");
    assert_eq!(s.current_process(), None);
    assert!(s.schedule_next());
    assert_eq!(s.current_process(), Some(&"idle"));
    s.add_to_queue("shell", Priority::Normal);
    assert!(s.preempt_current());
    assert!(s.schedule_next());
    assert_eq!(s.current_process(), Some(&"shell"));
}
