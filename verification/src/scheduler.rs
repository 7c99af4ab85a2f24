//! The kernel's process scheduler: a run queue for each priority, served in priority order
//! and first come first served within one.

use vstd::prelude::*;
use std::collections::VecDeque;

use crate::frame_allocator::FrameAllocator;
use crate::memory::{pages_mapped, spaces_with, AddressSpace};
use crate::memory_tracker::MemoryTracker;
use crate::memory_types::{canonical, div_ceil, FrameAllocator as AllocateFrame, VirtualAddress};
use crate::paging::{hierarchy, leveled, slots_between, slots_of, MappingError, PageRange, PageTableFlags, NO_EXECUTE_BIT, PRESENT_BIT, USER_ACCESSIBLE_BIT, WRITABLE_BIT};

verus! {

/// The ID of the idle process.
pub const IDLE_PROCESS_ID: u64 = 0;
/// The stack size of a kernel process that asks for none: 8 pages.
pub const DEFAULT_KERNEL_STACK_SIZE: usize = 32768;
/// The stack size of a user process that asks for none: 16 pages.
pub const DEFAULT_USER_STACK_SIZE: usize = 65536;
/// The interrupt by which a process defers to the next one.
pub const DEFER_INTERRUPT_NUMBER: u8 = 0x40;
/// The interrupt by which a process exits.
pub const EXIT_INTERRUPT_NUMBER: u8 = 0x41;
/// The interrupt by which a process asks for the translation of an address.
pub const TRANSLATE_ADDR_INTERRUPT_NUMBER: u8 = 0x42;

/// The policy used to determine how resources are granted to a process.
#[derive(Clone, Copy, Debug, PartialEq, Eq, Structural)]
pub enum AccessPolicy {
    /// The process has access to all resources; no checks are performed.
    All,
    /// The process is blocked until access to a resource is granted (or stopped if it is
    /// denied).
    Normal,
}

impl Default for AccessPolicy {
    fn default() -> (r: Self)
        ensures
            r == AccessPolicy::Normal,
    {
        AccessPolicy::Normal
    }
}

/// The execution priority of a process; `Normal` runs before `Idle`.
#[derive(Clone, Copy, Debug, PartialEq, Eq, Structural)]
pub enum Priority {
    Normal,
    Idle,
}

impl Priority {
    /// The priority's level: lower levels run first.
    pub fn level(&self) -> (r: u8)
        ensures
            *self == Priority::Normal ==> r == 32,
            *self == Priority::Idle ==> r == 255,
    {
        match self {
            Priority::Normal => 32,
            Priority::Idle => 255,
        }
    }
}

/// The general purpose registers of a process, as they are saved on an interrupt.
#[derive(Clone, Copy, Debug, PartialEq, Eq, Structural)]
pub struct CpuRegisters {
    pub r15: u64,
    pub r14: u64,
    pub r13: u64,
    pub r12: u64,
    pub r11: u64,
    pub r10: u64,
    pub r9: u64,
    pub r8: u64,
    pub rsi: u64,
    pub rdi: u64,
    pub rbp: u64,
    pub rdx: u64,
    pub rcx: u64,
    pub rbx: u64,
    pub rax: u64,
}

impl CpuRegisters {
    /// Every register zero.
    pub fn empty() -> (r: Self)
        ensures
            r.r15 == 0 && r.r14 == 0 && r.r13 == 0 && r.r12 == 0 && r.r11 == 0 && r.r10 == 0 && r.r9
                == 0 && r.r8 == 0 && r.rsi == 0 && r.rdi == 0 && r.rbp == 0 && r.rdx == 0 && r.rcx
                == 0 && r.rbx == 0 && r.rax == 0,
    {
        CpuRegisters {
            r15: 0,
            r14: 0,
            r13: 0,
            r12: 0,
            r11: 0,
            r10: 0,
            r9: 0,
            r8: 0,
            rsi: 0,
            rdi: 0,
            rbp: 0,
            rdx: 0,
            rcx: 0,
            rbx: 0,
            rax: 0,
        }
    }
}

/// What the kernel answers in `rax` to a request to translate an address: the physical
/// address, or -2 when the address is not mapped.
pub fn translate_answer(physical: Option<u64>) -> (r: u64)
    ensures
        physical matches Some(p) ==> r == p,
        physical is None ==> r == 0xFFFF_FFFF_FFFF_FFFE,
{
    match physical {
        Some(p) => p,
        None => 0xFFFF_FFFF_FFFF_FFFE,
    }
}

/// The stack size of a new process: the one asked for, or the default for its kind.
pub open spec fn stack_size_for(stack_size: Option<usize>, user: bool) -> int {
    match stack_size {
        Some(size) => size as int,
        None => if user {
            DEFAULT_USER_STACK_SIZE as int
        } else {
            DEFAULT_KERNEL_STACK_SIZE as int
        },
    }
}

/// The flags a new process's stack is mapped with: present and writable, and for a user
/// process also accessible to it and never executed.
pub open spec fn stack_flags(user: bool) -> u64 {
    if user {
        PRESENT_BIT | WRITABLE_BIT | USER_ACCESSIBLE_BIT | NO_EXECUTE_BIT
    } else {
        PRESENT_BIT | WRITABLE_BIT
    }
}

/// The stack of a new process: the pages that hold its size and end at the page of
/// `stack_top`, and the flags they are mapped with.
pub fn process_stack(stack_top: VirtualAddress, stack_size: Option<usize>, user: bool) -> (r: (
    PageRange,
    PageTableFlags,
))
    requires
        stack_top@ / 4096 >= div_ceil(stack_size_for(stack_size, user), 4096),
    ensures
        r.0.end@ == stack_top@ / 4096,
        r.0.start@ == stack_top@ / 4096 - div_ceil(stack_size_for(stack_size, user), 4096),
        r.1@ == stack_flags(user),
{
    let size = match stack_size {
        Some(size) => size,
        None => if user {
            DEFAULT_USER_STACK_SIZE
        } else {
            DEFAULT_KERNEL_STACK_SIZE
        },
    };
    let pages = PageRange::from_end_size(stack_top.page(), size);
    let flags = if user {
        PageTableFlags::from_bits(PRESENT_BIT | WRITABLE_BIT | USER_ACCESSIBLE_BIT | NO_EXECUTE_BIT)
    } else {
        PageTableFlags::from_bits(PRESENT_BIT | WRITABLE_BIT)
    };
    (pages, flags)
}

/// Maps the stack of a new user process in its address space `space`, under `name`: the pages
/// that hold `stack_size` bytes (or the default) and end at the page of `stack_top`, present,
/// writable, user accessible and never executed, as [`AddressSpace::map_pages`] maps them
/// with frames from `allocator` and records them in `tracker`. Returns the stack's pages.
pub fn map_user_stack(
    space: &mut AddressSpace,
    allocator: &mut FrameAllocator,
    tracker: &mut MemoryTracker,
    name: String,
    stack_top: VirtualAddress,
    stack_size: Option<usize>,
) -> (r: Result<PageRange, MappingError>)
    requires
        old(space).page_table.wf(),
        old(allocator).wf(),
        stack_top@ / 4096 >= div_ceil(stack_size_for(stack_size, true), 4096),
    ensures
        final(space).name == old(space).name,
        final(space).frame == old(space).frame,
        final(space).page_table.wf(),
        final(allocator).wf(),
        r matches Ok(pages) ==> pages.end@ == stack_top@ / 4096 && pages.start@ == stack_top@ / 4096
            - div_ceil(stack_size_for(stack_size, true), 4096),
        r matches Ok(pages) ==> final(tracker).spaces() == spaces_with(
            old(tracker).spaces(),
            old(space).name@,
            old(space).frame@,
            name@,
            pages,
        ),
        r is Err ==> *final(tracker) == *old(tracker),
        ({
            let end = (stack_top@ / 4096) as int;
            let start = end - div_ceil(stack_size_for(stack_size, true), 4096);
            hierarchy(old(space).page_table, *old(allocator), slots_between(start, end)) ==> (r
                is Ok ==> pages_mapped(final(space).page_table, *old(allocator), start, end, stack_flags(true)))
                && (r matches Err(e) ==> (e == MappingError::FrameAllocationFailed && AllocateFrame::exhausted(
                &*final(allocator),
            )) || e is PageAlreadyMapped)
        }),
{
    let (pages, flags) = process_stack(stack_top, stack_size, true);
    proof {
        crate::paging::lemma_mapping_flags();
        assert(pages.end@ * 4096 <= u64::MAX) by (nonlinear_arith)
            requires
                pages.end@ == stack_top@ / 4096,
                stack_top@ <= u64::MAX,
        ;
        assert(slots_of(pages) == slots_between(pages.start@ as int, pages.end@ as int));
    }
    match space.map_pages(allocator, tracker, name, pages, flags) {
        Ok(_) => Ok(pages),
        Err(e) => Err(e),
    }
}

/// Where a user process starts: `mapping_offset` bytes into its code, which is mapped at
/// `code_base`.
pub fn user_entry_point(code_base: VirtualAddress, mapping_offset: usize) -> (r: VirtualAddress)
    requires
        code_base@ + mapping_offset <= u64::MAX,
    ensures
        r@ == canonical((code_base@ + mapping_offset) as u64),
{
    VirtualAddress::new(code_base.to_raw() + mapping_offset as u64)
}

/// The run queues and the running process. A priority's queue exists once a process of that
/// priority was queued.
pub struct Scheduler<P> {
    current: Option<(P, Priority)>,
    normal: Option<VecDeque<P>>,
    idle: Option<VecDeque<P>>,
}

/// The contents of a queue that may not exist yet.
pub open spec fn queue_view<P>(q: Option<VecDeque<P>>) -> Option<Seq<P>> {
    match q {
        Some(d) => Some(d@),
        None => None,
    }
}

/// The processes waiting in a queue that may not exist yet.
pub open spec fn waiting<P>(q: Option<Seq<P>>) -> Seq<P> {
    match q {
        Some(s) => s,
        None => Seq::empty(),
    }
}

impl<P> Scheduler<P> {
    /// The running process and its priority.
    pub closed spec fn running(&self) -> Option<(P, Priority)> {
        self.current
    }

    /// The queue of normal processes.
    pub closed spec fn normal_queue(&self) -> Option<Seq<P>> {
        queue_view(self.normal)
    }

    /// The queue of idle processes.
    pub closed spec fn idle_queue(&self) -> Option<Seq<P>> {
        queue_view(self.idle)
    }

    /// The queue of `priority`.
    pub open spec fn queue_of(&self, priority: Priority) -> Option<Seq<P>> {
        match priority {
            Priority::Normal => self.normal_queue(),
            Priority::Idle => self.idle_queue(),
        }
    }

    /// A scheduler with nothing running and no queue.
    pub fn new() -> (r: Self)
        ensures
            r.running() is None,
            r.normal_queue() is None,
            r.idle_queue() is None,
    {
        Scheduler { current: None, normal: None, idle: None }
    }

    /// Queues the idle process, which runs when no other process is ready.
    pub fn init(&mut self, idle: P)
        ensures
            final(self).running() == old(self).running(),
            final(self).idle_queue() == Some(waiting(old(self).idle_queue()).push(idle)),
            final(self).normal_queue() == old(self).normal_queue(),
    {
        self.add_to_queue(idle, Priority::Idle);
    }

    /// The running process.
    pub fn current_process(&self) -> (r: Option<&P>)
        ensures
            match self.running() {
                Some((p, _)) => r == Some(&p),
                None => r is None,
            },
    {
        match &self.current {
            Some((p, _)) => Some(p),
            None => None,
        }
    }

    /// Queues `process` at the back of the queue of `priority`, which then exists.
    pub fn add_to_queue(&mut self, process: P, priority: Priority)
        ensures
            final(self).running() == old(self).running(),
            final(self).queue_of(priority) == Some(waiting(old(self).queue_of(priority)).push(
                process,
            )),
            priority == Priority::Normal ==> final(self).idle_queue() == old(self).idle_queue(),
            priority == Priority::Idle ==> final(self).normal_queue() == old(self).normal_queue(),
    {
        match priority {
            Priority::Normal => {
                let mut q = match self.normal.take() {
                    Some(q) => q,
                    None => VecDeque::new(),
                };
                q.push_back(process);
                self.normal = Some(q);
            },
            Priority::Idle => {
                let mut q = match self.idle.take() {
                    Some(q) => q,
                    None => VecDeque::new(),
                };
                q.push_back(process);
                self.idle = Some(q);
            },
        }
    }

    /// Takes the process at the front of the first queue, in priority order, that holds one.
    pub fn next_ready(&mut self) -> (r: Option<(P, Priority)>)
        ensures
            final(self).running() == old(self).running(),
            waiting(old(self).normal_queue()).len() > 0 ==> {
                &&& r == Some((waiting(old(self).normal_queue())[0], Priority::Normal))
                &&& final(self).normal_queue() == Some(waiting(old(self).normal_queue()).drop_first())
                &&& final(self).idle_queue() == old(self).idle_queue()
            },
            waiting(old(self).normal_queue()).len() == 0 && waiting(old(self).idle_queue()).len() > 0
                ==> {
                &&& r == Some((waiting(old(self).idle_queue())[0], Priority::Idle))
                &&& final(self).idle_queue() == Some(waiting(old(self).idle_queue()).drop_first())
                &&& final(self).normal_queue() == old(self).normal_queue()
            },
            waiting(old(self).normal_queue()).len() == 0 && waiting(old(self).idle_queue()).len()
                == 0 ==> r is None && final(self).normal_queue() == old(self).normal_queue()
                && final(self).idle_queue() == old(self).idle_queue(),
    {
        let mut normal = self.normal.take();
        let taken = match &mut normal {
            Some(q) => q.pop_front(),
            None => None,
        };
        self.normal = normal;
        if let Some(p) = taken {
            return Some((p, Priority::Normal));
        }
        let mut idle = self.idle.take();
        let taken = match &mut idle {
            Some(q) => q.pop_front(),
            None => None,
        };
        self.idle = idle;
        match taken {
            Some(p) => Some((p, Priority::Idle)),
            None => None,
        }
    }

    /// When nothing runs, makes the next ready process the running one; returns whether it
    /// did.
    pub fn schedule_next(&mut self) -> (r: bool)
        ensures
            old(self).running() is Some ==> !r && *final(self) == *old(self),
            old(self).running() is None ==> {
                let n = waiting(old(self).normal_queue());
                let i = waiting(old(self).idle_queue());
                &&& r == (n.len() > 0 || i.len() > 0)
                &&& n.len() > 0 ==> final(self).running() == Some((n[0], Priority::Normal))
                    && final(self).normal_queue() == Some(n.drop_first()) && final(self).idle_queue()
                    == old(self).idle_queue()
                &&& n.len() == 0 && i.len() > 0 ==> final(self).running() == Some(
                    (i[0], Priority::Idle),
                ) && final(self).idle_queue() == Some(i.drop_first()) && final(self).normal_queue()
                    == old(self).normal_queue()
                &&& n.len() == 0 && i.len() == 0 ==> final(self).running() is None
                    && final(self).normal_queue() == old(self).normal_queue() && final(self).idle_queue()
                    == old(self).idle_queue()
            },
    {
        if self.current.is_some() {
            return false;
        }
        match self.next_ready() {
            Some(next) => {
                self.current = Some(next);
                true
            },
            None => false,
        }
    }

    /// Puts the running process at the back of its queue, unless no queue exists yet; returns
    /// whether it did.
    pub fn preempt_current(&mut self) -> (r: bool)
        ensures
            (old(self).normal_queue() is None && old(self).idle_queue() is None) || old(
                self,
            ).running() is None ==> !r && *final(self) == *old(self),
            old(self).running() matches Some((p, priority)) ==> (!(old(self).normal_queue() is None
                && old(self).idle_queue() is None) ==> {
                &&& r
                &&& final(self).running() is None
                &&& final(self).queue_of(priority) == Some(waiting(old(self).queue_of(priority)).push(
                    p,
                ))
                &&& priority == Priority::Normal ==> final(self).idle_queue() == old(self).idle_queue()
                &&& priority == Priority::Idle ==> final(self).normal_queue() == old(
                    self,
                ).normal_queue()
            }),
    {
        if self.normal.is_none() && self.idle.is_none() {
            return false;
        }
        match self.current.take() {
            Some((process, priority)) => {
                self.add_to_queue(process, priority);
                true
            },
            None => false,
        }
    }

    /// The running process, no longer running.
    pub fn take_current(&mut self) -> (r: Option<(P, Priority)>)
        ensures
            r == old(self).running(),
            final(self).running() is None,
            final(self).normal_queue() == old(self).normal_queue(),
            final(self).idle_queue() == old(self).idle_queue(),
    {
        self.current.take()
    }
}

} // verus!
