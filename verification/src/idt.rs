//! What the kernel decides on a page fault or a general protection fault of a process.

use vstd::prelude::*;
use crate::paging::{PageTableFlags, USER_ACCESSIBLE_BIT, WRITABLE_BIT};
use crate::scheduler::AccessPolicy;

verus! {

/// The page fault happened when writing.
pub const CAUSED_BY_WRITE: u64 = 1 << 1;
/// The page fault happened in user mode.
pub const USER_MODE: u64 = 1 << 2;

/// The opcodes of the instructions that use I/O ports: `in` and `out`.
pub const IO_PORT_OPCODES: [u8; 8] = [0xE4, 0xE5, 0xE6, 0xE7, 0xEC, 0xED, 0xEE, 0xEF];

/// What to do about a page fault.
#[derive(Clone, Copy, Debug, PartialEq, Eq, Structural)]
pub enum PageFaultAction {
    /// The kernel itself faulted: stop.
    Panic,
    /// The process touched the framebuffer, which is mapped but not accessible to it: give the
    /// framebuffer's pages these flags.
    GrantFramebuffer { flags: PageTableFlags },
    /// The process touched a loaded section: map the section's mapping with these flags.
    MapSection { flags: PageTableFlags },
    /// The process touched what it may not: end it.
    ExitProcess,
}

/// The mapping of the framebuffer: where it starts, its size, and its flags.
#[derive(Clone, Copy, Debug)]
pub struct FramebufferMapping {
    pub addr: u64,
    pub size: usize,
    pub flags: PageTableFlags,
}

/// Decides a page fault with error code `error_code` at `addr`. `section_flags` are the flags of
/// the mapping of the loaded section that holds `addr`, if one does; `policy` is the faulting
/// process's access policy. A fault in user mode outside every section is allowed only in the
/// framebuffer, which the process is then given access to. In a section, a process of policy
/// `All` gets the section's mapping as it is; a `Normal` one gets it without write access,
/// and is ended if it was writing.
pub fn page_fault_action(
    error_code: u64,
    addr: u64,
    section_flags: Option<PageTableFlags>,
    framebuffer: FramebufferMapping,
    policy: AccessPolicy,
) -> (r: PageFaultAction)
    ensures
        error_code & USER_MODE == 0 ==> r == PageFaultAction::Panic,
        error_code & USER_MODE != 0 && section_flags is None ==> {
            if framebuffer.addr <= addr < framebuffer.addr + framebuffer.size {
                r matches PageFaultAction::GrantFramebuffer { flags } && flags@ == framebuffer.flags@
                    | USER_ACCESSIBLE_BIT
            } else {
                r == PageFaultAction::ExitProcess
            }
        },
        section_flags matches Some(f) ==> (error_code & USER_MODE != 0 ==> {
            match policy {
                AccessPolicy::All => r matches PageFaultAction::MapSection { flags } && flags@ == f@,
                AccessPolicy::Normal => if error_code & CAUSED_BY_WRITE != 0 {
                    r == PageFaultAction::ExitProcess
                } else {
                    r matches PageFaultAction::MapSection { flags } && flags@ == f@ & !WRITABLE_BIT
                },
            }
        }),
{
    if error_code & USER_MODE == 0 {
        return PageFaultAction::Panic;
    }
    let caused_by_write = error_code & CAUSED_BY_WRITE != 0;
    match section_flags {
        None => {
            let end = framebuffer.addr as u128 + framebuffer.size as u128;
            if framebuffer.addr <= addr && (addr as u128) < end {
                PageFaultAction::GrantFramebuffer {
                    flags: framebuffer.flags.union(PageTableFlags::user_accessible()),
                }
            } else {
                PageFaultAction::ExitProcess
            }
        },
        Some(flags) => match policy {
            AccessPolicy::All => PageFaultAction::MapSection { flags },
            AccessPolicy::Normal => {
                if caused_by_write {
                    PageFaultAction::ExitProcess
                } else {
                    PageFaultAction::MapSection {
                        flags: flags.intersection(PageTableFlags::writable().complement()),
                    }
                }
            },
        },
    }
}

/// Whether `opcode` is that of an instruction that uses an I/O port.
pub fn is_io_port_opcode(opcode: u8) -> (r: bool)
    ensures
        r == (exists|i: int| 0 <= i < 8 && IO_PORT_OPCODES@[i] == opcode),
{
    let mut i: usize = 0;
    while i < 8
        invariant
            i <= 8,
            forall|j: int| 0 <= j < i ==> IO_PORT_OPCODES@[j] != opcode,
        decreases 8 - i,
    {
        if IO_PORT_OPCODES[i] == opcode {
            return true;
        }
        i = i + 1;
    }
    false
}

/// What to do about a general protection fault at an instruction with `opcode`: a process that
/// used an I/O port without permission is ended (`true`); anything else stops the kernel.
pub fn general_protection_ends_process(opcode: u8) -> (r: bool)
    ensures
        r == (exists|i: int| 0 <= i < 8 && IO_PORT_OPCODES@[i] == opcode),
{
    is_io_port_opcode(opcode)
}

} // verus!
