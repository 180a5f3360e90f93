//! Fixed layout constants of the address space.

use vstd::prelude::*;

verus! {

/// Size of one page of memory, in bytes.
pub const PAGE_SIZE: usize = 0x1000;

/// Size of the stack mapped for a user process, in bytes.
pub const USER_STACK_SIZE: usize = 0x2000;

/// Ceiling of the physical memory identity-mapped by the kernel space.
pub const MEMORY_END: usize = 0x8800_0000;

/// Virtual address of the trampoline: the topmost page of the address space,
/// mapped identically in every space and never tracked as a region.
pub const TRAMPOLINE: usize = usize::MAX - PAGE_SIZE + 1;

/// Virtual address of the per-process trap-context save area: the page
/// immediately below the trampoline.
pub const TRAP_CONTEXT: usize = TRAMPOLINE - PAGE_SIZE;

/// Virtual page number of the trampoline page.
pub open spec fn trampoline_vpn() -> int {
    TRAMPOLINE as int / PAGE_SIZE as int
}

/// Virtual page number of the trap-context page.
pub open spec fn trap_context_vpn() -> int {
    TRAP_CONTEXT as int / PAGE_SIZE as int
}

} // verus!
