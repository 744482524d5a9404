//! A PLT/GOT hooking engine for ELF shared objects: scan a process's memory
//! mappings, resolve a symbol to its GOT slots through the dynamic linkage
//! metadata, and patch those slots on copied pages so the patch can be
//! rolled back or flattened onto the original mapping.

pub mod bytes;
pub mod elf;
pub mod engine;
pub mod maps;
pub mod space;

pub use engine::{
    commit_hook, invalidate_backup, register_hook, register_hook_with_offset, CommitError,
    HookEngine, HookIntent, HookRecord, HookState, InvalidateError, RegisterError,
};
pub use maps::{MapInfo, ScanError};
pub use space::{AddressSpace, Region};

use vstd::prelude::*;

verus! {

/// Size of one page of process memory, in bytes.
pub const PAGE_SIZE: usize = 4096;

/// Whether `off` lies on a page boundary.
pub open spec fn page_aligned(off: int) -> bool {
    off % (PAGE_SIZE as int) == 0
}

/// Checks the page alignment that offset windows must satisfy.
pub fn is_page_aligned(off: usize) -> (r: bool)
    ensures
        r == page_aligned(off as int),
{
    off % PAGE_SIZE == 0
}

} // verus!
