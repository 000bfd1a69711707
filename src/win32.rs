//! The Windows region enumerator's decisions: which entries of a
//! `VirtualQueryEx` walk are readable regions, with what permission, and
//! where the walk goes next. The queries themselves are made by the caller.
use vstd::prelude::*;

use crate::maps::MemoryRegionEntry;
use crate::memory::MemoryPermission;

verus! {

/// `MEM_COMMIT`: the pages are committed.
pub const MEM_COMMIT: u32 = 0x1000;

/// `PAGE_READONLY`.
pub const PAGE_READONLY: u32 = 0x02;

/// `PAGE_READWRITE`.
pub const PAGE_READWRITE: u32 = 0x04;

/// `PAGE_WRITECOPY`.
pub const PAGE_WRITECOPY: u32 = 0x08;

/// `PAGE_EXECUTE_READ`.
pub const PAGE_EXECUTE_READ: u32 = 0x20;

/// `PAGE_EXECUTE_READWRITE`.
pub const PAGE_EXECUTE_READWRITE: u32 = 0x40;

/// `PAGE_EXECUTE_WRITECOPY`.
pub const PAGE_EXECUTE_WRITECOPY: u32 = 0x80;

/// The fields of one `MEMORY_BASIC_INFORMATION` that the walk reads.
#[derive(Clone, Copy, Debug, PartialEq, Eq, Structural)]
pub struct MemoryBasicInformation {
    pub base_address: usize,
    pub region_size: usize,
    pub state: u32,
    pub protect: u32,
}

/// The permission that a page protection gives: read-only for
/// `PAGE_READONLY` and `PAGE_EXECUTE_READ`, read-write for the four writable
/// protections, none readable for any other.
pub open spec fn protect_permission(protect: u32) -> Option<MemoryPermission> {
    if protect == PAGE_READONLY || protect == PAGE_EXECUTE_READ {
        Some(MemoryPermission::READONLY)
    } else if protect == PAGE_READWRITE || protect == PAGE_EXECUTE_READWRITE || protect
        == PAGE_WRITECOPY || protect == PAGE_EXECUTE_WRITECOPY {
        Some(MemoryPermission::READWRITE)
    } else {
        None
    }
}

/// The permission that the page protection `protect` gives, if it is
/// readable.
pub fn windows_permission(protect: u32) -> (r: Option<MemoryPermission>)
    ensures
        r == protect_permission(protect),
{
    if protect == PAGE_READONLY || protect == PAGE_EXECUTE_READ {
        Some(MemoryPermission::READONLY)
    } else if protect == PAGE_READWRITE || protect == PAGE_EXECUTE_READWRITE || protect
        == PAGE_WRITECOPY || protect == PAGE_EXECUTE_WRITECOPY {
        Some(MemoryPermission::READWRITE)
    } else {
        None
    }
}

/// The region that a query answer stands for, labelled with the owning
/// module's name: only committed memory with a readable protection, and only
/// where the range fits the address space.
pub fn region_entry(info: &MemoryBasicInformation, module: &[u8]) -> (r: Option<MemoryRegionEntry>)
    ensures
        match r {
            Some(e) => {
                &&& info.state == MEM_COMMIT
                &&& protect_permission(info.protect) == Some(e.permission)
                &&& e.start == info.base_address
                &&& e.end == info.base_address + info.region_size
                &&& e.info@ == module@
            },
            None => info.state != MEM_COMMIT || protect_permission(info.protect) is None
                || info.base_address + info.region_size > usize::MAX,
        },
{
    if info.state != MEM_COMMIT || info.region_size > usize::MAX - info.base_address {
        return None;
    }
    match windows_permission(info.protect) {
        Some(permission) => Some(
            MemoryRegionEntry {
                start: info.base_address,
                end: info.base_address + info.region_size,
                permission,
                info: vstd::slice::slice_to_vec(module),
            },
        ),
        None => None,
    }
}

/// Where the walk queries next after `info`: the end of the range it
/// describes. `None` ends the walk: an empty range would repeat itself, and
/// a range that runs past the last address leaves nothing after it.
pub fn next_query_address(info: &MemoryBasicInformation) -> (r: Option<usize>)
    ensures
        match r {
            Some(a) => info.region_size > 0 && a == info.base_address + info.region_size,
            None => info.region_size == 0 || info.base_address + info.region_size > usize::MAX,
        },
{
    if info.region_size == 0 || info.region_size > usize::MAX - info.base_address {
        None
    } else {
        Some(info.base_address + info.region_size)
    }
}

} // verus!
