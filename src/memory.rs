//! The target's address space as the scanner sees it: regions with their
//! permissions and kinds, and the handle through which another process's
//! memory is read and written.
use vstd::prelude::*;

verus! {

/// A process identifier.
pub type PID = i64;

/// What the scanner may do with a region's bytes.
#[derive(Clone, Copy, Debug, PartialEq, Eq, Structural)]
pub enum MemoryPermission {
    READONLY,
    READWRITE,
    NONE,
}

/// What a region holds: the program's own image, a stack, a heap, or
/// something else.
#[derive(Clone, Copy, Debug, PartialEq, Eq, Structural)]
pub enum MemoryKind {
    STATIC,
    STACK,
    HEAP,
    UNKNOWN,
}

/// The half-open address range `[start, end)` of the target, with its
/// permission and kind.
#[derive(Clone, Copy, Debug, PartialEq, Eq, Structural)]
pub struct MemoryRegion {
    pub start: usize,
    pub end: usize,
    pub permission: MemoryPermission,
    pub kind: MemoryKind,
}

impl MemoryRegion {
    /// Whether the `w` bytes from address `a` lie inside this region.
    pub open spec fn holds(self, a: int, w: int) -> bool {
        self.start <= a && a + w <= self.end
    }
}

/// Whether the regions come in ascending order of address and do not
/// overlap, each with its start at or below its end.
pub open spec fn regions_ordered(regions: Seq<MemoryRegion>) -> bool {
    &&& forall|i: int| 0 <= i < regions.len() ==> (#[trigger] regions[i]).start <= regions[i].end
    &&& forall|i: int, j: int|
        0 <= i < j < regions.len() ==> (#[trigger] regions[i]).end <= (#[trigger] regions[j]).start
}

/// A handle on another process, tied to one PID for its whole life.
///
/// Implementations release their operating-system resources exactly once,
/// when the handle is dropped. Transfers are all-or-nothing: a read returns
/// every byte asked for or an error. The engine does not rely on that: it
/// checks the length of what a read returns and treats any other outcome as
/// a failed read.
pub trait Process: Sized {
    /// The PID this handle is tied to.
    spec fn spec_pid(&self) -> PID;

    /// The short name of the target's executable.
    spec fn spec_name(&self) -> String;

    /// Opens the process `pid`, or says why it cannot be opened; a handle
    /// that it returns is tied to `pid`.
    fn open(pid: PID) -> (r: Result<Self, String>)
        ensures
            r is Ok ==> r->Ok_0.spec_pid() == pid,
    ;

    /// The PID this handle is tied to.
    fn pid(&self) -> (r: PID)
        ensures
            r == self.spec_pid(),
    ;

    /// The short name of the target's executable.
    fn name(&self) -> (r: String)
        ensures
            r@ == self.spec_name()@,
    ;

    /// Stops the target cooperatively; advisory, reads do not need it.
    fn attach(&self) -> Result<(), String>;

    /// Lets a stopped target run again.
    fn detach(&self) -> Result<(), String>;

    /// The `len` bytes of the target's memory from address `offset`.
    fn read_memory(&self, offset: usize, len: usize) -> Result<Vec<u8>, String>;

    /// Writes `bytes` to the target's memory from address `offset`.
    fn write_memory(&self, offset: usize, bytes: &[u8]) -> Result<(), String>;
}

} // verus!
