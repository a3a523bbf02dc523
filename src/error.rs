use vstd::prelude::*;

verus! {

/// Errors associated with dumping and restoring guest memory.
#[derive(Debug, Clone, Copy, PartialEq, Eq, Structural)]
pub enum Error {
    /// Cannot access a file, or a file is too short for what it backs.
    FileHandle,
    /// Cannot create the memory collection.
    CreateMemory,
    /// Cannot create a memory region.
    CreateRegion,
    /// Cannot dump memory.
    WriteMemory,
    /// Cannot register memory for user page fault handling.
    UserPageFault,
    /// An overlay or working-set range cannot be mapped.
    OverlayRegions,
    /// The memory state cannot be restored: it must hold exactly one
    /// region, stored at stream offset zero.
    InvalidState,
}

} // verus!
