use vstd::prelude::*;

verus! {

/// Why building the tree or answering a query failed.
#[derive(Debug, Clone, Copy, PartialEq, Eq, Structural)]
pub enum FsError {
    /// A line is neither a command, a directory entry, nor `<size> <name>`.
    MalformedLine,
    /// `cd ..` while the cursor is already at the root.
    AscendAboveRoot,
    /// `cd <name>` where the current directory has no such subdirectory.
    MissingDirectory,
    /// A subdirectory listed twice under the same directory.
    DuplicateDirectory,
    /// The tree holds less than the capacity, so nothing has to be deleted.
    CapacityNotExceeded,
}

} // verus!
