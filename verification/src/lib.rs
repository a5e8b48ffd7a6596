pub mod file_size;
pub mod glob;
pub mod list_files;
pub mod paths;
pub mod print;
pub mod text;
pub mod tree;

use vstd::prelude::*;

verus! {

/// Running totals for a whole census run: how many files and directories
/// were reported, and how many bytes they held.
pub struct FileStats {
    pub total_files: usize,
    pub total_dirs: usize,
    pub total_bytes: u64,
}

impl FileStats {
    pub fn new() -> (r: FileStats)
        ensures
            r.total_files == 0,
            r.total_dirs == 0,
            r.total_bytes == 0,
    {
        FileStats { total_files: 0, total_dirs: 0, total_bytes: 0 }
    }
}

} // verus!
