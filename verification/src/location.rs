//! A `Location` maps one contiguous slice of a piece onto one file:
//! `piece[start..end]` lives at `file[offset .. offset + (end - start)]`.
use vstd::prelude::*;

use crate::info::Info;

verus! {

/// One contiguous slice of a piece mapped onto one file of the torrent.
#[derive(Debug)]
pub struct Location {
    /// Index into the torrent's file table.
    pub file: usize,
    /// Logical length of that file.
    pub file_len: u64,
    /// Byte offset into the file.
    pub offset: u64,
    /// Start of the slice within the piece buffer.
    pub start: usize,
    /// End of the slice within the piece buffer.
    pub end: usize,
    /// The file should be pre-allocated in full if the filesystem supports it.
    pub allocate: bool,
    /// Path of the file, relative to the torrent's directory.
    pub path: Vec<u8>,
}

impl Location {
    /// The slice is well-formed and fits inside the file.
    pub open spec fn wf(self) -> bool {
        &&& self.start <= self.end
        &&& self.offset + (self.end - self.start) <= self.file_len
    }

    /// The location agrees with `info`'s file table.
    pub open spec fn valid_for(self, info: Info) -> bool {
        &&& self.wf()
        &&& self.file < info.files.len()
        &&& self.file_len == info.files[self.file as int].length
        &&& self.path@ == info.files[self.file as int].path@
    }

    /// Length of the slice, in bytes.
    pub open spec fn len(self) -> int {
        self.end - self.start
    }

    pub fn new(
        file: usize,
        file_len: u64,
        offset: u64,
        start: u64,
        end: u64,
        info: &Info,
        allocate: bool,
    ) -> (r: Location)
        requires
            file < info.files.len(),
            start <= end <= usize::MAX,
            offset + (end - start) <= file_len,
        ensures
            r.file == file,
            r.file_len == file_len,
            r.offset == offset,
            r.start == start,
            r.end == end,
            r.allocate == allocate,
            r.path@ == info.files[file as int].path@,
            r.wf(),
    {
        Location {
            file,
            file_len,
            offset,
            start: start as usize,
            end: end as usize,
            allocate,
            path: info.files[file].path.clone(),
        }
    }

    /// A slice shorter than a full 16 KiB block is the final sub-block
    /// of this file's share of the piece: the file is flushed after it.
    pub fn needs_flush(&self) -> (r: bool)
        requires
            self.wf(),
        ensures
            r == (self.end - self.start != 16384),
    {
        self.end - self.start != 16384
    }

    /// Path of the file this location falls in, relative to the
    /// torrent's directory.
    pub fn path(&self) -> (r: &Vec<u8>)
        ensures
            r@ == self.path@,
    {
        &self.path
    }
}

} // verus!
