//! What a scan sees of the file system: directories, and for each the
//! entries that a listing of it yields.

use crate::bytes::bytes_eq;
use vstd::prelude::*;

verus! {

/// What reading an entry's metadata, and where that shows no regular file
/// its link target, has brought.
#[derive(Debug, Clone)]
pub enum EntryKind {
    /// Nothing is known: the metadata was not read, or could not be.
    Unknown,
    /// The metadata shows a regular file.
    File,
    /// The metadata shows no regular file, and the entry is a symbolic link
    /// whose target could be read: the target as the link stores it.
    Link(Vec<u8>),
    /// The metadata shows no regular file, and no link target could be read:
    /// a directory, a FIFO, a device.
    Other,
}

/// One entry of a directory listing.
#[derive(Debug, Clone)]
pub struct DirEntry {
    /// The bare name of the entry: the last component of its path.
    pub name: Vec<u8>,
    pub kind: EntryKind,
}

/// A directory that could be listed.
#[derive(Debug, Clone)]
pub struct Directory {
    /// The path by which the directory was listed.
    pub path: Vec<u8>,
    /// The entries in the order in which the listing yielded them.
    pub entries: Vec<DirEntry>,
}

/// The directories that can be listed. A path that none of them carries
/// stands for a directory that is missing, is unreadable or is no directory.
/// Where two carry the same path, the first counts.
#[derive(Debug, Clone)]
pub struct Tree {
    pub dirs: Vec<Directory>,
}

impl Tree {
    /// Some directory of the tree carries `path`.
    pub open spec fn has_dir(&self, path: Seq<u8>) -> bool {
        exists|i: int| 0 <= i < self.dirs.len() && (#[trigger] self.dirs[i]).path@ == path
    }

    /// The directory at position `i` is the first that carries `path`.
    pub open spec fn first_at(&self, path: Seq<u8>, i: int) -> bool {
        &&& 0 <= i < self.dirs.len()
        &&& self.dirs[i].path@ == path
        &&& forall|j: int| 0 <= j < i ==> (#[trigger] self.dirs[j]).path@ != path
    }

    /// What a listing of `path` yields: the entries of the first directory
    /// that carries the path, and nothing where there is none.
    pub open spec fn listing(&self, path: Seq<u8>) -> Seq<DirEntry> {
        if self.has_dir(path) {
            self.dirs[choose|i: int| self.first_at(path, i)].entries@
        } else {
            Seq::empty()
        }
    }

    /// A tree without directories.
    pub fn new() -> (out: Self)
        ensures
            out.dirs@.len() == 0,
            forall|path: Seq<u8>| !out.has_dir(path),
    {
        Tree { dirs: Vec::new() }
    }

    /// Lists the directory `path`: its entries, or `None` where the tree has
    /// no such directory.
    pub fn read_dir(&self, path: &[u8]) -> (out: Option<&[DirEntry]>)
        ensures
            out is Some <==> self.has_dir(path@),
            out matches Some(entries) ==> entries@ == self.listing(path@),
    {
        let mut i: usize = 0;
        while i < self.dirs.len()
            invariant
                i <= self.dirs.len(),
                forall|j: int| 0 <= j < i ==> (#[trigger] self.dirs[j]).path@ != path@,
            decreases self.dirs.len() - i,
        {
            if bytes_eq(self.dirs[i].path.as_slice(), path) {
                assert(self.first_at(path@, i as int));
                return Some(self.dirs[i].entries.as_slice());
            }
            i += 1;
        }
        None
    }
}

} // verus!
