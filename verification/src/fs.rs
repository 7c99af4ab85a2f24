//! File systems.

use vstd::prelude::*;

verus! {

/// The paths of a listing that succeeded, or none for one that failed.
pub open spec fn listed_paths(r: Result<Vec<String>, &'static str>) -> Option<Seq<Seq<char>>> {
    match r {
        Ok(paths) => Some(paths@.map_values(|p: String| p@)),
        Err(_) => None,
    }
}

/// The bytes of a read that succeeded, or none for one that failed.
pub open spec fn read_bytes(r: Result<Vec<u8>, &'static str>) -> Option<Seq<u8>> {
    match r {
        Ok(bytes) => Some(bytes@),
        Err(_) => None,
    }
}

/// A file system: list the paths under a directory, and read a file.
pub trait FileSystem {
    /// Whether listing the directory `dir_path` may give `paths`, or fail when it is none.
    spec fn listing(&self, dir_path: Seq<char>, paths: Option<Seq<Seq<char>>>) -> bool;

    /// Whether reading the file at `path` may give `bytes`, or fail when it is none.
    spec fn reading(&self, path: Seq<char>, bytes: Option<Seq<u8>>) -> bool;

    fn list(&self, dir_path: &str) -> (r: Result<Vec<String>, &'static str>)
        ensures
            self.listing(dir_path@, listed_paths(r)),
    ;

    fn read(&mut self, path: &str) -> (r: Result<Vec<u8>, &'static str>)
        ensures
            old(self).reading(path@, read_bytes(r)),
    ;
}

/// A file or directory found in a directory.
#[derive(Clone, Debug)]
pub struct DirectoryEntry {
    pub index: usize,
    pub name: String,
    pub size: usize,
}

impl View for DirectoryEntry {
    /// The first cluster, the name and the size.
    type V = (usize, Seq<char>, usize);

    open spec fn view(&self) -> (usize, Seq<char>, usize) {
        (self.index, self.name@, self.size)
    }
}

} // verus!
