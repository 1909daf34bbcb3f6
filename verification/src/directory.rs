//! The directory capability of a file.
//!
//! A file that names a directory can be asked for its entries; the entries
//! themselves live in a directory table, so every operation takes the table
//! alongside the file.

use crate::file::file_ref;
use crate::file::map_get;
use crate::file::DirectoryContent;
use crate::file::File;
use crate::file::InodeId;
use vstd::prelude::*;

verus! {

/// The directory capabilities of a value that may name a directory in a
/// directory table: test the tag, then read or edit the named directory's
/// entries. Using them on a value that names no directory is a caller
/// error.
pub trait DirectoryHandle: Sized {
    /// Whether this value names a directory.
    spec fn spec_is_dir(&self) -> bool;

    /// The directory table slot this value names.
    spec fn spec_dir_id(&self) -> int;

    /// Whether this value names a directory.
    fn is_dir(&self) -> (r: bool)
        ensures
            r == self.spec_is_dir(),
    ;

    /// Enters `file` under `name` in the named directory, replacing any
    /// entry that name already has.
    fn insert(&self, dirs: &mut Vec<DirectoryContent>, name: &str, file: File)
        requires
            self.spec_is_dir(),
            0 <= self.spec_dir_id() < old(dirs)@.len(),
            old(dirs)@[self.spec_dir_id()].wf(),
        ensures
            final(dirs)@.len() == old(dirs)@.len(),
            forall|i: int|
                0 <= i < old(dirs)@.len() && i != self.spec_dir_id() ==> final(dirs)@[i] == old(
                    dirs,
                )@[i],
            final(dirs)@[self.spec_dir_id()].wf(),
            final(dirs)@[self.spec_dir_id()].entry_map() == old(
                dirs,
            )@[self.spec_dir_id()].entry_map().insert(name@, file),
            forall|id: InodeId|
                #![trigger final(dirs)@[self.spec_dir_id()].data_refs(id)]
                final(dirs)@[self.spec_dir_id()].data_refs(id) + (match map_get(
                    old(dirs)@[self.spec_dir_id()].entry_map(),
                    name@,
                ) {
                    Some(v) => file_ref(v, id),
                    None => 0nat,
                }) == old(dirs)@[self.spec_dir_id()].data_refs(id) + file_ref(file, id),
    ;

    /// Removes the entry named `name` from the named directory; nothing
    /// happens where there is none.
    fn remove(&self, dirs: &mut Vec<DirectoryContent>, name: &str)
        requires
            self.spec_is_dir(),
            0 <= self.spec_dir_id() < old(dirs)@.len(),
            old(dirs)@[self.spec_dir_id()].wf(),
        ensures
            final(dirs)@.len() == old(dirs)@.len(),
            forall|i: int|
                0 <= i < old(dirs)@.len() && i != self.spec_dir_id() ==> final(dirs)@[i] == old(
                    dirs,
                )@[i],
            final(dirs)@[self.spec_dir_id()].wf(),
            final(dirs)@[self.spec_dir_id()].entry_map() == old(
                dirs,
            )@[self.spec_dir_id()].entry_map().remove(name@),
            forall|id: InodeId|
                #![trigger final(dirs)@[self.spec_dir_id()].data_refs(id)]
                final(dirs)@[self.spec_dir_id()].data_refs(id) + (match map_get(
                    old(dirs)@[self.spec_dir_id()].entry_map(),
                    name@,
                ) {
                    Some(v) => file_ref(v, id),
                    None => 0nat,
                }) == old(dirs)@[self.spec_dir_id()].data_refs(id),
    ;

    /// The file entered under `name` in the named directory, where one is:
    /// a copy of the stored file, sharing its referent.
    fn get(&self, dirs: &Vec<DirectoryContent>, name: &str) -> (r: Option<File>)
        requires
            self.spec_is_dir(),
            0 <= self.spec_dir_id() < dirs@.len(),
            dirs@[self.spec_dir_id()].wf(),
        ensures
            r == map_get(dirs@[self.spec_dir_id()].entry_map(), name@),
    ;
}

impl DirectoryHandle for File {
    open spec fn spec_is_dir(&self) -> bool {
        self.is_directory()
    }

    open spec fn spec_dir_id(&self) -> int {
        self.dir_id() as int
    }

    fn is_dir(&self) -> (r: bool) {
        match self {
            File::Directory(_) => true,
            _ => false,
        }
    }

    fn insert(&self, dirs: &mut Vec<DirectoryContent>, name: &str, file: File) {
        let d = self.get_dir_rc();
        let content = &mut dirs[d];
        content.insert(name, file);
    }

    fn remove(&self, dirs: &mut Vec<DirectoryContent>, name: &str) {
        let d = self.get_dir_rc();
        let content = &mut dirs[d];
        content.remove(name);
    }

    fn get(&self, dirs: &Vec<DirectoryContent>, name: &str) -> (r: Option<File>) {
        let d = self.get_dir_rc();
        let content = &dirs[d];
        content.get(name)
    }
}

} // verus!
