//! An in-memory, single-process, POSIX-flavored filesystem library.
//!
//! Files are byte stores backed by a paged inode (a singly- and a
//! doubly-indirect page table). Directory entries and open file handles
//! share inode lifetime through reference counting inside a [`Proc`],
//! which owns the descriptor table and the public `open`/`read`/`write`/
//! `seek`/`close`/`unlink` API.

use crate::counting::count_matching;
use crate::counting::lemma_count_all_zero;
use crate::counting::lemma_count_ge_one;
use crate::counting::lemma_count_le_len;
use crate::counting::lemma_count_update;
use crate::file::file_ref;
use crate::file::map_get;
use vstd::prelude::*;

mod bench;
mod counting;
mod directory;
mod file;
mod inode;
mod slab;

pub use bench::Benchmarker;
pub use directory::DirectoryHandle;
pub use file::DirId;
pub use file::DirectoryContent;
pub use file::File;
pub use file::FileHandle;
pub use file::InodeId;
pub use file::Whence;
pub use slab::SlabAllocator;
pub use slab::SlabBox;

pub use inode::read_ok;
pub use inode::size_after;
pub use inode::spec_read;
pub use inode::spec_write;
pub use inode::write_ok;
pub use inode::Inode;
pub use inode::Timespec;
pub use inode::create_tlist;
pub use inode::Page;
pub use inode::TList;
pub use inode::PAGE_SIZE;
pub use inode::LIST_SIZE;
pub use inode::MAX_FILE_SIZE;
pub use inode::N_PAGES;

verus! {

/// Descriptors are signed so that `open` can return the sentinels
/// `-1` (path named a directory) and `-2` (path absent, no `O_CREAT`).
pub type FileDescriptor = isize;

/// Open for reading only.
pub const O_RDONLY: u32 = 1;

/// Open for writing only.
pub const O_WRONLY: u32 = 2;

/// Open for reading and writing.
pub const O_RDWR: u32 = 4;

/// Do not block; accepted for interface completeness.
pub const O_NONBLOCK: u32 = 8;

/// Append on write; accepted for interface completeness.
pub const O_APPEND: u32 = 16;

/// Create the file where the path is not found; the one flag `open` acts
/// on.
pub const O_CREAT: u32 = 32;

/// Largest file descriptor; the free pool starts with `3 ..= MAX_FDS`,
/// reserving 0, 1 and 2 by convention.
pub const MAX_FDS: usize = 256;

/// An inode slot in a process's inode table: the inode together with the
/// number of files (directory entries and open handles) naming it.
struct InodeEntry {
    inode: Inode,
    refs: usize,
}

/// A process: a current directory, a descriptor table, a free-descriptor
/// pool, and the tables holding the directory contents and inodes that
/// `File` values refer to.
pub struct Proc {
    cwd: File,
    dirs: Vec<DirectoryContent>,
    inodes: Vec<Option<InodeEntry>>,
    free_inodes: Vec<InodeId>,
    fd_table: Vec<Option<FileHandle>>,
    fds: Vec<FileDescriptor>,
}

/// Whether a descriptor-table slot holds a handle open on inode `id`.
pub open spec fn handle_pred(id: InodeId) -> spec_fn(Option<FileHandle>) -> bool {
    |h: Option<FileHandle>|
        match h {
            Some(hh) => hh.spec_file() == File::DataFile(id),
            None => false,
        }
}

/// The contribution of one descriptor-table slot to the reference count of
/// inode `id`.
pub open spec fn handle_ref(h: Option<FileHandle>, id: InodeId) -> nat {
    if handle_pred(id)(h) {
        1
    } else {
        0
    }
}

/// How many slots of a descriptor table hold handles open on inode `id`.
pub open spec fn handle_refs(t: Seq<Option<FileHandle>>, id: InodeId) -> nat {
    count_matching(t, handle_pred(id))
}

/// Replacing one descriptor-table slot trades its contribution to every
/// inode's handle count for the new slot's contribution.
proof fn lemma_handle_refs_update(t: Seq<Option<FileHandle>>, idx: int, v: Option<FileHandle>)
    requires
        0 <= idx < t.len(),
    ensures
        forall|id: InodeId|
            #![trigger handle_refs(t.update(idx, v), id)]
            handle_refs(t.update(idx, v), id) + handle_ref(t[idx], id) == handle_refs(t, id)
                + handle_ref(v, id),
{
    assert forall|id: InodeId|
        handle_refs(t.update(idx, v), id) + handle_ref(t[idx], id) == handle_refs(t, id)
            + handle_ref(v, id) by {
        lemma_count_update(t, idx, v, handle_pred(id));
    }
}

/// Popping from a duplicate-free pool removes exactly the last element:
/// what remains holds everything else and not it.
proof fn lemma_pool_pop(s: Seq<FileDescriptor>)
    requires
        s.len() > 0,
        forall|j1: int, j2: int| 0 <= j1 < j2 < s.len() ==> s[j1] != s[j2],
    ensures
        !s.drop_last().contains(s.last()),
        forall|x: FileDescriptor|
            #![auto]
            x != s.last() ==> (s.contains(x) <==> s.drop_last().contains(x)),
{
    let t = s.drop_last();
    if t.contains(s.last()) {
        let j = choose|j: int| 0 <= j < t.len() && t[j] == s.last();
        assert(s[j] == s[s.len() - 1]);
        assert(false);
    }
    assert forall|x: FileDescriptor| x != s.last() && s.contains(x) implies t.contains(x) by {
        let j = choose|j: int| 0 <= j < s.len() && s[j] == x;
        assert(j != s.len() - 1);
        assert(t[j] == x);
    }
    assert forall|x: FileDescriptor| t.contains(x) implies s.contains(x) by {
        let j = choose|j: int| 0 <= j < t.len() && t[j] == x;
        assert(s[j] == x);
    }
}

/// The free-descriptor pool of a fresh process: `3 ..= MAX_FDS` in order.
pub open spec fn initial_pool() -> Seq<FileDescriptor> {
    Seq::new((MAX_FDS - 2) as nat, |j: int| (3 + j) as FileDescriptor)
}

impl Proc {
    /// The current directory's mapping from name to file.
    pub closed spec fn file_map(&self) -> Map<Seq<char>, File> {
        self.dirs@[0].entry_map()
    }

    /// The handle the descriptor table holds at `fd`, if any.
    pub closed spec fn handle_at(&self, fd: int) -> Option<FileHandle> {
        if 0 <= fd < self.fd_table@.len() {
            self.fd_table@[fd]
        } else {
            None
        }
    }

    /// The free-descriptor pool; descriptors are popped from its end.
    pub closed spec fn free_pool(&self) -> Seq<FileDescriptor> {
        self.fds@
    }

    /// Whether inode `id` exists: some file still references it.
    pub closed spec fn inode_live(&self, id: InodeId) -> bool {
        id < self.inodes@.len() && self.inodes@[id as int] is Some
    }

    /// The paged contents of inode `id`.
    pub closed spec fn inode_contents(&self, id: InodeId) -> Map<int, Seq<u8>> {
        if id < self.inodes@.len() {
            match self.inodes@[id as int] {
                Some(e) => e.inode.contents(),
                None => Map::empty(),
            }
        } else {
            Map::empty()
        }
    }

    /// The logical size of inode `id`.
    pub closed spec fn inode_size(&self, id: InodeId) -> nat {
        if id < self.inodes@.len() {
            match self.inodes@[id as int] {
                Some(e) => e.inode.spec_size(),
                None => 0,
            }
        } else {
            0
        }
    }

    /// How many files reference inode `id`: its directory entry, if still
    /// linked, plus its open handles.
    pub closed spec fn inode_refs(&self, id: InodeId) -> nat {
        handle_refs(self.fd_table@, id) + self.dirs@[0].data_refs(id)
    }

    /// The process invariant. The descriptor table and the free pool
    /// partition `3 ..= MAX_FDS`; every handle and every directory entry
    /// names a live inode; and each inode slot's stored reference count
    /// equals the number of files naming it, so a slot is reclaimed exactly
    /// when the last reference goes.
    pub closed spec fn wf(&self) -> bool {
        &&& self.dirs@.len() == 1
        &&& self.cwd == File::Directory(0)
        &&& self.dirs@[0].wf()
        &&& self.fd_table@.len() == MAX_FDS + 1
        &&& forall|fd: int| 0 <= fd < 3 ==> self.fd_table@[fd] is None
        &&& forall|fd: int|
            0 <= fd <= MAX_FDS ==> (#[trigger] self.fd_table@[fd] matches Some(h) ==> {
                &&& h.spec_file().is_data_file()
                &&& self.inode_live(h.spec_file().inode_id())
            })
        &&& forall|k: Seq<char>|
            #[trigger] self.file_map().contains_key(k) ==> (self.file_map()[k] matches File::DataFile(id)
                ==> self.inode_live(id))
        &&& forall|j: int| 0 <= j < self.fds@.len() ==> 3 <= #[trigger] self.fds@[j] <= MAX_FDS
        &&& forall|j1: int, j2: int|
            0 <= j1 < j2 < self.fds@.len() ==> self.fds@[j1] != self.fds@[j2]
        &&& forall|fd: int|
            3 <= fd <= MAX_FDS ==> ((#[trigger] self.fd_table@[fd]) is Some <==> !self.fds@.contains(
                fd as FileDescriptor,
            ))
        &&& forall|id: int|
            0 <= id < self.inodes@.len() ==> (#[trigger] self.inodes@[id] matches Some(e) ==> {
                &&& e.inode.wf()
                &&& e.refs == self.inode_refs(id as InodeId)
                &&& e.refs >= 1
            })
        &&& forall|id: int|
            0 <= id < self.inodes@.len() && self.inodes@[id] is None ==> self.inode_refs(
                id as InodeId,
            ) == 0
        &&& forall|id: InodeId| id >= self.inodes@.len() ==> #[trigger] self.inode_refs(id) == 0
        &&& forall|id: InodeId| #[trigger] self.dirs@[0].data_refs(id) <= 1
        &&& forall|j: int|
            0 <= j < self.free_inodes@.len() ==> (#[trigger] self.free_inodes@[j])
                < self.inodes@.len() && self.inodes@[self.free_inodes@[j] as int] is None
        &&& forall|j1: int, j2: int|
            0 <= j1 < j2 < self.free_inodes@.len() ==> self.free_inodes@[j1]
                != self.free_inodes@[j2]
    }

    /// A fresh process: an empty current directory, no open descriptors,
    /// no inodes, and the free-descriptor pool filled with `3 ..= MAX_FDS`
    /// in order, so descriptors are handed out highest first.
    pub fn new() -> (p: Proc)
        ensures
            p.wf(),
            p.file_map() == Map::<Seq<char>, File>::empty(),
            forall|fd: int| p.handle_at(fd) is None,
            p.free_pool() == initial_pool(),
            forall|id: InodeId| !p.inode_live(id),
    {
        let mut dirs: Vec<DirectoryContent> = Vec::new();
        let cwd = File::new_dir(&mut dirs, None);
        let mut fd_table: Vec<Option<FileHandle>> = Vec::new();
        let mut k: usize = 0;
        while k <= MAX_FDS
            invariant
                k <= MAX_FDS + 1,
                fd_table@.len() == k,
                forall|t: int| 0 <= t < k ==> fd_table@[t] is None,
            decreases MAX_FDS + 1 - k,
        {
            fd_table.push(None);
            k = k + 1;
        }
        let mut fds: Vec<FileDescriptor> = Vec::new();
        let mut d: usize = 3;
        while d <= MAX_FDS
            invariant
                3 <= d <= MAX_FDS + 1,
                fds@.len() == d - 3,
                forall|j: int| 0 <= j < d - 3 ==> #[trigger] fds@[j] == 3 + j,
            decreases MAX_FDS + 1 - d,
        {
            fds.push(d as isize);
            d = d + 1;
        }
        let p = Proc {
            cwd,
            dirs,
            inodes: Vec::new(),
            free_inodes: Vec::new(),
            fd_table,
            fds,
        };
        proof {
            assert forall|id: InodeId| #[trigger] p.inode_refs(id) == 0 by {
                lemma_count_all_zero(p.fd_table@, handle_pred(id));
            }
            assert forall|fd: int|
                3 <= fd <= MAX_FDS implies ((#[trigger] p.fd_table@[fd]) is Some
                <==> !p.fds@.contains(fd as FileDescriptor)) by {
                assert(p.fds@[fd - 3] == fd as FileDescriptor);
            }
            assert(p.free_pool() =~= initial_pool());
        }
        p
    }

    /// Unwraps a popped descriptor. Popping from an empty pool means the
    /// process ran out of descriptors, a caller error.
    fn extract_fd(fd_opt: &Option<FileDescriptor>) -> (fd: FileDescriptor)
        requires
            fd_opt is Some,
        ensures
            fd == fd_opt.unwrap(),
    {
        match fd_opt {
            Some(fd) => *fd,
            None => unreached(),
        }
    }

    /// Opens `path` in the current directory. A found data file gets a
    /// fresh handle under a descriptor popped from the free pool. A found
    /// directory answers `-1`; an absent path answers `-2`, unless `flags`
    /// holds `O_CREAT`: then a fresh empty inode is created, entered under
    /// `path`, and opened like a found file. Where a handle will be
    /// installed the pool must not be empty: running out of descriptors is
    /// fatal.
    #[verifier::rlimit(100)]
    pub fn open(&mut self, path: &str, flags: u32) -> (fd: FileDescriptor)
        requires
            old(self).wf(),
            (match map_get(old(self).file_map(), path@) {
                Some(f) => f.is_data_file(),
                None => flags & O_CREAT != 0,
            }) ==> old(self).free_pool().len() > 0,
        ensures
            final(self).wf(),
            match map_get(old(self).file_map(), path@) {
                Some(f) => {
                    if f.is_data_file() {
                        &&& 3 <= fd <= MAX_FDS
                        &&& fd == old(self).free_pool().last()
                        &&& final(self).free_pool() == old(self).free_pool().drop_last()
                        &&& (final(self).handle_at(fd as int) matches Some(h) && h.spec_file() == f
                            && h.spec_seek() == 0)
                        &&& forall|x: int|
                            x != fd ==> final(self).handle_at(x) == old(self).handle_at(x)
                        &&& final(self).file_map() == old(self).file_map()
                        &&& final(self).inode_refs(f.inode_id()) == old(self).inode_refs(
                            f.inode_id(),
                        ) + 1
                        &&& forall|id2: InodeId|
                            id2 != f.inode_id() ==> final(self).inode_refs(id2) == old(self).inode_refs(id2)
                        &&& forall|id2: InodeId|
                            final(self).inode_live(id2) == old(self).inode_live(id2) && final(self).inode_contents(id2) == old(self).inode_contents(id2) && final(self).inode_size(id2) == old(self).inode_size(id2)
                    } else if f.is_directory() {
                        fd == -1 && *final(self) == *old(self)
                    } else {
                        fd == -2 && *final(self) == *old(self)
                    }
                },
                None => {
                    if flags & O_CREAT != 0 {
                        &&& 3 <= fd <= MAX_FDS
                        &&& fd == old(self).free_pool().last()
                        &&& final(self).free_pool() == old(self).free_pool().drop_last()
                        &&& (final(self).handle_at(fd as int) matches Some(h) && {
                            let id = h.spec_file().inode_id();
                            &&& h.spec_file().is_data_file()
                            &&& h.spec_seek() == 0
                            &&& !old(self).inode_live(id)
                            &&& final(self).inode_live(id)
                            &&& final(self).inode_contents(id) == Map::<int, Seq<u8>>::empty()
                            &&& final(self).inode_size(id) == 0
                            &&& final(self).inode_refs(id) == 2
                            &&& final(self).file_map() == old(self).file_map().insert(
                                path@,
                                File::DataFile(id),
                            )
                            &&& forall|id2: InodeId|
                                id2 != id ==> final(self).inode_live(id2) == old(self).inode_live(
                                    id2,
                                ) && final(self).inode_contents(id2) == old(self).inode_contents(
                                    id2,
                                ) && final(self).inode_size(id2) == old(self).inode_size(id2)
                        })
                        &&& forall|x: int|
                            x != fd ==> final(self).handle_at(x) == old(self).handle_at(x)
                    } else {
                        fd == -2 && *final(self) == *old(self)
                    }
                },
            },
    {
        let ghost pre = *self;
        let lookup = self.cwd.get(&self.dirs, path);
        match lookup {
            Some(f) => match f {
                File::DataFile(id) => {
                    proof {
                        lemma_pool_pop(pre.fds@);
                        assert(pre.fds@[pre.fds@.len() - 1] == pre.fds@.last());
                        lemma_count_le_len(pre.fd_table@, handle_pred(id));
                    }
                    let fd_opt = self.fds.pop();
                    let fd = Proc::extract_fd(&fd_opt);
                    let handle = FileHandle::new(f);
                    let idx = fd as usize;
                    proof {
                        assert(pre.fds@.contains(fd));
                        assert(pre.fd_table@[fd as int] is None);
                    }
                    self.fd_table[idx] = Some(handle);
                    match &mut self.inodes[id] {
                        Some(e) => {
                            e.refs = e.refs + 1;
                        },
                        None => unreached(),
                    }
                    proof {
                        lemma_handle_refs_update(pre.fd_table@, fd as int, Some(handle));
                        assert(self.fd_table@ == pre.fd_table@.update(fd as int, Some(handle)));
                        assert(handle_ref(Some(handle), id) == 1);
                        assert forall|id2: InodeId| id2 != id implies self.inode_refs(id2)
                            == pre.inode_refs(id2) by {
                            assert(handle_ref(Some(handle), id2) == 0);
                        }
                        assert(self.inode_refs(id) == pre.inode_refs(id) + 1);
                        vstd::std_specs::vec::axiom_spec_len(&self.inodes);
                        assert forall|fd2: int|
                            3 <= fd2 <= MAX_FDS implies ((#[trigger] self.fd_table@[fd2]) is Some
                            <==> !self.fds@.contains(fd2 as FileDescriptor)) by {
                            if fd2 != fd {
                                assert(self.fd_table@[fd2] == pre.fd_table@[fd2]);
                            }
                        }
                        assert forall|id2: int|
                            0 <= id2 < self.inodes@.len() implies (
                        #[trigger] self.inodes@[id2] matches Some(e) ==> {
                            &&& e.inode.wf()
                            &&& e.refs == self.inode_refs(id2 as InodeId)
                            &&& e.refs >= 1
                        }) by {
                            if id2 != id {
                                assert(self.inodes@[id2] == pre.inodes@[id2]);
                                assert(self.inode_refs(id2 as InodeId) == pre.inode_refs(
                                    id2 as InodeId,
                                ));
                            }
                        }
                        assert forall|id2: int|
                            0 <= id2 < self.inodes@.len() && self.inodes@[id2] is None implies self.inode_refs(
                            id2 as InodeId,
                        ) == 0 by {
                            assert(self.inodes@[id as int] is Some);
                            assert(id2 != id);
                            assert(self.inodes@[id2] == pre.inodes@[id2]);
                            assert(self.inode_refs(id2 as InodeId) == pre.inode_refs(
                                id2 as InodeId,
                            ));
                        }
                        assert forall|id2: InodeId|
                            id2 >= self.inodes@.len() implies #[trigger] self.inode_refs(id2)
                            == 0 by {
                            assert(self.inode_refs(id2) == pre.inode_refs(id2));
                        }
                        assert(self.wf());
                    }
                    fd
                },
                File::Directory(_) => -1,
                File::EmptyFile => -2,
            },
            None => {
                if flags & O_CREAT != 0 {
                    let inode = Inode::new();
                    let id: InodeId = if self.free_inodes.len() > 0 {
                        match self.free_inodes.pop() {
                            Some(i) => i,
                            None => unreached(),
                        }
                    } else {
                        let id = self.inodes.len();
                        self.inodes.push(None);
                        id
                    };
                    proof {
                        assert(id < self.inodes@.len() && self.inodes@[id as int] is None);
                        assert(pre.inode_refs(id) == 0);
                        assert(handle_refs(pre.fd_table@, id) == 0);
                        assert(pre.dirs@[0].data_refs(id) == 0);
                    }
                    self.inodes[id] = Some(InodeEntry { inode, refs: 2 });
                    let file = File::new_data_file(id);
                    self.cwd.insert(&mut self.dirs, path, file);
                    proof {
                        lemma_pool_pop(pre.fds@);
                        assert(pre.fds@[pre.fds@.len() - 1] == pre.fds@.last());
                    }
                    let fd_opt = self.fds.pop();
                    let fd = Proc::extract_fd(&fd_opt);
                    let handle = FileHandle::new(file);
                    let idx = fd as usize;
                    proof {
                        assert(pre.fds@.contains(fd));
                        assert(pre.fd_table@[fd as int] is None);
                    }
                    self.fd_table[idx] = Some(handle);
                    proof {
                        lemma_handle_refs_update(pre.fd_table@, fd as int, Some(handle));
                        assert(self.fd_table@ == pre.fd_table@.update(fd as int, Some(handle)));
                        assert(handle_ref(Some(handle), id) == 1);
                        assert forall|id2: InodeId| id2 != id implies handle_refs(
                            self.fd_table@,
                            id2,
                        ) == handle_refs(pre.fd_table@, id2) by {
                            assert(handle_ref(Some(handle), id2) == 0);
                        }
                        assert forall|id2: InodeId| id2 != id implies self.dirs@[0].data_refs(id2)
                            == pre.dirs@[0].data_refs(id2) by {
                            assert(file_ref(File::DataFile(id), id2) == 0);
                        }
                        assert(self.dirs@[0].data_refs(id) == 1);
                        assert(self.inode_refs(id) == 2);
                        assert forall|id2: InodeId| id2 != id implies self.inode_refs(id2)
                            == pre.inode_refs(id2) by {}
                        assert(self.file_map() == pre.file_map().insert(path@, File::DataFile(id)));
                        vstd::std_specs::vec::axiom_spec_len(&self.inodes);
                        assert forall|k: Seq<char>|
                            #[trigger] self.file_map().contains_key(k) implies (
                        self.file_map()[k] matches File::DataFile(id2) ==> self.inode_live(
                            id2,
                        )) by {
                            if k != path@ {
                                assert(self.file_map()[k] == pre.file_map()[k]);
                                assert(pre.inode_live(self.file_map()[k]->DataFile_0)
                                    ==> self.inode_live(self.file_map()[k]->DataFile_0));
                            }
                        }
                        assert forall|fd2: int|
                            0 <= fd2 <= MAX_FDS implies (
                        #[trigger] self.fd_table@[fd2] matches Some(h) ==> {
                            &&& h.spec_file().is_data_file()
                            &&& self.inode_live(h.spec_file().inode_id())
                        }) by {
                            if fd2 != fd {
                                assert(self.fd_table@[fd2] == pre.fd_table@[fd2]);
                            }
                        }
                        assert forall|fd2: int|
                            3 <= fd2 <= MAX_FDS implies ((#[trigger] self.fd_table@[fd2]) is Some
                            <==> !self.fds@.contains(fd2 as FileDescriptor)) by {
                            if fd2 != fd {
                                assert(self.fd_table@[fd2] == pre.fd_table@[fd2]);
                            }
                        }
                        assert forall|id2: int|
                            0 <= id2 < self.inodes@.len() implies (
                        #[trigger] self.inodes@[id2] matches Some(e) ==> {
                            &&& e.inode.wf()
                            &&& e.refs == self.inode_refs(id2 as InodeId)
                            &&& e.refs >= 1
                        }) by {
                            if id2 != id {
                                assert(self.inodes@[id2] == pre.inodes@[id2 as int]
                                    || self.inodes@[id2] is None);
                                if self.inodes@[id2] is Some {
                                    assert(self.inode_refs(id2 as InodeId) == pre.inode_refs(
                                        id2 as InodeId,
                                    ));
                                }
                            }
                        }
                        assert forall|id2: int|
                            0 <= id2 < self.inodes@.len() && self.inodes@[id2] is None implies self.inode_refs(
                            id2 as InodeId,
                        ) == 0 by {
                            assert(id2 != id);
                            assert(self.inode_refs(id2 as InodeId) == pre.inode_refs(
                                id2 as InodeId,
                            ));
                        }
                        assert forall|id2: InodeId|
                            id2 >= self.inodes@.len() implies #[trigger] self.inode_refs(id2)
                            == 0 by {
                            assert(id2 != id);
                            assert(self.inode_refs(id2) == pre.inode_refs(id2));
                            assert(pre.inode_refs(id2) == 0);
                        }
                        assert(self.wf());
                    }
                    fd
                } else {
                    -2
                }
            },
        }
    }

    /// Reads `dst.len()` bytes through the handle at `fd` and advances its
    /// cursor past them. Passing an unknown descriptor is a caller error,
    /// and so is reading through a page that was never written.
    #[verifier::rlimit(50)]
    pub fn read(&mut self, fd: FileDescriptor, dst: &mut Vec<u8>) -> (n: usize)
        requires
            old(self).wf(),
            old(self).handle_at(fd as int) matches Some(h) && read_ok(
                old(self).inode_contents(h.spec_file().inode_id()),
                h.spec_seek() as int,
                old(dst)@.len() as int,
            ),
        ensures
            final(self).wf(),
            n == old(dst)@.len(),
            old(self).handle_at(fd as int) matches Some(h) && {
                &&& final(dst)@ == spec_read(
                    old(self).inode_contents(h.spec_file().inode_id()),
                    h.spec_seek() as int,
                    old(dst)@.len() as int,
                )
                &&& (final(self).handle_at(fd as int) matches Some(h2) && h2.spec_file()
                    == h.spec_file() && h2.spec_seek() == h.spec_seek() + n)
            },
            forall|x: int| x != fd ==> final(self).handle_at(x) == old(self).handle_at(x),
            final(self).file_map() == old(self).file_map(),
            final(self).free_pool() == old(self).free_pool(),
            forall|id2: InodeId|
                #![auto]
                final(self).inode_live(id2) == old(self).inode_live(id2) && final(self).inode_contents(id2) == old(self).inode_contents(id2) && final(self).inode_size(
                    id2,
                ) == old(self).inode_size(id2) && final(self).inode_refs(id2) == old(self).inode_refs(id2),
    {
        let ghost pre = *self;
        let idx = fd as usize;
        let handle = match &mut self.fd_table[idx] {
            Some(h) => h,
            None => unreached(),
        };
        let f = handle.get_file();
        let id = f.get_inode_rc();
        let ino = match &self.inodes[id] {
            Some(e) => &e.inode,
            None => unreached(),
        };
        let n = handle.read(ino, dst);
        proof {
            self.lemma_same_file_handle_update(pre, fd as int);
        }
        n
    }

    /// Writes all of `src` through the handle at `fd` and advances its
    /// cursor past the written bytes. Passing an unknown descriptor is a
    /// caller error; so is writing past the largest file size.
    #[verifier::rlimit(50)]
    pub fn write(&mut self, fd: FileDescriptor, src: &Vec<u8>) -> (n: usize)
        requires
            old(self).wf(),
            old(self).handle_at(fd as int) matches Some(h) && write_ok(
                h.spec_seek() as int,
                src@.len() as int,
            ),
        ensures
            final(self).wf(),
            n == src@.len(),
            old(self).handle_at(fd as int) matches Some(h) && {
                let id = h.spec_file().inode_id();
                &&& final(self).inode_contents(id) == spec_write(
                    old(self).inode_contents(id),
                    h.spec_seek() as int,
                    src@,
                )
                &&& final(self).inode_size(id) == size_after(
                    old(self).inode_size(id),
                    h.spec_seek() as int,
                    src@.len() as int,
                )
                &&& final(self).inode_live(id)
                &&& (final(self).handle_at(fd as int) matches Some(h2) && h2.spec_file()
                    == h.spec_file() && h2.spec_seek() == h.spec_seek() + n)
                &&& forall|id2: InodeId|
                    #![auto]
                    id2 != id ==> final(self).inode_contents(id2) == old(self).inode_contents(id2)
                        && final(self).inode_size(id2) == old(self).inode_size(id2)
            },
            forall|x: int| x != fd ==> final(self).handle_at(x) == old(self).handle_at(x),
            final(self).file_map() == old(self).file_map(),
            final(self).free_pool() == old(self).free_pool(),
            forall|id2: InodeId|
                #![auto]
                final(self).inode_live(id2) == old(self).inode_live(id2) && final(self).inode_refs(
                    id2,
                ) == old(self).inode_refs(id2),
    {
        let ghost pre = *self;
        let idx = fd as usize;
        let handle = match &mut self.fd_table[idx] {
            Some(h) => h,
            None => unreached(),
        };
        let f = handle.get_file();
        let id = f.get_inode_rc();
        let ino = match &mut self.inodes[id] {
            Some(e) => &mut e.inode,
            None => unreached(),
        };
        let n = handle.write(ino, src);
        proof {
            self.lemma_same_file_handle_update(pre, fd as int);
        }
        n
    }

    /// Moves the cursor of the handle at `fd` to `o` bytes from the start
    /// of the file, the current cursor, or the end of the file, and returns
    /// the new cursor. An unknown descriptor, or a move that would land
    /// before byte zero, is a caller error.
    #[verifier::rlimit(50)]
    pub fn seek(&mut self, fd: FileDescriptor, o: isize, whence: Whence) -> (n: usize)
        requires
            old(self).wf(),
            old(self).handle_at(fd as int) matches Some(h) && (match whence {
                Whence::SeekSet => o >= 0,
                Whence::SeekCur => 0 <= h.spec_seek() + o <= usize::MAX,
                Whence::SeekEnd => 0 <= old(self).inode_size(h.spec_file().inode_id()) + o
                    <= usize::MAX,
            }),
        ensures
            final(self).wf(),
            old(self).handle_at(fd as int) matches Some(h) && {
                let target = (match whence {
                    Whence::SeekSet => o as int,
                    Whence::SeekCur => h.spec_seek() + o,
                    Whence::SeekEnd => old(self).inode_size(h.spec_file().inode_id()) + o,
                });
                &&& n == target
                &&& (final(self).handle_at(fd as int) matches Some(h2) && h2.spec_file()
                    == h.spec_file() && h2.spec_seek() == target)
            },
            forall|x: int| x != fd ==> final(self).handle_at(x) == old(self).handle_at(x),
            final(self).file_map() == old(self).file_map(),
            final(self).free_pool() == old(self).free_pool(),
            forall|id2: InodeId|
                #![auto]
                final(self).inode_live(id2) == old(self).inode_live(id2) && final(self).inode_contents(id2) == old(self).inode_contents(id2) && final(self).inode_size(
                    id2,
                ) == old(self).inode_size(id2) && final(self).inode_refs(id2) == old(self).inode_refs(id2),
    {
        let ghost pre = *self;
        let idx = fd as usize;
        let handle = match &mut self.fd_table[idx] {
            Some(h) => h,
            None => unreached(),
        };
        let f = handle.get_file();
        let id = f.get_inode_rc();
        let ino = match &self.inodes[id] {
            Some(e) => &e.inode,
            None => unreached(),
        };
        let n = handle.seek(ino, o, whence);
        proof {
            self.lemma_same_file_handle_update(pre, fd as int);
        }
        n
    }

    /// After an update that replaced the handle at `fd` by one open on the
    /// same file and left every other field alone, the process is still
    /// well formed and no reference count moved.
    proof fn lemma_same_file_handle_update(&self, pre: Proc, fd: int)
        requires
            pre.wf(),
            0 <= fd < pre.fd_table@.len(),
            pre.fd_table@[fd] is Some,
            self.fd_table@ == pre.fd_table@.update(fd, self.fd_table@[fd]),
            self.fd_table@[fd] matches Some(h2) && h2.spec_file()
                == pre.fd_table@[fd].unwrap().spec_file(),
            self.dirs == pre.dirs,
            self.cwd == pre.cwd,
            self.fds == pre.fds,
            self.free_inodes == pre.free_inodes,
            self.inodes@.len() == pre.inodes@.len(),
            forall|id2: int|
                0 <= id2 < pre.inodes@.len() ==> ((#[trigger] self.inodes@[id2]) is Some
                    <==> pre.inodes@[id2] is Some),
            forall|id2: int|
                0 <= id2 < pre.inodes@.len() ==> (#[trigger] self.inodes@[id2] matches Some(e)
                    ==> pre.inodes@[id2] matches Some(e0) && e.refs == e0.refs && e.inode.wf()),
        ensures
            self.wf(),
            forall|id2: InodeId| #![auto] self.inode_refs(id2) == pre.inode_refs(id2),
    {
        lemma_handle_refs_update(pre.fd_table@, fd, self.fd_table@[fd]);
        assert forall|id2: InodeId| #![auto] self.inode_refs(id2) == pre.inode_refs(id2) by {
            assert(handle_ref(pre.fd_table@[fd], id2) == handle_ref(self.fd_table@[fd], id2));
        }
        assert forall|fd2: int|
            3 <= fd2 <= MAX_FDS implies ((#[trigger] self.fd_table@[fd2]) is Some
            <==> !self.fds@.contains(fd2 as FileDescriptor)) by {
            if fd2 != fd {
                assert(self.fd_table@[fd2] == pre.fd_table@[fd2]);
            }
        }
        assert forall|fd2: int|
            0 <= fd2 <= MAX_FDS implies (#[trigger] self.fd_table@[fd2] matches Some(h) ==> {
            &&& h.spec_file().is_data_file()
            &&& self.inode_live(h.spec_file().inode_id())
        }) by {
            if fd2 != fd {
                assert(self.fd_table@[fd2] == pre.fd_table@[fd2]);
            }
        }
        assert(self.wf());
    }

    /// Removes the handle at `fd` and returns the descriptor to the free
    /// pool. The handle's reference to its inode goes with it; where it was
    /// the last one, the inode is reclaimed. Passing an unknown descriptor
    /// is a caller error.
    #[verifier::rlimit(50)]
    pub fn close(&mut self, fd: FileDescriptor)
        requires
            old(self).wf(),
            old(self).handle_at(fd as int) is Some,
        ensures
            final(self).wf(),
            final(self).handle_at(fd as int) is None,
            forall|x: int| x != fd ==> final(self).handle_at(x) == old(self).handle_at(x),
            final(self).free_pool() == old(self).free_pool().push(fd),
            final(self).file_map() == old(self).file_map(),
            old(self).handle_at(fd as int) matches Some(h) && {
                let id = h.spec_file().inode_id();
                &&& final(self).inode_refs(id) == old(self).inode_refs(id) - 1
                &&& (old(self).inode_refs(id) == 1 ==> !final(self).inode_live(id))
                &&& (old(self).inode_refs(id) > 1 ==> final(self).inode_live(id) && final(self).inode_contents(id) == old(self).inode_contents(id) && final(self).inode_size(id)
                    == old(self).inode_size(id))
                &&& forall|id2: InodeId|
                    #![auto]
                    id2 != id ==> final(self).inode_live(id2) == old(self).inode_live(id2) && final(self).inode_contents(id2) == old(self).inode_contents(id2) && final(self).inode_size(id2) == old(self).inode_size(id2) && final(self).inode_refs(id2)
                        == old(self).inode_refs(id2)
            },
    {
        let ghost pre = *self;
        let idx = fd as usize;
        let f = match &self.fd_table[idx] {
            Some(h) => h.get_file(),
            None => unreached(),
        };
        let id = f.get_inode_rc();
        self.fd_table[idx] = None;
        self.fds.push(fd);
        let last = match &self.inodes[id] {
            Some(e) => e.refs == 1,
            None => unreached(),
        };
        if last {
            self.inodes[id] = None;
            self.free_inodes.push(id);
        } else {
            match &mut self.inodes[id] {
                Some(e) => {
                    e.refs = e.refs - 1;
                },
                None => unreached(),
            }
        }
        proof {
            vstd::std_specs::vec::axiom_spec_len(&self.inodes);
            lemma_handle_refs_update(pre.fd_table@, fd as int, None);
            assert(self.fd_table@ == pre.fd_table@.update(fd as int, None));
            assert(handle_ref(pre.fd_table@[fd as int], id) == 1);
            assert(self.inode_refs(id) == pre.inode_refs(id) - 1);
            assert forall|id2: InodeId| id2 != id implies self.inode_refs(id2) == pre.inode_refs(
                id2,
            ) by {
                assert(handle_ref(pre.fd_table@[fd as int], id2) == 0);
            }
            assert forall|fd2: int|
                3 <= fd2 <= MAX_FDS implies ((#[trigger] self.fd_table@[fd2]) is Some
                <==> !self.fds@.contains(fd2 as FileDescriptor)) by {
                if fd2 == fd {
                    assert(self.fds@[self.fds@.len() - 1] == fd);
                } else {
                    assert(self.fd_table@[fd2] == pre.fd_table@[fd2]);
                    assert forall|j: int| 0 <= j < self.fds@.len() implies (self.fds@[j] == fd2
                        as FileDescriptor <==> j < pre.fds@.len() && pre.fds@[j] == fd2
                        as FileDescriptor) by {
                        if j == pre.fds@.len() {
                            assert(self.fds@[j] == fd);
                        }
                    }
                    if pre.fds@.contains(fd2 as FileDescriptor) {
                        let j = choose|j: int|
                            0 <= j < pre.fds@.len() && pre.fds@[j] == fd2 as FileDescriptor;
                        assert(self.fds@[j] == fd2 as FileDescriptor);
                    }
                    if self.fds@.contains(fd2 as FileDescriptor) {
                        let j = choose|j: int|
                            0 <= j < self.fds@.len() && self.fds@[j] == fd2 as FileDescriptor;
                        assert(pre.fds@.contains(fd2 as FileDescriptor));
                    }
                }
            }
            assert forall|id2: int|
                0 <= id2 < self.inodes@.len() implies (#[trigger] self.inodes@[id2] matches Some(e)
                ==> {
                &&& e.inode.wf()
                &&& e.refs == self.inode_refs(id2 as InodeId)
                &&& e.refs >= 1
            }) by {
                if id2 != id {
                    assert(self.inodes@[id2] == pre.inodes@[id2]);
                    assert(self.inode_refs(id2 as InodeId) == pre.inode_refs(id2 as InodeId));
                }
            }
            assert forall|id2: int|
                0 <= id2 < self.inodes@.len() && self.inodes@[id2] is None implies self.inode_refs(
                id2 as InodeId,
            ) == 0 by {
                if id2 != id {
                    assert(self.inodes@[id2] == pre.inodes@[id2]);
                    assert(self.inode_refs(id2 as InodeId) == pre.inode_refs(id2 as InodeId));
                }
            }
            assert forall|id2: InodeId|
                id2 >= self.inodes@.len() implies #[trigger] self.inode_refs(id2) == 0 by {
                assert(id2 != id);
                assert(self.inode_refs(id2) == pre.inode_refs(id2));
            }
            assert forall|fd2: int|
                0 <= fd2 <= MAX_FDS implies (#[trigger] self.fd_table@[fd2] matches Some(h) ==> {
                &&& h.spec_file().is_data_file()
                &&& self.inode_live(h.spec_file().inode_id())
            }) by {
                if fd2 != fd && self.fd_table@[fd2] is Some {
                    assert(self.fd_table@[fd2] == pre.fd_table@[fd2]);
                    let hid = self.fd_table@[fd2].unwrap().spec_file().inode_id();
                    if hid == id {
                        crate::counting::lemma_count_ge_two(
                            pre.fd_table@,
                            fd as int,
                            fd2,
                            handle_pred(id),
                        );
                    }
                }
            }
            assert forall|k: Seq<char>|
                #[trigger] self.file_map().contains_key(k) implies (
            self.file_map()[k] matches File::DataFile(id2) ==> self.inode_live(id2)) by {
                assert(self.file_map()[k] == pre.file_map()[k]);
                if self.file_map()[k] matches File::DataFile(id2) && id2 == id {
                    pre.dirs@[0].lemma_entry_counted(k, id);
                }
            }
            assert(self.wf());
        }
    }

    /// Removes the directory entry at `path`; nothing happens where there
    /// is none. The entry's reference to its inode goes with it; where it
    /// was the last one, the inode is reclaimed. Handles stay open: an
    /// unlinked file lives on while any handle still references it.
    #[verifier::rlimit(50)]
    pub fn unlink(&mut self, path: &str)
        requires
            old(self).wf(),
        ensures
            final(self).wf(),
            final(self).file_map() == old(self).file_map().remove(path@),
            forall|x: int| final(self).handle_at(x) == old(self).handle_at(x),
            final(self).free_pool() == old(self).free_pool(),
            match map_get(old(self).file_map(), path@) {
                Some(f) => (f matches File::DataFile(id) ==> {
                    &&& final(self).inode_refs(id) == old(self).inode_refs(id) - 1
                    &&& (old(self).inode_refs(id) == 1 ==> !final(self).inode_live(id))
                    &&& (old(self).inode_refs(id) > 1 ==> final(self).inode_live(id) && final(self).inode_contents(id) == old(self).inode_contents(id) && final(self).inode_size(
                        id,
                    ) == old(self).inode_size(id))
                    &&& forall|id2: InodeId|
                        #![auto]
                        id2 != id ==> final(self).inode_live(id2) == old(self).inode_live(id2)
                            && final(self).inode_contents(id2) == old(self).inode_contents(id2)
                            && final(self).inode_size(id2) == old(self).inode_size(id2) && final(self).inode_refs(id2) == old(self).inode_refs(id2)
                }),
                None => forall|id2: InodeId|
                    #![auto]
                    final(self).inode_live(id2) == old(self).inode_live(id2) && final(self).inode_contents(id2) == old(self).inode_contents(id2) && final(self).inode_size(id2) == old(self).inode_size(id2) && final(self).inode_refs(id2)
                        == old(self).inode_refs(id2),
            },
    {
        let ghost pre = *self;
        let prev = self.cwd.get(&self.dirs, path);
        match prev {
            Some(f) => {
                self.cwd.remove(&mut self.dirs, path);
                match f {
                    File::DataFile(id) => {
                        proof {
                            assert(pre.inode_live(id));
                            assert(pre.dirs@[0].data_refs(id) == 1) by {
                                pre.dirs@[0].lemma_entry_counted(path@, id);
                            }
                            assert(self.dirs@[0].data_refs(id) == 0);
                        }
                        let last = match &self.inodes[id] {
                            Some(e) => e.refs == 1,
                            None => unreached(),
                        };
                        if last {
                            self.inodes[id] = None;
                            self.free_inodes.push(id);
                        } else {
                            match &mut self.inodes[id] {
                                Some(e) => {
                                    e.refs = e.refs - 1;
                                },
                                None => unreached(),
                            }
                        }
                        proof {
                            vstd::std_specs::vec::axiom_spec_len(&self.inodes);
                            assert(self.inode_refs(id) == pre.inode_refs(id) - 1);
                            assert forall|id2: InodeId|
                                id2 != id implies self.inode_refs(id2) == pre.inode_refs(id2) by {
                                assert(file_ref(File::DataFile(id), id2) == 0);
                            }
                            if pre.inode_refs(id) == 1 {
                                assert(handle_refs(pre.fd_table@, id) == 0);
                            } else {
                                assert(handle_refs(pre.fd_table@, id) >= 1);
                            }
                            assert forall|fd2: int|
                                0 <= fd2 <= MAX_FDS implies (
                            #[trigger] self.fd_table@[fd2] matches Some(h) ==> {
                                &&& h.spec_file().is_data_file()
                                &&& self.inode_live(h.spec_file().inode_id())
                            }) by {
                                if self.fd_table@[fd2] is Some {
                                    let hid = self.fd_table@[fd2].unwrap().spec_file().inode_id();
                                    if hid == id {
                                        lemma_count_ge_one(pre.fd_table@, fd2, handle_pred(id));
                                    }
                                }
                            }
                            assert forall|k: Seq<char>|
                                #[trigger] self.file_map().contains_key(k) implies (
                            self.file_map()[k] matches File::DataFile(id2) ==> self.inode_live(
                                id2,
                            )) by {
                                assert(self.file_map()[k] == pre.file_map()[k]);
                                if self.file_map()[k] matches File::DataFile(id2) && id2 == id {
                                    pre.dirs@[0].lemma_two_entries_counted(path@, k, id);
                                }
                            }
                            assert forall|id2: int|
                                0 <= id2 < self.inodes@.len() implies (
                            #[trigger] self.inodes@[id2] matches Some(e) ==> {
                                &&& e.inode.wf()
                                &&& e.refs == self.inode_refs(id2 as InodeId)
                                &&& e.refs >= 1
                            }) by {
                                if id2 != id {
                                    assert(self.inodes@[id2] == pre.inodes@[id2]);
                                    assert(self.inode_refs(id2 as InodeId) == pre.inode_refs(
                                        id2 as InodeId,
                                    ));
                                }
                            }
                            assert forall|id2: int|
                                0 <= id2 < self.inodes@.len() && self.inodes@[id2]
                                is None implies self.inode_refs(id2 as InodeId) == 0 by {
                                if id2 != id {
                                    assert(self.inodes@[id2] == pre.inodes@[id2]);
                                    assert(self.inode_refs(id2 as InodeId) == pre.inode_refs(
                                        id2 as InodeId,
                                    ));
                                }
                            }
                            assert forall|id2: InodeId|
                                id2 >= self.inodes@.len() implies #[trigger] self.inode_refs(id2)
                                == 0 by {
                                assert(id2 != id);
                                assert(self.inode_refs(id2) == pre.inode_refs(id2));
                            }
                            assert(self.wf());
                        }
                    },
                    _ => {
                        proof {
                            assert forall|id2: InodeId|
                                #![trigger self.inode_refs(id2)]
                                self.inode_refs(id2) == pre.inode_refs(id2) by {
                                assert(file_ref(f, id2) == 0);
                            }
                            assert forall|id2: InodeId|
                                #![trigger pre.inode_refs(id2)]
                                self.inode_refs(id2) == pre.inode_refs(id2) by {
                                assert(file_ref(f, id2) == 0);
                            }
                            assert forall|k: Seq<char>|
                                #[trigger] self.file_map().contains_key(k) implies (
                            self.file_map()[k] matches File::DataFile(id2) ==> self.inode_live(
                                id2,
                            )) by {
                                assert(self.file_map()[k] == pre.file_map()[k]);
                            }
                            assert(self.wf());
                        }
                    },
                }
            },
            None => {
                proof {
                    assert(pre.file_map().remove(path@) =~= pre.file_map());
                }
            },
        }
    }
}

/// Unlinking is idempotent: removing a name a second time changes nothing,
/// and the removed name no longer resolves.
pub proof fn lemma_unlink_idempotent(m: Map<Seq<char>, File>, k: Seq<char>)
    ensures
        m.remove(k).remove(k) == m.remove(k),
        map_get(m.remove(k), k) is None,
{
    assert(m.remove(k).remove(k) =~= m.remove(k));
}

/// Descriptor pool conservation: whenever every descriptor has been closed
/// again, the free pool holds exactly the initial descriptors, each once.
pub proof fn lemma_pool_conservation(p: &Proc)
    requires
        p.wf(),
        forall|fd: int| p.handle_at(fd) is None,
    ensures
        p.free_pool().to_multiset() == initial_pool().to_multiset(),
{
    let s = p.free_pool();
    let t = initial_pool();
    assert(s.no_duplicates());
    assert(t.no_duplicates());
    s.lemma_multiset_has_no_duplicates();
    t.lemma_multiset_has_no_duplicates();
    s.to_multiset_ensures();
    t.to_multiset_ensures();
    assert forall|x: FileDescriptor| s.contains(x) <==> t.contains(x) by {
        if 3 <= x <= MAX_FDS {
            assert(t[x - 3] == x);
            assert(t.contains(x));
            assert(p.handle_at(x as int) is None);
            assert(p.fd_table@[x as int] is None);
            assert(s.contains(x));
        } else {
            if s.contains(x) {
                let j = choose|j: int| 0 <= j < s.len() && s[j] == x;
                assert(3 <= s[j] <= MAX_FDS);
                assert(false);
            }
            if t.contains(x) {
                let j = choose|j: int| 0 <= j < t.len() && t[j] == x;
                assert(false);
            }
        }
    }
    assert forall|x: FileDescriptor| s.to_multiset().count(x) == t.to_multiset().count(x) by {
        if s.contains(x) {
            assert(s.to_multiset().count(x) == 1 && t.to_multiset().count(x) == 1);
        } else {
            assert(s.to_multiset().count(x) == 0 && t.to_multiset().count(x) == 0);
        }
    }
    assert(s.to_multiset() =~= t.to_multiset());
}

/// The descriptor table and the free pool partition the descriptors: one
/// of `3 ..= MAX_FDS` is open exactly when it is not free, each free
/// descriptor appears once, and nothing outside that range is ever open.
pub proof fn lemma_descriptor_partition(p: &Proc)
    requires
        p.wf(),
    ensures
        forall|fd: int|
            3 <= fd <= MAX_FDS ==> (p.handle_at(fd) is Some <==> !p.free_pool().contains(
                fd as FileDescriptor,
            )),
        forall|fd: int| !(3 <= fd <= MAX_FDS) ==> p.handle_at(fd) is None,
        forall|j: int| 0 <= j < p.free_pool().len() ==> 3 <= #[trigger] p.free_pool()[j] <= MAX_FDS,
        forall|j1: int, j2: int|
            0 <= j1 < j2 < p.free_pool().len() ==> p.free_pool()[j1] != p.free_pool()[j2],
{
}

/// An inode exists exactly while some file — a directory entry or an open
/// handle — still references it: reclamation is by reference counting
/// alone.
pub proof fn lemma_live_iff_referenced(p: &Proc, id: InodeId)
    requires
        p.wf(),
    ensures
        p.inode_live(id) <==> p.inode_refs(id) >= 1,
{
}

/// Handle persistence: an open handle keeps its inode alive with at least
/// one reference, so no unlinking of directory entries can reclaim it.
pub proof fn lemma_handle_keeps_inode(p: &Proc, fd: int)
    requires
        p.wf(),
        p.handle_at(fd) is Some,
    ensures
        p.handle_at(fd) matches Some(h) && {
            &&& h.spec_file().is_data_file()
            &&& p.inode_live(h.spec_file().inode_id())
            &&& p.inode_refs(h.spec_file().inode_id()) >= 1
        },
{
    let h = p.handle_at(fd).unwrap();
    let id = h.spec_file().inode_id();
    assert(h.spec_file() == File::DataFile(id));
    lemma_count_ge_one(p.fd_table@, fd, handle_pred(id));
}

} // verus!
