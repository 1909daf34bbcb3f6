//! Files, directory contents and open-file handles.
//!
//! A `File` is a thin wrapper around inodes and directories whose whole
//! point is a layer of indirection: file handles and directory entries name
//! the underlying inode or directory content through it, so that an entry
//! and any number of open handles share one referent.

use crate::counting::count_matching;
use crate::counting::lemma_count_ge_one;
use crate::counting::lemma_count_ge_two;
use crate::counting::lemma_count_push;
use crate::counting::lemma_count_remove;
use crate::counting::lemma_count_update;
use crate::inode::read_ok;
use crate::inode::size_after;
use crate::inode::spec_read;
use crate::inode::spec_write;
use crate::inode::write_ok;
use crate::inode::Inode;
use crate::inode::N_PAGES;
use vstd::prelude::*;

verus! {

/// Names an inode slot in the owning process's inode table.
pub type InodeId = usize;

/// Names a directory content slot in the owning process's directory table.
pub type DirId = usize;

/// A shared reference to a file's substance: a data file names an inode, a
/// directory names a directory content, and an empty file names nothing.
/// Copying a `File` never copies the referent, and two copies are equal
/// exactly when they name the same slot.
#[derive(Clone, Copy, PartialEq, Eq, Structural, Debug)]
pub enum File {
    DataFile(InodeId),
    Directory(DirId),
    EmptyFile,
}

/// Where a seek starts from: the beginning of the file, the current cursor,
/// or the end of the file.
#[derive(Clone, Copy)]
pub enum Whence {
    SeekSet,
    SeekCur,
    SeekEnd,
}

/// Open-file state: a data file plus a seek cursor in bytes.
#[derive(Clone)]
pub struct FileHandle {
    file: File,
    seek: usize,
}

/// A directory's contents: a mapping from name to file, kept as an
/// association list whose keys are distinct.
#[derive(Clone)]
pub struct DirectoryContent {
    entries: Vec<(String, File)>,
}

/// Looks a key up in a name-to-file map: the entry where one exists.
pub open spec fn map_get(m: Map<Seq<char>, File>, k: Seq<char>) -> Option<File> {
    if m.contains_key(k) {
        Some(m[k])
    } else {
        None
    }
}

/// The contribution of one file value to the reference count of inode `id`.
pub open spec fn file_ref(f: File, id: InodeId) -> nat {
    if f == File::DataFile(id) {
        1
    } else {
        0
    }
}

/// The name-to-file map an association list denotes; a later entry for the
/// same name wins, though well-formed lists never hold two.
pub open spec fn entries_map_of(s: Seq<(String, File)>) -> Map<Seq<char>, File>
    decreases s.len(),
{
    if s.len() == 0 {
        Map::empty()
    } else {
        entries_map_of(s.drop_last()).insert(s.last().0@, s.last().1)
    }
}

/// All names of an association list are distinct.
pub open spec fn keys_distinct(s: Seq<(String, File)>) -> bool {
    forall|i: int, j: int| 0 <= i < j < s.len() ==> s[i].0@ != s[j].0@
}

/// The denoted map holds a name exactly when some entry carries it.
proof fn lemma_entries_contains(s: Seq<(String, File)>, k: Seq<char>)
    ensures
        entries_map_of(s).contains_key(k) <==> exists|i: int| 0 <= i < s.len() && s[i].0@ == k,
    decreases s.len(),
{
    if s.len() > 0 {
        lemma_entries_contains(s.drop_last(), k);
        if s.last().0@ == k {
            assert(s[s.len() - 1].0@ == k);
        } else if entries_map_of(s).contains_key(k) {
            let i = choose|i: int| 0 <= i < s.drop_last().len() && s.drop_last()[i].0@ == k;
            assert(s[i].0@ == k);
        } else {
            assert forall|i: int| 0 <= i < s.len() implies s[i].0@ != k by {
                if i < s.len() - 1 {
                    assert(s.drop_last()[i].0@ == s[i].0@);
                }
            }
        }
    }
}

/// With distinct names, the denoted map sends an entry's name to its file.
proof fn lemma_entries_get(s: Seq<(String, File)>, i: int)
    requires
        keys_distinct(s),
        0 <= i < s.len(),
    ensures
        entries_map_of(s).contains_key(s[i].0@),
        entries_map_of(s)[s[i].0@] == s[i].1,
    decreases s.len(),
{
    if i == s.len() - 1 {
    } else {
        assert(s.drop_last()[i] == s[i]);
        lemma_entries_get(s.drop_last(), i);
        assert(s.last().0@ != s[i].0@);
    }
}

/// Replacing the entry at `i` by one carrying the same name updates the
/// denoted map at that name alone.
proof fn lemma_entries_update(s: Seq<(String, File)>, i: int, e: (String, File))
    requires
        keys_distinct(s),
        0 <= i < s.len(),
        e.0@ == s[i].0@,
    ensures
        entries_map_of(s.update(i, e)) == entries_map_of(s).insert(e.0@, e.1),
        keys_distinct(s.update(i, e)),
    decreases s.len(),
{
    let t = s.update(i, e);
    assert forall|a: int, b: int| 0 <= a < b < t.len() implies t[a].0@ != t[b].0@ by {
        assert(s[a].0@ != s[b].0@);
    }
    if i == s.len() - 1 {
        assert(t.drop_last() =~= s.drop_last());
        assert(entries_map_of(t) == entries_map_of(s.drop_last()).insert(e.0@, e.1));
        assert(entries_map_of(s.drop_last()).insert(s.last().0@, s.last().1).insert(e.0@, e.1)
            =~= entries_map_of(s.drop_last()).insert(e.0@, e.1));
    } else {
        assert(t.drop_last() =~= s.drop_last().update(i, e));
        assert(s.drop_last()[i] == s[i]);
        lemma_entries_update(s.drop_last(), i, e);
        assert(t.last() == s.last());
        assert(s.last().0@ != e.0@);
        assert(entries_map_of(s.drop_last()).insert(e.0@, e.1).insert(s.last().0@, s.last().1)
            =~= entries_map_of(s.drop_last()).insert(s.last().0@, s.last().1).insert(e.0@, e.1));
    }
}

/// Removing the entry at `i` removes its name from the denoted map.
proof fn lemma_entries_remove(s: Seq<(String, File)>, i: int)
    requires
        keys_distinct(s),
        0 <= i < s.len(),
    ensures
        entries_map_of(s.remove(i)) == entries_map_of(s).remove(s[i].0@),
        keys_distinct(s.remove(i)),
    decreases s.len(),
{
    let t = s.remove(i);
    assert forall|a: int, b: int| 0 <= a < b < t.len() implies t[a].0@ != t[b].0@ by {
        let sa = if a < i {
            a
        } else {
            a + 1
        };
        let sb = if b < i {
            b
        } else {
            b + 1
        };
        assert(t[a] == s[sa] && t[b] == s[sb]);
        assert(s[sa].0@ != s[sb].0@);
    }
    if i == s.len() - 1 {
        assert(t =~= s.drop_last());
        lemma_entries_contains(s.drop_last(), s[i].0@);
        assert forall|j: int| 0 <= j < s.drop_last().len() implies s.drop_last()[j].0@
            != s[i].0@ by {
            assert(s[j].0@ != s[i].0@);
        }
        assert(!entries_map_of(s.drop_last()).contains_key(s[i].0@));
        assert(entries_map_of(s).remove(s[i].0@) =~= entries_map_of(s.drop_last()));
    } else {
        assert(t.drop_last() =~= s.drop_last().remove(i));
        assert(s.drop_last()[i] == s[i]);
        lemma_entries_remove(s.drop_last(), i);
        assert(t.last() == s.last());
        assert(s.last().0@ != s[i].0@);
        assert(entries_map_of(s.drop_last()).remove(s[i].0@).insert(s.last().0@, s.last().1)
            =~= entries_map_of(s.drop_last()).insert(s.last().0@, s.last().1).remove(s[i].0@));
    }
}

impl File {
    /// Whether this file names a directory.
    pub open spec fn is_directory(&self) -> bool {
        self matches File::Directory(_)
    }

    /// Whether this file names an inode.
    pub open spec fn is_data_file(&self) -> bool {
        self matches File::DataFile(_)
    }

    /// The directory this file names.
    pub open spec fn dir_id(&self) -> DirId
        recommends
            self.is_directory(),
    {
        match self {
            File::Directory(d) => *d,
            _ => arbitrary(),
        }
    }

    /// The inode this file names.
    pub open spec fn inode_id(&self) -> InodeId
        recommends
            self.is_data_file(),
    {
        match self {
            File::DataFile(i) => *i,
            _ => arbitrary(),
        }
    }

    /// Creates a fresh empty directory in the directory table and returns
    /// the file naming it. The parent is accepted for interface symmetry;
    /// no dot entries are installed.
    pub fn new_dir(dirs: &mut Vec<DirectoryContent>, _parent: Option<File>) -> (f: File)
        ensures
            f == File::Directory(old(dirs)@.len() as DirId),
            final(dirs)@.len() == old(dirs)@.len() + 1,
            forall|i: int| 0 <= i < old(dirs)@.len() ==> final(dirs)@[i] == old(dirs)@[i],
            final(dirs)@[old(dirs)@.len() as int].wf(),
            final(dirs)@[old(dirs)@.len() as int].entry_map() == Map::<Seq<char>, File>::empty(),
            forall|id: InodeId| final(dirs)@[old(dirs)@.len() as int].data_refs(id) == 0,
    {
        let id = dirs.len();
        dirs.push(DirectoryContent::new());
        File::Directory(id)
    }

    /// Wraps an inode reference in a data file.
    pub fn new_data_file(inode: InodeId) -> (f: File)
        ensures
            f == File::DataFile(inode),
    {
        File::DataFile(inode)
    }

    /// Projects the directory reference; calling this on anything but a
    /// directory is a caller error.
    pub fn get_dir_rc(&self) -> (d: DirId)
        requires
            self.is_directory(),
        ensures
            d == self.dir_id(),
    {
        match self {
            File::Directory(d) => *d,
            _ => unreached(),
        }
    }

    /// Projects the inode reference; calling this on anything but a data
    /// file is a caller error.
    pub fn get_inode_rc(&self) -> (i: InodeId)
        requires
            self.is_data_file(),
        ensures
            i == self.inode_id(),
    {
        match self {
            File::DataFile(i) => *i,
            _ => unreached(),
        }
    }
}

impl DirectoryContent {
    /// The name-to-file mapping this directory holds.
    pub closed spec fn entry_map(&self) -> Map<Seq<char>, File> {
        entries_map_of(self.entries@)
    }

    /// How many of this directory's entries reference inode `id`.
    pub closed spec fn data_refs(&self, id: InodeId) -> nat {
        count_matching(self.entries@, |e: (String, File)| e.1 == File::DataFile(id))
    }

    /// Structural invariant: entry names are distinct.
    pub closed spec fn wf(&self) -> bool {
        keys_distinct(self.entries@)
    }

    /// An empty directory content.
    pub fn new() -> (d: DirectoryContent)
        ensures
            d.wf(),
            d.entry_map() == Map::<Seq<char>, File>::empty(),
            forall|id: InodeId| d.data_refs(id) == 0,
    {
        DirectoryContent { entries: Vec::new() }
    }

    /// An entry mapping `k` to inode `id` is counted among that inode's
    /// entry references.
    pub proof fn lemma_entry_counted(&self, k: Seq<char>, id: InodeId)
        requires
            self.wf(),
            self.entry_map().contains_key(k),
            self.entry_map()[k] == File::DataFile(id),
        ensures
            self.data_refs(id) >= 1,
    {
        lemma_entries_contains(self.entries@, k);
        let i = choose|i: int| 0 <= i < self.entries@.len() && self.entries@[i].0@ == k;
        lemma_entries_get(self.entries@, i);
        lemma_count_ge_one(self.entries@, i, |e: (String, File)| e.1 == File::DataFile(id));
    }

    /// Entries under two different names that both reference inode `id`
    /// are counted twice among its entry references.
    pub proof fn lemma_two_entries_counted(&self, k1: Seq<char>, k2: Seq<char>, id: InodeId)
        requires
            self.wf(),
            k1 != k2,
            self.entry_map().contains_key(k1),
            self.entry_map()[k1] == File::DataFile(id),
            self.entry_map().contains_key(k2),
            self.entry_map()[k2] == File::DataFile(id),
        ensures
            self.data_refs(id) >= 2,
    {
        lemma_entries_contains(self.entries@, k1);
        lemma_entries_contains(self.entries@, k2);
        let i1 = choose|i: int| 0 <= i < self.entries@.len() && self.entries@[i].0@ == k1;
        let i2 = choose|i: int| 0 <= i < self.entries@.len() && self.entries@[i].0@ == k2;
        lemma_entries_get(self.entries@, i1);
        lemma_entries_get(self.entries@, i2);
        lemma_count_ge_two(self.entries@, i1, i2, |e: (String, File)| e.1 == File::DataFile(id));
    }

    /// The index of the entry named `name`, where one exists.
    fn find(&self, name: &str) -> (r: Option<usize>)
        requires
            self.wf(),
        ensures
            match r {
                Some(i) => i < self.entries@.len() && self.entries@[i as int].0@ == name@,
                None => !self.entry_map().contains_key(name@),
            },
    {
        let key: String = name.to_owned();
        let n = self.entries.len();
        let mut i: usize = 0;
        while i < n
            invariant
                i <= n,
                n == self.entries@.len(),
                key@ == name@,
                self.wf(),
                forall|t: int| 0 <= t < i ==> self.entries@[t].0@ != name@,
            decreases n - i,
        {
            if self.entries[i].0 == key {
                return Some(i);
            }
            i = i + 1;
        }
        proof {
            lemma_entries_contains(self.entries@, name@);
        }
        None
    }

    /// The file entered under `name`, where one is: a copy of the stored
    /// file, sharing its referent.
    pub fn get(&self, name: &str) -> (r: Option<File>)
        requires
            self.wf(),
        ensures
            r == map_get(self.entry_map(), name@),
    {
        match self.find(name) {
            Some(i) => {
                proof {
                    lemma_entries_get(self.entries@, i as int);
                }
                Some(self.entries[i].1)
            },
            None => None,
        }
    }

    /// Enters `file` under `name`, replacing any entry that name already
    /// has.
    pub fn insert(&mut self, name: &str, file: File)
        requires
            old(self).wf(),
        ensures
            final(self).wf(),
            final(self).entry_map() == old(self).entry_map().insert(name@, file),
            forall|id: InodeId|
                #![trigger final(self).data_refs(id)]
                final(self).data_refs(id) + (match map_get(old(self).entry_map(), name@) {
                    Some(v) => file_ref(v, id),
                    None => 0nat,
                }) == old(self).data_refs(id) + file_ref(file, id),
    {
        let key: String = name.to_owned();
        match self.find(name) {
            Some(i) => {
                proof {
                    lemma_entries_get(self.entries@, i as int);
                    lemma_entries_update(self.entries@, i as int, (key, file));
                    assert forall|id: InodeId| true implies count_matching(
                        self.entries@.update(i as int, (key, file)),
                        |e: (String, File)| e.1 == File::DataFile(id),
                    ) + file_ref(self.entries@[i as int].1, id) == count_matching(
                        self.entries@,
                        |e: (String, File)| e.1 == File::DataFile(id),
                    ) + file_ref(file, id) by {
                        lemma_count_update(
                            self.entries@,
                            i as int,
                            (key, file),
                            |e: (String, File)| e.1 == File::DataFile(id),
                        );
                    }
                }
                self.entries[i] = (key, file);
            },
            None => {
                proof {
                    assert forall|id: InodeId| true implies count_matching(
                        self.entries@.push((key, file)),
                        |e: (String, File)| e.1 == File::DataFile(id),
                    ) == count_matching(self.entries@, |e: (String, File)| e.1 == File::DataFile(id))
                        + file_ref(file, id) by {
                        lemma_count_push(
                            self.entries@,
                            (key, file),
                            |e: (String, File)| e.1 == File::DataFile(id),
                        );
                    }
                    lemma_entries_contains(self.entries@, name@);
                    assert forall|a: int, b: int|
                        0 <= a < b < self.entries@.push((key, file)).len() implies self.entries@.push(
                        (key, file),
                    )[a].0@ != self.entries@.push((key, file))[b].0@ by {
                        if b < self.entries@.len() {
                            assert(self.entries@[a].0@ != self.entries@[b].0@);
                        } else {
                            assert(self.entries@[a].0@ != name@);
                        }
                    }
                    assert(self.entries@.push((key, file)).drop_last() =~= self.entries@);
                }
                self.entries.push((key, file));
            },
        }
    }

    /// Removes the entry named `name`; nothing happens where there is none.
    pub fn remove(&mut self, name: &str)
        requires
            old(self).wf(),
        ensures
            final(self).wf(),
            final(self).entry_map() == old(self).entry_map().remove(name@),
            forall|id: InodeId|
                #![trigger final(self).data_refs(id)]
                final(self).data_refs(id) + (match map_get(old(self).entry_map(), name@) {
                    Some(v) => file_ref(v, id),
                    None => 0nat,
                }) == old(self).data_refs(id),
    {
        match self.find(name) {
            Some(i) => {
                proof {
                    lemma_entries_get(self.entries@, i as int);
                    lemma_entries_remove(self.entries@, i as int);
                    assert forall|id: InodeId| true implies count_matching(
                        self.entries@.remove(i as int),
                        |e: (String, File)| e.1 == File::DataFile(id),
                    ) + file_ref(self.entries@[i as int].1, id) == count_matching(
                        self.entries@,
                        |e: (String, File)| e.1 == File::DataFile(id),
                    ) by {
                        lemma_count_remove(
                            self.entries@,
                            i as int,
                            |e: (String, File)| e.1 == File::DataFile(id),
                        );
                    }
                }
                self.entries.remove(i);
            },
            None => {
                proof {
                    assert(old(self).entry_map().remove(name@) =~= old(self).entry_map());
                }
            },
        }
    }
}

impl FileHandle {
    /// The file this handle is open on.
    pub closed spec fn spec_file(&self) -> File {
        self.file
    }

    /// The seek cursor, in bytes.
    pub closed spec fn spec_seek(&self) -> nat {
        self.seek as nat
    }

    /// Opens a handle on a data file with the cursor at the start.
    pub fn new(file: File) -> (h: FileHandle)
        requires
            file.is_data_file(),
        ensures
            h.spec_file() == file,
            h.spec_seek() == 0,
    {
        FileHandle { file, seek: 0 }
    }

    /// The file this handle is open on.
    pub fn get_file(&self) -> (f: File)
        ensures
            f == self.spec_file(),
    {
        self.file
    }

    /// Reads `dst.len()` bytes from the handle's inode at the cursor and
    /// advances the cursor past them.
    pub fn read(&mut self, inode: &Inode, dst: &mut Vec<u8>) -> (n: usize)
        requires
            inode.wf(),
            read_ok(inode.contents(), old(self).spec_seek() as int, old(dst)@.len() as int),
        ensures
            n == old(dst)@.len(),
            final(dst)@ == spec_read(
                inode.contents(),
                old(self).spec_seek() as int,
                old(dst)@.len() as int,
            ),
            final(self).spec_seek() == old(self).spec_seek() + n,
            final(self).spec_file() == old(self).spec_file(),
    {
        proof {
            inode.lemma_read_within_limits(self.seek as int, dst@.len() as int);
        }
        let offset = self.seek;
        let changed = inode.read(offset, dst);
        self.seek = offset + changed;
        changed
    }

    /// Writes all of `src` to the handle's inode at the cursor and advances
    /// the cursor past the written bytes.
    pub fn write(&mut self, inode: &mut Inode, src: &Vec<u8>) -> (n: usize)
        requires
            old(inode).wf(),
            write_ok(old(self).spec_seek() as int, src@.len() as int),
        ensures
            n == src@.len(),
            final(inode).wf(),
            final(inode).contents() == spec_write(
                old(inode).contents(),
                old(self).spec_seek() as int,
                src@,
            ),
            final(inode).spec_size() == size_after(
                old(inode).spec_size(),
                old(self).spec_seek() as int,
                src@.len() as int,
            ),
            final(inode).mod_time() == final(inode).access_time(),
            final(inode).create_time() == old(inode).create_time(),
            final(self).spec_seek() == old(self).spec_seek() + n,
            final(self).spec_file() == old(self).spec_file(),
    {
        let offset = self.seek;
        let changed = inode.write(offset, src);
        self.seek = offset + changed;
        changed
    }

    /// Moves the cursor to `offset` from the start, the current cursor or
    /// the end of `inode`, and returns the new cursor. A move that would
    /// land before byte zero is a caller error.
    pub fn seek(&mut self, inode: &Inode, offset: isize, whence: Whence) -> (r: usize)
        requires
            match whence {
                Whence::SeekSet => offset >= 0,
                Whence::SeekCur => 0 <= old(self).spec_seek() + offset <= usize::MAX,
                Whence::SeekEnd => 0 <= inode.spec_size() + offset <= usize::MAX,
            },
        ensures
            final(self).spec_seek() == (match whence {
                Whence::SeekSet => offset as nat,
                Whence::SeekCur => (old(self).spec_seek() + offset) as nat,
                Whence::SeekEnd => (inode.spec_size() + offset) as nat,
            }),
            r == final(self).spec_seek(),
            final(self).spec_file() == old(self).spec_file(),
    {
        let new_seek: usize = match whence {
            Whence::SeekSet => offset as usize,
            Whence::SeekCur => add_signed(self.seek, offset),
            Whence::SeekEnd => add_signed(inode.size(), offset),
        };
        self.seek = new_seek;
        new_seek
    }
}

/// Offsets an unsigned position by a signed distance.
fn add_signed(base: usize, offset: isize) -> (r: usize)
    requires
        0 <= base + offset <= usize::MAX,
    ensures
        r == base + offset,
{
    if offset >= 0 {
        base + (offset as usize)
    } else {
        base - ((-(offset + 1)) as usize) - 1
    }
}

} // verus!
