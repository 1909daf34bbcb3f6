//! Tests of the stated behavior: descriptor recycling, unlink semantics,
//! handle persistence, seeking, directories and the benchmark bookkeeping.

use rustfs::create_tlist;
use rustfs::Benchmarker;
use rustfs::DirectoryContent;
use rustfs::DirectoryHandle;
use rustfs::File;
use rustfs::FileDescriptor;
use rustfs::Proc;
use rustfs::TList;
use rustfs::Whence::SeekCur;
use rustfs::Whence::SeekEnd;
use rustfs::Whence::SeekSet;
use rustfs::LIST_SIZE;
use rustfs::O_CREAT;
use rustfs::O_RDWR;

fn rand_array(size: usize) -> Vec<u8> {
    (0..size).map(|_| rand::random::<u8>()).collect()
}

#[test]
fn descriptor_recycling() {
    let mut p = Proc::new();
    let mut first: FileDescriptor = -100;
    for i in 0..100_000 {
        let fd = p.open("f", O_CREAT);
        assert!(fd >= 3);
        if i == 0 {
            first = fd;
        } else {
            assert_eq!(fd, first);
        }
        p.close(fd);
    }
}

#[test]
fn open_without_creat_answers_minus_two() {
    let mut p = Proc::new();
    assert_eq!(p.open("missing", 0), -2);
    assert_eq!(p.open("missing", O_RDWR), -2);
}

#[test]
fn unlink_is_idempotent() {
    let mut p = Proc::new();
    let fd = p.open("f", O_CREAT | O_RDWR);
    p.close(fd);
    p.unlink("f");
    p.unlink("f");
    assert_eq!(p.open("f", 0), -2);
}

#[test]
fn unlink_of_absent_path_is_a_no_op() {
    let mut p = Proc::new();
    p.unlink("never_there");
    assert_eq!(p.open("never_there", 0), -2);
}

#[test]
fn handle_survives_unlink() {
    let mut p = Proc::new();
    let data = rand_array(5000);
    let fd = p.open("doomed", O_CREAT | O_RDWR);
    p.write(fd, &data);
    p.unlink("doomed");

    // the handle still reaches the written bytes
    p.seek(fd, 0, SeekSet);
    let mut buf = vec![0u8; 5000];
    p.read(fd, &mut buf);
    assert_eq!(buf, data);

    // but the name is gone
    assert_eq!(p.open("doomed", 0), -2);
    p.close(fd);
}

#[test]
fn seek_from_all_origins() {
    let mut p = Proc::new();
    let data = rand_array(100);
    let fd = p.open("f", O_CREAT | O_RDWR);
    p.write(fd, &data);

    assert_eq!(p.seek(fd, 40, SeekSet), 40);
    assert_eq!(p.seek(fd, -15, SeekCur), 25);
    assert_eq!(p.seek(fd, 10, SeekCur), 35);
    assert_eq!(p.seek(fd, -30, SeekEnd), 70);
    assert_eq!(p.seek(fd, 0, SeekEnd), 100);

    let mut tail = vec![0u8; 30];
    p.seek(fd, -30, SeekEnd);
    p.read(fd, &mut tail);
    assert_eq!(&tail[..], &data[70..]);
}

#[test]
fn write_at_cursor_grows_size_monotonically() {
    let mut p = Proc::new();
    let fd = p.open("f", O_CREAT | O_RDWR);
    let data = rand_array(300);

    p.seek(fd, 1000, SeekSet);
    p.write(fd, &data);
    // the end of that write is one past the highest byte written
    assert_eq!(p.seek(fd, 0, SeekEnd), 1300);

    // an earlier write does not shrink the file
    p.seek(fd, 0, SeekSet);
    p.write(fd, &data);
    assert_eq!(p.seek(fd, 0, SeekEnd), 1300);
}

#[test]
fn two_handles_share_one_file() {
    let mut p = Proc::new();
    let data = rand_array(64);
    let fd1 = p.open("shared", O_CREAT | O_RDWR);
    let fd2 = p.open("shared", O_RDWR);
    assert_ne!(fd1, fd2);

    p.write(fd1, &data);
    let mut buf = vec![0u8; 64];
    p.read(fd2, &mut buf);
    assert_eq!(buf, data);

    p.close(fd1);
    p.close(fd2);
}

#[test]
fn directory_handle_edits_its_table() {
    let mut dirs: Vec<DirectoryContent> = Vec::new();
    let dir = File::new_dir(&mut dirs, None);
    assert!(dir.is_dir());

    let file = File::new_data_file(3);
    assert!(!file.is_dir());
    assert_eq!(file.get_inode_rc(), 3);

    dir.insert(&mut dirs, "a", file);
    assert_eq!(dir.get(&dirs, "a"), Some(file));
    assert_eq!(dir.get(&dirs, "b"), None);

    // the stored file is replaced under its name
    let other = File::new_data_file(9);
    dir.insert(&mut dirs, "a", other);
    assert_eq!(dir.get(&dirs, "a"), Some(other));

    dir.remove(&mut dirs, "a");
    assert_eq!(dir.get(&dirs, "a"), None);
}

#[test]
fn nested_directory_entries() {
    let mut dirs: Vec<DirectoryContent> = Vec::new();
    let root = File::new_dir(&mut dirs, None);
    let child = File::new_dir(&mut dirs, Some(root));
    root.insert(&mut dirs, "sub", child);
    assert_eq!(root.get(&dirs, "sub"), Some(child));
    assert_eq!(child.get_dir_rc(), 1);
}

#[test]
fn tlist_starts_empty() {
    let l: TList<u8> = create_tlist();
    assert_eq!(l.len(), LIST_SIZE);
    assert!(l.iter().all(|slot| slot.is_none()));
}

#[test]
fn benchmarker_accounting() {
    let b = Benchmarker::new();
    assert_eq!(b.iterations, 0);
    assert_eq!(b.ns_start, 0);
    assert_eq!(b.ns_end, 0);

    let mut b = Benchmarker::new();
    b.iterations = 8;
    b.ns_start = 1_000;
    b.ns_end = 9_400;
    assert_eq!(b.ns_per_iter(), 1050);
}
