//! Tests of the paged inode storage on its own.

use rustfs::Inode;
use rustfs::LIST_SIZE;
use rustfs::PAGE_SIZE;

fn rand_array(size: usize) -> Vec<u8> {
    (0..size).map(|_| rand::random::<u8>()).collect()
}

#[test]
fn inode_test_simple_write() {
    const SIZE: usize = 4096 * 8 + 3434;

    let original_data = rand_array(SIZE);
    let time_now = time::get_time();
    let mut inode = Inode::new();
    let mut buf = vec![0u8; SIZE];

    // Write the random data, read it back into buffer
    inode.write(0, &original_data);
    inode.read(0, &mut buf);

    // Make sure inode is right size
    assert_eq!(SIZE, inode.size());

    // Make sure contents are correct
    for i in 0..SIZE {
        assert_eq!(buf[i], original_data[i]);
    }

    let (create, _, _) = inode.stat();
    assert_eq!(create.sec, time_now.sec);
}

#[test]
fn inode_write_at_offset_sets_size() {
    let mut inode = Inode::new();
    let data = rand_array(100);
    let n = inode.write(5000, &data);
    assert_eq!(n, 100);
    assert_eq!(inode.size(), 5100);

    // an earlier write cannot shrink the size
    let m = inode.write(0, &data);
    assert_eq!(m, 100);
    assert_eq!(inode.size(), 5100);
}

#[test]
fn inode_write_read_doubly_indirect() {
    // a page well inside the doubly-indirect range
    let offset = PAGE_SIZE * (LIST_SIZE + 7) + 123;
    let data = rand_array(PAGE_SIZE * 3);
    let mut inode = Inode::new();
    inode.write(offset, &data);
    assert_eq!(inode.size(), offset + data.len());

    let mut buf = vec![0u8; data.len()];
    inode.read(offset, &mut buf);
    assert_eq!(buf, data);
}

#[test]
fn inode_empty_write_moves_size_only() {
    let mut inode = Inode::new();
    let empty: Vec<u8> = Vec::new();
    let n = inode.write(4096 * 3, &empty);
    assert_eq!(n, 0);
    assert_eq!(inode.size(), 4096 * 3);
}

#[test]
fn inode_stat_starts_equal() {
    let inode = Inode::new();
    let (create, access, modify) = inode.stat();
    assert_eq!(create, access);
    assert_eq!(create, modify);
}
