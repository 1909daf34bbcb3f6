//! End-to-end tests of the process-level API.

use rustfs::Proc;
use rustfs::Whence::SeekSet;
use rustfs::O_CREAT;
use rustfs::O_RDWR;

fn rand_array(size: usize) -> Vec<u8> {
    (0..size).map(|_| rand::random::<u8>()).collect()
}

fn assert_eq_buf(first: &[u8], second: &[u8]) {
    assert_eq!(first.len(), second.len());

    for i in 0..first.len() {
        assert_eq!(first[i], second[i]);
    }
}

#[test]
fn proc_simple_test() {
    assert_eq!(1, 1);
}

#[test]
fn lib_simple_test() {
    const SIZE: usize = 4096 * 8 + 3434;
    let mut p = Proc::new();
    let data = rand_array(SIZE);
    let mut buf = vec![0u8; SIZE];
    let filename = "first_file";

    let fd = p.open(filename, O_RDWR | O_CREAT);
    p.write(fd, &data);
    p.seek(fd, 0, SeekSet);
    p.read(fd, &mut buf);

    assert_eq_buf(&data, &buf);

    let fd2 = p.open(filename, O_RDWR);
    let mut buf2 = vec![0u8; SIZE];
    p.read(fd2, &mut buf2);

    assert_eq_buf(&data, &buf2);

    p.close(fd);
    p.close(fd2);

    let fd3 = p.open(filename, O_RDWR);
    let mut buf3 = vec![0u8; SIZE];
    p.read(fd3, &mut buf3);

    assert_eq_buf(&data, &buf3);
    p.close(fd3);

    p.unlink(filename);

    let fd4 = p.open(filename, O_RDWR);
    assert_eq!(fd4, -2);
}

#[test]
fn test_max_singly_file_size() {
    const SIZE: usize = 4096 * 256;
    let mut p = Proc::new();
    let data = rand_array(SIZE);
    let mut buf = vec![0u8; SIZE];
    let filename = "first_file";

    let fd = p.open(filename, O_RDWR | O_CREAT);
    p.write(fd, &data);
    p.seek(fd, 0, SeekSet);
    p.read(fd, &mut buf);

    assert_eq_buf(&data, &buf);

    p.close(fd);
    p.unlink(filename);

    let fd4 = p.open(filename, O_RDWR);
    assert_eq!(fd4, -2);
}

#[test]
fn test_max_file_size() {
    const SIZE: usize = 2 * 4096 * 256;
    let mut p = Proc::new();
    let data1 = rand_array(SIZE);
    let data2 = rand_array(SIZE);
    let mut buf = vec![0; SIZE];
    let filename = "first_file";

    let fd = p.open(filename, O_RDWR | O_CREAT);
    p.write(fd, &data1);
    p.seek(fd, 4096 * 257 * 256 - SIZE as isize, SeekSet);
    p.write(fd, &data2);

    p.seek(fd, 0, SeekSet);
    p.read(fd, &mut buf);
    assert_eq_buf(&data1, &buf);

    p.seek(fd, 4096 * 257 * 256 - SIZE as isize, SeekSet);
    p.read(fd, &mut buf);
    assert_eq_buf(&data2, &buf);
}
