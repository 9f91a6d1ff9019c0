use kernel_core::bitmap::{decomposition, Bitmap};
use kernel_core::file::{
    make_pipe, open_file, sys_close, sys_fstat, sys_linkat, sys_open, sys_read, sys_unlinkat,
    sys_write, FdTable, FileDesc, S_IFREG,
};
use kernel_core::fs::{FileSystem, OpenFlags, CREATE, RDWR, TRUNC, WRONLY};
use kernel_core::pipe::{PipeProgress, PipeRingBuffer};

fn name(s: &str) -> Vec<u8> {
    s.as_bytes().to_vec()
}

#[test]
fn bitmap_hands_out_lowest_free_bit() {
    let bm = Bitmap::new(0, 2);
    let mut words = vec![0u64; 128];
    assert_eq!(bm.maximum(), 8192);
    assert_eq!(bm.allocate(&mut words), Some(0));
    assert_eq!(bm.allocate(&mut words), Some(1));
    words[0] = u64::MAX;
    words[1] = 0b1011;
    assert_eq!(bm.allocate(&mut words), Some(66));
    bm.dealloc(&mut words, 3);
    assert_eq!(words[0], u64::MAX - 8);
    assert_eq!(bm.allocate(&mut words), Some(3));
    let mut full = vec![u64::MAX; 128];
    assert_eq!(bm.allocate(&mut full), None);
}

#[test]
fn bit_decomposition() {
    assert_eq!(decomposition(0), (0, 0, 0));
    assert_eq!(decomposition(4096 + 130), (1, 2, 2));
}

#[test]
fn open_flags_modes() {
    assert_eq!(OpenFlags { bits: 0 }.read_write(), (true, false));
    assert_eq!(OpenFlags { bits: WRONLY }.read_write(), (false, true));
    assert_eq!(OpenFlags { bits: RDWR }.read_write(), (true, true));
    assert_eq!(OpenFlags { bits: CREATE | WRONLY }.read_write(), (false, true));
}

#[test]
fn write_close_reopen_read_round_trip() {
    let mut fs = FileSystem::new(1);
    let mut fds = FdTable::new();
    let mut pipes: Vec<PipeRingBuffer> = Vec::new();
    let fd = sys_open(&mut fs, &mut fds, &name("f"), CREATE | RDWR);
    assert_eq!(fd, 2);
    let data: Vec<u8> = (0..200u8).collect();
    let mut done = 0usize;
    assert_eq!(sys_write(&mut fs, &mut pipes, &mut fds, 2, &data, &mut done), 200);
    assert_eq!(sys_close(&mut fds, &mut pipes, 2), 0);
    assert_eq!(sys_close(&mut fds, &mut pipes, 2), -1);
    let fd = sys_open(&mut fs, &mut fds, &name("f"), 0) as usize;
    let mut buf = Vec::new();
    assert_eq!(sys_read(&fs, &mut pipes, &mut fds, fd, 200, &mut buf), 200);
    assert_eq!(buf, data);
    let mut more = Vec::new();
    assert_eq!(sys_read(&fs, &mut pipes, &mut fds, fd, 10, &mut more), 0);
}

#[test]
fn create_trunc_empties_existing_file() {
    let mut fs = FileSystem::new(1);
    let f = open_file(&mut fs, &name("log"), OpenFlags { bits: CREATE | WRONLY }).unwrap();
    fs.write_at(f.inode_id, 0, &vec![1, 2, 3]);
    assert_eq!(fs.read_at(f.inode_id, 0, 10), vec![1, 2, 3]);
    let g = open_file(&mut fs, &name("log"), OpenFlags { bits: CREATE | TRUNC }).unwrap();
    assert_eq!(g.inode_id, f.inode_id);
    assert_eq!(fs.files[g.inode_id as usize].len(), 0);
    let h = open_file(&mut fs, &name("log"), OpenFlags { bits: 0 }).unwrap();
    assert_eq!(h.offset, 0);
    assert!(open_file(&mut fs, &name("nope"), OpenFlags { bits: TRUNC }).is_none());
}

#[test]
fn write_past_end_fills_zeros() {
    let mut fs = FileSystem::new(1);
    let id = fs.create(&name("a")).unwrap();
    assert_eq!(fs.write_at(id, 3, &vec![9]), 1);
    assert_eq!(fs.read_at(id, 0, 10), vec![0, 0, 0, 9]);
    assert_eq!(fs.write_at(id, 1, &vec![5, 6]), 2);
    assert_eq!(fs.read_at(id, 0, 10), vec![0, 5, 6, 9]);
    assert_eq!(fs.read_at(id, 2, 1), vec![6]);
    assert_eq!(fs.read_at(id, 4, 1), Vec::<u8>::new());
    fs.clear(id);
    assert_eq!(fs.read_at(id, 0, 10), Vec::<u8>::new());
}

#[test]
fn directory_create_link_unlink() {
    let mut fs = FileSystem::new(1);
    let a = fs.create(&name("a")).unwrap();
    let b = fs.create(&name("b")).unwrap();
    assert_ne!(a, b);
    assert_eq!(fs.create(&name("a")), None);
    assert_eq!(fs.find(&name("b")), Some(b));
    assert_eq!(sys_linkat(&mut fs, &name("a"), &name("a2")), 0);
    assert_eq!(sys_linkat(&mut fs, &name("a"), &name("a")), -1);
    assert_eq!(sys_linkat(&mut fs, &name("zz"), &name("q")), -1);
    assert_eq!(fs.link_count(a), 2);
    // Unlinking moves the last entry into the hole.
    assert_eq!(fs.unlink(&name("a")), 0);
    let names: Vec<Vec<u8>> = fs.root.iter().map(|e| e.name.clone()).collect();
    assert_eq!(names, vec![name("a2"), name("b")]);
    assert_eq!(fs.link_count(a), 1);
    assert_eq!(fs.unlink(&name("a")), -1);
    fs.write_at(b, 0, &vec![1]);
    assert_eq!(sys_unlinkat(&mut fs, &name("b")), 0);
    assert_eq!(fs.files[b as usize].len(), 0);
    assert_eq!(sys_unlinkat(&mut fs, &name("b")), -1);
}

#[test]
fn fstat_reports_links() {
    let mut fs = FileSystem::new(1);
    let mut fds = FdTable::new();
    let fd = sys_open(&mut fs, &mut fds, &name("x"), CREATE) as usize;
    sys_linkat(&mut fs, &name("x"), &name("y"));
    let st = sys_fstat(&fs, &fds, fd).unwrap();
    assert_eq!(st.nlink, 2);
    assert_eq!(st.mode, S_IFREG);
    assert_eq!(st.dev, 0);
    assert!(sys_fstat(&fs, &fds, 0).is_none());
    assert!(sys_fstat(&fs, &fds, 9).is_none());
}

#[test]
fn descriptors_refuse_wrong_direction() {
    let mut fs = FileSystem::new(1);
    let mut fds = FdTable::new();
    let mut pipes: Vec<PipeRingBuffer> = Vec::new();
    let fd = sys_open(&mut fs, &mut fds, &name("w"), CREATE | WRONLY) as usize;
    let mut buf = Vec::new();
    assert_eq!(sys_read(&fs, &mut pipes, &mut fds, fd, 4, &mut buf), -1);
    assert_eq!(sys_read(&fs, &mut pipes, &mut fds, 0, 4, &mut buf), -1);
    let mut done = 0usize;
    assert_eq!(sys_write(&mut fs, &mut pipes, &mut fds, 1, &vec![1, 2], &mut done), 2);
    assert_eq!(sys_write(&mut fs, &mut pipes, &mut fds, 0, &vec![1], &mut done), -1);
    assert_eq!(sys_write(&mut fs, &mut pipes, &mut fds, 99, &vec![1], &mut done), -1);
    assert_eq!(sys_open(&mut fs, &mut fds, &name("none"), 0), -1);
}

#[test]
fn pipe_writer_stops_when_full() {
    let mut pipes: Vec<PipeRingBuffer> = Vec::new();
    let (_r, w) = make_pipe(&mut pipes);
    let first: Vec<u8> = vec![7; 30];
    assert_eq!(w.write(&mut pipes[0], &first, 0), (PipeProgress::Done(30), 30));
    // 2 bytes of room left: a write of 5 gets 2 in, then must wait.
    let data: Vec<u8> = vec![1, 2, 3, 4, 5];
    assert_eq!(w.write(&mut pipes[0], &data, 0), (PipeProgress::Pending, 2));
    assert_eq!(pipes[0].available_write(), 0);
    assert_eq!(w.write(&mut pipes[0], &data, 2), (PipeProgress::Pending, 2));
}

#[test]
fn pipe_through_descriptors() {
    let mut fs = FileSystem::new(1);
    let mut fds = FdTable::new();
    let mut pipes: Vec<PipeRingBuffer> = Vec::new();
    let (r, w) = make_pipe(&mut pipes);
    fds.entries.push(Some(FileDesc::Pipe(r)));
    fds.entries.push(Some(FileDesc::Pipe(w)));
    let mut done = 0usize;
    assert_eq!(sys_write(&mut fs, &mut pipes, &mut fds, 3, &name("abc"), &mut done), 3);
    let mut buf = Vec::new();
    assert_eq!(sys_read(&fs, &mut pipes, &mut fds, 2, 3, &mut buf), 3);
    assert_eq!(buf, name("abc"));
    let mut wait = Vec::new();
    assert_eq!(sys_read(&fs, &mut pipes, &mut fds, 2, 3, &mut wait), -2);
    assert_eq!(sys_read(&fs, &mut pipes, &mut fds, 3, 3, &mut wait), -1);
    assert_eq!(sys_close(&mut fds, &mut pipes, 3), 0);
    assert!(pipes[0].all_write_ends_closed());
    assert_eq!(sys_read(&fs, &mut pipes, &mut fds, 2, 3, &mut wait), 0);
}

#[test]
fn duplicated_table_counts_pipe_writers() {
    let mut fds = FdTable::new();
    let mut pipes: Vec<PipeRingBuffer> = Vec::new();
    let (r, w) = make_pipe(&mut pipes);
    fds.entries.push(Some(FileDesc::Pipe(r)));
    fds.entries.push(Some(FileDesc::Pipe(w)));
    let copy = fds.duplicate(&mut pipes);
    assert_eq!(copy.entries.len(), 4);
    assert!(matches!(copy.entries[3], Some(FileDesc::Pipe(_))));
    pipes[0].drop_writer();
    assert!(!pipes[0].all_write_ends_closed());
    pipes[0].drop_writer();
    assert!(pipes[0].all_write_ends_closed());
}
