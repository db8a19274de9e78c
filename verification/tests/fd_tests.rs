use ferrum::fd::{FdKind, FdTable, OpenFile, OpenFiles, FD_MAX};
use ferrum::pipe::{new_pipe, PipeInner, PipeTable, PIPE_BUF_SIZE};

#[test]
fn new_pipe_has_one_descriptor_per_end() {
    let mut t = PipeTable::new();
    let (r, w) = new_pipe(&mut t);
    assert_eq!((r, w), (0, 0));
    let (r2, _) = new_pipe(&mut t);
    assert_eq!(r2, 1);
    assert_eq!(t.pipes.len(), 2);
    assert_eq!(t.pipes[0].read_ends, 1);
    assert_eq!(t.pipes[0].write_ends, 1);
    assert!(t.pipes[0].buf.is_empty());
    let p = PipeInner::new();
    assert!(p.buf.capacity() >= PIPE_BUF_SIZE);
}

#[test]
fn stdio_takes_the_first_three_slots() {
    let mut files = OpenFiles::new();
    let t = FdTable::new_stdio(&mut files);
    assert_eq!(files.files.len(), 3);
    assert_eq!(t.get(0), Some(0));
    assert_eq!(t.get(1), Some(1));
    assert_eq!(t.get(2), Some(2));
    assert_eq!(t.get(3), None);
    assert_eq!(t.get(FD_MAX), None);
    assert!(files.files.iter().all(|f| f.kind == FdKind::Serial && f.readable && f.writable));
}

#[test]
fn allocation_takes_the_lowest_free_slot() {
    let mut files = OpenFiles::new();
    let mut pipes = PipeTable::new();
    let mut t = FdTable::new_stdio(&mut files);
    assert_eq!(t.allocate(OpenFile::device(FdKind::DevNull), &mut files), Some(3));
    assert!(t.close(1, &files, &mut pipes));
    assert!(!t.close(1, &files, &mut pipes));
    assert!(!t.close(FD_MAX, &files, &mut pipes));
    assert_eq!(t.allocate(OpenFile::device(FdKind::DevZero), &mut files), Some(1));
    assert_eq!(t.alloc_from(0, 2), Some(4));
    for _ in 5..FD_MAX {
        assert!(t.allocate(OpenFile::device(FdKind::DevNull), &mut files).is_some());
    }
    assert_eq!(t.allocate(OpenFile::device(FdKind::DevNull), &mut files), None);
    assert_eq!(t.alloc_from(0, 0), None);
}

#[test]
fn pipe_ends_count_descriptors() {
    let mut files = OpenFiles::new();
    let mut pipes = PipeTable::new();
    let mut t = FdTable::new_stdio(&mut files);
    let (r, w) = new_pipe(&mut pipes);
    let rfd = t.allocate(OpenFile::pipe_read(r), &mut files).unwrap();
    let wfd = t.allocate(OpenFile::pipe_write(w), &mut files).unwrap();
    assert_eq!((rfd, wfd), (3, 4));
    // A duplicate of the write end.
    let went = t.get(wfd).unwrap();
    assert_eq!(t.alloc_entry(went, &files, &mut pipes), Some(5));
    assert_eq!(pipes.pipes[0].write_ends, 2);
    // A child's copy counts every end again.
    let child = t.fork_clone(&files, &mut pipes);
    assert_eq!(child.get(5), Some(went));
    assert_eq!(pipes.pipes[0].write_ends, 4);
    assert_eq!(pipes.pipes[0].read_ends, 2);
    assert!(t.close(wfd, &files, &mut pipes));
    assert_eq!(pipes.pipes[0].write_ends, 3);
    // Putting the read end over descriptor 0 replaces it.
    let rent = t.get(rfd).unwrap();
    t.put(0, rent, &files, &mut pipes);
    assert_eq!(t.get(0), Some(rent));
    assert_eq!(pipes.pipes[0].read_ends, 3);
}

#[test]
fn descriptions_carry_their_rights() {
    let d = OpenFile::directory(vec!["a".to_string()]);
    assert!(d.kind == FdKind::Directory && d.readable && !d.writable);
    assert_eq!(d.dir_entries.as_ref().map(|v| v.len()), Some(1));
    let r = OpenFile::pipe_read(4);
    assert!(r.readable && !r.writable && r.pipe == Some(4));
    let w = OpenFile::pipe_write(4);
    assert!(!w.readable && w.writable);
    let s = OpenFile::stdin();
    assert!(s.kind == FdKind::Serial && s.offset == 0);
}
