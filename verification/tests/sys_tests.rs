use ferrum::allocator::{BuddyAllocator, PhysAddr};
use ferrum::fd::{FdKind, FdTable, OpenFile, OpenFiles};
use ferrum::fs::ramfs::Ramfs;
use ferrum::fs::vfs::FileType;
use ferrum::page_owner::{init, PageOwners};
use ferrum::paging::{PageTableManager, PhysMemory};
use ferrum::process::{schedule, Context, Process, ProcessState, Scheduler};
use ferrum::pipe::PipeTable;
use ferrum::sys::{
    desc_size, dirent_records, fill_stat, getcwd_bytes, mmap_request, stat_path, sys_access, sys_arch_prctl,
    sys_brk, sys_chdir, sys_close, sys_dup, sys_dup2, sys_faccessat, sys_fcntl, sys_fstat, sys_ioctl, sys_lseek,
    sys_mkdir, sys_pread, sys_read, sys_rename, sys_unlink, sys_write, sys_writev, uname_bytes, FdIo,
};
use ferrum::syscall::{open_path, O_APPEND, O_CREAT, O_DIRECTORY, O_RDWR, O_WRONLY};
use ferrum::vma::{AddressSpace, VMAFlags, VMAKind, VMA};

struct World {
    alloc: BuddyAllocator,
    mem: PhysMemory,
    owners: PageOwners,
}

fn world() -> World {
    let mut alloc = BuddyAllocator::new();
    alloc.add_region(PhysAddr::new(0x10_0000), 0x40_0000);
    let mut owners = PageOwners::new();
    init(&mut owners);
    World { alloc, mem: PhysMemory::new(), owners }
}

fn process(w: &mut World, files: &mut OpenFiles) -> Process {
    let pt = PageTableManager::new(&mut w.alloc, &mut w.mem).unwrap();
    Process {
        pid: 1,
        parent_pid: 0,
        state: ProcessState::Ready,
        exit_code: 0,
        context: Context::zero(),
        kernel_stack_alloc: None,
        kernel_stack_top: 0,
        address_space: AddressSpace::new(pt, 1),
        fd_table: FdTable::new_stdio(files),
        fs_base: 0,
        brk_start: 0x60_0000,
        brk_current: 0x60_0000,
        cwd: "/".to_string(),
    }
}

/// A scheduler whose current process has the standard descriptors.
fn running(w: &mut World, files: &mut OpenFiles) -> Scheduler {
    let mut s = Scheduler::new();
    let p = process(w, files);
    s.add_process(p, &mut w.alloc, &mut w.mem, &mut w.owners).unwrap();
    schedule(&mut s);
    s
}

#[test]
fn brk_grows_the_heap_by_pages() {
    let mut w = world();
    let mut files = OpenFiles::new();
    let mut p = process(&mut w, &mut files);
    assert_eq!(sys_brk(&mut p, 0), 0x60_0000);
    assert_eq!(sys_brk(&mut p, 0x50_0000), 0x60_0000);
    assert_eq!(sys_brk(&mut p, 0x60_0001), 0x60_1000);
    assert_eq!(p.brk_current, 0x60_1000);
    assert_eq!(p.address_space.vmas.len(), 1);
    assert_eq!((p.address_space.vmas[0].start, p.address_space.vmas[0].end), (0x60_0000, 0x60_1000));
    assert_eq!(p.address_space.vmas[0].kind, VMAKind::Heap);
    assert_eq!(sys_brk(&mut p, 0x60_3000), 0x60_3000);
    assert_eq!(p.address_space.vmas[0].end, 0x60_3000);
}

#[test]
fn brk_stays_when_the_heap_cannot_grow() {
    let mut w = world();
    let mut files = OpenFiles::new();
    let mut p = process(&mut w, &mut files);
    p.address_space.add_vma(VMA::new(0x60_1000, 0x60_2000, VMAFlags::rw(), VMAKind::Anonymous)).unwrap();
    assert_eq!(sys_brk(&mut p, 0x60_0800), 0x60_1000);
    // Growing further would run into the other area: the break stays. The
    // heap area was taken out to be grown and is not put back.
    assert_eq!(sys_brk(&mut p, 0x60_1800), 0x60_1000);
    assert_eq!(p.address_space.vmas.len(), 1);
    assert_eq!(p.address_space.vmas[0].kind, VMAKind::Anonymous);
}

#[test]
fn mmap_request_reads_protection_and_fixed() {
    let (f, fixed) = mmap_request(0x1000, 3, 0x10 | 0x22);
    assert_eq!(f, VMAFlags::rw());
    assert!(fixed);
    let (f, fixed) = mmap_request(0, 5, 0x10);
    assert_eq!(f, VMAFlags::rx());
    assert!(!fixed);
    let (f, fixed) = mmap_request(0x1000, 1, 0x22);
    assert_eq!(f, VMAFlags::r());
    assert!(!fixed);
}

#[test]
fn stat_records() {
    let d = fill_stat(FileType::Directory, 0);
    assert_eq!((d.st_mode, d.st_nlink, d.st_size, d.st_blksize, d.st_blocks), (0o040755, 1, 0, 4096, 0));
    let f = fill_stat(FileType::Regular, 513);
    assert_eq!((f.st_mode, f.st_size, f.st_blocks), (0o100644, 513, 2));
    assert_eq!(fill_stat(FileType::Regular, 512).st_blocks, 1);
}

#[test]
fn uname_fields() {
    let u = uname_bytes();
    assert_eq!(u.len(), 6 * 65);
    let field = |i: usize| {
        let f = &u[i * 65..(i + 1) * 65];
        let n = f.iter().position(|&b| b == 0).unwrap();
        assert!(f[n..].iter().all(|&b| b == 0));
        String::from_utf8(f[..n].to_vec()).unwrap()
    };
    assert_eq!(field(0), "Linux");
    assert_eq!(field(1), "ferrum");
    assert_eq!(field(2), "6.1.0");
    assert_eq!(field(3), "#1 Ferrum OS");
    assert_eq!(field(4), "x86_64");
    assert_eq!(field(5), "");
}

#[test]
fn dirent_records_fill_the_buffer_in_order() {
    let names = vec!["a".to_string(), "hello.txt".to_string(), "b".to_string()];
    let recs = dirent_records(&names, 0, 56);
    // 24 bytes for a one-letter name, 32 for nine letters.
    assert_eq!(recs.len(), 2);
    assert_eq!(recs[0].0, 0);
    assert_eq!(recs[1].0, 24);
    let r = &recs[0].1;
    assert_eq!(r.len(), 21);
    assert_eq!(&r[0..8], &1u64.to_le_bytes());
    assert_eq!(&r[8..16], &1u64.to_le_bytes());
    assert_eq!(&r[16..18], &24u16.to_le_bytes());
    assert_eq!(r[18], 8);
    assert_eq!(&r[19..], b"a\0");
    assert_eq!(&recs[1].1[16..18], &32u16.to_le_bytes());
    assert_eq!(&recs[1].1[19..], b"hello.txt\0");
    // From the third entry on.
    let recs = dirent_records(&names, 2, 100);
    assert_eq!(recs.len(), 1);
    assert_eq!(&recs[0].1[0..8], &3u64.to_le_bytes());
    assert!(dirent_records(&names, 3, 100).is_empty());
    assert!(dirent_records(&names, 0, 23).is_empty());
}

#[test]
fn lseek_moves_the_offset() {
    let mut d = OpenFile::device(FdKind::DevNull);
    assert_eq!(sys_lseek(&mut d, 100, 10, 0), 10);
    assert_eq!(sys_lseek(&mut d, 100, 5, 1), 15);
    assert_eq!(sys_lseek(&mut d, 100, -20, 2), 80);
    assert_eq!(d.offset, 80);
    assert_eq!(sys_lseek(&mut d, 100, -81, 1), -22);
    assert_eq!(sys_lseek(&mut d, 100, 0, 3), -22);
    assert_eq!(d.offset, 80);
}

#[test]
fn getcwd_needs_room_for_the_nul() {
    assert_eq!(getcwd_bytes("/bin", 5), Ok(b"/bin\0".to_vec()));
    assert_eq!(getcwd_bytes("/bin", 4), Err(-34));
    assert_eq!(getcwd_bytes("/", 100), Ok(b"/\0".to_vec()));
}

#[test]
fn write_then_read_through_descriptors() {
    let mut w = world();
    let mut files = OpenFiles::new();
    let mut s = running(&mut w, &mut files);
    let mut fs = Ramfs::new();
    fs.write_file("/etc/motd", b"hello").unwrap();

    let fd = open_path("/etc/motd", O_RDWR, &mut fs, &mut s, &mut files);
    assert_eq!(fd, 3);
    let e = s.current().unwrap().fd_table.get(3).unwrap();
    assert_eq!(desc_size(&files.files[e], &fs), 5);
    let mut buf = [0u8; 3];
    assert_eq!(sys_read(&s, &mut files, &fs, 3, &mut buf), FdIo::Done(3));
    assert_eq!(&buf, b"hel");
    assert_eq!(sys_read(&s, &mut files, &fs, 3, &mut buf), FdIo::Done(2));
    assert_eq!(&buf[..2], b"lo");
    assert_eq!(sys_read(&s, &mut files, &fs, 3, &mut buf), FdIo::Done(0));
    // Writing at the offset extends the file.
    assert_eq!(sys_write(&s, &mut files, &mut fs, 3, b"!!"), FdIo::Done(2));
    assert_eq!(files.files[e].offset, 7);
    assert_eq!(sys_lseek(&mut files.files[e], 7, 0, 0), 0);
    let mut all = [0u8; 16];
    assert_eq!(sys_read(&s, &mut files, &fs, 3, &mut all), FdIo::Done(7));
    assert_eq!(&all[..7], b"hello!!");
}

#[test]
fn append_writes_land_at_the_end() {
    let mut w = world();
    let mut files = OpenFiles::new();
    let mut s = running(&mut w, &mut files);
    let mut fs = Ramfs::new();
    fs.write_file("/log", b"ab").unwrap();
    let fd = open_path("/log", O_WRONLY | O_APPEND, &mut fs, &mut s, &mut files);
    assert_eq!(fd, 3);
    assert_eq!(sys_write(&s, &mut files, &mut fs, 3, b"cd"), FdIo::Done(2));
    let h = fs.open("/log").unwrap();
    let mut out = [0u8; 8];
    assert_eq!(fs.read(h, 0, &mut out), Ok(4));
    assert_eq!(&out[..4], b"abcd");
    // Not open for reading.
    let mut buf = [0u8; 2];
    assert_eq!(sys_read(&s, &mut files, &fs, 3, &mut buf), FdIo::Done(-9));
}

#[test]
fn read_and_write_errors_and_devices() {
    let mut w = world();
    let mut files = OpenFiles::new();
    let mut fs = Ramfs::new();
    let mut buf = [9u8; 4];
    // No current process.
    let idle = Scheduler::new();
    assert_eq!(sys_read(&idle, &mut files, &fs, 0, &mut buf), FdIo::Done(-1));
    assert_eq!(sys_write(&idle, &mut files, &mut fs, 1, b"x"), FdIo::Done(-1));
    let mut s = running(&mut w, &mut files);
    // Empty buffers do nothing.
    assert_eq!(sys_read(&s, &mut files, &fs, 9, &mut []), FdIo::Done(0));
    assert_eq!(sys_write(&s, &mut files, &mut fs, 9, b""), FdIo::Done(0));
    // A free descriptor.
    assert_eq!(sys_read(&s, &mut files, &fs, 9, &mut buf), FdIo::Done(-9));
    assert_eq!(sys_write(&s, &mut files, &mut fs, 9, b"x"), FdIo::Done(-9));
    // The console.
    assert_eq!(sys_read(&s, &mut files, &fs, 0, &mut buf), FdIo::Console);
    assert_eq!(sys_write(&s, &mut files, &mut fs, 1, b"hi"), FdIo::Console);
    // Devices.
    assert_eq!(open_path("/dev/zero", 0, &mut fs, &mut s, &mut files), 3);
    assert_eq!(sys_read(&s, &mut files, &fs, 3, &mut buf), FdIo::Done(4));
    assert_eq!(buf, [0u8; 4]);
    assert_eq!(sys_write(&s, &mut files, &mut fs, 3, b"abc"), FdIo::Done(3));
    assert_eq!(open_path("/dev/null", 0, &mut fs, &mut s, &mut files), 4);
    buf = [9u8; 4];
    assert_eq!(sys_read(&s, &mut files, &fs, 4, &mut buf), FdIo::Done(0));
    assert_eq!(buf, [9u8; 4]);
    assert_eq!(sys_write(&s, &mut files, &mut fs, 4, b"abc"), FdIo::Done(3));
    // A directory.
    fs.mkdir("/tmp").unwrap();
    assert_eq!(open_path("/tmp", O_DIRECTORY, &mut fs, &mut s, &mut files), 5);
    assert_eq!(sys_read(&s, &mut files, &fs, 5, &mut buf), FdIo::Done(-21));
    // A directory is not open for writing.
    assert_eq!(sys_write(&s, &mut files, &mut fs, 5, b"x"), FdIo::Done(-9));
}

#[test]
fn open_creates_or_refuses_missing_files() {
    let mut w = world();
    let mut files = OpenFiles::new();
    let mut s = running(&mut w, &mut files);
    let mut fs = Ramfs::new();
    assert_eq!(open_path("/nope", O_RDWR, &mut fs, &mut s, &mut files), -2);
    assert!(fs.open("/nope").is_none());
    assert_eq!(open_path("/new", O_RDWR | O_CREAT, &mut fs, &mut s, &mut files), 3);
    assert!(fs.open("/new").is_some());
    assert_eq!(sys_write(&s, &mut files, &mut fs, 3, b"data"), FdIo::Done(4));
    let h = fs.open("/new").unwrap();
    assert_eq!(fs.stat(h).size, 4);
}

fn slots(s: &Scheduler) -> Vec<Option<usize>> {
    let t = &s.current().unwrap().fd_table;
    (0..16).map(|i| t.get(i)).collect()
}

#[test]
fn close_dup_dup2_fcntl() {
    let mut w = world();
    let mut files = OpenFiles::new();
    let mut s = running(&mut w, &mut files);
    let mut pipes = PipeTable::new();
    assert_eq!(sys_dup(&mut s, &files, &mut pipes, 1), 3);
    assert_eq!(slots(&s)[3], Some(1));
    assert_eq!(sys_dup(&mut s, &files, &mut pipes, 9), -9);
    assert_eq!(sys_close(&mut s, &files, &mut pipes, 0), 0);
    assert_eq!(sys_close(&mut s, &files, &mut pipes, 0), -9);
    assert_eq!(sys_close(&mut s, &files, &mut pipes, 99), -9);
    // The lowest free descriptor is 0 again.
    assert_eq!(sys_dup(&mut s, &files, &mut pipes, 2), 0);
    assert_eq!(slots(&s)[0], Some(2));
    // dup2 replaces what the target named.
    assert_eq!(sys_dup2(&mut s, &files, &mut pipes, 1, 0), 0);
    assert_eq!(slots(&s)[0], Some(1));
    assert_eq!(sys_dup2(&mut s, &files, &mut pipes, 1, 1), 1);
    assert_eq!(sys_dup2(&mut s, &files, &mut pipes, 1, 16), -9);
    assert_eq!(sys_dup2(&mut s, &files, &mut pipes, 7, 8), -9);
    assert_eq!(sys_dup2(&mut s, &files, &mut pipes, 2, 10), 10);
    assert_eq!(slots(&s)[10], Some(2));
    // F_DUPFD from 5: the lowest free one at or above 5.
    assert_eq!(sys_fcntl(&mut s, 2, 0, 5), 5);
    assert_eq!(sys_fcntl(&mut s, 2, 1030, 10), 11);
    assert_eq!(sys_fcntl(&mut s, 2, 3, 0), 0);
    assert_eq!(sys_fcntl(&mut s, 9, 0, 0), -9);
    assert_eq!(sys_fcntl(&mut s, 2, 0, 16), -24);
    // Without a current process.
    let mut idle = Scheduler::new();
    assert_eq!(sys_close(&mut idle, &files, &mut pipes, 0), -1);
    assert_eq!(sys_dup(&mut idle, &files, &mut pipes, 0), -1);
    assert_eq!(sys_dup2(&mut idle, &files, &mut pipes, 0, 1), -1);
    assert_eq!(sys_fcntl(&mut idle, 0, 0, 0), -1);
}

#[test]
fn dup_fails_when_the_table_is_full() {
    let mut w = world();
    let mut files = OpenFiles::new();
    let mut s = running(&mut w, &mut files);
    let mut pipes = PipeTable::new();
    for fd in 3..16 {
        assert_eq!(sys_dup(&mut s, &files, &mut pipes, 0), fd);
    }
    assert_eq!(sys_dup(&mut s, &files, &mut pipes, 0), -24);
}

#[test]
fn stat_of_paths_and_descriptors() {
    let mut w = world();
    let mut files = OpenFiles::new();
    let mut s = running(&mut w, &mut files);
    let mut fs = Ramfs::new();
    fs.write_file("/etc/motd", b"hello").unwrap();
    let root = stat_path(&fs, "/").unwrap();
    assert_eq!((root.st_mode, root.st_size), (0o040755, 0));
    let etc = stat_path(&fs, "/etc").unwrap();
    assert_eq!(etc.st_mode, 0o040755);
    let motd = stat_path(&fs, "/etc/motd").unwrap();
    assert_eq!((motd.st_mode, motd.st_size, motd.st_blocks), (0o100644, 5, 1));
    assert_eq!(stat_path(&fs, "/nope"), Err(-2));
    // Through descriptors.
    let tty = sys_fstat(&s, &files, &fs, 0).unwrap();
    assert_eq!((tty.st_mode, tty.st_size), (0o100644, 0));
    assert_eq!(open_path("/etc/motd", 0, &mut fs, &mut s, &mut files), 3);
    assert_eq!(sys_fstat(&s, &files, &fs, 3).unwrap().st_size, 5);
    assert_eq!(open_path("/etc", O_DIRECTORY, &mut fs, &mut s, &mut files), 4);
    assert_eq!(sys_fstat(&s, &files, &fs, 4).unwrap().st_mode, 0o040755);
    assert_eq!(sys_fstat(&s, &files, &fs, 9), Err(-9));
    assert_eq!(sys_fstat(&Scheduler::new(), &files, &fs, 0), Err(-1));
}

#[test]
fn access_mkdir_rename_unlink() {
    let mut fs = Ramfs::new();
    fs.write_file("/a/b", b"x").unwrap();
    assert_eq!(sys_access(&fs, "/a/b"), 0);
    // access looks for an entry only; faccessat knows directories too.
    assert_eq!(sys_access(&fs, "/a"), -2);
    assert_eq!(sys_faccessat(&fs, "/a"), 0);
    assert_eq!(sys_faccessat(&fs, "/"), 0);
    assert_eq!(sys_faccessat(&fs, "/c"), -2);
    assert_eq!(sys_mkdir(&mut fs, "/a"), -17);
    assert_eq!(sys_mkdir(&mut fs, "/a/b"), -17);
    assert_eq!(sys_mkdir(&mut fs, "/"), -17);
    assert_eq!(sys_mkdir(&mut fs, "/d"), 0);
    assert_eq!(stat_path(&fs, "/d").unwrap().st_mode, 0o040755);
    assert_eq!(sys_rename(&mut fs, "/a/b", "/d/b"), 0);
    assert_eq!(sys_access(&fs, "/a/b"), -2);
    assert_eq!(sys_access(&fs, "/d/b"), 0);
    assert_eq!(sys_rename(&mut fs, "/zzz", "/y"), -2);
    assert_eq!(sys_unlink(&mut fs, "/d/b"), 0);
    assert_eq!(sys_unlink(&mut fs, "/d/b"), -2);
}

#[test]
fn chdir_follows_existing_directories() {
    let mut w = world();
    let mut files = OpenFiles::new();
    let mut s = running(&mut w, &mut files);
    let mut fs = Ramfs::new();
    fs.write_file("/usr/bin/ls", b"").unwrap();
    fs.mkdir("/usr/bin").unwrap();
    assert_eq!(sys_chdir(&mut s, &fs, "usr"), 0);
    assert_eq!(s.current().unwrap().cwd, "/usr");
    assert_eq!(sys_chdir(&mut s, &fs, "bin/../bin"), 0);
    assert_eq!(s.current().unwrap().cwd, "/usr/bin");
    assert_eq!(sys_chdir(&mut s, &fs, "nowhere"), -2);
    assert_eq!(s.current().unwrap().cwd, "/usr/bin");
    assert_eq!(sys_chdir(&mut s, &fs, "/"), 0);
    assert_eq!(s.current().unwrap().cwd, "/");
    assert_eq!(sys_chdir(&mut Scheduler::new(), &fs, "/"), -1);
}

#[test]
fn pread_leaves_the_offset() {
    let mut w = world();
    let mut files = OpenFiles::new();
    let mut s = running(&mut w, &mut files);
    let mut fs = Ramfs::new();
    fs.write_file("/f", b"abcdef").unwrap();
    assert_eq!(open_path("/f", 0, &mut fs, &mut s, &mut files), 3);
    let mut buf = [0u8; 3];
    assert_eq!(sys_pread(&s, &files, &fs, 3, &mut buf, 2), 3);
    assert_eq!(&buf, b"cde");
    assert_eq!(sys_pread(&s, &files, &fs, 3, &mut buf, 5), 1);
    assert_eq!(buf[0], b'f');
    assert_eq!(files.files[3].offset, 0);
    // The console has no file behind it.
    assert_eq!(sys_pread(&s, &files, &fs, 0, &mut buf, 0), -9);
    assert_eq!(sys_pread(&s, &files, &fs, 12, &mut buf, 0), -9);
}

#[test]
fn ioctl_reports_the_terminal_size() {
    let mut w = world();
    let mut files = OpenFiles::new();
    let mut s = running(&mut w, &mut files);
    let mut fs = Ramfs::new();
    assert_eq!(sys_ioctl(&s, &files, 1, 0x5413), Ok(vec![24, 0, 80, 0, 0, 0, 0, 0]));
    assert_eq!(sys_ioctl(&s, &files, 1, 0x5401), Err(-25));
    assert_eq!(open_path("/dev/null", 0, &mut fs, &mut s, &mut files), 3);
    assert_eq!(sys_ioctl(&s, &files, 3, 0x5413), Err(-25));
    assert_eq!(sys_ioctl(&s, &files, 7, 0x5413), Err(-9));
}

#[test]
fn arch_prctl_sets_the_fs_base() {
    let mut w = world();
    let mut files = OpenFiles::new();
    let mut s = running(&mut w, &mut files);
    assert_eq!(sys_arch_prctl(&mut s, 0x1002, 0xdead_0000), 0);
    assert_eq!(s.current().unwrap().fs_base, 0xdead_0000);
    assert_eq!(sys_arch_prctl(&mut s, 0x1003, 0), 0);
    assert_eq!(s.current().unwrap().fs_base, 0xdead_0000);
    assert_eq!(sys_arch_prctl(&mut s, 0x1004, 0), -22);
    assert_eq!(sys_arch_prctl(&mut Scheduler::new(), 0x1002, 1), -1);
}

#[test]
fn writev_writes_the_buffers_in_order() {
    let mut w = world();
    let mut files = OpenFiles::new();
    let mut s = running(&mut w, &mut files);
    let mut fs = Ramfs::new();
    fs.write_file("/out", b"").unwrap();
    assert_eq!(open_path("/out", O_RDWR, &mut fs, &mut s, &mut files), 3);
    let bufs = vec![b"ab".to_vec(), vec![], b"cde".to_vec()];
    assert_eq!(sys_writev(&s, &mut files, &mut fs, 3, &bufs), FdIo::Done(5));
    assert_eq!(files.files[3].offset, 5);
    let h = fs.open("/out").unwrap();
    let mut out = [0u8; 8];
    assert_eq!(fs.read(h, 0, &mut out), Ok(5));
    assert_eq!(&out[..5], b"abcde");
    // Appending leaves the offset where it was.
    assert_eq!(open_path("/out", O_WRONLY | O_APPEND, &mut fs, &mut s, &mut files), 4);
    assert_eq!(sys_writev(&s, &mut files, &mut fs, 4, &[b"fg".to_vec(), b"h".to_vec()]), FdIo::Done(3));
    assert_eq!(files.files[4].offset, 0);
    assert_eq!(fs.read(h, 0, &mut out), Ok(8));
    assert_eq!(&out, b"abcdefgh");
    // The console and the devices.
    assert_eq!(sys_writev(&s, &mut files, &mut fs, 1, &bufs), FdIo::Console);
    assert_eq!(open_path("/dev/null", 0, &mut fs, &mut s, &mut files), 5);
    assert_eq!(sys_writev(&s, &mut files, &mut fs, 5, &bufs), FdIo::Done(5));
    assert_eq!(sys_writev(&s, &mut files, &mut fs, 9, &bufs), FdIo::Done(-9));
}
