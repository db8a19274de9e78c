use ferrum::allocator::{BuddyAllocator, PhysAddr};
use ferrum::fd::{FdTable, OpenFiles};
use ferrum::fs::procfs::{format_maps, format_status, ProcfsNode};
use ferrum::fs::ramfs::Ramfs;
use ferrum::fs::vfs::{read_at, FileType, Stat};
use ferrum::paging::{PageTableManager, PhysMemory};
use ferrum::process::{Context, Process, ProcessState};
use ferrum::vma::{AddressSpace, VMAFlags, VMAKind, VMA};

#[test]
fn read_at_copies_what_fits() {
    let data = b"hello world";
    let mut buf = [0u8; 5];
    assert_eq!(read_at(data, 6, &mut buf), 5);
    assert_eq!(&buf, b"world");
    let mut big = [9u8; 8];
    assert_eq!(read_at(data, 8, &mut big), 3);
    assert_eq!(&big, b"rld\x09\x09\x09\x09\x09");
    assert_eq!(read_at(data, 11, &mut big), 0);
    assert_eq!(read_at(data, 100, &mut big), 0);
}

#[test]
fn ramfs_create_write_read() {
    let mut fs = Ramfs::new();
    assert!(fs.open("/a").is_none());
    assert_eq!(fs.create("/a", FileType::Regular), Ok(()));
    assert_eq!(fs.create("/a", FileType::Regular), Err("file already exists"));
    let h = fs.open("/a").unwrap();
    assert_eq!(fs.stat(h), Stat { file_type: FileType::Regular, size: 0 });
    assert_eq!(fs.write(h, 2, b"xyz"), Ok(3));
    assert_eq!(fs.stat(h).size, 5);
    let mut buf = [7u8; 6];
    assert_eq!(fs.read(h, 0, &mut buf), Ok(5));
    assert_eq!(&buf, &[0, 0, b'x', b'y', b'z', 7]);
    assert_eq!(fs.write(h, 0, b"ab"), Ok(2));
    let mut buf2 = [0u8; 5];
    assert_eq!(fs.read(h, 0, &mut buf2), Ok(5));
    assert_eq!(&buf2, b"abxyz");
}

#[test]
fn ramfs_write_file_replaces_or_adds() {
    let mut fs = Ramfs::new();
    assert_eq!(fs.write_file("/etc/motd", b"hi"), Ok(()));
    let h = fs.open("/etc/motd").unwrap();
    assert_eq!(fs.stat(h).size, 2);
    assert_eq!(fs.write_file("/etc/motd", b"hello"), Ok(()));
    let h2 = fs.open("/etc/motd").unwrap();
    let mut buf = [0u8; 8];
    assert_eq!(fs.read(h2, 0, &mut buf), Ok(5));
    assert_eq!(&buf[..5], b"hello");
    // The handle opened before names the same node.
    assert_eq!(fs.stat(h).size, 5);
}

#[test]
fn ramfs_unlink_rename_mkdir() {
    let mut fs = Ramfs::new();
    fs.write_file("/x", b"1").unwrap();
    let h = fs.open("/x").unwrap();
    assert_eq!(fs.rename("/x", "/y"), Ok(()));
    assert!(fs.open("/x").is_none());
    assert!(fs.open("/y").is_some());
    assert_eq!(fs.rename("/x", "/z"), Err("not found"));
    assert_eq!(fs.unlink("/y"), Ok(()));
    assert_eq!(fs.unlink("/y"), Err("not found"));
    // An open handle still reads the node.
    let mut b = [0u8; 1];
    assert_eq!(fs.read(h, 0, &mut b), Ok(1));
    assert_eq!(fs.mkdir("/d"), Ok(()));
    assert_eq!(fs.mkdir("/d"), Ok(()));
    let d = fs.open("/d").unwrap();
    assert_eq!(fs.stat(d).file_type, FileType::Directory);
    assert_eq!(fs.symlink("/l", "/d"), Ok(()));
    assert!(fs.open("/l").is_none());
}

#[test]
fn ramfs_lists_direct_children_only() {
    let mut fs = Ramfs::new();
    fs.mkdir("/bin").unwrap();
    fs.write_file("/bin/init", b"").unwrap();
    fs.write_file("/bin/sh", b"").unwrap();
    fs.write_file("/bin/sub/deep", b"").unwrap();
    fs.write_file("/etc", b"").unwrap();
    assert_eq!(fs.list_dir("/"), vec!["bin".to_string(), "etc".to_string()]);
    assert_eq!(fs.list_dir("/bin"), vec!["init".to_string(), "sh".to_string()]);
    assert!(fs.list_dir("/none").is_empty());
}

#[test]
fn procfs_is_read_only() {
    let mut n = ProcfsNode::new(b"abc".to_vec());
    assert_eq!(n.stat(), Stat { file_type: FileType::Regular, size: 3 });
    assert_eq!(n.write(0, b"x"), Err("procfs is read-only"));
    let mut buf = [0u8; 2];
    assert_eq!(n.read(1, &mut buf), Ok(2));
    assert_eq!(&buf, b"bc");
    let c = n.clone_node();
    assert_eq!(c.stat().size, 3);
}

fn process_with(vmas: Vec<VMA>) -> Process {
    let mut alloc = BuddyAllocator::new();
    alloc.add_region(PhysAddr::new(0x10_0000), 0x1_0000);
    let mut mem = PhysMemory::new();
    let pt = PageTableManager::new(&mut alloc, &mut mem).unwrap();
    let mut space = AddressSpace::new(pt, 5);
    for v in vmas {
        space.add_vma(v).unwrap();
    }
    let mut files = OpenFiles::new();
    Process {
        pid: 5,
        parent_pid: 1,
        state: ProcessState::Ready,
        exit_code: 0,
        context: Context::zero(),
        kernel_stack_alloc: None,
        kernel_stack_top: 0,
        address_space: space,
        fd_table: FdTable::new_stdio(&mut files),
        fs_base: 0,
        brk_start: 0x60_0000,
        brk_current: 0x60_3000,
        cwd: "/".to_string(),
    }
}

#[test]
fn maps_lists_areas_with_rights_and_labels() {
    let p = process_with(vec![
        VMA::new(0x40_0000, 0x40_1000, VMAFlags::rx(), VMAKind::Anonymous),
        VMA::new(0x7fff_0000, 0x8000_0000, VMAFlags::rw(), VMAKind::Stack),
        VMA::new(0x60_0000, 0x60_3000, VMAFlags::rw(), VMAKind::Heap),
    ]);
    let text = format_maps(&p);
    let expected = "0000000000400000-0000000000401000 r-xp 00000000 00:00 0          \n\
                    0000000000600000-0000000000603000 rw-p 00000000 00:00 0          [heap]\n\
                    000000007fff0000-0000000080000000 rw-p 00000000 00:00 0          [stack]\n";
    assert_eq!(text, expected);
}

#[test]
fn status_reports_pid_state_and_sizes() {
    let p = process_with(vec![
        VMA::new(0x40_0000, 0x40_2000, VMAFlags::rx(), VMAKind::Anonymous),
        VMA::new(0x60_0000, 0x60_3000, VMAFlags::rw(), VMAKind::Heap),
    ]);
    let text = format_status(&p);
    assert_eq!(
        text,
        "Name:\tprocess\nPid:\t5\nPPid:\t1\nState:\tR (running)\nThreads:\t1\nVmSize:\t20 kB\nVmHeap:\t12 kB\n"
    );
}
