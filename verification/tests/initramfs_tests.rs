use ferrum::fs::ramfs::Ramfs;
use ferrum::fs::vfs::FileType;
use ferrum::initramfs::{extract, normalize_path, Header};

fn header(mode: u32, filesize: usize, namesize: usize) -> Vec<u8> {
    let mut h = b"070701".to_vec();
    let fields = [1u32, mode, 0, 0, 1, 0, filesize as u32, 0, 0, 0, 0, namesize as u32, 0];
    for f in fields {
        h.extend_from_slice(format!("{:08X}", f).as_bytes());
    }
    h
}

fn pad4(v: &mut Vec<u8>) {
    while v.len() % 4 != 0 {
        v.push(0);
    }
}

fn entry(archive: &mut Vec<u8>, name: &str, mode: u32, data: &[u8]) {
    archive.extend_from_slice(&header(mode, data.len(), name.len() + 1));
    archive.extend_from_slice(name.as_bytes());
    archive.push(0);
    pad4(archive);
    archive.extend_from_slice(data);
    pad4(archive);
}

fn read_all(fs: &Ramfs, path: &str) -> Option<Vec<u8>> {
    let h = fs.open(path)?;
    let size = fs.stat(h).size;
    let mut buf = vec![0u8; size];
    fs.read(h, 0, &mut buf).ok()?;
    Some(buf)
}

#[test]
fn header_fields_are_eight_hex_digits() {
    let h = Header::parse(&header(0o100644, 0x1a, 9)).expect("a header");
    assert_eq!(h.mode, 0o100644);
    assert_eq!(h.filesize, 0x1a);
    assert_eq!(h.namesize, 9);
    let mut bad = header(0o100644, 1, 2);
    bad[20] = b'g';
    assert!(Header::parse(&bad).is_none());
    let mut lower = header(0, 0xab, 2);
    lower[54..62].copy_from_slice(b"000000ab");
    assert_eq!(Header::parse(&lower).unwrap().filesize, 0xab);
}

#[test]
fn names_go_below_the_root() {
    assert_eq!(normalize_path("./bin/init"), "/bin/init");
    assert_eq!(normalize_path("etc/motd"), "/etc/motd");
    assert_eq!(normalize_path("."), "/.");
}

#[test]
fn extract_unpacks_files_and_directories() {
    let mut a = Vec::new();
    entry(&mut a, ".", 0o040755, b"");
    entry(&mut a, "./bin", 0o040755, b"");
    entry(&mut a, "./bin/init", 0o100755, b"hello");
    entry(&mut a, "etc/motd", 0o100644, b"welcome\n");
    entry(&mut a, "./lnk", 0o120777, b"bin/init");
    entry(&mut a, "./dev/null", 0o020666, b"");
    entry(&mut a, "TRAILER!!!", 0, b"");
    entry(&mut a, "./after", 0o100644, b"ignored");
    let mut fs = Ramfs::new();
    extract(&a, &mut fs);
    assert_eq!(read_all(&fs, "/bin/init"), Some(b"hello".to_vec()));
    assert_eq!(read_all(&fs, "/etc/motd"), Some(b"welcome\n".to_vec()));
    let bin = fs.open("/bin").unwrap();
    assert_eq!(fs.stat(bin).file_type, FileType::Directory);
    assert!(fs.open("/.").is_none());
    assert!(fs.open("/lnk").is_none());
    assert!(fs.open("/dev/null").is_none());
    assert!(fs.open("/after").is_none());
    assert_eq!(fs.list_dir("/"), vec!["bin".to_string()]);
}

#[test]
fn extract_stops_at_damage() {
    let mut a = Vec::new();
    entry(&mut a, "one", 0o100644, b"1");
    let mut b = a.clone();
    // Bad magic on the second entry.
    entry(&mut b, "two", 0o100644, b"2");
    let second = a.len();
    b[second] = b'1';
    let mut fs = Ramfs::new();
    extract(&b, &mut fs);
    assert_eq!(read_all(&fs, "/one"), Some(b"1".to_vec()));
    assert!(fs.open("/two").is_none());

    // Data cut short.
    let mut c = a.clone();
    entry(&mut c, "three", 0o100644, b"333333");
    c.truncate(c.len() - 8);
    let mut fs2 = Ramfs::new();
    extract(&c, &mut fs2);
    assert!(fs2.open("/one").is_some());
    assert!(fs2.open("/three").is_none());

    // Nothing at all.
    let mut fs3 = Ramfs::new();
    extract(b"", &mut fs3);
    assert!(fs3.list_dir("/").is_empty());
}
