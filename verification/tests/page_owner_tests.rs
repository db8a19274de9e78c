use ferrum::page_owner::{dump, init, owned_by, tag_lt, tag_usage, track, untrack, PageOwners, RESERVE_CAPACITY};

#[test]
fn init_reserves_room() {
    let mut o = PageOwners::new();
    assert_eq!(o.capacity, 0);
    init(&mut o);
    assert_eq!(o.capacity, RESERVE_CAPACITY);
    init(&mut o);
    assert_eq!(o.capacity, RESERVE_CAPACITY);
}

#[test]
fn untrack_undoes_track() {
    let mut o = PageOwners::new();
    init(&mut o);
    track(&mut o, 0x1000, 0, "kernel", 0);
    track(&mut o, 0x2000, 1, "vma:heap", 4);
    let before: Vec<(u64, &str, u64, usize)> = o.owners.iter().map(|(a, r)| (*a, r.tag, r.pid, r.order)).collect();
    track(&mut o, 0x9000, 2, "page-table:pml4", 4);
    let r = untrack(&mut o, 0x9000).expect("the record");
    assert_eq!((r.tag, r.pid, r.order), ("page-table:pml4", 4, 2));
    let after: Vec<(u64, &str, u64, usize)> = o.owners.iter().map(|(a, r)| (*a, r.tag, r.pid, r.order)).collect();
    assert_eq!(after, before);
    assert!(untrack(&mut o, 0x9000).is_none());
}

#[test]
fn untrack_moves_the_last_record_into_the_gap() {
    let mut o = PageOwners::new();
    init(&mut o);
    track(&mut o, 0x1000, 0, "a", 1);
    track(&mut o, 0x2000, 0, "b", 2);
    track(&mut o, 0x3000, 0, "c", 1);
    assert_eq!(untrack(&mut o, 0x1000).map(|r| r.tag), Some("a"));
    let addrs: Vec<u64> = o.owners.iter().map(|e| e.0).collect();
    assert_eq!(addrs, vec![0x3000, 0x2000]);
    let mine: Vec<u64> = owned_by(&o, 1).iter().map(|e| e.0).collect();
    assert_eq!(mine, vec![0x3000]);
}

#[test]
fn tag_usage_counts_blocks_and_pages_of_one_tag() {
    let mut o = PageOwners::new();
    init(&mut o);
    track(&mut o, 0x10_0000, 0, "vma:anon", 1);
    track(&mut o, 0x20_0000, 3, "kernel-stack", 1);
    track(&mut o, 0x30_0000, 2, "vma:anon", 2);
    assert_eq!(tag_usage(&o, "vma:anon"), (2, 5));
    assert_eq!(tag_usage(&o, "kernel-stack"), (1, 8));
    assert_eq!(tag_usage(&o, "vma:heap"), (0, 0));
}

#[test]
fn dump_sums_each_tag_in_ascending_order() {
    let mut o = PageOwners::new();
    init(&mut o);
    track(&mut o, 0x1000, 0, "vma:heap", 1);
    track(&mut o, 0x2000, 3, "kernel-stack", 1);
    track(&mut o, 0x10000, 0, "vma:heap", 2);
    track(&mut o, 0x20000, 2, "vma:heap", 2);
    track(&mut o, 0x30000, 0, "page-table:pml4", 2);
    let (len, capacity, lines) = dump(&o);
    assert_eq!((len, capacity), (5, RESERVE_CAPACITY));
    let rows: Vec<(&str, u64, u64)> = lines.iter().map(|l| (l.tag, l.blocks, l.pages)).collect();
    assert_eq!(rows, vec![("kernel-stack", 1, 8), ("page-table:pml4", 1, 1), ("vma:heap", 3, 6)]);
}

#[test]
fn dump_of_an_empty_table() {
    let o = PageOwners::new();
    let (len, capacity, lines) = dump(&o);
    assert_eq!((len, capacity, lines.len()), (0, 0, 0));
}

#[test]
fn tags_compare_by_characters() {
    assert!(tag_lt("a", "b"));
    assert!(tag_lt("vma", "vma:heap"));
    assert!(!tag_lt("vma:heap", "vma"));
    assert!(!tag_lt("kernel", "kernel"));
    assert!(tag_lt("Z", "a"));
}
