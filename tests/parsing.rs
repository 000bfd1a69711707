use memscan::maps::{parse_line, region_kind, MemoryRegionIterator};
use memscan::memory::{MemoryKind, MemoryPermission, MemoryRegion};
use memscan::procfs::{parse_pid, process_ids, ProcessEntry};
use memscan::text::{contains_bytes, parse_number, split_bytes};
use memscan::win32::{
    next_query_address, region_entry, windows_permission, MemoryBasicInformation, MEM_COMMIT,
    PAGE_EXECUTE_READ, PAGE_EXECUTE_WRITECOPY, PAGE_READONLY, PAGE_READWRITE,
};

const MAPS: &str = "\
55d0c0a00000-55d0c0a02000 r--p 00000000 08:01 1048602                    /usr/bin/sleep
55d0c0a02000-55d0c0a06000 r-xp 00002000 08:01 1048602                    /usr/bin/sleep
55d0c0a0a000-55d0c0a0b000 rw-p 0000a000 08:01 1048602                    /usr/bin/sleep
55d0c1f4e000-55d0c1f6f000 rw-p 00000000 00:00 0                          [heap]
7f1d2c000000-7f1d2c200000 r--p 00000000 08:01 1050000                    /usr/lib/libc.so.6
7f1d2c400000-7f1d2c401000 ---p 00000000 00:00 0                          [stack]
7ffc9a3e0000-7ffc9a401000 rw-p 00000000 00:00 0                          [stack]
";

fn region(start: usize, end: usize, permission: MemoryPermission, kind: MemoryKind) -> MemoryRegion {
    MemoryRegion { start, end, permission, kind }
}

#[test]
fn splits_at_every_separator() {
    assert_eq!(split_bytes(b"a-b", b'-'), vec![b"a".to_vec(), b"b".to_vec()]);
    assert_eq!(split_bytes(b"a  b", b' '), vec![b"a".to_vec(), vec![], b"b".to_vec()]);
    assert_eq!(split_bytes(b"", b' '), vec![Vec::<u8>::new()]);
    assert_eq!(split_bytes(b"x\n", b'\n'), vec![b"x".to_vec(), vec![]]);
}

#[test]
fn numbers_in_a_base() {
    assert_eq!(parse_number(b"7ffc9a3e0000", 16, u64::MAX), Some(0x7ffc9a3e0000));
    assert_eq!(parse_number(b"ABCdef", 16, u64::MAX), Some(0xabcdef));
    assert_eq!(parse_number(b"ffffffffffffffff", 16, u64::MAX), Some(u64::MAX));
    assert_eq!(parse_number(b"10000000000000000", 16, u64::MAX), None);
    assert_eq!(parse_number(b"", 16, u64::MAX), None);
    assert_eq!(parse_number(b"12g", 16, u64::MAX), None);
    assert_eq!(parse_number(b"1a", 10, u64::MAX), None);
    assert_eq!(parse_number(b"4294967295", 10, 4294967295), Some(4294967295));
    assert_eq!(parse_number(b"4294967296", 10, 4294967295), None);
}

#[test]
fn substring_search() {
    assert!(contains_bytes(b"/usr/bin/sleep", b"sleep"));
    assert!(contains_bytes(b"[stack]", b"[stack]"));
    assert!(!contains_bytes(b"[stac", b"[stack]"));
    assert!(contains_bytes(b"anything", b""));
    assert!(!contains_bytes(b"/usr/lib/libc.so.6", b"sleep"));
}

#[test]
fn parses_a_maps_line() {
    let e = parse_line(b"55d0c1f4e000-55d0c1f6f000 rw-p 00000000 00:00 0                          [heap]").unwrap();
    assert_eq!(e.start, 0x55d0c1f4e000);
    assert_eq!(e.end, 0x55d0c1f6f000);
    assert_eq!(e.permission, MemoryPermission::READWRITE);
    assert_eq!(e.info, b"[heap]".to_vec());
}

#[test]
fn maps_line_permissions_and_labels() {
    let ro = parse_line(b"1000-2000 r--p 00000000 08:01 5 /bin/x").unwrap();
    assert_eq!(ro.permission, MemoryPermission::READONLY);
    assert_eq!(ro.info, b"/bin/x".to_vec());
    let none = parse_line(b"1000-2000 ---p 00000000 00:00 0").unwrap();
    assert_eq!(none.permission, MemoryPermission::NONE);
    assert_eq!(none.info, Vec::<u8>::new());
    let exec = parse_line(b"1000-2000 r-xp 00000000 00:00 0").unwrap();
    assert_eq!(exec.permission, MemoryPermission::READONLY);
}

#[test]
fn malformed_maps_lines_are_refused() {
    assert!(parse_line(b"").is_none());
    assert!(parse_line(b"zz-2000 rw-p 0 0 0").is_none());
    assert!(parse_line(b"2000-1000 rw-p 0 0 0").is_none());
    assert!(parse_line(b"1000-2000-3000 rw-p 0 0 0").is_none());
    assert!(parse_line(b"1000 rw-p 0 0 0").is_none());
}

#[test]
fn kinds_by_label_in_priority() {
    assert_eq!(region_kind(b"[stack]", b"sleep"), Some(MemoryKind::STACK));
    assert_eq!(region_kind(b"[heap]", b"sleep"), Some(MemoryKind::HEAP));
    assert_eq!(region_kind(b"/usr/bin/sleep", b"sleep"), Some(MemoryKind::UNKNOWN));
    assert_eq!(region_kind(b"/usr/lib/libc.so.6", b"sleep"), None);
    assert_eq!(region_kind(b"", b"sleep"), None);
}

#[test]
fn region_iterator_filters_and_orders() {
    let mut it = MemoryRegionIterator::new(MAPS, "sleep", 0, usize::MAX);
    let all = it.remaining_regions();
    assert_eq!(
        all,
        vec![
            region(0x55d0c0a00000, 0x55d0c0a02000, MemoryPermission::READONLY, MemoryKind::UNKNOWN),
            region(0x55d0c0a02000, 0x55d0c0a06000, MemoryPermission::READONLY, MemoryKind::UNKNOWN),
            region(0x55d0c0a0a000, 0x55d0c0a0b000, MemoryPermission::READWRITE, MemoryKind::UNKNOWN),
            region(0x55d0c1f4e000, 0x55d0c1f6f000, MemoryPermission::READWRITE, MemoryKind::HEAP),
            region(0x7ffc9a3e0000, 0x7ffc9a401000, MemoryPermission::READWRITE, MemoryKind::STACK),
        ]
    );
    assert!(it.next().is_none());
}

#[test]
fn region_iterator_window() {
    let mut it = MemoryRegionIterator::new(MAPS, "sleep", 0x55d0c0a02000, 0x55d0c1f4e000 - 0x55d0c0a02000);
    assert_eq!(
        it.next(),
        Some(region(0x55d0c0a02000, 0x55d0c0a06000, MemoryPermission::READONLY, MemoryKind::UNKNOWN))
    );
    assert_eq!(
        it.next(),
        Some(region(0x55d0c0a0a000, 0x55d0c0a0b000, MemoryPermission::READWRITE, MemoryKind::UNKNOWN))
    );
    assert_eq!(it.next(), None);
    assert_eq!(it.next(), None);
}

#[test]
fn region_iterator_skips_overlap_and_empty_table() {
    let text = "2000-3000 rw-p 0 0 0 [heap]\n2800-2900 rw-p 0 0 0 [heap]\n3000-4000 rw-p 0 0 0 [stack]";
    let all = MemoryRegionIterator::new(text, "x", 0, usize::MAX).remaining_regions();
    assert_eq!(
        all,
        vec![
            region(0x2000, 0x3000, MemoryPermission::READWRITE, MemoryKind::HEAP),
            region(0x3000, 0x4000, MemoryPermission::READWRITE, MemoryKind::STACK),
        ]
    );
    assert!(MemoryRegionIterator::new("", "x", 0, usize::MAX).remaining_regions().is_empty());
}

#[test]
fn proc_entries_that_are_processes() {
    assert_eq!(parse_pid("1"), Some(1));
    assert_eq!(parse_pid("359907"), Some(359907));
    assert_eq!(parse_pid("self"), None);
    assert_eq!(parse_pid(""), None);
    assert_eq!(parse_pid("-1"), None);
    assert_eq!(parse_pid("4294967295"), Some(4294967295));
    assert_eq!(parse_pid("4294967296"), None);
    let names: Vec<String> = ["1", "self", "42", "net", "7x", "1000"].iter().map(|s| s.to_string()).collect();
    assert_eq!(process_ids(&names), vec![1, 42, 1000]);
}

#[test]
fn process_entry_name_drops_trailing_whitespace() {
    let e = ProcessEntry::new(42, "sleep\n");
    assert_eq!(e.id(), 42);
    assert_eq!(e.name(), "sleep");
    assert_eq!(ProcessEntry::new(1, "a b \t\n").name(), "a b");
    assert_eq!(ProcessEntry::new(1, "").name(), "");
    assert_eq!(ProcessEntry::new(1, "x\u{3000}\u{85}").name(), "x");
    assert_eq!(ProcessEntry::new(1, "x\u{200b}").name(), "x\u{200b}");
}

#[test]
fn windows_protections() {
    assert_eq!(windows_permission(PAGE_READONLY), Some(MemoryPermission::READONLY));
    assert_eq!(windows_permission(PAGE_EXECUTE_READ), Some(MemoryPermission::READONLY));
    assert_eq!(windows_permission(PAGE_READWRITE), Some(MemoryPermission::READWRITE));
    assert_eq!(windows_permission(PAGE_EXECUTE_WRITECOPY), Some(MemoryPermission::READWRITE));
    assert_eq!(windows_permission(0x01), None);
    assert_eq!(windows_permission(PAGE_READWRITE | 0x100), None);
}

#[test]
fn windows_committed_readable_regions_only() {
    let info = MemoryBasicInformation {
        base_address: 0x400000,
        region_size: 0x1000,
        state: MEM_COMMIT,
        protect: PAGE_READWRITE,
    };
    let e = region_entry(&info, b"Doukutsu.exe").unwrap();
    assert_eq!((e.start, e.end), (0x400000, 0x401000));
    assert_eq!(e.permission, MemoryPermission::READWRITE);
    assert_eq!(e.info, b"Doukutsu.exe".to_vec());
    assert!(region_entry(&MemoryBasicInformation { state: 0x2000, ..info }, b"").is_none());
    assert!(region_entry(&MemoryBasicInformation { protect: 0x01, ..info }, b"").is_none());
    assert_eq!(next_query_address(&info), Some(0x401000));
    assert_eq!(next_query_address(&MemoryBasicInformation { region_size: 0, ..info }), None);
    assert_eq!(
        next_query_address(&MemoryBasicInformation { base_address: usize::MAX - 1, region_size: 2, ..info }),
        None
    );
}
