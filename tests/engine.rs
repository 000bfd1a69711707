use std::cell::RefCell;

use memscan::context::{ScanParam, ScanResultParams, ScannerContext};
use memscan::memory::{MemoryKind, MemoryPermission, MemoryRegion, Process, PID};
use memscan::scanner::{
    entries_from_reads, find_matches, page, read_request, retain_matches, ScanResultEntry, Scanner,
};
use memscan::value::ElementType;
use memscan::value::{ScanError, ScanNumber, ScanValue, ScanValueType};

/// A target held in this process: regions of bytes that tests map, change
/// and unmap.
struct FakeProcess {
    pid: PID,
    regions: RefCell<Vec<(usize, Vec<u8>)>>,
}

impl FakeProcess {
    fn map(&self, start: usize, bytes: Vec<u8>) {
        self.regions.borrow_mut().push((start, bytes));
        self.regions.borrow_mut().sort_by_key(|r| r.0);
    }

    fn unmap(&self, start: usize) {
        self.regions.borrow_mut().retain(|r| r.0 != start);
    }

    fn layout(&self) -> Vec<MemoryRegion> {
        self.regions
            .borrow()
            .iter()
            .map(|(s, b)| MemoryRegion {
                start: *s,
                end: *s + b.len(),
                permission: MemoryPermission::READWRITE,
                kind: MemoryKind::HEAP,
            })
            .collect()
    }
}

impl Process for FakeProcess {
    fn spec_pid(&self) -> PID {
        self.pid
    }

    fn spec_name(&self) -> String {
        self.name()
    }

    fn open(pid: PID) -> Result<Self, String> {
        if pid < 0 {
            return Err("no such process".to_string());
        }
        Ok(FakeProcess { pid, regions: RefCell::new(Vec::new()) })
    }

    fn pid(&self) -> PID {
        self.pid
    }

    fn name(&self) -> String {
        "target".to_string()
    }

    fn attach(&self) -> Result<(), String> {
        Ok(())
    }

    fn detach(&self) -> Result<(), String> {
        Ok(())
    }

    fn read_memory(&self, offset: usize, len: usize) -> Result<Vec<u8>, String> {
        for (s, b) in self.regions.borrow().iter() {
            if *s <= offset && offset + len <= *s + b.len() {
                return Ok(b[offset - s..offset - s + len].to_vec());
            }
        }
        Err("unmapped".to_string())
    }

    fn write_memory(&self, offset: usize, bytes: &[u8]) -> Result<(), String> {
        for (s, b) in self.regions.borrow_mut().iter_mut() {
            if *s <= offset && offset + bytes.len() <= *s + b.len() {
                b[offset - *s..offset - *s + bytes.len()].copy_from_slice(bytes);
                return Ok(());
            }
        }
        Err("unmapped".to_string())
    }
}

fn dword(v: u64) -> ScanParam {
    ScanParam { value: ScanValue { type_: ScanValueType::DWORD, value: ScanNumber::PosInt(v) } }
}

fn selected(pid: PID) -> ScannerContext<FakeProcess> {
    let mut ctx = ScannerContext::new();
    ctx.select_process(pid).unwrap();
    ctx
}

fn addresses(ctx: &ScannerContext<FakeProcess>) -> Vec<usize> {
    let all = ctx.scan_result(&ScanResultParams { offset: 0, limit: usize::MAX }).unwrap();
    all.iter().map(|e| e.address).collect()
}

#[test]
fn matches_at_every_byte_offset() {
    let bytes = [1u8, 2, 1, 2, 1, 2];
    assert_eq!(find_matches(100, &bytes, &[1, 2]), vec![100, 102, 104]);
    assert_eq!(find_matches(100, &bytes, &[2, 1]), vec![101, 103]);
    assert_eq!(find_matches(0, &[7, 7, 7], &[7, 7]), vec![0, 1]);
    assert_eq!(find_matches(0, &[7], &[7, 7]), Vec::<usize>::new());
    assert_eq!(find_matches(0, &[], &[7]), Vec::<usize>::new());
}

#[test]
fn value_at_region_end_is_found() {
    let bytes = [0u8, 0, 0x44, 0x33, 0x22, 0x11];
    assert_eq!(find_matches(0x1000, &bytes, &[0x44, 0x33, 0x22, 0x11]), vec![0x1002]);
}

#[test]
fn rescan_drops_failed_and_differing_reads() {
    let addrs = [10usize, 20, 30, 40];
    let reads = vec![Some(vec![1u8, 0]), None, Some(vec![2, 0]), Some(vec![1, 0])];
    assert_eq!(retain_matches(&addrs, &reads, &[1, 0]), vec![10, 40]);
}

#[test]
fn page_windows() {
    let addrs: Vec<usize> = (0..10).map(|i| 0x1000 + 4 * i).collect();
    assert_eq!(page(&addrs, 3, 4), vec![0x100c, 0x1010, 0x1014, 0x1018]);
    assert_eq!(page(&addrs, 8, 4), vec![0x1020, 0x1024]);
    assert_eq!(page(&addrs, 10, 4), Vec::<usize>::new());
    assert_eq!(page(&addrs, usize::MAX, usize::MAX), Vec::<usize>::new());
    assert_eq!(page(&addrs, 0, usize::MAX), addrs);
    assert_eq!(page(&addrs, 2, 0), Vec::<usize>::new());
}

#[test]
fn scanner_starts_empty() {
    let p = FakeProcess::open(3).unwrap();
    let s = Scanner::new(p);
    assert!(s.get_addresses().is_empty());
    assert_eq!(s.process().pid(), 3);
}

#[test]
fn scanner_skips_unreadable_regions() {
    let p = FakeProcess::open(3).unwrap();
    p.map(0x1000, vec![5, 0, 5, 0]);
    let mut regions = p.layout();
    regions.push(MemoryRegion {
        start: 0x9000,
        end: 0x9010,
        permission: MemoryPermission::READONLY,
        kind: MemoryKind::STACK,
    });
    let mut s = Scanner::new(p);
    s.new_scan(&regions, &[5, 0]);
    assert_eq!(s.get_addresses(), &[0x1000, 0x1002]);
}

#[test]
fn narrow_to_one() {
    let mut ctx = selected(7);
    let t = ctx.target().unwrap();
    let mut a = vec![0u8; 64];
    a[13..17].copy_from_slice(&0x11223344u32.to_le_bytes());
    t.map(0x1000, a);
    t.map(0x2000, vec![0x44, 0x33, 0x22, 0x11, 0, 0, 0, 0]);
    let regions = t.layout();
    let count = ctx.new_scan(&regions, &dword(287454020)).unwrap().count;
    assert!(count >= 1);
    assert_eq!(count, 2);
    assert!(addresses(&ctx).contains(&0x100d));
    ctx.target().unwrap().write_memory(0x100d, &0x55667788u32.to_le_bytes()).unwrap();
    let count = ctx.next_scan(&dword(1432778632)).unwrap().count;
    assert_eq!(count, 1);
    assert_eq!(addresses(&ctx), vec![0x100d]);
}

#[test]
fn type_mismatch_leaves_candidates() {
    let mut ctx = selected(7);
    let t = ctx.target().unwrap();
    t.map(0x1000, vec![1, 0, 0, 0, 1, 0, 0, 0]);
    let regions = t.layout();
    assert_eq!(ctx.new_scan(&regions, &dword(1)).unwrap().count, 2);
    let word = ScanParam { value: ScanValue { type_: ScanValueType::WORD, value: ScanNumber::PosInt(1) } };
    assert_eq!(ctx.next_scan(&word).err(), Some(ScanError::TypeMismatch));
    let signed = ScanParam { value: ScanValue { type_: ScanValueType::DWORD, value: ScanNumber::NegInt(-1) } };
    assert_eq!(ctx.next_scan(&signed).err(), Some(ScanError::TypeMismatch));
    assert_eq!(addresses(&ctx), vec![0x1000, 0x1004]);
}

#[test]
fn unmapped_region_is_silent() {
    let mut ctx = selected(7);
    let t = ctx.target().unwrap();
    t.map(0x1000, vec![9, 0, 0, 0]);
    t.map(0x5000, vec![9, 0, 0, 0]);
    let regions = t.layout();
    assert_eq!(ctx.new_scan(&regions, &dword(9)).unwrap().count, 2);
    ctx.target().unwrap().unmap(0x5000);
    assert_eq!(ctx.next_scan(&dword(9)).unwrap().count, 1);
    assert_eq!(addresses(&ctx), vec![0x1000]);
}

#[test]
fn pagination() {
    let mut ctx = selected(8);
    let t = ctx.target().unwrap();
    let mut bytes = Vec::new();
    for i in 0..10u32 {
        bytes.extend_from_slice(&0x0badf00du32.to_le_bytes());
        bytes.extend_from_slice(&i.to_le_bytes());
    }
    t.map(0x4000, bytes);
    let regions = t.layout();
    assert_eq!(ctx.new_scan(&regions, &dword(0x0badf00d)).unwrap().count, 10);
    let all = addresses(&ctx);
    let window = ctx.scan_result(&ScanResultParams { offset: 3, limit: 4 }).unwrap();
    assert_eq!(window.len(), 4);
    let got: Vec<usize> = window.iter().map(|e| e.address).collect();
    assert_eq!(got, all[3..7].to_vec());
    assert_eq!(got, vec![0x4018, 0x4020, 0x4028, 0x4030]);
    assert!(window.iter().all(|e| e.value == 0x0badf00d));
}

#[test]
fn self_locate_after_write() {
    let mut ctx = selected(7);
    let t = ctx.target().unwrap();
    t.map(0x1000, vec![0u8; 32]);
    t.write_memory(0x1007, &0xcafef00du32.to_le_bytes()).unwrap();
    let regions = t.layout();
    ctx.new_scan(&regions, &dword(0xcafef00d)).unwrap();
    assert!(addresses(&ctx).contains(&0x1007));
}

#[test]
fn round_trip_through_memory() {
    let mut ctx = selected(7);
    let t = ctx.target().unwrap();
    t.map(0x1000, vec![0u8; 16]);
    t.write_memory(0x1003, &(-77i32).to_le_bytes()).unwrap();
    let regions = t.layout();
    let v = ScanParam { value: ScanValue { type_: ScanValueType::DWORD, value: ScanNumber::NegInt(-77) } };
    assert_eq!(ctx.new_scan(&regions, &v).unwrap().count, 1);
    let r = ctx.scan_result(&ScanResultParams { offset: 0, limit: 1 }).unwrap();
    assert_eq!(r, vec![ScanResultEntry { address: 0x1003, value: -77 }]);
}

#[test]
fn rescans_only_shrink() {
    let mut ctx = selected(7);
    let t = ctx.target().unwrap();
    t.map(0x1000, vec![1, 0, 1, 0, 1, 0, 2, 0, 1, 0]);
    let regions = t.layout();
    let w = |v: u64| ScanParam { value: ScanValue { type_: ScanValueType::WORD, value: ScanNumber::PosInt(v) } };
    let first = ctx.new_scan(&regions, &w(1)).unwrap().count;
    assert_eq!(addresses(&ctx), vec![0x1000, 0x1002, 0x1004, 0x1008]);
    let second = ctx.next_scan(&w(1)).unwrap().count;
    assert_eq!(first, second);
    ctx.target().unwrap().write_memory(0x1002, &[3, 0]).unwrap();
    let third = ctx.next_scan(&w(1)).unwrap().count;
    assert_eq!(third, 3);
    let fourth = ctx.next_scan(&w(2)).unwrap().count;
    assert_eq!(fourth, 0);
    assert!(addresses(&ctx).is_empty());
}

#[test]
fn session_errors() {
    let fresh: ScannerContext<FakeProcess> = ScannerContext::default();
    assert!(fresh.target().is_none());
    let mut ctx: ScannerContext<FakeProcess> = ScannerContext::new();
    assert!(ctx.target().is_none());
    assert_eq!(ctx.new_scan(&Vec::new(), &dword(1)).err(), Some(ScanError::NoTarget));
    assert_eq!(ctx.next_scan(&dword(1)).err(), Some(ScanError::NoTarget));
    assert_eq!(ctx.scan_result(&ScanResultParams { offset: 0, limit: 1 }).err(), Some(ScanError::NoTarget));
    assert_eq!(ctx.select_process(-4).err(), Some(ScanError::OpenFailed));
    assert!(ctx.target().is_none());
    let dto = ctx.select_process(12).unwrap();
    assert_eq!(dto.pid, 12);
    assert_eq!(dto.name, "target");
    assert_eq!(ctx.next_scan(&dword(1)).err(), Some(ScanError::NoScan));
    assert_eq!(ctx.scan_result(&ScanResultParams { offset: 0, limit: 1 }).err(), Some(ScanError::NoScan));
    let big = ScanParam { value: ScanValue { type_: ScanValueType::Byte, value: ScanNumber::PosInt(99999) } };
    assert_eq!(ctx.new_scan(&Vec::new(), &big).err(), Some(ScanError::OutOfRange));
    let float = ScanParam { value: ScanValue { type_: ScanValueType::Float, value: ScanNumber::NonInteger } };
    assert_eq!(ctx.new_scan(&Vec::new(), &float).err(), Some(ScanError::Unsupported));
    assert_eq!(ctx.next_scan(&dword(1)).err(), Some(ScanError::NoScan));
}

#[test]
fn rescan_errors_keep_the_active_scan() {
    let mut ctx = selected(7);
    let t = ctx.target().unwrap();
    t.map(0x1000, vec![4, 0, 0, 0]);
    let regions = t.layout();
    ctx.new_scan(&regions, &dword(4)).unwrap();
    let float = ScanParam { value: ScanValue { type_: ScanValueType::Double, value: ScanNumber::PosInt(4) } };
    assert_eq!(ctx.next_scan(&float).err(), Some(ScanError::Unsupported));
    assert_eq!(ctx.next_scan(&dword(1 << 40)).err(), Some(ScanError::OutOfRange));
    assert_eq!(addresses(&ctx), vec![0x1000]);
}

#[test]
fn failed_read_fails_the_listing() {
    let mut ctx = selected(7);
    let t = ctx.target().unwrap();
    t.map(0x1000, vec![4, 0, 0, 0]);
    let regions = t.layout();
    ctx.new_scan(&regions, &dword(4)).unwrap();
    ctx.target().unwrap().unmap(0x1000);
    assert_eq!(ctx.scan_result(&ScanResultParams { offset: 0, limit: 5 }).err(), Some(ScanError::ReadFailed));
}

#[test]
fn selecting_again_resets_the_session() {
    let mut ctx = selected(7);
    let t = ctx.target().unwrap();
    t.map(0x1000, vec![4, 0, 0, 0]);
    let regions = t.layout();
    ctx.new_scan(&regions, &dword(4)).unwrap();
    ctx.select_process(9).unwrap();
    assert_eq!(ctx.target().unwrap().pid(), 9);
    assert_eq!(ctx.next_scan(&dword(4)).err(), Some(ScanError::NoScan));
}

#[test]
fn entries_decode_each_read() {
    let e = ElementType { kind: ScanValueType::WORD, signed: true };
    let reads = vec![Some(vec![0xff, 0xff]), Some(vec![0x34, 0x12])];
    assert_eq!(
        entries_from_reads(&[0x10, 0x20], &reads, e),
        Ok(vec![ScanResultEntry { address: 0x10, value: -1 }, ScanResultEntry { address: 0x20, value: 0x1234 }])
    );
    let failed = vec![Some(vec![1, 0]), None];
    assert_eq!(entries_from_reads(&[0x10, 0x20], &failed, e), Err(ScanError::ReadFailed));
    let short = vec![Some(vec![1])];
    assert_eq!(entries_from_reads(&[0x10], &short, e), Err(ScanError::ReadFailed));
    assert_eq!(entries_from_reads(&[], &Vec::new(), e), Ok(Vec::new()));
}

#[test]
fn region_read_requests() {
    let r = MemoryRegion { start: 0x1000, end: 0x3000, permission: MemoryPermission::READONLY, kind: MemoryKind::HEAP };
    assert_eq!(read_request(&r), Some((0x1000, 0x2000)));
    assert_eq!(read_request(&MemoryRegion { end: 0x800, ..r }), None);
}

#[test]
fn empty_window_needs_no_read() {
    let mut ctx = selected(7);
    let t = ctx.target().unwrap();
    t.map(0x1000, vec![4, 0, 0, 0]);
    let regions = t.layout();
    ctx.new_scan(&regions, &dword(4)).unwrap();
    ctx.target().unwrap().unmap(0x1000);
    assert_eq!(ctx.scan_result(&ScanResultParams { offset: 1, limit: 5 }), Ok(Vec::new()));
    assert_eq!(ctx.scan_result(&ScanResultParams { offset: 0, limit: 0 }), Ok(Vec::new()));
}
