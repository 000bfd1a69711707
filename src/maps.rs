//! The Linux region enumerator: the lines of `/proc/<pid>/maps`, parsed and
//! filtered into the regions that a scan reads.
use vstd::prelude::*;
use vstd::slice::slice_to_vec;
use vstd::string::StringSliceAdditionalSpecFns;

use crate::memory::{regions_ordered, MemoryKind, MemoryPermission, MemoryRegion};
use crate::text::{has_substring, contains_bytes, number_of, parse_number, split_bytes, split_on, lemma_split_on_nonempty};

verus! {

/// One line of the maps table, parsed: its address range, the permission
/// that its second column gives, and the label of its sixth column (empty
/// where there is none).
#[derive(Debug)]
pub struct MemoryRegionEntry {
    pub start: usize,
    pub end: usize,
    pub permission: MemoryPermission,
    pub info: Vec<u8>,
}

/// The permission that a maps line's second column gives: `r-` read-only,
/// `rw` read-write, anything else none.
pub open spec fn permission_of(field: Seq<u8>) -> MemoryPermission {
    if field.len() >= 2 && field[0] == 114u8 && field[1] == 45u8 {
        MemoryPermission::READONLY
    } else if field.len() >= 2 && field[0] == 114u8 && field[1] == 119u8 {
        MemoryPermission::READWRITE
    } else {
        MemoryPermission::NONE
    }
}

/// The first non-empty field from position `i` on, or nothing.
pub open spec fn label_from(fields: Seq<Seq<u8>>, i: int) -> Seq<u8>
    decreases fields.len() - i,
{
    if i < 0 || i >= fields.len() {
        Seq::empty()
    } else if fields[i].len() > 0 {
        fields[i]
    } else {
        label_from(fields, i + 1)
    }
}

/// A maps line read as `begin-end perms offset dev inode label`: fields
/// apart by single spaces, `begin` and `end` hexadecimal with
/// `begin < end`. `None` for a line that is not of this form.
pub open spec fn parse_line_spec(line: Seq<u8>) -> Option<(usize, usize, MemoryPermission, Seq<u8>)> {
    let fields = split_on(line, 32u8);
    let range = split_on(fields[0], 45u8);
    let start = number_of(range[0], 16, usize::MAX as int);
    let end = number_of(range[1], 16, usize::MAX as int);
    if range.len() == 2 && start is Some && end is Some && start->0 < end->0 {
        let perm = if fields.len() >= 2 {
            permission_of(fields[1])
        } else {
            MemoryPermission::NONE
        };
        Some((start->0 as usize, end->0 as usize, perm, label_from(fields, 5)))
    } else {
        None
    }
}

/// The label of the main thread's stack, `[stack]`.
pub open spec fn stack_label() -> Seq<u8> {
    seq![91u8, 115u8, 116u8, 97u8, 99u8, 107u8, 93u8]
}

/// The label of the heap, `[heap]`.
pub open spec fn heap_label() -> Seq<u8> {
    seq![91u8, 104u8, 101u8, 97u8, 112u8, 93u8]
}

/// The kind of a region with label `info` in a process named `name`: stack,
/// heap, or `UNKNOWN` for a mapping of the process's own image, in that
/// priority; `None` for any other mapping.
pub open spec fn kind_of(info: Seq<u8>, name: Seq<u8>) -> Option<MemoryKind> {
    if has_substring(info, stack_label()) {
        Some(MemoryKind::STACK)
    } else if has_substring(info, heap_label()) {
        Some(MemoryKind::HEAP)
    } else if has_substring(info, name) {
        Some(MemoryKind::UNKNOWN)
    } else {
        None
    }
}

/// The regions that the lines from position `i` on yield, in a process named
/// `name`, for the window of starts `[offset, offset + limit)`. A line is
/// skipped where it does not parse, where its start lies below the window or
/// below `floor` (the end of the region emitted before it), where its
/// permission is none, or where it is neither stack, heap nor the process's
/// own image. The first line whose start lies at or past the window's end
/// stops the enumeration.
pub open spec fn regions_from(
    lines: Seq<Seq<u8>>,
    i: int,
    name: Seq<u8>,
    floor: int,
    offset: int,
    limit: int,
) -> Seq<MemoryRegion>
    decreases lines.len() - i,
{
    if i < 0 || i >= lines.len() {
        Seq::empty()
    } else {
        match parse_line_spec(lines[i]) {
            None => regions_from(lines, i + 1, name, floor, offset, limit),
            Some((s, e, perm, info)) => {
                if s < floor || s < offset {
                    regions_from(lines, i + 1, name, floor, offset, limit)
                } else if s - offset >= limit {
                    Seq::empty()
                } else if perm == MemoryPermission::NONE {
                    regions_from(lines, i + 1, name, floor, offset, limit)
                } else {
                    match kind_of(info, name) {
                        None => regions_from(lines, i + 1, name, floor, offset, limit),
                        Some(k) => seq![MemoryRegion { start: s, end: e, permission: perm, kind: k }]
                            + regions_from(lines, i + 1, name, e as int, offset, limit),
                    }
                }
            },
        }
    }
}

/// The regions that the maps table `text` of a process named `name` yields
/// for the window of starts `[offset, offset + limit)`.
pub open spec fn regions_of(text: Seq<u8>, name: Seq<u8>, offset: int, limit: int) -> Seq<MemoryRegion> {
    regions_from(split_on(text, 10u8), 0, name, offset, offset, limit)
}

/// The first non-empty field from position `i` on, or nothing.
fn label_at(fields: &Vec<Vec<u8>>, i: usize) -> (r: Vec<u8>)
    ensures
        r@ == label_from(fields@.map_values(|t: Vec<u8>| t@), i as int),
{
    let ghost fs = fields@.map_values(|t: Vec<u8>| t@);
    let mut k: usize = i;
    while k < fields.len()
        invariant
            i <= k,
            fs == fields@.map_values(|t: Vec<u8>| t@),
            label_from(fs, i as int) == label_from(fs, k as int),
        decreases fields@.len() - k,
    {
        if fields[k].len() > 0 {
            return fields[k].clone();
        }
        k = k + 1;
    }
    Vec::new()
}

/// Parses one line of the maps table; `None` where it is not of the form
/// `begin-end perms offset dev inode label` with hexadecimal `begin < end`.
pub fn parse_line(line: &[u8]) -> (r: Option<MemoryRegionEntry>)
    ensures
        match (r, parse_line_spec(line@)) {
            (Some(e), Some((s, t, p, info))) => e.start == s && e.end == t && e.permission == p
                && e.info@ == info,
            (None, None) => true,
            _ => false,
        },
{
    let fields = split_bytes(line, 32u8);
    let ghost fs = fields@.map_values(|t: Vec<u8>| t@);
    proof {
        lemma_split_on_nonempty(line@, 32u8);
    }
    assert(fs[0] == fields@[0]@);
    let range = split_bytes(fields[0].as_slice(), 45u8);
    let ghost rs = range@.map_values(|t: Vec<u8>| t@);
    if range.len() != 2 {
        return None;
    }
    assert(rs[0] == range@[0]@ && rs[1] == range@[1]@);
    let start = match parse_number(range[0].as_slice(), 16, usize::MAX as u64) {
        Some(v) => v as usize,
        None => {
            return None;
        },
    };
    let end = match parse_number(range[1].as_slice(), 16, usize::MAX as u64) {
        Some(v) => v as usize,
        None => {
            return None;
        },
    };
    if start >= end {
        return None;
    }
    let permission = if fields.len() >= 2 {
        let f = &fields[1];
        assert(fs[1] == f@);
        if f.len() >= 2 && f[0] == 114u8 && f[1] == 45u8 {
            MemoryPermission::READONLY
        } else if f.len() >= 2 && f[0] == 114u8 && f[1] == 119u8 {
            MemoryPermission::READWRITE
        } else {
            MemoryPermission::NONE
        }
    } else {
        MemoryPermission::NONE
    };
    let info = label_at(&fields, 5);
    Some(MemoryRegionEntry { start, end, permission, info })
}

/// The kind of a region labelled `info` in a process named `name`: stack,
/// heap, or `UNKNOWN` for a mapping of the process's own image, in that
/// priority; `None` for any other mapping.
pub fn region_kind(info: &[u8], name: &[u8]) -> (r: Option<MemoryKind>)
    ensures
        r == kind_of(info@, name@),
{
    let stack: Vec<u8> = vec![91u8, 115u8, 116u8, 97u8, 99u8, 107u8, 93u8];
    let heap: Vec<u8> = vec![91u8, 104u8, 101u8, 97u8, 112u8, 93u8];
    assert(stack@ =~= stack_label());
    assert(heap@ =~= heap_label());
    if contains_bytes(info, stack.as_slice()) {
        Some(MemoryKind::STACK)
    } else if contains_bytes(info, heap.as_slice()) {
        Some(MemoryKind::HEAP)
    } else if contains_bytes(info, name) {
        Some(MemoryKind::UNKNOWN)
    } else {
        None
    }
}

/// The regions of one process's maps table, in table order, for a window of
/// start addresses.
pub struct MemoryRegionIterator {
    lines: Vec<Vec<u8>>,
    line: usize,
    floor: usize,
    done: bool,
    name: Vec<u8>,
    offset: usize,
    limit: usize,
}

impl MemoryRegionIterator {
    /// The regions not yet returned.
    pub closed spec fn remaining(&self) -> Seq<MemoryRegion> {
        if self.done {
            Seq::empty()
        } else {
            regions_from(
                self.lines@.map_values(|t: Vec<u8>| t@),
                self.line as int,
                self.name@,
                self.floor as int,
                self.offset as int,
                self.limit as int,
            )
        }
    }

    /// An enumerator over the maps table `maps` of a process whose short
    /// name is `name`, for the regions whose start lies in
    /// `[offset, offset + limit)`.
    pub fn new(maps: &str, name: &str, offset: usize, limit: usize) -> (r: Self)
        ensures
            r.remaining() == regions_of(maps.spec_bytes(), name.spec_bytes(), offset as int, limit as int),
    {
        let lines = split_bytes(maps.as_bytes(), 10u8);
        let own = slice_to_vec(name.as_bytes());
        MemoryRegionIterator { lines, line: 0, floor: offset, done: false, name: own, offset, limit }
    }

    /// The next region, or `None` once there is none left.
    pub fn next(&mut self) -> (r: Option<MemoryRegion>)
        ensures
            old(self).remaining().len() == 0 ==> r is None && final(self).remaining().len() == 0,
            old(self).remaining().len() > 0 ==> r == Some(old(self).remaining()[0])
                && final(self).remaining() == old(self).remaining().drop_first(),
    {
        if self.done {
            return None;
        }
        let ghost ls = self.lines@.map_values(|t: Vec<u8>| t@);
        while self.line < self.lines.len()
            invariant
                !self.done,
                ls == self.lines@.map_values(|t: Vec<u8>| t@),
                self.lines == old(self).lines,
                self.name == old(self).name,
                self.offset == old(self).offset,
                self.limit == old(self).limit,
                self.floor == old(self).floor,
                self.remaining() == old(self).remaining(),
            decreases self.lines@.len() - self.line,
        {
            let i = self.line;
            assert(ls[i as int] == self.lines@[i as int]@);
            match parse_line(self.lines[i].as_slice()) {
                None => {
                    self.line = i + 1;
                },
                Some(entry) => {
                    let s = entry.start;
                    if s < self.floor || s < self.offset {
                        self.line = i + 1;
                    } else if s - self.offset >= self.limit {
                        self.done = true;
                        return None;
                    } else if entry.permission == MemoryPermission::NONE {
                        self.line = i + 1;
                    } else {
                        match region_kind(entry.info.as_slice(), self.name.as_slice()) {
                            None => {
                                self.line = i + 1;
                            },
                            Some(kind) => {
                                let region = MemoryRegion {
                                    start: s,
                                    end: entry.end,
                                    permission: entry.permission,
                                    kind,
                                };
                                self.line = i + 1;
                                self.floor = entry.end;
                                assert(old(self).remaining() == seq![region] + self.remaining());
                                assert(self.remaining() =~= old(self).remaining().drop_first());
                                return Some(region);
                            },
                        }
                    }
                },
            }
        }
        None
    }

    /// All the regions not yet returned, in order.
    pub fn remaining_regions(&mut self) -> (r: Vec<MemoryRegion>)
        ensures
            r@ == old(self).remaining(),
            final(self).remaining().len() == 0,
    {
        let mut out: Vec<MemoryRegion> = Vec::new();
        loop
            invariant
                out@ + self.remaining() == old(self).remaining(),
            decreases self.remaining().len(),
        {
            match self.next() {
                Some(region) => {
                    out.push(region);
                    assert(out@ + self.remaining() =~= old(self).remaining());
                },
                None => {
                    assert(out@ =~= old(self).remaining());
                    return out;
                },
            }
        }
    }
}

/// Every region that the enumeration yields has a permission other than
/// none, a start in the window and at or above `floor`, and the regions come
/// in strictly ascending order without overlap.
pub proof fn lemma_regions_from_ordered(
    lines: Seq<Seq<u8>>,
    i: int,
    name: Seq<u8>,
    floor: int,
    offset: int,
    limit: int,
)
    ensures
        regions_ordered(regions_from(lines, i, name, floor, offset, limit)),
        forall|k: int|
            0 <= k < regions_from(lines, i, name, floor, offset, limit).len() ==> {
                let r = #[trigger] regions_from(lines, i, name, floor, offset, limit)[k];
                &&& r.permission != MemoryPermission::NONE
                &&& floor <= r.start
                &&& offset <= r.start
                &&& r.start - offset < limit
                &&& r.start < r.end
            },
    decreases lines.len() - i,
{
    if 0 <= i < lines.len() {
        lemma_regions_from_ordered(lines, i + 1, name, floor, offset, limit);
        match parse_line_spec(lines[i]) {
            Some((s, e, perm, info)) => {
                lemma_regions_from_ordered(lines, i + 1, name, e as int, offset, limit);
                let rest = regions_from(lines, i + 1, name, e as int, offset, limit);
                let all = regions_from(lines, i, name, floor, offset, limit);
                if !(s < floor || s < offset) && !(s - offset >= limit) && perm != MemoryPermission::NONE
                    && kind_of(info, name) is Some {
                    assert forall|a: int, b: int| 0 <= a < b < all.len() implies (#[trigger] all[a]).end
                        <= (#[trigger] all[b]).start by {
                        if a > 0 {
                            assert(all[a] == rest[a - 1] && all[b] == rest[b - 1]);
                        } else {
                            assert(all[b] == rest[b - 1]);
                        }
                    }
                    assert forall|k: int| 0 <= k < all.len() implies (#[trigger] all[k]).start <= all[k].end by {
                        if k > 0 {
                            assert(all[k] == rest[k - 1]);
                        }
                    }
                    assert forall|k: int| 0 <= k < all.len() implies {
                        let r = #[trigger] all[k];
                        &&& r.permission != MemoryPermission::NONE
                        &&& floor <= r.start
                        &&& offset <= r.start
                        &&& r.start - offset < limit
                        &&& r.start < r.end
                    } by {
                        if k > 0 {
                            assert(all[k] == rest[k - 1]);
                        }
                    }
                }
            },
            None => {},
        }
    }
}

/// The regions that a maps table yields are ordered as a scan requires:
/// ascending, without overlap, each readable and with its start in the
/// window.
pub proof fn lemma_regions_of_ordered(text: Seq<u8>, name: Seq<u8>, offset: int, limit: int)
    ensures
        regions_ordered(regions_of(text, name, offset, limit)),
        forall|k: int|
            0 <= k < regions_of(text, name, offset, limit).len() ==> {
                let r = #[trigger] regions_of(text, name, offset, limit)[k];
                &&& r.permission != MemoryPermission::NONE
                &&& offset <= r.start
                &&& r.start - offset < limit
            },
{
    lemma_regions_from_ordered(split_on(text, 10u8), 0, name, offset, offset, limit);
}

} // verus!
