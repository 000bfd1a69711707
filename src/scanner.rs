//! The scan engine: a candidate-address set narrowed by repeated comparisons
//! of the target's memory against the byte image of a value.
use vstd::prelude::*;

use crate::memory::{MemoryRegion, Process};
use crate::value::{decode, decode_spec, ElementType, ScanError};

verus! {

/// Whether the bytes of `bytes` from offset `off` spell `pattern`.
pub open spec fn matches_at(bytes: Seq<u8>, off: int, pattern: Seq<u8>) -> bool {
    0 <= off && off + pattern.len() <= bytes.len() && bytes.subrange(off, off + pattern.len())
        == pattern
}

/// The addresses `start + off`, for the offsets `off < n` of `bytes` at which
/// `pattern` stands, in ascending order.
pub open spec fn matches_below(start: int, bytes: Seq<u8>, pattern: Seq<u8>, n: int) -> Seq<usize>
    decreases n,
{
    if n <= 0 {
        Seq::empty()
    } else {
        let prev = matches_below(start, bytes, pattern, n - 1);
        if matches_at(bytes, n - 1, pattern) {
            prev.push((start + n - 1) as usize)
        } else {
            prev
        }
    }
}

/// The addresses in a region that starts at `start` and holds `bytes` at
/// which `pattern` stands, in ascending order.
pub open spec fn region_matches(start: int, bytes: Seq<u8>, pattern: Seq<u8>) -> Seq<usize> {
    matches_below(start, bytes, pattern, bytes.len() as int)
}

/// Whether `snaps` can be what reading `regions` gave: one entry per region,
/// `None` for a failed read, else exactly the region's length in bytes.
pub open spec fn snapshots_fit(regions: Seq<MemoryRegion>, snaps: Seq<Option<Seq<u8>>>) -> bool {
    &&& snaps.len() == regions.len()
    &&& forall|i: int|
        0 <= i < snaps.len() && #[trigger] snaps[i] is Some ==> regions[i].start <= regions[i].end
            && snaps[i]->0.len() == regions[i].end - regions[i].start
}

/// The candidates that a new scan for `pattern` finds in the first `n`
/// regions, whose reads gave `snaps`: region by region, ascending within each.
pub open spec fn scanned(
    regions: Seq<MemoryRegion>,
    snaps: Seq<Option<Seq<u8>>>,
    pattern: Seq<u8>,
    n: int,
) -> Seq<usize>
    decreases n,
{
    if n <= 0 {
        Seq::empty()
    } else {
        scanned(regions, snaps, pattern, n - 1) + match snaps[n - 1] {
            Some(b) => region_matches(regions[n - 1].start as int, b, pattern),
            None => Seq::empty(),
        }
    }
}

/// The first `n` candidates of `addrs` kept by a rescan for `pattern`, where
/// reading at `addrs[i]` gave `reads[i]`: those whose read succeeded and gave
/// exactly `pattern`.
pub open spec fn retained(
    addrs: Seq<usize>,
    reads: Seq<Option<Seq<u8>>>,
    pattern: Seq<u8>,
    n: int,
) -> Seq<usize>
    decreases n,
{
    if n <= 0 {
        Seq::empty()
    } else {
        let prev = retained(addrs, reads, pattern, n - 1);
        if reads[n - 1] == Some(pattern) {
            prev.push(addrs[n - 1])
        } else {
            prev
        }
    }
}

/// The window of `addrs` that a page at `offset` of at most `limit` entries
/// covers.
pub open spec fn page_spec(addrs: Seq<usize>, offset: int, limit: int) -> Seq<usize> {
    let lo = if offset < addrs.len() {
        offset
    } else {
        addrs.len() as int
    };
    let hi = if limit < addrs.len() - lo {
        lo + limit
    } else {
        addrs.len() as int
    };
    addrs.subrange(lo, hi)
}

/// Whether `pattern` stands in `bytes` at offset `off`.
pub(crate) fn bytes_match_at(bytes: &[u8], off: usize, pattern: &[u8]) -> (r: bool)
    requires
        off + pattern@.len() <= bytes@.len(),
    ensures
        r == matches_at(bytes@, off as int, pattern@),
{
    let n = bytes.len();
    let mut j: usize = 0;
    while j < pattern.len()
        invariant
            n == bytes@.len(),
            off + pattern@.len() <= bytes@.len(),
            j <= pattern@.len(),
            forall|k: int| 0 <= k < j ==> bytes@[off + k] == #[trigger] pattern@[k],
        decreases pattern@.len() - j,
    {
        if bytes[off + j] != pattern[j] {
            assert(bytes@.subrange(off as int, off + pattern@.len())[j as int] != pattern@[j as int]);
            return false;
        }
        j = j + 1;
    }
    assert(bytes@.subrange(off as int, off + pattern@.len()) =~= pattern@);
    true
}

/// The addresses of a region starting at `start` and holding `bytes` at
/// which `pattern` stands, in ascending order.
pub fn find_matches(start: usize, bytes: &[u8], pattern: &[u8]) -> (r: Vec<usize>)
    requires
        start + bytes@.len() <= usize::MAX,
    ensures
        r@ == region_matches(start as int, bytes@, pattern@),
{
    let mut found: Vec<usize> = Vec::new();
    let mut off: usize = 0;
    while off < bytes.len()
        invariant
            start + bytes@.len() <= usize::MAX,
            off <= bytes@.len(),
            found@ == matches_below(start as int, bytes@, pattern@, off as int),
        decreases bytes@.len() - off,
    {
        if pattern.len() <= bytes.len() - off && bytes_match_at(bytes, off, pattern) {
            found.push(start + off);
        }
        off = off + 1;
    }
    found
}

/// The candidates of `addresses` that a rescan for `pattern` keeps, where
/// reading at `addresses[i]` gave `reads[i]`: those whose read gave exactly
/// `pattern`, in their order. A failed read drops its address silently.
pub fn retain_matches(addresses: &[usize], reads: &Vec<Option<Vec<u8>>>, pattern: &[u8]) -> (r: Vec<usize>)
    requires
        reads@.len() == addresses@.len(),
    ensures
        r@ == retained(addresses@, reads_view(reads@), pattern@, addresses@.len() as int),
{
    let mut kept: Vec<usize> = Vec::new();
    let mut i: usize = 0;
    while i < addresses.len()
        invariant
            reads@.len() == addresses@.len(),
            i <= addresses@.len(),
            kept@ == retained(addresses@, reads_view(reads@), pattern@, i as int),
        decreases addresses@.len() - i,
    {
        let keep = match &reads[i] {
            Some(b) => slices_equal(b.as_slice(), pattern),
            None => false,
        };
        if keep {
            kept.push(addresses[i]);
        }
        i = i + 1;
    }
    kept
}

/// The reads, as sequences of bytes.
pub open spec fn reads_view(reads: Seq<Option<Vec<u8>>>) -> Seq<Option<Seq<u8>>> {
    reads.map_values(|r: Option<Vec<u8>>| match r {
        Some(b) => Some(b@),
        None => None,
    })
}

fn slices_equal(a: &[u8], b: &[u8]) -> (r: bool)
    ensures
        r == (a@ == b@),
{
    if a.len() != b.len() {
        return false;
    }
    let eq = bytes_match_at(a, 0, b);
    assert(a@.subrange(0, b@.len() as int) =~= a@);
    eq
}

/// The window of `addresses` from `offset`, at most `limit` long; empty where
/// `offset` is past the end.
pub fn page(addresses: &[usize], offset: usize, limit: usize) -> (r: Vec<usize>)
    ensures
        r@ == page_spec(addresses@, offset as int, limit as int),
{
    let n = addresses.len();
    let lo = if offset < n {
        offset
    } else {
        n
    };
    let hi = if limit < n - lo {
        lo + limit
    } else {
        n
    };
    let mut out: Vec<usize> = Vec::new();
    let mut i: usize = lo;
    while i < hi
        invariant
            lo <= i <= hi <= n,
            n == addresses@.len(),
            out@ == addresses@.subrange(lo as int, i as int),
        decreases hi - i,
    {
        out.push(addresses[i]);
        i = i + 1;
        assert(out@ =~= addresses@.subrange(lo as int, i as int));
    }
    out
}

/// One row of a scan's results: a candidate address and the value that it
/// held when it was read.
#[derive(Clone, Copy, Debug, PartialEq, Eq, Structural)]
pub struct ScanResultEntry {
    pub address: usize,
    pub value: i128,
}

proof fn lemma_scanned_prefix(
    regions: Seq<MemoryRegion>,
    s1: Seq<Option<Seq<u8>>>,
    s2: Seq<Option<Seq<u8>>>,
    pattern: Seq<u8>,
    n: int,
)
    requires
        n <= s1.len(),
        n <= s2.len(),
        forall|j: int| 0 <= j < n ==> s1[j] == s2[j],
    ensures
        scanned(regions, s1, pattern, n) == scanned(regions, s2, pattern, n),
    decreases n,
{
    if n > 0 {
        lemma_scanned_prefix(regions, s1, s2, pattern, n - 1);
    }
}

/// The scan engine for one target: the current candidate addresses and the
/// element width of the scan that produced them.
pub struct Scanner<P: Process> {
    process: P,
    addresses: Vec<usize>,
    value_size: usize,
}

impl<P: Process> Scanner<P> {
    /// The target process.
    pub closed spec fn target(&self) -> P {
        self.process
    }

    /// The candidate addresses, in scan order.
    pub closed spec fn candidates(&self) -> Seq<usize> {
        self.addresses@
    }

    /// The element width in bytes recorded by the last new scan.
    pub closed spec fn element_width(&self) -> nat {
        self.value_size as nat
    }

    /// An engine for `process` with no candidates and no recorded width.
    pub fn new(process: P) -> (r: Self)
        ensures
            r.target() == process,
            r.candidates() == Seq::<usize>::empty(),
            r.element_width() == 0,
    {
        Scanner { process, addresses: Vec::new(), value_size: 0 }
    }

    /// The candidate addresses, in scan order.
    pub fn get_addresses(&self) -> (r: &[usize])
        ensures
            r@ == self.candidates(),
    {
        self.addresses.as_slice()
    }

    /// The target process.
    pub fn process(&self) -> (r: &P)
        ensures
            *r == self.target(),
    {
        &self.process
    }

    /// Replaces the candidates by every address of `regions` at which the
    /// target's memory holds `pattern`, and records its length as the element
    /// width. Each region is read whole, once; a region whose read fails, or
    /// returns another number of bytes than the region spans, is skipped.
    pub fn new_scan(&mut self, regions: &Vec<MemoryRegion>, pattern: &[u8])
        ensures
            final(self).target() == old(self).target(),
            final(self).element_width() == pattern@.len(),
            exists|snaps: Seq<Option<Seq<u8>>>|
                snapshots_fit(regions@, snaps) && final(self).candidates() == scanned(
                    regions@,
                    snaps,
                    pattern@,
                    regions@.len() as int,
                ),
    {
        self.addresses.clear();
        self.value_size = pattern.len();
        let ghost mut snaps: Seq<Option<Seq<u8>>> = Seq::empty();
        let mut i: usize = 0;
        while i < regions.len()
            invariant
                self.process == old(self).process,
                self.value_size == pattern@.len(),
                i <= regions@.len(),
                snaps.len() == i,
                forall|j: int|
                    0 <= j < i && #[trigger] snaps[j] is Some ==> regions@[j].start
                        <= regions@[j].end && snaps[j]->0.len() == regions@[j].end
                        - regions@[j].start,
                self.addresses@ == scanned(regions@, snaps, pattern@, i as int),
            decreases regions@.len() - i,
        {
            let region = regions[i];
            let ghost prev = snaps;
            let mut got: Option<Vec<u8>> = None;
            if let Some((start, len)) = read_request(&region) {
                match self.process.read_memory(start, len) {
                    Ok(buf) => {
                        if buf.len() == len {
                            got = Some(buf);
                        }
                    },
                    Err(_) => {},
                }
            }
            match got {
                Some(buf) => {
                    let mut found = find_matches(region.start, buf.as_slice(), pattern);
                    self.addresses.append(&mut found);
                    proof {
                        snaps = snaps.push(Some(buf@));
                    }
                },
                None => {
                    proof {
                        snaps = snaps.push(None);
                    }
                },
            }
            proof {
                lemma_scanned_prefix(regions@, prev, snaps, pattern@, i as int);
                assert(self.addresses@ =~= scanned(regions@, snaps, pattern@, i + 1));
            }
            i = i + 1;
        }
        assert(snapshots_fit(regions@, snaps));
    }

    /// Keeps the candidates at which the target's memory now holds
    /// `pattern`. Each candidate is read once, `pattern`'s length of bytes;
    /// one whose read fails is dropped. Order is kept.
    pub fn next_scan(&mut self, pattern: &[u8])
        requires
            pattern@.len() <= old(self).element_width(),
        ensures
            final(self).target() == old(self).target(),
            final(self).element_width() == old(self).element_width(),
            exists|reads: Seq<Option<Seq<u8>>>|
                reads.len() == old(self).candidates().len() && (forall|j: int|
                    0 <= j < reads.len() && #[trigger] reads[j] is Some ==> reads[j]->0.len()
                        == pattern@.len()) && final(self).candidates() == retained(
                    old(self).candidates(),
                    reads,
                    pattern@,
                    old(self).candidates().len() as int,
                ),
    {
        let w = pattern.len();
        let mut reads: Vec<Option<Vec<u8>>> = Vec::new();
        let mut i: usize = 0;
        while i < self.addresses.len()
            invariant
                self == old(self),
                w == pattern@.len(),
                i <= self.addresses@.len(),
                reads@.len() == i,
                forall|j: int|
                    0 <= j < i && #[trigger] reads@[j] is Some ==> reads@[j]->0@.len() == w,
            decreases self.addresses@.len() - i,
        {
            let got = match self.process.read_memory(self.addresses[i], w) {
                Ok(buf) => {
                    if buf.len() == w {
                        Some(buf)
                    } else {
                        None
                    }
                },
                Err(_) => None,
            };
            reads.push(got);
            i = i + 1;
        }
        let kept = retain_matches(self.addresses.as_slice(), &reads, pattern);
        self.addresses = kept;
        proof {
            let rv = reads_view(reads@);
            assert forall|j: int| 0 <= j < rv.len() && #[trigger] rv[j] is Some implies rv[j]->0.len()
                == pattern@.len() by {
                assert(reads@[j] is Some);
            }
            assert(rv.len() == old(self).candidates().len() && self.candidates() == retained(
                old(self).candidates(),
                rv,
                pattern@,
                old(self).candidates().len() as int,
            ));
        }
    }

    /// The candidates from position `offset`, at most `limit` of them, each
    /// with the value of type `e` that the target's memory holds there now.
    /// A read that fails fails the whole call with `ReadFailed`.
    pub fn scan_result(&self, offset: usize, limit: usize, e: ElementType) -> (r: Result<
        Vec<ScanResultEntry>,
        ScanError,
    >)
        ensures
            page_spec(self.candidates(), offset as int, limit as int).len() == 0 ==> r is Ok
                && r->Ok_0@.len() == 0,
            exists|reads: Seq<Option<Seq<u8>>>|
                reads.len() == page_spec(self.candidates(), offset as int, limit as int).len()
                    && #[trigger] same_entries(
                    r,
                    entries_spec(
                        page_spec(self.candidates(), offset as int, limit as int),
                        reads,
                        e,
                    ),
                ),
    {
        let window = page(self.addresses.as_slice(), offset, limit);
        let w = e.kind.width();
        let mut reads: Vec<Option<Vec<u8>>> = Vec::new();
        let mut i: usize = 0;
        while i < window.len()
            invariant
                i <= window@.len(),
                reads@.len() == i,
            decreases window@.len() - i,
        {
            let got = match self.process.read_memory(window[i], w) {
                Ok(buf) => Some(buf),
                Err(_) => None,
            };
            reads.push(got);
            i = i + 1;
        }
        let r = entries_from_reads(window.as_slice(), &reads, e);
        let ghost p = page_spec(self.candidates(), offset as int, limit as int);
        let ghost rv = reads_view(reads@);
        assert(rv.len() == p.len());
        assert(same_entries(r, entries_spec(p, rv, e)));
        proof {
            if p.len() == 0 {
                assert(entries_spec(p, rv, e) is Ok);
                assert(entries_spec(p, rv, e)->Ok_0.len() == 0);
            }
        }
        r
    }
}

/// Whether the result `r` holds exactly the entries `spec` describes, or
/// fails exactly where it does.
pub open spec fn same_entries(
    r: Result<Vec<ScanResultEntry>, ScanError>,
    spec: Result<Seq<ScanResultEntry>, ScanError>,
) -> bool {
    match (r, spec) {
        (Ok(v), Ok(t)) => v@ == t,
        (Err(x), Err(y)) => x == y,
        _ => false,
    }
}

/// Whether a read gave exactly `w` bytes.
pub open spec fn read_ok(read: Option<Seq<u8>>, w: nat) -> bool {
    read is Some && read->0.len() == w
}

/// The result listing for the addresses `window`, where reading at
/// `window[j]` gave `reads[j]`: `ReadFailed` where any read failed or gave
/// another number of bytes than one element of `e`; else each address with
/// the value of type `e` that its bytes hold.
pub open spec fn entries_spec(
    window: Seq<usize>,
    reads: Seq<Option<Seq<u8>>>,
    e: ElementType,
) -> Result<Seq<ScanResultEntry>, ScanError> {
    if exists|j: int| 0 <= j < window.len() && !read_ok(#[trigger] reads[j], e.kind.spec_width()) {
        Err(ScanError::ReadFailed)
    } else {
        Ok(
            Seq::new(
                window.len(),
                |j: int| ScanResultEntry { address: window[j], value: decode_spec(e, reads[j]->0) as i128 },
            ),
        )
    }
}

/// The result listing for the addresses `window`, where reading at
/// `window[j]` gave `reads[j]`: `ReadFailed` where any read failed or gave
/// another number of bytes than one element of `e`; else each address with
/// the value of type `e` that its bytes hold.
pub fn entries_from_reads(window: &[usize], reads: &Vec<Option<Vec<u8>>>, e: ElementType) -> (r: Result<
    Vec<ScanResultEntry>,
    ScanError,
>)
    requires
        reads@.len() == window@.len(),
    ensures
        same_entries(r, entries_spec(window@, reads_view(reads@), e)),
{
    let ghost rv = reads_view(reads@);
    let w = e.kind.width();
    let mut out: Vec<ScanResultEntry> = Vec::new();
    let mut i: usize = 0;
    while i < window.len()
        invariant
            reads@.len() == window@.len(),
            rv == reads_view(reads@),
            w == e.kind.spec_width(),
            i <= window@.len(),
            out@.len() == i,
            forall|j: int| 0 <= j < i ==> read_ok(#[trigger] rv[j], e.kind.spec_width()),
            forall|j: int|
                0 <= j < i ==> #[trigger] out@[j] == (ScanResultEntry {
                    address: window@[j],
                    value: decode_spec(e, rv[j]->0) as i128,
                }),
        decreases window@.len() - i,
    {
        match &reads[i] {
            Some(buf) => {
                if buf.len() != w {
                    assert(!read_ok(rv[i as int], e.kind.spec_width()));
                    return Err(ScanError::ReadFailed);
                }
                let value = decode(e, buf.as_slice());
                out.push(ScanResultEntry { address: window[i], value });
            },
            None => {
                assert(!read_ok(rv[i as int], e.kind.spec_width()));
                return Err(ScanError::ReadFailed);
            },
        }
        i = i + 1;
    }
    assert(out@ =~= Seq::new(
        window@.len(),
        |j: int| ScanResultEntry { address: window@[j], value: decode_spec(e, rv[j]->0) as i128 },
    ));
    Ok(out)
}

/// What a new scan reads of `region`: its start and its length in bytes;
/// nothing where the region's end lies below its start.
pub open spec fn read_request_spec(region: MemoryRegion) -> Option<(usize, usize)> {
    if region.start <= region.end {
        Some((region.start, (region.end - region.start) as usize))
    } else {
        None
    }
}

/// What a new scan reads of `region`: its start and its length in bytes;
/// nothing where the region's end lies below its start.
pub fn read_request(region: &MemoryRegion) -> (r: Option<(usize, usize)>)
    ensures
        r == read_request_spec(*region),
{
    if region.start <= region.end {
        Some((region.start, region.end - region.start))
    } else {
        None
    }
}

} // verus!
