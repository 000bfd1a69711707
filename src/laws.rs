//! What holds of a sequence of scans on a target whose memory does not
//! change between them.
use vstd::prelude::*;

use crate::memory::{regions_ordered, MemoryRegion};
use crate::scanner::{matches_at, matches_below, region_matches, retained, scanned, snapshots_fit};
use crate::value::{decode_spec, encode_spec, lemma_round_trip, ScanValue};

verus! {

/// What reading `w` bytes at address `a` gives on a target whose regions
/// hold `snaps`: the bytes, where one readable region holds all of them;
/// else a failed read.
pub open spec fn read_at(regions: Seq<MemoryRegion>, snaps: Seq<Option<Seq<u8>>>, a: int, w: int) -> Option<Seq<u8>> {
    if exists|i: int| 0 <= i < regions.len() && #[trigger] snaps[i] is Some && regions[i].holds(a, w) {
        let i = choose|i: int| 0 <= i < regions.len() && #[trigger] snaps[i] is Some && regions[i].holds(a, w);
        Some(snaps[i]->0.subrange(a - regions[i].start, a - regions[i].start + w))
    } else {
        None
    }
}

/// The reads that a rescan for `w` bytes makes at each of `addrs` on that
/// target.
pub open spec fn reads_at(regions: Seq<MemoryRegion>, snaps: Seq<Option<Seq<u8>>>, addrs: Seq<usize>, w: int) -> Seq<Option<Seq<u8>>> {
    addrs.map_values(|a: usize| read_at(regions, snaps, a as int, w))
}

/// The candidates after a new scan for `patterns[0]` followed by rescans for
/// `patterns[1]` to `patterns[k]`, all on a target whose regions hold `snaps`.
pub open spec fn rescans(regions: Seq<MemoryRegion>, snaps: Seq<Option<Seq<u8>>>, patterns: Seq<Seq<u8>>, k: int) -> Seq<usize>
    decreases k,
{
    if k <= 0 {
        scanned(regions, snaps, patterns[0], regions.len() as int)
    } else {
        let prev = rescans(regions, snaps, patterns, k - 1);
        retained(prev, reads_at(regions, snaps, prev, patterns[k].len() as int), patterns[k], prev.len() as int)
    }
}

proof fn lemma_push_contains(s: Seq<usize>, x: usize, a: usize)
    ensures
        s.push(x).contains(a) <==> (s.contains(a) || x == a),
{
    if s.push(x).contains(a) {
        let i = choose|i: int| 0 <= i < s.push(x).len() && s.push(x)[i] == a;
        if i < s.len() {
            assert(s[i] == a);
        }
    }
    if s.contains(a) {
        let i = choose|i: int| 0 <= i < s.len() && s[i] == a;
        assert(s.push(x)[i] == a);
    }
    if x == a {
        assert(s.push(x)[s.len() as int] == a);
    }
}

proof fn lemma_concat_contains(s: Seq<usize>, t: Seq<usize>, a: usize)
    ensures
        (s + t).contains(a) <==> (s.contains(a) || t.contains(a)),
{
    if (s + t).contains(a) {
        let i = choose|i: int| 0 <= i < (s + t).len() && (s + t)[i] == a;
        if i < s.len() {
            assert(s[i] == a);
        } else {
            assert(t[i - s.len()] == a);
        }
    }
    if s.contains(a) {
        let i = choose|i: int| 0 <= i < s.len() && s[i] == a;
        assert((s + t)[i] == a);
    }
    if t.contains(a) {
        let i = choose|i: int| 0 <= i < t.len() && t[i] == a;
        assert((s + t)[s.len() + i] == a);
    }
}

proof fn lemma_matches_below_contains(start: int, bytes: Seq<u8>, p: Seq<u8>, n: int, a: usize)
    requires
        0 <= start,
        0 <= n <= bytes.len(),
        start + bytes.len() <= usize::MAX,
    ensures
        matches_below(start, bytes, p, n).contains(a) <==> (start <= a < start + n && matches_at(bytes, a - start, p)),
    decreases n,
{
    if n > 0 {
        lemma_matches_below_contains(start, bytes, p, n - 1, a);
        let prev = matches_below(start, bytes, p, n - 1);
        lemma_push_contains(prev, (start + n - 1) as usize, a);
    }
}

/// Whether region `i`, read as `snaps[i]`, holds `p` at address `a`.
pub open spec fn found_in(regions: Seq<MemoryRegion>, snaps: Seq<Option<Seq<u8>>>, p: Seq<u8>, i: int, a: int) -> bool {
    &&& snaps[i] is Some
    &&& regions[i].start <= a < regions[i].end
    &&& matches_at(snaps[i]->0, a - regions[i].start, p)
}

proof fn lemma_scanned_contains(regions: Seq<MemoryRegion>, snaps: Seq<Option<Seq<u8>>>, p: Seq<u8>, n: int, a: usize)
    requires
        snapshots_fit(regions, snaps),
        0 <= n <= regions.len(),
    ensures
        scanned(regions, snaps, p, n).contains(a) <==> exists|i: int| 0 <= i < n && #[trigger] found_in(regions, snaps, p, i, a as int),
    decreases n,
{
    if n > 0 {
        lemma_scanned_contains(regions, snaps, p, n - 1, a);
        let prev = scanned(regions, snaps, p, n - 1);
        let k = n - 1;
        let last = match snaps[k] {
            Some(b) => region_matches(regions[k].start as int, b, p),
            None => Seq::empty(),
        };
        lemma_concat_contains(prev, last, a);
        if snaps[k] is Some {
            let b = snaps[k]->0;
            assert(b.len() == regions[k].end - regions[k].start);
            lemma_matches_below_contains(regions[k].start as int, b, p, b.len() as int, a);
            if last.contains(a) {
                assert(found_in(regions, snaps, p, k, a as int));
            }
        }
        if prev.contains(a) {
            let i = choose|i: int| 0 <= i < n - 1 && #[trigger] found_in(regions, snaps, p, i, a as int);
            assert(found_in(regions, snaps, p, i, a as int));
        }
        if exists|i: int| 0 <= i < n && #[trigger] found_in(regions, snaps, p, i, a as int) {
            let i = choose|i: int| 0 <= i < n && #[trigger] found_in(regions, snaps, p, i, a as int);
            if i < k {
                assert(prev.contains(a));
            }
        }
    }
}

proof fn lemma_retained_contains(addrs: Seq<usize>, reads: Seq<Option<Seq<u8>>>, p: Seq<u8>, n: int, a: usize)
    requires
        0 <= n <= addrs.len(),
        n <= reads.len(),
    ensures
        retained(addrs, reads, p, n).contains(a) <==> exists|i: int| 0 <= i < n && addrs[i] == a && #[trigger] reads[i] == Some(p),
        retained(addrs, reads, p, n).len() <= n,
    decreases n,
{
    if n > 0 {
        lemma_retained_contains(addrs, reads, p, n - 1, a);
        let prev = retained(addrs, reads, p, n - 1);
        lemma_push_contains(prev, addrs[n - 1], a);
        if exists|i: int| 0 <= i < n && addrs[i] == a && #[trigger] reads[i] == Some(p) {
            let i = choose|i: int| 0 <= i < n && addrs[i] == a && #[trigger] reads[i] == Some(p);
            if i < n - 1 {
                assert(prev.contains(a));
            }
        }
    }
}

/// On ordered regions, a value of at least one byte stands at `a` in some
/// region exactly where reading at `a` gives it.
proof fn lemma_found_iff_read(regions: Seq<MemoryRegion>, snaps: Seq<Option<Seq<u8>>>, p: Seq<u8>, a: usize)
    requires
        regions_ordered(regions),
        snapshots_fit(regions, snaps),
        p.len() >= 1,
    ensures
        (exists|i: int| 0 <= i < regions.len() && #[trigger] found_in(regions, snaps, p, i, a as int))
            <==> read_at(regions, snaps, a as int, p.len() as int) == Some(p),
{
    let w = p.len() as int;
    if exists|i: int| 0 <= i < regions.len() && #[trigger] found_in(regions, snaps, p, i, a as int) {
        let i = choose|i: int| 0 <= i < regions.len() && #[trigger] found_in(regions, snaps, p, i, a as int);
        assert(snaps[i] is Some && regions[i].holds(a as int, w));
        let j = choose|j: int| 0 <= j < regions.len() && #[trigger] snaps[j] is Some && regions[j].holds(a as int, w);
        if i < j {
            assert(regions[i].end <= regions[j].start);
        } else if j < i {
            assert(regions[j].end <= regions[i].start);
        }
        assert(i == j);
    }
    if read_at(regions, snaps, a as int, w) == Some(p) {
        let j = choose|j: int| 0 <= j < regions.len() && #[trigger] snaps[j] is Some && regions[j].holds(a as int, w);
        assert(found_in(regions, snaps, p, j, a as int));
    }
}

/// Monotonicity: on a target whose memory does not change, a new scan for
/// `patterns[0]` followed by rescans for `patterns[1]` to `patterns[k]`
/// leaves exactly the addresses at which a read of each pattern's length
/// gives that pattern; and no rescan adds an address or lengthens the set.
pub proof fn lemma_monotonicity(regions: Seq<MemoryRegion>, snaps: Seq<Option<Seq<u8>>>, patterns: Seq<Seq<u8>>, k: int, a: usize)
    requires
        regions_ordered(regions),
        snapshots_fit(regions, snaps),
        0 <= k < patterns.len(),
        forall|j: int| 0 <= j < patterns.len() ==> 1 <= (#[trigger] patterns[j]).len() <= patterns[0].len(),
    ensures
        rescans(regions, snaps, patterns, k).contains(a) <==> forall|j: int| 0 <= j <= k ==> read_at(regions, snaps, a as int, (#[trigger] patterns[j]).len() as int) == Some(patterns[j]),
        k > 0 ==> rescans(regions, snaps, patterns, k).len() <= rescans(regions, snaps, patterns, k - 1).len(),
        k > 0 && rescans(regions, snaps, patterns, k).contains(a) ==> rescans(regions, snaps, patterns, k - 1).contains(a),
    decreases k,
{
    if k == 0 {
        lemma_scanned_contains(regions, snaps, patterns[0], regions.len() as int, a);
        lemma_found_iff_read(regions, snaps, patterns[0], a);
        if rescans(regions, snaps, patterns, k).contains(a) {
            assert forall|j: int| 0 <= j <= k implies read_at(regions, snaps, a as int, (#[trigger] patterns[j]).len() as int) == Some(patterns[j]) by {
                assert(j == 0);
            }
        }
        if forall|j: int| 0 <= j <= k ==> read_at(regions, snaps, a as int, (#[trigger] patterns[j]).len() as int) == Some(patterns[j]) {
            assert(read_at(regions, snaps, a as int, patterns[0].len() as int) == Some(patterns[0]));
        }
    } else {
        lemma_monotonicity(regions, snaps, patterns, k - 1, a);
        let prev = rescans(regions, snaps, patterns, k - 1);
        let p = patterns[k];
        let reads = reads_at(regions, snaps, prev, p.len() as int);
        lemma_retained_contains(prev, reads, p, prev.len() as int, a);
        let here = read_at(regions, snaps, a as int, p.len() as int) == Some(p);
        if rescans(regions, snaps, patterns, k).contains(a) {
            let i = choose|i: int| 0 <= i < prev.len() && prev[i] == a && #[trigger] reads[i] == Some(p);
            assert(prev.contains(a));
            assert(here);
            assert forall|j: int| 0 <= j <= k implies read_at(regions, snaps, a as int, (#[trigger] patterns[j]).len() as int) == Some(patterns[j]) by {
                if j < k {
                }
            }
        }
        if forall|j: int| 0 <= j <= k ==> read_at(regions, snaps, a as int, (#[trigger] patterns[j]).len() as int) == Some(patterns[j]) {
            assert(here);
            assert(forall|j: int| 0 <= j <= k - 1 ==> read_at(regions, snaps, a as int, (#[trigger] patterns[j]).len() as int) == Some(patterns[j]));
            assert(prev.contains(a));
            let i = choose|i: int| 0 <= i < prev.len() && prev[i] == a;
            assert(reads[i] == Some(p));
        }
    }
}

/// The bytes of region `i`'s snapshot after `p` is written at address `a`.
pub open spec fn written(regions: Seq<MemoryRegion>, snaps: Seq<Option<Seq<u8>>>, i: int, a: int, p: Seq<u8>) -> Seq<Option<Seq<u8>>> {
    let b = snaps[i]->0;
    let off = a - regions[i].start;
    snaps.update(i, Some(b.subrange(0, off) + p + b.subrange(off + p.len(), b.len() as int)))
}

/// Self-locate: after the image `p` of a value is written at an address `a`
/// of a readable region, a new scan for `p` finds `a`.
pub proof fn lemma_self_locate(regions: Seq<MemoryRegion>, snaps: Seq<Option<Seq<u8>>>, i: int, a: usize, p: Seq<u8>)
    requires
        snapshots_fit(regions, snaps),
        0 <= i < regions.len(),
        snaps[i] is Some,
        regions[i].holds(a as int, p.len() as int),
        p.len() >= 1,
    ensures
        snapshots_fit(regions, written(regions, snaps, i, a as int, p)),
        scanned(regions, written(regions, snaps, i, a as int, p), p, regions.len() as int).contains(a),
{
    let s2 = written(regions, snaps, i, a as int, p);
    let b = snaps[i]->0;
    let off = a - regions[i].start;
    let b2 = s2[i]->0;
    assert(b2.len() == b.len());
    assert(b2.subrange(off, off + p.len()) =~= p);
    assert forall|j: int| 0 <= j < s2.len() && #[trigger] s2[j] is Some implies regions[j].start <= regions[j].end && s2[j]->0.len() == regions[j].end - regions[j].start by {
        if j != i {
            assert(snaps[j] is Some);
        }
    }
    assert(found_in(regions, s2, p, i, a as int));
    lemma_scanned_contains(regions, s2, p, regions.len() as int, a);
}

/// Round trip: after the image of a value `v` is written at an address `a`
/// of a readable region, a read there of the value's width gives that image,
/// and decoding it as the value's element type, as a result listing does,
/// gives `v`'s number.
pub proof fn lemma_write_then_read(regions: Seq<MemoryRegion>, snaps: Seq<Option<Seq<u8>>>, i: int, a: usize, v: ScanValue)
    requires
        regions_ordered(regions),
        snapshots_fit(regions, snaps),
        encode_spec(v) is Ok,
        0 <= i < regions.len(),
        snaps[i] is Some,
        regions[i].holds(a as int, v.type_.spec_width() as int),
    ensures
        ({
            let (e, p) = encode_spec(v)->Ok_0;
            &&& read_at(regions, written(regions, snaps, i, a as int, p), a as int, p.len() as int) == Some(p)
            &&& decode_spec(e, p) == v.value.int_value()->0
        }),
{
    lemma_round_trip(v);
    let p = encode_spec(v)->Ok_0.1;
    let w = p.len() as int;
    let s2 = written(regions, snaps, i, a as int, p);
    let b = snaps[i]->0;
    let off = a - regions[i].start;
    let b2 = s2[i]->0;
    assert(b2.subrange(off, off + w) =~= p);
    assert(s2[i] is Some && regions[i].holds(a as int, w));
    let j = choose|j: int| 0 <= j < regions.len() && #[trigger] s2[j] is Some && regions[j].holds(a as int, w);
    if i < j {
        assert(regions[i].end <= regions[j].start);
    } else if j < i {
        assert(regions[j].end <= regions[i].start);
    }
}

/// Whether every address of `s` is below every later one.
pub open spec fn strictly_ascending(s: Seq<usize>) -> bool {
    forall|i: int, j: int| 0 <= i < j < s.len() ==> #[trigger] s[i] < #[trigger] s[j]
}

proof fn lemma_matches_below_ascending(start: int, bytes: Seq<u8>, p: Seq<u8>, n: int)
    requires
        0 <= start,
        0 <= n <= bytes.len(),
        start + bytes.len() <= usize::MAX,
    ensures
        strictly_ascending(matches_below(start, bytes, p, n)),
        forall|k: int|
            0 <= k < matches_below(start, bytes, p, n).len() ==> start <= #[trigger] matches_below(
                start,
                bytes,
                p,
                n,
            )[k] < start + n,
    decreases n,
{
    if n > 0 {
        lemma_matches_below_ascending(start, bytes, p, n - 1);
    }
}

proof fn lemma_scanned_ascending(regions: Seq<MemoryRegion>, snaps: Seq<Option<Seq<u8>>>, p: Seq<u8>, n: int)
    requires
        regions_ordered(regions),
        snapshots_fit(regions, snaps),
        0 <= n <= regions.len(),
    ensures
        strictly_ascending(scanned(regions, snaps, p, n)),
        forall|k: int, m: int|
            0 <= k < scanned(regions, snaps, p, n).len() && n <= m < regions.len()
                ==> #[trigger] scanned(regions, snaps, p, n)[k] < (#[trigger] regions[m]).start,
    decreases n,
{
    if n > 0 {
        lemma_scanned_ascending(regions, snaps, p, n - 1);
        let prev = scanned(regions, snaps, p, n - 1);
        let r = regions[n - 1];
        let last = match snaps[n - 1] {
            Some(b) => region_matches(r.start as int, b, p),
            None => Seq::empty(),
        };
        if snaps[n - 1] is Some {
            let b = snaps[n - 1]->0;
            lemma_matches_below_ascending(r.start as int, b, p, b.len() as int);
        }
        let all = scanned(regions, snaps, p, n);
        assert(all == prev + last);
        assert forall|k: int| 0 <= k < last.len() implies r.start <= #[trigger] last[k] < r.end by {}
        assert forall|i: int, j: int| 0 <= i < j < all.len() implies #[trigger] all[i] < #[trigger] all[j] by {
            if j >= prev.len() && i < prev.len() {
                assert(all[j] == last[j - prev.len()]);
                assert(prev[i] < regions[n - 1].start);
            } else if i >= prev.len() {
                assert(all[j] == last[j - prev.len()]);
                assert(all[i] == last[i - prev.len()]);
            }
        }
        assert forall|k: int, m: int| 0 <= k < all.len() && n <= m < regions.len() implies #[trigger] all[k]
            < (#[trigger] regions[m]).start by {
            assert(regions[n - 1].end <= regions[m].start);
            if k >= prev.len() {
                assert(all[k] == last[k - prev.len()]);
            } else {
                assert(all[k] == prev[k]);
            }
        }
    }
}

proof fn lemma_retained_ascending(addrs: Seq<usize>, reads: Seq<Option<Seq<u8>>>, p: Seq<u8>, n: int)
    requires
        strictly_ascending(addrs),
        0 <= n <= addrs.len(),
    ensures
        strictly_ascending(retained(addrs, reads, p, n)),
        forall|k: int|
            0 <= k < retained(addrs, reads, p, n).len() ==> exists|i: int|
                0 <= i < n && #[trigger] retained(addrs, reads, p, n)[k] == addrs[i],
    decreases n,
{
    if n > 0 {
        lemma_retained_ascending(addrs, reads, p, n - 1);
        let prev = retained(addrs, reads, p, n - 1);
        let all = retained(addrs, reads, p, n);
        if reads[n - 1] == Some(p) {
            assert forall|k: int| 0 <= k < prev.len() implies prev[k] < addrs[n - 1] by {
                let i = choose|i: int| 0 <= i < n - 1 && #[trigger] prev[k] == addrs[i];
                assert(addrs[i] < addrs[n - 1]);
            }
            assert forall|k: int| 0 <= k < all.len() implies exists|i: int|
                0 <= i < n && #[trigger] all[k] == addrs[i] by {
                if k < prev.len() {
                    assert(all[k] == prev[k]);
                } else {
                    assert(all[k] == addrs[n - 1]);
                }
            }
            assert forall|i: int, j: int| 0 <= i < j < all.len() implies #[trigger] all[i] < #[trigger] all[j] by {
                if j == prev.len() {
                    assert(all[i] == prev[i]);
                } else {
                    assert(all[i] == prev[i] && all[j] == prev[j]);
                }
            }
        }
    }
}

/// The candidate set holds no address twice: on ordered regions, a new scan
/// and every rescan after it leave the candidates in strictly ascending order
/// of address.
pub proof fn lemma_candidates_ascending(regions: Seq<MemoryRegion>, snaps: Seq<Option<Seq<u8>>>, patterns: Seq<Seq<u8>>, k: int)
    requires
        regions_ordered(regions),
        snapshots_fit(regions, snaps),
        0 <= k < patterns.len(),
    ensures
        strictly_ascending(rescans(regions, snaps, patterns, k)),
    decreases k,
{
    if k == 0 {
        lemma_scanned_ascending(regions, snaps, patterns[0], regions.len() as int);
    } else {
        lemma_candidates_ascending(regions, snaps, patterns, k - 1);
        let prev = rescans(regions, snaps, patterns, k - 1);
        lemma_retained_ascending(prev, reads_at(regions, snaps, prev, patterns[k].len() as int), patterns[k], prev.len() as int);
    }
}

} // verus!
