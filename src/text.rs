//! Reading plain text as bytes: splitting at a separator, numbers in a
//! given base, and substring search.
use vstd::prelude::*;

use crate::scanner::{bytes_match_at, matches_at};

verus! {

/// `s` cut at every byte `sep`: one piece more than there are separators.
pub open spec fn split_on(s: Seq<u8>, sep: u8) -> Seq<Seq<u8>>
    decreases s.len(),
{
    if s.len() == 0 {
        seq![Seq::empty()]
    } else {
        let init = split_on(s.drop_last(), sep);
        if s.last() == sep {
            init.push(Seq::empty())
        } else {
            init.update(init.len() - 1, init.last().push(s.last()))
        }
    }
}

pub(crate) proof fn lemma_split_on_nonempty(s: Seq<u8>, sep: u8)
    ensures
        split_on(s, sep).len() >= 1,
    decreases s.len(),
{
    if s.len() > 0 {
        lemma_split_on_nonempty(s.drop_last(), sep);
    }
}

/// The pieces of `s` between the bytes `sep`.
pub fn split_bytes(s: &[u8], sep: u8) -> (r: Vec<Vec<u8>>)
    ensures
        r@.map_values(|t: Vec<u8>| t@) == split_on(s@, sep),
{
    let mut done: Vec<Vec<u8>> = Vec::new();
    let mut cur: Vec<u8> = Vec::new();
    let mut i: usize = 0;
    assert(s@.subrange(0, 0) =~= Seq::<u8>::empty());
    while i < s.len()
        invariant
            i <= s@.len(),
            done@.map_values(|t: Vec<u8>| t@).push(cur@) == split_on(s@.subrange(0, i as int), sep),
        decreases s@.len() - i,
    {
        let c = s[i];
        let ghost before = s@.subrange(0, i as int);
        let ghost after = s@.subrange(0, i + 1);
        assert(after.drop_last() =~= before);
        proof {
            lemma_split_on_nonempty(before, sep);
        }
        if c == sep {
            let piece = cur;
            done.push(piece);
            cur = Vec::new();
            assert(done@.map_values(|t: Vec<u8>| t@).push(cur@) =~= split_on(after, sep));
        } else {
            cur.push(c);
            assert(done@.map_values(|t: Vec<u8>| t@).push(cur@) =~= split_on(after, sep));
        }
        i = i + 1;
    }
    assert(s@.subrange(0, s@.len() as int) =~= s@);
    done.push(cur);
    done
}

/// The value of a hexadecimal digit, if `b` is one (either case).
pub open spec fn hex_digit(b: u8) -> Option<int> {
    if 48 <= b && b <= 57 {
        Some(b - 48)
    } else if 97 <= b && b <= 102 {
        Some(b - 87)
    } else if 65 <= b && b <= 70 {
        Some(b - 55)
    } else {
        None
    }
}

/// The value of `b` as a digit in base `radix`, if it is one.
pub open spec fn digit_of(b: u8, radix: int) -> Option<int> {
    if hex_digit(b) is Some && hex_digit(b)->0 < radix {
        hex_digit(b)
    } else {
        None
    }
}

/// The number that the base-`radix` digits `s` spell, most significant
/// first (0 for no digits; meaningful where every byte is a digit).
pub open spec fn digits_value(s: Seq<u8>, radix: int) -> int
    decreases s.len(),
{
    if s.len() == 0 {
        0
    } else {
        radix * digits_value(s.drop_last(), radix) + digit_of(s.last(), radix)->0
    }
}

/// The number that `s` spells in base `radix`: at least one digit, nothing
/// else, and a value of at most `max`.
pub open spec fn number_of(s: Seq<u8>, radix: int, max: int) -> Option<int> {
    if s.len() >= 1 && (forall|i: int| 0 <= i < s.len() ==> (#[trigger] digit_of(s[i], radix)) is Some)
        && 0 <= digits_value(s, radix) <= max {
        Some(digits_value(s, radix))
    } else {
        None
    }
}

proof fn lemma_digits_value_grows(s: Seq<u8>, radix: int, i: int)
    requires
        radix >= 2,
        0 <= i <= s.len(),
        forall|k: int| 0 <= k < s.len() ==> (#[trigger] digit_of(s[k], radix)) is Some,
    ensures
        0 <= digits_value(s.subrange(0, i), radix) <= digits_value(s, radix),
    decreases s.len() - i,
{
    if i < s.len() {
        lemma_digits_value_grows(s, radix, i + 1);
        let t = s.subrange(0, i + 1);
        assert(t.drop_last() =~= s.subrange(0, i));
        assert(digit_of(t.last(), radix) is Some);
        let p = digits_value(s.subrange(0, i), radix);
        let d = digit_of(t.last(), radix)->0;
        assert(d >= 0);
        lemma_digits_value_nonneg(s.subrange(0, i), radix);
        assert(p <= radix * p + d) by (nonlinear_arith)
            requires
                p >= 0,
                radix >= 2,
                d >= 0,
        ;
    } else {
        assert(s.subrange(0, i) =~= s);
        lemma_digits_value_nonneg(s, radix);
    }
}

proof fn lemma_digits_value_nonneg(s: Seq<u8>, radix: int)
    requires
        radix >= 2,
        forall|k: int| 0 <= k < s.len() ==> (#[trigger] digit_of(s[k], radix)) is Some,
    ensures
        digits_value(s, radix) >= 0,
    decreases s.len(),
{
    if s.len() > 0 {
        let t = s.drop_last();
        assert forall|k: int| 0 <= k < t.len() implies (#[trigger] digit_of(t[k], radix)) is Some by {
            assert(digit_of(s[k], radix) is Some);
        }
        lemma_digits_value_nonneg(t, radix);
        assert(digit_of(s[s.len() - 1], radix) is Some);
        let p = digits_value(t, radix);
        assert(radix * p >= 0) by (nonlinear_arith)
            requires
                p >= 0,
                radix >= 2,
        ;
    }
}

/// The number that `s` spells in base `radix`, if it spells one of at most
/// `max`.
pub fn parse_number(s: &[u8], radix: u8, max: u64) -> (r: Option<u64>)
    requires
        2 <= radix <= 16,
    ensures
        match r {
            Some(v) => number_of(s@, radix as int, max as int) == Some(v as int),
            None => number_of(s@, radix as int, max as int) is None,
        },
{
    if s.len() == 0 {
        return None;
    }
    let mut v: u128 = 0;
    let mut i: usize = 0;
    assert(s@.subrange(0, 0) =~= Seq::<u8>::empty());
    while i < s.len()
        invariant
            2 <= radix <= 16,
            1 <= s@.len(),
            i <= s@.len(),
            forall|k: int| 0 <= k < i ==> (#[trigger] digit_of(s@[k], radix as int)) is Some,
            v == digits_value(s@.subrange(0, i as int), radix as int),
            v <= max,
        decreases s@.len() - i,
    {
        let b = s[i];
        let d: u8 = if 48 <= b && b <= 57 {
            b - 48
        } else if 97 <= b && b <= 102 {
            b - 87
        } else if 65 <= b && b <= 70 {
            b - 55
        } else {
            16
        };
        if d >= radix {
            assert(digit_of(s@[i as int], radix as int) is None);
            return None;
        }
        let ghost t = s@.subrange(0, i + 1);
        assert(t.drop_last() =~= s@.subrange(0, i as int));
        assert(radix as u128 * v <= 16 * 18446744073709551615u128) by (nonlinear_arith)
            requires
                radix <= 16,
                v <= 18446744073709551615u128,
        ;
        v = radix as u128 * v + d as u128;
        i = i + 1;
        if v > max as u128 {
            proof {
                if forall|k: int| 0 <= k < s@.len() ==> (#[trigger] digit_of(s@[k], radix as int)) is Some {
                    lemma_digits_value_grows(s@, radix as int, i as int);
                }
            }
            return None;
        }
    }
    assert(s@.subrange(0, s@.len() as int) =~= s@);
    Some(v as u64)
}

/// Whether `needle` stands somewhere in `hay`.
pub open spec fn has_substring(hay: Seq<u8>, needle: Seq<u8>) -> bool {
    exists|i: int| 0 <= i <= hay.len() - needle.len() && #[trigger] matches_at(hay, i, needle)
}

/// Whether `needle` stands somewhere in `hay`.
pub fn contains_bytes(hay: &[u8], needle: &[u8]) -> (r: bool)
    ensures
        r == has_substring(hay@, needle@),
{
    if needle.len() > hay.len() {
        return false;
    }
    let last = hay.len() - needle.len();
    let mut i: usize = 0;
    while i <= last
        invariant
            last == hay@.len() - needle@.len(),
            i <= last + 1,
            forall|k: int| 0 <= k < i ==> !#[trigger] matches_at(hay@, k, needle@),
        decreases last + 1 - i,
    {
        if bytes_match_at(hay, i, needle) {
            return true;
        }
        if i == last {
            return false;
        }
        i = i + 1;
    }
    false
}

} // verus!
