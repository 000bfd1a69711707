//! Typed scan values: the numeric kinds a user may ask for, the literal they
//! compare against, and the little-endian byte image of such a value in the
//! target's memory.
use vstd::prelude::*;
use vstd::string::StringSliceAdditionalSpecFns;

verus! {

/// The numeric kind named by a scan request.
#[derive(Clone, Copy, Debug, PartialEq, Eq, Structural)]
pub enum ScanValueType {
    Byte,
    WORD,
    DWORD,
    QWORD,
    Float,
    Double,
}

/// The number a scan request compares against, as the request carried it.
/// `NonInteger` stands for any number that is not an integer representable
/// in 64 bits (a fraction, or a magnitude beyond `u64` and `i64`).
#[derive(Clone, Copy, Debug, PartialEq, Eq, Structural)]
pub enum ScanNumber {
    PosInt(u64),
    NegInt(i64),
    NonInteger,
}

/// A typed literal: the kind to scan for and the number to compare against.
#[derive(Clone, Copy, Debug, PartialEq, Eq, Structural)]
pub struct ScanValue {
    pub type_: ScanValueType,
    pub value: ScanNumber,
}

/// The element type of a scan: numeric kind and signedness, as one value.
#[derive(Clone, Copy, Debug, PartialEq, Eq, Structural)]
pub struct ElementType {
    pub kind: ScanValueType,
    pub signed: bool,
}

/// Why a scan request was refused.
#[derive(Clone, Copy, Debug, PartialEq, Eq, Structural)]
pub enum ScanError {
    /// No target process is selected.
    NoTarget,
    /// A target is selected but no scan has been started on it.
    NoScan,
    /// The request's kind or signedness differs from the active scan's.
    TypeMismatch,
    /// The kind is reserved and not scanned by this library.
    Unsupported,
    /// The number does not fit the requested kind.
    OutOfRange,
    /// The target's memory could not be read.
    ReadFailed,
    /// The target process could not be opened.
    OpenFailed,
}

/// 256 to the power `w`: the number of distinct values of a `w`-byte word.
pub open spec fn byte_modulus(w: nat) -> int
    decreases w,
{
    if w == 0 {
        1
    } else {
        256 * byte_modulus((w - 1) as nat)
    }
}

/// The `w` bytes of `x`, least significant first (`x` taken modulo 256^w).
pub open spec fn le_bytes(x: int, w: nat) -> Seq<u8>
    decreases w,
{
    if w == 0 {
        Seq::empty()
    } else {
        seq![(x % 256) as u8] + le_bytes(x / 256, (w - 1) as nat)
    }
}

/// The unsigned number whose little-endian image is `b`.
pub open spec fn le_value(b: Seq<u8>) -> int
    decreases b.len(),
{
    if b.len() == 0 {
        0
    } else {
        b[0] as int + 256 * le_value(b.drop_first())
    }
}

/// The value that the bytes `b` hold as an element of type `e`
/// (two's complement where `e` is signed).
pub open spec fn decode_spec(e: ElementType, b: Seq<u8>) -> int {
    let u = le_value(b);
    let m = byte_modulus(b.len());
    if e.signed && 2 * u >= m {
        u - m
    } else {
        u
    }
}

impl ScanValueType {
    /// The size in bytes of one element of this kind.
    pub open spec fn spec_width(self) -> nat {
        match self {
            ScanValueType::Byte => 1,
            ScanValueType::WORD => 2,
            ScanValueType::DWORD => 4,
            ScanValueType::QWORD => 8,
            ScanValueType::Float => 4,
            ScanValueType::Double => 8,
        }
    }

    /// Integer kinds are scanned; the floating-point kinds are reserved.
    pub open spec fn is_integer(self) -> bool {
        !(self is Float || self is Double)
    }

    /// 256 to the power of the width: one more than the largest unsigned
    /// value of this kind.
    pub fn modulus(&self) -> (r: u128)
        ensures
            r == byte_modulus(self.spec_width()),
    {
        proof {
            lemma_byte_modulus_values();
        }
        match self {
            ScanValueType::Byte => 256,
            ScanValueType::WORD => 65536,
            ScanValueType::DWORD => 4294967296,
            ScanValueType::QWORD => 18446744073709551616,
            ScanValueType::Float => 4294967296,
            ScanValueType::Double => 18446744073709551616,
        }
    }

    /// The canonical (lower-case) name of this kind, as ASCII bytes.
    pub open spec fn spec_name(self) -> Seq<u8> {
        match self {
            ScanValueType::Byte => seq![98u8, 121u8, 116u8, 101u8],
            ScanValueType::WORD => seq![119u8, 111u8, 114u8, 100u8],
            ScanValueType::DWORD => seq![100u8, 119u8, 111u8, 114u8, 100u8],
            ScanValueType::QWORD => seq![113u8, 119u8, 111u8, 114u8, 100u8],
            ScanValueType::Float => seq![102u8, 108u8, 111u8, 97u8, 116u8],
            ScanValueType::Double => seq![100u8, 111u8, 117u8, 98u8, 108u8, 101u8],
        }
    }

    /// The canonical (lower-case) name of this kind, as ASCII bytes.
    pub fn name(&self) -> (r: Vec<u8>)
        ensures
            r@ == self.spec_name(),
    {
        let r = match self {
            ScanValueType::Byte => vec![98u8, 121u8, 116u8, 101u8],
            ScanValueType::WORD => vec![119u8, 111u8, 114u8, 100u8],
            ScanValueType::DWORD => vec![100u8, 119u8, 111u8, 114u8, 100u8],
            ScanValueType::QWORD => vec![113u8, 119u8, 111u8, 114u8, 100u8],
            ScanValueType::Float => vec![102u8, 108u8, 111u8, 97u8, 116u8],
            ScanValueType::Double => vec![100u8, 111u8, 117u8, 98u8, 108u8, 101u8],
        };
        assert(r@ =~= self.spec_name());
        r
    }

    /// The kind that `name` names, in any ASCII case, if any.
    pub fn from_name(name: &str) -> (r: Option<ScanValueType>)
        ensures
            r == kind_named(name.spec_bytes()),
    {
        let b = name.as_bytes();
        if eq_ignoring_case(b, &ScanValueType::Byte.name()) {
            Some(ScanValueType::Byte)
        } else if eq_ignoring_case(b, &ScanValueType::WORD.name()) {
            Some(ScanValueType::WORD)
        } else if eq_ignoring_case(b, &ScanValueType::DWORD.name()) {
            Some(ScanValueType::DWORD)
        } else if eq_ignoring_case(b, &ScanValueType::QWORD.name()) {
            Some(ScanValueType::QWORD)
        } else if eq_ignoring_case(b, &ScanValueType::Float.name()) {
            Some(ScanValueType::Float)
        } else if eq_ignoring_case(b, &ScanValueType::Double.name()) {
            Some(ScanValueType::Double)
        } else {
            None
        }
    }

    pub fn width(&self) -> (r: usize)
        ensures
            r == self.spec_width(),
    {
        match self {
            ScanValueType::Byte => 1,
            ScanValueType::WORD => 2,
            ScanValueType::DWORD => 4,
            ScanValueType::QWORD => 8,
            ScanValueType::Float => 4,
            ScanValueType::Double => 8,
        }
    }
}

/// The byte `b` with ASCII upper-case letters mapped to lower case.
pub open spec fn ascii_lower(b: u8) -> u8 {
    if 65 <= b && b <= 90 {
        (b + 32) as u8
    } else {
        b
    }
}

/// Whether `a` spells the lower-case word `canon`, ignoring ASCII case.
pub open spec fn same_ignoring_case(a: Seq<u8>, canon: Seq<u8>) -> bool {
    a.len() == canon.len() && forall|i: int| 0 <= i < a.len() ==> ascii_lower(#[trigger] a[i]) == canon[i]
}

/// The kind whose name `n` spells (in any ASCII case), if any.
pub open spec fn kind_named(n: Seq<u8>) -> Option<ScanValueType> {
    if same_ignoring_case(n, ScanValueType::Byte.spec_name()) {
        Some(ScanValueType::Byte)
    } else if same_ignoring_case(n, ScanValueType::WORD.spec_name()) {
        Some(ScanValueType::WORD)
    } else if same_ignoring_case(n, ScanValueType::DWORD.spec_name()) {
        Some(ScanValueType::DWORD)
    } else if same_ignoring_case(n, ScanValueType::QWORD.spec_name()) {
        Some(ScanValueType::QWORD)
    } else if same_ignoring_case(n, ScanValueType::Float.spec_name()) {
        Some(ScanValueType::Float)
    } else if same_ignoring_case(n, ScanValueType::Double.spec_name()) {
        Some(ScanValueType::Double)
    } else {
        None
    }
}

fn eq_ignoring_case(a: &[u8], canon: &Vec<u8>) -> (r: bool)
    ensures
        r == same_ignoring_case(a@, canon@),
{
    if a.len() != canon.len() {
        return false;
    }
    let mut i: usize = 0;
    while i < a.len()
        invariant
            a@.len() == canon@.len(),
            i <= a@.len(),
            forall|j: int| 0 <= j < i ==> ascii_lower(#[trigger] a@[j]) == canon@[j],
        decreases a@.len() - i,
    {
        let b = a[i];
        let lower = if 65 <= b && b <= 90 {
            b + 32
        } else {
            b
        };
        if lower != canon[i] {
            return false;
        }
        i = i + 1;
    }
    true
}

impl ScanNumber {
    /// The integer this number stands for, if it is one.
    pub open spec fn int_value(self) -> Option<int> {
        match self {
            ScanNumber::PosInt(u) => Some(u as int),
            ScanNumber::NegInt(i) => Some(i as int),
            ScanNumber::NonInteger => None,
        }
    }

    /// A number representable as a non-negative integer selects an unsigned
    /// element type; any other number a signed one.
    pub open spec fn is_unsigned(self) -> bool {
        self.int_value() is Some && self.int_value()->0 >= 0
    }
}

/// Whether the integer `x` is a value of element type `e`.
pub open spec fn in_range(e: ElementType, x: int) -> bool {
    let m = byte_modulus(e.kind.spec_width());
    if e.signed {
        -m <= 2 * x && 2 * x < m
    } else {
        0 <= x && x < m
    }
}

/// The element type a scan request selects.
pub open spec fn element_of(v: ScanValue) -> ElementType {
    ElementType { kind: v.type_, signed: !v.value.is_unsigned() }
}

/// The byte image in memory of the value `x` of width `w` (two's complement).
pub open spec fn encode_int(x: int, w: nat) -> Seq<u8> {
    if x < 0 {
        le_bytes(x + byte_modulus(w), w)
    } else {
        le_bytes(x, w)
    }
}

/// What encoding a scan request yields: its element type and the byte image
/// of its number, or the reason it cannot be scanned.
pub open spec fn encode_spec(v: ScanValue) -> Result<(ElementType, Seq<u8>), ScanError> {
    let e = element_of(v);
    if !v.type_.is_integer() {
        Err(ScanError::Unsupported)
    } else if v.value.int_value() is None || !in_range(e, v.value.int_value()->0) {
        Err(ScanError::OutOfRange)
    } else {
        Ok((e, encode_int(v.value.int_value()->0, v.type_.spec_width())))
    }
}

proof fn lemma_byte_modulus_values()
    ensures
        byte_modulus(1) == 256,
        byte_modulus(2) == 65536,
        byte_modulus(4) == 4294967296,
        byte_modulus(8) == 18446744073709551616,
{
    reveal_with_fuel(byte_modulus, 9);
}

proof fn lemma_byte_modulus_positive(w: nat)
    ensures
        byte_modulus(w) >= 1,
    decreases w,
{
    if w > 0 {
        lemma_byte_modulus_positive((w - 1) as nat);
    }
}

proof fn lemma_le_bytes_len(x: int, w: nat)
    ensures
        le_bytes(x, w).len() == w,
    decreases w,
{
    if w > 0 {
        lemma_le_bytes_len(x / 256, (w - 1) as nat);
    }
}

/// Reading back the image of a number in range gives the number.
proof fn lemma_le_value_of_bytes(y: int, w: nat)
    requires
        0 <= y < byte_modulus(w),
    ensures
        le_value(le_bytes(y, w)) == y,
    decreases w,
{
    if w > 0 {
        let m = byte_modulus((w - 1) as nat);
        let q = y / 256;
        assert(0 <= q < m) by (nonlinear_arith)
            requires
                0 <= y < 256 * m,
                q == y / 256,
        ;
        lemma_le_value_of_bytes(q, (w - 1) as nat);
        let s = le_bytes(y, w);
        assert(s.drop_first() =~= le_bytes(q, (w - 1) as nat));
        assert(s[0] as int == y % 256);
        assert(y == y % 256 + 256 * q) by (nonlinear_arith)
            requires
                q == y / 256,
        ;
    }
}

/// Decoding the image of a value in range gives the value back.
pub proof fn lemma_decode_encode(e: ElementType, x: int)
    requires
        e.kind.is_integer(),
        in_range(e, x),
        e.signed || x >= 0,
    ensures
        encode_int(x, e.kind.spec_width()).len() == e.kind.spec_width(),
        decode_spec(e, encode_int(x, e.kind.spec_width())) == x,
{
    let w = e.kind.spec_width();
    let m = byte_modulus(w);
    lemma_byte_modulus_values();
    let y = if x < 0 {
        x + m
    } else {
        x
    };
    lemma_le_bytes_len(y, w);
    lemma_le_value_of_bytes(y, w);
}

/// Round trip: whatever a scan request encodes to, decoding that image as
/// the request's element type gives back the request's number.
pub proof fn lemma_round_trip(v: ScanValue)
    requires
        encode_spec(v) is Ok,
    ensures
        decode_spec(encode_spec(v)->Ok_0.0, encode_spec(v)->Ok_0.1) == v.value.int_value()->0,
        encode_spec(v)->Ok_0.1.len() == v.type_.spec_width(),
{
    lemma_decode_encode(element_of(v), v.value.int_value()->0);
}

/// Fills `out` with the `w` low bytes of `x`, least significant first.
fn push_le_bytes(x: u64, w: usize, out: &mut Vec<u8>)
    requires
        w <= 8,
    ensures
        final(out)@ == old(out)@ + le_bytes(x as int, w as nat),
{
    let mut r: u64 = x;
    let mut i: usize = 0;
    let ghost start = out@;
    while i < w
        invariant
            i <= w,
            start + le_bytes(x as int, w as nat) == out@ + le_bytes(r as int, (w - i) as nat),
        decreases w - i,
    {
        let b: u8 = (r % 256) as u8;
        let ghost before = out@;
        proof {
            assert(le_bytes(r as int, (w - i) as nat) == seq![b] + le_bytes(
                (r / 256) as int,
                (w - i - 1) as nat,
            ));
        }
        out.push(b);
        assert(before + (seq![b] + le_bytes((r / 256) as int, (w - i - 1) as nat)) =~= out@
            + le_bytes((r / 256) as int, (w - i - 1) as nat));
        r = r / 256;
        i = i + 1;
    }
    assert(le_bytes(r as int, 0) =~= Seq::<u8>::empty());
    assert(out@ + Seq::<u8>::empty() =~= out@);
}

/// The value that `bytes` hold as an element of type `e`, read little-endian
/// (two's complement where `e` is signed).
pub fn decode(e: ElementType, bytes: &[u8]) -> (r: i128)
    requires
        bytes@.len() <= 8,
    ensures
        r == decode_spec(e, bytes@),
{
    let n = bytes.len();
    let mut u: u128 = 0;
    let mut m: u128 = 1;
    let mut i: usize = n;
    proof {
        lemma_byte_modulus_values();
        lemma_byte_modulus_monotone(0, n as nat);
        lemma_byte_modulus_monotone(n as nat, 8);
        assert(bytes@.subrange(n as int, n as int) =~= Seq::<u8>::empty());
    }
    while i > 0
        invariant
            i <= n,
            n == bytes@.len(),
            n <= 8,
            u == le_value(bytes@.subrange(i as int, n as int)),
            m == byte_modulus((n - i) as nat),
            u < m,
            m <= byte_modulus(n as nat),
            byte_modulus(n as nat) <= 18446744073709551616,
        decreases i,
    {
        let ghost rest = bytes@.subrange(i as int, n as int);
        let ghost here = bytes@.subrange(i - 1, n as int);
        proof {
            assert(here.drop_first() =~= rest);
            lemma_byte_modulus_monotone((n - i + 1) as nat, n as nat);
            let b = bytes@[i - 1] as int;
            assert(b + 256 * u < 256 * m) by (nonlinear_arith)
                requires
                    0 <= b < 256,
                    u < m,
            ;
        }
        u = bytes[i - 1] as u128 + 256 * u;
        m = 256 * m;
        i = i - 1;
    }
    assert(bytes@.subrange(0, n as int) =~= bytes@);
    if e.signed && 2 * u >= m {
        u as i128 - m as i128
    } else {
        u as i128
    }
}

proof fn lemma_byte_modulus_monotone(a: nat, b: nat)
    requires
        a <= b,
    ensures
        byte_modulus(a) <= byte_modulus(b),
    decreases b,
{
    if a < b {
        lemma_byte_modulus_monotone(a, (b - 1) as nat);
        lemma_byte_modulus_positive((b - 1) as nat);
    }
}

impl ScanValue {
    /// The element type and memory image that a scan for this value looks
    /// for: `Unsupported` for the floating-point kinds, `OutOfRange` where
    /// the number is no integer or does not fit the kind.
    pub fn encode(&self) -> (r: Result<(ElementType, Vec<u8>), ScanError>)
        ensures
            match (r, encode_spec(*self)) {
                (Ok((e, b)), Ok((se, sb))) => e == se && b@ == sb,
                (Err(x), Err(y)) => x == y,
                _ => false,
            },
    {
        proof {
            lemma_byte_modulus_values();
        }
        let w = self.type_.width();
        let e = self.element_type();
        match self.type_ {
            ScanValueType::Float | ScanValueType::Double => {
                return Err(ScanError::Unsupported);
            },
            _ => {},
        }
        let m = self.type_.modulus();
        let mut out: Vec<u8> = Vec::new();
        match self.value {
            ScanNumber::PosInt(u) => {
                if u as u128 >= m {
                    return Err(ScanError::OutOfRange);
                }
                push_le_bytes(u, w, &mut out);
            },
            ScanNumber::NegInt(n) => {
                if n >= 0 {
                    if n as u128 >= m {
                        return Err(ScanError::OutOfRange);
                    }
                    push_le_bytes(n as u64, w, &mut out);
                } else {
                    if 2 * (n as i128) < -(m as i128) {
                        return Err(ScanError::OutOfRange);
                    }
                    let y: u64 = (n as i128 + m as i128) as u64;
                    push_le_bytes(y, w, &mut out);
                }
            },
            ScanNumber::NonInteger => {
                return Err(ScanError::OutOfRange);
            },
        }
        Ok((e, out))
    }

    /// The element type this request selects: its kind, signed unless its
    /// number is a non-negative integer.
    pub fn element_type(&self) -> (r: ElementType)
        ensures
            r == element_of(*self),
    {
        let unsigned = match self.value {
            ScanNumber::PosInt(_) => true,
            ScanNumber::NegInt(n) => n >= 0,
            ScanNumber::NonInteger => false,
        };
        ElementType { kind: self.type_, signed: !unsigned }
    }
}

} // verus!
