use memscan::value::{decode, ElementType, ScanError, ScanNumber, ScanValue, ScanValueType};

fn value(type_: ScanValueType, value: ScanNumber) -> ScanValue {
    ScanValue { type_, value }
}

#[test]
fn dword_literal_encodes_little_endian_unsigned() {
    let (e, bytes) = value(ScanValueType::DWORD, ScanNumber::PosInt(287454020)).encode().unwrap();
    assert_eq!(e, ElementType { kind: ScanValueType::DWORD, signed: false });
    assert_eq!(bytes, vec![0x44, 0x33, 0x22, 0x11]);
}

#[test]
fn negative_literal_selects_signed_twos_complement() {
    let (e, bytes) = value(ScanValueType::DWORD, ScanNumber::NegInt(-1)).encode().unwrap();
    assert_eq!(e, ElementType { kind: ScanValueType::DWORD, signed: true });
    assert_eq!(bytes, vec![0xff, 0xff, 0xff, 0xff]);
    let (_, bytes) = value(ScanValueType::WORD, ScanNumber::NegInt(-2)).encode().unwrap();
    assert_eq!(bytes, vec![0xfe, 0xff]);
}

#[test]
fn non_negative_neg_int_is_unsigned() {
    let (e, bytes) = value(ScanValueType::Byte, ScanNumber::NegInt(7)).encode().unwrap();
    assert!(!e.signed);
    assert_eq!(bytes, vec![7]);
}

#[test]
fn byte_out_of_range_is_refused() {
    let r = value(ScanValueType::Byte, ScanNumber::PosInt(99999)).encode();
    assert_eq!(r.err(), Some(ScanError::OutOfRange));
}

#[test]
fn range_edges_of_each_width() {
    assert!(value(ScanValueType::Byte, ScanNumber::PosInt(255)).encode().is_ok());
    assert_eq!(value(ScanValueType::Byte, ScanNumber::PosInt(256)).encode().err(), Some(ScanError::OutOfRange));
    assert_eq!(value(ScanValueType::Byte, ScanNumber::NegInt(-128)).encode().unwrap().1, vec![0x80]);
    assert_eq!(value(ScanValueType::Byte, ScanNumber::NegInt(-129)).encode().err(), Some(ScanError::OutOfRange));
    assert!(value(ScanValueType::WORD, ScanNumber::PosInt(65535)).encode().is_ok());
    assert_eq!(value(ScanValueType::WORD, ScanNumber::PosInt(65536)).encode().err(), Some(ScanError::OutOfRange));
    assert_eq!(value(ScanValueType::DWORD, ScanNumber::PosInt(4294967296)).encode().err(), Some(ScanError::OutOfRange));
    assert_eq!(value(ScanValueType::DWORD, ScanNumber::NegInt(-2147483648)).encode().unwrap().1, vec![0, 0, 0, 0x80]);
    assert_eq!(value(ScanValueType::DWORD, ScanNumber::NegInt(-2147483649)).encode().err(), Some(ScanError::OutOfRange));
    assert_eq!(value(ScanValueType::QWORD, ScanNumber::PosInt(u64::MAX)).encode().unwrap().1, vec![0xff; 8]);
    assert_eq!(value(ScanValueType::QWORD, ScanNumber::NegInt(i64::MIN)).encode().unwrap().1, vec![0, 0, 0, 0, 0, 0, 0, 0x80]);
}

#[test]
fn floating_kinds_are_unsupported() {
    assert_eq!(value(ScanValueType::Float, ScanNumber::PosInt(1)).encode().err(), Some(ScanError::Unsupported));
    assert_eq!(value(ScanValueType::Double, ScanNumber::NonInteger).encode().err(), Some(ScanError::Unsupported));
}

#[test]
fn fraction_for_integer_kind_is_out_of_range() {
    assert_eq!(value(ScanValueType::DWORD, ScanNumber::NonInteger).encode().err(), Some(ScanError::OutOfRange));
}

#[test]
fn decode_reads_signed_and_unsigned() {
    let signed = ElementType { kind: ScanValueType::DWORD, signed: true };
    let unsigned = ElementType { kind: ScanValueType::DWORD, signed: false };
    assert_eq!(decode(signed, &[0xff, 0xff, 0xff, 0xff]), -1);
    assert_eq!(decode(unsigned, &[0xff, 0xff, 0xff, 0xff]), 4294967295);
    assert_eq!(decode(unsigned, &[0x88, 0x77, 0x66, 0x55]), 0x55667788);
    assert_eq!(decode(signed, &[0x00, 0x00, 0x00, 0x80]), -2147483648);
    let q = ElementType { kind: ScanValueType::QWORD, signed: false };
    assert_eq!(decode(q, &[0xff; 8]), 18446744073709551615);
}

#[test]
fn encode_then_decode_gives_the_number_back() {
    let cases = [
        (ScanValueType::Byte, ScanNumber::PosInt(200), 200i128),
        (ScanValueType::Byte, ScanNumber::NegInt(-5), -5),
        (ScanValueType::WORD, ScanNumber::PosInt(40000), 40000),
        (ScanValueType::WORD, ScanNumber::NegInt(-30000), -30000),
        (ScanValueType::DWORD, ScanNumber::PosInt(1432778632), 1432778632),
        (ScanValueType::DWORD, ScanNumber::NegInt(-123456), -123456),
        (ScanValueType::QWORD, ScanNumber::NegInt(-9), -9),
        (ScanValueType::QWORD, ScanNumber::PosInt(1 << 63), 1 << 63),
    ];
    for (kind, number, expected) in cases {
        let (e, bytes) = value(kind, number).encode().unwrap();
        assert_eq!(bytes.len(), kind.width());
        assert_eq!(decode(e, &bytes), expected);
    }
}

#[test]
fn kind_names_ignore_case() {
    assert_eq!(ScanValueType::from_name("dword"), Some(ScanValueType::DWORD));
    assert_eq!(ScanValueType::from_name("DWORD"), Some(ScanValueType::DWORD));
    assert_eq!(ScanValueType::from_name("QWord"), Some(ScanValueType::QWORD));
    assert_eq!(ScanValueType::from_name("byte"), Some(ScanValueType::Byte));
    assert_eq!(ScanValueType::from_name("Word"), Some(ScanValueType::WORD));
    assert_eq!(ScanValueType::from_name("float"), Some(ScanValueType::Float));
    assert_eq!(ScanValueType::from_name("DOUBLE"), Some(ScanValueType::Double));
    assert_eq!(ScanValueType::from_name("dwords"), None);
    assert_eq!(ScanValueType::from_name(""), None);
    assert_eq!(ScanValueType::DWORD.name(), b"dword".to_vec());
}

#[test]
fn widths_and_moduli() {
    assert_eq!(ScanValueType::Byte.width(), 1);
    assert_eq!(ScanValueType::WORD.width(), 2);
    assert_eq!(ScanValueType::DWORD.width(), 4);
    assert_eq!(ScanValueType::QWORD.width(), 8);
    assert_eq!(ScanValueType::Float.width(), 4);
    assert_eq!(ScanValueType::Double.width(), 8);
    assert_eq!(ScanValueType::WORD.modulus(), 65536);
}
