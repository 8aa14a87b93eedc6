use regf_rs::{RegType, RegValue};

fn roundtrip(v: RegValue) {
    let ty = v.reg_type();
    let bytes = v.to_bytes();
    let back = RegValue::from_raw(ty, &bytes);
    assert_eq!(v, back, "round-trip failed for {v:?}");
}

#[test]
fn roundtrip_all_types() {
    roundtrip(RegValue::Sz("Hello".to_string()));
    roundtrip(RegValue::ExpandSz("%PATH%".to_string()));
    roundtrip(RegValue::Dword(0xDEAD_BEEF));
    roundtrip(RegValue::Qword(0x0123_4567_89AB_CDEF));
    roundtrip(RegValue::Binary(vec![1, 2, 3, 4, 5]));
    roundtrip(RegValue::MultiSz(vec!["a".to_string(), "bb".to_string()]));
    roundtrip(RegValue::MultiSz(vec![]));
    roundtrip(RegValue::RegNone);
}

#[test]
fn sz_is_null_terminated_utf16() {
    let b = RegValue::Sz("Hi".to_string()).to_bytes();
    assert_eq!(b, vec![b'H', 0, b'i', 0, 0, 0]);
}

#[test]
fn encodings_are_exact() {
    assert_eq!(RegValue::Dword(0x0102_0304).to_bytes(), vec![4, 3, 2, 1]);
    assert_eq!(RegValue::DwordBigEndian(0x0102_0304).to_bytes(), vec![1, 2, 3, 4]);
    assert_eq!(
        RegValue::Qword(0x0102_0304_0506_0708).to_bytes(),
        vec![8, 7, 6, 5, 4, 3, 2, 1]
    );
    assert_eq!(
        RegValue::MultiSz(vec!["a".to_string(), "b".to_string()]).to_bytes(),
        vec![b'a', 0, 0, 0, b'b', 0, 0, 0, 0, 0]
    );
    assert_eq!(RegValue::MultiSz(vec![]).to_bytes(), vec![0, 0]);
    assert_eq!(RegValue::RegNone.to_bytes(), Vec::<u8>::new());
    // A character outside the BMP becomes a surrogate pair.
    assert_eq!(
        RegValue::Sz("\u{1F600}".to_string()).to_bytes(),
        vec![0x3D, 0xD8, 0x00, 0xDE, 0, 0]
    );
    assert_eq!(
        RegValue::Other { ty: 0x42, data: vec![9, 8] }.to_bytes(),
        vec![9, 8]
    );
}

#[test]
fn type_codes_roundtrip() {
    for code in [0u32, 1, 2, 3, 4, 5, 6, 7, 11, 0x42, 0xFFFF_FFFF] {
        assert_eq!(RegType::from_u32(code).to_u32(), code);
    }
    assert_eq!(RegType::from_u32(4), RegType::Dword);
    assert_eq!(RegType::from_u32(11), RegType::Qword);
    assert_eq!(RegType::from_u32(0x42), RegType::Other(0x42));
    assert_eq!(RegValue::Other { ty: 4, data: vec![] }.reg_type(), RegType::Dword);
    assert_eq!(RegValue::Binary(vec![]).reg_type(), RegType::Binary);
}

#[test]
fn decoding_edge_cases() {
    // Short DWORD data is zero-padded.
    assert_eq!(RegValue::from_raw(RegType::Dword, &[1, 2]), RegValue::Dword(0x0201));
    assert_eq!(RegValue::from_raw(RegType::Qword, &[1]), RegValue::Qword(1));
    // A string stops at its first NUL.
    assert_eq!(
        RegValue::from_raw(RegType::Sz, &[b'a', 0, 0, 0, b'b', 0]),
        RegValue::Sz("a".to_string())
    );
    // A string without terminator is read whole; an odd last byte is dropped.
    assert_eq!(
        RegValue::from_raw(RegType::ExpandSz, &[b'x', 0, b'y']),
        RegValue::ExpandSz("x".to_string())
    );
    // REG_LINK is read as a string.
    assert_eq!(
        RegValue::from_raw(RegType::Link, &[b'L', 0]),
        RegValue::Sz("L".to_string())
    );
    // MULTI_SZ ends at the first empty string.
    assert_eq!(
        RegValue::from_raw(RegType::MultiSz, &[b'a', 0, 0, 0, 0, 0, b'b', 0, 0, 0]),
        RegValue::MultiSz(vec!["a".to_string()])
    );
    // An unpaired surrogate becomes U+FFFD.
    assert_eq!(
        RegValue::from_raw(RegType::Sz, &[0x00, 0xD8, b'a', 0]),
        RegValue::Sz("\u{FFFD}a".to_string())
    );
    assert_eq!(
        RegValue::from_raw(RegType::Other(0x99), &[7]),
        RegValue::Other { ty: 0x99, data: vec![7] }
    );
}
