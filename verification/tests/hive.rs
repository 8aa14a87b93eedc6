use regf_rs::{Header, Hive, RegError, RegValue, REGF_HEADER_SIZE};

#[test]
fn header_dirty_detection() {
    let clean = Header {
        primary_sequence: 5,
        secondary_sequence: 5,
        major_version: 1,
        minor_version: 5,
        root_cell_offset: 0x20,
        hive_bins_size: 0x1000,
    };
    assert!(!clean.is_dirty());
    let dirty = Header {
        primary_sequence: 6,
        secondary_sequence: 5,
        major_version: 1,
        minor_version: 5,
        root_cell_offset: 0x20,
        hive_bins_size: 0x1000,
    };
    assert!(dirty.is_dirty());
}

/// A dirty hive (diverging sequences) must reject any write.
#[test]
fn refuses_write_on_dirty_hive() {
    // A valid empty hive, made "dirty" by desynchronizing the sequences,
    // then checksummed again so that it still parses.
    let mut data = Hive::new_empty("ROOT").to_bytes();
    let primary = u32::from_le_bytes(data[0x04..0x08].try_into().unwrap());
    data[0x08..0x0C].copy_from_slice(&primary.wrapping_add(1).to_le_bytes());
    let sum = Header::checksum(&data);
    data[0x1FC..0x200].copy_from_slice(&sum.to_le_bytes());

    let mut hive = Hive::from_bytes(data).unwrap();
    assert!(hive.is_dirty());
    assert_eq!(
        hive.set_value("ROOT", "x", RegValue::Dword(1)),
        Err(RegError::DirtyHive)
    );
    assert!(matches!(
        hive.create_key("ROOT\\Zzz"),
        Err(RegError::DirtyHive)
    ));
}

/// After finalization, the hive is clean (equal sequences).
#[test]
fn finalize_makes_clean() {
    let mut hive = Hive::new_empty("ROOT");
    let _ = hive.to_bytes();
    assert!(!hive.is_dirty());
    assert_eq!(REGF_HEADER_SIZE, 0x1000);
}

#[test]
fn new_empty_root_and_header() {
    let mut h = Hive::new_empty("ROOT");
    let root = h.root_key().unwrap();
    assert_eq!(root.name, "ROOT");
    assert_eq!(root.subkey_count, 0);
    assert_eq!(root.value_count, 0);
    assert_eq!(root.offset(), h.header().root_cell_offset);
    assert_eq!(h.header().primary_sequence, 1);
    assert_eq!(h.header().secondary_sequence, 1);
    assert_eq!(h.header().major_version, 1);
    assert_eq!(h.header().minor_version, 5);
    // The empty path names the root.
    assert_eq!(h.open("").unwrap().name, "ROOT");
    assert_eq!(h.open("\\\\").unwrap().name, "ROOT");
    assert_eq!(h.list_subkeys("").unwrap(), Vec::<String>::new());
    assert_eq!(h.list_values("").unwrap(), Vec::new());
    // Finalization bumps both sequence numbers.
    let bytes = h.to_bytes();
    assert_eq!(h.header().primary_sequence, 2);
    assert_eq!(h.header().secondary_sequence, 2);
    let back = Hive::from_bytes(bytes).unwrap();
    assert_eq!(back.header().primary_sequence, 2);
    assert!(!back.is_dirty());
}

#[test]
fn checksum_is_xor_of_first_words() {
    let mut data = vec![0u8; 0x1000];
    // All zero: XOR 0 is mapped to 1.
    assert_eq!(Header::checksum(&data), 1);
    data[0..4].copy_from_slice(&0x1234_5678u32.to_le_bytes());
    data[8..12].copy_from_slice(&0x0000_00FFu32.to_le_bytes());
    assert_eq!(Header::checksum(&data), 0x1234_5678 ^ 0xFF);
    // Word 127 (the checksum itself) is not part of the sum.
    data[0x1FC..0x200].copy_from_slice(&0xAAAA_AAAAu32.to_le_bytes());
    assert_eq!(Header::checksum(&data), 0x1234_5678 ^ 0xFF);
    // XOR 0xFFFFFFFF is mapped to 0xFFFFFFFE.
    let mut ones = vec![0u8; 0x1000];
    ones[0..4].copy_from_slice(&0xFFFF_FFFFu32.to_le_bytes());
    assert_eq!(Header::checksum(&ones), 0xFFFF_FFFE);
}

#[test]
fn load_errors() {
    assert_eq!(
        Hive::from_bytes(vec![0u8; 100]).err(),
        Some(RegError::Truncated { offset: 0x1000 })
    );
    assert_eq!(
        Hive::from_bytes(vec![0u8; 0x1000]).err(),
        Some(RegError::BadSignature)
    );
    let mut bytes = Hive::new_empty("R").to_bytes();
    let found = u32::from_le_bytes(bytes[0x1FC..0x200].try_into().unwrap()) ^ 1;
    bytes[0x1FC..0x200].copy_from_slice(&found.to_le_bytes());
    let expected = Header::checksum(&bytes);
    assert_eq!(
        Hive::from_bytes(bytes).err(),
        Some(RegError::BadChecksum { expected, found })
    );
}

#[test]
fn create_open_and_list_sorted() {
    let mut h = Hive::new_empty("ROOT");
    let k = h.create_key("Objects\\b\\Elements").unwrap();
    assert_eq!(k.name, "Elements");
    for name in ["24000010", "23000003", "24000001", "24000002"] {
        let c = h.create_key(&format!("Objects\\b\\Elements\\{name}")).unwrap();
        assert_eq!(c.name, name);
    }
    assert_eq!(
        h.list_subkeys("objects\\B\\elements").unwrap(),
        ["23000003", "24000001", "24000002", "24000010"]
    );
    // Creating an existing key changes nothing and returns it.
    let before = h.to_bytes();
    let again = h.create_key("OBJECTS\\b").unwrap();
    assert_eq!(again.name, "b");
    assert_eq!(again.subkey_count, 1);
    assert_eq!(again.offset(), h.open("Objects\\b").unwrap().offset());
    let mut h2 = h;
    let after = h2.to_bytes();
    assert_eq!(before.len(), after.len());
    assert_eq!(before[0x1000..], after[0x1000..]);
    assert_eq!(
        h2.open("Objects\\nope").err(),
        Some(RegError::KeyNotFound("Objects\\nope".to_string()))
    );
    assert_eq!(
        h2.list_subkeys("x").err(),
        Some(RegError::KeyNotFound("x".to_string()))
    );
}

#[test]
fn set_then_get_reads_back() {
    let mut h = Hive::new_empty("ROOT");
    h.create_key("K").unwrap();
    let values = [
        ("small", RegValue::Dword(7)),
        ("big", RegValue::Binary((0..200u8).collect())),
        ("text", RegValue::Sz("Windows".to_string())),
        ("multi", RegValue::MultiSz(vec!["a".to_string(), "bc".to_string()])),
        ("q", RegValue::Qword(u64::MAX)),
        ("none", RegValue::RegNone),
    ];
    for (n, v) in values.iter() {
        h.set_value("K", n, v.clone()).unwrap();
        assert_eq!(h.get_value("k", n).unwrap(), *v);
    }
    for (n, v) in values.iter() {
        assert_eq!(h.get_value("K", &n.to_uppercase()).unwrap(), *v);
    }
    let listed = h.list_values("K").unwrap();
    assert_eq!(listed.len(), values.len());
    for ((ln, lv), (n, v)) in listed.iter().zip(values.iter()) {
        assert_eq!(ln, n);
        assert_eq!(lv, v);
    }
    assert_eq!(h.open("K").unwrap().value_count, values.len() as u32);
    // Replacing keeps a single value of that name.
    h.set_value("K", "TEXT", RegValue::ExpandSz("%X%".to_string())).unwrap();
    assert_eq!(h.get_value("K", "text").unwrap(), RegValue::ExpandSz("%X%".to_string()));
    assert_eq!(h.list_values("K").unwrap().len(), values.len());
    // And survives a save and reload.
    let bytes = h.to_bytes();
    let back = Hive::from_bytes(bytes).unwrap();
    assert_eq!(back.get_value("K", "big").unwrap(), values[1].1);
}

#[test]
fn write_errors() {
    let mut h = Hive::new_empty("ROOT");
    assert_eq!(
        h.set_value("missing", "v", RegValue::Dword(1)),
        Err(RegError::KeyNotFound("missing".to_string()))
    );
    assert_eq!(
        h.delete_value("", "v"),
        Err(RegError::ValueNotFound("v".to_string()))
    );
    assert_eq!(
        h.get_value("", "v"),
        Err(RegError::ValueNotFound("v".to_string()))
    );
    let too_big = RegValue::Binary(vec![0u8; 16345]);
    assert_eq!(
        h.set_value("", "big", too_big),
        Err(RegError::ValueTooLarge { size: 16345, max: 16344 })
    );
    // The largest accepted value.
    let max = RegValue::Binary(vec![5u8; 16344]);
    h.set_value("", "max", max.clone()).unwrap();
    assert_eq!(h.get_value("", "max").unwrap(), max);
}

#[test]
fn delete_then_value_is_gone() {
    let mut h = Hive::new_empty("ROOT");
    h.set_value("", "a", RegValue::Dword(1)).unwrap();
    h.set_value("", "b", RegValue::Sz("long enough string".to_string())).unwrap();
    h.delete_value("", "A").unwrap();
    assert_eq!(h.get_value("", "a"), Err(RegError::ValueNotFound("a".to_string())));
    assert_eq!(h.get_value("", "b").unwrap(), RegValue::Sz("long enough string".to_string()));
    h.delete_value("", "b").unwrap();
    assert_eq!(h.list_values("").unwrap(), Vec::new());
    assert_eq!(h.root_key().unwrap().value_count, 0);
    assert_eq!(h.delete_value("", "b"), Err(RegError::ValueNotFound("b".to_string())));
}

#[test]
fn non_ascii_key_names_read_back() {
    let mut h = Hive::new_empty("ROOT");
    h.create_key("Clé\\Été").unwrap();
    assert_eq!(h.list_subkeys("").unwrap(), ["Clé"]);
    assert_eq!(h.open("clé\\Été").unwrap().name, "Été");
    h.set_value("Clé", "nàme", RegValue::Dword(3)).unwrap();
    assert_eq!(h.list_values("Clé").unwrap()[0].0, "nàme");
}

#[test]
fn corrupt_root_offset_is_reported() {
    let mut bytes = Hive::new_empty("ROOT").to_bytes();
    // Point the root at the end of the data.
    let past = (bytes.len() - 0x1000) as u32;
    bytes[0x24..0x28].copy_from_slice(&past.to_le_bytes());
    let sum = Header::checksum(&bytes);
    bytes[0x1FC..0x200].copy_from_slice(&sum.to_le_bytes());
    let h = Hive::from_bytes(bytes.clone()).unwrap();
    assert_eq!(
        h.root_key().err(),
        Some(RegError::Truncated { offset: bytes.len() })
    );
    // The root at the bin header: not a valid cell.
    let mut bytes2 = bytes.clone();
    bytes2[0x24..0x28].copy_from_slice(&0u32.to_le_bytes());
    let sum = Header::checksum(&bytes2);
    bytes2[0x1FC..0x200].copy_from_slice(&sum.to_le_bytes());
    let h2 = Hive::from_bytes(bytes2).unwrap();
    assert!(matches!(h2.root_key(), Err(RegError::CorruptCell { .. })));
}

#[test]
fn many_subkeys_stay_sorted() {
    let mut h = Hive::new_empty("ROOT");
    let mut names: Vec<String> = (0..60).map(|i| format!("k{:03}", (i * 37) % 61)).collect();
    for n in &names {
        h.create_key(n).unwrap();
    }
    names.sort();
    assert_eq!(h.list_subkeys("").unwrap(), names);
    for n in &names {
        assert_eq!(&h.open(&n.to_uppercase()).unwrap().name, n);
    }
}

/// A fresh hive keeps its single bin: its root has room for the security
/// descriptor and the root node in the first cell.
#[test]
fn new_empty_keeps_one_bin() {
    let mut h = Hive::new_empty("BCD");
    assert_eq!(h.to_bytes().len(), 0x2000);
    let mut long = Hive::new_empty(&"K".repeat(100));
    assert_eq!(long.to_bytes().len(), 0x2000);
}

/// Sealing the header changes no key and no value.
#[test]
fn to_bytes_keeps_every_read() {
    let mut h = Hive::new_empty("ROOT");
    h.create_key("A\\B").unwrap();
    h.create_key("A\\C").unwrap();
    h.set_value("A\\B", "v", RegValue::Dword(7)).unwrap();
    h.set_value("A", "s", RegValue::Sz("x".into())).unwrap();
    let subkeys = h.list_subkeys("A").unwrap();
    let values = h.list_values("A").unwrap();
    let v = h.get_value("A\\B", "v").unwrap();
    let _ = h.to_bytes();
    assert_eq!(h.list_subkeys("A").unwrap(), subkeys);
    assert_eq!(h.list_values("A").unwrap(), values);
    assert_eq!(h.get_value("A\\B", "v").unwrap(), v);
    assert_eq!(v, RegValue::Dword(7));
    assert_eq!(subkeys, vec!["B".to_string(), "C".to_string()]);
}

/// Replacing or deleting one value of a key leaves its other values as
/// they were.
#[test]
fn other_values_survive_writes() {
    let mut h = Hive::new_empty("ROOT");
    h.create_key("K").unwrap();
    h.set_value("K", "a", RegValue::Dword(1)).unwrap();
    h.set_value("K", "b", RegValue::Sz("bee".to_string())).unwrap();
    h.set_value("K", "c", RegValue::Binary(vec![9; 40])).unwrap();

    h.set_value("K", "b", RegValue::Qword(2)).unwrap();
    assert_eq!(h.get_value("K", "a").unwrap(), RegValue::Dword(1));
    assert_eq!(h.get_value("K", "c").unwrap(), RegValue::Binary(vec![9; 40]));
    assert_eq!(h.get_value("K", "b").unwrap(), RegValue::Qword(2));

    h.delete_value("K", "a").unwrap();
    assert!(matches!(h.get_value("K", "a"), Err(RegError::ValueNotFound(_))));
    assert_eq!(h.get_value("K", "b").unwrap(), RegValue::Qword(2));
    assert_eq!(h.get_value("K", "c").unwrap(), RegValue::Binary(vec![9; 40]));
    assert_eq!(h.list_values("K").unwrap().len(), 2);
}
