use regf_rs::{Hive, RegError, RegValue};

/// Fixed GUID of the Windows Boot Manager (a public Microsoft constant).
const BOOTMGR: &str = "{9dea862c-5cdd-4e70-acc1-f32b344d4795}";
/// A neutral GUID standing for the default OS loader.
const OSLOADER: &str = "{11111111-2222-3333-4444-555555555555}";

/// A BCD-like hive: `Objects\{bootmgr}\Elements\{23000003, 24000001,
/// 25000004}` filled as in a real BCD, plus an OS loader object.
fn synthetic_bcd() -> Hive {
    let mut h = Hive::new_empty("BCD");

    let bootmgr_elems = format!("Objects\\{BOOTMGR}\\Elements");
    h.create_key(&bootmgr_elems).unwrap();
    set_element(&mut h, &bootmgr_elems, "23000003", RegValue::Sz(OSLOADER.into()));
    set_element(
        &mut h,
        &bootmgr_elems,
        "24000001",
        RegValue::MultiSz(vec![OSLOADER.into()]),
    );
    set_element(
        &mut h,
        &bootmgr_elems,
        "25000004",
        RegValue::Binary(vec![30, 0, 0, 0, 0, 0, 0, 0]),
    );

    let os_elems = format!("Objects\\{OSLOADER}\\Elements");
    h.create_key(&os_elems).unwrap();
    set_element(&mut h, &os_elems, "12000004", RegValue::Sz("Windows".into()));

    h
}

fn set_element(h: &mut Hive, elements: &str, code: &str, v: RegValue) {
    let path = format!("{elements}\\{code}");
    h.create_key(&path).unwrap();
    h.set_value(&path, "Element", v).unwrap();
}

/// A fresh hive must be valid according to nt-hive.
#[test]
fn new_empty_is_valid() {
    let mut h = Hive::new_empty("BCD");
    let bytes = h.to_bytes();
    let nt = nt_hive::Hive::new(bytes.as_ref()).expect("nt-hive parse");
    nt.validate().expect("valid structure");
    assert_eq!(
        nt.root_key_node().unwrap().name().unwrap().to_string(),
        "BCD"
    );
}

/// The synthetic fixture reads back correctly (here and through nt-hive).
#[test]
fn synthetic_bcd_roundtrips() {
    let mut h = synthetic_bcd();
    let path = format!("Objects\\{BOOTMGR}\\Elements\\23000003");
    assert_eq!(
        h.get_value(&path, "Element").unwrap(),
        RegValue::Sz(OSLOADER.into())
    );

    let bytes = h.to_bytes();
    let nt = nt_hive::Hive::new(bytes.as_ref()).unwrap();
    nt.validate().unwrap();
    // Binary search on the nt-hive side (so the lists are sorted).
    let root = nt.root_key_node().unwrap();
    assert!(root.subpath(&path).is_some());
}

#[test]
fn non_ascii_root_name_reads_back() {
    let h = Hive::new_empty("é");
    let k = h.root_key().unwrap();
    assert_eq!(k.name, "é");
    let h2 = Hive::from_bytes(h.clone().to_bytes()).unwrap();
    assert_eq!(h2.root_key().unwrap().name, "é");
}

#[test]
fn fresh_hive_layout() {
    let h = Hive::new_empty("BCD");
    let k = h.root_key().unwrap();
    assert_eq!(k.name, "BCD");
    assert_eq!(k.subkey_count, 0);
    assert_eq!(k.value_count, 0);
    assert_eq!(k.offset(), 0x50);
    assert_eq!(h.header().root_cell_offset, 0x50);
    assert_eq!(h.header().hive_bins_size, 0x1000);
    assert!(!h.is_dirty());
}

#[test]
fn rewriting_a_value_keeps_one_entry() {
    let mut h = Hive::new_empty("R");
    h.set_value("", "v", RegValue::Dword(1)).unwrap();
    assert_eq!(h.set_value("", "v", RegValue::Dword(2)), Ok(()));
    assert_eq!(h.list_values(""), Ok(vec![("v".to_string(), RegValue::Dword(2))]));
    assert_eq!(h.get_value("", "v"), Ok(RegValue::Dword(2)));
    assert_eq!(h.root_key().unwrap().value_count, 1);
}

#[test]
fn values_list_in_insertion_order() {
    let mut h = Hive::new_empty("R");
    h.set_value("", "b", RegValue::Dword(1)).unwrap();
    h.set_value("", "a", RegValue::Sz("x".to_string())).unwrap();
    assert_eq!(
        h.list_values(""),
        Ok(vec![("b".to_string(), RegValue::Dword(1)), ("a".to_string(), RegValue::Sz("x".to_string()))])
    );
}

#[test]
fn created_keys_listed_sorted() {
    let mut h = Hive::new_empty("R");
    h.create_key("b").unwrap();
    h.create_key("A").unwrap();
    assert!(h.create_key("C").is_ok());
    assert_eq!(
        h.list_subkeys(""),
        Ok(vec!["A".to_string(), "b".to_string(), "C".to_string()])
    );
    assert_eq!(h.root_key().unwrap().subkey_count, 3);
}

#[test]
fn delete_undoes_set() {
    let mut h = Hive::new_empty("R");
    h.set_value("", "a", RegValue::Dword(1)).unwrap();
    h.set_value("", "b", RegValue::Dword(2)).unwrap();
    let before = h.list_values("").unwrap();
    h.set_value("", "c", RegValue::Sz("z".to_string())).unwrap();
    assert_eq!(h.delete_value("", "c"), Ok(()));
    assert_eq!(h.list_values(""), Ok(before));
    assert!(matches!(h.get_value("", "c"), Err(RegError::ValueNotFound(_))));
    assert_eq!(h.root_key().unwrap().value_count, 2);
}
