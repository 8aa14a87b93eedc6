//! In-place writes, cross-checked with `nt-hive` on a synthetic hive.
use regf_rs::{Hive, RegError, RegValue};
use std::collections::BTreeSet;

const BOOT_MANAGER: &str = "{9dea862c-5cdd-4e70-acc1-f32b344d4795}";
const OS_LOADER: &str = "{11111111-2222-3333-4444-555555555555}";

fn bcd_fixture() -> Hive {
    let mut h = Hive::new_empty("BCD");
    let bootmgr_elems = format!("Objects\\{BOOT_MANAGER}\\Elements");
    h.create_key(&bootmgr_elems).unwrap();
    put_element(&mut h, &bootmgr_elems, "23000003", RegValue::Sz(OS_LOADER.into()));
    put_element(
        &mut h,
        &bootmgr_elems,
        "24000001",
        RegValue::MultiSz(vec![OS_LOADER.into()]),
    );
    put_element(
        &mut h,
        &bootmgr_elems,
        "25000004",
        RegValue::Binary(vec![30, 0, 0, 0, 0, 0, 0, 0]),
    );
    let os_elems = format!("Objects\\{OS_LOADER}\\Elements");
    h.create_key(&os_elems).unwrap();
    put_element(&mut h, &os_elems, "12000004", RegValue::Sz("Windows".into()));
    h
}

fn put_element(h: &mut Hive, elements: &str, code: &str, v: RegValue) {
    let path = format!("{elements}\\{code}");
    h.create_key(&path).unwrap();
    h.set_value(&path, "Element", v).unwrap();
}

fn nt_lookup(bytes: &[u8], key_path: &str) -> Option<String> {
    let hive = nt_hive::Hive::new(bytes).unwrap();
    let root = hive.root_key_node().unwrap();
    let node = root.subpath(key_path)?.ok()?;
    let value = node.value("Element")?.ok()?;
    let data = value.string_data().ok();
    data
}

fn nt_subkeys(bytes: &[u8], key_path: &str) -> Vec<String> {
    let hive = nt_hive::Hive::new(bytes).unwrap();
    let root = hive.root_key_node().unwrap();
    let node = root.subpath(key_path).unwrap().unwrap();
    node.subkeys()
        .unwrap()
        .unwrap()
        .filter_map(|k| k.ok())
        .filter_map(|k| k.name().ok().map(|n| n.to_string()))
        .collect()
}

fn validate(bytes: &[u8]) {
    nt_hive::Hive::new(bytes).unwrap().validate().unwrap();
}

#[test]
fn modify_default_object() {
    let mut h = bcd_fixture();
    let path = format!("Objects\\{BOOT_MANAGER}\\Elements\\23000003");
    let target = "{aabbccdd-1122-3344-5566-778899aabbcc}";
    h.set_value(&path, "Element", RegValue::Sz(target.into()))
        .unwrap();
    let bytes = h.to_bytes();
    validate(&bytes);
    assert_eq!(nt_lookup(&bytes, &path).as_deref(), Some(target));
}

/// Creating a missing key must leave it findable by nt-hive's binary search
/// (so it was inserted in sorted position).
#[test]
fn create_boot_sequence_is_findable() {
    let mut h = bcd_fixture();
    let elements = format!("Objects\\{BOOT_MANAGER}\\Elements");
    let seq = format!("{elements}\\24000002");
    let win = "{c54212ab-0000-0000-0000-000000000000}";

    h.create_key(&seq).unwrap();
    h.set_value(&seq, "Element", RegValue::MultiSz(vec![win.into()]))
        .unwrap();
    let bytes = h.to_bytes();

    validate(&bytes);
    let nt = nt_hive::Hive::new(bytes.as_ref()).unwrap();
    assert!(
        nt.root_key_node().unwrap().subpath(&seq).is_some(),
        "key findable by search"
    );

    let subkeys = nt_subkeys(&bytes, &elements);
    let mut sorted = subkeys.clone();
    sorted.sort();
    assert_eq!(subkeys, sorted, "subkeys in order");
    assert!(subkeys.contains(&"24000002".to_string()));
}

#[test]
fn grow_value_reallocates() {
    let mut h = bcd_fixture();
    let path = format!("Objects\\{BOOT_MANAGER}\\Elements\\23000003");
    let long = "{aaaaaaaa-bbbb-cccc-dddd-eeeeeeeeeeee}".repeat(30);
    h.set_value(&path, "Element", RegValue::Sz(long.clone()))
        .unwrap();
    let bytes = h.to_bytes();
    validate(&bytes);
    assert_eq!(nt_lookup(&bytes, &path).as_deref(), Some(long.as_str()));
}

#[test]
fn delete_value_works() {
    let mut h = bcd_fixture();
    let path = format!("Objects\\{BOOT_MANAGER}\\Elements\\25000004");
    assert!(h.get_value(&path, "Element").is_ok());
    h.delete_value(&path, "Element").unwrap();
    assert!(matches!(
        h.get_value(&path, "Element"),
        Err(RegError::ValueNotFound(_))
    ));
    validate(&h.to_bytes());
}

#[test]
fn arm_then_clear_oneshot() {
    let mut h = bcd_fixture();
    let seq = format!("Objects\\{BOOT_MANAGER}\\Elements\\24000002");
    let win = "{c54212ab-0000-0000-0000-000000000000}";
    h.create_key(&seq).unwrap();
    h.set_value(&seq, "Element", RegValue::MultiSz(vec![win.into()]))
        .unwrap();
    assert!(h.get_value(&seq, "Element").is_ok());
    h.delete_value(&seq, "Element").unwrap();
    validate(&h.to_bytes());
}

#[test]
fn write_preserves_unrelated_data() {
    let mut h = bcd_fixture();
    let witness_path = format!("Objects\\{BOOT_MANAGER}\\Elements\\24000001");
    let before = h.get_value(&witness_path, "Element").unwrap();

    let seq = format!("Objects\\{BOOT_MANAGER}\\Elements\\24000002");
    h.create_key(&seq).unwrap();
    h.set_value(&seq, "Element", RegValue::MultiSz(vec!["{x}".into()]))
        .unwrap();

    let after = h.get_value(&witness_path, "Element").unwrap();
    assert_eq!(before, after);

    let bytes = h.to_bytes();
    validate(&bytes);
    let objects: BTreeSet<String> = nt_subkeys(&bytes, "Objects").into_iter().collect();
    assert_eq!(objects.len(), 2); // boot manager and OS loader intact
}

#[test]
fn self_roundtrip() {
    let mut h = bcd_fixture();
    let path = format!("Objects\\{BOOT_MANAGER}\\Elements\\23000003");
    let target = "{deadbeef-0000-1111-2222-333344445555}";
    h.set_value(&path, "Element", RegValue::Sz(target.into()))
        .unwrap();
    let bytes = h.to_bytes();
    let reloaded = Hive::from_bytes(bytes).unwrap();
    assert!(!reloaded.is_dirty());
    assert_eq!(
        reloaded.get_value(&path, "Element").unwrap(),
        RegValue::Sz(target.into())
    );
}
