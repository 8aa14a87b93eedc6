use regf_rs::{cmp_name, cmp_str, eq_name, lh_hash};
use std::cmp::Ordering;

#[test]
fn case_insensitive_equality() {
    assert!(eq_name("Elements", "elements"));
    assert!(eq_name("24000002", "24000002"));
    assert!(!eq_name("Foo", "Bar"));
}

#[test]
fn ordering_matches_ascii_upcase() {
    assert_eq!(cmp_str("A", "b"), Ordering::Less);
    assert_eq!(cmp_str("a", "B"), Ordering::Less);
    // A shorter prefix comes first.
    assert_eq!(cmp_str("ab", "abc"), Ordering::Less);
}

#[test]
fn sort_is_stable_and_correct() {
    let mut v = ["24000010", "23000003", "24000001", "24000002"].to_vec();
    v.sort_by(|a, b| cmp_str(a, b));
    assert_eq!(v, ["23000003", "24000001", "24000002", "24000010"]);
}

#[test]
fn hash_is_case_insensitive() {
    assert_eq!(lh_hash("abc"), lh_hash("ABC"));
    assert_ne!(lh_hash("abc"), lh_hash("abd"));
    // Non-zero for a non-empty name.
    let _: Vec<u32> = ["a", "bb"].iter().map(|s| lh_hash(s)).collect();
    assert_ne!(lh_hash("Element"), 0);
    assert_eq!("".to_string().len(), 0);
}

#[test]
fn lh_hash_exact_values() {
    // hash = hash * 37 + upcase(byte)
    assert_eq!(lh_hash(""), 0);
    assert_eq!(lh_hash("a"), 65);
    assert_eq!(lh_hash("abc"), (65 * 37 + 66) * 37 + 67);
    assert_eq!(lh_hash("ABC"), 91494);
    // Wrapping arithmetic on long names.
    let long = "z".repeat(20);
    let mut h: u32 = 0;
    for _ in 0..20 {
        h = h.wrapping_mul(37).wrapping_add(90);
    }
    assert_eq!(lh_hash(&long), h);
}

#[test]
fn cmp_name_on_stored_units() {
    let units: Vec<u16> = "ELEMENTS".encode_utf16().collect();
    assert_eq!(cmp_name("elements", &units), Ordering::Equal);
    assert_eq!(cmp_name("element", &units), Ordering::Less);
    assert_eq!(cmp_name("elementsx", &units), Ordering::Greater);
    assert_eq!(cmp_name("z", &units), Ordering::Greater);
    assert_eq!(cmp_name("", &[]), Ordering::Equal);
}

#[test]
fn name_order_is_antisymmetric_and_transitive() {
    let names = ["a", "B", "ab", "Abc", "b", "_", "0", "zz", "Z"];
    for x in names {
        for y in names {
            assert_eq!(cmp_str(x, y), cmp_str(y, x).reverse());
            for z in names {
                if cmp_str(x, y) != Ordering::Greater && cmp_str(y, z) != Ordering::Greater {
                    assert_ne!(cmp_str(x, z), Ordering::Greater);
                }
            }
        }
    }
}

#[test]
fn non_ascii_units_compare_as_is() {
    // Only the ASCII plane is folded.
    assert!(!eq_name("é", "É"));
    assert!(eq_name("é", "é"));
    // Letters compare as upper case, so '_' (0x5F) comes after both cases.
    assert_eq!(cmp_str("_", "a"), Ordering::Greater);
    assert_eq!(cmp_str("_", "A"), Ordering::Greater);
    assert_eq!(cmp_str("@", "a"), Ordering::Less);
}
