//! Comparison and hashing of key names by the registry's rules.
//!
//! Key names are case-insensitive. Subkey lists (`lf`/`lh`) are ordered by
//! the case-folded UTF-16 code units of the names, and looked up by binary
//! search, so a wrongly ordered list hides keys. Folding applies to the ASCII
//! plane only; other code units compare as they are.

use core::cmp::Ordering;
use vstd::prelude::*;

use crate::utf16::{str_utf16, utf16_encode};

verus! {

/// ASCII upper-casing of one UTF-16 code unit.
pub open spec fn upcase16(u: u16) -> u16 {
    if 0x61 <= u <= 0x7A {
        (u - 0x20) as u16
    } else {
        u
    }
}

/// ASCII upper-casing of one byte.
pub open spec fn upcase8(b: u8) -> u8 {
    if 0x61 <= b <= 0x7A {
        (b - 0x20) as u8
    } else {
        b
    }
}

/// The case-folded code units of a unit sequence.
pub open spec fn fold_units(u: Seq<u16>) -> Seq<u16> {
    u.map_values(|x: u16| upcase16(x))
}

/// Lexicographic order of two unit sequences after case folding:
/// negative, zero or positive.
pub open spec fn fold_order(a: Seq<u16>, b: Seq<u16>) -> int
    decreases a.len(),
{
    if a.len() == 0 {
        if b.len() == 0 {
            0
        } else {
            -1
        }
    } else if b.len() == 0 {
        1
    } else if upcase16(a[0]) < upcase16(b[0]) {
        -1
    } else if upcase16(a[0]) > upcase16(b[0]) {
        1
    } else {
        fold_order(a.skip(1), b.skip(1))
    }
}

/// The order of two names.
pub open spec fn name_order(a: Seq<char>, b: Seq<char>) -> int {
    fold_order(utf16_encode(a), utf16_encode(b))
}

/// The `lh` hash of a name's bytes: `hash = hash * 37 + upcase(byte)`,
/// modulo 2^32.
pub open spec fn lh_hash_bytes(b: Seq<u8>) -> u32
    decreases b.len(),
{
    if b.len() == 0 {
        0
    } else {
        vstd::wrapping::u32_specs::wrapping_add(
            vstd::wrapping::u32_specs::wrapping_mul(lh_hash_bytes(b.drop_last()), 37),
            upcase8(b.last()) as u32,
        )
    }
}

fn upcase(u: u16) -> (r: u16)
    ensures
        r == upcase16(u),
{
    if 0x61 <= u && u <= 0x7A {
        u - 0x20
    } else {
        u
    }
}

fn upcase_byte(b: u8) -> (r: u8)
    ensures
        r == upcase8(b),
{
    if 0x61 <= b && b <= 0x7A {
        b - 0x20
    } else {
        b
    }
}

proof fn lemma_skip_step(a: Seq<u16>, i: int)
    requires
        0 <= i < a.len(),
    ensures
        a.skip(i).skip(1) =~= a.skip(i + 1),
        a.skip(i)[0] == a[i],
        a.skip(i).len() == a.len() - i,
{
}

/// Compares two code unit sequences after case folding: -1, 0 or 1.
pub(crate) fn units_order(a: &[u16], b: &[u16]) -> (r: i8)
    ensures
        r == fold_order(a@, b@),
{
    let mut i: usize = 0;
    proof {
        assert(a@.skip(0) =~= a@);
        assert(b@.skip(0) =~= b@);
    }
    while i < a.len() && i < b.len()
        invariant
            i <= a@.len(),
            i <= b@.len(),
            fold_order(a@, b@) == fold_order(a@.skip(i as int), b@.skip(i as int)),
        decreases a@.len() - i,
    {
        proof {
            lemma_skip_step(a@, i as int);
            lemma_skip_step(b@, i as int);
        }
        let x = upcase(a[i]);
        let y = upcase(b[i]);
        if x < y {
            return -1;
        }
        if x > y {
            return 1;
        }
        i = i + 1;
    }
    if a.len() == b.len() {
        0
    } else if a.len() < b.len() {
        -1
    } else {
        1
    }
}

/// Compares two names as Windows does: UTF-16 code unit by code unit, after
/// case folding. `a` is a Rust string, `b_units` the UTF-16 code units of a
/// stored name.
pub fn cmp_name(a: &str, b_units: &[u16]) -> (r: Ordering)
    ensures
        (r == Ordering::Less) == (fold_order(utf16_encode(a@), b_units@) < 0),
        (r == Ordering::Equal) == (fold_order(utf16_encode(a@), b_units@) == 0),
        (r == Ordering::Greater) == (fold_order(utf16_encode(a@), b_units@) > 0),
{
    let au = str_utf16(a);
    let o = units_order(au.as_slice(), b_units);
    if o < 0 {
        Ordering::Less
    } else if o > 0 {
        Ordering::Greater
    } else {
        Ordering::Equal
    }
}

/// Compares two Rust names by the same rule.
pub fn cmp_str(a: &str, b: &str) -> (r: Ordering)
    ensures
        (r == Ordering::Less) == (name_order(a@, b@) < 0),
        (r == Ordering::Equal) == (name_order(a@, b@) == 0),
        (r == Ordering::Greater) == (name_order(a@, b@) > 0),
{
    let bu = str_utf16(b);
    cmp_name(a, bu.as_slice())
}

/// Case-insensitive equality by the same rule.
pub fn eq_name(a: &str, b: &str) -> (r: bool)
    ensures
        r == (name_order(a@, b@) == 0),
{
    let au = str_utf16(a);
    let bu = str_utf16(b);
    units_order(au.as_slice(), bu.as_slice()) == 0
}

/// The `lh` hash of a name, over the upper-cased bytes of its UTF-8 form.
/// Windows compares it before the name during binary search.
pub fn lh_hash(name: &str) -> (h: u32)
    ensures
        h == lh_hash_bytes(vstd::utf8::encode_utf8(name@)),
{
    let bytes = name.as_bytes();
    let mut hash: u32 = 0;
    let mut i: usize = 0;
    while i < bytes.len()
        invariant
            i <= bytes@.len(),
            bytes@ == vstd::utf8::encode_utf8(name@),
            hash == lh_hash_bytes(bytes@.take(i as int)),
        decreases bytes@.len() - i,
    {
        proof {
            assert(bytes@.take(i + 1).drop_last() =~= bytes@.take(i as int));
        }
        let up = upcase_byte(bytes[i]);
        hash = hash.wrapping_mul(37).wrapping_add(up as u32);
        i = i + 1;
    }
    proof {
        assert(bytes@.take(i as int) =~= bytes@);
    }
    hash
}

// ---------------------------------------------------------------------------
// Laws of the name order and of the hash
// ---------------------------------------------------------------------------

/// Swapping the operands negates the order of two unit sequences.
pub proof fn lemma_fold_order_antisymmetric(a: Seq<u16>, b: Seq<u16>)
    ensures
        fold_order(a, b) == -fold_order(b, a),
    decreases a.len(),
{
    if a.len() > 0 && b.len() > 0 {
        lemma_fold_order_antisymmetric(a.skip(1), b.skip(1));
    }
}

/// The order of unit sequences is transitive, strictly where a step is strict.
pub proof fn lemma_fold_order_transitive(a: Seq<u16>, b: Seq<u16>, c: Seq<u16>)
    requires
        fold_order(a, b) <= 0,
        fold_order(b, c) <= 0,
    ensures
        fold_order(a, c) <= 0,
        fold_order(a, b) < 0 || fold_order(b, c) < 0 ==> fold_order(a, c) < 0,
    decreases a.len(),
{
    if a.len() > 0 && b.len() > 0 && c.len() > 0 {
        if upcase16(a[0]) == upcase16(b[0]) && upcase16(b[0]) == upcase16(c[0]) {
            lemma_fold_order_transitive(a.skip(1), b.skip(1), c.skip(1));
        }
    }
}

/// Two unit sequences are equal in the order exactly when their folded
/// forms are equal.
pub proof fn lemma_fold_order_zero(a: Seq<u16>, b: Seq<u16>)
    ensures
        (fold_order(a, b) == 0) == (fold_units(a) == fold_units(b)),
    decreases a.len(),
{
    if a.len() > 0 && b.len() > 0 {
        lemma_fold_order_zero(a.skip(1), b.skip(1));
        assert(fold_units(a.skip(1)) =~= fold_units(a).skip(1));
        assert(fold_units(b.skip(1)) =~= fold_units(b).skip(1));
        if fold_units(a) == fold_units(b) {
            assert(fold_units(a)[0] == fold_units(b)[0]);
        }
        if upcase16(a[0]) == upcase16(b[0]) && fold_units(a.skip(1)) == fold_units(b.skip(1)) {
            assert(fold_units(a) =~= fold_units(b)) by {
                assert forall|i: int| 0 <= i < a.len() implies fold_units(a)[i] == fold_units(
                    b,
                )[i] by {
                    if i > 0 {
                        assert(fold_units(a)[i] == fold_units(a.skip(1))[i - 1]);
                        assert(fold_units(b)[i] == fold_units(b.skip(1))[i - 1]);
                    }
                }
            }
        }
    } else if a.len() == 0 && b.len() > 0 {
        assert(fold_units(a).len() != fold_units(b).len());
    } else if a.len() > 0 && b.len() == 0 {
        assert(fold_units(a).len() != fold_units(b).len());
    } else {
        assert(fold_units(a) =~= fold_units(b));
    }
}

/// Name order: swapping the names negates the result.
pub proof fn lemma_name_order_antisymmetric(a: Seq<char>, b: Seq<char>)
    ensures
        name_order(a, b) == -name_order(b, a),
{
    lemma_fold_order_antisymmetric(utf16_encode(a), utf16_encode(b));
}

/// Name order is transitive, so sorting by it is well defined.
pub proof fn lemma_name_order_transitive(a: Seq<char>, b: Seq<char>, c: Seq<char>)
    requires
        name_order(a, b) <= 0,
        name_order(b, c) <= 0,
    ensures
        name_order(a, c) <= 0,
        name_order(a, b) < 0 || name_order(b, c) < 0 ==> name_order(a, c) < 0,
{
    lemma_fold_order_transitive(utf16_encode(a), utf16_encode(b), utf16_encode(c));
}

/// Two names are equal by the registry's rule exactly when their UTF-16
/// code units agree after ASCII upper-casing; in particular every name
/// equals itself.
pub proof fn lemma_name_equality(a: Seq<char>, b: Seq<char>)
    ensures
        (name_order(a, b) == 0) == (fold_units(utf16_encode(a)) == fold_units(utf16_encode(b))),
        name_order(a, a) == 0,
{
    lemma_fold_order_zero(utf16_encode(a), utf16_encode(b));
    lemma_fold_order_zero(utf16_encode(a), utf16_encode(a));
}

/// The `lh` hash ignores ASCII case: byte strings that agree after
/// upper-casing hash alike.
pub proof fn lemma_lh_hash_case_insensitive(a: Seq<u8>, b: Seq<u8>)
    requires
        a.map_values(|x: u8| upcase8(x)) == b.map_values(|x: u8| upcase8(x)),
    ensures
        lh_hash_bytes(a) == lh_hash_bytes(b),
    decreases a.len(),
{
    assert(a.len() == a.map_values(|x: u8| upcase8(x)).len());
    assert(b.len() == b.map_values(|x: u8| upcase8(x)).len());
    if a.len() > 0 {
        let n = a.len() - 1;
        assert(upcase8(a[n]) == a.map_values(|x: u8| upcase8(x))[n]);
        assert(upcase8(b[n]) == b.map_values(|x: u8| upcase8(x))[n]);
        assert(a.drop_last().map_values(|x: u8| upcase8(x)) =~= b.drop_last().map_values(
            |x: u8| upcase8(x),
        )) by {
            assert forall|i: int| 0 <= i < n implies upcase8(a[i]) == upcase8(b[i]) by {
                assert(upcase8(a[i]) == a.map_values(|x: u8| upcase8(x))[i]);
                assert(upcase8(b[i]) == b.map_values(|x: u8| upcase8(x))[i]);
            }
        }
        lemma_lh_hash_case_insensitive(a.drop_last(), b.drop_last());
    }
}

} // verus!
