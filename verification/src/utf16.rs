//! UTF-16 code units of Rust strings, and their decoding back to text.

use vstd::prelude::*;

verus! {

/// The UTF-16 code units of one character.
pub open spec fn char_units(c: char) -> Seq<u16> {
    let u = c as u32;
    if u < 0x10000 {
        seq![u as u16]
    } else {
        let v = u - 0x10000;
        seq![(0xD800 + v / 1024) as u16, (0xDC00 + v % 1024) as u16]
    }
}

/// The UTF-16 code units of a character sequence.
pub open spec fn utf16_encode(s: Seq<char>) -> Seq<u16>
    decreases s.len(),
{
    if s.len() == 0 {
        Seq::empty()
    } else {
        utf16_encode(s.drop_last()) + char_units(s.last())
    }
}

pub open spec fn is_high_surrogate(u: u16) -> bool {
    0xD800 <= u <= 0xDBFF
}

pub open spec fn is_low_surrogate(u: u16) -> bool {
    0xDC00 <= u <= 0xDFFF
}

pub open spec fn is_surrogate(u: u16) -> bool {
    0xD800 <= u <= 0xDFFF
}

/// The character that a surrogate pair stands for.
pub open spec fn pair_char(hi: u16, lo: u16) -> char {
    (0x10000 + (hi - 0xD800) * 1024 + (lo - 0xDC00)) as char
}

/// Decodes UTF-16, each unpaired surrogate becoming U+FFFD.
pub open spec fn utf16_decode(u: Seq<u16>) -> Seq<char>
    decreases u.len(),
{
    if u.len() == 0 {
        Seq::empty()
    } else if u.len() >= 2 && is_high_surrogate(u[0]) && is_low_surrogate(u[1]) {
        seq![pair_char(u[0], u[1])] + utf16_decode(u.skip(2))
    } else if is_surrogate(u[0]) {
        seq!['\u{FFFD}'] + utf16_decode(u.skip(1))
    } else {
        seq![(u[0] as u32) as char] + utf16_decode(u.skip(1))
    }
}

/// `String::from_utf16_lossy`: decodes UTF-16 code units, replacing each
/// unpaired surrogate by U+FFFD.
#[verifier::external_body]
pub(crate) fn string_from_utf16_lossy(units: &[u16]) -> (s: String)
    ensures
        s@ == utf16_decode(units@),
{
    String::from_utf16_lossy(units)
}

/// `String::push` appends one character.
pub assume_specification[ String::push ](s: &mut String, ch: char)
    ensures
        final(s)@ == old(s)@.push(ch),
;

proof fn lemma_char_units(c: char)
    ensures
        char_units(c).len() == 1 || char_units(c).len() == 2,
        char_units(c).len() == 1 ==> !is_surrogate(char_units(c)[0]) && char_units(c)[0] != 0
            || c == '\0',
        char_units(c).len() == 1 ==> char_units(c)[0] as u32 == c as u32,
        char_units(c).len() == 2 ==> is_high_surrogate(char_units(c)[0]) && is_low_surrogate(
            char_units(c)[1],
        ) && pair_char(char_units(c)[0], char_units(c)[1]) == c,
        char_units(c).len() == 2 ==> char_units(c)[0] != 0 && char_units(c)[1] != 0,
{
    let u = c as u32;
    assert(u <= 0xD7FF || 0xE000 <= u <= 0x10FFFF) by {
        vstd::utf8::char_is_scalar(c);
    }
    if u >= 0x10000 {
        let v = u - 0x10000;
        assert(v / 1024 < 1024);
        assert((v / 1024) * 1024 + v % 1024 == v) by (nonlinear_arith);
        assert(((0x10000 + v / 1024 * 1024 + v % 1024) as char) == c);
    }
}

/// Encoding then decoding a character sequence gives it back.
pub proof fn lemma_utf16_roundtrip(s: Seq<char>)
    ensures
        utf16_decode(utf16_encode(s)) == s,
    decreases s.len(),
{
    if s.len() > 0 {
        let c = s[0];
        let rest = s.skip(1);
        lemma_utf16_encode_cons(c, rest);
        assert(s == seq![c] + rest);
        lemma_utf16_roundtrip(rest);
        let e = utf16_encode(rest);
        let cu = char_units(c);
        lemma_char_units(c);
        let all = cu + e;
        if cu.len() == 1 {
            assert(all.skip(1) =~= e);
            if c == '\0' {
                assert(!is_surrogate(all[0]));
            }
            assert(!(all.len() >= 2 && is_high_surrogate(all[0]) && is_low_surrogate(all[1])));
            assert(all[0] as u32 == c as u32);
            vstd::utf8::char_u32_cast(c, all[0] as u32);
            assert(((all[0] as u32) as char) == c);
        } else {
            assert(all.skip(2) =~= e);
        }
        assert(utf16_decode(all) =~= s);
    }
}

/// Encoding distributes over a leading character.
pub proof fn lemma_utf16_encode_cons(c: char, s: Seq<char>)
    ensures
        utf16_encode(seq![c] + s) == char_units(c) + utf16_encode(s),
    decreases s.len(),
{
    if s.len() == 0 {
        let t = seq![c] + s;
        assert(t.drop_last() =~= Seq::<char>::empty());
        assert(t.last() == c);
        assert(utf16_encode(Seq::<char>::empty()) =~= Seq::<u16>::empty());
        assert(utf16_encode(t) =~= char_units(c));
        assert(utf16_encode(s) =~= Seq::<u16>::empty());
        assert(char_units(c) + utf16_encode(s) =~= char_units(c));
    } else {
        let t = seq![c] + s;
        assert(t.drop_last() =~= seq![c] + s.drop_last());
        lemma_utf16_encode_cons(c, s.drop_last());
        assert(t.last() == s.last());
        assert(utf16_encode(t) =~= char_units(c) + utf16_encode(s));
    }
}

/// Encoding distributes over concatenation.
pub proof fn lemma_utf16_encode_append(a: Seq<char>, b: Seq<char>)
    ensures
        utf16_encode(a + b) == utf16_encode(a) + utf16_encode(b),
    decreases b.len(),
{
    if b.len() == 0 {
        assert(a + b =~= a);
        assert(utf16_encode(a) + utf16_encode(b) =~= utf16_encode(a));
    } else {
        assert((a + b).drop_last() =~= a + b.drop_last());
        lemma_utf16_encode_append(a, b.drop_last());
        assert((a + b).last() == b.last());
        assert(utf16_encode(a + b) =~= utf16_encode(a) + utf16_encode(b));
    }
}

/// A character sequence holds NUL exactly when its encoding holds a zero unit.
pub proof fn lemma_utf16_encode_nul(s: Seq<char>)
    ensures
        (forall|i: int| 0 <= i < s.len() ==> s[i] != '\0') ==> (forall|j: int|
            0 <= j < utf16_encode(s).len() ==> utf16_encode(s)[j] != 0),
    decreases s.len(),
{
    if s.len() > 0 {
        lemma_utf16_encode_nul(s.drop_last());
        lemma_char_units(s.last());
        if forall|i: int| 0 <= i < s.len() ==> s[i] != '\0' {
            assert(s.last() != '\0');
            let e = utf16_encode(s);
            let p = utf16_encode(s.drop_last());
            assert forall|j: int| 0 <= j < e.len() implies e[j] != 0 by {
                assert(forall|i: int| 0 <= i < s.drop_last().len() ==> s.drop_last()[i] != '\0');
                if j < p.len() {
                    assert(e[j] == p[j]);
                } else {
                    assert(e[j] == char_units(s.last())[j - p.len()]);
                }
            }
        }
    }
}

/// The UTF-16 code units of `s`.
pub fn str_utf16(s: &str) -> (v: Vec<u16>)
    ensures
        v@ == utf16_encode(s@),
{
    let mut v: Vec<u16> = Vec::new();
    for c in it: s.chars()
        invariant
            it.seq() == s@,
            v@ == utf16_encode(s@.take(it.index() as int)),
    {
        let ghost pre = s@.take(it.index() as int);
        proof {
            assert(s@.take(it.index() + 1).drop_last() =~= pre);
            assert(s@.take(it.index() + 1).last() == c);
        }
        let u = c as u32;
        proof {
            vstd::utf8::char_is_scalar(c);
        }
        if u < 0x10000 {
            v.push(u as u16);
        } else {
            let w = u - 0x10000;
            v.push((0xD800 + w / 1024) as u16);
            v.push((0xDC00 + w % 1024) as u16);
        }
        proof {
            assert(v@ =~= utf16_encode(pre) + char_units(c));
        }
    }
    proof {
        assert(s@.take(s@.len() as int) =~= s@);
    }
    v
}

} // verus!
