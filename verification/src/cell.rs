//! REGF structures: key nodes (`nk`), values (`vk`), subkey lists
//! (`lf`/`lh`/`li`/`ri`) and value data (`db`), and the payloads built for
//! writing them.

use vstd::prelude::*;

use crate::bytes::{
    lemma_put_u32_splice, lemma_splice_same, put_u32, rd, rd16, splice, u16_at, u32_at, wr, wr16, write_bytes, zeros, slice_to_vec,
};
use crate::error::{RegError, Result};
use crate::hbin::{payload_mut, payload_range};
use crate::utf16::{str_utf16, string_from_utf16_lossy, utf16_decode, utf16_encode};
use crate::value::{le16_seq, push_units_le, units_of, RegType};

verus! {

/// Marker of an absent offset.
pub const FREE: u32 = 0xFFFF_FFFF;

pub const FLAG_NK_COMP_NAME: u16 = 0x0020;
pub const FLAG_VK_COMP_NAME: u16 = 0x0001;
pub const INLINE_BIT: u32 = 0x8000_0000;
pub const BIG_DATA_THRESHOLD: usize = 16344;

/// Largest value data written into a single cell.
pub const BIG_DATA_LIMIT: usize = BIG_DATA_THRESHOLD;

pub const NK_SUBKEY_COUNT: usize = 20;
pub const NK_SUBKEY_LIST: usize = 28;
pub const NK_VALUE_COUNT: usize = 36;
pub const NK_VALUE_LIST: usize = 40;

/// The payload of the cell at data offset `off`, or the error that reading
/// it meets.
pub open spec fn cell_payload_spec(d: Seq<u8>, off: u32) -> Result<Seq<u8>> {
    match payload_range(d, off) {
        Ok((a, b)) => Ok(d.subrange(a, b)),
        Err(e) => Err(e),
    }
}

/// Returns the payload (after the size field) of the cell at a data offset.
pub fn cell_payload(data: &[u8], data_offset: u32) -> (r: Result<&[u8]>)
    ensures
        match cell_payload_spec(data@, data_offset) {
            Ok(p) => r matches Ok(q) && q@ == p,
            Err(e) => r == Err::<&[u8], RegError>(e),
        },
{
    let len = data.len();
    let idx64: u64 = data_offset as u64 + 0x1000;
    if idx64 + 4 > len as u64 {
        return Err(RegError::Truncated { offset: idx64 as usize });
    }
    let idx = idx64 as usize;
    let raw = crate::bytes::rd_i32(data, idx);
    let size: u64 = if raw < 0 {
        let w: i64 = raw as i64;
        (-w) as u64
    } else {
        raw as u64
    };
    if size < 4 || idx64 + size > len as u64 {
        return Err(RegError::CorruptCell { offset: idx });
    }
    Ok(&data[idx + 4..idx + size as usize])
}

// ---------------------------------------------------------------------------
// Names
// ---------------------------------------------------------------------------

/// A stored name: one character per byte when `ascii`, else UTF-16LE.
pub open spec fn name_from_bytes(b: Seq<u8>, ascii: bool) -> Seq<char> {
    if ascii {
        b.map_values(|x: u8| x as char)
    } else {
        utf16_decode(units_of(b))
    }
}

/// The stored bytes of a name: its UTF-8 bytes when `ascii`, else UTF-16LE.
pub open spec fn name_to_bytes(s: Seq<char>, ascii: bool) -> Seq<u8> {
    if ascii {
        vstd::utf8::encode_utf8(s)
    } else {
        le16_seq(utf16_encode(s))
    }
}

fn decode_name(bytes: &[u8], ascii: bool) -> (s: String)
    ensures
        s@ == name_from_bytes(bytes@, ascii),
{
    if ascii {
        let mut s = String::new();
        let mut i: usize = 0;
        while i < bytes.len()
            invariant
                i <= bytes@.len(),
                s@ == bytes@.take(i as int).map_values(|x: u8| x as char),
            decreases bytes@.len() - i,
        {
            s.push(bytes[i] as char);
            i = i + 1;
            proof {
                assert(s@ =~= bytes@.take(i as int).map_values(|x: u8| x as char));
            }
        }
        proof {
            assert(bytes@.take(i as int) =~= bytes@);
        }
        s
    } else {
        let mut units: Vec<u16> = Vec::new();
        let n = bytes.len() / 2;
        let mut i: usize = 0;
        while i < n
            invariant
                n == bytes.len() / 2,
                i <= n,
                units@ == units_of(bytes@).take(i as int),
            decreases n - i,
        {
            assert(i + i + 1 < bytes.len());
            let j: usize = i + i;
            let lo = bytes[j];
            let hi = bytes[j + 1];
            let u: u16 = lo as u16 + (hi as u16) * 256;
            units.push(u);
            i = i + 1;
            proof {
                assert(units@ =~= units_of(bytes@).take(i as int));
            }
        }
        proof {
            assert(units_of(bytes@).take(i as int) =~= units_of(bytes@));
        }
        string_from_utf16_lossy(units.as_slice())
    }
}

fn encode_name(name: &str, ascii: bool) -> (out: Vec<u8>)
    ensures
        out@ == name_to_bytes(name@, ascii),
{
    if ascii {
        slice_to_vec(name.as_bytes())
    } else {
        let units = str_utf16(name);
        let mut out: Vec<u8> = Vec::new();
        push_units_le(&mut out, units.as_slice());
        proof {
            assert(out@ =~= le16_seq(utf16_encode(name@)));
        }
        out
    }
}

// ---------------------------------------------------------------------------
// Key node (nk)
// ---------------------------------------------------------------------------

/// A key node as read from a hive.
#[derive(Debug, Clone)]
pub struct KeyNodeRaw {
    pub name: String,
    pub subkey_count: u32,
    pub subkey_list_offset: u32,
    pub value_count: u32,
    pub value_list_offset: u32,
    pub security_offset: u32,
}

/// The content of a key node.
pub struct KeyNodeView {
    pub name: Seq<char>,
    pub subkey_count: u32,
    pub subkey_list_offset: u32,
    pub value_count: u32,
    pub value_list_offset: u32,
    pub security_offset: u32,
}

impl View for KeyNodeRaw {
    type V = KeyNodeView;

    open spec fn view(&self) -> KeyNodeView {
        KeyNodeView {
            name: self.name@,
            subkey_count: self.subkey_count,
            subkey_list_offset: self.subkey_list_offset,
            value_count: self.value_count,
            value_list_offset: self.value_list_offset,
            security_offset: self.security_offset,
        }
    }
}

/// The key node that an `nk` payload `p` (of the cell at `off`) holds.
pub open spec fn parse_key_node(p: Seq<u8>, off: u32) -> Result<KeyNodeView> {
    if p.len() < 76 || p[0] != 0x6Eu8 || p[1] != 0x6Bu8 {
        Err(RegError::CorruptCell { offset: off as usize })
    } else {
        let flags = u16_at(p, 2);
        let name_len = u16_at(p, 72) as int;
        if 76 + name_len > p.len() {
            Err(RegError::CorruptCell { offset: off as usize })
        } else {
            Ok(
                KeyNodeView {
                    name: name_from_bytes(
                        p.subrange(76, 76 + name_len),
                        flags & FLAG_NK_COMP_NAME != 0,
                    ),
                    subkey_count: u32_at(p, 20),
                    subkey_list_offset: u32_at(p, 28),
                    value_count: u32_at(p, 36),
                    value_list_offset: u32_at(p, 40),
                    security_offset: u32_at(p, 44),
                },
            )
        }
    }
}

/// The key node of the cell at data offset `off`.
pub closed spec fn key_node_at(d: Seq<u8>, off: u32) -> Result<KeyNodeView> {
    match cell_payload_spec(d, off) {
        Ok(p) => parse_key_node(p, off),
        Err(e) => Err(e),
    }
}

/// What [`key_node_at`] stands for.
pub proof fn lemma_key_node_at(d: Seq<u8>, off: u32)
    ensures
        key_node_at(d, off) == match cell_payload_spec(d, off) {
            Ok(p) => parse_key_node(p, off),
            Err(e) => Err(e),
        },
{
}

/// The key node at `off` depends only on the bytes from its cell on.
pub proof fn lemma_key_node_same(d: Seq<u8>, e: Seq<u8>, off: u32)
    requires
        d.len() == e.len(),
        forall|i: int| off + 0x1000 <= i < d.len() ==> #[trigger] d[i] == e[i],
    ensures
        key_node_at(d, off) == key_node_at(e, off),
{
    let idx = off + 0x1000;
    if idx + 4 <= d.len() {
        assert(crate::bytes::i32_at(d, idx) == crate::bytes::i32_at(e, idx)) by {
            assert(d[idx] == e[idx] && d[idx + 1] == e[idx + 1] && d[idx + 2] == e[idx + 2] && d[idx
                + 3] == e[idx + 3]);
        }
        if let Ok((a, b)) = payload_range(d, off) {
            assert(d.subrange(a, b) =~= e.subrange(a, b));
        }
    }
}

/// Reads the key node at a data offset.
pub fn read_key_node(data: &[u8], data_offset: u32) -> (r: Result<KeyNodeRaw>)
    ensures
        match key_node_at(data@, data_offset) {
            Ok(v) => r matches Ok(k) && k@ == v,
            Err(e) => r matches Err(x) && x == e,
        },
{
    let p = cell_payload(data, data_offset)?;
    if p.len() < 76 || p[0] != 0x6Eu8 || p[1] != 0x6Bu8 {
        return Err(RegError::CorruptCell { offset: data_offset as usize });
    }
    let flags = rd16(p, 2);
    let name_len = rd16(p, 72) as usize;
    if 76 + name_len > p.len() {
        return Err(RegError::CorruptCell { offset: data_offset as usize });
    }
    let name_bytes = &p[76..76 + name_len];
    Ok(
        KeyNodeRaw {
            name: decode_name(name_bytes, flags & FLAG_NK_COMP_NAME != 0),
            subkey_count: rd(p, 20),
            subkey_list_offset: rd(p, 28),
            value_count: rd(p, 36),
            value_list_offset: rd(p, 40),
            security_offset: rd(p, 44),
        },
    )
}

/// The payload of a new leaf `nk` (no subkey, no value) named `name`.
pub open spec fn key_node_bytes(name: Seq<char>, parent: u32, security: u32) -> Seq<u8> {
    let ascii = vstd::utf8::is_ascii_chars(name);
    let nb = name_to_bytes(name, ascii);
    let flags: u16 = if ascii {
        FLAG_NK_COMP_NAME
    } else {
        0
    };
    let z = Seq::new((76 + nb.len()) as nat, |i: int| 0u8);
    let p1 = z.update(0, 0x6Eu8).update(1, 0x6Bu8).update(2, (flags % 256) as u8).update(
        3,
        (flags / 256) as u8,
    );
    let p2 = put_u32(put_u32(put_u32(put_u32(p1, 16, parent), 20, 0), 28, FREE), 32, FREE);
    let p3 = put_u32(put_u32(put_u32(put_u32(p2, 36, 0), 40, FREE), 44, security), 48, FREE);
    let nl = nb.len() as u16;
    let p4 = p3.update(72, (nl % 256) as u8).update(73, (nl / 256) as u8);
    splice(p4, 76, nb)
}

/// Builds the payload of a new leaf `nk` (no subkey, no value).
pub fn build_key_node(name: &str, parent: u32, security: u32) -> (p: Vec<u8>)
    requires
        76 + name_to_bytes(name@, vstd::utf8::is_ascii_chars(name@)).len() <= usize::MAX,
    ensures
        p@ == key_node_bytes(name@, parent, security),
{
    let ascii = name.is_ascii();
    let name_bytes = encode_name(name, ascii);
    let mut p = zeros(76 + name_bytes.len());
    p.set(0, 0x6Eu8);
    p.set(1, 0x6Bu8);
    let flags: u16 = if ascii {
        FLAG_NK_COMP_NAME
    } else {
        0
    };
    wr16(p.as_mut_slice(), 2, flags);
    wr(p.as_mut_slice(), 16, parent);
    wr(p.as_mut_slice(), 20, 0);  // subkey count
    wr(p.as_mut_slice(), 28, FREE);  // subkey list
    wr(p.as_mut_slice(), 32, FREE);  // volatile subkey list
    wr(p.as_mut_slice(), 36, 0);  // value count
    wr(p.as_mut_slice(), 40, FREE);  // value list
    wr(p.as_mut_slice(), 44, security);
    wr(p.as_mut_slice(), 48, FREE);  // class name
    wr16(p.as_mut_slice(), 72, #[verifier::truncate] (name_bytes.len() as u16));
    write_bytes(p.as_mut_slice(), 76, name_bytes.as_slice());
    p
}

/// The key node read back from a payload built by [`build_key_node`] whose
/// flags were then set to the root flags: hive entry and no delete, plus
/// compressed name for an ASCII name (`0x2C`, else `0x0C`).
pub proof fn lemma_root_node_parse(name: Seq<char>, parent: u32, security: u32, p: Seq<u8>, off: u32)
    requires
        p.len() >= key_node_bytes(name, parent, security).len(),
        forall|i: int|
            0 <= i < key_node_bytes(name, parent, security).len() && i != 2 && i != 3
                ==> #[trigger] p[i] == key_node_bytes(name, parent, security)[i],
        p[2] == (if vstd::utf8::is_ascii_chars(name) {
            0x2Cu8
        } else {
            0x0Cu8
        }),
        p[3] == 0u8,
    ensures
        ({
            let ascii = vstd::utf8::is_ascii_chars(name);
            let nb = name_to_bytes(name, ascii);
            parse_key_node(p, off) == Ok::<KeyNodeView, RegError>(
                KeyNodeView {
                    name: name_from_bytes(nb.subrange(0, (nb.len() as u16) as int), ascii),
                    subkey_count: 0,
                    subkey_list_offset: FREE,
                    value_count: 0,
                    value_list_offset: FREE,
                    security_offset: security,
                },
            )
        }),
{
    let ascii = vstd::utf8::is_ascii_chars(name);
    let nb = name_to_bytes(name, ascii);
    let flags: u16 = if ascii {
        FLAG_NK_COMP_NAME
    } else {
        0
    };
    let z = Seq::new((76 + nb.len()) as nat, |i: int| 0u8);
    let p1 = z.update(0, 0x6Eu8).update(1, 0x6Bu8).update(2, (flags % 256) as u8).update(
        3,
        (flags / 256) as u8,
    );
    let q1 = put_u32(p1, 16, parent);
    let q2 = put_u32(q1, 20, 0);
    let q3 = put_u32(q2, 28, FREE);
    let p2 = put_u32(q3, 32, FREE);
    let q4 = put_u32(p2, 36, 0);
    let q5 = put_u32(q4, 40, FREE);
    let q6 = put_u32(q5, 44, security);
    let p3 = put_u32(q6, 48, FREE);
    let nl = nb.len() as u16;
    let p4 = p3.update(72, (nl % 256) as u8).update(73, (nl / 256) as u8);
    let k = splice(p4, 76, nb);
    assert(k == key_node_bytes(name, parent, security));
    crate::bytes::lemma_put_u32(p1, 16, parent);
    crate::bytes::lemma_put_u32(q1, 20, 0);
    crate::bytes::lemma_put_u32(q2, 28, FREE);
    crate::bytes::lemma_put_u32(q3, 32, FREE);
    crate::bytes::lemma_put_u32(p2, 36, 0);
    crate::bytes::lemma_put_u32(q4, 40, FREE);
    crate::bytes::lemma_put_u32(q5, 44, security);
    crate::bytes::lemma_put_u32(q6, 48, FREE);
    assert(k.len() == 76 + nb.len());
    assert forall|i: int| 0 <= i < 76 implies #[trigger] k[i] == p4[i] by {}
    assert forall|i: int| 0 <= i < nb.len() implies #[trigger] k[76 + i] == nb[i] by {}
    assert(p[0] == 0x6Eu8 && p[1] == 0x6Bu8);
    assert(u32_at(p, 20) == u32_at(q2, 20));
    assert(u32_at(p, 28) == u32_at(q3, 28));
    assert(u32_at(p, 36) == u32_at(q4, 36));
    assert(u32_at(p, 40) == u32_at(q5, 40));
    assert(u32_at(p, 44) == u32_at(q6, 44));
    if ascii {
        assert(u16_at(p, 2) == 0x2Cu16);
        assert(0x2Cu16 & 0x20u16 != 0) by (bit_vector);
    } else {
        assert(u16_at(p, 2) == 0x0Cu16);
        assert(0x0Cu16 & 0x20u16 == 0) by (bit_vector);
    }
    assert(u16_at(p, 72) == nl);
    assert(p.subrange(76, 76 + nl as int) =~= nb.subrange(0, nl as int));
}

} // verus!

verus! {

/// The bytes after writing `value` at `field_off` of the payload of the
/// cell at `nk_offset`, or the error met.
pub open spec fn set_field_spec(d: Seq<u8>, nk_offset: u32, field_off: int, value: u32) -> Result<
    Seq<u8>,
> {
    match payload_range(d, nk_offset) {
        Ok((a, b)) => if field_off + 4 > b - a {
            Err(RegError::CorruptCell { offset: nk_offset as usize })
        } else {
            Ok(put_u32(d, a + field_off, value))
        },
        Err(e) => Err(e),
    }
}

/// Changes in place a `u32` field of an `nk` (through its data offset).
pub fn set_nk_field(data: &mut [u8], nk_offset: u32, field_off: usize, value: u32) -> (r: Result<
    (),
>)
    ensures
        match set_field_spec(old(data)@, nk_offset, field_off as int, value) {
            Ok(d) => r is Ok && final(data)@ == d,
            Err(e) => r == Err::<(), RegError>(e) && final(data)@ == old(data)@,
        },
{
    let ghost d = data@;
    let p = payload_mut(data, nk_offset)?;
    let ghost (a, b) = payload_range(d, nk_offset).unwrap();
    if field_off > p.len() || p.len() - field_off < 4 {
        proof {
            lemma_splice_same(d, a, b);
        }
        return Err(RegError::CorruptCell { offset: nk_offset as usize });
    }
    wr(p, field_off, value);
    proof {
        lemma_put_u32_splice(d, a, b, field_off as int, value);
    }
    Ok(())
}

/// The bytes after incrementing the reference count of the `sk` cell at
/// `sk_offset`, or the error met.
pub open spec fn incr_refcount_spec(d: Seq<u8>, sk_offset: u32) -> Result<Seq<u8>> {
    match payload_range(d, sk_offset) {
        Ok((a, b)) => if b - a < 16 || d[a] != 0x73u8 || d[a + 1] != 0x6Bu8 {
            Err(RegError::CorruptCell { offset: sk_offset as usize })
        } else {
            Ok(
                put_u32(
                    d,
                    a + 12,
                    vstd::wrapping::u32_specs::wrapping_add(u32_at(d, a + 12), 1),
                ),
            )
        },
        Err(e) => Err(e),
    }
}

/// Increments the reference count of a shared `sk` cell.
pub fn incr_security_refcount(data: &mut [u8], sk_offset: u32) -> (r: Result<()>)
    ensures
        match incr_refcount_spec(old(data)@, sk_offset) {
            Ok(d) => r is Ok && final(data)@ == d,
            Err(e) => r == Err::<(), RegError>(e) && final(data)@ == old(data)@,
        },
{
    let ghost d = data@;
    let p = payload_mut(data, sk_offset)?;
    let ghost (a, b) = payload_range(d, sk_offset).unwrap();
    if p.len() < 16 || p[0] != 0x73u8 || p[1] != 0x6Bu8 {
        proof {
            lemma_splice_same(d, a, b);
        }
        return Err(RegError::CorruptCell { offset: sk_offset as usize });
    }
    let old_rc = rd(p, 12);
    assert(old_rc == u32_at(d, a + 12)) by {
        assert(p@[12] == d[a + 12] && p@[13] == d[a + 13] && p@[14] == d[a + 14] && p@[15] == d[a + 15]);
    };
    let rc = old_rc.wrapping_add(1);
    wr(p, 12, rc);
    proof {
        lemma_put_u32_splice(d, a, b, 12, rc);
    }
    Ok(())
}

} // verus!

verus! {

// ---------------------------------------------------------------------------
// Subkey lists (lf / lh / li / ri)
// ---------------------------------------------------------------------------

/// Format of a leaf list, kept when a list is rewritten.
#[derive(Debug, Clone, Copy, PartialEq, Eq, Structural)]
pub enum LeafKind {
    Lf,
    Lh,
    Li,
}

/// The words at `first + stride * i` for `i < k`, those that fit in `p`.
pub open spec fn offsets_in(p: Seq<u8>, first: int, stride: int, k: nat) -> Seq<u32>
    decreases k,
{
    if k == 0 {
        Seq::empty()
    } else {
        let o = first + stride * (k - 1);
        offsets_in(p, first, stride, (k - 1) as nat) + if o + 4 <= p.len() {
            seq![u32_at(p, o)]
        } else {
            Seq::empty()
        }
    }
}

/// The payload starts with the two bytes `a`, `b`.
pub open spec fn has_magic(p: Seq<u8>, a: u8, b: u8) -> bool {
    p.len() >= 2 && p[0] == a && p[1] == b
}

/// The key node offsets of the list at `off`, descending into `ri` lists at
/// most `fuel` levels deep; an `ri` list met with no level left reads as
/// corrupt.
pub open spec fn subkeys_fuel(d: Seq<u8>, off: u32, fuel: nat) -> Result<Seq<u32>>
    decreases fuel, 0nat, 0nat,
{
    if off == 0 || off == FREE {
        Ok(Seq::empty())
    } else {
        match cell_payload_spec(d, off) {
            Err(e) => Err(e),
            Ok(p) => if p.len() < 4 {
                Err(RegError::CorruptCell { offset: off as usize })
            } else {
                let count = u16_at(p, 2) as nat;
                if has_magic(p, 0x6C, 0x66) || has_magic(p, 0x6C, 0x68) {
                    Ok(offsets_in(p, 4, 8, count))
                } else if has_magic(p, 0x6C, 0x69) {
                    Ok(offsets_in(p, 4, 4, count))
                } else if has_magic(p, 0x72, 0x69) {
                    if fuel == 0 {
                        Err(RegError::CorruptCell { offset: off as usize })
                    } else {
                        ri_concat(d, offsets_in(p, 4, 4, count), (fuel - 1) as nat)
                    }
                } else {
                    Err(RegError::CorruptCell { offset: off as usize })
                }
            },
        }
    }
}

/// The key node offsets of the lists `children`, in order, each read with
/// `fuel` levels.
pub open spec fn ri_concat(d: Seq<u8>, children: Seq<u32>, fuel: nat) -> Result<Seq<u32>>
    decreases fuel, 1nat, children.len(),
{
    if children.len() == 0 {
        Ok(Seq::empty())
    } else {
        match subkeys_fuel(d, children[0], fuel) {
            Err(e) => Err(e),
            Ok(s) => match ri_concat(d, children.skip(1), fuel) {
                Err(e) => Err(e),
                Ok(t) => Ok(s + t),
            },
        }
    }
}

/// Nesting depth of `ri` lists that a reading follows. Offsets are 32-bit,
/// so a nesting that ends is far shallower: a deeper one repeats a list and
/// never ends (the recursion exhausts the stack long before).
pub open spec fn ri_depth() -> nat {
    0xFFFF_FFFF_FFFF_FFFF
}

/// The key node offsets of the list at `off`.
pub open spec fn subkey_list(d: Seq<u8>, off: u32) -> Result<Seq<u32>> {
    subkeys_fuel(d, off, ri_depth())
}

/// `s` in front of the offsets of a result.
pub open spec fn prepend(s: Seq<u32>, r: Result<Seq<u32>>) -> Result<Seq<u32>> {
    match r {
        Ok(t) => Ok(s + t),
        Err(e) => Err(e),
    }
}

/// The words at `first + stride * i` of `p`, for `i < count`, that fit in `p`.
pub(crate) fn read_offsets(p: &[u8], first: u64, stride: u64, count: u64) -> (v: Vec<u32>)
    requires
        first <= 8,
        stride <= 8,
        count <= 0x1_0000_0000,
    ensures
        v@ == offsets_in(p@, first as int, stride as int, count as nat),
{
    let len = p.len();
    let mut out: Vec<u32> = Vec::new();
    let mut i: u64 = 0;
    while i < count
        invariant
            len == p@.len(),
            first <= 8,
            stride <= 8,
            i <= count <= 0x1_0000_0000,
            out@ == offsets_in(p@, first as int, stride as int, i as nat),
        decreases count - i,
    {
        assert(stride * i <= 8 * 0x1_0000_0000) by (nonlinear_arith)
            requires
                stride <= 8,
                i <= 0x1_0000_0000,
        ;
        let o: u64 = first + stride * i;
        if o + 4 <= len as u64 {
            out.push(rd(p, o as usize));
        }
        i = i + 1;
        proof {
            assert(out@ =~= offsets_in(p@, first as int, stride as int, i as nat));
        }
    }
    out
}

fn subkey_offsets_rec(data: &[u8], list_offset: u32, depth: u64) -> (r: Result<Vec<u32>>)
    ensures
        match subkeys_fuel(data@, list_offset, depth as nat) {
            Ok(s) => r matches Ok(v) && v@ == s,
            Err(e) => r matches Err(x) && x == e,
        },
    decreases depth,
{
    if list_offset == 0 || list_offset == FREE {
        return Ok(Vec::new());
    }
    let p = cell_payload(data, list_offset)?;
    if p.len() < 4 {
        return Err(RegError::CorruptCell { offset: list_offset as usize });
    }
    let count = rd16(p, 2) as u64;
    if (p[0] == 0x6Cu8 && p[1] == 0x66u8) || (p[0] == 0x6Cu8 && p[1] == 0x68u8) {
        Ok(read_offsets(p, 4, 8, count))
    } else if p[0] == 0x6Cu8 && p[1] == 0x69u8 {
        Ok(read_offsets(p, 4, 4, count))
    } else if p[0] == 0x72u8 && p[1] == 0x69u8 {
        if depth == 0 {
            return Err(RegError::CorruptCell { offset: list_offset as usize });
        }
        let children = read_offsets(p, 4, 4, count);
        let f = depth - 1;
        assert(subkeys_fuel(data@, list_offset, depth as nat) == ri_concat(data@, children@, f as nat));
        let mut out: Vec<u32> = Vec::new();
        let mut i: usize = 0;
        proof {
            assert(children@.skip(0) =~= children@);
            assert(prepend(out@, ri_concat(data@, children@, f as nat)) == ri_concat(data@, children@, f as nat)) by {
                match ri_concat(data@, children@, f as nat) {
                    Ok(t) => { assert(out@ + t =~= t); },
                    _ => {},
                }
            }
        }
        while i < children.len()
            invariant
                f == depth - 1,
                i <= children@.len(),
                subkeys_fuel(data@, list_offset, depth as nat) == ri_concat(data@, children@, f as nat),
                ri_concat(data@, children@, f as nat) == prepend(
                    out@,
                    ri_concat(data@, children@.skip(i as int), f as nat),
                ),
            decreases children@.len() - i,
        {
            let ghost rest = children@.skip(i as int);
            proof {
                assert(rest[0] == children@[i as int]);
                assert(rest.skip(1) =~= children@.skip(i + 1));
            }
            let mut sub = match subkey_offsets_rec(data, children[i], f) {
                Ok(v) => v,
                Err(e) => {
                    proof {
                        assert(ri_concat(data@, rest, f as nat) == Err::<Seq<u32>, RegError>(e));
                    }
                    return Err(e);
                },
            };
            let ghost sub_v = sub@;
            let ghost before = out@;
            out.append(&mut sub);
            i = i + 1;
            proof {
                match ri_concat(data@, children@.skip(i as int), f as nat) {
                    Ok(t) => {
                        assert((before + sub_v) + t =~= before + (sub_v + t));
                    },
                    _ => {},
                }
            }
        }
        proof {
            assert(children@.skip(i as int) =~= Seq::<u32>::empty());
            assert(out@ + Seq::<u32>::empty() =~= out@);
        }
        Ok(out)
    } else {
        Err(RegError::CorruptCell { offset: list_offset as usize })
    }
}

} // verus!

verus! {

/// Returns the key node offsets of a list (following `ri` lists).
pub fn subkey_offsets(data: &[u8], list_offset: u32) -> (r: Result<Vec<u32>>)
    ensures
        match subkey_list(data@, list_offset) {
            Ok(s) => r matches Ok(v) && v@ == s,
            Err(e) => r matches Err(x) && x == e,
        },
{
    subkey_offsets_rec(data, list_offset, 0xFFFF_FFFF_FFFF_FFFF)
}

/// The leaf format of the list at `off`; an `ri` list counts as `lf`.
pub open spec fn leaf_kind_spec(d: Seq<u8>, off: u32) -> Result<LeafKind> {
    if off == 0 || off == FREE {
        Ok(LeafKind::Lf)
    } else {
        match cell_payload_spec(d, off) {
            Err(e) => Err(e),
            Ok(p) => if has_magic(p, 0x6C, 0x68) {
                Ok(LeafKind::Lh)
            } else if has_magic(p, 0x6C, 0x69) {
                Ok(LeafKind::Li)
            } else {
                Ok(LeafKind::Lf)
            },
        }
    }
}

/// Detects the leaf format of a list (to keep `lf`/`lh`/`li`). An `ri` list
/// is flattened to `lf` (see `build_leaf_list`).
pub fn leaf_kind(data: &[u8], list_offset: u32) -> (r: Result<LeafKind>)
    ensures
        r == leaf_kind_spec(data@, list_offset),
{
    if list_offset == 0 || list_offset == FREE {
        return Ok(LeafKind::Lf);
    }
    let p = cell_payload(data, list_offset)?;
    if p.len() >= 2 && p[0] == 0x6Cu8 && p[1] == 0x68u8 {
        Ok(LeafKind::Lh)
    } else if p.len() >= 2 && p[0] == 0x6Cu8 && p[1] == 0x69u8 {
        Ok(LeafKind::Li)
    } else {
        Ok(LeafKind::Lf)
    }
}

/// Offset of entry `i` in a leaf list.
pub open spec fn entry_base(kind: LeafKind, i: int) -> int {
    if kind == LeafKind::Li {
        4 + 4 * i
    } else {
        4 + 8 * i
    }
}

/// The payload of a leaf list of `kind` over `entries` (name, key node
/// offset): signature, count, then per entry the offset followed, in `lf`,
/// by the first four bytes of the name (zero-padded) and, in `lh`, by the
/// name's hash; every other byte is zero.
pub open spec fn is_leaf_list(p: Seq<u8>, kind: LeafKind, entries: Seq<(Seq<char>, u32)>) -> bool {
    let n = entries.len() as int;
    &&& p.len() == entry_base(kind, n)
    &&& p[0] == 0x6Cu8
    &&& p[1] == (match kind {
        LeafKind::Lf => 0x66u8,
        LeafKind::Lh => 0x68u8,
        LeafKind::Li => 0x69u8,
    })
    &&& u16_at(p, 2) == n as u16
    &&& forall|i: int|
        0 <= i < n ==> {
            let base = #[trigger] entry_base(kind, i);
            let nb = vstd::utf8::encode_utf8(entries[i].0);
            &&& u32_at(p, base) == entries[i].1
            &&& kind == LeafKind::Lf ==> forall|j: int|
                0 <= j < 4 ==> p[base + 4 + j] == crate::value::byte_or_zero(nb, j)
            &&& kind == LeafKind::Lh ==> u32_at(p, base + 4) == crate::name::lh_hash_bytes(nb)
        }
}

/// Builds a sorted leaf list from `(name, nk_offset)` entries. The entries
/// must already be sorted by [`crate::name::cmp_str`].
pub fn build_leaf_list(kind: LeafKind, entries: &[(String, u32)]) -> (p: Vec<u8>)
    requires
        4 + 8 * entries@.len() <= usize::MAX,
    ensures
        is_leaf_list(p@, kind, entries@.map_values(|e: (String, u32)| (e.0@, e.1))),
{
    let ghost ents = entries@.map_values(|e: (String, u32)| (e.0@, e.1));
    let n = entries.len();
    let entry_size: usize = if kind == LeafKind::Li {
        4
    } else {
        8
    };
    let mut p = zeros(4 + n * entry_size);
    p.set(0, 0x6Cu8);
    let second: u8 = match kind {
        LeafKind::Lf => 0x66u8,
        LeafKind::Lh => 0x68u8,
        LeafKind::Li => 0x69u8,
    };
    p.set(1, second);
    wr16(p.as_mut_slice(), 2, #[verifier::truncate] (n as u16));
    let mut i: usize = 0;
    while i < n
        invariant
            n == entries@.len(),
            ents == entries@.map_values(|e: (String, u32)| (e.0@, e.1)),
            4 + 8 * n <= usize::MAX,
            entry_size == (if kind == LeafKind::Li {
                4usize
            } else {
                8usize
            }),
            i <= n,
            p@.len() == entry_base(kind, n as int),
            p@[0] == 0x6Cu8,
            p@[1] == second,
            second == (match kind {
                LeafKind::Lf => 0x66u8,
                LeafKind::Lh => 0x68u8,
                LeafKind::Li => 0x69u8,
            }),
            u16_at(p@, 2) == n as u16,
            forall|k: int|
                0 <= k < i ==> {
                    let base = #[trigger] entry_base(kind, k);
                    let nb = vstd::utf8::encode_utf8(ents[k].0);
                    &&& u32_at(p@, base) == ents[k].1
                    &&& kind == LeafKind::Lf ==> forall|j: int|
                        0 <= j < 4 ==> p@[base + 4 + j] == crate::value::byte_or_zero(nb, j)
                    &&& kind == LeafKind::Lh ==> u32_at(p@, base + 4)
                        == crate::name::lh_hash_bytes(nb)
                },
        decreases n - i,
    {
        let base = 4 + i * entry_size;
        assert(base == entry_base(kind, i as int));
        let ghost before = p@;
        wr(p.as_mut_slice(), base, entries[i].1);
        match kind {
            LeafKind::Lf => {
                // Hint: the first four bytes of the name.
                let hint = entries[i].0.as_str().as_bytes();
                let plen = p.len();
                let mut j: usize = 0;
                while j < 4
                    invariant
                        j <= 4,
                        i < n,
                        n == entries@.len(),
                        ents == entries@.map_values(|e: (String, u32)| (e.0@, e.1)),
                        plen == p@.len(),
                        p@.len() == before.len(),
                        base + 8 <= p@.len(),
                        hint@ == vstd::utf8::encode_utf8(ents[i as int].0),
                        u32_at(p@, base as int) == entries@[i as int].1,
                        forall|q: int| 0 <= q < p@.len() && !(base <= q < base + 8) ==> p@[q] == before[q],
                        forall|q: int| 0 <= q < j ==> p@[base + 4 + q] == crate::value::byte_or_zero(hint@, q),
                    decreases 4 - j,
                {
                    let b: u8 = if j < hint.len() {
                        hint[j]
                    } else {
                        0
                    };
                    p.set(base + 4 + j, b);
                    j = j + 1;
                }
            },
            LeafKind::Lh => {
                let h = crate::name::lh_hash(entries[i].0.as_str());
                wr(p.as_mut_slice(), base + 4, h);
            },
            LeafKind::Li => {},
        }
        i = i + 1;
    }
    p
}

} // verus!

verus! {

// ---------------------------------------------------------------------------
// Values (vk) and their data (inline / db)
// ---------------------------------------------------------------------------

/// A value node as read from a hive.
#[derive(Debug, Clone)]
pub struct ValueNodeRaw {
    pub name: String,
    pub ty: RegType,
    pub data_size: u32,
    pub data_offset: u32,
    pub inline: bool,
}

/// The content of a value node.
pub struct ValueNodeView {
    pub name: Seq<char>,
    pub ty: RegType,
    pub data_size: u32,
    pub data_offset: u32,
    pub inline: bool,
}

impl View for ValueNodeRaw {
    type V = ValueNodeView;

    open spec fn view(&self) -> ValueNodeView {
        ValueNodeView {
            name: self.name@,
            ty: self.ty,
            data_size: self.data_size,
            data_offset: self.data_offset,
            inline: self.inline,
        }
    }
}

/// The value node that a `vk` payload `p` (of the cell at `off`) holds.
pub open spec fn parse_value_node(p: Seq<u8>, off: u32) -> Result<ValueNodeView> {
    if p.len() < 20 || p[0] != 0x76u8 || p[1] != 0x6Bu8 {
        Err(RegError::CorruptCell { offset: off as usize })
    } else {
        let name_len = u16_at(p, 2) as int;
        let raw_size = u32_at(p, 4);
        let flags = u16_at(p, 16);
        if name_len != 0 && 20 + name_len > p.len() {
            Err(RegError::CorruptCell { offset: off as usize })
        } else {
            Ok(
                ValueNodeView {
                    name: if name_len == 0 {
                        Seq::empty()
                    } else {
                        name_from_bytes(p.subrange(20, 20 + name_len), flags & FLAG_VK_COMP_NAME != 0)
                    },
                    ty: crate::value::type_of_code(u32_at(p, 12)),
                    data_size: raw_size & !INLINE_BIT,
                    data_offset: u32_at(p, 8),
                    inline: raw_size & INLINE_BIT != 0,
                },
            )
        }
    }
}

/// The value node of the cell at data offset `off`.
pub closed spec fn value_node_at(d: Seq<u8>, off: u32) -> Result<ValueNodeView> {
    match cell_payload_spec(d, off) {
        Ok(p) => parse_value_node(p, off),
        Err(e) => Err(e),
    }
}

/// Reads the value node at a data offset.
pub fn read_value_node(data: &[u8], vk_offset: u32) -> (r: Result<ValueNodeRaw>)
    ensures
        match value_node_at(data@, vk_offset) {
            Ok(v) => r matches Ok(k) && k@ == v,
            Err(e) => r matches Err(x) && x == e,
        },
{
    let p = cell_payload(data, vk_offset)?;
    if p.len() < 20 || p[0] != 0x76u8 || p[1] != 0x6Bu8 {
        return Err(RegError::CorruptCell { offset: vk_offset as usize });
    }
    let name_len = rd16(p, 2) as usize;
    let raw_size = rd(p, 4);
    let data_field = rd(p, 8);
    let ty = RegType::from_u32(rd(p, 12));
    let flags = rd16(p, 16);
    let name = if name_len == 0 {
        String::new()
    } else {
        if 20 + name_len > p.len() {
            return Err(RegError::CorruptCell { offset: vk_offset as usize });
        }
        decode_name(&p[20..20 + name_len], flags & FLAG_VK_COMP_NAME != 0)
    };
    Ok(
        ValueNodeRaw {
            name,
            ty,
            data_size: raw_size & !INLINE_BIT,
            data_offset: data_field,
            inline: raw_size & INLINE_BIT != 0,
        },
    )
}

/// The value node offsets of the value list at `off` holding `count` entries.
pub open spec fn value_list(d: Seq<u8>, off: u32, count: u32) -> Result<Seq<u32>> {
    if count == 0 || off == 0 || off == FREE {
        Ok(Seq::empty())
    } else {
        match cell_payload_spec(d, off) {
            Err(e) => Err(e),
            Ok(p) => Ok(offsets_in(p, 0, 4, count as nat)),
        }
    }
}

/// Reads the value node offsets of a value list.
pub fn value_offsets(data: &[u8], list_offset: u32, count: u32) -> (r: Result<Vec<u32>>)
    ensures
        match value_list(data@, list_offset, count) {
            Ok(s) => r matches Ok(v) && v@ == s,
            Err(e) => r matches Err(x) && x == e,
        },
{
    if count == 0 || list_offset == 0 || list_offset == FREE {
        return Ok(Vec::new());
    }
    let p = cell_payload(data, list_offset)?;
    Ok(read_offsets(p, 0, 4, count as u64))
}

/// The bytes of a big-data value: `size` bytes gathered from the segments
/// listed (from index `i` on) in `list`; `None` where reading the segment
/// list would run past its end.
pub open spec fn gather_segments(d: Seq<u8>, list: Seq<u8>, i: nat, segments: nat, size: int, acc: Seq<u8>) -> Option<Result<Seq<u8>>>
    decreases segments - i,
{
    if i >= segments {
        Some(Ok(acc))
    } else if 4 * i + 4 > list.len() {
        None
    } else {
        match cell_payload_spec(d, u32_at(list, 4 * i as int)) {
            Err(e) => Some(Err(e)),
            Ok(seg) => {
                let take = if size - acc.len() < seg.len() {
                    size - acc.len()
                } else {
                    seg.len() as int
                };
                gather_segments(d, list, i + 1, segments, size, acc + seg.subrange(0, take))
            },
        }
    }
}

/// The raw bytes of a value (inline, in a cell, or in big-data segments);
/// `None` where reading them would run past the end of a big-data record.
pub closed spec fn value_data_spec(d: Seq<u8>, vk: ValueNodeView) -> Option<Result<Seq<u8>>> {
    let size = vk.data_size as int;
    if vk.inline {
        Some(Ok(crate::bytes::le32(vk.data_offset).subrange(0, if size < 4 { size } else { 4 })))
    } else if size == 0 {
        Some(Ok(Seq::empty()))
    } else {
        match cell_payload_spec(d, vk.data_offset) {
            Err(e) => Some(Err(e)),
            Ok(cell) => if size > BIG_DATA_THRESHOLD && has_magic(cell, 0x64, 0x62) && cell.len() >= 4 {
                if cell.len() < 8 {
                    None
                } else {
                    match cell_payload_spec(d, u32_at(cell, 4)) {
                        Err(e) => Some(Err(e)),
                        Ok(list) => gather_segments(d, list, 0, u16_at(cell, 2) as nat, size, Seq::empty()),
                    }
                }
            } else {
                Some(Ok(cell.subrange(0, if size < cell.len() { size } else { cell.len() as int })))
            },
        }
    }
}

/// Reconstructs the raw bytes of a value (inline data and big data `db`).
pub fn read_value_data(data: &[u8], vk: &ValueNodeRaw) -> (r: Result<Vec<u8>>)
    requires
        value_data_spec(data@, vk@) is Some,
    ensures
        match value_data_spec(data@, vk@).unwrap() {
            Ok(s) => r matches Ok(v) && v@ == s,
            Err(e) => r matches Err(x) && x == e,
        },
{
    let size = vk.data_size as usize;
    if vk.inline {
        let w = vk.data_offset;
        let mut out: Vec<u8> = Vec::new();
        out.push((w % 256) as u8);
        out.push(((w / 256) % 256) as u8);
        out.push(((w / 65536) % 256) as u8);
        out.push((w / 16777216) as u8);
        let keep: usize = if size < 4 {
            size
        } else {
            4
        };
        out.truncate(keep);
        proof {
            assert(out@ =~= crate::bytes::le32(w).subrange(0, keep as int));
        }
        return Ok(out);
    }
    if size == 0 {
        return Ok(Vec::new());
    }
    let cell = cell_payload(data, vk.data_offset)?;
    if size > BIG_DATA_THRESHOLD && cell.len() >= 4 && cell[0] == 0x64u8 && cell[1] == 0x62u8 {
        // Big data: "db", segment count, offset of the segment list.
        let segments = rd16(cell, 2) as usize;
        let list_off = rd(cell, 4);
        let list = cell_payload(data, list_off)?;
        assert(value_data_spec(data@, vk@) == gather_segments(
            data@,
            list@,
            0,
            segments as nat,
            size as int,
            Seq::empty(),
        ));
        let mut out: Vec<u8> = Vec::new();
        let mut i: usize = 0;
        while i < segments
            invariant
                i <= segments,
                segments == u16_at(cell@, 2),
                out@.len() <= size,
                gather_segments(data@, list@, 0, segments as nat, size as int, Seq::empty())
                    == gather_segments(data@, list@, i as nat, segments as nat, size as int, out@),
                gather_segments(data@, list@, 0, segments as nat, size as int, Seq::empty()) is Some,
                value_data_spec(data@, vk@) == gather_segments(
                    data@,
                    list@,
                    0,
                    segments as nat,
                    size as int,
                    Seq::empty(),
                ),
            decreases segments - i,
        {
            let seg_off = rd(list, i * 4);
            let seg = match cell_payload(data, seg_off) {
                Ok(s) => s,
                Err(e) => {
                    proof {
                        assert(gather_segments(data@, list@, i as nat, segments as nat, size as int, out@)
                            == Some(Err::<Seq<u8>, RegError>(e)));
                    }
                    return Err(e);
                },
            };
            let take: usize = if size - out.len() < seg.len() {
                size - out.len()
            } else {
                seg.len()
            };
            let mut j: usize = 0;
            let ghost before = out@;
            while j < take
                invariant
                    j <= take <= seg@.len(),
                    out@ == before + seg@.subrange(0, j as int),
                decreases take - j,
            {
                out.push(seg[j]);
                j = j + 1;
                proof {
                    assert(out@ =~= before + seg@.subrange(0, j as int));
                }
            }
            i = i + 1;
        }
        out.truncate(size);
        proof {
            assert(out@.subrange(0, out@.len() as int) =~= out@);
        }
        Ok(out)
    } else {
        let keep: usize = if size < cell.len() {
            size
        } else {
            cell.len()
        };
        Ok(slice_to_vec(&cell[0..keep]))
    }
}

/// The payload of a `vk` named `name`: `data_field` is either a data offset
/// (data in a cell) or the inline bytes, as `inline` says.
pub open spec fn value_node_bytes(name: Seq<char>, ty: RegType, size: u32, data_field: u32, inline: bool) -> Seq<u8> {
    let ascii = vstd::utf8::is_ascii_chars(name);
    let nb = name_to_bytes(name, ascii);
    let z = Seq::new((20 + nb.len()) as nat, |i: int| 0u8);
    let nl = nb.len() as u16;
    let p1 = z.update(0, 0x76u8).update(1, 0x6Bu8).update(2, (nl % 256) as u8).update(
        3,
        (nl / 256) as u8,
    );
    let raw_size = if inline {
        size | INLINE_BIT
    } else {
        size
    };
    let p2 = put_u32(put_u32(put_u32(p1, 4, raw_size), 8, data_field), 12, crate::value::code_of_type(ty));
    let flags: u16 = if ascii && name.len() != 0 {
        FLAG_VK_COMP_NAME
    } else {
        0
    };
    let p3 = p2.update(16, (flags % 256) as u8).update(17, (flags / 256) as u8);
    splice(p3, 20, nb)
}

/// Builds the payload of a `vk`.
pub fn build_value_node(name: &str, ty: RegType, size: u32, data_field: u32, inline: bool) -> (p: Vec<u8>)
    requires
        20 + name_to_bytes(name@, vstd::utf8::is_ascii_chars(name@)).len() <= usize::MAX,
    ensures
        p@ == value_node_bytes(name@, ty, size, data_field, inline),
{
    let ascii = name.is_ascii();
    let name_bytes = encode_name(name, ascii);
    let mut p = zeros(20 + name_bytes.len());
    p.set(0, 0x76u8);
    p.set(1, 0x6Bu8);
    wr16(p.as_mut_slice(), 2, #[verifier::truncate] (name_bytes.len() as u16));
    let raw_size = if inline {
        size | INLINE_BIT
    } else {
        size
    };
    wr(p.as_mut_slice(), 4, raw_size);
    wr(p.as_mut_slice(), 8, data_field);
    wr(p.as_mut_slice(), 12, ty.to_u32());
    let flags: u16 = if ascii && !name.is_empty() {
        FLAG_VK_COMP_NAME
    } else {
        0
    };
    wr16(p.as_mut_slice(), 16, flags);
    write_bytes(p.as_mut_slice(), 20, name_bytes.as_slice());
    p
}

} // verus!

verus! {

/// What [`value_node_at`] stands for.
pub proof fn lemma_value_node_at(d: Seq<u8>, off: u32)
    ensures
        value_node_at(d, off) == match cell_payload_spec(d, off) {
            Ok(p) => parse_value_node(p, off),
            Err(e) => Err(e),
        },
{
}

/// What a read of a cell gives depends only on the bytes of that cell.
pub proof fn lemma_cell_frame(d: Seq<u8>, d2: Seq<u8>, off: u32)
    requires
        ({
            let c = off + 0x1000;
            let s = crate::hbin::cell_size(crate::bytes::i32_at(d, c));
            &&& s >= 4
            &&& c + s <= d.len()
            &&& c + s <= d2.len()
            &&& forall|i: int| c <= i < c + s ==> #[trigger] d2[i] == d[i]
        }),
    ensures
        cell_payload_spec(d2, off) == cell_payload_spec(d, off),
        key_node_at(d2, off) == key_node_at(d, off),
        value_node_at(d2, off) == value_node_at(d, off),
        forall|count: u32| #[trigger] value_list(d2, off, count) == value_list(d, off, count),
{
    let c = off + 0x1000;
    assert(d2[c] == d[c] && d2[c + 1] == d[c + 1] && d2[c + 2] == d[c + 2] && d2[c + 3] == d[c + 3]);
    assert(crate::bytes::i32_at(d2, c) == crate::bytes::i32_at(d, c));
    let s = crate::hbin::cell_size(crate::bytes::i32_at(d, c));
    assert(d2.subrange(c + 4, c + s) =~= d.subrange(c + 4, c + s));
}

/// The value node read back from a payload that starts with the bytes
/// [`build_value_node`] makes.
pub proof fn lemma_value_node_parse(
    name: Seq<char>,
    ty: RegType,
    size: u32,
    data_field: u32,
    inline: bool,
    p: Seq<u8>,
    off: u32,
)
    requires
        p.len() >= value_node_bytes(name, ty, size, data_field, inline).len(),
        p.subrange(0, value_node_bytes(name, ty, size, data_field, inline).len() as int)
            == value_node_bytes(name, ty, size, data_field, inline),
        name_to_bytes(name, vstd::utf8::is_ascii_chars(name)).len() <= 0xFFFF,
        size < 0x8000_0000,
        crate::value::type_of_code(crate::value::code_of_type(ty)) == ty,
    ensures
        parse_value_node(p, off) == Ok::<ValueNodeView, RegError>(
            ValueNodeView { name, ty, data_size: size, data_offset: data_field, inline },
        ),
{
    let ascii = vstd::utf8::is_ascii_chars(name);
    let nb = name_to_bytes(name, ascii);
    let k = value_node_bytes(name, ty, size, data_field, inline);
    let z = Seq::new((20 + nb.len()) as nat, |i: int| 0u8);
    let nl = nb.len() as u16;
    let p1 = z.update(0, 0x76u8).update(1, 0x6Bu8).update(2, (nl % 256) as u8).update(
        3,
        (nl / 256) as u8,
    );
    let raw_size = if inline {
        size | INLINE_BIT
    } else {
        size
    };
    let q1 = put_u32(p1, 4, raw_size);
    let q2 = put_u32(q1, 8, data_field);
    let p2 = put_u32(q2, 12, crate::value::code_of_type(ty));
    crate::bytes::lemma_put_u32(p1, 4, raw_size);
    crate::bytes::lemma_put_u32(q1, 8, data_field);
    crate::bytes::lemma_put_u32(q2, 12, crate::value::code_of_type(ty));
    let flags: u16 = if ascii && name.len() != 0 {
        FLAG_VK_COMP_NAME
    } else {
        0
    };
    let p3 = p2.update(16, (flags % 256) as u8).update(17, (flags / 256) as u8);
    assert(k == splice(p3, 20, nb));
    assert forall|i: int| 0 <= i < 20 implies #[trigger] p[i] == p3[i] by {
        assert(p[i] == k[i]);
    }
    assert forall|i: int| 0 <= i < nb.len() implies #[trigger] p[20 + i] == nb[i] by {
        assert(p[20 + i] == k[20 + i]);
    }
    assert(p[0] == 0x76u8 && p[1] == 0x6Bu8);
    assert(u16_at(p, 2) == nl);
    assert(nl as int == nb.len());
    assert(u32_at(p, 4) == u32_at(q1, 4));
    assert(u32_at(p, 8) == u32_at(q2, 8));
    assert(u32_at(p, 12) == u32_at(p2, 12));
    assert(u16_at(p, 16) == flags);
    crate::value::lemma_type_roundtrip(ty);
    if inline {
        assert((size | 0x8000_0000u32) & !0x8000_0000u32 == size && (size | 0x8000_0000u32)
            & 0x8000_0000u32 != 0) by (bit_vector)
            requires
                size < 0x8000_0000u32,
        ;
    } else {
        assert(size & !0x8000_0000u32 == size && size & 0x8000_0000u32 == 0) by (bit_vector)
            requires
                size < 0x8000_0000u32,
        ;
    }
    if nb.len() > 0 {
        assert forall|j: int| 0 <= j < nb.len() implies #[trigger] p.subrange(20, 20 + nb.len() as int)[j]
            == nb[j] by {
            assert(p[20 + j] == nb[j]);
        }
        assert(p.subrange(20, 20 + nb.len() as int) =~= nb);
        if ascii {
            assert(0x0001u16 & 0x0001u16 != 0) by (bit_vector);
            vstd::utf8::is_ascii_chars_encode_utf8(name);
            assert forall|i: int| 0 <= i < name.len() implies nb[i] as char == name[i] by {
                assert(name[i] as u8 == nb[i]);
            }
            assert(nb.map_values(|x: u8| x as char) =~= name);
        } else {
            assert(0u16 & 0x0001u16 == 0) by (bit_vector);
            crate::value::lemma_units_of_le16(utf16_encode(name));
            crate::utf16::lemma_utf16_roundtrip(name);
        }
    } else {
        if !ascii {
            crate::value::lemma_units_of_le16(utf16_encode(name));
            crate::utf16::lemma_utf16_roundtrip(name);
            assert(utf16_decode(utf16_encode(name)) == name);
            assert(utf16_encode(name).len() == 0) by {
                crate::value::lemma_units_of_le16(utf16_encode(name));
            }
        }
        assert(name.len() == 0) by {
            if ascii {
                vstd::utf8::is_ascii_chars_encode_utf8(name);
            } else {
                assert(units_of(nb).len() == 0);
            }
        }
        assert(name =~= Seq::<char>::empty());
    }
}

/// What [`value_data_spec`] gives for data that is inline or in one cell.
pub proof fn lemma_value_data_small(d: Seq<u8>, vk: ValueNodeView)
    requires
        vk.data_size as int <= BIG_DATA_THRESHOLD,
    ensures
        value_data_spec(d, vk) == if vk.inline {
            Some(
                Ok(
                    crate::bytes::le32(vk.data_offset).subrange(
                        0,
                        if vk.data_size < 4 {
                            vk.data_size as int
                        } else {
                            4
                        },
                    ),
                ),
            )
        } else if vk.data_size == 0 {
            Some(Ok(Seq::empty()))
        } else {
            match cell_payload_spec(d, vk.data_offset) {
                Err(e) => Some(Err(e)),
                Ok(cell) => Some(
                    Ok(
                        cell.subrange(
                            0,
                            if vk.data_size < cell.len() {
                                vk.data_size as int
                            } else {
                                cell.len() as int
                            },
                        ),
                    ),
                ),
            }
        },
{
}

/// What [`value_data_spec`] gives for data stored outside the value node
/// and larger than one cell holds: a `db` record's segments gathered in
/// order, or the one cell's bytes when the cell is no `db` record.
pub proof fn lemma_value_data_big(d: Seq<u8>, vk: ValueNodeView)
    requires
        vk.data_size as int > BIG_DATA_THRESHOLD,
        !vk.inline,
    ensures
        value_data_spec(d, vk) == match cell_payload_spec(d, vk.data_offset) {
            Err(e) => Some(Err(e)),
            Ok(cell) => if has_magic(cell, 0x64, 0x62) && cell.len() >= 4 {
                if cell.len() < 8 {
                    None
                } else {
                    match cell_payload_spec(d, u32_at(cell, 4)) {
                        Err(e) => Some(Err(e)),
                        Ok(list) => gather_segments(
                            d,
                            list,
                            0,
                            u16_at(cell, 2) as nat,
                            vk.data_size as int,
                            Seq::empty(),
                        ),
                    }
                }
            } else {
                Some(
                    Ok(
                        cell.subrange(
                            0,
                            if vk.data_size < cell.len() {
                                vk.data_size as int
                            } else {
                                cell.len() as int
                            },
                        ),
                    ),
                )
            },
        },
{
}

} // verus!

verus! {

/// The little-endian words of `offs`, one after the other.
pub open spec fn le32_list(offs: Seq<u32>) -> Seq<u8>
    decreases offs.len(),
{
    if offs.len() == 0 {
        Seq::empty()
    } else {
        le32_list(offs.drop_last()) + crate::bytes::le32(offs.last())
    }
}

/// The words of a list written as [`le32_list`] read back.
pub proof fn lemma_le32_list_read(p: Seq<u8>, offs: Seq<u32>)
    requires
        p.len() >= 4 * offs.len(),
        p.subrange(0, 4 * offs.len() as int) == le32_list(offs),
    ensures
        offsets_in(p, 0, 4, offs.len()) == offs,
    decreases offs.len(),
{
    if offs.len() > 0 {
        let n = offs.len() - 1;
        let front = offs.drop_last();
        assert(le32_list(offs) == le32_list(front) + crate::bytes::le32(offs.last()));
        assert(le32_list(front).len() == 4 * n) by {
            lemma_le32_list_len(front);
        }
        assert(p.subrange(0, 4 * n) =~= le32_list(front)) by {
            assert forall|i: int| 0 <= i < 4 * n implies #[trigger] p.subrange(0, 4 * n)[i] == le32_list(front)[i] by {
                assert(p.subrange(0, 4 * offs.len() as int)[i] == le32_list(offs)[i]);
            }
        }
        lemma_le32_list_read(p, front);
        let v = offs.last();
        assert(p[4 * n] == (v % 256) as u8) by {
            assert(p.subrange(0, 4 * offs.len() as int)[4 * n] == le32_list(offs)[4 * n]);
        }
        assert(p[4 * n + 1] == ((v / 256) % 256) as u8) by {
            assert(p.subrange(0, 4 * offs.len() as int)[4 * n + 1] == le32_list(offs)[4 * n + 1]);
        }
        assert(p[4 * n + 2] == ((v / 65536) % 256) as u8) by {
            assert(p.subrange(0, 4 * offs.len() as int)[4 * n + 2] == le32_list(offs)[4 * n + 2]);
        }
        assert(p[4 * n + 3] == (v / 16777216) as u8) by {
            assert(p.subrange(0, 4 * offs.len() as int)[4 * n + 3] == le32_list(offs)[4 * n + 3]);
        }
        assert(u32_at(p, 4 * n) == v);
        assert(offsets_in(p, 0, 4, offs.len()) =~= front.push(v));
        assert(front.push(v) =~= offs);
    }
}

/// A list of `n` words takes `4 * n` bytes.
pub proof fn lemma_le32_list_len(offs: Seq<u32>)
    ensures
        le32_list(offs).len() == 4 * offs.len(),
    decreases offs.len(),
{
    if offs.len() > 0 {
        lemma_le32_list_len(offs.drop_last());
    }
}

/// Overwriting entry `i` of a word list changes that entry only.
pub proof fn lemma_offsets_put(p: Seq<u8>, k: nat, i: int, v: u32)
    requires
        0 <= i < k,
        4 * i + 4 <= p.len(),
    ensures
        offsets_in(put_u32(p, 4 * i, v), 0, 4, k) == offsets_in(p, 0, 4, k).update(i, v),
        offsets_in(p, 0, 4, k).len() > i,
    decreases k,
{
    let q = put_u32(p, 4 * i, v);
    crate::bytes::lemma_put_u32(p, 4 * i, v);
    let o = 4 * (k - 1);
    lemma_offsets_prefix_len(p, (k - 1) as nat);
    if k - 1 > i {
        lemma_offsets_put(p, (k - 1) as nat, i, v);
        if o + 4 <= p.len() {
            assert(u32_at(q, o) == u32_at(p, o)) by {
                assert(q[o] == p[o] && q[o + 1] == p[o + 1] && q[o + 2] == p[o + 2] && q[o + 3] == p[o
                    + 3]);
            }
        }
        assert(offsets_in(q, 0, 4, k) =~= offsets_in(p, 0, 4, k).update(i, v));
    } else {
        assert(k - 1 == i);
        lemma_offsets_unchanged(p, q, (k - 1) as nat, 4 * i);
        assert(offsets_in(q, 0, 4, k) =~= offsets_in(p, 0, 4, k).update(i, v));
    }
}

/// The list read up to entry `k` holds `k` entries when they all fit.
pub proof fn lemma_offsets_prefix_len(p: Seq<u8>, k: nat)
    ensures
        4 * k <= p.len() ==> offsets_in(p, 0, 4, k).len() == k,
        offsets_in(p, 0, 4, k).len() <= k,
    decreases k,
{
    if k > 0 {
        lemma_offsets_prefix_len(p, (k - 1) as nat);
    }
}

/// The first `k` entries of a word list depend only on the bytes before
/// `lim`.
pub proof fn lemma_offsets_unchanged(p: Seq<u8>, q: Seq<u8>, k: nat, lim: int)
    requires
        4 * k <= lim,
        lim <= p.len(),
        p.len() == q.len(),
        forall|j: int| 0 <= j < lim ==> #[trigger] q[j] == p[j],
    ensures
        offsets_in(q, 0, 4, k) == offsets_in(p, 0, 4, k),
    decreases k,
{
    if k > 0 {
        let o = 4 * (k - 1);
        lemma_offsets_unchanged(p, q, (k - 1) as nat, lim);
        assert(u32_at(q, o) == u32_at(p, o)) by {
            assert(q[o] == p[o] && q[o + 1] == p[o + 1] && q[o + 2] == p[o + 2] && q[o + 3] == p[o + 3]);
        }
    }
}

/// The key node read after its value list and value count were written.
pub proof fn lemma_key_node_values(p: Seq<u8>, off: u32, list: u32, count: u32)
    requires
        parse_key_node(p, off) is Ok,
    ensures
        parse_key_node(put_u32(put_u32(p, 40, list), 36, count), off) == Ok::<KeyNodeView, RegError>(
            KeyNodeView {
                value_list_offset: list,
                value_count: count,
                ..parse_key_node(p, off).unwrap()
            },
        ),
{
    let q1 = put_u32(p, 40, list);
    let q = put_u32(q1, 36, count);
    crate::bytes::lemma_put_u32(p, 40, list);
    crate::bytes::lemma_put_u32(q1, 36, count);
    let name_len = u16_at(p, 72) as int;
    assert(q.subrange(76, 76 + name_len) =~= p.subrange(76, 76 + name_len));
    assert(u16_at(q, 2) == u16_at(p, 2));
    assert(u16_at(q, 72) == u16_at(p, 72));
    assert(u32_at(q, 20) == u32_at(p, 20));
    assert(u32_at(q, 28) == u32_at(p, 28));
    assert(u32_at(q, 44) == u32_at(p, 44));
    assert(u32_at(q, 40) == list) by {
        assert(q[40] == q1[40] && q[41] == q1[41] && q[42] == q1[42] && q[43] == q1[43]);
    }
}

} // verus!

verus! {

/// The entries read from a word list fit in it.
pub proof fn lemma_offsets_fit(p: Seq<u8>, k: nat)
    ensures
        4 * offsets_in(p, 0, 4, k).len() <= p.len(),
        offsets_in(p, 0, 4, k).len() <= k,
    decreases k,
{
    if k > 0 {
        lemma_offsets_fit(p, (k - 1) as nat);
    }
}

} // verus!

verus! {

/// Bytes between entries of a leaf list of `kind`.
pub open spec fn leaf_stride(kind: LeafKind) -> int {
    if kind == LeafKind::Li {
        4
    } else {
        8
    }
}

/// The key node offsets of a leaf list built by [`build_leaf_list`] read
/// back, also from a longer cell payload `q` that starts with it.
pub proof fn lemma_leaf_offsets(p: Seq<u8>, kind: LeafKind, ents: Seq<(Seq<char>, u32)>, q: Seq<u8>, k: nat)
    requires
        is_leaf_list(p, kind, ents),
        q.len() >= p.len(),
        q.subrange(0, p.len() as int) == p,
        k <= ents.len(),
    ensures
        offsets_in(q, 4, leaf_stride(kind), k) == ents.take(k as int).map_values(
            |e: (Seq<char>, u32)| e.1,
        ),
    decreases k,
{
    if k > 0 {
        lemma_leaf_offsets(p, kind, ents, q, (k - 1) as nat);
        let i = k - 1;
        let base = entry_base(kind, i);
        assert(u32_at(p, base) == ents[i].1);
        assert(base + 4 <= p.len());
        assert(u32_at(q, base) == u32_at(p, base)) by {
            assert(q[base] == p[base] && q[base + 1] == p[base + 1] && q[base + 2] == p[base + 2]
                && q[base + 3] == p[base + 3]) by {
                assert(q.subrange(0, p.len() as int)[base] == q[base]);
                assert(q.subrange(0, p.len() as int)[base + 1] == q[base + 1]);
                assert(q.subrange(0, p.len() as int)[base + 2] == q[base + 2]);
                assert(q.subrange(0, p.len() as int)[base + 3] == q[base + 3]);
            }
        }
        assert(ents.take(k as int).map_values(|e: (Seq<char>, u32)| e.1) =~= ents.take(i).map_values(
            |e: (Seq<char>, u32)| e.1,
        ).push(ents[i].1));
    }
}

/// A leaf list built by [`build_leaf_list`] and stored as the payload of
/// the cell at `off` reads as the offsets of its entries.
pub proof fn lemma_leaf_list_read(d: Seq<u8>, off: u32, p: Seq<u8>, kind: LeafKind, ents: Seq<(Seq<char>, u32)>, fuel: nat)
    requires
        is_leaf_list(p, kind, ents),
        ents.len() <= 0xFFFF,
        off != 0,
        off != FREE,
        cell_payload_spec(d, off) matches Ok(q) && q.len() >= p.len() && q.subrange(0, p.len() as int)
            == p,
    ensures
        subkeys_fuel(d, off, fuel) == Ok::<Seq<u32>, RegError>(
            ents.map_values(|e: (Seq<char>, u32)| e.1),
        ),
{
    let q = cell_payload_spec(d, off)->Ok_0;
    let n = ents.len();
    assert(q[0] == p[0] && q[1] == p[1] && q[2] == p[2] && q[3] == p[3]) by {
        assert(q.subrange(0, p.len() as int)[0] == q[0]);
        assert(q.subrange(0, p.len() as int)[1] == q[1]);
        assert(q.subrange(0, p.len() as int)[2] == q[2]);
        assert(q.subrange(0, p.len() as int)[3] == q[3]);
    }
    assert(u16_at(q, 2) == u16_at(p, 2));
    assert(u16_at(q, 2) as nat == n);
    lemma_leaf_offsets(p, kind, ents, q, n);
    assert(ents.take(n as int) =~= ents);
}

/// A key node built by [`build_key_node`] reads back with its name, no
/// subkey and no value, from a cell payload `p` that starts with it.
pub proof fn lemma_key_node_parse(name: Seq<char>, parent: u32, security: u32, p: Seq<u8>, off: u32)
    requires
        p.len() >= key_node_bytes(name, parent, security).len(),
        p.subrange(0, key_node_bytes(name, parent, security).len() as int) == key_node_bytes(
            name,
            parent,
            security,
        ),
        name_to_bytes(name, vstd::utf8::is_ascii_chars(name)).len() <= 0xFFFF,
    ensures
        parse_key_node(p, off) == Ok::<KeyNodeView, RegError>(
            KeyNodeView {
                name,
                subkey_count: 0,
                subkey_list_offset: FREE,
                value_count: 0,
                value_list_offset: FREE,
                security_offset: security,
            },
        ),
{
    let ascii = vstd::utf8::is_ascii_chars(name);
    let nb = name_to_bytes(name, ascii);
    let flags: u16 = if ascii {
        FLAG_NK_COMP_NAME
    } else {
        0
    };
    let z = Seq::new((76 + nb.len()) as nat, |i: int| 0u8);
    let p1 = z.update(0, 0x6Eu8).update(1, 0x6Bu8).update(2, (flags % 256) as u8).update(
        3,
        (flags / 256) as u8,
    );
    let q1 = put_u32(p1, 16, parent);
    let q2 = put_u32(q1, 20, 0);
    let q3 = put_u32(q2, 28, FREE);
    let p2 = put_u32(q3, 32, FREE);
    let q4 = put_u32(p2, 36, 0);
    let q5 = put_u32(q4, 40, FREE);
    let q6 = put_u32(q5, 44, security);
    let p3 = put_u32(q6, 48, FREE);
    let nl = nb.len() as u16;
    let p4 = p3.update(72, (nl % 256) as u8).update(73, (nl / 256) as u8);
    let k = splice(p4, 76, nb);
    assert(k == key_node_bytes(name, parent, security));
    crate::bytes::lemma_put_u32(p1, 16, parent);
    crate::bytes::lemma_put_u32(q1, 20, 0);
    crate::bytes::lemma_put_u32(q2, 28, FREE);
    crate::bytes::lemma_put_u32(q3, 32, FREE);
    crate::bytes::lemma_put_u32(p2, 36, 0);
    crate::bytes::lemma_put_u32(q4, 40, FREE);
    crate::bytes::lemma_put_u32(q5, 44, security);
    crate::bytes::lemma_put_u32(q6, 48, FREE);
    assert(k.len() == 76 + nb.len());
    assert forall|i: int| 0 <= i < k.len() implies #[trigger] p[i] == k[i] by {
        assert(p.subrange(0, k.len() as int)[i] == p[i]);
    }
    assert forall|i: int| 0 <= i < 76 implies #[trigger] k[i] == p4[i] by {}
    assert forall|i: int| 0 <= i < nb.len() implies #[trigger] k[76 + i] == nb[i] by {}
    assert(p[0] == 0x6Eu8 && p[1] == 0x6Bu8);
    assert(u32_at(p, 20) == u32_at(q2, 20));
    assert(u32_at(p, 28) == u32_at(q3, 28));
    assert(u32_at(p, 36) == u32_at(q4, 36));
    assert(u32_at(p, 40) == u32_at(q5, 40));
    assert(u32_at(p, 44) == u32_at(q6, 44));
    assert(u16_at(p, 2) == flags);
    assert(u16_at(p, 72) == nl);
    assert(nl as int == nb.len());
    assert(p.subrange(76, 76 + nb.len() as int) =~= nb) by {
        assert forall|j: int| 0 <= j < nb.len() implies #[trigger] p.subrange(76, 76 + nb.len() as int)[j]
            == nb[j] by {
            assert(p[76 + j] == k[76 + j]);
        }
    }
    if ascii {
        assert(0x0020u16 & 0x0020u16 != 0) by (bit_vector);
        vstd::utf8::is_ascii_chars_encode_utf8(name);
        assert forall|i: int| 0 <= i < name.len() implies nb[i] as char == name[i] by {
            assert(name[i] as u8 == nb[i]);
        }
        assert(nb.map_values(|x: u8| x as char) =~= name);
    } else {
        assert(0u16 & 0x0020u16 == 0) by (bit_vector);
        crate::value::lemma_units_of_le16(utf16_encode(name));
        crate::utf16::lemma_utf16_roundtrip(name);
    }
}

/// The key node read after its subkey list and subkey count were written.
pub proof fn lemma_key_node_subkeys(p: Seq<u8>, off: u32, list: u32, count: u32)
    requires
        parse_key_node(p, off) is Ok,
    ensures
        parse_key_node(put_u32(put_u32(p, 28, list), 20, count), off) == Ok::<KeyNodeView, RegError>(
            KeyNodeView {
                subkey_list_offset: list,
                subkey_count: count,
                ..parse_key_node(p, off).unwrap()
            },
        ),
{
    let q1 = put_u32(p, 28, list);
    let q = put_u32(q1, 20, count);
    crate::bytes::lemma_put_u32(p, 28, list);
    crate::bytes::lemma_put_u32(q1, 20, count);
    let name_len = u16_at(p, 72) as int;
    assert(q.subrange(76, 76 + name_len) =~= p.subrange(76, 76 + name_len));
    assert(u16_at(q, 2) == u16_at(p, 2));
    assert(u16_at(q, 72) == u16_at(p, 72));
    assert(u32_at(q, 36) == u32_at(p, 36));
    assert(u32_at(q, 40) == u32_at(p, 40));
    assert(u32_at(q, 44) == u32_at(p, 44));
    assert(u32_at(q, 28) == list) by {
        assert(q[28] == q1[28] && q[29] == q1[29] && q[30] == q1[30] && q[31] == q1[31]);
    }
}

} // verus!

verus! {

/// Every cell of `d2` holds the payload it holds in `d`.
pub open spec fn same_cells(d: Seq<u8>, d2: Seq<u8>) -> bool {
    forall|o: u32| #[trigger] cell_payload_spec(d2, o) == cell_payload_spec(d, o)
}

/// Buffers that agree from the hive bins on hold the same cells.
pub proof fn lemma_bins_same_cells(d: Seq<u8>, d2: Seq<u8>)
    requires
        d2.len() == d.len(),
        forall|i: int| 0x1000 <= i < d.len() ==> #[trigger] d2[i] == d[i],
    ensures
        same_cells(d, d2),
{
    assert forall|o: u32| #[trigger] cell_payload_spec(d2, o) == cell_payload_spec(d, o) by {
        let c = o + 0x1000;
        if c + 4 <= d.len() {
            assert(d2[c] == d[c] && d2[c + 1] == d[c + 1] && d2[c + 2] == d[c + 2] && d2[c + 3] == d[c + 3]);
            assert(crate::bytes::i32_at(d2, c) == crate::bytes::i32_at(d, c));
            let s = crate::hbin::cell_size(crate::bytes::i32_at(d, c));
            if s >= 4 && c + s <= d.len() {
                assert(d2.subrange(c + 4, c + s) =~= d.subrange(c + 4, c + s));
            }
        }
    }
}

/// Big-data segments gather the same from the same cells.
proof fn lemma_gather_same(d: Seq<u8>, d2: Seq<u8>, list: Seq<u8>, i: nat, segments: nat, size: int, acc: Seq<u8>)
    requires
        same_cells(d, d2),
    ensures
        gather_segments(d2, list, i, segments, size, acc) == gather_segments(d, list, i, segments, size, acc),
    decreases segments - i,
{
    if i < segments && 4 * i + 4 <= list.len() {
        let o = u32_at(list, 4 * i as int);
        assert(cell_payload_spec(d2, o) == cell_payload_spec(d, o));
        match cell_payload_spec(d, o) {
            Err(_) => {},
            Ok(seg) => {
                let take = if size - acc.len() < seg.len() {
                    size - acc.len()
                } else {
                    seg.len() as int
                };
                lemma_gather_same(d, d2, list, i + 1, segments, size, acc + seg.subrange(0, take));
            },
        }
    }
}

/// Reads give the same from the same cells: key and value nodes, value
/// lists and value data.
pub proof fn lemma_reads_same(d: Seq<u8>, d2: Seq<u8>)
    requires
        same_cells(d, d2),
    ensures
        forall|o: u32| #[trigger] key_node_at(d2, o) == key_node_at(d, o),
        forall|o: u32| #[trigger] value_node_at(d2, o) == value_node_at(d, o),
        forall|o: u32, count: u32| #[trigger] value_list(d2, o, count) == value_list(d, o, count),
        forall|vk: ValueNodeView| #[trigger] value_data_spec(d2, vk) == value_data_spec(d, vk),
{
    assert forall|o: u32| #[trigger] key_node_at(d2, o) == key_node_at(d, o) by {
        assert(cell_payload_spec(d2, o) == cell_payload_spec(d, o));
    }
    assert forall|o: u32| #[trigger] value_node_at(d2, o) == value_node_at(d, o) by {
        assert(cell_payload_spec(d2, o) == cell_payload_spec(d, o));
    }
    assert forall|o: u32, count: u32| #[trigger] value_list(d2, o, count) == value_list(d, o, count) by {
        assert(cell_payload_spec(d2, o) == cell_payload_spec(d, o));
    }
    assert forall|vk: ValueNodeView| #[trigger] value_data_spec(d2, vk) == value_data_spec(d, vk) by {
        assert(cell_payload_spec(d2, vk.data_offset) == cell_payload_spec(d, vk.data_offset));
        match cell_payload_spec(d, vk.data_offset) {
            Ok(cell) => {
                if cell.len() >= 8 {
                    let lo = u32_at(cell, 4);
                    assert(cell_payload_spec(d2, lo) == cell_payload_spec(d, lo));
                    match cell_payload_spec(d, lo) {
                        Ok(list) => {
                            lemma_gather_same(d, d2, list, 0, u16_at(cell, 2) as nat, vk.data_size as int, Seq::empty());
                        },
                        _ => {},
                    }
                }
            },
            _ => {},
        }
    }
}

/// Subkey lists read the same from the same cells.
pub proof fn lemma_subkeys_same(d: Seq<u8>, d2: Seq<u8>, off: u32, fuel: nat)
    requires
        same_cells(d, d2),
    ensures
        subkeys_fuel(d2, off, fuel) == subkeys_fuel(d, off, fuel),
    decreases fuel, 0nat, 0nat,
{
    if off != 0 && off != FREE {
        assert(cell_payload_spec(d2, off) == cell_payload_spec(d, off));
        match cell_payload_spec(d, off) {
            Err(_) => {},
            Ok(p) => {
                if p.len() >= 4 && has_magic(p, 0x72, 0x69) && fuel > 0 {
                    lemma_ri_same(d, d2, offsets_in(p, 4, 4, u16_at(p, 2) as nat), (fuel - 1) as nat);
                }
            },
        }
    }
}

/// Concatenated lists read the same from the same cells.
proof fn lemma_ri_same(d: Seq<u8>, d2: Seq<u8>, children: Seq<u32>, fuel: nat)
    requires
        same_cells(d, d2),
    ensures
        ri_concat(d2, children, fuel) == ri_concat(d, children, fuel),
    decreases fuel, 1nat, children.len(),
{
    if children.len() > 0 {
        lemma_subkeys_same(d, d2, children[0], fuel);
        lemma_ri_same(d, d2, children.skip(1), fuel);
    }
}

} // verus!

verus! {

/// The segments listed (from index `i` on) in a big-data list all satisfy
/// `ok`.
pub open spec fn segments_ok(list: Seq<u8>, i: nat, segments: nat, ok: spec_fn(u32) -> bool) -> bool
    decreases segments - i,
{
    if i >= segments || 4 * i + 4 > list.len() {
        true
    } else {
        ok(u32_at(list, 4 * i as int)) && segments_ok(list, i + 1, segments, ok)
    }
}

/// The cells that reading the data of the value node `vk` reads all
/// satisfy `ok`.
pub open spec fn data_cells_ok(d: Seq<u8>, vk: ValueNodeView, ok: spec_fn(u32) -> bool) -> bool {
    let size = vk.data_size as int;
    if vk.inline || size == 0 {
        true
    } else {
        ok(vk.data_offset) && match cell_payload_spec(d, vk.data_offset) {
            Err(_) => true,
            Ok(cell) => if size > BIG_DATA_THRESHOLD && has_magic(cell, 0x64, 0x62) && cell.len() >= 8 {
                ok(u32_at(cell, 4)) && match cell_payload_spec(d, u32_at(cell, 4)) {
                    Err(_) => true,
                    Ok(list) => segments_ok(list, 0, u16_at(cell, 2) as nat, ok),
                }
            } else {
                true
            },
        }
    }
}

/// Big-data segments gather the same where their cells read the same.
proof fn lemma_gather_frame(
    d: Seq<u8>,
    d2: Seq<u8>,
    list: Seq<u8>,
    i: nat,
    segments: nat,
    size: int,
    acc: Seq<u8>,
    ok: spec_fn(u32) -> bool,
)
    requires
        segments_ok(list, i, segments, ok),
        forall|o: u32| #[trigger] ok(o) ==> cell_payload_spec(d2, o) == cell_payload_spec(d, o),
    ensures
        gather_segments(d2, list, i, segments, size, acc) == gather_segments(d, list, i, segments, size, acc),
    decreases segments - i,
{
    if i < segments && 4 * i + 4 <= list.len() {
        let o = u32_at(list, 4 * i as int);
        assert(ok(o));
        match cell_payload_spec(d, o) {
            Err(_) => {},
            Ok(seg) => {
                let take = if size - acc.len() < seg.len() {
                    size - acc.len()
                } else {
                    seg.len() as int
                };
                lemma_gather_frame(d, d2, list, i + 1, segments, size, acc + seg.subrange(0, take), ok);
            },
        }
    }
}

/// A value's data reads the same where the cells it reads do.
pub proof fn lemma_data_frame(d: Seq<u8>, d2: Seq<u8>, vk: ValueNodeView, ok: spec_fn(u32) -> bool)
    requires
        data_cells_ok(d, vk, ok),
        forall|o: u32| #[trigger] ok(o) ==> cell_payload_spec(d2, o) == cell_payload_spec(d, o),
    ensures
        value_data_spec(d2, vk) == value_data_spec(d, vk),
{
    let size = vk.data_size as int;
    if !vk.inline && size != 0 {
        assert(ok(vk.data_offset));
        match cell_payload_spec(d, vk.data_offset) {
            Ok(cell) => {
                if size > BIG_DATA_THRESHOLD && has_magic(cell, 0x64, 0x62) && cell.len() >= 8 {
                    assert(ok(u32_at(cell, 4)));
                    match cell_payload_spec(d, u32_at(cell, 4)) {
                        Ok(list) => {
                            lemma_gather_frame(d, d2, list, 0, u16_at(cell, 2) as nat, size, Seq::empty(), ok);
                        },
                        _ => {},
                    }
                }
            },
            _ => {},
        }
    }
}

/// Data that lives in cells reads the same where the cells it reads read
/// the same; inline or empty data reads the same in any buffer.
pub proof fn lemma_data_frame_cells(d: Seq<u8>, d2: Seq<u8>, vk: ValueNodeView, ok: spec_fn(u32) -> bool)
    requires
        data_cells_ok(d, vk, ok),
        !vk.inline && vk.data_size != 0 ==> forall|o: u32| #[trigger] ok(o) ==> cell_payload_spec(d2, o)
            == cell_payload_spec(d, o),
    ensures
        value_data_spec(d2, vk) == value_data_spec(d, vk),
{
    if !vk.inline && vk.data_size != 0 {
        lemma_data_frame(d, d2, vk, ok);
    }
}

} // verus!

verus! {

/// The cell at `c` is a leaf subkey list (`lf`, `lh` or `li`).
pub open spec fn is_leaf_list_at(d: Seq<u8>, c: u32) -> bool {
    &&& c != 0
    &&& c != FREE
    &&& cell_payload_spec(d, c) matches Ok(p) && p.len() >= 4 && (has_magic(p, 0x6C, 0x66)
        || has_magic(p, 0x6C, 0x68) || has_magic(p, 0x6C, 0x69))
}

/// The lists that the `ri` list at `off` refers to, in stored order.
pub open spec fn ri_children(d: Seq<u8>, off: u32) -> Seq<u32> {
    let p = cell_payload_spec(d, off)->Ok_0;
    offsets_in(p, 4, 4, u16_at(p, 2) as nat)
}

/// A leaf list reads the same whatever depth of `ri` nesting is left.
proof fn lemma_leaf_fuel(d: Seq<u8>, c: u32, fuel: nat)
    requires
        is_leaf_list_at(d, c),
    ensures
        subkeys_fuel(d, c, fuel) == subkey_list(d, c),
        subkey_list(d, c) is Ok,
{
}

/// Lists that are all leaves read, one after the other, as the
/// concatenation of what each reads.
proof fn lemma_ri_concat_leaves(d: Seq<u8>, ch: Seq<u32>, fuel: nat)
    requires
        forall|k: int| 0 <= k < ch.len() ==> #[trigger] is_leaf_list_at(d, ch[k]),
    ensures
        ri_concat(d, ch, fuel) == Ok::<Seq<u32>, RegError>(
            Seq::new(ch.len(), |k: int| subkey_list(d, ch[k])->Ok_0).flatten(),
        ),
    decreases ch.len(),
{
    let ls = Seq::new(ch.len(), |k: int| subkey_list(d, ch[k])->Ok_0);
    if ch.len() > 0 {
        assert(is_leaf_list_at(d, ch[0]));
        lemma_leaf_fuel(d, ch[0], fuel);
        let t = ch.skip(1);
        assert forall|k: int| 0 <= k < t.len() implies #[trigger] is_leaf_list_at(d, t[k]) by {
            assert(t[k] == ch[k + 1]);
            assert(is_leaf_list_at(d, ch[k + 1]));
        }
        lemma_ri_concat_leaves(d, t, fuel);
        assert(ls.drop_first() =~= Seq::new(t.len(), |k: int| subkey_list(d, t[k])->Ok_0));
        assert(ls.first() == subkey_list(d, ch[0])->Ok_0);
    } else {
        assert(ls =~= Seq::<Seq<u32>>::empty());
    }
}

/// An `ri` index list whose entries are leaf lists reads as the key node
/// offsets of all its leaf lists, each list's in its order, the lists in
/// the order the `ri` list names them: the count is the sum of theirs and
/// every offset each holds is read, none dropped or reordered.
pub proof fn lemma_ri_list_reads_leaves_in_order(d: Seq<u8>, off: u32)
    requires
        off != 0,
        off != FREE,
        cell_payload_spec(d, off) matches Ok(p) && p.len() >= 4 && has_magic(p, 0x72, 0x69),
        forall|k: int|
            0 <= k < ri_children(d, off).len() ==> #[trigger] is_leaf_list_at(d, ri_children(d, off)[k]),
    ensures
        subkey_list(d, off) == Ok::<Seq<u32>, RegError>(
            Seq::new(
                ri_children(d, off).len(),
                |k: int| subkey_list(d, ri_children(d, off)[k])->Ok_0,
            ).flatten(),
        ),
{
    let p = cell_payload_spec(d, off)->Ok_0;
    assert(!has_magic(p, 0x6C, 0x66) && !has_magic(p, 0x6C, 0x68) && !has_magic(p, 0x6C, 0x69));
    lemma_ri_concat_leaves(d, ri_children(d, off), (ri_depth() - 1) as nat);
}

/// The bytes of the segments of the `db` record `cell`, in the order its
/// segment list names them.
pub open spec fn db_segments(d: Seq<u8>, cell: Seq<u8>) -> Seq<Seq<u8>> {
    let list = cell_payload_spec(d, u32_at(cell, 4))->Ok_0;
    Seq::new(u16_at(cell, 2) as nat, |k: int| cell_payload_spec(d, u32_at(list, 4 * k))->Ok_0)
}

/// The first `n` bytes of `s`, or all of them when it has fewer.
pub open spec fn prefix_upto(s: Seq<u8>, n: int) -> Seq<u8> {
    s.take(if n < s.len() {
        n
    } else {
        s.len() as int
    })
}

/// Gathering segments from the `i`-th on, with the bytes of the first `i`
/// already gathered, gives the bytes of all of them in order, up to `size`.
proof fn lemma_gather_in_order(
    d: Seq<u8>,
    list: Seq<u8>,
    segs: Seq<Seq<u8>>,
    i: nat,
    size: int,
)
    requires
        i <= segs.len(),
        0 <= size,
        4 * segs.len() <= list.len(),
        forall|k: int|
            0 <= k < segs.len() ==> cell_payload_spec(d, #[trigger] u32_at(list, 4 * k)) == Ok::<
                Seq<u8>,
                RegError,
            >(segs[k]),
    ensures
        gather_segments(d, list, i, segs.len(), size, prefix_upto(segs.take(i as int).flatten(), size))
            == Some(Ok::<Seq<u8>, RegError>(prefix_upto(segs.flatten(), size))),
    decreases segs.len() - i,
{
    let fi = segs.take(i as int).flatten();
    let acc = prefix_upto(fi, size);
    if i >= segs.len() {
        assert(segs.take(i as int) =~= segs);
    } else {
        let seg = segs[i as int];
        assert(cell_payload_spec(d, u32_at(list, 4 * (i as int))) == Ok::<Seq<u8>, RegError>(seg));
        assert(segs.take((i + 1) as int) =~= segs.take(i as int).push(seg));
        segs.take(i as int).lemma_flatten_push(seg);
        let f2 = segs.take((i + 1) as int).flatten();
        assert(f2 =~= fi + seg);
        let take = if size - acc.len() < seg.len() {
            size - acc.len()
        } else {
            seg.len() as int
        };
        assert(acc + seg.subrange(0, take) =~= prefix_upto(f2, size));
        lemma_gather_in_order(d, list, segs, i + 1, size);
    }
}

/// A value stored as a `db` big-data record reads as the bytes of its
/// segments one after the other, in the order its segment list names
/// them, cut to the value's size: byte `j` of segment `k` comes after all
/// the bytes of the segments before it, and no segment is dropped or moved.
pub proof fn lemma_db_value_in_order(d: Seq<u8>, vk: ValueNodeView)
    requires
        !vk.inline,
        vk.data_size as int > BIG_DATA_THRESHOLD,
        cell_payload_spec(d, vk.data_offset) matches Ok(cell) && has_magic(cell, 0x64, 0x62) && cell.len()
            >= 8 && (cell_payload_spec(d, u32_at(cell, 4)) matches Ok(list) && 4 * u16_at(cell, 2)
            <= list.len() && forall|k: int|
            0 <= k < u16_at(cell, 2) ==> #[trigger] cell_payload_spec(d, u32_at(list, 4 * k)) is Ok),
    ensures
        value_data_spec(d, vk) == Some(
            Ok::<Seq<u8>, RegError>(
                prefix_upto(
                    db_segments(d, cell_payload_spec(d, vk.data_offset)->Ok_0).flatten(),
                    vk.data_size as int,
                ),
            ),
        ),
{
    let cell = cell_payload_spec(d, vk.data_offset)->Ok_0;
    let list = cell_payload_spec(d, u32_at(cell, 4))->Ok_0;
    let segs = db_segments(d, cell);
    assert forall|k: int| 0 <= k < segs.len() implies cell_payload_spec(d, #[trigger] u32_at(list, 4 * k))
        == Ok::<Seq<u8>, RegError>(segs[k]) by {
        assert(cell_payload_spec(d, u32_at(list, 4 * k)) is Ok);
    }
    lemma_gather_in_order(d, list, segs, 0, vk.data_size as int);
    assert(segs.take(0) =~= Seq::<Seq<u8>>::empty());
    assert(Seq::<Seq<u8>>::empty().flatten() =~= Seq::<u8>::empty());
    assert(prefix_upto(Seq::<u8>::empty(), vk.data_size as int) =~= Seq::<u8>::empty());
}

} // verus!
