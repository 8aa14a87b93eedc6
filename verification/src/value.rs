//! Registry value types (`REG_*`) and their encoding as raw bytes.

use vstd::prelude::*;

use crate::bytes::{le16, le32, slice_to_vec};
use crate::utf16::{
    lemma_utf16_encode_append, lemma_utf16_encode_nul, lemma_utf16_roundtrip, str_utf16,
    string_from_utf16_lossy, utf16_decode, utf16_encode,
};

verus! {

/// A registry value's type (the `type` field of a `vk` cell).
#[derive(Debug, Clone, Copy, PartialEq, Eq, Structural)]
pub enum RegType {
    RegNone,
    Sz,
    ExpandSz,
    Binary,
    Dword,
    DwordBigEndian,
    Link,
    MultiSz,
    Qword,
    /// Unlisted type: kept as it is.
    Other(u32),
}

/// The type that a type code stands for.
pub open spec fn type_of_code(v: u32) -> RegType {
    if v == 0 {
        RegType::RegNone
    } else if v == 1 {
        RegType::Sz
    } else if v == 2 {
        RegType::ExpandSz
    } else if v == 3 {
        RegType::Binary
    } else if v == 4 {
        RegType::Dword
    } else if v == 5 {
        RegType::DwordBigEndian
    } else if v == 6 {
        RegType::Link
    } else if v == 7 {
        RegType::MultiSz
    } else if v == 11 {
        RegType::Qword
    } else {
        RegType::Other(v)
    }
}

/// The type code stored for a type.
pub open spec fn code_of_type(t: RegType) -> u32 {
    match t {
        RegType::RegNone => 0,
        RegType::Sz => 1,
        RegType::ExpandSz => 2,
        RegType::Binary => 3,
        RegType::Dword => 4,
        RegType::DwordBigEndian => 5,
        RegType::Link => 6,
        RegType::MultiSz => 7,
        RegType::Qword => 11,
        RegType::Other(v) => v,
    }
}

impl RegType {
    pub fn from_u32(v: u32) -> (t: Self)
        ensures
            t == type_of_code(v),
    {
        match v {
            0 => RegType::RegNone,
            1 => RegType::Sz,
            2 => RegType::ExpandSz,
            3 => RegType::Binary,
            4 => RegType::Dword,
            5 => RegType::DwordBigEndian,
            6 => RegType::Link,
            7 => RegType::MultiSz,
            11 => RegType::Qword,
            other => RegType::Other(other),
        }
    }

    pub fn to_u32(self) -> (v: u32)
        ensures
            v == code_of_type(self),
    {
        match self {
            RegType::RegNone => 0,
            RegType::Sz => 1,
            RegType::ExpandSz => 2,
            RegType::Binary => 3,
            RegType::Dword => 4,
            RegType::DwordBigEndian => 5,
            RegType::Link => 6,
            RegType::MultiSz => 7,
            RegType::Qword => 11,
            RegType::Other(v) => v,
        }
    }
}

/// Reading a type code and writing it back gives the same code.
pub proof fn lemma_type_code_roundtrip(v: u32)
    ensures
        code_of_type(type_of_code(v)) == v,
{
}

/// Writing a type and reading it back gives the same type, unless it is an
/// `Other` that carries a listed code.
pub proof fn lemma_type_roundtrip(t: RegType)
    ensures
        (type_of_code(code_of_type(t)) == t) == !(t matches RegType::Other(v) && !(
        type_of_code(v) is Other)),
{
}

/// A decoded registry value.
#[derive(Debug, Clone, PartialEq, Eq)]
pub enum RegValue {
    RegNone,
    Sz(String),
    ExpandSz(String),
    Binary(Vec<u8>),
    Dword(u32),
    DwordBigEndian(u32),
    MultiSz(Vec<String>),
    Qword(u64),
    /// Non-standard type: raw bytes and type code.
    Other { ty: u32, data: Vec<u8> },
}

/// The mathematical content of a registry value.
pub enum ValueModel {
    RegNone,
    Sz(Seq<char>),
    ExpandSz(Seq<char>),
    Binary(Seq<u8>),
    Dword(u32),
    DwordBigEndian(u32),
    MultiSz(Seq<Seq<char>>),
    Qword(u64),
    Other(u32, Seq<u8>),
}

impl View for RegValue {
    type V = ValueModel;

    open spec fn view(&self) -> ValueModel {
        match self {
            RegValue::RegNone => ValueModel::RegNone,
            RegValue::Sz(s) => ValueModel::Sz(s@),
            RegValue::ExpandSz(s) => ValueModel::ExpandSz(s@),
            RegValue::Binary(b) => ValueModel::Binary(b@),
            RegValue::Dword(v) => ValueModel::Dword(*v),
            RegValue::DwordBigEndian(v) => ValueModel::DwordBigEndian(*v),
            RegValue::MultiSz(items) => ValueModel::MultiSz(items@.map_values(|s: String| s@)),
            RegValue::Qword(v) => ValueModel::Qword(*v),
            RegValue::Other { ty, data } => ValueModel::Other(*ty, data@),
        }
    }
}

// ---------------------------------------------------------------------------
// Encoding
// ---------------------------------------------------------------------------

/// The little-endian bytes of a sequence of code units.
pub open spec fn le16_seq(u: Seq<u16>) -> Seq<u8>
    decreases u.len(),
{
    if u.len() == 0 {
        Seq::empty()
    } else {
        le16_seq(u.drop_last()) + le16(u.last())
    }
}

/// A NUL-terminated UTF-16LE string.
pub open spec fn utf16z(s: Seq<char>) -> Seq<u8> {
    le16_seq(utf16_encode(s)) + seq![0u8, 0u8]
}

/// The code units of the strings of a `REG_MULTI_SZ`, each followed by NUL.
pub open spec fn multi_sz_units(items: Seq<Seq<char>>) -> Seq<u16>
    decreases items.len(),
{
    if items.len() == 0 {
        Seq::empty()
    } else {
        multi_sz_units(items.drop_last()) + utf16_encode(items.last()) + seq![0u16]
    }
}

/// The eight little-endian bytes of `v`.
pub open spec fn le64(v: u64) -> Seq<u8> {
    le32((v % 0x1_0000_0000) as u32) + le32((v / 0x1_0000_0000) as u32)
}

/// The four big-endian bytes of `v`.
pub open spec fn be32(v: u32) -> Seq<u8> {
    seq![(v / 16777216) as u8, ((v / 65536) % 256) as u8, ((v / 256) % 256) as u8, (v % 256) as u8]
}

/// The raw bytes that encode a value (a data cell's content).
pub open spec fn value_bytes(m: ValueModel) -> Seq<u8> {
    match m {
        ValueModel::RegNone => Seq::empty(),
        ValueModel::Sz(s) => utf16z(s),
        ValueModel::ExpandSz(s) => utf16z(s),
        ValueModel::Binary(b) => b,
        ValueModel::Dword(v) => le32(v),
        ValueModel::DwordBigEndian(v) => be32(v),
        ValueModel::Qword(v) => le64(v),
        ValueModel::MultiSz(items) => le16_seq(multi_sz_units(items) + seq![0u16]),
        ValueModel::Other(_, d) => d,
    }
}

/// The type a value is stored with.
pub open spec fn value_type(m: ValueModel) -> RegType {
    match m {
        ValueModel::RegNone => RegType::RegNone,
        ValueModel::Sz(_) => RegType::Sz,
        ValueModel::ExpandSz(_) => RegType::ExpandSz,
        ValueModel::Binary(_) => RegType::Binary,
        ValueModel::Dword(_) => RegType::Dword,
        ValueModel::DwordBigEndian(_) => RegType::DwordBigEndian,
        ValueModel::MultiSz(_) => RegType::MultiSz,
        ValueModel::Qword(_) => RegType::Qword,
        ValueModel::Other(ty, _) => type_of_code(ty),
    }
}

// ---------------------------------------------------------------------------
// Decoding
// ---------------------------------------------------------------------------

/// The little-endian code units of `d`; a trailing odd byte is ignored.
pub open spec fn units_of(d: Seq<u8>) -> Seq<u16> {
    Seq::new(d.len() / 2, |i: int| (d[2 * i] + d[2 * i + 1] * 256) as u16)
}

/// The units before the first NUL.
pub open spec fn until_nul(u: Seq<u16>) -> Seq<u16>
    decreases u.len(),
{
    if u.len() == 0 || u[0] == 0 {
        Seq::empty()
    } else {
        seq![u[0]] + until_nul(u.skip(1))
    }
}

/// Splits NUL-terminated strings, `cur` being the string read so far; an
/// empty string (double NUL) ends the list, and an unterminated tail is
/// dropped.
pub open spec fn multi_sz_split(u: Seq<u16>, cur: Seq<u16>) -> Seq<Seq<u16>>
    decreases u.len(),
{
    if u.len() == 0 {
        Seq::empty()
    } else if u[0] == 0 {
        if cur.len() == 0 {
            Seq::empty()
        } else {
            seq![cur] + multi_sz_split(u.skip(1), Seq::empty())
        }
    } else {
        multi_sz_split(u.skip(1), cur.push(u[0]))
    }
}

/// The strings decoded from split units.
pub open spec fn decode_strings(parts: Seq<Seq<u16>>) -> Seq<Seq<char>> {
    parts.map_values(|p: Seq<u16>| utf16_decode(p))
}

/// The byte at `i`, or zero past the end.
pub open spec fn byte_or_zero(d: Seq<u8>, i: int) -> u8 {
    if i < d.len() {
        d[i]
    } else {
        0
    }
}

/// The little-endian `u32` of the (at most) four bytes from `k`, zero-padded.
pub open spec fn padded_u32_at(d: Seq<u8>, k: int) -> u32 {
    (byte_or_zero(d, k) + byte_or_zero(d, k + 1) * 256 + byte_or_zero(d, k + 2) * 65536
        + byte_or_zero(d, k + 3) * 16777216) as u32
}

/// The little-endian `u32` of the first (at most) four bytes, zero-padded.
pub open spec fn padded_u32(d: Seq<u8>) -> u32 {
    padded_u32_at(d, 0)
}

/// The little-endian `u64` of the first (at most) eight bytes, zero-padded.
pub open spec fn padded_u64(d: Seq<u8>) -> u64 {
    (padded_u32_at(d, 0) + padded_u32_at(d, 4) * 0x1_0000_0000) as u64
}

/// The big-endian `u32` of the first four bytes.
pub open spec fn be_u32(d: Seq<u8>) -> u32 {
    (d[0] * 16777216 + d[1] * 65536 + d[2] * 256 + d[3]) as u32
}

/// What decoding raw bytes of a given type yields.
pub open spec fn decode_value(ty: RegType, d: Seq<u8>) -> ValueModel {
    match ty {
        RegType::RegNone => ValueModel::RegNone,
        RegType::Sz => ValueModel::Sz(utf16_decode(until_nul(units_of(d)))),
        RegType::ExpandSz => ValueModel::ExpandSz(utf16_decode(until_nul(units_of(d)))),
        RegType::Binary => ValueModel::Binary(d),
        RegType::Dword => ValueModel::Dword(padded_u32(d)),
        RegType::DwordBigEndian => ValueModel::DwordBigEndian(be_u32(d)),
        RegType::Link => ValueModel::Sz(utf16_decode(until_nul(units_of(d)))),
        RegType::MultiSz => ValueModel::MultiSz(
            decode_strings(multi_sz_split(units_of(d), Seq::empty())),
        ),
        RegType::Qword => ValueModel::Qword(padded_u64(d)),
        RegType::Other(v) => ValueModel::Other(v, d),
    }
}

/// Bytes of that type can be decoded without a panic.
pub open spec fn decodable(ty: RegType, d: Seq<u8>) -> bool {
    ty == RegType::DwordBigEndian ==> d.len() >= 4
}

// ---------------------------------------------------------------------------
// Executable code
// ---------------------------------------------------------------------------

/// Appends the little-endian bytes of `units`.
pub(crate) fn push_units_le(out: &mut Vec<u8>, units: &[u16])
    ensures
        final(out)@ == old(out)@ + le16_seq(units@),
{
    let mut i: usize = 0;
    while i < units.len()
        invariant
            i <= units@.len(),
            out@ == old(out)@ + le16_seq(units@.take(i as int)),
        decreases units@.len() - i,
    {
        proof {
            assert(units@.take(i + 1).drop_last() =~= units@.take(i as int));
        }
        let u = units[i];
        out.push((u % 256) as u8);
        out.push((u / 256) as u8);
        i = i + 1;
        proof {
            assert(out@ =~= old(out)@ + le16_seq(units@.take(i as int)));
        }
    }
    proof {
        assert(units@.take(i as int) =~= units@);
    }
}

/// Appends the little-endian bytes of `v`.
pub(crate) fn push_u32_le(out: &mut Vec<u8>, v: u32)
    ensures
        final(out)@ == old(out)@ + le32(v),
{
    out.push((v % 256) as u8);
    out.push(((v / 256) % 256) as u8);
    out.push(((v / 65536) % 256) as u8);
    out.push((v / 16777216) as u8);
    proof {
        assert(out@ =~= old(out)@ + le32(v));
    }
}

/// The NUL-terminated UTF-16LE form of `s`.
fn encode_utf16z(s: &str) -> (out: Vec<u8>)
    ensures
        out@ == utf16z(s@),
{
    let units = str_utf16(s);
    let mut out: Vec<u8> = Vec::new();
    push_units_le(&mut out, units.as_slice());
    out.push(0);
    out.push(0);
    proof {
        assert(out@ =~= utf16z(s@));
    }
    out
}

/// The UTF-16 code units of `data` up to the first NUL, decoded.
fn decode_utf16z(data: &[u8]) -> (s: String)
    ensures
        s@ == utf16_decode(until_nul(units_of(data@))),
{
    let ghost all = units_of(data@);
    let mut units: Vec<u16> = Vec::new();
    let mut i: usize = 0;
    let n = data.len() / 2;
    proof {
        assert(all.skip(0) =~= all);
    }
    while i < n
        invariant
            n == data.len() / 2,
            all == units_of(data@),
            i <= n,
            units@ + until_nul(all.skip(i as int)) == until_nul(all),
        decreases n - i,
    {
        assert(i + i + 1 < data.len());
        let j: usize = i + i;
        let lo = data[j];
        let hi = data[j + 1];
        let u: u16 = lo as u16 + (hi as u16) * 256;
        proof {
            assert(all.skip(i as int)[0] == u);
            assert(all.skip(i as int).skip(1) =~= all.skip(i + 1));
        }
        if u == 0 {
            proof {
                assert(until_nul(all.skip(i as int)) =~= Seq::<u16>::empty());
                assert(units@ =~= until_nul(all));
            }
            return string_from_utf16_lossy(units.as_slice());
        }
        units.push(u);
        i = i + 1;
        proof {
            assert(units@ + until_nul(all.skip(i as int)) =~= until_nul(all));
        }
    }
    proof {
        assert(all.skip(i as int).len() == 0);
        assert(units@ =~= until_nul(all));
    }
    string_from_utf16_lossy(units.as_slice())
}

/// The strings of a `REG_MULTI_SZ` payload.
fn decode_multi_sz(data: &[u8]) -> (out: Vec<String>)
    ensures
        out@.map_values(|s: String| s@) == decode_strings(
            multi_sz_split(units_of(data@), Seq::empty()),
        ),
{
    let ghost all = units_of(data@);
    let ghost target = decode_strings(multi_sz_split(all, Seq::empty()));
    let mut out: Vec<String> = Vec::new();
    let mut cur: Vec<u16> = Vec::new();
    let mut i: usize = 0;
    let mut done = false;
    let n = data.len() / 2;
    proof {
        assert(all.skip(0) =~= all);
        assert(out@.map_values(|s: String| s@) + target =~= target);
    }
    while i < n && !done
        invariant
            n == data.len() / 2,
            all == units_of(data@),
            target == decode_strings(multi_sz_split(all, Seq::empty())),
            i <= n,
            done ==> out@.map_values(|s: String| s@) == target,
            !done ==> out@.map_values(|s: String| s@) + decode_strings(
                multi_sz_split(all.skip(i as int), cur@),
            ) == target,
        decreases n - i, (if done { 0int } else { 1int }),
    {
        assert(i + i + 1 < data.len());
        let j: usize = i + i;
        let lo = data[j];
        let hi = data[j + 1];
        let u: u16 = lo as u16 + (hi as u16) * 256;
        let ghost rest = all.skip(i as int);
        let ghost old_out = out@;
        let ghost old_cur = cur@;
        proof {
            assert(rest[0] == u);
            assert(rest.skip(1) =~= all.skip(i + 1));
        }
        if u == 0 {
            if cur.len() == 0 {
                proof {
                    assert(decode_strings(multi_sz_split(rest, cur@)) =~= Seq::<Seq<char>>::empty());
                    assert(out@.map_values(|s: String| s@) + Seq::<Seq<char>>::empty()
                        =~= out@.map_values(|s: String| s@));
                }
                done = true;
            } else {
                let s = string_from_utf16_lossy(cur.as_slice());
                out.push(s);
                cur.clear();
                i = i + 1;
                proof {
                    let tail = multi_sz_split(all.skip(i as int), Seq::empty());
                    assert(multi_sz_split(rest, old_cur) == seq![old_cur] + tail);
                    assert(decode_strings(seq![old_cur] + tail) =~= seq![utf16_decode(old_cur)]
                        + decode_strings(tail));
                    assert(out@.map_values(|s: String| s@) =~= old_out.map_values(|s: String| s@).push(
                        utf16_decode(old_cur),
                    ));
                    assert(out@.map_values(|s: String| s@) + decode_strings(tail)
                        =~= old_out.map_values(|s: String| s@) + (seq![utf16_decode(old_cur)]
                        + decode_strings(tail)));
                }
            }
        } else {
            cur.push(u);
            i = i + 1;
        }
    }
    proof {
        if !done {
            assert(all.skip(i as int).len() == 0);
            assert(out@.map_values(|s: String| s@) + Seq::<Seq<char>>::empty() =~= out@.map_values(
                |s: String| s@,
            ));
        }
    }
    out
}

/// The little-endian `u32` of the first (at most) four bytes, zero-padded.
pub(crate) fn read_u32_le(data: &[u8]) -> (v: u32)
    ensures
        v == padded_u32(data@),
{
    let b0: u32 = if data.len() > 0 { data[0] as u32 } else { 0 };
    let b1: u32 = if data.len() > 1 { data[1] as u32 } else { 0 };
    let b2: u32 = if data.len() > 2 { data[2] as u32 } else { 0 };
    let b3: u32 = if data.len() > 3 { data[3] as u32 } else { 0 };
    b0 + b1 * 256 + b2 * 65536 + b3 * 16777216
}

/// The little-endian `u64` of the first (at most) eight bytes, zero-padded.
fn read_u64_le(data: &[u8]) -> (v: u64)
    ensures
        v == padded_u64(data@),
{
    let lo = read_u32_le(data);
    let hi: u32 = if data.len() > 4 {
        let b0: u32 = data[4] as u32;
        let b1: u32 = if data.len() > 5 { data[5] as u32 } else { 0 };
        let b2: u32 = if data.len() > 6 { data[6] as u32 } else { 0 };
        let b3: u32 = if data.len() > 7 { data[7] as u32 } else { 0 };
        b0 + b1 * 256 + b2 * 65536 + b3 * 16777216
    } else {
        0
    };
    lo as u64 + (hi as u64) * 0x1_0000_0000
}

impl RegValue {
    /// Corresponding REGF type.
    pub fn reg_type(&self) -> (t: RegType)
        ensures
            t == value_type(self@),
    {
        match self {
            RegValue::RegNone => RegType::RegNone,
            RegValue::Sz(_) => RegType::Sz,
            RegValue::ExpandSz(_) => RegType::ExpandSz,
            RegValue::Binary(_) => RegType::Binary,
            RegValue::Dword(_) => RegType::Dword,
            RegValue::DwordBigEndian(_) => RegType::DwordBigEndian,
            RegValue::MultiSz(_) => RegType::MultiSz,
            RegValue::Qword(_) => RegType::Qword,
            RegValue::Other { ty, .. } => RegType::from_u32(*ty),
        }
    }

    /// Encodes the value to raw bytes (a data cell's content).
    pub fn to_bytes(&self) -> (out: Vec<u8>)
        ensures
            out@ == value_bytes(self@),
    {
        match self {
            RegValue::RegNone => Vec::new(),
            RegValue::Sz(s) => encode_utf16z(s.as_str()),
            RegValue::ExpandSz(s) => encode_utf16z(s.as_str()),
            RegValue::Binary(b) => slice_to_vec(b.as_slice()),
            RegValue::Dword(v) => {
                let mut out: Vec<u8> = Vec::new();
                push_u32_le(&mut out, *v);
                proof {
                    assert(out@ =~= le32(*v));
                }
                out
            },
            RegValue::DwordBigEndian(v) => {
                let mut out: Vec<u8> = Vec::new();
                out.push((*v / 16777216) as u8);
                out.push(((*v / 65536) % 256) as u8);
                out.push(((*v / 256) % 256) as u8);
                out.push((*v % 256) as u8);
                proof {
                    assert(out@ =~= be32(*v));
                }
                out
            },
            RegValue::Qword(v) => {
                let mut out: Vec<u8> = Vec::new();
                push_u32_le(&mut out, (*v % 0x1_0000_0000) as u32);
                push_u32_le(&mut out, (*v / 0x1_0000_0000) as u32);
                proof {
                    assert(out@ =~= le64(*v));
                }
                out
            },
            RegValue::MultiSz(items) => {
                let ghost views = items@.map_values(|s: String| s@);
                let mut units: Vec<u16> = Vec::new();
                let mut i: usize = 0;
                while i < items.len()
                    invariant
                        i <= items@.len(),
                        views == items@.map_values(|s: String| s@),
                        units@ == multi_sz_units(views.take(i as int)),
                    decreases items@.len() - i,
                {
                    let u = str_utf16(items[i].as_str());
                    let ghost before = units@;
                    let mut j: usize = 0;
                    while j < u.len()
                        invariant
                            j <= u@.len(),
                            units@ == before + u@.take(j as int),
                        decreases u@.len() - j,
                    {
                        units.push(u[j]);
                        j = j + 1;
                        proof {
                            assert(units@ =~= before + u@.take(j as int));
                        }
                    }
                    units.push(0);
                    proof {
                        assert(u@.take(j as int) =~= u@);
                        assert(views.take(i + 1).drop_last() =~= views.take(i as int));
                        assert(views.take(i + 1).last() == items@[i as int]@);
                    }
                    i = i + 1;
                    proof {
                        assert(units@ =~= multi_sz_units(views.take(i as int)));
                    }
                }
                proof {
                    assert(views.take(i as int) =~= views);
                }
                units.push(0);
                proof {
                    assert(units@ =~= multi_sz_units(views) + seq![0u16]);
                }
                let mut out: Vec<u8> = Vec::new();
                push_units_le(&mut out, units.as_slice());
                proof {
                    assert(out@ =~= le16_seq(multi_sz_units(views) + seq![0u16]));
                }
                out
            },
            RegValue::Other { data, .. } => slice_to_vec(data.as_slice()),
        }
    }

    /// Decodes a value from its type and raw bytes.
    pub fn from_raw(ty: RegType, data: &[u8]) -> (v: Self)
        requires
            decodable(ty, data@),
        ensures
            v@ == decode_value(ty, data@),
    {
        match ty {
            RegType::RegNone => RegValue::RegNone,
            RegType::Sz => RegValue::Sz(decode_utf16z(data)),
            RegType::ExpandSz => RegValue::ExpandSz(decode_utf16z(data)),
            RegType::Binary => RegValue::Binary(slice_to_vec(data)),
            RegType::Dword => RegValue::Dword(read_u32_le(data)),
            RegType::DwordBigEndian => {
                let v: u32 = (data[0] as u32) * 16777216 + (data[1] as u32) * 65536 + (data[2] as u32)
                    * 256 + data[3] as u32;
                RegValue::DwordBigEndian(v)
            },
            RegType::Link => RegValue::Sz(decode_utf16z(data)),
            RegType::MultiSz => RegValue::MultiSz(decode_multi_sz(data)),
            RegType::Qword => RegValue::Qword(read_u64_le(data)),
            RegType::Other(v) => RegValue::Other { ty: v, data: slice_to_vec(data) },
        }
    }
}

// ---------------------------------------------------------------------------
// Round trip of encoding and decoding
// ---------------------------------------------------------------------------

/// No NUL character in `s`.
pub open spec fn has_no_nul(s: Seq<char>) -> bool {
    forall|i: int| 0 <= i < s.len() ==> s[i] != '\0'
}

/// A value that survives encoding and decoding: strings hold no NUL (which
/// would end them), `REG_MULTI_SZ` strings are also non-empty (an empty one
/// ends the list), and an `Other` type code is not one of the listed codes.
pub open spec fn survives_encoding(m: ValueModel) -> bool {
    match m {
        ValueModel::Sz(s) => has_no_nul(s),
        ValueModel::ExpandSz(s) => has_no_nul(s),
        ValueModel::MultiSz(items) => forall|i: int|
            0 <= i < items.len() ==> #[trigger] items[i].len() > 0 && has_no_nul(items[i]),
        ValueModel::Other(ty, _) => type_of_code(ty) is Other,
        _ => true,
    }
}

proof fn lemma_le16_seq(u: Seq<u16>)
    ensures
        le16_seq(u).len() == 2 * u.len(),
        forall|i: int|
            0 <= i < u.len() ==> #[trigger] le16_seq(u)[2 * i] == (u[i] % 256) as u8
                && le16_seq(u)[2 * i + 1] == (u[i] / 256) as u8,
    decreases u.len(),
{
    if u.len() > 0 {
        lemma_le16_seq(u.drop_last());
        assert forall|i: int| 0 <= i < u.len() implies #[trigger] le16_seq(u)[2 * i] == (u[i]
            % 256) as u8 && le16_seq(u)[2 * i + 1] == (u[i] / 256) as u8 by {
            if i < u.len() - 1 {
                assert(u.drop_last()[i] == u[i]);
            }
        }
    }
}

pub proof fn lemma_units_of_le16(u: Seq<u16>)
    ensures
        units_of(le16_seq(u)) == u,
{
    lemma_le16_seq(u);
    let d = le16_seq(u);
    assert forall|i: int| 0 <= i < u.len() implies #[trigger] units_of(d)[i] == u[i] by {
        assert(d[2 * i] == (u[i] % 256) as u8);
        assert(d[2 * i + 1] == (u[i] / 256) as u8);
    }
    assert(units_of(d) =~= u);
}

proof fn lemma_le16_seq_append(a: Seq<u16>, b: Seq<u16>)
    ensures
        le16_seq(a + b) == le16_seq(a) + le16_seq(b),
    decreases b.len(),
{
    if b.len() == 0 {
        assert(a + b =~= a);
        assert(le16_seq(b) =~= Seq::<u8>::empty());
        assert(le16_seq(a) + le16_seq(b) =~= le16_seq(a));
    } else {
        assert((a + b).drop_last() =~= a + b.drop_last());
        lemma_le16_seq_append(a, b.drop_last());
        assert((a + b).last() == b.last());
        assert(le16_seq(a + b) =~= le16_seq(a) + le16_seq(b));
    }
}

proof fn lemma_until_nul(u: Seq<u16>, v: Seq<u16>)
    requires
        forall|i: int| 0 <= i < u.len() ==> u[i] != 0,
        v.len() > 0,
        v[0] == 0,
    ensures
        until_nul(u + v) == u,
    decreases u.len(),
{
    if u.len() == 0 {
        assert(u + v =~= v);
        assert(until_nul(u + v) =~= u);
    } else {
        assert((u + v).skip(1) =~= u.skip(1) + v);
        lemma_until_nul(u.skip(1), v);
        assert(until_nul(u + v) =~= u);
    }
}

proof fn lemma_string_roundtrip(s: Seq<char>)
    requires
        has_no_nul(s),
    ensures
        utf16_decode(until_nul(units_of(utf16z(s)))) == s,
{
    let e = utf16_encode(s);
    lemma_le16_seq_append(e, seq![0u16]);
    assert(le16_seq(seq![0u16]) =~= seq![0u8, 0u8]) by {
        assert(seq![0u16].drop_last() =~= Seq::<u16>::empty());
        assert(le16_seq(Seq::<u16>::empty()) =~= Seq::<u8>::empty());
        assert(seq![0u16].last() == 0u16);
        assert(le16(0u16) =~= seq![0u8, 0u8]);
    }
    assert(utf16z(s) == le16_seq(e + seq![0u16]));
    lemma_units_of_le16(e + seq![0u16]);
    lemma_utf16_encode_nul(s);
    lemma_until_nul(e, seq![0u16]);
    lemma_utf16_roundtrip(s);
}

proof fn lemma_multi_sz_units_front(items: Seq<Seq<char>>)
    requires
        items.len() > 0,
    ensures
        multi_sz_units(items) == utf16_encode(items[0]) + seq![0u16] + multi_sz_units(
            items.skip(1),
        ),
    decreases items.len(),
{
    if items.len() == 1 {
        assert(items.drop_last() =~= Seq::<Seq<char>>::empty());
        assert(items.skip(1) =~= Seq::<Seq<char>>::empty());
        assert(multi_sz_units(items) =~= utf16_encode(items[0]) + seq![0u16] + multi_sz_units(
            items.skip(1),
        ));
    } else {
        lemma_multi_sz_units_front(items.drop_last());
        assert(items.drop_last().skip(1) =~= items.skip(1).drop_last());
        assert(items.skip(1).last() == items.last());
        assert(multi_sz_units(items) =~= utf16_encode(items[0]) + seq![0u16] + multi_sz_units(
            items.skip(1),
        ));
    }
}

proof fn lemma_split_word(w: Seq<u16>, x: Seq<u16>, cur: Seq<u16>)
    requires
        forall|i: int| 0 <= i < w.len() ==> w[i] != 0,
    ensures
        multi_sz_split(w + x, cur) == multi_sz_split(x, cur + w),
    decreases w.len(),
{
    if w.len() == 0 {
        assert(w + x =~= x);
        assert(cur + w =~= cur);
    } else {
        assert((w + x).skip(1) =~= w.skip(1) + x);
        assert(cur.push(w[0]) + w.skip(1) =~= cur + w);
        lemma_split_word(w.skip(1), x, cur.push(w[0]));
    }
}

proof fn lemma_multi_sz_split(items: Seq<Seq<char>>)
    requires
        forall|i: int| 0 <= i < items.len() ==> #[trigger] items[i].len() > 0 && has_no_nul(items[i]),
    ensures
        multi_sz_split(multi_sz_units(items) + seq![0u16], Seq::empty()) == items.map_values(
            |s: Seq<char>| utf16_encode(s),
        ),
    decreases items.len(),
{
    if items.len() == 0 {
        assert(multi_sz_units(items) + seq![0u16] =~= seq![0u16]);
        assert(items.map_values(|s: Seq<char>| utf16_encode(s)) =~= Seq::<Seq<u16>>::empty());
    } else {
        lemma_multi_sz_units_front(items);
        let e = utf16_encode(items[0]);
        let rest = multi_sz_units(items.skip(1)) + seq![0u16];
        assert(multi_sz_units(items) + seq![0u16] =~= e + (seq![0u16] + rest));
        assert(items[0].len() > 0 && has_no_nul(items[0]));
        lemma_utf16_encode_nul(items[0]);
        lemma_split_word(e, seq![0u16] + rest, Seq::empty());
        assert(Seq::<u16>::empty() + e =~= e);
        assert(e.len() > 0) by {
            lemma_utf16_encode_append(items[0].drop_last(), seq![items[0].last()]);
            assert(items[0] =~= items[0].drop_last() + seq![items[0].last()]);
        }
        assert((seq![0u16] + rest).skip(1) =~= rest);
        assert forall|i: int| 0 <= i < items.skip(1).len() implies #[trigger] items.skip(1)[i].len()
            > 0 && has_no_nul(items.skip(1)[i]) by {
            assert(items.skip(1)[i] == items[i + 1]);
        }
        lemma_multi_sz_split(items.skip(1));
        assert(items.map_values(|s: Seq<char>| utf16_encode(s)) =~= seq![e] + items.skip(
            1,
        ).map_values(|s: Seq<char>| utf16_encode(s)));
    }
}

proof fn lemma_multi_sz_roundtrip(items: Seq<Seq<char>>)
    requires
        forall|i: int| 0 <= i < items.len() ==> #[trigger] items[i].len() > 0 && has_no_nul(items[i]),
    ensures
        decode_strings(multi_sz_split(units_of(le16_seq(multi_sz_units(items) + seq![0u16])), Seq::empty()))
            == items,
{
    let u = multi_sz_units(items) + seq![0u16];
    lemma_units_of_le16(u);
    lemma_multi_sz_split(items);
    let encoded = items.map_values(|s: Seq<char>| utf16_encode(s));
    assert forall|i: int| 0 <= i < items.len() implies #[trigger] decode_strings(encoded)[i]
        == items[i] by {
        assert(items[i].len() > 0 && has_no_nul(items[i]));
        lemma_utf16_roundtrip(items[i]);
    }
    assert(decode_strings(encoded) =~= items);
}

proof fn lemma_u32_roundtrip(v: u32)
    ensures
        padded_u32(le32(v)) == v,
        be_u32(be32(v)) == v,
{
}

proof fn lemma_u64_roundtrip(v: u64)
    ensures
        padded_u64(le64(v)) == v,
{
    let lo = (v % 0x1_0000_0000) as u32;
    let hi = (v / 0x1_0000_0000) as u32;
    let d = le64(v);
    assert(d =~= le32(lo) + le32(hi));
    assert(padded_u32_at(d, 0) == padded_u32(le32(lo)));
    assert(padded_u32_at(d, 4) == padded_u32(le32(hi)));
    lemma_u32_roundtrip(lo);
    lemma_u32_roundtrip(hi);
}

/// Decoding what a value encodes to gives the value back, for every value
/// whose strings hold no NUL (and, in a `REG_MULTI_SZ`, are non-empty) and
/// whose `Other` type code is not a listed one.
pub proof fn lemma_value_roundtrip(m: ValueModel)
    requires
        survives_encoding(m),
    ensures
        decodable(value_type(m), value_bytes(m)),
        decode_value(value_type(m), value_bytes(m)) == m,
{
    match m {
        ValueModel::Sz(s) => {
            lemma_string_roundtrip(s);
        },
        ValueModel::ExpandSz(s) => {
            lemma_string_roundtrip(s);
        },
        ValueModel::MultiSz(items) => {
            lemma_multi_sz_roundtrip(items);
        },
        ValueModel::Dword(v) => {
            lemma_u32_roundtrip(v);
        },
        ValueModel::DwordBigEndian(v) => {
            lemma_u32_roundtrip(v);
        },
        ValueModel::Qword(v) => {
            lemma_u64_roundtrip(v);
        },
        _ => {},
    }
}

} // verus!
