//! Little-endian integer fields inside byte buffers.

use vstd::prelude::*;

verus! {

/// The unsigned 32-bit little-endian value stored at `off` in `s`.
pub open spec fn u32_at(s: Seq<u8>, off: int) -> u32 {
    (s[off] + s[off + 1] * 256 + s[off + 2] * 65536 + s[off + 3] * 16777216) as u32
}

/// `s` with the four little-endian bytes of `v` stored at `off`.
pub open spec fn put_u32(s: Seq<u8>, off: int, v: u32) -> Seq<u8> {
    s.update(off, (v % 256) as u8).update(off + 1, ((v / 256) % 256) as u8).update(
        off + 2,
        ((v / 65536) % 256) as u8,
    ).update(off + 3, (v / 16777216) as u8)
}

/// Reads the little-endian `u32` at `off`.
pub fn rd(data: &[u8], off: usize) -> (v: u32)
    requires
        off + 4 <= data@.len(),
    ensures
        v == u32_at(data@, off as int),
{
    data[off] as u32 + (data[off + 1] as u32) * 256 + (data[off + 2] as u32) * 65536 + (data[off
        + 3] as u32) * 16777216
}

/// Writes `v` as four little-endian bytes at `off`.
pub fn wr(data: &mut [u8], off: usize, v: u32)
    requires
        off + 4 <= old(data)@.len(),
    ensures
        final(data)@ == put_u32(old(data)@, off as int, v),
        u32_at(final(data)@, off as int) == v,
{
    data[off] = (v % 256) as u8;
    data[off + 1] = ((v / 256) % 256) as u8;
    data[off + 2] = ((v / 65536) % 256) as u8;
    data[off + 3] = (v / 16777216) as u8;
}

} // verus!

verus! {

/// The unsigned 16-bit little-endian value stored at `off` in `s`.
pub open spec fn u16_at(s: Seq<u8>, off: int) -> u16 {
    (s[off] + s[off + 1] * 256) as u16
}

/// The signed 32-bit little-endian value stored at `off` in `s`.
pub open spec fn i32_at(s: Seq<u8>, off: int) -> i32 {
    let u = u32_at(s, off);
    if u < 0x8000_0000 {
        u as i32
    } else {
        (u - 0x1_0000_0000) as i32
    }
}

/// The 32-bit two's complement pattern of `v`.
pub open spec fn i32_bits(v: i32) -> u32 {
    if v >= 0 {
        v as u32
    } else {
        (v + 0x1_0000_0000) as u32
    }
}

/// The four little-endian bytes of `v`.
pub open spec fn le32(v: u32) -> Seq<u8> {
    seq![(v % 256) as u8, ((v / 256) % 256) as u8, ((v / 65536) % 256) as u8, (v / 16777216) as u8]
}

/// The two little-endian bytes of `v`.
pub open spec fn le16(v: u16) -> Seq<u8> {
    seq![(v % 256) as u8, (v / 256) as u8]
}

/// Reads the little-endian `u16` at `off`.
pub fn rd16(data: &[u8], off: usize) -> (v: u16)
    requires
        off + 2 <= data@.len(),
    ensures
        v == u16_at(data@, off as int),
{
    data[off] as u16 + (data[off + 1] as u16) * 256
}

/// Reads the little-endian `i32` at `off`.
pub fn rd_i32(data: &[u8], off: usize) -> (v: i32)
    requires
        off + 4 <= data@.len(),
    ensures
        v == i32_at(data@, off as int),
{
    let u = rd(data, off);
    if u < 0x8000_0000 {
        u as i32
    } else {
        let w: u32 = 0xFFFF_FFFF - u;
        -(w as i32) - 1
    }
}

/// Writes `v` as four little-endian two's complement bytes at `off`.
pub fn wr_i32(data: &mut [u8], off: usize, v: i32)
    requires
        off + 4 <= old(data)@.len(),
    ensures
        final(data)@ == put_u32(old(data)@, off as int, i32_bits(v)),
        i32_at(final(data)@, off as int) == v,
{
    let bits: u32 = if v >= 0 {
        v as u32
    } else {
        let w: i32 = -(v + 1);
        0xFFFF_FFFF - (w as u32)
    };
    wr(data, off, bits);
}

/// Writes `v` as two little-endian bytes at `off`.
pub fn wr16(data: &mut [u8], off: usize, v: u16)
    requires
        off + 2 <= old(data)@.len(),
    ensures
        final(data)@ == old(data)@.update(off as int, (v % 256) as u8).update(
            off + 1,
            (v / 256) as u8,
        ),
        u16_at(final(data)@, off as int) == v,
{
    data[off] = (v % 256) as u8;
    data[off + 1] = (v / 256) as u8;
}

/// Writing a word then reading it back gives the word; other bytes keep
/// their values.
pub proof fn lemma_put_u32(s: Seq<u8>, off: int, v: u32)
    requires
        0 <= off,
        off + 4 <= s.len(),
    ensures
        put_u32(s, off, v).len() == s.len(),
        u32_at(put_u32(s, off, v), off) == v,
        put_u32(s, off, v).subrange(off, off + 4) == le32(v),
        forall|i: int|
            0 <= i < s.len() && !(off <= i < off + 4) ==> #[trigger] put_u32(s, off, v)[i] == s[i],
{
    let t = put_u32(s, off, v);
    assert(t.subrange(off, off + 4) =~= le32(v));
}

} // verus!

verus! {

/// `s` with `src` copied over it from index `at`.
pub open spec fn splice(s: Seq<u8>, at: int, src: Seq<u8>) -> Seq<u8> {
    s.subrange(0, at) + src + s.subrange(at + src.len(), s.len() as int)
}

/// A buffer of `n` zero bytes.
pub fn zeros(n: usize) -> (v: Vec<u8>)
    ensures
        v@ == Seq::new(n as nat, |i: int| 0u8),
{
    let mut v: Vec<u8> = Vec::new();
    let mut i: usize = 0;
    while i < n
        invariant
            i <= n,
            v@ == Seq::new(i as nat, |k: int| 0u8),
        decreases n - i,
    {
        v.push(0);
        i = i + 1;
        proof {
            assert(v@ =~= Seq::new(i as nat, |k: int| 0u8));
        }
    }
    v
}

/// Copies `src` into `dst` from index `at`.
pub fn write_bytes(dst: &mut [u8], at: usize, src: &[u8])
    requires
        at + src@.len() <= old(dst)@.len(),
    ensures
        final(dst)@ == splice(old(dst)@, at as int, src@),
{
    let n = dst.len();
    let mut i: usize = 0;
    while i < src.len()
        invariant
            i <= src@.len(),
            n == dst@.len(),
            at + src@.len() <= dst@.len(),
            dst@.len() == old(dst)@.len(),
            dst@ == splice(old(dst)@, at as int, src@.take(i as int)) + Seq::<u8>::empty(),
        decreases src@.len() - i,
    {
        dst[at + i] = src[i];
        i = i + 1;
        proof {
            assert(dst@ =~= splice(old(dst)@, at as int, src@.take(i as int)) + Seq::<u8>::empty());
        }
    }
    proof {
        assert(src@.take(i as int) =~= src@);
    }
}

/// A copy of `data` as a vector.
pub fn slice_to_vec(data: &[u8]) -> (v: Vec<u8>)
    ensures
        v@ == data@,
{
    let mut v: Vec<u8> = Vec::new();
    let mut i: usize = 0;
    while i < data.len()
        invariant
            i <= data@.len(),
            v@ == data@.take(i as int),
        decreases data@.len() - i,
    {
        v.push(data[i]);
        i = i + 1;
        proof {
            assert(v@ =~= data@.take(i as int));
        }
    }
    proof {
        assert(data@.take(i as int) =~= data@);
    }
    v
}

} // verus!

verus! {

/// A word written inside a slice of a buffer lands in the buffer.
pub proof fn lemma_put_u32_splice(s: Seq<u8>, a: int, b: int, k: int, v: u32)
    requires
        0 <= a <= b <= s.len(),
        0 <= k,
        k + 4 <= b - a,
    ensures
        s.subrange(0, a) + put_u32(s.subrange(a, b), k, v) + s.subrange(b, s.len() as int)
            == put_u32(s, a + k, v),
{
    assert(s.subrange(0, a) + put_u32(s.subrange(a, b), k, v) + s.subrange(b, s.len() as int)
        =~= put_u32(s, a + k, v));
}

/// A buffer rebuilt from its unchanged slice is the buffer.
pub proof fn lemma_splice_same(s: Seq<u8>, a: int, b: int)
    requires
        0 <= a <= b <= s.len(),
    ensures
        s.subrange(0, a) + s.subrange(a, b) + s.subrange(b, s.len() as int) == s,
{
    assert(s.subrange(0, a) + s.subrange(a, b) + s.subrange(b, s.len() as int) =~= s);
}

} // verus!

verus! {

/// A signed word written then read back gives the word.
pub proof fn lemma_put_i32(s: Seq<u8>, off: int, v: i32)
    requires
        0 <= off,
        off + 4 <= s.len(),
    ensures
        i32_at(put_u32(s, off, i32_bits(v)), off) == v,
{
    lemma_put_u32(s, off, i32_bits(v));
}

} // verus!
