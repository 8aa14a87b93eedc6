//! Hive bins and cell allocation.
//!
//! The body of a hive is a run of hive bins (HBIN) of 4096 bytes (or a
//! multiple), each starting with a 32-byte header. A bin holds cells of
//! variable size: `[i32 size][payload]`, the size being negative when the
//! cell is allocated and positive when it is free. Offsets inside the hive
//! ("data offsets") are relative to the start of the hive bins, that is to
//! index `REGF_HEADER_SIZE` of the buffer.

use vstd::prelude::*;

use crate::bytes::{i32_at, i32_bits, lemma_put_i32, lemma_put_u32, put_u32, rd, rd_i32, u32_at, wr, wr_i32};
use crate::error::{RegError, Result};
use crate::header::REGF_HEADER_SIZE;

verus! {

const HBIN_HEADER: usize = 0x20;

/// Alignment of cell sizes.
pub const CELL_ALIGN: usize = 8;

/// Size granularity of hive bins.
pub const HBIN_GRANULARITY: usize = 0x1000;

/// Largest buffer that 32-bit data offsets can address.
pub open spec fn max_hive_len() -> int {
    0x1_0000_1000
}

/// The size of a cell whose size field holds `raw`.
pub open spec fn cell_size(raw: i32) -> int {
    if raw < 0 {
        -(raw as int)
    } else {
        raw as int
    }
}

/// `n` rounded up to a multiple of `a`.
pub open spec fn align_up_spec(n: int, a: int) -> int {
    ((n + a - 1) / a) * a
}

/// The size of the cell that holds a payload of `payload_len` bytes.
pub open spec fn cell_need(payload_len: int) -> int {
    align_up_spec(4 + payload_len, 8)
}

/// The size of the hive bin appended for a cell of `need` bytes.
pub open spec fn bin_size_for(need: int) -> int {
    align_up_spec(0x20 + need, 0x1000)
}

/// The bytes at `pos` spell "hbin".
pub open spec fn is_hbin_magic(d: Seq<u8>, pos: int) -> bool {
    &&& d[pos] == 0x68u8
    &&& d[pos + 1] == 0x62u8
    &&& d[pos + 2] == 0x69u8
    &&& d[pos + 3] == 0x6Eu8
}

/// The end of the bin of size `hs` at `pos`, clipped to the buffer.
pub open spec fn bin_end(d: Seq<u8>, pos: int, hs: int) -> int {
    if pos + hs < d.len() {
        pos + hs
    } else {
        d.len() as int
    }
}

/// First free cell of at least `need` bytes in a bin, scanning from `cur` up
/// to `e`; the scan stops at an inconsistent cell.
pub open spec fn fit_in_bin(d: Seq<u8>, cur: int, e: int, need: int) -> Option<int>
    decreases e - cur,
{
    if cur + 4 > e {
        None
    } else {
        let raw = i32_at(d, cur);
        let size = cell_size(raw);
        if size < 4 || cur + size > e {
            None
        } else if raw > 0 && size >= need {
            Some(cur)
        } else {
            fit_in_bin(d, cur + size, e, need)
        }
    }
}

/// First free cell of at least `need` bytes in the bins from `pos`, within
/// `end` (the end of the hive bins as the header states it); the scan stops
/// at a missing signature or a zero bin size.
pub open spec fn first_fit(d: Seq<u8>, pos: int, end: int, need: int) -> Option<int>
    decreases (if pos <= d.len() {
        d.len() + 1 - pos
    } else {
        0
    }),
{
    if pos + 0x20 > end || pos + 0x20 > d.len() {
        None
    } else if !is_hbin_magic(d, pos) {
        None
    } else {
        let hs = u32_at(d, pos + 8) as int;
        if hs == 0 {
            None
        } else {
            match fit_in_bin(d, pos + 0x20, bin_end(d, pos, hs), need) {
                Some(c) => Some(c),
                None => first_fit(d, pos + hs, end, need),
            }
        }
    }
}

/// The end of the bin that holds index `idx`, or the buffer's end when no
/// bin of the scan holds it.
pub open spec fn enclosing_end(d: Seq<u8>, pos: int, end: int, idx: int) -> int
    decreases (if pos <= d.len() {
        d.len() + 1 - pos
    } else {
        0
    }),
{
    if pos + 0x20 > end || pos + 0x20 > d.len() {
        d.len() as int
    } else if !is_hbin_magic(d, pos) {
        d.len() as int
    } else {
        let hs = u32_at(d, pos + 8) as int;
        if hs == 0 {
            d.len() as int
        } else if pos <= idx < pos + hs {
            bin_end(d, pos, hs)
        } else {
            enclosing_end(d, pos + hs, end, idx)
        }
    }
}

/// The size of the cell at `idx` after absorbing the free cells that follow
/// it before `e`.
pub open spec fn coalesced_size(d: Seq<u8>, idx: int, size: int, e: int) -> int
    decreases (if e - idx - size >= 0 {
        e - idx - size
    } else {
        0
    }),
{
    if idx + size + 4 > e || size < 0 {
        size
    } else {
        let nraw = i32_at(d, idx + size);
        if nraw <= 0 {
            size
        } else {
            coalesced_size(d, idx, size + nraw, e)
        }
    }
}

/// The bytes after occupying `need` bytes of the free cell of `size` bytes
/// at `idx`: the rest becomes a free cell when it holds at least 8 bytes.
pub open spec fn split_cell(d: Seq<u8>, idx: int, size: int, need: int) -> Seq<u8> {
    if size - need >= 8 {
        put_u32(put_u32(d, idx, i32_bits((-need) as i32)), idx + need, i32_bits((size - need) as i32))
    } else {
        put_u32(d, idx, i32_bits((-size) as i32))
    }
}

/// Splitting a cell that lies inside the buffer keeps the buffer's length
/// and every byte outside the two size fields it writes.
pub proof fn lemma_split_bytes(d: Seq<u8>, idx: int, size: int, need: int)
    requires
        0 <= idx,
        4 <= need <= size,
        idx + size <= d.len(),
    ensures
        split_cell(d, idx, size, need).len() == d.len(),
        forall|i: int|
            0 <= i < d.len() && !(idx <= i < idx + 4) && !(size - need >= 8 && idx + need <= i < idx
                + need + 4) ==> #[trigger] split_cell(d, idx, size, need)[i] == d[i],
{
    if size - need >= 8 {
        let d1 = put_u32(d, idx, i32_bits((-need) as i32));
        crate::bytes::lemma_put_u32(d, idx, i32_bits((-need) as i32));
        crate::bytes::lemma_put_u32(d1, idx + need, i32_bits((size - need) as i32));
    } else {
        crate::bytes::lemma_put_u32(d, idx, i32_bits((-size) as i32));
    }
}

/// The bytes of a new hive bin of `bin_size` bytes at bins offset `bin_off`,
/// holding an allocated cell of `need` bytes followed by a free remainder.
#[verifier::opaque]
pub open spec fn new_bin(bin_off: u32, need: int, bin_size: int) -> Seq<u8> {
    let z = Seq::new(bin_size as nat, |i: int| 0u8);
    let b1 = z.update(0, 0x68u8).update(1, 0x62u8).update(2, 0x69u8).update(3, 0x6Eu8);
    let b2 = put_u32(put_u32(b1, 4, bin_off), 8, bin_size as u32);
    let b3 = put_u32(b2, 0x20, i32_bits((-need) as i32));
    let left = bin_size - 0x20 - need;
    if left >= 8 {
        put_u32(b3, 0x20 + need, i32_bits(left as i32))
    } else {
        b3
    }
}

/// Absolute payload range of the cell at data offset `off`, or the error
/// that reading it meets.
pub open spec fn payload_range(d: Seq<u8>, off: u32) -> Result<(int, int)> {
    let idx = off + 0x1000;
    if idx + 4 > d.len() {
        Err(RegError::Truncated { offset: idx as usize })
    } else {
        let size = cell_size(i32_at(d, idx));
        if size < 4 || idx + size > d.len() {
            Err(RegError::CorruptCell { offset: idx as usize })
        } else {
            Ok((idx + 4, idx + size))
        }
    }
}

/// Rounds `n` up to a multiple of `align`.
fn align_up(n: usize, align: usize) -> (r: usize)
    requires
        align > 0,
        n + align <= usize::MAX,
    ensures
        r == align_up_spec(n as int, align as int),
        r >= n,
        r < n + align,
{
    let q = (n + align - 1) / align;
    assert(q * align <= n + align - 1 && q * align > n - 1) by (nonlinear_arith)
        requires
            q as int == (n as int + align as int - 1) / (align as int),
            align > 0,
    ;
    q * align
}

/// Converts a data offset (relative to the hive bins) to a buffer index.
pub fn abs(data_offset: u32) -> (r: usize)
    requires
        data_offset + 0x1000 <= usize::MAX,
    ensures
        r == data_offset + 0x1000,
{
    REGF_HEADER_SIZE + data_offset as usize
}

/// Converts a buffer index to a data offset.
pub fn rel(abs_index: usize) -> (r: u32)
    requires
        abs_index >= 0x1000,
    ensures
        r == (abs_index - 0x1000) as u32,
{
    (abs_index - REGF_HEADER_SIZE) as u32
}

/// Signed size field of the cell at buffer index `abs_index`.
fn cell_raw_size(data: &[u8], abs_index: usize) -> (r: Result<i32>)
    ensures
        abs_index + 4 > data@.len() ==> r == Err::<i32, RegError>(
            RegError::Truncated { offset: abs_index },
        ),
        abs_index + 4 <= data@.len() ==> r == Ok::<i32, RegError>(i32_at(data@, abs_index as int)),
{
    if abs_index > data.len() || data.len() - abs_index < 4 {
        return Err(RegError::Truncated { offset: abs_index });
    }
    Ok(rd_i32(data, abs_index))
}

/// The size of a cell whose size field holds `raw`.
fn raw_cell_size(raw: i32) -> (s: u64)
    ensures
        s == cell_size(raw),
        s <= 0x8000_0000,
{
    if raw < 0 {
        let w: i64 = raw as i64;
        (-w) as u64
    } else {
        raw as u64
    }
}

/// Writes the signed size field of a cell at buffer index `abs_index`.
fn write_size(data: &mut [u8], abs_index: usize, size: i32)
    requires
        abs_index + 4 <= old(data)@.len(),
    ensures
        final(data)@ == put_u32(old(data)@, abs_index as int, i32_bits(size)),
{
    wr_i32(data, abs_index, size);
}

/// Occupies the free cell of `size` bytes at `abs_index`, splitting the rest
/// off as a new free cell when it is large enough to use.
fn split_and_occupy(data: &mut [u8], abs_index: usize, size: usize, need: usize)
    requires
        abs_index + size <= old(data)@.len(),
        4 <= need <= size < 0x8000_0000,
    ensures
        final(data)@ == split_cell(old(data)@, abs_index as int, size as int, need as int),
{
    let len = data.len();
    let leftover = size - need;
    if leftover >= CELL_ALIGN {
        write_size(data, abs_index, -(need as i32));
        write_size(data, abs_index + need, leftover as i32);
    } else {
        write_size(data, abs_index, -(size as i32));
    }
}

/// Checks the "hbin" signature at `pos`.
fn hbin_magic_at(data: &[u8], pos: usize) -> (r: bool)
    requires
        pos + 4 <= data@.len(),
    ensures
        r == is_hbin_magic(data@, pos as int),
{
    data[pos] == 0x68u8 && data[pos + 1] == 0x62u8 && data[pos + 2] == 0x69u8 && data[pos + 3]
        == 0x6Eu8
}

/// First free cell of at least `need` bytes in the bin cells from `start`
/// up to `he`.
fn scan_bin(data: &[u8], start: usize, he: usize, need: usize) -> (r: Option<usize>)
    requires
        he <= data@.len(),
        4 <= need,
    ensures
        r matches Some(c) ==> fit_in_bin(data@, start as int, he as int, need as int) == Some(
            c as int,
        ) && c >= start && c + 4 <= he && i32_at(data@, c as int) > 0 && cell_size(
            i32_at(data@, c as int),
        ) >= need && c + cell_size(i32_at(data@, c as int)) <= he,
        r is None ==> fit_in_bin(data@, start as int, he as int, need as int) is None,
{
    let mut cur: usize = start;
    while cur <= he && he - cur >= 4
        invariant
            he <= data@.len(),
            4 <= need,
            cur >= start,
            fit_in_bin(data@, start as int, he as int, need as int) == fit_in_bin(
                data@,
                cur as int,
                he as int,
                need as int,
            ),
        decreases he - cur,
    {
        let raw = rd_i32(data, cur);
        let size = raw_cell_size(raw);
        if size < 4 || size > (he - cur) as u64 {
            return None;
        }
        if raw > 0 && size >= need as u64 {
            return Some(cur);
        }
        cur = cur + size as usize;
    }
    None
}

/// First free cell of at least `need` bytes in the hive bins, scanning the
/// bins that fit within `0x1000 + hive_bins_size`.
fn find_free_cell(data: &[u8], hive_bins_size: u32, need: usize) -> (r: Option<usize>)
    requires
        data@.len() <= max_hive_len(),
        4 <= need,
    ensures
        r matches Some(c) ==> first_fit(data@, 0x1000, 0x1000 + hive_bins_size, need as int)
            == Some(c as int) && c >= 0x1020 && c + 4 <= data@.len() && i32_at(data@, c as int)
            > 0 && cell_size(i32_at(data@, c as int)) >= need && c + cell_size(
            i32_at(data@, c as int),
        ) <= data@.len(),
        r is None ==> first_fit(data@, 0x1000, 0x1000 + hive_bins_size, need as int) is None,
{
    let ghost d = data@;
    let ghost end = 0x1000 + hive_bins_size;
    let len = data.len();
    let end64: u64 = 0x1000 + hive_bins_size as u64;
    let mut pos: u64 = 0x1000;
    while pos + 0x20 <= end64 && pos + 0x20 <= len as u64
        invariant
            len == d.len(),
            data@ == d,
            d.len() <= max_hive_len(),
            end64 == end,
            end == 0x1000 + hive_bins_size,
            4 <= need,
            0x1000 <= pos <= d.len() + 0x1_0000_0000,
            first_fit(d, 0x1000, end, need as int) == first_fit(d, pos as int, end, need as int),
        decreases (if pos <= len {
            len + 1 - pos
        } else {
            0
        }),
    {
        let p = pos as usize;
        if !hbin_magic_at(data, p) {
            return None;
        }
        let hbin_size = rd(data, p + 8) as u64;
        if hbin_size == 0 {
            return None;
        }
        let hbin_end: usize = if hbin_size < (len - p) as u64 {
            p + hbin_size as usize
        } else {
            len
        };
        assert(hbin_end == bin_end(d, pos as int, hbin_size as int));
        match scan_bin(data, p + HBIN_HEADER, hbin_end, need) {
            Some(c) => {
                return Some(c);
            },
            None => {},
        }
        pos = pos + hbin_size;
    }
    None
}

/// Appends a hive bin, at bins offset `bin_off`, that holds an allocated
/// cell of `need` bytes; returns the cell's buffer index.
fn append_bin(data: &mut Vec<u8>, bin_off: u32, need: usize) -> (cell: usize)
    requires
        4 <= need <= 0x7FFF_1000,
        old(data)@.len() + need + 0x2000 <= max_hive_len(),
    ensures
        final(data)@ == old(data)@ + new_bin(bin_off, need as int, bin_size_for(need as int)),
        cell == old(data)@.len() + 0x20,
{
    let new_hbin_size = align_up(HBIN_HEADER + need, HBIN_GRANULARITY);
    let ghost z = Seq::new(new_hbin_size as nat, |i: int| 0u8);
    let mut bin: Vec<u8> = Vec::new();
    let mut i: usize = 0;
    while i < new_hbin_size
        invariant
            i <= new_hbin_size,
            bin@ == Seq::new(i as nat, |k: int| 0u8),
        decreases new_hbin_size - i,
    {
        bin.push(0);
        i = i + 1;
        proof {
            assert(bin@ =~= Seq::new(i as nat, |k: int| 0u8));
        }
    }
    // Bin header.
    bin.set(0, 0x68u8);
    bin.set(1, 0x62u8);
    bin.set(2, 0x69u8);
    bin.set(3, 0x6Eu8);
    wr(bin.as_mut_slice(), 4, bin_off);
    wr(bin.as_mut_slice(), 8, new_hbin_size as u32);
    // Allocated cell.
    write_size(bin.as_mut_slice(), HBIN_HEADER, -(need as i32));
    // Free remainder, if any.
    let leftover = new_hbin_size - HBIN_HEADER - need;
    if leftover >= CELL_ALIGN {
        write_size(bin.as_mut_slice(), HBIN_HEADER + need, leftover as i32);
    }
    proof {
        reveal(new_bin);
    }
    assert(bin@ =~= new_bin(bin_off, need as int, bin_size_for(need as int)));
    let base = data.len();
    data.append(&mut bin);
    base + HBIN_HEADER
}

/// Allocates a cell that can hold `payload_len` bytes of payload and returns
/// its data offset. Reuses the first free cell that is large enough
/// (splitting off the rest) or appends a new hive bin.
///
/// The payload is not initialized: the caller writes it through
/// [`payload_mut`]. The size field is set (negative = allocated).
pub fn allocate(
    data: &mut Vec<u8>,
    header_hive_bins_size: &mut u32,
    payload_len: usize,
) -> (r: Result<u32>)
    requires
        old(data)@.len() >= 0x1000,
        payload_len <= 0x7FFF_0000,
        old(data)@.len() + payload_len + 0x3000 <= max_hive_len(),
    ensures
        ({
            let d = old(data)@;
            let need = cell_need(payload_len as int);
            match first_fit(d, 0x1000, 0x1000 + *old(header_hive_bins_size), need) {
                Some(c) => {
                    &&& r == Ok::<u32, RegError>((c - 0x1000) as u32)
                    &&& final(data)@ == split_cell(d, c, cell_size(i32_at(d, c)), need)
                    &&& *final(header_hive_bins_size) == *old(header_hive_bins_size)
                    &&& 0x1020 <= c
                    &&& need <= cell_size(i32_at(d, c))
                    &&& c + cell_size(i32_at(d, c)) <= d.len()
                },
                None => {
                    &&& r == Ok::<u32, RegError>((d.len() + 0x20 - 0x1000) as u32)
                    &&& final(data)@ == d + new_bin(
                        *old(header_hive_bins_size),
                        need,
                        bin_size_for(need),
                    )
                    &&& *final(header_hive_bins_size) == vstd::wrapping::u32_specs::wrapping_add(
                        *old(header_hive_bins_size),
                        bin_size_for(need) as u32,
                    )
                },
            }
        }),
        r matches Ok(off) ==> fresh_cell(old(data)@, final(data)@, off, payload_len as int),
{
    let need = align_up(4 + payload_len, CELL_ALIGN);
    // 1. First fit among the free cells.
    match find_free_cell(data.as_slice(), *header_hive_bins_size, need) {
        Some(cur) => Ok(occupy(data, cur, need, payload_len)),
        None => {
            // 2. No room: a new hive bin at the end.
            Ok(grow(data, header_hive_bins_size, need, payload_len))
        },
    }
}

/// The facts callers use about a freshly allocated cell at `off`.
pub open spec fn fresh_cell(old_d: Seq<u8>, d: Seq<u8>, off: u32, payload_len: int) -> bool {
    let a = off + 0x1000;
    &&& 0x1020 <= a
    &&& payload_range(d, off) matches Ok((x, y)) && x == a + 4 && y - x >= payload_len
    &&& old_d.len() <= d.len() <= old_d.len() + payload_len + 0x2000
    &&& forall|i: int| 0 <= i < a && i < old_d.len() ==> #[trigger] d[i] == old_d[i]
}

/// Occupies the free cell found at `cur`.
fn occupy(data: &mut Vec<u8>, cur: usize, need: usize, payload_len: usize) -> (off: u32)
    requires
        0x1020 <= cur,
        old(data)@.len() <= max_hive_len(),
        cur + 4 <= old(data)@.len(),
        i32_at(old(data)@, cur as int) > 0,
        cell_size(i32_at(old(data)@, cur as int)) >= need,
        cur + cell_size(i32_at(old(data)@, cur as int)) <= old(data)@.len(),
        need == cell_need(payload_len as int),
        4 <= need,
    ensures
        off == (cur - 0x1000) as u32,
        final(data)@ == split_cell(old(data)@, cur as int, cell_size(i32_at(old(data)@, cur as int)), need as int),
        fresh_cell(old(data)@, final(data)@, off, payload_len as int),
{
    let ghost d = data@;
    let size = raw_cell_size(rd_i32(data.as_slice(), cur));
    split_and_occupy(data.as_mut_slice(), cur, size as usize, need);
    proof {
        lemma_split_cell_facts(d, cur as int, size as int, need as int);
    }
    rel(cur)
}

/// Appends a bin holding a cell of `need` bytes.
fn grow(data: &mut Vec<u8>, header_hive_bins_size: &mut u32, need: usize, payload_len: usize) -> (off: u32)
    requires
        old(data)@.len() >= 0x1000,
        old(data)@.len() + payload_len + 0x3000 <= max_hive_len(),
        payload_len <= 0x7FFF_0000,
        need == cell_need(payload_len as int),
        4 <= need <= payload_len + 12,
    ensures
        off == (old(data)@.len() + 0x20 - 0x1000) as u32,
        final(data)@ == old(data)@ + new_bin(*old(header_hive_bins_size), need as int, bin_size_for(need as int)),
        *final(header_hive_bins_size) == vstd::wrapping::u32_specs::wrapping_add(
            *old(header_hive_bins_size),
            bin_size_for(need as int) as u32,
        ),
        fresh_cell(old(data)@, final(data)@, off, payload_len as int),
{
    let cell = append_bin(data, *header_hive_bins_size, need);
    *header_hive_bins_size = header_hive_bins_size.wrapping_add(
        align_up(HBIN_HEADER + need, HBIN_GRANULARITY) as u32,
    );
    proof {
        lemma_append_facts(old(data)@, *old(header_hive_bins_size), need as int);
        lemma_cell_need(payload_len as int);
        assert(cell - 0x1000 < 0x1_0000_0000);
        assert(i32_at(data@, cell as int) == -(need as int));
        assert(cell_size(i32_at(data@, cell as int)) == need);
        let off = (cell - 0x1000) as u32;
        assert(off + 0x1000 == cell);
        assert(0x1020 <= cell);
        assert(payload_range(data@, off) == Ok::<(int, int), RegError>((cell + 4, cell + need)));
        assert(old(data)@.len() <= data@.len() <= old(data)@.len() + payload_len + 0x2000);
    }
    rel(cell)
}

/// End (buffer index) of the hive bin that holds index `idx`.
fn enclosing_hbin_end(data: &[u8], idx: usize, header_hive_bins_size: u32) -> (r: usize)
    requires
        data@.len() <= max_hive_len(),
    ensures
        r == enclosing_end(data@, 0x1000, 0x1000 + header_hive_bins_size, idx as int),
        r <= data@.len(),
{
    let ghost d = data@;
    let ghost end = 0x1000 + header_hive_bins_size;
    let len = data.len();
    let end64: u64 = 0x1000 + header_hive_bins_size as u64;
    let mut pos: u64 = 0x1000;
    while pos + 0x20 <= end64 && pos + 0x20 <= len as u64
        invariant
            len == d.len(),
            data@ == d,
            d.len() <= max_hive_len(),
            end64 == end,
            end == 0x1000 + header_hive_bins_size,
            0x1000 <= pos <= d.len() + 0x1_0000_0000,
            enclosing_end(d, 0x1000, end, idx as int) == enclosing_end(d, pos as int, end, idx as int),
        decreases (if pos <= len {
            len + 1 - pos
        } else {
            0
        }),
    {
        let p = pos as usize;
        if !hbin_magic_at(data, p) {
            return len;
        }
        let hbin_size = rd(data, p + 8) as u64;
        if hbin_size == 0 {
            return len;
        }
        if idx as u64 >= pos && (idx as u64) < pos + hbin_size {
            return if hbin_size < (len - p) as u64 {
                p + hbin_size as usize
            } else {
                len
            };
        }
        pos = pos + hbin_size;
    }
    len
}

/// Size of the cell at `idx` (currently `size0`) after absorbing the free
/// cells that follow it before `he`.
fn coalesce(data: &[u8], idx: u64, size0: u64, he: usize) -> (r: u64)
    requires
        he <= data@.len(),
        data@.len() <= max_hive_len(),
        idx <= data@.len(),
        size0 <= 0x8000_0000,
    ensures
        r == coalesced_size(data@, idx as int, size0 as int, he as int),
{
    let ghost target = coalesced_size(data@, idx as int, size0 as int, he as int);
    let mut size = size0;
    while idx + size + 4 <= he as u64
        invariant
            he <= data@.len(),
            data@.len() <= max_hive_len(),
            idx <= data@.len(),
            size <= data@.len() + 0x8000_0000,
            coalesced_size(data@, idx as int, size as int, he as int) == target,
            target == coalesced_size(data@, idx as int, size0 as int, he as int),
        decreases (if he - idx - size >= 0 {
            he - idx - size
        } else {
            0
        }),
    {
        let nraw = rd_i32(data, (idx + size) as usize);
        assert(nraw == i32_at(data@, idx + size));
        if nraw <= 0 {
            return size;
        }
        size = size + nraw as u64;
    }
    size
}

/// Frees the cell at the given data offset, merging it with the free cells
/// that follow it in the same hive bin (forward coalescing).
pub fn free(data: &mut [u8], data_offset: u32, header_hive_bins_size: u32) -> (r: Result<()>)
    requires
        old(data)@.len() <= max_hive_len(),
    ensures
        ({
            let d = old(data)@;
            let idx = data_offset + 0x1000;
            if idx + 4 > d.len() {
                &&& r == Err::<(), RegError>(RegError::Truncated { offset: idx as usize })
                &&& final(data)@ == d
            } else {
                &&& r == Ok::<(), RegError>(())
                &&& final(data)@ == put_u32(
                    d,
                    idx,
                    i32_bits(
                        coalesced_size(
                            d,
                            idx,
                            cell_size(i32_at(d, idx)),
                            enclosing_end(d, 0x1000, 0x1000 + header_hive_bins_size, idx),
                        ) as i32,
                    ),
                )
            }
        }),
{
    let len = data.len();
    let idx64: u64 = data_offset as u64 + 0x1000;
    if idx64 + 4 > len as u64 {
        return Err(RegError::Truncated { offset: idx64 as usize });
    }
    let idx = idx64 as usize;
    let raw = rd_i32(data, idx);
    let size = raw_cell_size(raw);
    let hbin_end = enclosing_hbin_end(data, idx, header_hive_bins_size);
    let total = coalesce(data, idx64, size, hbin_end);
    write_size(data, idx, total as i32);
    Ok(())
}

/// Mutable access to the payload of the cell at a data offset (after its
/// size field).
pub fn payload_mut(data: &mut [u8], data_offset: u32) -> (r: Result<&mut [u8]>)
    ensures
        match payload_range(old(data)@, data_offset) {
            Ok((a, b)) => r matches Ok(p) && p@ == old(data)@.subrange(a, b)
                && (final(p)@.len() == b - a ==> final(data)@ == old(data)@.subrange(0, a)
                + final(p)@ + old(data)@.subrange(b, old(data)@.len() as int)),
            Err(e) => r == Err::<&mut [u8], RegError>(e) && final(data)@ == old(data)@,
        },
{
    let len = data.len();
    let idx64: u64 = data_offset as u64 + 0x1000;
    if idx64 + 4 > len as u64 {
        return Err(RegError::Truncated { offset: idx64 as usize });
    }
    let idx = idx64 as usize;
    let size = raw_cell_size(rd_i32(data, idx));
    if size < 4 || idx64 + size > len as u64 {
        return Err(RegError::CorruptCell { offset: idx });
    }
    Ok(slice_range_mut(data, idx + 4, idx + size as usize))
}

/// `data[a..b]` as a mutable slice (`IndexMut` with a range): the slice
/// holds those bytes, and what is written through it lands in `data`.
#[verifier::external_body]
fn slice_range_mut(data: &mut [u8], a: usize, b: usize) -> (r: &mut [u8])
    requires
        a <= b <= old(data)@.len(),
    ensures
        r@ == old(data)@.subrange(a as int, b as int),
        final(r)@.len() == b - a ==> final(data)@ == old(data)@.subrange(0, a as int)
            + final(r)@ + old(data)@.subrange(b as int, old(data)@.len() as int),
{
    &mut data[a..b]
}

/// The new bin starts with an allocated cell of `need` bytes.
proof fn lemma_new_bin_cell(bin_off: u32, need: int, bin_size: int)
    requires
        4 <= need <= 0x7FFF_1000,
        bin_size == bin_size_for(need),
    ensures
        new_bin(bin_off, need, bin_size).len() == bin_size,
        bin_size >= 0x20 + need,
        bin_size <= 0x20 + need + 0x1000,
        i32_at(new_bin(bin_off, need, bin_size), 0x20) == -need,
{
    reveal(new_bin);
    let z = Seq::new(bin_size as nat, |i: int| 0u8);
    let b1 = z.update(0, 0x68u8).update(1, 0x62u8).update(2, 0x69u8).update(3, 0x6Eu8);
    let b2 = put_u32(put_u32(b1, 4, bin_off), 8, bin_size as u32);
    lemma_put_u32(b1, 4, bin_off);
    lemma_put_u32(put_u32(b1, 4, bin_off), 8, bin_size as u32);
    let b3 = put_u32(b2, 0x20, i32_bits((-need) as i32));
    lemma_put_i32(b2, 0x20, (-need) as i32);
    lemma_put_u32(b2, 0x20, i32_bits((-need) as i32));
    let left = bin_size - 0x20 - need;
    if left >= 8 {
        lemma_put_u32(b3, 0x20 + need, i32_bits(left as i32));
        assert(i32_at(put_u32(b3, 0x20 + need, i32_bits(left as i32)), 0x20) == i32_at(b3, 0x20));
    }
}

/// Occupying a free cell allocates it with at least `need` bytes and
/// leaves the bytes before it alone.
proof fn lemma_split_cell_facts(d: Seq<u8>, c: int, size: int, need: int)
    requires
        0 <= c,
        4 <= need <= size < 0x8000_0000,
        c + size <= d.len(),
    ensures
        split_cell(d, c, size, need).len() == d.len(),
        i32_at(split_cell(d, c, size, need), c) < 0,
        need <= cell_size(i32_at(split_cell(d, c, size, need), c)) <= size,
        forall|i: int| 0 <= i < c ==> #[trigger] split_cell(d, c, size, need)[i] == d[i],
{
    if size - need >= 8 {
        let d1 = put_u32(d, c, i32_bits((-need) as i32));
        lemma_put_i32(d, c, (-need) as i32);
        lemma_put_u32(d, c, i32_bits((-need) as i32));
        lemma_put_u32(d1, c + need, i32_bits((size - need) as i32));
        assert(i32_at(split_cell(d, c, size, need), c) == i32_at(d1, c));
    } else {
        lemma_put_i32(d, c, (-size) as i32);
        lemma_put_u32(d, c, i32_bits((-size) as i32));
    }
}

/// Appending a bin adds an allocated cell of `need` bytes right after the
/// old bytes, which stay as they were.
proof fn lemma_append_facts(d: Seq<u8>, bin_off: u32, need: int)
    requires
        4 <= need <= 0x7FFF_1000,
    ensures
        ({
            let b = new_bin(bin_off, need, bin_size_for(need));
            let c: int = d.len() as int + 0x20;
            &&& (d + b).len() == d.len() + bin_size_for(need)
            &&& bin_size_for(need) <= need + 0x1020
            &&& i32_at(d + b, c) == -need
            &&& c + need <= (d + b).len()
            &&& forall|i: int| 0 <= i < d.len() ==> #[trigger] (d + b)[i] == d[i]
        }),
{
    lemma_new_bin_cell(bin_off, need, bin_size_for(need));
    let b = new_bin(bin_off, need, bin_size_for(need));
    let c: int = d.len() as int + 0x20;
    assert((d + b)[c] == b[0x20]);
    assert((d + b)[c + 1] == b[0x21]);
    assert((d + b)[c + 2] == b[0x22]);
    assert((d + b)[c + 3] == b[0x23]);
}

/// The room left in a new bin after its header and cell is either none or
/// a whole free cell.
proof fn lemma_bin_left(need: int)
    requires
        8 <= need <= 0x7FFF_1000,
        need % 8 == 0,
    ensures
        ({
            let left = bin_size_for(need) - 0x20 - need;
            left == 0 || left >= 8
        }),
{
    let q = (0x20 + need + 0xFFF) / 0x1000;
    assert(bin_size_for(need) == q * 0x1000);
    let k = need / 8;
    assert(need == 8 * k);
}

/// The bytes of a new bin before its free rest.
proof fn lemma_new_bin_head(bin_off: u32, need: int, bs: int)
    requires
        8 <= need <= 0x7FFF_1000,
        bs == bin_size_for(need),
    ensures
        ({
            let z = Seq::new(bs as nat, |i: int| 0u8);
            let b1 = z.update(0, 0x68u8).update(1, 0x62u8).update(2, 0x69u8).update(3, 0x6Eu8);
            let b2 = put_u32(put_u32(b1, 4, bin_off), 8, bs as u32);
            let b3 = put_u32(b2, 0x20, i32_bits((-need) as i32));
            &&& b3.len() == bs
            &&& is_hbin_magic(b3, 0)
            &&& u32_at(b3, 8) == bs
            &&& i32_at(b3, 0x20) == -need
        }),
{
    lemma_new_bin_cell(bin_off, need, bs);
    let z = Seq::new(bs as nat, |i: int| 0u8);
    let b1 = z.update(0, 0x68u8).update(1, 0x62u8).update(2, 0x69u8).update(3, 0x6Eu8);
    let b15 = put_u32(b1, 4, bin_off);
    let b2 = put_u32(b15, 8, bs as u32);
    lemma_put_u32(b1, 4, bin_off);
    lemma_put_u32(b15, 8, bs as u32);
    let b3 = put_u32(b2, 0x20, i32_bits((-need) as i32));
    lemma_put_i32(b2, 0x20, (-need) as i32);
    lemma_put_u32(b2, 0x20, i32_bits((-need) as i32));
    assert(b3[0] == b2[0] && b3[1] == b2[1] && b3[2] == b2[2] && b3[3] == b2[3]);
    assert(b3[8] == b2[8] && b3[9] == b2[9] && b3[10] == b2[10] && b3[11] == b2[11]);
    assert(b2[0] == b15[0] && b2[1] == b15[1] && b2[2] == b15[2] && b2[3] == b15[3]);
    assert(b15[0] == b1[0] && b15[1] == b1[1] && b15[2] == b1[2] && b15[3] == b1[3]);
}

/// The layout of a new bin: signature, its size, an allocated cell of
/// `need` bytes, then either the bin's end or a free cell up to it.
pub proof fn lemma_new_bin_layout(bin_off: u32, need: int)
    requires
        8 <= need <= 0x7FFF_1000,
        need % 8 == 0,
    ensures
        ({
            let bs = bin_size_for(need);
            let b = new_bin(bin_off, need, bs);
            let left = bs - 0x20 - need;
            &&& b.len() == bs
            &&& 0x1000 <= bs <= 0x20 + need + 0x1000
            &&& is_hbin_magic(b, 0)
            &&& u32_at(b, 8) == bs
            &&& i32_at(b, 0x20) == -need
            &&& left == 0 || (left >= 8 && i32_at(b, 0x20 + need) == left)
        }),
{
    let bs = bin_size_for(need);
    lemma_new_bin_cell(bin_off, need, bs);
    lemma_bin_left(need);
    lemma_new_bin_head(bin_off, need, bs);
    reveal(new_bin);
    let z = Seq::new(bs as nat, |i: int| 0u8);
    let b1 = z.update(0, 0x68u8).update(1, 0x62u8).update(2, 0x69u8).update(3, 0x6Eu8);
    let b2 = put_u32(put_u32(b1, 4, bin_off), 8, bs as u32);
    let b3 = put_u32(b2, 0x20, i32_bits((-need) as i32));
    let left = bs - 0x20 - need;
    assert(0x1000 <= bs) by {
        let q = (0x20 + need + 0xFFF) / 0x1000;
        assert(bin_size_for(need) == q * 0x1000);
    }
    if left >= 8 {
        lemma_put_u32(b3, 0x20 + need, i32_bits(left as i32));
        lemma_put_i32(b3, 0x20 + need, left as i32);
        let b4 = put_u32(b3, 0x20 + need, i32_bits(left as i32));
        assert(b4[0] == b3[0] && b4[1] == b3[1] && b4[2] == b3[2] && b4[3] == b3[3]);
        assert(b4[8] == b3[8] && b4[9] == b3[9] && b4[10] == b3[10] && b4[11] == b3[11]);
        assert(b4[0x20] == b3[0x20] && b4[0x21] == b3[0x21] && b4[0x22] == b3[0x22] && b4[0x23]
            == b3[0x23]);
        assert(new_bin(bin_off, need, bs) == b4);
    } else {
        assert(new_bin(bin_off, need, bs) == b3);
    }
}

/// A cell size is a multiple of 8.
pub proof fn lemma_cell_need_aligned(payload_len: int)
    requires
        payload_len >= 0,
    ensures
        cell_need(payload_len) % 8 == 0,
        cell_need(payload_len) >= 8,
{
    let n = 4 + payload_len;
    assert((n + 7) / 8 * 8 == 8 * ((n + 7) / 8));
}

/// A cell for a payload has room for its size field and the payload.
pub proof fn lemma_cell_need(payload_len: int)
    requires
        payload_len >= 0,
    ensures
        payload_len + 4 <= cell_need(payload_len) <= payload_len + 11,
{
    let n = 4 + payload_len;
    assert(((n + 7) / 8) * 8 >= n && ((n + 7) / 8) * 8 <= n + 7) by (nonlinear_arith)
        requires
            n >= 0,
    ;
}

} // verus!
