//! The layout of the hive bins as a tiling: the bins follow one another up
//! to the end of the buffer, and the cells of each bin cover its body
//! exactly. A hive laid out so keeps its cells apart: writing inside one
//! cell leaves every other cell alone, and allocation only ever takes a free
//! cell or appends a bin.

use vstd::prelude::*;

use crate::bytes::{i32_at, u32_at};
use crate::hbin::{
    bin_end, bin_size_for, cell_size, coalesced_size, enclosing_end, fit_in_bin, first_fit, is_hbin_magic,
    new_bin, split_cell,
};
use crate::bytes::{i32_bits, lemma_put_i32, lemma_put_u32, put_u32};

verus! {

/// The size of the cell at `c`.
pub open spec fn size_at(d: Seq<u8>, c: int) -> int {
    cell_size(i32_at(d, c))
}

/// The size that the header of the bin at `pos` states.
pub open spec fn bin_size_at(d: Seq<u8>, pos: int) -> int {
    u32_at(d, pos + 8) as int
}

/// The cells from `cur` cover `[cur, e)` exactly, each holding at least 8
/// bytes.
pub open spec fn cells_tile(d: Seq<u8>, cur: int, e: int) -> bool
    decreases e - cur,
{
    if cur >= e {
        cur == e
    } else if cur + 4 > e || size_at(d, cur) < 8 || cur + size_at(d, cur) > e {
        false
    } else {
        cells_tile(d, cur + size_at(d, cur), e)
    }
}

/// `c` starts one of the cells met walking from `cur` to `e`.
pub open spec fn cell_in(d: Seq<u8>, cur: int, e: int, c: int) -> bool
    decreases e - cur,
{
    if cur >= e || cur + 4 > e || size_at(d, cur) < 8 || cur + size_at(d, cur) > e {
        false
    } else {
        c == cur || cell_in(d, cur + size_at(d, cur), e, c)
    }
}

/// The bins from `pos` cover `[pos, end)` exactly, each with its signature,
/// a 32-byte header and a body tiled by cells.
pub open spec fn bins_tile(d: Seq<u8>, pos: int, end: int) -> bool
    decreases end - pos,
{
    if pos >= end {
        pos == end
    } else if pos + 0x20 > end || !is_hbin_magic(d, pos) || bin_size_at(d, pos) < 0x28 || pos
        + bin_size_at(d, pos) > end {
        false
    } else {
        cells_tile(d, pos + 0x20, pos + bin_size_at(d, pos)) && bins_tile(
            d,
            pos + bin_size_at(d, pos),
            end,
        )
    }
}

/// `c` starts one of the cells of the bins met walking from `pos` to `end`.
pub open spec fn tile_in(d: Seq<u8>, pos: int, end: int, c: int) -> bool
    decreases end - pos,
{
    if pos >= end || pos + 0x20 > end || bin_size_at(d, pos) < 0x28 || pos + bin_size_at(d, pos)
        > end {
        false
    } else {
        cell_in(d, pos + 0x20, pos + bin_size_at(d, pos), c) || tile_in(
            d,
            pos + bin_size_at(d, pos),
            end,
            c,
        )
    }
}

/// The hive bins, as long as the header says, fill the buffer after the base
/// block and are tiled by cells.
pub open spec fn tiled(d: Seq<u8>, hive_bins_size: u32) -> bool {
    &&& 0x1000 + hive_bins_size == d.len()
    &&& bins_tile(d, 0x1000, d.len() as int)
}

/// `c` (an index in the buffer) starts a cell of the tiling.
pub open spec fn is_tile(d: Seq<u8>, c: int) -> bool {
    tile_in(d, 0x1000, d.len() as int, c)
}

/// `c` starts an allocated cell of the tiling.
pub open spec fn used_tile(d: Seq<u8>, c: int) -> bool {
    is_tile(d, c) && i32_at(d, c) < 0
}

/// The cells of a walk lie inside it.
pub proof fn lemma_cell_in_bounds(d: Seq<u8>, cur: int, e: int, c: int)
    requires
        cell_in(d, cur, e, c),
    ensures
        cur <= c,
        c + 4 <= e,
        size_at(d, c) >= 8,
        c + size_at(d, c) <= e,
    decreases e - cur,
{
    if c != cur {
        lemma_cell_in_bounds(d, cur + size_at(d, cur), e, c);
    }
}

/// Two cells of a walk do not overlap.
pub proof fn lemma_cells_apart(d: Seq<u8>, cur: int, e: int, a: int, b: int)
    requires
        cell_in(d, cur, e, a),
        cell_in(d, cur, e, b),
        a != b,
    ensures
        a + size_at(d, a) <= b || b + size_at(d, b) <= a,
    decreases e - cur,
{
    let n = cur + size_at(d, cur);
    if a == cur {
        lemma_cell_in_bounds(d, n, e, b);
    } else if b == cur {
        lemma_cell_in_bounds(d, n, e, a);
    } else {
        lemma_cells_apart(d, n, e, a, b);
    }
}

/// The cells of the bins lie inside the walked range, after a bin header.
pub proof fn lemma_tile_in_bounds(d: Seq<u8>, pos: int, end: int, c: int)
    requires
        tile_in(d, pos, end, c),
    ensures
        pos + 0x20 <= c,
        c + 4 <= end,
        size_at(d, c) >= 8,
        c + size_at(d, c) <= end,
    decreases end - pos,
{
    let hs = bin_size_at(d, pos);
    if cell_in(d, pos + 0x20, pos + hs, c) {
        lemma_cell_in_bounds(d, pos + 0x20, pos + hs, c);
    } else {
        lemma_tile_in_bounds(d, pos + hs, end, c);
    }
}

/// Two cells of the bins do not overlap.
pub proof fn lemma_tiles_apart(d: Seq<u8>, pos: int, end: int, a: int, b: int)
    requires
        tile_in(d, pos, end, a),
        tile_in(d, pos, end, b),
        a != b,
    ensures
        a + size_at(d, a) <= b || b + size_at(d, b) <= a,
    decreases end - pos,
{
    let hs = bin_size_at(d, pos);
    let ina = cell_in(d, pos + 0x20, pos + hs, a);
    let inb = cell_in(d, pos + 0x20, pos + hs, b);
    if ina && inb {
        lemma_cells_apart(d, pos + 0x20, pos + hs, a, b);
    } else if ina {
        lemma_cell_in_bounds(d, pos + 0x20, pos + hs, a);
        lemma_tile_in_bounds(d, pos + hs, end, b);
    } else if inb {
        lemma_cell_in_bounds(d, pos + 0x20, pos + hs, b);
        lemma_tile_in_bounds(d, pos + hs, end, a);
    } else {
        lemma_tiles_apart(d, pos + hs, end, a, b);
    }
}

/// The free cell that a first-fit scan of a bin finds is one of its cells.
proof fn lemma_fit_in_bin_cell(d: Seq<u8>, cur: int, e: int, need: int)
    requires
        cells_tile(d, cur, e),
        fit_in_bin(d, cur, e, need) is Some,
    ensures
        ({
            let c = fit_in_bin(d, cur, e, need).unwrap();
            &&& cell_in(d, cur, e, c)
            &&& i32_at(d, c) > 0
            &&& size_at(d, c) >= need
        }),
    decreases e - cur,
{
    let raw = i32_at(d, cur);
    let size = cell_size(raw);
    if !(raw > 0 && size >= need) {
        lemma_fit_in_bin_cell(d, cur + size, e, need);
    }
}

/// The free cell that a first-fit scan of the bins finds is one of their
/// cells.
pub proof fn lemma_first_fit_tile(d: Seq<u8>, pos: int, need: int)
    requires
        bins_tile(d, pos, d.len() as int),
        first_fit(d, pos, d.len() as int, need) is Some,
    ensures
        ({
            let c = first_fit(d, pos, d.len() as int, need).unwrap();
            &&& tile_in(d, pos, d.len() as int, c)
            &&& i32_at(d, c) > 0
            &&& size_at(d, c) >= need
        }),
    decreases d.len() - pos,
{
    let hs = bin_size_at(d, pos);
    assert(crate::hbin::bin_end(d, pos, hs) == pos + hs);
    match fit_in_bin(d, pos + 0x20, pos + hs, need) {
        Some(c) => {
            lemma_fit_in_bin_cell(d, pos + 0x20, pos + hs, need);
        },
        None => {
            lemma_first_fit_tile(d, pos + hs, need);
        },
    }
}

/// A walk depends only on the sizes at the cells it meets.
pub proof fn lemma_cells_frame(d: Seq<u8>, d2: Seq<u8>, cur: int, e: int)
    requires
        cells_tile(d, cur, e),
        forall|f: int| cell_in(d, cur, e, f) ==> #[trigger] i32_at(d2, f) == i32_at(d, f),
    ensures
        cells_tile(d2, cur, e),
        forall|f: int| #[trigger] cell_in(d2, cur, e, f) == cell_in(d, cur, e, f),
    decreases e - cur,
{
    if cur < e {
        assert(cell_in(d, cur, e, cur));
        let n = cur + size_at(d, cur);
        assert forall|f: int| cell_in(d, n, e, f) implies #[trigger] i32_at(d2, f) == i32_at(d, f) by {
            assert(cell_in(d, cur, e, f));
        }
        lemma_cells_frame(d, d2, n, e);
        assert(size_at(d2, cur) == size_at(d, cur));
        assert forall|f: int| #[trigger] cell_in(d2, cur, e, f) == cell_in(d, cur, e, f) by {
            assert(cell_in(d2, n, e, f) == cell_in(d, n, e, f));
        }
    }
}

/// Bytes written inside the body of one cell (after its size field) leave
/// the tiling and every size field as they were; the writes stay at or
/// after `pos` or inside a cell of the bins from `pos`.
pub proof fn lemma_bins_write(d: Seq<u8>, d2: Seq<u8>, pos: int, end: int, c: int, a: int, b: int)
    requires
        0 <= pos,
        bins_tile(d, pos, end),
        end <= d.len(),
        d2.len() == d.len(),
        forall|i: int| 0 <= i < d.len() && !(a <= i < b) ==> #[trigger] d2[i] == d[i],
        (tile_in(d, pos, end, c) && c + 4 <= a && b <= c + size_at(d, c)) || b <= pos,
    ensures
        bins_tile(d2, pos, end),
        forall|f: int| #[trigger] tile_in(d2, pos, end, f) == tile_in(d, pos, end, f),
        forall|f: int| tile_in(d, pos, end, f) ==> #[trigger] i32_at(d2, f) == i32_at(d, f),
    decreases end - pos,
{
    if pos < end {
        let hs = bin_size_at(d, pos);
        let inc = tile_in(d, pos, end, c) && c + 4 <= a && b <= c + size_at(d, c);
        if inc {
            lemma_tile_in_bounds(d, pos, end, c);
        }
        assert(d2[pos] == d[pos] && d2[pos + 1] == d[pos + 1] && d2[pos + 2] == d[pos + 2] && d2[pos
            + 3] == d[pos + 3]);
        assert(d2[pos + 8] == d[pos + 8] && d2[pos + 9] == d[pos + 9] && d2[pos + 10] == d[pos + 10]
            && d2[pos + 11] == d[pos + 11]);
        assert(bin_size_at(d2, pos) == hs);
        let cin = inc && cell_in(d, pos + 0x20, pos + hs, c);
        if cin {
            lemma_cell_in_bounds(d, pos + 0x20, pos + hs, c);
        } else if inc {
            lemma_tile_in_bounds(d, pos + hs, end, c);
        }
        assert forall|f: int| cell_in(d, pos + 0x20, pos + hs, f) implies #[trigger] i32_at(d2, f)
            == i32_at(d, f) by {
            lemma_cell_in_bounds(d, pos + 0x20, pos + hs, f);
            if cin && f != c {
                lemma_cells_apart(d, pos + 0x20, pos + hs, f, c);
            }
            assert(d2[f] == d[f] && d2[f + 1] == d[f + 1] && d2[f + 2] == d[f + 2] && d2[f + 3] == d[f
                + 3]);
        }
        lemma_cells_frame(d, d2, pos + 0x20, pos + hs);
        lemma_bins_write(d, d2, pos + hs, end, c, a, b);
        assert forall|f: int| #[trigger] tile_in(d2, pos, end, f) == tile_in(d, pos, end, f) by {
            assert(cell_in(d2, pos + 0x20, pos + hs, f) == cell_in(d, pos + 0x20, pos + hs, f));
            assert(tile_in(d2, pos + hs, end, f) == tile_in(d, pos + hs, end, f));
        }
        assert forall|f: int| tile_in(d, pos, end, f) implies #[trigger] i32_at(d2, f) == i32_at(d, f) by {
            if cell_in(d, pos + 0x20, pos + hs, f) {
            } else {
                assert(tile_in(d, pos + hs, end, f));
            }
        }
    }
}

/// Bytes written inside the body of one cell of a tiled hive leave the
/// tiling, every size field and every other cell as they were.
pub proof fn lemma_write_in_tile(d: Seq<u8>, d2: Seq<u8>, c: int, a: int, b: int)
    requires
        bins_tile(d, 0x1000, d.len() as int),
        d2.len() == d.len(),
        is_tile(d, c),
        c + 4 <= a,
        b <= c + size_at(d, c),
        forall|i: int| 0 <= i < d.len() && !(a <= i < b) ==> #[trigger] d2[i] == d[i],
    ensures
        bins_tile(d2, 0x1000, d2.len() as int),
        forall|f: int| #[trigger] is_tile(d2, f) == is_tile(d, f),
        forall|f: int| is_tile(d, f) ==> #[trigger] i32_at(d2, f) == i32_at(d, f),
        forall|f: int| is_tile(d, f) ==> #[trigger] size_at(d2, f) == size_at(d, f),
        forall|f: int, i: int|
            #![trigger is_tile(d, f), d2[i]]
            is_tile(d, f) && f != c && f <= i < f + size_at(d, f) ==> d2[i] == d[i],
{
    lemma_bins_write(d, d2, 0x1000, d.len() as int, c, a, b);
    assert forall|f: int, i: int|
        #![trigger is_tile(d, f), d2[i]]
        is_tile(d, f) && f != c && f <= i < f + size_at(d, f) implies d2[i] == d[i] by {
        lemma_tiles_apart(d, 0x1000, d.len() as int, f, c);
        lemma_tile_in_bounds(d, 0x1000, d.len() as int, f);
        assert(!(a <= i < b));
        assert(0 <= i < d.len());
    }
}

/// What occupying `need` bytes of the free cell at `c` writes: its size
/// field, and the size field of the free rest when there is one; nothing
/// else changes.
proof fn lemma_split_bytes(d: Seq<u8>, c: int, s: int, need: int)
    requires
        0 <= c,
        c + s <= d.len(),
        8 <= need <= s < 0x8000_0000,
    ensures
        ({
            let d2 = split_cell(d, c, s, need);
            &&& d2.len() == d.len()
            &&& s - need >= 8 ==> i32_at(d2, c) == -need && i32_at(d2, c + need) == s - need
            &&& s - need < 8 ==> i32_at(d2, c) == -s
            &&& forall|i: int| 0 <= i < d.len() && !(c <= i < c + s) ==> #[trigger] d2[i] == d[i]
            &&& forall|i: int| c + need + 4 <= i < c + s ==> #[trigger] d2[i] == d[i]
        }),
{
    if s - need >= 8 {
        let d1 = put_u32(d, c, i32_bits((-need) as i32));
        lemma_put_i32(d, c, (-need) as i32);
        lemma_put_u32(d, c, i32_bits((-need) as i32));
        lemma_put_i32(d1, c + need, (s - need) as i32);
        lemma_put_u32(d1, c + need, i32_bits((s - need) as i32));
        let d2 = put_u32(d1, c + need, i32_bits((s - need) as i32));
        assert(d2[c] == d1[c] && d2[c + 1] == d1[c + 1] && d2[c + 2] == d1[c + 2] && d2[c + 3] == d1[c
            + 3]);
    } else {
        lemma_put_i32(d, c, (-s) as i32);
        lemma_put_u32(d, c, i32_bits((-s) as i32));
    }
}

/// Occupying a free cell of a walk keeps the walk tiled: the cell becomes an
/// allocated cell and the other cells stay.
proof fn lemma_split_cells(d: Seq<u8>, d2: Seq<u8>, cur: int, e: int, c: int, need: int)
    requires
        0 <= cur,
        e <= d.len(),
        cells_tile(d, cur, e),
        cell_in(d, cur, e, c),
        i32_at(d, c) > 0,
        8 <= need <= size_at(d, c),
        d2 == split_cell(d, c, size_at(d, c), need),
    ensures
        cells_tile(d2, cur, e),
        cell_in(d2, cur, e, c),
        forall|f: int| cell_in(d, cur, e, f) && f != c ==> #[trigger] cell_in(d2, cur, e, f),
    decreases e - cur,
{
    let s = size_at(d, c);
    lemma_cell_in_bounds(d, cur, e, c);
    assert(s < 0x8000_0000) by {
        assert(i32_at(d, c) <= 0x7FFF_FFFF);
    }
    lemma_split_bytes(d, c, s, need);
    if cur == c {
        let n = c + s;
        // The cells after `c` are untouched.
        assert forall|f: int| cell_in(d, n, e, f) implies #[trigger] i32_at(d2, f) == i32_at(d, f) by {
            lemma_cell_in_bounds(d, n, e, f);
            assert(d2[f] == d[f] && d2[f + 1] == d[f + 1] && d2[f + 2] == d[f + 2] && d2[f + 3] == d[f
                + 3]);
        }
        lemma_cells_frame(d, d2, n, e);
        if s - need >= 8 {
            assert(size_at(d2, c) == need);
            assert(size_at(d2, c + need) == s - need);
            assert(cells_tile(d2, c + need, e));
            assert(cell_in(d2, c, e, c));
            assert forall|f: int| cell_in(d, cur, e, f) && f != c implies #[trigger] cell_in(d2, cur, e, f) by {
                assert(cell_in(d, n, e, f));
                lemma_cell_in_bounds(d, n, e, f);
                assert(cell_in(d2, n, e, f));
                assert(cell_in(d2, c + need, e, f));
            }
        } else {
            assert(size_at(d2, c) == s);
            assert forall|f: int| cell_in(d, cur, e, f) && f != c implies #[trigger] cell_in(d2, cur, e, f) by {
                assert(cell_in(d, n, e, f));
                assert(cell_in(d2, n, e, f));
            }
        }
    } else {
        let sc = size_at(d, cur);
        assert(cell_in(d, cur + sc, e, c));
        lemma_cell_in_bounds(d, cur + sc, e, c);
        assert(d2[cur] == d[cur] && d2[cur + 1] == d[cur + 1] && d2[cur + 2] == d[cur + 2] && d2[cur
            + 3] == d[cur + 3]);
        assert(size_at(d2, cur) == sc);
        lemma_split_cells(d, d2, cur + sc, e, c, need);
        assert forall|f: int| cell_in(d, cur, e, f) && f != c implies #[trigger] cell_in(d2, cur, e, f) by {
            if f != cur {
                assert(cell_in(d, cur + sc, e, f));
                assert(cell_in(d2, cur + sc, e, f));
            }
        }
    }
}

/// Occupying a free cell of the bins keeps them tiled.
proof fn lemma_split_bins(d: Seq<u8>, d2: Seq<u8>, pos: int, end: int, c: int, need: int)
    requires
        0 <= pos,
        end <= d.len(),
        bins_tile(d, pos, end),
        i32_at(d, c) > 0,
        8 <= need <= size_at(d, c),
        c + size_at(d, c) <= d.len(),
        0 <= c,
        d2 == split_cell(d, c, size_at(d, c), need),
        tile_in(d, pos, end, c) || c + size_at(d, c) <= pos,
    ensures
        bins_tile(d2, pos, end),
        tile_in(d, pos, end, c) ==> tile_in(d2, pos, end, c),
        forall|f: int| tile_in(d, pos, end, f) && f != c ==> #[trigger] tile_in(d2, pos, end, f),
    decreases end - pos,
{
    let s = size_at(d, c);
    assert(s < 0x8000_0000) by {
        assert(i32_at(d, c) <= 0x7FFF_FFFF);
    }
    lemma_split_bytes(d, c, s, need);
    if pos < end {
        let hs = bin_size_at(d, pos);
        let inb = tile_in(d, pos, end, c);
        if inb {
            lemma_tile_in_bounds(d, pos, end, c);
        }
        assert(d2[pos] == d[pos] && d2[pos + 1] == d[pos + 1] && d2[pos + 2] == d[pos + 2] && d2[pos
            + 3] == d[pos + 3]);
        assert(d2[pos + 8] == d[pos + 8] && d2[pos + 9] == d[pos + 9] && d2[pos + 10] == d[pos + 10]
            && d2[pos + 11] == d[pos + 11]);
        assert(bin_size_at(d2, pos) == hs);
        let cin = inb && cell_in(d, pos + 0x20, pos + hs, c);
        if cin {
            lemma_split_cells(d, d2, pos + 0x20, pos + hs, c, need);
            lemma_cell_in_bounds(d, pos + 0x20, pos + hs, c);
        } else {
            if inb {
                lemma_tile_in_bounds(d, pos + hs, end, c);
            }
            assert forall|f: int| cell_in(d, pos + 0x20, pos + hs, f) implies #[trigger] i32_at(d2, f)
                == i32_at(d, f) by {
                lemma_cell_in_bounds(d, pos + 0x20, pos + hs, f);
                assert(d2[f] == d[f] && d2[f + 1] == d[f + 1] && d2[f + 2] == d[f + 2] && d2[f + 3]
                    == d[f + 3]);
            }
            lemma_cells_frame(d, d2, pos + 0x20, pos + hs);
        }
        lemma_split_bins(d, d2, pos + hs, end, c, need);
        assert forall|f: int| tile_in(d, pos, end, f) && f != c implies #[trigger] tile_in(d2, pos, end, f) by {
            if cell_in(d, pos + 0x20, pos + hs, f) {
                assert(cell_in(d2, pos + 0x20, pos + hs, f));
            } else {
                assert(tile_in(d, pos + hs, end, f));
                assert(tile_in(d2, pos + hs, end, f));
            }
        }
    }
}

/// Bins followed by more bins are bins; their cells stay cells.
proof fn lemma_bins_extend(d: Seq<u8>, d2: Seq<u8>, pos: int, l: int, l2: int)
    requires
        0 <= pos,
        bins_tile(d, pos, l),
        l <= d.len(),
        l <= l2 <= d2.len(),
        forall|i: int| 0 <= i < l ==> #[trigger] d2[i] == d[i],
        bins_tile(d2, l, l2),
    ensures
        bins_tile(d2, pos, l2),
        forall|f: int| tile_in(d, pos, l, f) ==> #[trigger] tile_in(d2, pos, l2, f),
        forall|f: int| tile_in(d, pos, l, f) ==> #[trigger] i32_at(d2, f) == i32_at(d, f),
        forall|f: int| tile_in(d2, l, l2, f) ==> #[trigger] tile_in(d2, pos, l2, f),
    decreases l - pos,
{
    if pos < l {
        let hs = bin_size_at(d, pos);
        assert(d2[pos] == d[pos] && d2[pos + 1] == d[pos + 1] && d2[pos + 2] == d[pos + 2] && d2[pos
            + 3] == d[pos + 3]);
        assert(d2[pos + 8] == d[pos + 8] && d2[pos + 9] == d[pos + 9] && d2[pos + 10] == d[pos + 10]
            && d2[pos + 11] == d[pos + 11]);
        assert(bin_size_at(d2, pos) == hs);
        assert forall|f: int| cell_in(d, pos + 0x20, pos + hs, f) implies #[trigger] i32_at(d2, f)
            == i32_at(d, f) by {
            lemma_cell_in_bounds(d, pos + 0x20, pos + hs, f);
            assert(d2[f] == d[f] && d2[f + 1] == d[f + 1] && d2[f + 2] == d[f + 2] && d2[f + 3] == d[f
                + 3]);
        }
        lemma_cells_frame(d, d2, pos + 0x20, pos + hs);
        lemma_bins_extend(d, d2, pos + hs, l, l2);
        assert forall|f: int| tile_in(d, pos, l, f) implies #[trigger] tile_in(d2, pos, l2, f) by {
            assert(pos + hs <= l2);
            if cell_in(d, pos + 0x20, pos + hs, f) {
                assert(cell_in(d2, pos + 0x20, pos + hs, f));
            } else {
                assert(tile_in(d, pos + hs, l, f));
                assert(tile_in(d2, pos + hs, l2, f));
            }
        }
        assert forall|f: int| tile_in(d, pos, l, f) implies #[trigger] i32_at(d2, f) == i32_at(d, f) by {
            if !cell_in(d, pos + 0x20, pos + hs, f) {
                assert(tile_in(d, pos + hs, l, f));
            }
        }
        assert forall|f: int| tile_in(d2, l, l2, f) implies #[trigger] tile_in(d2, pos, l2, f) by {
            assert(tile_in(d2, pos + hs, l2, f));
        }
    }
}

/// Appending a new bin to tiled bins keeps them tiled: the new bin's first
/// cell is allocated with `need` bytes and the old cells stay.
pub proof fn lemma_append_tiles(d: Seq<u8>, bin_off: u32, need: int)
    requires
        d.len() >= 0x1000,
        bins_tile(d, 0x1000, d.len() as int),
        8 <= need <= 0x7FFF_1000,
        need % 8 == 0,
    ensures
        ({
            let d2 = d + new_bin(bin_off, need, bin_size_for(need));
            let c = d.len() as int + 0x20;
            &&& bins_tile(d2, 0x1000, d2.len() as int)
            &&& is_tile(d2, c)
            &&& i32_at(d2, c) == -need
            &&& size_at(d2, c) == need
            &&& forall|f: int| is_tile(d, f) ==> #[trigger] is_tile(d2, f) && i32_at(d2, f) == i32_at(d, f)
        }),
{
    let bs = bin_size_for(need);
    let b = new_bin(bin_off, need, bs);
    crate::hbin::lemma_new_bin_layout(bin_off, need);
    let l = d.len() as int;
    let d2 = d + b;
    let l2 = l + bs;
    assert(d2.len() == l2);
    let c = l + 0x20;
    assert forall|i: int| 0 <= i < bs implies #[trigger] d2[l + i] == b[i] by {}
    assert(d2[l] == b[0] && d2[l + 1] == b[1] && d2[l + 2] == b[2] && d2[l + 3] == b[3]);
    assert(d2[l + 8] == b[8] && d2[l + 9] == b[9] && d2[l + 10] == b[10] && d2[l + 11] == b[11]);
    assert(bin_size_at(d2, l) == bs);
    assert(d2[c] == b[0x20] && d2[c + 1] == b[0x21] && d2[c + 2] == b[0x22] && d2[c + 3] == b[0x23]);
    assert(i32_at(d2, c) == -need);
    let left = bs - 0x20 - need;
    if left >= 8 {
        let r = c + need;
        assert(d2[r] == b[0x20 + need] && d2[r + 1] == b[0x20 + need + 1] && d2[r + 2] == b[0x20 + need
            + 2] && d2[r + 3] == b[0x20 + need + 3]);
        assert(size_at(d2, r) == left);
        assert(cells_tile(d2, r + left, l2));
        assert(cells_tile(d2, r, l2));
    }
    assert(size_at(d2, c) == need);
    assert(cells_tile(d2, c + need, l2));
    assert(cells_tile(d2, c, l2));
    assert(cell_in(d2, c, l2, c));
    assert(bins_tile(d2, l2, l2));
    assert(bins_tile(d2, l, l2));
    assert(tile_in(d2, l, l2, c));
    lemma_bins_extend(d, d2, 0x1000, l, l2);
}

/// Occupying `need` bytes of a free cell of tiled bins keeps them tiled:
/// the cell becomes allocated with at least `need` bytes, and every other
/// cell keeps its size and its bytes.
pub proof fn lemma_split_tiles(d: Seq<u8>, c: int, need: int)
    requires
        d.len() >= 0x1000,
        bins_tile(d, 0x1000, d.len() as int),
        is_tile(d, c),
        i32_at(d, c) > 0,
        8 <= need <= size_at(d, c),
    ensures
        ({
            let d2 = split_cell(d, c, size_at(d, c), need);
            &&& d2.len() == d.len()
            &&& bins_tile(d2, 0x1000, d2.len() as int)
            &&& is_tile(d2, c)
            &&& i32_at(d2, c) < 0
            &&& need <= size_at(d2, c) <= size_at(d, c)
            &&& forall|f: int| is_tile(d, f) && f != c ==> #[trigger] is_tile(d2, f) && i32_at(d2, f) == i32_at(d, f)
            &&& forall|f: int, i: int|
                #![trigger is_tile(d, f), d2[i]]
                is_tile(d, f) && f != c && f <= i < f + size_at(d, f) ==> d2[i] == d[i]
        }),
{
    let s = size_at(d, c);
    let d2 = split_cell(d, c, s, need);
    lemma_tile_in_bounds(d, 0x1000, d.len() as int, c);
    assert(s < 0x8000_0000) by {
        assert(i32_at(d, c) <= 0x7FFF_FFFF);
    }
    lemma_split_bytes(d, c, s, need);
    lemma_split_bins(d, d2, 0x1000, d.len() as int, c, need);
    assert forall|f: int| is_tile(d, f) && f != c implies #[trigger] is_tile(d2, f) && i32_at(d2, f) == i32_at(d, f) by {
        lemma_tiles_apart(d, 0x1000, d.len() as int, f, c);
        lemma_tile_in_bounds(d, 0x1000, d.len() as int, f);
        assert(d2[f] == d[f] && d2[f + 1] == d[f + 1] && d2[f + 2] == d[f + 2] && d2[f + 3] == d[f + 3]);
    }
    assert forall|f: int, i: int|
        #![trigger is_tile(d, f), d2[i]]
        is_tile(d, f) && f != c && f <= i < f + size_at(d, f) implies d2[i] == d[i] by {
        lemma_tiles_apart(d, 0x1000, d.len() as int, f, c);
        lemma_tile_in_bounds(d, 0x1000, d.len() as int, f);
    }
}

/// Every cell allocated in `d` is still allocated in `d2`, with its size
/// and its bytes.
pub open spec fn keeps_used(d: Seq<u8>, d2: Seq<u8>) -> bool {
    &&& forall|f: int| used_tile(d, f) ==> #[trigger] used_tile(d2, f) && size_at(d2, f) == size_at(d, f)
    &&& forall|f: int, i: int|
        #![trigger used_tile(d, f), d2[i]]
        used_tile(d, f) && f <= i < f + size_at(d, f) ==> d2[i] == d[i]
}

pub proof fn lemma_keeps_used_trans(a: Seq<u8>, b: Seq<u8>, c: Seq<u8>)
    requires
        keeps_used(a, b),
        keeps_used(b, c),
    ensures
        keeps_used(a, c),
{
    assert forall|f: int, i: int|
        #![trigger used_tile(a, f), c[i]]
        used_tile(a, f) && f <= i < f + size_at(a, f) implies c[i] == a[i] by {
        assert(used_tile(b, f));
        assert(b[i] == a[i]);
        assert(c[i] == b[i]);
    }
}

/// Two distinct cells of a tiled hive do not overlap.
pub proof fn lemma_tiles_apart_at(d: Seq<u8>, a: int, b: int)
    requires
        bins_tile(d, 0x1000, d.len() as int),
        is_tile(d, a),
        is_tile(d, b),
        a != b,
    ensures
        a + size_at(d, a) <= b || b + size_at(d, b) <= a,
        0x1020 <= a,
        a + size_at(d, a) <= d.len(),
        size_at(d, a) >= 8,
{
    lemma_tiles_apart(d, 0x1000, d.len() as int, a, b);
    lemma_tile_in_bounds(d, 0x1000, d.len() as int, a);
}

/// A cell of a tiled hive lies after the first bin header, inside the buffer.
pub proof fn lemma_tile_bounds(d: Seq<u8>, a: int)
    requires
        is_tile(d, a),
    ensures
        0x1020 <= a,
        a + size_at(d, a) <= d.len(),
        size_at(d, a) >= 8,
{
    lemma_tile_in_bounds(d, 0x1000, d.len() as int, a);
}

} // verus!

verus! {

/// The walk goes on tiled after each of its cells.
proof fn lemma_cells_suffix(d: Seq<u8>, cur: int, e: int, c: int)
    requires
        cells_tile(d, cur, e),
        cell_in(d, cur, e, c),
    ensures
        cells_tile(d, c + size_at(d, c), e),
        forall|f: int| cell_in(d, cur, e, f) && f > c ==> #[trigger] cell_in(d, c + size_at(d, c), e, f),
    decreases e - cur,
{
    if c != cur {
        lemma_cells_suffix(d, cur + size_at(d, cur), e, c);
        assert forall|f: int| cell_in(d, cur, e, f) && f > c implies #[trigger] cell_in(
            d,
            c + size_at(d, c),
            e,
            f,
        ) by {
            lemma_cell_in_bounds(d, cur + size_at(d, cur), e, c);
            assert(cell_in(d, cur + size_at(d, cur), e, f));
        }
    }
}

/// Forward coalescing from the cell at `c` absorbs the free cells that
/// follow it and stops at an allocated cell or the end of the bin.
proof fn lemma_coalesce(d: Seq<u8>, c: int, size: int, e: int)
    requires
        0 <= c,
        8 <= size,
        c + size <= e,
        e <= d.len(),
        cells_tile(d, c + size, e),
    ensures
        ({
            let t = coalesced_size(d, c, size, e);
            &&& size <= t
            &&& c + t <= e
            &&& cells_tile(d, c + t, e)
            &&& forall|f: int| cell_in(d, c + size, e, f) && f < c + t ==> #[trigger] i32_at(d, f) > 0
            &&& forall|f: int|
                cell_in(d, c + size, e, f) && f >= c + t ==> #[trigger] cell_in(d, c + t, e, f)
        }),
    decreases e - c - size,
{
    let n = c + size;
    let t = coalesced_size(d, c, size, e);
    if n + 4 <= e {
        let nraw = i32_at(d, n);
        if nraw > 0 {
            assert(size_at(d, n) == nraw as int);
            assert(cells_tile(d, n + nraw, e));
            lemma_coalesce(d, c, size + nraw, e);
            assert(t == coalesced_size(d, c, size + nraw, e));
            assert forall|f: int| cell_in(d, n, e, f) && f < c + t implies #[trigger] i32_at(d, f) > 0 by {
                if f != n {
                    assert(cell_in(d, n + nraw, e, f));
                }
            }
            assert forall|f: int| cell_in(d, n, e, f) && f >= c + t implies #[trigger] cell_in(d, c + t, e, f) by {
                if f != n {
                    assert(cell_in(d, n + nraw, e, f));
                }
            }
        } else {
            assert(t == size);
            assert forall|f: int| cell_in(d, n, e, f) && f < c + t implies #[trigger] i32_at(d, f) > 0 by {
                lemma_cell_in_bounds(d, n, e, f);
            }
        }
    } else {
        assert(t == size);
        assert forall|f: int| cell_in(d, n, e, f) && f < c + t implies #[trigger] i32_at(d, f) > 0 by {
            lemma_cell_in_bounds(d, n, e, f);
        }
    }
}

/// Freeing the allocated cell at `c` of a walk (its size becomes `t`, the
/// size after coalescing) keeps the walk tiled and its allocated cells.
proof fn lemma_free_cells(d: Seq<u8>, d2: Seq<u8>, cur: int, e: int, c: int, t: int)
    requires
        0 <= cur,
        e <= d.len(),
        cells_tile(d, cur, e),
        cell_in(d, cur, e, c),
        size_at(d, c) <= t,
        c + t <= e,
        t < 0x8000_0000,
        cells_tile(d, c + t, e),
        forall|f: int| cell_in(d, c + size_at(d, c), e, f) && f < c + t ==> #[trigger] i32_at(d, f) > 0,
        forall|f: int|
            cell_in(d, c + size_at(d, c), e, f) && f >= c + t ==> #[trigger] cell_in(d, c + t, e, f),
        d2 == put_u32(d, c, i32_bits(t as i32)),
    ensures
        cells_tile(d2, cur, e),
        cell_in(d2, cur, e, c),
        forall|f: int|
            cell_in(d, cur, e, f) && f != c && i32_at(d, f) < 0 ==> #[trigger] cell_in(d2, cur, e, f),
    decreases e - cur,
{
    lemma_cell_in_bounds(d, cur, e, c);
    lemma_put_u32(d, c, i32_bits(t as i32));
    lemma_put_i32(d, c, t as i32);
    if cur == c {
        let n = c + t;
        assert forall|f: int| cell_in(d, n, e, f) implies #[trigger] i32_at(d2, f) == i32_at(d, f) by {
            lemma_cell_in_bounds(d, n, e, f);
            assert(d2[f] == d[f] && d2[f + 1] == d[f + 1] && d2[f + 2] == d[f + 2] && d2[f + 3] == d[f
                + 3]);
        }
        lemma_cells_frame(d, d2, n, e);
        assert(size_at(d2, c) == t);
        assert(cell_in(d2, c, e, c));
        assert forall|f: int| cell_in(d, cur, e, f) && f != c && i32_at(d, f) < 0 implies #[trigger] cell_in(
            d2,
            cur,
            e,
            f,
        ) by {
            assert(cell_in(d, c + size_at(d, c), e, f));
            assert(f >= c + t);
            assert(cell_in(d, n, e, f));
            assert(cell_in(d2, n, e, f));
        }
    } else {
        let sc = size_at(d, cur);
        assert(cell_in(d, cur + sc, e, c));
        lemma_cell_in_bounds(d, cur + sc, e, c);
        assert(d2[cur] == d[cur] && d2[cur + 1] == d[cur + 1] && d2[cur + 2] == d[cur + 2] && d2[cur
            + 3] == d[cur + 3]);
        assert(size_at(d2, cur) == sc);
        lemma_free_cells(d, d2, cur + sc, e, c, t);
        assert forall|f: int| cell_in(d, cur, e, f) && f != c && i32_at(d, f) < 0 implies #[trigger] cell_in(
            d2,
            cur,
            e,
            f,
        ) by {
            if f != cur {
                assert(cell_in(d, cur + sc, e, f));
                assert(cell_in(d2, cur + sc, e, f));
            }
        }
    }
}

/// Freeing the allocated cell at `c` of a bin's walk keeps it tiled and
/// its other allocated cells.
proof fn lemma_free_in_bin(d: Seq<u8>, d2: Seq<u8>, cur: int, e: int, c: int, t: int)
    requires
        0x20 <= cur,
        e <= d.len(),
        d.len() <= 0x8000_0000,
        cells_tile(d, cur, e),
        cell_in(d, cur, e, c),
        i32_at(d, c) < 0,
        t == coalesced_size(d, c, size_at(d, c), e),
        d2 == put_u32(d, c, i32_bits(t as i32)),
    ensures
        cells_tile(d2, cur, e),
        forall|f: int|
            cell_in(d, cur, e, f) && f != c && i32_at(d, f) < 0 ==> #[trigger] cell_in(d2, cur, e, f),
{
    lemma_cell_in_bounds(d, cur, e, c);
    lemma_cells_suffix(d, cur, e, c);
    lemma_coalesce(d, c, size_at(d, c), e);
    assert(c + t <= e);
    lemma_free_cells(d, d2, cur, e, c, t);
}

/// A bin's walk whose cells' size fields lie apart from the one written
/// stays as it was.
proof fn lemma_bin_untouched(d: Seq<u8>, d2: Seq<u8>, cur: int, e: int, c: int, t: int)
    requires
        0 <= cur,
        e <= d.len(),
        cells_tile(d, cur, e),
        c + 4 <= cur || e <= c,
        0 <= c,
        c + 4 <= d.len(),
        d2 == put_u32(d, c, i32_bits(t as i32)),
    ensures
        cells_tile(d2, cur, e),
        forall|f: int| #[trigger] cell_in(d2, cur, e, f) == cell_in(d, cur, e, f),
{
    lemma_put_u32(d, c, i32_bits(t as i32));
    assert forall|f: int| cell_in(d, cur, e, f) implies #[trigger] i32_at(d2, f) == i32_at(d, f) by {
        lemma_cell_in_bounds(d, cur, e, f);
        assert(d2[f] == d[f] && d2[f + 1] == d[f + 1] && d2[f + 2] == d[f + 2] && d2[f + 3] == d[f + 3]);
    }
    lemma_cells_frame(d, d2, cur, e);
}

/// Freeing the allocated cell at `c` keeps the bins from `pos` tiled and
/// their allocated cells; `e` is the end of the bin holding `c`.
proof fn lemma_free_bins(d: Seq<u8>, d2: Seq<u8>, pos: int, end: int, c: int, e: int, t: int)
    requires
        0 <= pos,
        end <= d.len(),
        d.len() <= 0x8000_0000,
        bins_tile(d, pos, end),
        0 <= c,
        c + 4 <= d.len(),
        i32_at(d, c) < 0,
        tile_in(d, pos, end, c) || c + 4 <= pos,
        tile_in(d, pos, end, c) ==> enclosing_end(d, pos, end, c) == e,
        t == coalesced_size(d, c, size_at(d, c), e),
        d2 == put_u32(d, c, i32_bits(t as i32)),
    ensures
        bins_tile(d2, pos, end),
        forall|f: int|
            tile_in(d, pos, end, f) && f != c && i32_at(d, f) < 0 ==> #[trigger] tile_in(d2, pos, end, f),
    decreases end - pos,
{
    lemma_put_u32(d, c, i32_bits(t as i32));
    if pos < end {
        let hs = bin_size_at(d, pos);
        let inb = tile_in(d, pos, end, c);
        if inb {
            lemma_tile_in_bounds(d, pos, end, c);
        }
        assert(d2[pos] == d[pos] && d2[pos + 1] == d[pos + 1] && d2[pos + 2] == d[pos + 2] && d2[pos
            + 3] == d[pos + 3]);
        assert(d2[pos + 8] == d[pos + 8] && d2[pos + 9] == d[pos + 9] && d2[pos + 10] == d[pos + 10]
            && d2[pos + 11] == d[pos + 11]);
        assert(bin_size_at(d2, pos) == hs);
        let cin = inb && cell_in(d, pos + 0x20, pos + hs, c);
        if cin {
            lemma_cell_in_bounds(d, pos + 0x20, pos + hs, c);
            assert(enclosing_end(d, pos, end, c) == bin_end(d, pos, hs));
            assert(e == pos + hs);
            lemma_free_in_bin(d, d2, pos + 0x20, pos + hs, c, t);
            if tile_in(d, pos + hs, end, c) {
                lemma_tile_in_bounds(d, pos + hs, end, c);
            }
        } else {
            if inb {
                lemma_tile_in_bounds(d, pos + hs, end, c);
            }
            lemma_bin_untouched(d, d2, pos + 0x20, pos + hs, c, t);
        }
        if inb && !cin {
            assert(tile_in(d, pos + hs, end, c));
            assert(enclosing_end(d, pos, end, c) == enclosing_end(d, pos + hs, end, c));
        }
        lemma_free_bins(d, d2, pos + hs, end, c, e, t);
        assert forall|f: int|
            tile_in(d, pos, end, f) && f != c && i32_at(d, f) < 0 implies #[trigger] tile_in(d2, pos, end, f) by {
            if cell_in(d, pos + 0x20, pos + hs, f) {
                assert(cell_in(d2, pos + 0x20, pos + hs, f));
            } else {
                assert(tile_in(d, pos + hs, end, f));
                assert(tile_in(d2, pos + hs, end, f));
            }
        }
    }
}

/// Freeing an allocated cell of a tiled hive under 2 GiB keeps it tiled
/// and keeps every other allocated cell with its size.
pub proof fn lemma_free_tiles(d: Seq<u8>, hbs: u32, c: int)
    requires
        tiled(d, hbs),
        used_tile(d, c),
        d.len() <= 0x8000_0000,
    ensures
        ({
            let e = enclosing_end(d, 0x1000, 0x1000 + hbs, c);
            let d2 = put_u32(d, c, i32_bits(coalesced_size(d, c, cell_size(i32_at(d, c)), e) as i32));
            &&& tiled(d2, hbs)
            &&& forall|f: int|
                used_tile(d, f) && f != c ==> #[trigger] used_tile(d2, f) && size_at(d2, f) == size_at(d, f)
        }),
{
    let e = enclosing_end(d, 0x1000, 0x1000 + hbs, c);
    let t = coalesced_size(d, c, cell_size(i32_at(d, c)), e);
    let d2 = put_u32(d, c, i32_bits(t as i32));
    lemma_tile_bounds(d, c);
    lemma_free_bins(d, d2, 0x1000, d.len() as int, c, e, t);
    lemma_put_u32(d, c, i32_bits(t as i32));
    assert forall|f: int| used_tile(d, f) && f != c implies #[trigger] used_tile(d2, f) && size_at(d2, f)
        == size_at(d, f) by {
        lemma_tiles_apart_at(d, f, c);
        assert(d2[f] == d[f] && d2[f + 1] == d[f + 1] && d2[f + 2] == d[f + 2] && d2[f + 3] == d[f + 3]);
    }
}

} // verus!
