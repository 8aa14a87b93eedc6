//! The base block: the 4096-byte header in front of the hive bins.

use vstd::prelude::*;

use crate::bytes::{lemma_put_u32, put_u32, rd, u32_at, wr};
use crate::error::{RegError, Result};

verus! {

/// Size of the REGF base block, which is also the offset of the hive bins.
pub const REGF_HEADER_SIZE: usize = 0x1000;

const OFF_PRIMARY_SEQ: usize = 0x04;
const OFF_SECONDARY_SEQ: usize = 0x08;
const OFF_MAJOR_VERSION: usize = 0x14;
const OFF_MINOR_VERSION: usize = 0x18;
const OFF_ROOT_CELL: usize = 0x24;
const OFF_HIVE_BINS_SIZE: usize = 0x28;
const OFF_CHECKSUM: usize = 0x1FC;

/// The base block of a hive: the 4096-byte header preceding the hive bins.
#[derive(Debug, Clone, Copy)]
pub struct Header {
    pub primary_sequence: u32,
    pub secondary_sequence: u32,
    pub major_version: u32,
    pub minor_version: u32,
    pub root_cell_offset: u32,
    pub hive_bins_size: u32,
}

/// XOR of the first `n` 32-bit words of `d`.
pub open spec fn xor_words(d: Seq<u8>, n: nat) -> u32
    decreases n,
{
    if n == 0 {
        0
    } else {
        xor_words(d, (n - 1) as nat) ^ u32_at(d, 4 * (n - 1))
    }
}

/// The REGF checksum: XOR of the first 127 words (bytes 0..508), with 0 mapped
/// to 1 and 0xFFFFFFFF to 0xFFFFFFFE.
pub open spec fn header_checksum(d: Seq<u8>) -> u32 {
    let x = xor_words(d, 127);
    if x == 0 {
        1
    } else if x == 0xFFFF_FFFF {
        0xFFFF_FFFE
    } else {
        x
    }
}

/// The buffer starts with the signature "regf".
pub open spec fn has_regf_signature(d: Seq<u8>) -> bool {
    &&& d.len() >= 4
    &&& d[0] == 0x72u8
    &&& d[1] == 0x65u8
    &&& d[2] == 0x67u8
    &&& d[3] == 0x66u8
}

/// The header fields as stored in the base block.
pub open spec fn header_fields(d: Seq<u8>) -> Header {
    Header {
        primary_sequence: u32_at(d, 0x04),
        secondary_sequence: u32_at(d, 0x08),
        major_version: u32_at(d, 0x14),
        minor_version: u32_at(d, 0x18),
        root_cell_offset: u32_at(d, 0x24),
        hive_bins_size: u32_at(d, 0x28),
    }
}

/// What parsing the base block of `d` yields.
pub open spec fn parse_header(d: Seq<u8>) -> Result<Header> {
    if d.len() < 0x1000 {
        Err(RegError::Truncated { offset: 0x1000 })
    } else if !has_regf_signature(d) {
        Err(RegError::BadSignature)
    } else if header_checksum(d) != u32_at(d, 0x1FC) {
        Err(RegError::BadChecksum { expected: header_checksum(d), found: u32_at(d, 0x1FC) })
    } else {
        Ok(header_fields(d))
    }
}

/// The bytes after a transaction is sealed: both sequence numbers set to
/// `seq`, the hive bins size stored, and the checksum recomputed.
pub open spec fn sealed_header(d: Seq<u8>, seq: u32, hive_bins_size: u32) -> Seq<u8> {
    let d1 = put_u32(put_u32(put_u32(d, 0x04, seq), 0x08, seq), 0x28, hive_bins_size);
    put_u32(d1, 0x1FC, header_checksum(d1))
}

impl Header {
    /// Parses and checks the base block.
    pub fn parse(data: &[u8]) -> (r: Result<Self>)
        ensures
            r == parse_header(data@),
    {
        if data.len() < REGF_HEADER_SIZE {
            return Err(RegError::Truncated { offset: REGF_HEADER_SIZE });
        }
        if !(data[0] == 0x72u8 && data[1] == 0x65u8 && data[2] == 0x67u8 && data[3] == 0x66u8) {
            return Err(RegError::BadSignature);
        }
        let expected = Self::checksum(data);
        let found = rd(data, OFF_CHECKSUM);
        if expected != found {
            return Err(RegError::BadChecksum { expected, found });
        }
        Ok(Self::parse_unchecked(data))
    }

    /// Reads the header fields without any check.
    pub(crate) fn parse_unchecked(data: &[u8]) -> (h: Self)
        requires
            data@.len() >= 0x2C,
        ensures
            h == header_fields(data@),
    {
        Header {
            primary_sequence: rd(data, OFF_PRIMARY_SEQ),
            secondary_sequence: rd(data, OFF_SECONDARY_SEQ),
            major_version: rd(data, OFF_MAJOR_VERSION),
            minor_version: rd(data, OFF_MINOR_VERSION),
            root_cell_offset: rd(data, OFF_ROOT_CELL),
            hive_bins_size: rd(data, OFF_HIVE_BINS_SIZE),
        }
    }

    /// A hive is "dirty" when its two sequence numbers differ: it was
    /// interrupted during a write and a transaction log remains to be
    /// replayed. Writing to it without reconciliation would corrupt it.
    pub fn is_dirty(&self) -> (r: bool)
        ensures
            r == (self.primary_sequence != self.secondary_sequence),
    {
        self.primary_sequence != self.secondary_sequence
    }

    /// REGF checksum: XOR of the first 127 32-bit words (bytes 0..508).
    pub fn checksum(data: &[u8]) -> (r: u32)
        requires
            data@.len() >= 508,
        ensures
            r == header_checksum(data@),
    {
        let mut sum: u32 = 0;
        let mut i: usize = 0;
        while i < 127
            invariant
                i <= 127,
                data@.len() >= 508,
                sum == xor_words(data@, i as nat),
            decreases 127 - i,
        {
            sum = sum ^ rd(data, i * 4);
            i = i + 1;
        }
        if sum == 0 {
            1
        } else if sum == 0xFFFF_FFFF {
            0xFFFF_FFFE
        } else {
            sum
        }
    }

    /// Rewrites the header fields that may have changed (hive bins size,
    /// sequences), advances the sequence number to mark a new consistent
    /// transaction, then recomputes the checksum. Call after any
    /// modification, before serialization.
    pub fn finalize(&mut self, data: &mut [u8])
        requires
            old(data)@.len() >= 0x200,
        ensures
            final(self).primary_sequence == vstd::wrapping::u32_specs::wrapping_add(
                old(self).primary_sequence,
                1,
            ),
            final(self).secondary_sequence == final(self).primary_sequence,
            final(self).major_version == old(self).major_version,
            final(self).minor_version == old(self).minor_version,
            final(self).root_cell_offset == old(self).root_cell_offset,
            final(self).hive_bins_size == old(self).hive_bins_size,
            final(data)@ == sealed_header(
                old(data)@,
                final(self).primary_sequence,
                old(self).hive_bins_size,
            ),
    {
        let next = self.primary_sequence.wrapping_add(1);
        self.primary_sequence = next;
        self.secondary_sequence = next;
        wr(data, OFF_PRIMARY_SEQ, next);
        wr(data, OFF_SECONDARY_SEQ, next);
        wr(data, OFF_HIVE_BINS_SIZE, self.hive_bins_size);
        let sum = Self::checksum(data);
        wr(data, OFF_CHECKSUM, sum);
    }
}

/// The checksum reads only bytes 0..508.
proof fn lemma_xor_words_prefix(a: Seq<u8>, b: Seq<u8>, n: nat)
    requires
        4 * n <= a.len(),
        4 * n <= b.len(),
        forall|i: int| 0 <= i < 4 * n ==> a[i] == b[i],
    ensures
        xor_words(a, n) == xor_words(b, n),
    decreases n,
{
    if n > 0 {
        lemma_xor_words_prefix(a, b, (n - 1) as nat);
        let k = 4 * (n - 1);
        assert(a[k] == b[k] && a[k + 1] == b[k + 1] && a[k + 2] == b[k + 2] && a[k + 3] == b[k
            + 3]);
    }
}

/// A sealed base block parses: its checksum holds, it is clean, and it holds
/// the sequence number and hive bins size it was sealed with.
pub proof fn lemma_sealed_header_parses(d: Seq<u8>, seq: u32, hive_bins_size: u32)
    requires
        d.len() >= 0x1000,
        has_regf_signature(d),
    ensures
        parse_header(sealed_header(d, seq, hive_bins_size)) == Ok::<Header, RegError>(
            Header {
                primary_sequence: seq,
                secondary_sequence: seq,
                major_version: u32_at(d, 0x14),
                minor_version: u32_at(d, 0x18),
                root_cell_offset: u32_at(d, 0x24),
                hive_bins_size,
            },
        ),
        sealed_header(d, seq, hive_bins_size).len() == d.len(),
        forall|i: int|
            0x200 <= i < d.len() ==> #[trigger] sealed_header(d, seq, hive_bins_size)[i] == d[i],
{
    let d0 = put_u32(d, 0x04, seq);
    lemma_put_u32(d, 0x04, seq);
    let d00 = put_u32(d0, 0x08, seq);
    lemma_put_u32(d0, 0x08, seq);
    let d1 = put_u32(d00, 0x28, hive_bins_size);
    lemma_put_u32(d00, 0x28, hive_bins_size);
    let c = header_checksum(d1);
    let d2 = put_u32(d1, 0x1FC, c);
    lemma_put_u32(d1, 0x1FC, c);
    lemma_xor_words_prefix(d1, d2, 127);
    assert(header_checksum(d2) == c);
    assert(u32_at(d2, 0x04) == u32_at(d1, 0x04));
    assert(u32_at(d2, 0x04) == u32_at(d00, 0x04));
    assert(u32_at(d00, 0x04) == u32_at(d0, 0x04));
    assert(u32_at(d2, 0x08) == u32_at(d00, 0x08));
    assert(u32_at(d2, 0x14) == u32_at(d, 0x14));
    assert(u32_at(d2, 0x18) == u32_at(d, 0x18));
    assert(u32_at(d2, 0x24) == u32_at(d, 0x24));
    assert(u32_at(d2, 0x28) == hive_bins_size);
    assert(has_regf_signature(d2));
}

} // verus!
