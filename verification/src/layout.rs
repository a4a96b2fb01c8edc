//! On-flash layout: sector headers, record headers, alignment.
//!
//! Every multi-byte integer on flash is little-endian. A sector starts with a
//! 16-byte sector header, followed by a stream of records; each record is a
//! 20-byte header, its payload, and up to 3 bytes of padding so the next
//! record starts on a 4-byte boundary.

use vstd::prelude::*;

verus! {

/// Marker of a programmed sector header.
pub const SECTOR_MAGIC: u32 = 0xEE5E_C007;

/// Marker of a programmed record header.
pub const REC_MAGIC: u32 = 0xEE4C_0A11;

/// Size in bytes of a serialized sector header.
pub const SECTOR_HDR_SIZE: usize = 16;

/// Size in bytes of a serialized record header.
pub const REC_HDR_SIZE: usize = 20;

/// `x` rounded up to the next multiple of 4.
pub open spec fn pad4_spec(x: int) -> int {
    ((x + 3) / 4) * 4
}

/// Rounding up to a multiple of 4 adds at most 3 and lands on a multiple of 4.
pub proof fn lemma_pad4(x: int)
    requires
        0 <= x,
    ensures
        x <= pad4_spec(x) <= x + 3,
        pad4_spec(x) % 4 == 0,
{
    assert(x <= ((x + 3) / 4) * 4 <= x + 3) by (nonlinear_arith);
    assert((((x + 3) / 4) * 4) % 4 == 0) by (nonlinear_arith);
}

/// Rounding up to a multiple of 4 never passes a 4-aligned bound.
pub proof fn lemma_pad4_le(x: int, y: int)
    requires
        0 <= x <= y,
        y % 4 == 0,
    ensures
        pad4_spec(x) <= y,
{
    assert(((x + 3) / 4) * 4 <= y) by (nonlinear_arith)
        requires
            0 <= x <= y,
            y % 4 == 0,
    ;
}

/// Rounds `x` up to the next multiple of 4.
pub fn pad4(x: usize) -> (r: usize)
    requires
        x <= usize::MAX - 3,
    ensures
        r == pad4_spec(x as int),
{
    (x + 3) / 4 * 4
}

/// The little-endian value of the four bytes `s[0..4]`.
pub open spec fn le32_val(s: Seq<u8>) -> u32
    recommends
        s.len() >= 4,
{
    (s[0] as u32) | ((s[1] as u32) << 8) | ((s[2] as u32) << 16) | ((s[3] as u32) << 24)
}

/// The four little-endian bytes of `x`.
pub open spec fn le32_bytes(x: u32) -> Seq<u8> {
    seq![
        (x & 0xFF) as u8,
        ((x >> 8) & 0xFF) as u8,
        ((x >> 16) & 0xFF) as u8,
        ((x >> 24) & 0xFF) as u8,
    ]
}

/// Serializing a 32-bit value and reading it back yields the value.
pub proof fn lemma_le32_roundtrip(x: u32)
    ensures
        le32_val(le32_bytes(x)) == x,
{
    assert(((x & 0xFF) as u8 as u32) | ((((x >> 8) & 0xFF) as u8 as u32) << 8)
        | ((((x >> 16) & 0xFF) as u8 as u32) << 16) | ((((x >> 24) & 0xFF) as u8 as u32) << 24)
        == x) by (bit_vector);
}

/// Four erased (0xFF) bytes read back as the all-ones word, which no valid
/// magic value equals.
pub proof fn lemma_le32_blank(s: Seq<u8>)
    requires
        s.len() >= 4,
        s[0] == 0xFFu8,
        s[1] == 0xFFu8,
        s[2] == 0xFFu8,
        s[3] == 0xFFu8,
    ensures
        le32_val(s) == 0xFFFF_FFFFu32,
{
    assert((0xFFu8 as u32) | ((0xFFu8 as u32) << 8) | ((0xFFu8 as u32) << 16)
        | ((0xFFu8 as u32) << 24) == 0xFFFF_FFFFu32) by (bit_vector);
}

/// Reads the little-endian 32-bit value stored at `off` in `buf`.
pub fn read_le32(buf: &Vec<u8>, off: usize) -> (r: u32)
    requires
        off + 4 <= buf@.len(),
    ensures
        r == le32_val(buf@.subrange(off as int, off as int + 4)),
{
    let n = buf.len();
    proof {
        assert(off as int + 4 <= n as int);
    }
    let r = (buf[off] as u32) | ((buf[off + 1] as u32) << 8) | ((buf[off + 2] as u32) << 16)
        | ((buf[off + 3] as u32) << 24);
    proof {
        let s = buf@.subrange(off as int, off as int + 4);
        assert(s[0] == buf@[off as int]);
        assert(s[1] == buf@[off as int + 1]);
        assert(s[2] == buf@[off as int + 2]);
        assert(s[3] == buf@[off as int + 3]);
    }
    r
}

/// Appends the four little-endian bytes of `x` to `out`.
pub fn push_le32(out: &mut Vec<u8>, x: u32)
    ensures
        final(out)@ == old(out)@ + le32_bytes(x),
{
    proof {
        assert(x & 0xFF < 256 && (x >> 8) & 0xFF < 256 && (x >> 16) & 0xFF < 256 && (x >> 24)
            & 0xFF < 256) by (bit_vector);
    }
    out.push((x & 0xFF) as u8);
    out.push(((x >> 8) & 0xFF) as u8);
    out.push(((x >> 16) & 0xFF) as u8);
    out.push(((x >> 24) & 0xFF) as u8);
    proof {
        assert(final(out)@ =~= old(out)@ + le32_bytes(x));
    }
}

/// A sector header: magic marker, sector generation, two reserved words.
#[derive(Clone, Copy, Debug, PartialEq, Eq, Structural)]
pub struct SectorHeader {
    pub magic: u32,
    pub seq: u32,
    pub reserved0: u32,
    pub reserved1: u32,
}

/// A record header: magic marker, generation, logical offset, payload length,
/// and the CRC-32 over the header (with this field zeroed) plus the payload.
#[derive(Clone, Copy, Debug, PartialEq, Eq, Structural)]
pub struct RecHeader {
    pub magic: u32,
    pub seq: u32,
    pub addr: u32,
    pub len: u32,
    pub crc32: u32,
}

/// The 16 bytes of a serialized sector header; the reserved words are
/// always written as zero.
pub open spec fn spec_sector_header_bytes(h: SectorHeader) -> Seq<u8> {
    le32_bytes(h.magic) + le32_bytes(h.seq) + le32_bytes(0u32) + le32_bytes(0u32)
}

/// The 20 bytes of a serialized record header.
pub open spec fn spec_rec_header_bytes(h: RecHeader) -> Seq<u8> {
    le32_bytes(h.magic) + le32_bytes(h.seq) + le32_bytes(h.addr) + le32_bytes(h.len) + le32_bytes(
        h.crc32,
    )
}

/// How a sector header buffer parses: valid iff the magic matches and the
/// sequence word is not the erased value.
pub open spec fn spec_parse_sector_header(s: Seq<u8>) -> Option<SectorHeader> {
    if s.len() < SECTOR_HDR_SIZE {
        None
    } else {
        let magic = le32_val(s.subrange(0, 4));
        let seq = le32_val(s.subrange(4, 8));
        if magic == SECTOR_MAGIC && seq != 0xFFFF_FFFFu32 {
            Some(SectorHeader { magic, seq, reserved0: 0, reserved1: 0 })
        } else {
            None
        }
    }
}

/// How a record header buffer parses: an all-erased or all-zero magic means
/// "no record here"; any other magic parses structurally and is checked
/// further by the caller.
pub open spec fn spec_parse_rec_header(s: Seq<u8>) -> Option<RecHeader> {
    if s.len() < REC_HDR_SIZE {
        None
    } else {
        let magic = le32_val(s.subrange(0, 4));
        if magic == 0xFFFF_FFFFu32 || magic == 0u32 {
            None
        } else {
            Some(
                RecHeader {
                    magic,
                    seq: le32_val(s.subrange(4, 8)),
                    addr: le32_val(s.subrange(8, 12)),
                    len: le32_val(s.subrange(12, 16)),
                    crc32: le32_val(s.subrange(16, 20)),
                },
            )
        }
    }
}

/// Parses a sector header buffer.
pub fn parse_sector_header(buf: &Vec<u8>) -> (r: Option<SectorHeader>)
    ensures
        r == spec_parse_sector_header(buf@),
{
    if buf.len() < SECTOR_HDR_SIZE {
        return None;
    }
    let magic = read_le32(buf, 0);
    let seq = read_le32(buf, 4);
    if magic == SECTOR_MAGIC && seq != 0xFFFF_FFFF {
        Some(SectorHeader { magic, seq, reserved0: 0, reserved1: 0 })
    } else {
        None
    }
}

/// Serializes a sector header into its 16 bytes.
pub fn write_sector_header_bytes(h: &SectorHeader) -> (out: Vec<u8>)
    ensures
        out@ == spec_sector_header_bytes(*h),
        out@.len() == SECTOR_HDR_SIZE,
{
    let mut out: Vec<u8> = Vec::new();
    push_le32(&mut out, h.magic);
    push_le32(&mut out, h.seq);
    push_le32(&mut out, 0);
    push_le32(&mut out, 0);
    proof {
        assert(out@ =~= spec_sector_header_bytes(*h));
    }
    out
}

/// Parses a record header buffer.
pub fn parse_rec_header(buf: &Vec<u8>) -> (r: Option<RecHeader>)
    ensures
        r == spec_parse_rec_header(buf@),
{
    if buf.len() < REC_HDR_SIZE {
        return None;
    }
    let magic = read_le32(buf, 0);
    if magic == 0xFFFF_FFFF || magic == 0 {
        return None;
    }
    let seq = read_le32(buf, 4);
    let addr = read_le32(buf, 8);
    let len = read_le32(buf, 12);
    let crc32 = read_le32(buf, 16);
    Some(RecHeader { magic, seq, addr, len, crc32 })
}

/// Serializes a record header into its 20 bytes.
pub fn write_rec_header_bytes(h: &RecHeader) -> (out: Vec<u8>)
    ensures
        out@ == spec_rec_header_bytes(*h),
        out@.len() == REC_HDR_SIZE,
{
    let mut out: Vec<u8> = Vec::new();
    push_le32(&mut out, h.magic);
    push_le32(&mut out, h.seq);
    push_le32(&mut out, h.addr);
    push_le32(&mut out, h.len);
    push_le32(&mut out, h.crc32);
    proof {
        assert(out@ =~= spec_rec_header_bytes(*h));
    }
    out
}

/// A serialized sector header parses back to itself whenever its magic and
/// sequence mark it valid (the reserved words are written as zero).
pub proof fn lemma_sector_header_roundtrip(h: SectorHeader)
    requires
        h.magic == SECTOR_MAGIC,
        h.seq != 0xFFFF_FFFFu32,
    ensures
        spec_parse_sector_header(spec_sector_header_bytes(h)) == Some(
            SectorHeader { magic: h.magic, seq: h.seq, reserved0: 0, reserved1: 0 },
        ),
{
    let s = spec_sector_header_bytes(h);
    assert(s.subrange(0, 4) =~= le32_bytes(h.magic));
    assert(s.subrange(4, 8) =~= le32_bytes(h.seq));
    lemma_le32_roundtrip(h.magic);
    lemma_le32_roundtrip(h.seq);
}

/// A serialized record header parses back to itself whenever its magic is
/// neither the erased word nor zero.
pub proof fn lemma_rec_header_roundtrip(h: RecHeader)
    requires
        h.magic != 0xFFFF_FFFFu32,
        h.magic != 0u32,
    ensures
        spec_parse_rec_header(spec_rec_header_bytes(h)) == Some(h),
{
    let s = spec_rec_header_bytes(h);
    assert(s.subrange(0, 4) =~= le32_bytes(h.magic));
    assert(s.subrange(4, 8) =~= le32_bytes(h.seq));
    assert(s.subrange(8, 12) =~= le32_bytes(h.addr));
    assert(s.subrange(12, 16) =~= le32_bytes(h.len));
    assert(s.subrange(16, 20) =~= le32_bytes(h.crc32));
    lemma_le32_roundtrip(h.magic);
    lemma_le32_roundtrip(h.seq);
    lemma_le32_roundtrip(h.addr);
    lemma_le32_roundtrip(h.len);
    lemma_le32_roundtrip(h.crc32);
}

/// A buffer whose first four bytes are erased (0xFF) holds no valid sector
/// header.
pub proof fn lemma_blank_sector_header(s: Seq<u8>)
    requires
        s.len() >= 4,
        s[0] == 0xFFu8,
        s[1] == 0xFFu8,
        s[2] == 0xFFu8,
        s[3] == 0xFFu8,
    ensures
        spec_parse_sector_header(s) is None,
{
    if s.len() >= SECTOR_HDR_SIZE {
        let t = s.subrange(0, 4);
        lemma_le32_blank(t);
    }
}

/// A buffer whose first four bytes are erased (0xFF) holds no record.
pub proof fn lemma_blank_rec_header(s: Seq<u8>)
    requires
        s.len() >= 4,
        s[0] == 0xFFu8,
        s[1] == 0xFFu8,
        s[2] == 0xFFu8,
        s[3] == 0xFFu8,
    ensures
        spec_parse_rec_header(s) is None,
{
    if s.len() >= REC_HDR_SIZE {
        let t = s.subrange(0, 4);
        lemma_le32_blank(t);
    }
}

} // verus!
