//! The EEPROM emulation engine.
//!
//! Two flash sectors back a logical byte array of `size` bytes. One sector is
//! active and holds a log: a sector header followed by records, each a header,
//! payload and alignment padding. Reads are served from an in-memory shadow of
//! the logical array; writes append a CRC-protected record to the active
//! sector and update the shadow. When the active sector cannot fit the next
//! record, compaction erases the other sector and writes a fresh header with a
//! higher sequence number plus one snapshot record holding the whole shadow;
//! the higher sequence number promotes that sector at the next open.

use vstd::prelude::*;

use crate::crc::{crc32, crc32_spec};
use crate::flash::Flash;
use crate::layout::{
    lemma_blank_rec_header, lemma_pad4, pad4_spec, spec_parse_rec_header,
    spec_parse_sector_header, spec_rec_header_bytes, spec_sector_header_bytes, parse_rec_header,
    parse_sector_header, write_rec_header_bytes, write_sector_header_bytes, RecHeader,
    SectorHeader, REC_HDR_SIZE, REC_MAGIC, SECTOR_HDR_SIZE, SECTOR_MAGIC,
};
use crate::EepromError;

verus! {

/// The bytes of `s` with `data` written at offset `addr`.
pub open spec fn spec_overwrite(s: Seq<u8>, addr: int, data: Seq<u8>) -> Seq<u8> {
    Seq::new(
        s.len(),
        |i: int|
            if addr <= i < addr + data.len() {
                data[i - addr]
            } else {
                s[i]
            },
    )
}

/// The logical array a never-written device presents: `size` erased bytes.
pub open spec fn spec_blank_state(size: nat) -> Seq<u8> {
    Seq::new(size, |i: int| 0xFFu8)
}

/// The number of flash bytes a record with a `len`-byte payload occupies:
/// header plus payload, rounded up to a 4-byte boundary.
pub open spec fn spec_need(len: int) -> int {
    pad4_spec(REC_HDR_SIZE + len)
}

/// The header and payload bytes of a record carrying `data` at logical
/// offset `addr` in generation `seq`: the header's checksum covers the
/// zeroed-checksum header followed by the payload.
pub open spec fn spec_record_bytes(seq: u32, addr: u32, data: Seq<u8>) -> Seq<u8> {
    let h0 = RecHeader { magic: REC_MAGIC, seq, addr, len: data.len() as u32, crc32: 0 };
    let c = crc32_spec(spec_rec_header_bytes(h0) + data);
    spec_rec_header_bytes(RecHeader { magic: REC_MAGIC, seq, addr, len: data.len() as u32, crc32: c })
        + data
}

/// How the sector header region starting at `at` in device contents `mem`
/// parses.
pub open spec fn spec_sector_hdr_at(mem: Seq<u8>, at: int) -> Option<SectorHeader> {
    spec_parse_sector_header(mem.subrange(at, at + SECTOR_HDR_SIZE as int))
}

/// Replay of a sector's record log, scanning the sector `mem[ab .. ab+sz)`
/// from offset `off` with shadow `st`: records are applied in order until the
/// sector end, a slot too short for a header, a blank or malformed header, a
/// zero length, an out-of-range record, a payload that would cross the sector
/// end, or a checksum mismatch; the returned offset is the first byte not
/// consumed by an applied record.
pub open spec fn spec_replay_from(
    mem: Seq<u8>,
    ab: int,
    sz: int,
    size: int,
    off: int,
    st: Seq<u8>,
) -> (Seq<u8>, int)
    decreases sz - off,
{
    if off >= sz || sz - off < REC_HDR_SIZE {
        (st, off)
    } else {
        match spec_parse_rec_header(mem.subrange(ab + off, ab + off + REC_HDR_SIZE as int)) {
            None => (st, off),
            Some(h) => {
                if h.magic != REC_MAGIC || h.len == 0 || h.addr as int + h.len as int > size
                    || REC_HDR_SIZE + h.len as int > sz - off {
                    (st, off)
                } else {
                    let payload = mem.subrange(
                        ab + off + REC_HDR_SIZE as int,
                        ab + off + REC_HDR_SIZE as int + h.len as int,
                    );
                    let h0 = RecHeader {
                        magic: h.magic,
                        seq: h.seq,
                        addr: h.addr,
                        len: h.len,
                        crc32: 0,
                    };
                    if crc32_spec(spec_rec_header_bytes(h0) + payload) != h.crc32 {
                        (st, off)
                    } else {
                        let st2 = spec_overwrite(st, h.addr as int, payload);
                        let off2 = off + spec_need(h.len as int);
                        spec_replay_from(
                            mem,
                            ab,
                            sz,
                            size,
                            if off2 > sz {
                                sz
                            } else {
                                off2
                            },
                            st2,
                        )
                    }
                }
            },
        }
    }
}

/// The shadow and write pointer that opening recovers from the sector at
/// `ab`: replay of its whole log into an erased shadow, starting right after
/// the sector header.
pub open spec fn spec_replay(mem: Seq<u8>, ab: int, sz: int, size: int) -> (Seq<u8>, int) {
    spec_replay_from(mem, ab, sz, size, SECTOR_HDR_SIZE as int, spec_blank_state(size as nat))
}

/// Whether both sector header regions of `mem` (for sectors of `sz` bytes at
/// `base` and `base + sz`) hold no valid sector header, so `open` formats.
pub open spec fn spec_blank_headers(mem: Seq<u8>, base: u32, sz: u32) -> bool {
    &&& spec_sector_hdr_at(mem, base as int) is None
    &&& spec_sector_hdr_at(mem, base as int + sz as int) is None
}

/// How `open` selects the active sector and sequence number from the two
/// sector header regions of `mem`: a valid header with the greater sequence
/// number wins, ties prefer the first sector, a single valid header wins, and
/// a blank device formats to the first sector with sequence number 1.
pub open spec fn spec_selected_active(
    mem: Seq<u8>,
    base: u32,
    sz: u32,
    active: u32,
    seq: u32,
) -> bool {
    let pa = spec_sector_hdr_at(mem, base as int);
    let pb = spec_sector_hdr_at(mem, base as int + sz as int);
    match (pa, pb) {
        (Some(a), Some(b)) => if a.seq >= b.seq {
            active == base && seq == a.seq
        } else {
            active as int == base as int + sz as int && seq == b.seq
        },
        (Some(a), None) => active == base && seq == a.seq,
        (None, Some(b)) => active as int == base as int + sz as int && seq == b.seq,
        (None, None) => active == base && seq == 1,
    }
}

/// Whether `open` accepts this configuration: non-zero sizes, room for a
/// sector header in each sector, a logical array two sectors can hold, and a
/// device whose erase unit matches and whose extent covers both sectors
/// starting sector-aligned at `base`.
pub open spec fn spec_valid_config<F: Flash>(
    flash: F,
    base: u32,
    sector_size: u32,
    size: u32,
) -> bool {
    &&& 0 < size
    &&& SECTOR_HDR_SIZE as int <= sector_size as int
    &&& sector_size as int % 4 == 0
    &&& size as int <= 2 * sector_size as int
    &&& flash.erase_size() == sector_size as nat
    &&& base as int % sector_size as int == 0
    &&& base as int + 2 * sector_size as int <= flash.contents().len()
}

/// Rounds `x` up to the next multiple of 4, in 64-bit arithmetic.
fn pad4_u64(x: u64) -> (r: u64)
    requires
        x <= u64::MAX - 3,
    ensures
        r == pad4_spec(x as int),
{
    (x + 3) / 4 * 4
}

/// The EEPROM emulation engine over a flash device `F`.
///
/// Its view (`self@`) is the logical byte array.
pub struct Eeprom<F: Flash> {
    flash: F,
    base: u32,
    sector_size: u32,
    size: u32,
    active_base: u32,
    scratch_base: u32,
    seq: u32,
    state: Vec<u8>,
    wptr: u32,
    tail_clean: bool,
}

impl<F: Flash> View for Eeprom<F> {
    type V = Seq<u8>;

    closed spec fn view(&self) -> Seq<u8> {
        self.state@
    }
}

impl<F: Flash> Eeprom<F> {
    /// Well-formedness: the device handle is valid, the two sectors lie
    /// inside the device starting sector-aligned at `base`, the shadow has
    /// the logical length, the write pointer stays inside the active sector
    /// past its header, and the sequence number is not the erased word.
    pub closed spec fn wf(&self) -> bool {
        &&& self.flash.inv()
        &&& self.flash.erase_size() == self.sector_size as nat
        &&& 0 < self.size
        &&& SECTOR_HDR_SIZE as int <= self.sector_size as int
        &&& self.size as int <= 2 * self.sector_size as int
        &&& self.state@.len() == self.size as nat
        &&& self.base as int % self.sector_size as int == 0
        &&& self.base as int + 2 * self.sector_size as int <= self.flash.contents().len()
        &&& self.base as int + 2 * self.sector_size as int <= 0xFFFF_FFFF
        &&& {
            ||| (self.active_base == self.base && self.scratch_base as int == self.base as int
                + self.sector_size as int)
            ||| (self.active_base as int == self.base as int + self.sector_size as int
                && self.scratch_base == self.base)
        }
        &&& SECTOR_HDR_SIZE as int <= self.wptr as int <= self.sector_size as int
        &&& self.sector_size as int % 4 == 0
        &&& self.wptr as int % 4 == 0
        &&& self.seq < 0xFFFF_FFFFu32
        &&& self.hdrs_wf()
        &&& self.tail_wf()
        &&& self.replay_wf()
    }

    /// The recovery invariant behind persistence: replaying the active
    /// sector's log recovers exactly the current shadow and write pointer,
    /// so a reopen rebuilds this very state.
    pub closed spec fn replay_wf(&self) -> bool {
        &&& self.state@ == spec_replay(
            self.flash.contents(),
            self.active_base as int,
            self.sector_size as int,
            self.size as int,
        ).0
        &&& self.wptr as int == spec_replay(
            self.flash.contents(),
            self.active_base as int,
            self.sector_size as int,
            self.size as int,
        ).1
    }

    /// When the tail is recorded as clean, every byte of the active sector
    /// from the write pointer to the sector end really is erased, so an
    /// append programs each record bit onto erased cells.
    pub closed spec fn tail_wf(&self) -> bool {
        self.tail_clean ==> (forall|j: int|
            self.active_base as int + self.wptr as int <= j < self.active_base as int
                + self.sector_size as int ==> self.flash.contents()[j] == 0xFFu8)
    }

    /// The on-flash header invariant behind promotion: the active sector's
    /// header parses with the engine's sequence number, and the scratch
    /// sector's header region is blank or stale, so a reopen selects the
    /// active sector again.
    pub closed spec fn hdrs_wf(&self) -> bool {
        &&& spec_sector_hdr_at(self.flash.contents(), self.active_base as int) == Some(
            SectorHeader { magic: SECTOR_MAGIC, seq: self.seq, reserved0: 0, reserved1: 0 },
        )
        &&& match spec_sector_hdr_at(self.flash.contents(), self.scratch_base as int) {
            Some(h) => h.seq < self.seq || (h.seq == self.seq && self.active_base == self.base),
            None => true,
        }
    }

    /// The logical size: the length of the byte array callers see.
    pub closed spec fn spec_size(&self) -> u32 {
        self.size
    }

    /// The sector size the engine was opened with.
    pub closed spec fn spec_sector_size(&self) -> u32 {
        self.sector_size
    }

    /// The flash address of the first of the two sectors.
    pub closed spec fn spec_base(&self) -> u32 {
        self.base
    }

    /// The flash address of the active sector.
    pub closed spec fn spec_active_base(&self) -> u32 {
        self.active_base
    }

    /// The generation of the active sector.
    pub closed spec fn spec_seq(&self) -> u32 {
        self.seq
    }

    /// The offset in the active sector where the next record would start.
    pub closed spec fn spec_wptr(&self) -> u32 {
        self.wptr
    }

    /// Whether the active sector's bytes past the write pointer were all
    /// erased when last inspected; when not, the next append compacts first
    /// so it never programs over leftover bits.
    pub closed spec fn spec_tail_clean(&self) -> bool {
        self.tail_clean
    }

    /// Whether a record with a `len`-byte payload fits at the write pointer.
    pub open spec fn spec_can_append(&self, len: int) -> bool {
        self.spec_tail_clean() && spec_need(len) <= self.spec_sector_size() as int
            - self.spec_wptr() as int
    }

    /// Whether compaction would leave room for a record with a `len`-byte
    /// payload: a further sequence number exists and the fresh sector holds
    /// its header, the snapshot record, and the new record.
    pub open spec fn spec_can_compact_for(&self, len: int) -> bool {
        &&& self.spec_seq() as int <= 0xFFFF_FFFD
        &&& SECTOR_HDR_SIZE + spec_need(self.spec_size() as int) + spec_need(len)
            <= self.spec_sector_size() as int
    }

    /// Exactly when `write(addr, data)` succeeds: a non-empty in-range
    /// payload that fits at the write pointer or after a compaction.
    pub open spec fn spec_write_ok(&self, addr: u32, len: int) -> bool {
        &&& 0 < len
        &&& addr as int + len <= self@.len()
        &&& (self.spec_can_append(len) || self.spec_can_compact_for(len))
    }

    /// Opens the engine on `flash`: validates the configuration, selects the
    /// live sector (the valid header with the greater sequence number, ties
    /// preferring the first sector), or formats a blank device, then replays
    /// the active sector's log into the shadow.
    ///
    /// On a device whose sector header regions hold no valid header (in
    /// particular a never-written, all-erased one), the engine formats and
    /// presents an all-0xFF logical array with sequence number 1.
    pub fn new_with_flash(flash: F, base: u32, sector_size: u32, size: u32) -> (r: Result<
        Eeprom<F>,
        EepromError,
    >)
        requires
            flash.inv(),
        ensures
            (r is Ok) <==> spec_valid_config(flash, base, sector_size, size),
            r is Err ==> (r == Err::<Eeprom<F>, EepromError>(EepromError::Config)),
            r matches Ok(ee) ==> (ee.wf() && ee.spec_base() == base && ee.spec_size() == size
                && ee.spec_sector_size() == sector_size && ee@.len() == size as nat),
            r matches Ok(ee) ==> spec_selected_active(
                flash.contents(),
                base,
                sector_size,
                ee.spec_active_base(),
                ee.spec_seq(),
            ),
            r matches Ok(ee) ==> (spec_blank_headers(flash.contents(), base, sector_size) ==> (
            ee@ == spec_blank_state(size as nat) && ee.spec_wptr() == SECTOR_HDR_SIZE as u32
                && ee.spec_seq() == 1 && ee.spec_tail_clean())),
            // The engine's view and write pointer are exactly what replaying
            // the selected sector's log recovers.
            r matches Ok(ee) ==> (ee@ == spec_replay(
                ee.spec_flash().contents(),
                ee.spec_active_base() as int,
                sector_size as int,
                size as int,
            ).0 && ee.spec_wptr() as int == spec_replay(
                ee.spec_flash().contents(),
                ee.spec_active_base() as int,
                sector_size as int,
                size as int,
            ).1),
            r matches Ok(ee) ==> (!spec_blank_headers(flash.contents(), base, sector_size)
                ==> ee.spec_flash().contents() == flash.contents()),
            r matches Ok(ee) ==> (spec_blank_headers(flash.contents(), base, sector_size)
                ==> ee.spec_flash().contents() == crate::flash::programmed(
                crate::flash::erased(
                    flash.contents(),
                    base as int,
                    base as int + 2 * sector_size as int,
                ),
                base as int,
                spec_sector_header_bytes(
                    SectorHeader { magic: SECTOR_MAGIC, seq: 1, reserved0: 0, reserved1: 0 },
                ),
            )),
    {
        if size == 0 || sector_size < SECTOR_HDR_SIZE as u32 || sector_size % 4 != 0 || (
        size as u64) > 2 * (sector_size as u64) {
            return Err(EepromError::Config);
        }
        let g = flash.geometry();
        if g.sector_size != sector_size || (base as u64) % (sector_size as u64) != 0 || (base as u64)
            + 2 * (sector_size as u64) > (g.mem_size as u64) {
            return Err(EepromError::Config);
        }
        let mut state: Vec<u8> = Vec::new();
        let mut i: u32 = 0;
        while i < size
            invariant
                i <= size,
                state@.len() == i as nat,
                forall|j: int| 0 <= j < i as int ==> state@[j] == 0xFFu8,
            decreases size - i,
        {
            state.push(0xFF);
            i += 1;
        }
        let mut ee = Eeprom {
            flash,
            base,
            sector_size,
            size,
            active_base: base,
            scratch_base: base + sector_size,
            seq: 0,
            state,
            wptr: SECTOR_HDR_SIZE as u32,
            tail_clean: true,
        };
        ee.init_or_format();
        Ok(ee)
    }

    /// Reads both sector headers, picks the active sector (greater sequence
    /// number wins, ties prefer the first sector), or formats a blank device:
    /// erase both sectors and program a header with sequence number 1 into
    /// the first. Then replays the active log and records whether the bytes
    /// past the write pointer are erased.
    fn init_or_format(&mut self)
        requires
            old(self).flash.inv(),
            old(self).flash.erase_size() == old(self).sector_size as nat,
            0 < old(self).size,
            SECTOR_HDR_SIZE as int <= old(self).sector_size as int,
            old(self).size as int <= 2 * old(self).sector_size as int,
            old(self).sector_size as int % 4 == 0,
            old(self).state@.len() == old(self).size as nat,
            old(self).base as int % old(self).sector_size as int == 0,
            old(self).base as int + 2 * old(self).sector_size as int <= old(
                self,
            ).flash.contents().len(),
            old(self).base as int + 2 * old(self).sector_size as int <= 0xFFFF_FFFF,
        ensures
            final(self).wf(),
            final(self).base == old(self).base,
            final(self).size == old(self).size,
            final(self).sector_size == old(self).sector_size,
            spec_selected_active(
                old(self).flash.contents(),
                old(self).base,
                old(self).sector_size,
                final(self).active_base,
                final(self).seq,
            ),
            !spec_blank_headers(
                old(self).flash.contents(),
                old(self).base,
                old(self).sector_size,
            ) ==> final(self).flash.contents() == old(self).flash.contents(),
            spec_blank_headers(
                old(self).flash.contents(),
                old(self).base,
                old(self).sector_size,
            ) ==> (final(self).active_base == old(self).base && final(self).seq == 1
                && final(self)@ == spec_blank_state(old(self).size as nat)
                && final(self).wptr == SECTOR_HDR_SIZE as u32 && final(self).tail_clean),
            spec_blank_headers(
                old(self).flash.contents(),
                old(self).base,
                old(self).sector_size,
            ) ==> final(self).flash.contents() == crate::flash::programmed(
                crate::flash::erased(
                    old(self).flash.contents(),
                    old(self).base as int,
                    old(self).base as int + 2 * old(self).sector_size as int,
                ),
                old(self).base as int,
                spec_sector_header_bytes(
                    SectorHeader { magic: SECTOR_MAGIC, seq: 1, reserved0: 0, reserved1: 0 },
                ),
            ),
            final(self)@ == spec_replay(
                final(self).flash.contents(),
                final(self).active_base as int,
                old(self).sector_size as int,
                old(self).size as int,
            ).0,
            final(self).wptr as int == spec_replay(
                final(self).flash.contents(),
                final(self).active_base as int,
                old(self).sector_size as int,
                old(self).size as int,
            ).1,
    {
        let base = self.base;
        let sz = self.sector_size;
        let mut hbuf: Vec<u8> = vec![0u8; SECTOR_HDR_SIZE];
        self.flash.read(base, &mut hbuf).unwrap();
        let sh_a = parse_sector_header(&hbuf);
        self.flash.read(base + sz, &mut hbuf).unwrap();
        let sh_b = parse_sector_header(&hbuf);

        match (sh_a, sh_b) {
            (Some(a), Some(b)) => {
                if a.seq >= b.seq {
                    self.active_base = base;
                    self.scratch_base = base + sz;
                    self.seq = a.seq;
                } else {
                    self.active_base = base + sz;
                    self.scratch_base = base;
                    self.seq = b.seq;
                }
            },
            (Some(a), None) => {
                self.active_base = base;
                self.scratch_base = base + sz;
                self.seq = a.seq;
            },
            (None, Some(b)) => {
                self.active_base = base + sz;
                self.scratch_base = base;
                self.seq = b.seq;
            },
            (None, None) => {
                // Format: erase both sectors, then mark the first as
                // generation 1.
                self.flash.sector_erase(base).unwrap();
                proof {
                    lemma_sector_erase_aligned(
                        old(self).flash.contents(),
                        base as int,
                        sz as int,
                    );
                }
                proof {
                    lemma_mod_add_self(base as int, sz as int);
                }
                self.flash.sector_erase(base + sz).unwrap();
                proof {
                    lemma_sector_erase_aligned(
                        crate::flash::erased(
                            old(self).flash.contents(),
                            base as int,
                            base as int + sz as int,
                        ),
                        base as int + sz as int,
                        sz as int,
                    );
                }
                let hdr = SectorHeader {
                    magic: SECTOR_MAGIC,
                    seq: 1,
                    reserved0: 0,
                    reserved1: 0,
                };
                let hb = write_sector_header_bytes(&hdr);
                self.flash.program(base, &hb).unwrap();
                self.active_base = base;
                self.scratch_base = base + sz;
                self.seq = 1;
                proof {
                    let mem2 = self.flash.contents();
                    let e2 = crate::flash::erased(
                        crate::flash::erased(
                            old(self).flash.contents(),
                            base as int,
                            base as int + sz as int,
                        ),
                        base as int + sz as int,
                        base as int + 2 * sz as int,
                    );
                    assert(e2 =~= crate::flash::erased(
                        old(self).flash.contents(),
                        base as int,
                        base as int + 2 * sz as int,
                    ));
                    assert forall|j: int|
                        base as int + SECTOR_HDR_SIZE as int <= j < base as int
                            + sz as int implies mem2[j] == 0xFFu8 by {}
                    // The freshly programmed header parses back with
                    // sequence number 1, and the second sector stays blank.
                    let h = SectorHeader { magic: SECTOR_MAGIC, seq: 1, reserved0: 0, reserved1: 0 };
                    assert(mem2.subrange(base as int, base as int + SECTOR_HDR_SIZE as int)
                        =~= spec_sector_header_bytes(h)) by {
                        assert forall|i: int| 0 <= i < SECTOR_HDR_SIZE as int implies mem2[base as int
                            + i] == spec_sector_header_bytes(h)[i] by {
                            let b = spec_sector_header_bytes(h)[i];
                            assert(0xFFu8 & b == b) by (bit_vector);
                        }
                    }
                    crate::layout::lemma_sector_header_roundtrip(h);
                    let sb2 = mem2.subrange(
                        base as int + sz as int,
                        base as int + sz as int + SECTOR_HDR_SIZE as int,
                    );
                    crate::layout::lemma_blank_sector_header(sb2);
                    assert(self.hdrs_wf());
                }
            },
        }
        proof {
            let c0 = old(self).flash.contents();
            let pa = spec_sector_hdr_at(c0, base as int);
            let pb = spec_sector_hdr_at(c0, base as int + sz as int);
            if !(pa is None && pb is None) {
                assert(self.hdrs_wf());
            }
        }
        let ghost pre_replay = *self;
        self.replay_log();
        let clean = self.scan_tail();
        self.tail_clean = clean;
        proof {
            assert(pre_replay.hdrs_wf() ==> self.hdrs_wf());
            let mem = old(self).flash.contents();
            let pa = spec_sector_hdr_at(mem, base as int);
            let pb = spec_sector_hdr_at(mem, base as int + sz as int);
            if pa is None && pb is None {
                // Replay of the freshly formatted sector stops at once: its
                // first record slot is erased.
                assert(spec_replay(
                    self.flash.contents(),
                    base as int,
                    sz as int,
                    self.size as int,
                ) == (spec_blank_state(self.size as nat), SECTOR_HDR_SIZE as int)) by {
                    if SECTOR_HDR_SIZE as int + REC_HDR_SIZE as int <= sz as int {
                        let first = self.flash.contents().subrange(
                            base as int + SECTOR_HDR_SIZE as int,
                            base as int + SECTOR_HDR_SIZE as int + REC_HDR_SIZE as int,
                        );
                        lemma_blank_rec_header(first);
                    }
                }
            }
        }
    }

    /// Rebuilds the shadow from the active sector: fill with 0xFF, then apply
    /// records in order, stopping at the sector end or at the first slot that
    /// is blank, malformed, out of range, truncated, or fails its CRC. The
    /// shadow and write pointer end exactly as `spec_replay` reads the
    /// sector's bytes.
    fn replay_log(&mut self)
        requires
            old(self).flash.inv(),
            0 < old(self).size,
            SECTOR_HDR_SIZE as int <= old(self).sector_size as int,
            old(self).sector_size as int % 4 == 0,
            old(self).active_base as int + old(self).sector_size as int <= old(
                self,
            ).flash.contents().len(),
            old(self).active_base as int + old(self).sector_size as int <= 0xFFFF_FFFF,
        ensures
            final(self).flash.inv(),
            final(self).flash.contents() == old(self).flash.contents(),
            final(self).flash.erase_size() == old(self).flash.erase_size(),
            final(self).base == old(self).base,
            final(self).size == old(self).size,
            final(self).sector_size == old(self).sector_size,
            final(self).active_base == old(self).active_base,
            final(self).scratch_base == old(self).scratch_base,
            final(self).seq == old(self).seq,
            final(self).tail_clean == old(self).tail_clean,
            final(self).state@.len() == final(self).size as nat,
            SECTOR_HDR_SIZE as int <= final(self).wptr as int <= final(self).sector_size as int,
            final(self).wptr as int % 4 == 0,
            final(self)@ == spec_replay(
                old(self).flash.contents(),
                old(self).active_base as int,
                old(self).sector_size as int,
                old(self).size as int,
            ).0,
            final(self).wptr as int == spec_replay(
                old(self).flash.contents(),
                old(self).active_base as int,
                old(self).sector_size as int,
                old(self).size as int,
            ).1,
    {
        let sz = self.sector_size;
        let ab = self.active_base;
        let n = self.size;
        let ghost c = old(self).flash.contents();
        let mut st: Vec<u8> = Vec::new();
        let mut i: u32 = 0;
        while i < n
            invariant
                i <= n,
                st@.len() == i as nat,
                forall|j: int| 0 <= j < i as int ==> st@[j] == 0xFFu8,
            decreases n - i,
        {
            st.push(0xFF);
            i += 1;
        }
        self.state = st;
        proof {
            assert(self.state@ =~= spec_blank_state(n as nat));
        }

        let mut off: u32 = SECTOR_HDR_SIZE as u32;
        let mut hb: Vec<u8> = vec![0u8; REC_HDR_SIZE];
        while off < sz
            invariant
                self.flash.inv(),
                self.flash.contents() == old(self).flash.contents(),
                self.flash.erase_size() == old(self).flash.erase_size(),
                self.base == old(self).base,
                self.size == old(self).size,
                self.sector_size == old(self).sector_size,
                self.active_base == old(self).active_base,
                self.scratch_base == old(self).scratch_base,
                self.seq == old(self).seq,
                self.tail_clean == old(self).tail_clean,
                c == old(self).flash.contents(),
                sz == self.sector_size,
                ab == self.active_base,
                n == self.size,
                0 < n,
                sz as int % 4 == 0,
                ab as int + sz as int <= self.flash.contents().len(),
                ab as int + sz as int <= 0xFFFF_FFFF,
                self.state@.len() == n as nat,
                SECTOR_HDR_SIZE as int <= off as int <= sz as int,
                off as int % 4 == 0,
                hb@.len() == REC_HDR_SIZE as nat,
                spec_replay(c, ab as int, sz as int, n as int) == spec_replay_from(
                    c,
                    ab as int,
                    sz as int,
                    n as int,
                    off as int,
                    self.state@,
                ),
            ensures
                spec_replay_from(c, ab as int, sz as int, n as int, off as int, self.state@) == (
                self.state@,
                off as int,
            ),
            decreases sz as int - off as int,
        {
            if sz - off < REC_HDR_SIZE as u32 {
                break ;
            }
            self.flash.read(ab + off, &mut hb).unwrap();
            proof {
                assert(hb@ == c.subrange(ab as int + off as int, ab as int + off as int
                    + REC_HDR_SIZE as int));
            }
            let parsed = parse_rec_header(&hb);
            let h = match parsed {
                None => { break ; },
                Some(h) => h,
            };
            if h.magic != REC_MAGIC || h.len == 0 {
                break ;
            }
            if (h.addr as u64) + (h.len as u64) > (n as u64) {
                break ;
            }
            if REC_HDR_SIZE as u64 + (h.len as u64) > ((sz - off) as u64) {
                break ;
            }
            let mut data: Vec<u8> = vec![0u8; h.len as usize];
            self.flash.read(ab + off + REC_HDR_SIZE as u32, &mut data).unwrap();
            proof {
                assert(data@ == c.subrange(
                    ab as int + off as int + REC_HDR_SIZE as int,
                    ab as int + off as int + REC_HDR_SIZE as int + h.len as int,
                ));
            }
            let h0 = RecHeader { magic: h.magic, seq: h.seq, addr: h.addr, len: h.len, crc32: 0 };
            let mut chk = write_rec_header_bytes(&h0);
            chk.extend_from_slice(data.as_slice());
            proof {
                assert forall|i: int|
                    REC_HDR_SIZE as int <= i < chk@.len() implies chk@[i] == data@[i
                    - REC_HDR_SIZE as int] by {
                    assert(cloned(data@[i - REC_HDR_SIZE as int], chk@[i]));
                }
                assert(chk@ =~= spec_rec_header_bytes(h0) + data@);
            }
            let cv = crc32(&chk);
            if cv != h.crc32 {
                proof {
                    let payload = c.subrange(
                        ab as int + off as int + REC_HDR_SIZE as int,
                        ab as int + off as int + REC_HDR_SIZE as int + h.len as int,
                    );
                    assert(payload == data@);
                    assert(chk@ == spec_rec_header_bytes(h0) + payload);
                    assert(crc32_spec(spec_rec_header_bytes(h0) + payload) != h.crc32);
                    assert(spec_replay_from(
                        c,
                        ab as int,
                        sz as int,
                        n as int,
                        off as int,
                        self.state@,
                    ) == (self.state@, off as int));
                }
                break ;
            }
            proof {
                assert(crc32_spec(spec_rec_header_bytes(h0) + data@) == h.crc32);
            }
            // apply the record to the shadow
            let ghost st_pre = self.state@;
            let alen = h.len as usize;
            let astart = h.addr as usize;
            let mut k: usize = 0;
            while k < alen
                invariant
                    self.flash.inv(),
                    self.flash.contents() == old(self).flash.contents(),
                    self.flash.erase_size() == old(self).flash.erase_size(),
                    self.base == old(self).base,
                    self.size == old(self).size,
                    self.sector_size == old(self).sector_size,
                    self.active_base == old(self).active_base,
                    self.scratch_base == old(self).scratch_base,
                    self.seq == old(self).seq,
                    self.tail_clean == old(self).tail_clean,
                    n == self.size,
                    self.state@.len() == n as nat,
                    st_pre.len() == n as nat,
                    k <= alen,
                    astart + alen <= n as int,
                    alen == data@.len(),
                    forall|j: int|
                        0 <= j < self.state@.len() ==> self.state@[j] == (if astart as int <= j
                            < astart as int + k as int {
                            data@[j - astart as int]
                        } else {
                            st_pre[j]
                        }),
                decreases alen - k,
            {
                let b = data[k];
                self.state.set(astart + k, b);
                k += 1;
            }
            proof {
                assert(self.state@ =~= spec_overwrite(st_pre, h.addr as int, data@));
            }
            // advance past header, payload and padding
            let consumed = pad4_u64(REC_HDR_SIZE as u64 + h.len as u64);
            let noff = (off as u64) + consumed;
            proof {
                lemma_pad4(REC_HDR_SIZE as int + h.len as int);
                let payload = c.subrange(
                    ab as int + off as int + REC_HDR_SIZE as int,
                    ab as int + off as int + REC_HDR_SIZE as int + h.len as int,
                );
                assert(payload == data@);
                assert(self.state@ == spec_overwrite(st_pre, h.addr as int, payload));
                // one replay step: the spec applies this record and scans on
                assert(spec_replay_from(c, ab as int, sz as int, n as int, off as int, st_pre)
                    == spec_replay_from(
                    c,
                    ab as int,
                    sz as int,
                    n as int,
                    if off as int + spec_need(h.len as int) > sz as int {
                        sz as int
                    } else {
                        off as int + spec_need(h.len as int)
                    },
                    self.state@,
                ));
            }
            if noff >= sz as u64 {
                off = sz;
            } else {
                off = noff as u32;
            }
        }
        self.wptr = off;
    }

    /// Reports whether every byte of the active sector from the write
    /// pointer to the sector end is erased.
    fn scan_tail(&mut self) -> (r: bool)
        requires
            old(self).flash.inv(),
            SECTOR_HDR_SIZE as int <= old(self).wptr as int <= old(self).sector_size as int,
            old(self).active_base as int + old(self).sector_size as int <= old(
                self,
            ).flash.contents().len(),
            old(self).active_base as int + old(self).sector_size as int <= 0xFFFF_FFFF,
        ensures
            final(self).flash.inv(),
            final(self).flash.contents() == old(self).flash.contents(),
            final(self).flash.erase_size() == old(self).flash.erase_size(),
            final(self).base == old(self).base,
            final(self).size == old(self).size,
            final(self).sector_size == old(self).sector_size,
            final(self).active_base == old(self).active_base,
            final(self).scratch_base == old(self).scratch_base,
            final(self).seq == old(self).seq,
            final(self).wptr == old(self).wptr,
            final(self).tail_clean == old(self).tail_clean,
            final(self).state == old(self).state,
            r <==> (forall|j: int|
                old(self).active_base as int + old(self).wptr as int <= j < old(
                    self,
                ).active_base as int + old(self).sector_size as int ==> old(
                    self,
                ).flash.contents()[j] == 0xFFu8),
    {
        let sz = self.sector_size;
        let ab = self.active_base;
        let mut off: u32 = self.wptr;
        let mut clean = true;
        let mut buf: Vec<u8> = vec![0u8; 1];
        while off < sz
            invariant
                self.flash.inv(),
                self.flash.contents() == old(self).flash.contents(),
                self.flash.erase_size() == old(self).flash.erase_size(),
                self.base == old(self).base,
                self.size == old(self).size,
                self.sector_size == old(self).sector_size,
                self.active_base == old(self).active_base,
                self.scratch_base == old(self).scratch_base,
                self.seq == old(self).seq,
                self.wptr == old(self).wptr,
                self.tail_clean == old(self).tail_clean,
                self.state == old(self).state,
                ab == self.active_base,
                sz == self.sector_size,
                ab as int + sz as int <= self.flash.contents().len(),
                ab as int + sz as int <= 0xFFFF_FFFF,
                self.wptr as int <= off as int <= sz as int,
                buf@.len() == 1,
                clean <==> (forall|j: int|
                    ab as int + self.wptr as int <= j < ab as int + off as int
                        ==> self.flash.contents()[j] == 0xFFu8),
            decreases sz as int - off as int,
        {
            self.flash.read(ab + off, &mut buf).unwrap();
            if buf[0] != 0xFF {
                clean = false;
            }
            proof {
                assert(buf@[0] == self.flash.contents()[ab as int + off as int]);
            }
            off += 1;
        }
        clean
    }

    /// Copies `out.len()` logical bytes starting at `addr` into `out`.
    /// Succeeds exactly when the range lies inside the logical array; an
    /// out-of-range request fails without reading or changing anything.
    pub fn read(&self, addr: u32, out: &mut Vec<u8>) -> (r: Result<(), EepromError>)
        requires
            self.wf(),
        ensures
            final(out)@.len() == old(out)@.len(),
            (r is Ok) <==> addr as int + old(out)@.len() <= self@.len(),
            r is Ok ==> final(out)@ == self@.subrange(
                addr as int,
                addr as int + old(out)@.len() as int,
            ),
            r is Err ==> (r == Err::<(), EepromError>(EepromError::Bounds) && final(out)@ == old(
                out,
            )@),
    {
        let n = self.state.len();
        if out.len() > n || (addr as u64) + (out.len() as u64) > (n as u64) {
            return Err(EepromError::Bounds);
        }
        let len = out.len();
        let mut i: usize = 0;
        while i < len
            invariant
                self.wf(),
                len == old(out)@.len(),
                addr as int + len as int <= self.state@.len(),
                self.state@.len() <= usize::MAX,
                i <= len,
                out@.len() == len,
                forall|j: int| 0 <= j < i ==> out@[j] == self.state@[addr as int + j],
            decreases len - i,
        {
            let b = self.state[addr as usize + i];
            out.set(i, b);
            i += 1;
        }
        proof {
            assert(out@ =~= self@.subrange(addr as int, addr as int + len as int));
        }
        Ok(())
    }

    /// Appends a record holding `data` at logical offset `addr`, compacting
    /// first if the active sector is full or its tail is not erased, and
    /// updates the shadow. Succeeds exactly when the payload is non-empty,
    /// in range, and fits (`spec_write_ok`); a failed call leaves the engine
    /// unchanged. Out-of-range or empty payloads fail with `Bounds`; a
    /// record no compaction can make room for fails with `Capacity`.
    #[verifier::rlimit(100)]
    #[verifier::spinoff_prover]
    pub fn write(&mut self, addr: u32, data: &Vec<u8>) -> (r: Result<(), EepromError>)
        requires
            old(self).wf(),
        ensures
            final(self).wf(),
            final(self).spec_base() == old(self).spec_base(),
            final(self).spec_size() == old(self).spec_size(),
            final(self).spec_sector_size() == old(self).spec_sector_size(),
            (r is Ok) <==> old(self).spec_write_ok(addr, data@.len() as int),
            r is Ok ==> final(self)@ == spec_overwrite(old(self)@, addr as int, data@),
            r is Ok ==> final(self).spec_tail_clean(),
            // Durability: the record now sits on flash just below the new
            // write pointer, framed with the engine's pre-call generation.
            r is Ok ==> final(self).spec_flash().contents().subrange(
                final(self).spec_active_base() as int + final(self).spec_wptr() as int
                    - spec_need(data@.len() as int),
                final(self).spec_active_base() as int + final(self).spec_wptr() as int
                    - spec_need(data@.len() as int) + REC_HDR_SIZE + data@.len() as int,
            ) == spec_record_bytes(old(self).spec_seq(), addr, data@),
            // The padding bytes between the payload and the new write
            // pointer stay erased.
            r is Ok ==> (forall|j: int|
                final(self).spec_active_base() as int + final(self).spec_wptr() as int
                    - spec_need(data@.len() as int) + REC_HDR_SIZE + data@.len() <= j < final(self).spec_active_base() as int + final(self).spec_wptr() as int ==> final(self).spec_flash().contents()[j] == 0xFFu8),
            // Without a compaction, no flash byte outside the new record
            // changes.
            (r is Ok && old(self).spec_can_append(data@.len() as int)) ==> (forall|j: int|
                0 <= j < old(self).spec_flash().contents().len() && !(old(
                    self,
                ).spec_active_base() as int + old(self).spec_wptr() as int <= j < old(
                    self,
                ).spec_active_base() as int + old(self).spec_wptr() as int + REC_HDR_SIZE
                    + data@.len()) ==> final(self).spec_flash().contents()[j] == old(
                    self,
                ).spec_flash().contents()[j]),
            (r is Ok && old(self).spec_can_append(data@.len() as int)) ==> (final(self).spec_seq()
                == old(self).spec_seq() && final(self).spec_active_base() == old(
                self,
            ).spec_active_base() && final(self).spec_wptr() as int == old(self).spec_wptr() as int
                + spec_need(data@.len() as int)),
            (r is Ok && !old(self).spec_can_append(data@.len() as int)) ==> (final(self).spec_seq()
                == old(self).spec_seq() + 1 && final(self).spec_active_base() != old(
                self,
            ).spec_active_base() && final(self).spec_wptr() as int == SECTOR_HDR_SIZE + spec_need(
                old(self).spec_size() as int,
            ) + spec_need(data@.len() as int)),
            r is Err ==> *final(self) == *old(self),
            (data@.len() == 0 || addr as int + data@.len() > old(self)@.len()) ==> r == Err::<
                (),
                EepromError,
            >(EepromError::Bounds),
            (0 < data@.len() && addr as int + data@.len() <= old(self)@.len() && !old(
                self,
            ).spec_write_ok(addr, data@.len() as int)) ==> r == Err::<(), EepromError>(
                EepromError::Capacity,
            ),
    {
        let len = data.len();
        let n = self.state.len();
        if len == 0 || len > n || (addr as u64) + (len as u64) > (n as u64) {
            return Err(EepromError::Bounds);
        }
        // Build the record header with the checksum over the zeroed-checksum
        // header followed by the payload.
        let hdr = RecHeader {
            magic: REC_MAGIC,
            seq: self.seq,
            addr,
            len: len as u32,
            crc32: 0,
        };
        let mut chk = write_rec_header_bytes(&hdr);
        chk.extend_from_slice(data.as_slice());
        let c = crc32(&chk);
        let hdr = RecHeader { crc32: c, ..hdr };
        let hb = write_rec_header_bytes(&hdr);
        // Make room, compacting if needed.
        let need = pad4_u64(REC_HDR_SIZE as u64 + len as u64);
        proof {
            lemma_pad4(REC_HDR_SIZE as int + len as int);
        }
        match self.ensure_space(need) {
            Ok(()) => {},
            Err(e) => {
                return Err(e);
            },
        }
        // Program the header, then the payload: a crash in between leaves a
        // record whose checksum fails on replay.
        let ghost es = *self;
        let off = self.active_base + self.wptr;
        self.flash.program(off, &hb).unwrap();
        self.flash.program(off + REC_HDR_SIZE as u32, data).unwrap();
        proof {
            // The record lands bit for bit: it was programmed onto erased
            // bytes, and the header and payload ranges do not overlap.
            let c1 = es.flash.contents();
            let c2 = self.flash.contents();
            let rec = spec_record_bytes(old(self).seq, addr, data@);
            let h0 = RecHeader {
                magic: REC_MAGIC,
                seq: old(self).seq,
                addr,
                len: data@.len() as u32,
                crc32: 0,
            };
            assert(chk@ == spec_rec_header_bytes(h0) + data@);
            assert(c == crc32_spec(spec_rec_header_bytes(h0) + data@));
            assert(hb@ == spec_rec_header_bytes(
                RecHeader {
                    magic: REC_MAGIC,
                    seq: old(self).seq,
                    addr,
                    len: data@.len() as u32,
                    crc32: c,
                },
            ));
            assert(rec =~= hb@ + data@);
            assert forall|i: int|
                0 <= i < REC_HDR_SIZE as int + len as int implies c2[off as int + i] == rec[i] by {
                assert(c1[off as int + i] == 0xFFu8);
                if i < REC_HDR_SIZE as int {
                    lemma_and_ff(hb@[i]);
                    assert(rec[i] == hb@[i]);
                } else {
                    lemma_and_ff(data@[i - REC_HDR_SIZE as int]);
                    assert(rec[i] == data@[i - REC_HDR_SIZE as int]);
                }
            }
            assert(c2.subrange(off as int, off as int + REC_HDR_SIZE as int + len as int) =~= rec);
            assert forall|j: int|
                off as int + REC_HDR_SIZE as int + len as int <= j < off as int
                    + need as int implies c2[j] == 0xFFu8 by {}
            assert forall|j: int|
                0 <= j < c1.len() && !(off as int <= j < off as int + REC_HDR_SIZE as int
                    + len as int) implies c2[j] == c1[j] by {}
        }
        self.wptr = self.wptr + (need as u32);
        // Update the shadow.
        let ghost mid = *self;
        let astart = addr as usize;
        let mut k: usize = 0;
        while k < len
            invariant
                self.flash == mid.flash,
                self.base == mid.base,
                self.size == mid.size,
                self.sector_size == mid.sector_size,
                self.active_base == mid.active_base,
                self.scratch_base == mid.scratch_base,
                self.seq == mid.seq,
                self.wptr == mid.wptr,
                self.tail_clean == mid.tail_clean,
                self.state@.len() == mid.state@.len(),
                k <= len,
                len == data@.len(),
                astart + len <= self.state@.len(),
                self.state@.len() <= usize::MAX,
                forall|j: int|
                    0 <= j < self.state@.len() ==> self.state@[j] == (if astart as int <= j
                        < astart as int + k as int {
                        data@[j - astart as int]
                    } else {
                        mid.state@[j]
                    }),
            decreases len - k,
        {
            let b = data[k];
            self.state.set(astart + k, b);
            k += 1;
        }
        proof {
            assert(self.state@ =~= spec_overwrite(old(self)@, addr as int, data@));
            // Replay of the active sector now recovers the new shadow: the
            // appended record extends the old replay by exactly this write.
            let ab_i = self.active_base as int;
            let sz_i = self.sector_size as int;
            let size_i = self.size as int;
            let c1 = es.flash.contents();
            let c2 = self.flash.contents();
            lemma_replay_append(
                c1,
                c2,
                ab_i,
                sz_i,
                size_i,
                SECTOR_HDR_SIZE as int,
                spec_blank_state(size_i as nat),
                old(self).seq,
                addr,
                data@,
            );
            assert(self.replay_wf());
        }
        Ok(())
    }

    /// Leaves the engine with room for `need` more bytes at the write
    /// pointer over an erased tail, compacting if the record does not fit
    /// there now. Fails with `Capacity` (changing nothing) exactly when
    /// compaction could not make that room.
    fn ensure_space(&mut self, need: u64) -> (r: Result<(), EepromError>)
        requires
            old(self).wf(),
        ensures
            final(self).wf(),
            final(self)@ == old(self)@,
            final(self).base == old(self).base,
            final(self).size == old(self).size,
            final(self).sector_size == old(self).sector_size,
            (r is Ok) <==> ((old(self).tail_clean && need as int <= old(self).sector_size as int
                - old(self).wptr as int) || (old(self).seq as int <= 0xFFFF_FFFD
                && SECTOR_HDR_SIZE + spec_need(old(self).size as int) + need as int <= old(
                self,
            ).sector_size as int)),
            r is Ok ==> (final(self).tail_clean && need as int <= final(self).sector_size as int
                - final(self).wptr as int),
            (r is Ok && old(self).tail_clean && need as int <= old(self).sector_size as int - old(
                self,
            ).wptr as int) ==> *final(self) == *old(self),
            (r is Ok && !(old(self).tail_clean && need as int <= old(self).sector_size as int
                - old(self).wptr as int)) ==> (final(self).seq == old(self).seq + 1 && final(self).active_base == old(self).scratch_base && final(self).scratch_base == old(
                self,
            ).active_base && final(self).wptr as int == SECTOR_HDR_SIZE + spec_need(
                old(self).size as int,
            )),
            r is Err ==> (r == Err::<(), EepromError>(EepromError::Capacity) && *final(self)
                == *old(self)),
    {
        if self.tail_clean {
            let avail = self.sector_size - self.wptr;
            if (need as u64) <= (avail as u64) {
                return Ok(());
            }
        }
        // The record does not fit at the tail (or the tail is not erased):
        // only a compaction can help. Check that the fresh sector would hold
        // the snapshot and the new record before touching flash.
        if self.seq > 0xFFFF_FFFD_u32 {
            return Err(EepromError::Capacity);
        }
        if need > self.sector_size as u64 {
            // The record alone overruns a fresh sector.
            return Err(EepromError::Capacity);
        }
        let snap_need = pad4_u64(REC_HDR_SIZE as u64 + self.size as u64);
        proof {
            lemma_pad4(REC_HDR_SIZE as int + self.size as int);
        }
        if SECTOR_HDR_SIZE as u64 + snap_need + need > self.sector_size as u64 {
            return Err(EepromError::Capacity);
        }
        self.compact();
        Ok(())
    }

    /// Compaction: erase the scratch sector, program a sector header with the
    /// next sequence number, then one snapshot record holding the whole
    /// shadow, and swap the sector roles. The old active sector keeps its now
    /// stale header until the next compaction erases it.
    #[verifier::rlimit(80)]
    fn compact(&mut self)
        requires
            old(self).wf(),
            old(self).seq as int <= 0xFFFF_FFFD,
            SECTOR_HDR_SIZE + spec_need(old(self).size as int) <= old(self).sector_size as int,
        ensures
            final(self).wf(),
            final(self)@ == old(self)@,
            final(self).base == old(self).base,
            final(self).size == old(self).size,
            final(self).sector_size == old(self).sector_size,
            final(self).seq == old(self).seq + 1,
            final(self).active_base == old(self).scratch_base,
            final(self).scratch_base == old(self).active_base,
            final(self).wptr as int == SECTOR_HDR_SIZE + spec_need(old(self).size as int),
            final(self).tail_clean,
            final(self).flash.contents().len() == old(self).flash.contents().len(),
            // On flash: the fresh sector holds its header, then the snapshot
            // record carrying the whole shadow, then erased bytes; nothing
            // outside the fresh sector is touched.
            final(self).flash.contents().subrange(
                old(self).scratch_base as int,
                old(self).scratch_base as int + SECTOR_HDR_SIZE as int,
            ) == spec_sector_header_bytes(
                SectorHeader {
                    magic: SECTOR_MAGIC,
                    seq: (old(self).seq + 1) as u32,
                    reserved0: 0,
                    reserved1: 0,
                },
            ),
            final(self).flash.contents().subrange(
                old(self).scratch_base as int + SECTOR_HDR_SIZE as int,
                old(self).scratch_base as int + SECTOR_HDR_SIZE as int + REC_HDR_SIZE as int
                    + old(self).size as int,
            ) == spec_record_bytes((old(self).seq + 1) as u32, 0, old(self)@),
            forall|j: int|
                old(self).scratch_base as int + SECTOR_HDR_SIZE as int + REC_HDR_SIZE as int
                    + old(self).size as int <= j < old(self).scratch_base as int + old(
                    self,
                ).sector_size as int ==> final(self).flash.contents()[j] == 0xFFu8,
            forall|j: int|
                0 <= j < old(self).flash.contents().len() && !(old(self).scratch_base as int <= j
                    < old(self).scratch_base as int + old(self).sector_size as int) ==> final(self).flash.contents()[j] == old(self).flash.contents()[j],
    {
        proof {
            lemma_pad4(REC_HDR_SIZE as int + old(self).size as int);
        }
        let sb = self.scratch_base;
        proof {
            if sb as int == self.base as int + self.sector_size as int {
                lemma_mod_add_self(self.base as int, self.sector_size as int);
            }
        }
        self.flash.sector_erase(sb).unwrap();
        proof {
            lemma_sector_erase_aligned(
                old(self).flash.contents(),
                sb as int,
                self.sector_size as int,
            );
        }
        let new_seq = self.seq + 1;
        let sh = SectorHeader { magic: SECTOR_MAGIC, seq: new_seq, reserved0: 0, reserved1: 0 };
        let shb = write_sector_header_bytes(&sh);
        self.flash.program(sb, &shb).unwrap();
        // The snapshot record covers the whole logical array.
        let rec = RecHeader {
            magic: REC_MAGIC,
            seq: new_seq,
            addr: 0,
            len: self.size,
            crc32: 0,
        };
        let mut chk = write_rec_header_bytes(&rec);
        chk.extend_from_slice(self.state.as_slice());
        proof {
            assert forall|i: int|
                REC_HDR_SIZE as int <= i < chk@.len() implies chk@[i] == self.state@[i
                - REC_HDR_SIZE as int] by {
                assert(cloned(self.state@[i - REC_HDR_SIZE as int], chk@[i]));
            }
            assert(chk@ =~= spec_rec_header_bytes(rec) + self.state@);
        }
        let c = crc32(&chk);
        let rec = RecHeader { crc32: c, ..rec };
        let rhb = write_rec_header_bytes(&rec);
        self.flash.program(sb + SECTOR_HDR_SIZE as u32, &rhb).unwrap();
        self.flash.program(
            sb + (SECTOR_HDR_SIZE as u32 + REC_HDR_SIZE as u32),
            &self.state,
        ).unwrap();
        // Promote the fresh sector.
        let snap_need = pad4_u64(REC_HDR_SIZE as u64 + self.size as u64);
        self.scratch_base = self.active_base;
        self.active_base = sb;
        self.seq = new_seq;
        self.wptr = SECTOR_HDR_SIZE as u32 + (snap_need as u32);
        self.tail_clean = true;
        proof {
            let c0 = old(self).flash.contents();
            let ab0 = old(self).active_base as int;
            let c4 = self.flash.contents();
            // The fresh sector header parses with the new sequence number:
            // the bytes under it were erased, so programming copied them in.
            assert(c4.subrange(sb as int, sb as int + SECTOR_HDR_SIZE as int)
                =~= spec_sector_header_bytes(sh)) by {
                assert forall|i: int| 0 <= i < SECTOR_HDR_SIZE as int implies c4[sb as int + i]
                    == spec_sector_header_bytes(sh)[i] by {
                    let b = spec_sector_header_bytes(sh)[i];
                    assert(0xFFu8 & b == b) by (bit_vector);
                }
            }
            crate::layout::lemma_sector_header_roundtrip(sh);
            // The snapshot record lands bit for bit on erased bytes.
            let rec_b = spec_record_bytes(new_seq, 0, old(self)@);
            let h0 = RecHeader {
                magic: REC_MAGIC,
                seq: new_seq,
                addr: 0,
                len: old(self)@.len() as u32,
                crc32: 0,
            };
            assert(chk@ == spec_rec_header_bytes(h0) + old(self)@);
            assert(c == crc32_spec(spec_rec_header_bytes(h0) + old(self)@));
            assert(rhb@ == spec_rec_header_bytes(
                RecHeader {
                    magic: REC_MAGIC,
                    seq: new_seq,
                    addr: 0,
                    len: old(self)@.len() as u32,
                    crc32: c,
                },
            ));
            assert(rec_b =~= rhb@ + old(self)@);
            assert forall|i: int|
                0 <= i < REC_HDR_SIZE as int + old(self).size as int implies c4[sb as int
                + SECTOR_HDR_SIZE as int + i] == rec_b[i] by {
                let b = rec_b[i];
                assert(0xFFu8 & b == b) by (bit_vector);
            }
            assert(c4.subrange(
                sb as int + SECTOR_HDR_SIZE as int,
                sb as int + SECTOR_HDR_SIZE as int + REC_HDR_SIZE as int + old(self).size as int,
            ) =~= rec_b);
            // The old active sector's header is untouched: everything this
            // compaction wrote lies inside the fresh sector.
            lemma_hdr_at_frame(c4, c0, ab0);
            assert(self.hdrs_wf());
            // Replay of the fresh sector applies the snapshot record and
            // stops on the erased bytes after it, recovering the shadow.
            let sz_i = self.sector_size as int;
            let size_i = self.size as int;
            let hc2 = RecHeader {
                magic: REC_MAGIC,
                seq: new_seq,
                addr: 0,
                len: old(self)@.len() as u32,
                crc32: c,
            };
            crate::layout::lemma_rec_header_roundtrip(hc2);
            assert(spec_rec_header_bytes(hc2).len() == REC_HDR_SIZE as int);
            assert(c4.subrange(
                sb as int + SECTOR_HDR_SIZE as int,
                sb as int + SECTOR_HDR_SIZE as int + REC_HDR_SIZE as int,
            ) =~= spec_rec_header_bytes(hc2)) by {
                assert forall|i: int| 0 <= i < REC_HDR_SIZE as int implies c4[sb as int
                    + SECTOR_HDR_SIZE as int + i] == rec_b[i] by {}
            }
            assert(spec_parse_rec_header(c4.subrange(
                sb as int + SECTOR_HDR_SIZE as int,
                sb as int + SECTOR_HDR_SIZE as int + REC_HDR_SIZE as int,
            )) == Some(hc2));
            assert forall|i: int|
                0 <= i < size_i implies #[trigger] old(self)@[i] == c4[sb as int
                + SECTOR_HDR_SIZE as int + REC_HDR_SIZE as int + i] by {
                assert(rec_b[REC_HDR_SIZE as int + i] == old(self)@[i]);
                assert(c4.subrange(
                    sb as int + SECTOR_HDR_SIZE as int,
                    sb as int + SECTOR_HDR_SIZE as int + REC_HDR_SIZE as int + size_i,
                )[REC_HDR_SIZE as int + i] == rec_b[REC_HDR_SIZE as int + i]);
            }
            assert(c4.subrange(
                sb as int + SECTOR_HDR_SIZE as int + REC_HDR_SIZE as int,
                sb as int + SECTOR_HDR_SIZE as int + REC_HDR_SIZE as int + size_i,
            ) =~= old(self)@);
            assert(spec_overwrite(spec_blank_state(size_i as nat), 0, old(self)@) =~= old(self)@);
            let off2 = SECTOR_HDR_SIZE as int + spec_need(size_i);
            if sz_i - off2 >= REC_HDR_SIZE as int {
                lemma_blank_rec_header(c4.subrange(
                    sb as int + off2,
                    sb as int + off2 + REC_HDR_SIZE as int,
                ));
            }
            assert(spec_replay_from(c4, sb as int, sz_i, size_i, off2, old(self)@) == (
                old(self)@,
                off2,
            ));
            assert(spec_replay(c4, sb as int, sz_i, size_i) == (old(self)@, off2));
            assert(self.replay_wf());
        }
    }

    /// The flash address of the active sector.
    pub fn active_base(&self) -> (r: u32)
        ensures
            r == self.spec_active_base(),
    {
        self.active_base
    }

    /// The generation of the active sector.
    pub fn seq(&self) -> (r: u32)
        ensures
            r == self.spec_seq(),
    {
        self.seq
    }

    /// The offset in the active sector where the next record would start.
    pub fn wptr(&self) -> (r: u32)
        ensures
            r == self.spec_wptr(),
    {
        self.wptr
    }

    /// The logical size in bytes.
    pub fn logical_size(&self) -> (r: u32)
        ensures
            r == self.spec_size(),
    {
        self.size
    }

    /// The engine's flash device.
    pub closed spec fn spec_flash(&self) -> F {
        self.flash
    }

    /// Consumes the engine and hands back the flash device, so the same
    /// contents can be reopened.
    pub fn into_flash(self) -> (r: F)
        ensures
            r == self.spec_flash(),
            self.wf() ==> r.inv(),
    {
        self.flash
    }
}

/// A sector header region parses the same in two device states that agree on
/// its bytes.
proof fn lemma_hdr_at_frame(c1: Seq<u8>, c2: Seq<u8>, at: int)
    requires
        0 <= at,
        at + SECTOR_HDR_SIZE as int <= c1.len(),
        c1.len() == c2.len(),
        forall|i: int| at <= i < at + SECTOR_HDR_SIZE as int ==> c1[i] == c2[i],
    ensures
        spec_sector_hdr_at(c1, at) == spec_sector_hdr_at(c2, at),
{
    assert(c1.subrange(at, at + SECTOR_HDR_SIZE as int) =~= c2.subrange(
        at,
        at + SECTOR_HDR_SIZE as int,
    ));
}

/// Programming a byte onto an erased cell stores it unchanged.
proof fn lemma_and_ff(b: u8)
    ensures
        0xFFu8 & b == b,
{
    assert(0xFFu8 & b == b) by (bit_vector);
}

/// A multiple of `m` stays a multiple after adding `m`.
proof fn lemma_mod_add_self(a: int, m: int)
    requires
        m > 0,
        a % m == 0,
    ensures
        (a + m) % m == 0,
{
    assert((a + m) % m == 0) by (nonlinear_arith)
        requires
            m > 0,
            a % m == 0,
    ;
}

/// Erasing at a sector-aligned address `sb` with a whole further sector in
/// range erases exactly `[sb, sb + sz)`.
proof fn lemma_sector_erase_aligned(mem: Seq<u8>, sb: int, sz: int)
    requires
        sz > 0,
        sb % sz == 0,
        sb + sz <= mem.len(),
    ensures
        crate::flash::sector_start(sb, sz) == sb,
        vstd::math::min(crate::flash::sector_start(sb, sz) + sz, mem.len() as int) == sb + sz,
{
    assert((sb / sz) * sz == sb) by (nonlinear_arith)
        requires
            sz > 0,
            sb % sz == 0,
    ;
}

/// Replay scans forward within the sector and never changes the shadow's
/// length.
proof fn lemma_replay_mono(mem: Seq<u8>, ab: int, sz: int, size: int, off: int, st: Seq<u8>)
    requires
        off <= sz,
    ensures
        off <= spec_replay_from(mem, ab, sz, size, off, st).1 <= sz,
        spec_replay_from(mem, ab, sz, size, off, st).0.len() == st.len(),
    decreases sz - off,
{
    if off >= sz || sz - off < REC_HDR_SIZE {
    } else {
        match spec_parse_rec_header(mem.subrange(ab + off, ab + off + REC_HDR_SIZE as int)) {
            None => {},
            Some(h) => {
                if h.magic != REC_MAGIC || h.len == 0 || h.addr as int + h.len as int > size
                    || REC_HDR_SIZE + h.len as int > sz - off {
                } else {
                    let payload = mem.subrange(
                        ab + off + REC_HDR_SIZE as int,
                        ab + off + REC_HDR_SIZE as int + h.len as int,
                    );
                    let h0 = RecHeader {
                        magic: h.magic,
                        seq: h.seq,
                        addr: h.addr,
                        len: h.len,
                        crc32: 0,
                    };
                    if crc32_spec(spec_rec_header_bytes(h0) + payload) != h.crc32 {
                    } else {
                        lemma_pad4(REC_HDR_SIZE as int + h.len as int);
                        let off2 = off + spec_need(h.len as int);
                        let noff = if off2 > sz {
                            sz
                        } else {
                            off2
                        };
                        lemma_replay_mono(
                            mem,
                            ab,
                            sz,
                            size,
                            noff,
                            spec_overwrite(st, h.addr as int, payload),
                        );
                    }
                }
            },
        }
    }
}

/// Appending one valid record where replay of `c1` stopped extends the
/// replayed shadow by exactly that record: on contents `c2`, equal to `c1`
/// inside the sector except for the record's bytes at the old stop offset,
/// replay applies the same records, then the new one, and stops on the
/// erased bytes after it.
#[verifier::rlimit(80)]
proof fn lemma_replay_append(
    c1: Seq<u8>,
    c2: Seq<u8>,
    ab: int,
    sz: int,
    size: int,
    off: int,
    st: Seq<u8>,
    seq: u32,
    addr: u32,
    data: Seq<u8>,
)
    requires
        0 <= ab,
        ab + sz <= c1.len(),
        c1.len() == c2.len(),
        SECTOR_HDR_SIZE as int <= off <= sz,
        sz % 4 == 0,
        off % 4 == 0,
        st.len() == size,
        0 < size <= 0xFFFF_FFFF,
        0 < data.len(),
        addr as int + data.len() <= size,
        spec_replay_from(c1, ab, sz, size, off, st).1 + spec_need(data.len() as int) <= sz,
        (forall|j: int|
            ab + spec_replay_from(c1, ab, sz, size, off, st).1 <= j < ab + sz ==> c1[j]
                == 0xFFu8),
        c2.subrange(
            ab + spec_replay_from(c1, ab, sz, size, off, st).1,
            ab + spec_replay_from(c1, ab, sz, size, off, st).1 + REC_HDR_SIZE as int
                + data.len() as int,
        ) == spec_record_bytes(seq, addr, data),
        (forall|j: int|
            ab <= j < ab + sz && !(ab + spec_replay_from(c1, ab, sz, size, off, st).1 <= j < ab
                + spec_replay_from(c1, ab, sz, size, off, st).1 + REC_HDR_SIZE as int
                + data.len() as int) ==> c2[j] == c1[j]),
    ensures
        spec_replay_from(c2, ab, sz, size, off, st) == (
            spec_overwrite(spec_replay_from(c1, ab, sz, size, off, st).0, addr as int, data),
            spec_replay_from(c1, ab, sz, size, off, st).1 + spec_need(data.len() as int),
        ),
    decreases sz - off,
{
    let r1 = spec_replay_from(c1, ab, sz, size, off, st);
    let fin = r1.0;
    let wp = r1.1;
    lemma_replay_mono(c1, ab, sz, size, off, st);
    let dlen = data.len() as int;
    let need = spec_need(dlen);
    lemma_pad4(REC_HDR_SIZE as int + dlen);
    let rec = spec_record_bytes(seq, addr, data);
    let h0c = RecHeader { magic: REC_MAGIC, seq, addr, len: data.len() as u32, crc32: 0 };
    let hc = RecHeader {
        magic: REC_MAGIC,
        seq,
        addr,
        len: data.len() as u32,
        crc32: crc32_spec(spec_rec_header_bytes(h0c) + data),
    };
    crate::layout::lemma_rec_header_roundtrip(hc);
    assert(spec_rec_header_bytes(hc).len() == REC_HDR_SIZE as int);
    assert(rec == spec_rec_header_bytes(hc) + data);
    if off == wp {
        // Replay of the old contents stops right here, on erased bytes.
        if sz - off >= REC_HDR_SIZE as int {
            lemma_blank_rec_header(c1.subrange(ab + off, ab + off + REC_HDR_SIZE as int));
        }
        assert(fin == st);
        // On the new contents this slot holds the appended record, which
        // parses, passes every check, and is applied.
        assert(c2.subrange(ab + wp, ab + wp + REC_HDR_SIZE as int) =~= spec_rec_header_bytes(hc));
        assert(spec_parse_rec_header(c2.subrange(ab + wp, ab + wp + REC_HDR_SIZE as int))
            == Some(hc));
        assert forall|i: int|
            0 <= i < dlen implies c2[ab + wp + REC_HDR_SIZE as int + i] == data[i] by {
            assert(c2.subrange(ab + wp, ab + wp + REC_HDR_SIZE as int + dlen)[REC_HDR_SIZE as int
                + i] == rec[REC_HDR_SIZE as int + i]);
        }
        assert(c2.subrange(ab + wp + REC_HDR_SIZE as int, ab + wp + REC_HDR_SIZE as int + dlen)
            =~= data);
        let off2 = wp + need;
        // Past the record everything is erased, so replay stops there.
        assert forall|j: int| ab + off2 <= j < ab + sz implies c2[j] == 0xFFu8 by {}
        if sz - off2 >= REC_HDR_SIZE as int {
            lemma_blank_rec_header(c2.subrange(ab + off2, ab + off2 + REC_HDR_SIZE as int));
        }
        assert(spec_replay_from(c2, ab, sz, size, off2, spec_overwrite(st, addr as int, data))
            == (spec_overwrite(st, addr as int, data), off2));
        assert(spec_replay_from(c2, ab, sz, size, off, st) == (
            spec_overwrite(st, addr as int, data),
            off2,
        ));
    } else {
        // Replay of the old contents steps over a record that lies entirely
        // before the stop offset, and the new contents hold the same bytes
        // there, so both replays take the same step.
        let h_opt = spec_parse_rec_header(c1.subrange(ab + off, ab + off + REC_HDR_SIZE as int));
        match h_opt {
            None => {
                assert(false);
            },
            Some(h) => {
                assert(!(h.magic != REC_MAGIC || h.len == 0 || h.addr as int + h.len as int > size
                    || REC_HDR_SIZE + h.len as int > sz - off));
                let payload1 = c1.subrange(
                    ab + off + REC_HDR_SIZE as int,
                    ab + off + REC_HDR_SIZE as int + h.len as int,
                );
                let h01 = RecHeader { magic: h.magic, seq: h.seq, addr: h.addr, len: h.len, crc32: 0 };
                assert(crc32_spec(spec_rec_header_bytes(h01) + payload1) == h.crc32);
                lemma_pad4(REC_HDR_SIZE as int + h.len as int);
                crate::layout::lemma_pad4_le(REC_HDR_SIZE as int + h.len as int, sz - off);
                let st2 = spec_overwrite(st, h.addr as int, payload1);
                let noff = off + spec_need(h.len as int);
                assert(spec_replay_from(c1, ab, sz, size, off, st) == spec_replay_from(
                    c1,
                    ab,
                    sz,
                    size,
                    noff,
                    st2,
                ));
                lemma_replay_mono(c1, ab, sz, size, noff, st2);
                // This record's bytes sit before the appended one and are
                // identical in both contents.
                assert(c2.subrange(ab + off, ab + off + REC_HDR_SIZE as int) =~= c1.subrange(
                    ab + off,
                    ab + off + REC_HDR_SIZE as int,
                ));
                assert(c2.subrange(
                    ab + off + REC_HDR_SIZE as int,
                    ab + off + REC_HDR_SIZE as int + h.len as int,
                ) =~= payload1);
                lemma_replay_append(c1, c2, ab, sz, size, noff, st2, seq, addr, data);
                assert(spec_replay_from(c2, ab, sz, size, off, st) == spec_replay_from(
                    c2,
                    ab,
                    sz,
                    size,
                    noff,
                    st2,
                ));
            },
        }
    }
}

/// Persistence: the flash a well-formed engine leaves behind reopens to the
/// engine's own state. The active sector's header carries the engine's
/// generation and the scratch sector's header is blank or stale, so the
/// selection rule of `open` picks the active sector again; and replay of
/// that sector recovers exactly the engine's logical contents and write
/// pointer, which is what `open` ensures it returns.
pub proof fn lemma_reopen_recovers<F: Flash>(e: &Eeprom<F>)
    requires
        e.wf(),
    ensures
        spec_selected_active(
            e.spec_flash().contents(),
            e.spec_base(),
            e.spec_sector_size(),
            e.spec_active_base(),
            e.spec_seq(),
        ),
        spec_replay(
            e.spec_flash().contents(),
            e.spec_active_base() as int,
            e.spec_sector_size() as int,
            e.spec_size() as int,
        ).0 == e@,
        spec_replay(
            e.spec_flash().contents(),
            e.spec_active_base() as int,
            e.spec_sector_size() as int,
            e.spec_size() as int,
        ).1 == e.spec_wptr() as int,
{
}

/// Read-your-write: after a write of `data` at `addr` is applied to logical
/// contents `pre`, reading back that range yields exactly `data`.
pub proof fn lemma_read_your_write(pre: Seq<u8>, addr: int, data: Seq<u8>)
    requires
        0 <= addr,
        addr + data.len() <= pre.len(),
    ensures
        spec_overwrite(pre, addr, data).subrange(addr, addr + data.len() as int) == data,
{
    assert(spec_overwrite(pre, addr, data).subrange(addr, addr + data.len() as int) =~= data);
}

/// Last-writer-wins: after writes `W1` then `W2`, the range of `W2` reads as
/// `W2`'s payload; bytes outside it covered by `W1` read as `W1`'s payload;
/// bytes covered by neither keep their prior value.
pub proof fn lemma_last_writer_wins(
    pre: Seq<u8>,
    a1: int,
    d1: Seq<u8>,
    a2: int,
    d2: Seq<u8>,
)
    requires
        0 <= a1,
        a1 + d1.len() <= pre.len(),
        0 <= a2,
        a2 + d2.len() <= pre.len(),
    ensures
        ({
            let post = spec_overwrite(spec_overwrite(pre, a1, d1), a2, d2);
            &&& forall|i: int| a2 <= i < a2 + d2.len() ==> post[i] == d2[i - a2]
            &&& forall|i: int|
                a1 <= i < a1 + d1.len() && !(a2 <= i < a2 + d2.len()) ==> post[i] == d1[i - a1]
            &&& forall|i: int|
                0 <= i < pre.len() && !(a1 <= i < a1 + d1.len()) && !(a2 <= i < a2 + d2.len())
                    ==> post[i] == pre[i]
        }),
{
}

/// The blank logical array reads as 0xFF at every offset: every in-range
/// read of a never-written device returns erased bytes.
pub proof fn lemma_default_value(size: nat, addr: int, len: int)
    requires
        0 <= addr,
        0 <= len,
        addr + len <= size,
    ensures
        spec_blank_state(size).subrange(addr, addr + len) =~= Seq::new(
            len as nat,
            |i: int| 0xFFu8,
        ),
{
}

} // verus!
