use eeprom_emul::engine::Eeprom;
use eeprom_emul::flash::Flash;
use eeprom_emul::layout::{write_rec_header_bytes, write_sector_header_bytes, RecHeader, SectorHeader};
use eeprom_emul::mock::{new_mock, MockFlash};
use eeprom_emul::crc::crc32;
use eeprom_emul::EepromError;

const SECTOR_MAGIC: u32 = 0xEE5E_C007;
const REC_MAGIC: u32 = 0xEE4C_0A11;

/// Serialized record header whose checksum covers the zeroed-checksum header
/// followed by the payload, as the engine writes it.
fn make_rec_header_bytes(seq: u32, addr: u32, payload: &Vec<u8>) -> Vec<u8> {
    let h0 = RecHeader { magic: REC_MAGIC, seq, addr, len: payload.len() as u32, crc32: 0 };
    let mut chk = write_rec_header_bytes(&h0);
    chk.extend_from_slice(payload.as_slice());
    let c = crc32(&chk);
    let h = RecHeader { crc32: c, ..h0 };
    write_rec_header_bytes(&h)
}

fn make_sector_header_bytes(seq: u32) -> Vec<u8> {
    let h = SectorHeader { magic: SECTOR_MAGIC, seq, reserved0: 0, reserved1: 0 };
    write_sector_header_bytes(&h)
}

fn read_vec(ee: &Eeprom<MockFlash>, addr: u32, len: usize) -> Vec<u8> {
    let mut buf = vec![0u8; len];
    ee.read(addr, &mut buf).unwrap();
    buf
}

#[test]
fn basic_read_write() {
    let mut ee = new_mock(0, 4096, 128).unwrap();
    // default 0xFF
    let mut buf = vec![0u8; 4];
    ee.read(0, &mut buf).unwrap();
    assert_eq!(&buf, &[0xFF, 0xFF, 0xFF, 0xFF]);
    // write
    ee.write(4, &vec![1, 2, 3, 4]).unwrap();
    let mut buf2 = vec![0u8; 6];
    ee.read(2, &mut buf2).unwrap();
    assert_eq!(&buf2, &[0xFF, 0xFF, 1, 2, 3, 4]);
}

#[test]
fn compaction_path() {
    let mut ee = new_mock(0, 4096, 64).unwrap();
    // perform many small writes to force compaction
    for i in 0..1024u32 {
        let v = vec![(i & 0xFF) as u8; 4];
        ee.write(i % 60, &v).unwrap();
    }
    // final value
    let mut out = vec![0u8; 4];
    ee.read(28, &mut out).unwrap();
    // Relaxed check: value is not 0xFF and was written
    assert_ne!(out, vec![0xFF, 0xFF, 0xFF, 0xFF]);
}

#[test]
fn compaction_last_writer_exact() {
    let mut ee = new_mock(0, 4096, 64).unwrap();
    for i in 0..1024u32 {
        let v = vec![(i & 0xFF) as u8; 4];
        ee.write(i % 60, &v).unwrap();
    }
    // Byte 28+k is last covered by offset 28+k, i.e. iteration 988+k.
    let out = read_vec(&ee, 28, 4);
    assert_eq!(out, vec![220, 221, 222, 223]);
}

#[test]
fn fresh_default_full_range() {
    let ee = new_mock(0, 4096, 128).unwrap();
    let out = read_vec(&ee, 0, 128);
    assert_eq!(out, vec![0xFF; 128]);
    let tail = read_vec(&ee, 120, 8);
    assert_eq!(tail, vec![0xFF; 8]);
}

#[test]
fn write_hello_world() {
    let mut ee = new_mock(0, 4096, 128).unwrap();
    ee.write(0, &b"hello".to_vec()).unwrap();
    ee.write(5, &b"world".to_vec()).unwrap();
    let out = read_vec(&ee, 0, 10);
    assert_eq!(out, vec![0x68, 0x65, 0x6C, 0x6C, 0x6F, 0x77, 0x6F, 0x72, 0x6C, 0x64]);
}

#[test]
fn overlapping_writes() {
    let mut ee = new_mock(0, 4096, 128).unwrap();
    ee.write(10, &vec![0xAA, 0xBB, 0xCC, 0xDD]).unwrap();
    ee.write(11, &vec![0x11, 0x22]).unwrap();
    let out = read_vec(&ee, 10, 4);
    assert_eq!(out, vec![0xAA, 0x11, 0x22, 0xDD]);
}

#[test]
fn bounds_errors_leave_state_unchanged() {
    let mut ee = new_mock(0, 4096, 128).unwrap();
    ee.write(0, &vec![7, 8, 9]).unwrap();
    // out-of-range read
    let mut buf = vec![0u8; 4];
    assert_eq!(ee.read(126, &mut buf), Err(EepromError::Bounds));
    assert_eq!(ee.read(129, &mut buf), Err(EepromError::Bounds));
    // out-of-range write
    assert_eq!(ee.write(126, &vec![1, 2, 3, 4]), Err(EepromError::Bounds));
    assert_eq!(ee.write(200, &vec![1]), Err(EepromError::Bounds));
    // empty write
    assert_eq!(ee.write(0, &Vec::new()), Err(EepromError::Bounds));
    // state unchanged
    assert_eq!(read_vec(&ee, 0, 3), vec![7, 8, 9]);
    assert_eq!(read_vec(&ee, 3, 125), vec![0xFF; 125]);
}

#[test]
fn config_errors() {
    assert_eq!(new_mock(0, 4096, 0).err(), Some(EepromError::Config));
    assert_eq!(new_mock(0, 0, 64).err(), Some(EepromError::Config));
    // logical size larger than two sectors
    assert_eq!(new_mock(0, 4096, 8193).err(), Some(EepromError::Config));
    // base not at the start of the mock's two sectors
    assert_eq!(new_mock(4096, 4096, 64).err(), Some(EepromError::Config));
    // sector size not 4-byte aligned: records could not stay aligned
    assert_eq!(new_mock(0, 4097, 64).err(), Some(EepromError::Config));
}

#[test]
fn capacity_error() {
    // A snapshot of 8000 bytes cannot fit in one 4096-byte sector, so a
    // record too large for the active sector's tail cannot be helped by
    // compaction.
    let mut ee = new_mock(0, 4096, 8000).unwrap();
    assert_eq!(ee.write(0, &vec![3u8; 4090]), Err(EepromError::Capacity));
    // The engine is still usable and unchanged.
    assert_eq!(read_vec(&ee, 0, 16), vec![0xFF; 16]);
    ee.write(0, &vec![1, 2]).unwrap();
    assert_eq!(read_vec(&ee, 0, 2), vec![1, 2]);
}

#[test]
fn persistence_across_reopen() {
    let mut ee = new_mock(0, 4096, 128).unwrap();
    ee.write(0, &b"hello".to_vec()).unwrap();
    ee.write(64, &vec![0xAB, 0xCD]).unwrap();
    ee.write(2, &vec![0x5A]).unwrap();
    let before = read_vec(&ee, 0, 128);
    let flash = ee.into_flash();
    let ee2 = Eeprom::new_with_flash(flash, 0, 4096, 128).unwrap();
    let after = read_vec(&ee2, 0, 128);
    assert_eq!(before, after);
}

#[test]
fn persistence_after_compaction() {
    let mut ee = new_mock(0, 4096, 64).unwrap();
    for i in 0..300u32 {
        let v = vec![(i & 0xFF) as u8; 4];
        ee.write(i % 60, &v).unwrap();
    }
    let before = read_vec(&ee, 0, 64);
    let flash = ee.into_flash();
    let ee2 = Eeprom::new_with_flash(flash, 0, 4096, 64).unwrap();
    assert_eq!(before, read_vec(&ee2, 0, 64));
}

#[test]
fn torn_tail_truncated_payload() {
    // Build a log by hand: sector header, one full record, then a record
    // whose header was programmed but whose payload never was.
    let mut flash = MockFlash::new(8192, 256, 4096);
    flash.program(0, &make_sector_header_bytes(1)).unwrap();
    let p1 = vec![0x11u8; 8];
    flash.program(16, &make_rec_header_bytes(1, 0, &p1)).unwrap();
    flash.program(36, &p1).unwrap();
    // records are 4-byte aligned: 16 + pad4(20 + 8) = 44
    let p2 = vec![0x22u8; 8];
    flash.program(44, &make_rec_header_bytes(1, 8, &p2)).unwrap();
    // crash: payload of the second record never written
    let ee = Eeprom::new_with_flash(flash, 0, 4096, 128).unwrap();
    assert_eq!(read_vec(&ee, 0, 8), vec![0x11; 8]);
    assert_eq!(read_vec(&ee, 8, 8), vec![0xFF; 8]);
    assert_eq!(ee.wptr(), 44);
}

#[test]
fn torn_tail_bit_flip() {
    let mut ee = new_mock(0, 4096, 128).unwrap();
    ee.write(0, &vec![0x42u8; 4]).unwrap();
    ee.write(4, &vec![0x42u8; 4]).unwrap();
    // First record at [16, 40), second at [40, 64); its payload starts at 60.
    let mut flash = ee.into_flash();
    // Clear one payload bit of the second record (programming can only
    // clear bits).
    flash.program(60, &vec![0xFDu8]).unwrap();
    let ee2 = Eeprom::new_with_flash(flash, 0, 4096, 128).unwrap();
    // The corrupted record is dropped; the one before it survives.
    assert_eq!(read_vec(&ee2, 0, 4), vec![0x42; 4]);
    assert_eq!(read_vec(&ee2, 4, 4), vec![0xFF; 4]);
    assert_eq!(ee2.wptr(), 40);
}

#[test]
fn crash_after_header_then_write() {
    let mut ee = new_mock(0, 4096, 128).unwrap();
    ee.write(0, &vec![9, 9, 9, 9]).unwrap();
    assert_eq!(ee.wptr(), 40);
    let pre = read_vec(&ee, 0, 128);
    let mut flash = ee.into_flash();
    // Crash injection: program a record header at the write pointer with a
    // checksum over a payload that never reaches flash.
    let p = vec![7u8; 4];
    flash.program(40, &make_rec_header_bytes(1, 4, &p)).unwrap();
    let mut ee2 = Eeprom::new_with_flash(flash, 0, 4096, 128).unwrap();
    // The shadow equals its pre-crash value and the write pointer points at
    // the truncated record's start.
    assert_eq!(read_vec(&ee2, 0, 128), pre);
    assert_eq!(ee2.wptr(), 40);
    // The tail is dirty, so the next write compacts onto the scratch-blank
    // sector instead of programming over leftover bits.
    let seq_before = ee2.seq();
    ee2.write(10, &vec![5, 5]).unwrap();
    assert_eq!(ee2.seq(), seq_before + 1);
    assert_eq!(read_vec(&ee2, 10, 2), vec![5, 5]);
    assert_eq!(read_vec(&ee2, 0, 4), vec![9, 9, 9, 9]);
    // And the result survives another reopen.
    let flash2 = ee2.into_flash();
    let ee3 = Eeprom::new_with_flash(flash2, 0, 4096, 128).unwrap();
    assert_eq!(read_vec(&ee3, 10, 2), vec![5, 5]);
    assert_eq!(read_vec(&ee3, 0, 4), vec![9, 9, 9, 9]);
}

#[test]
fn two_valid_sectors_higher_seq_wins() {
    let mut flash = MockFlash::new(8192, 256, 4096);
    flash.program(0, &make_sector_header_bytes(5)).unwrap();
    flash.program(4096, &make_sector_header_bytes(6)).unwrap();
    let mut ee = Eeprom::new_with_flash(flash, 0, 4096, 64).unwrap();
    assert_eq!(ee.active_base(), 4096);
    assert_eq!(ee.seq(), 6);
    // write and read a value; it survives a reopen
    ee.write(0, &vec![0xA5, 0x5A]).unwrap();
    let flash = ee.into_flash();
    let mut ee = Eeprom::new_with_flash(flash, 0, 4096, 64).unwrap();
    assert_eq!(read_vec(&ee, 0, 2), vec![0xA5, 0x5A]);
    assert_eq!(ee.active_base(), 4096);
    // Force a compaction: the stale sector (sequence 5) is erased and
    // overwritten with the next generation.
    for i in 0..200u32 {
        ee.write(i % 60, &vec![(i & 0xFF) as u8; 4]).unwrap();
    }
    assert_eq!(ee.active_base(), 0);
    assert_eq!(ee.seq(), 7);
}

#[test]
fn two_valid_sectors_tie_prefers_first() {
    let mut flash = MockFlash::new(8192, 256, 4096);
    flash.program(0, &make_sector_header_bytes(5)).unwrap();
    flash.program(4096, &make_sector_header_bytes(5)).unwrap();
    let ee = Eeprom::new_with_flash(flash, 0, 4096, 64).unwrap();
    assert_eq!(ee.active_base(), 0);
    assert_eq!(ee.seq(), 5);
}

#[test]
fn single_valid_sector_is_active() {
    let mut flash = MockFlash::new(8192, 256, 4096);
    flash.program(4096, &make_sector_header_bytes(3)).unwrap();
    let ee = Eeprom::new_with_flash(flash, 0, 4096, 64).unwrap();
    assert_eq!(ee.active_base(), 4096);
    assert_eq!(ee.seq(), 3);
}

#[test]
fn record_bytes_on_flash() {
    let mut ee = new_mock(0, 4096, 128).unwrap();
    ee.write(7, &vec![1, 2, 3]).unwrap();
    let mut flash = ee.into_flash();
    // The record sits right after the sector header.
    let mut hb = vec![0u8; 20];
    flash.read(16, &mut hb).unwrap();
    let h = eeprom_emul::layout::parse_rec_header(&hb).unwrap();
    assert_eq!(h.magic, REC_MAGIC);
    assert_eq!(h.seq, 1);
    assert_eq!(h.addr, 7);
    assert_eq!(h.len, 3);
    let mut payload = vec![0u8; 3];
    flash.read(36, &mut payload).unwrap();
    assert_eq!(payload, vec![1, 2, 3]);
    // Its checksum covers the zeroed-checksum header plus the payload.
    let h0 = RecHeader { crc32: 0, ..h };
    let mut chk = write_rec_header_bytes(&h0);
    chk.extend_from_slice(payload.as_slice());
    assert_eq!(crc32(&chk), h.crc32);
}
