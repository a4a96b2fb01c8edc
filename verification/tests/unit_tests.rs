use eeprom_emul::crc::crc32;
use eeprom_emul::flash::{Flash, FlashError};
use eeprom_emul::layout::{
    pad4, parse_rec_header, parse_sector_header, write_rec_header_bytes,
    write_sector_header_bytes, RecHeader, SectorHeader,
};
use eeprom_emul::mock::MockFlash;
use eeprom_emul::parse::{decode_hex, parse_u32};

#[test]
fn crc32_empty() {
    assert_eq!(crc32(&Vec::new()), 0x0000_0000);
}

#[test]
fn crc32_check_value() {
    assert_eq!(crc32(&b"123456789".to_vec()), 0xCBF4_3926);
}

#[test]
fn crc32_changes_on_corruption() {
    let a = crc32(&vec![1, 2, 3, 4]);
    let b = crc32(&vec![1, 2, 3, 5]);
    assert_ne!(a, b);
}

#[test]
fn pad4_values() {
    assert_eq!(pad4(0), 0);
    assert_eq!(pad4(1), 4);
    assert_eq!(pad4(20), 20);
    assert_eq!(pad4(21), 24);
    assert_eq!(pad4(24), 24);
    assert_eq!(pad4(25), 28);
}

#[test]
fn sector_header_roundtrip() {
    let h = SectorHeader { magic: 0xEE5E_C007, seq: 42, reserved0: 0, reserved1: 0 };
    let bytes = write_sector_header_bytes(&h);
    assert_eq!(bytes.len(), 16);
    assert_eq!(parse_sector_header(&bytes), Some(h));
}

#[test]
fn sector_header_rejects_blank_and_bad_magic() {
    assert_eq!(parse_sector_header(&vec![0xFF; 16]), None);
    assert_eq!(parse_sector_header(&vec![0x00; 16]), None);
    assert_eq!(parse_sector_header(&vec![0xFF; 8]), None);
    // valid magic but erased sequence word is treated as blank
    let h = SectorHeader { magic: 0xEE5E_C007, seq: 0xFFFF_FFFF, reserved0: 0, reserved1: 0 };
    assert_eq!(parse_sector_header(&write_sector_header_bytes(&h)), None);
}

#[test]
fn rec_header_roundtrip() {
    let h = RecHeader { magic: 0xEE4C_0A11, seq: 7, addr: 12, len: 5, crc32: 0xDEADBEEF };
    let bytes = write_rec_header_bytes(&h);
    assert_eq!(bytes.len(), 20);
    assert_eq!(parse_rec_header(&bytes), Some(h));
}

#[test]
fn rec_header_blank_and_zero_magic_mean_no_record() {
    assert_eq!(parse_rec_header(&vec![0xFF; 20]), None);
    assert_eq!(parse_rec_header(&vec![0x00; 20]), None);
    assert_eq!(parse_rec_header(&vec![0xFF; 10]), None);
}

#[test]
fn mock_program_clears_bits_only() {
    let mut f = MockFlash::new(8192, 256, 4096);
    f.program(5, &vec![0xF0]).unwrap();
    let mut b = vec![0u8; 1];
    f.read(5, &mut b).unwrap();
    assert_eq!(b[0], 0xF0);
    // programming again can only clear more bits
    f.program(5, &vec![0x3C]).unwrap();
    f.read(5, &mut b).unwrap();
    assert_eq!(b[0], 0x30);
}

#[test]
fn mock_sector_erase_restores_ff() {
    let mut f = MockFlash::new(8192, 256, 4096);
    f.program(100, &vec![0x00, 0x01]).unwrap();
    // erasing via any address inside the sector erases the whole sector
    f.sector_erase(4000).unwrap();
    let mut b = vec![0u8; 2];
    f.read(100, &mut b).unwrap();
    assert_eq!(b, vec![0xFF, 0xFF]);
}

#[test]
fn mock_erase_leaves_other_sector() {
    let mut f = MockFlash::new(8192, 256, 4096);
    f.program(5000, &vec![0x00]).unwrap();
    f.sector_erase(0).unwrap();
    let mut b = vec![0u8; 1];
    f.read(5000, &mut b).unwrap();
    assert_eq!(b[0], 0x00);
}

#[test]
fn mock_out_of_range_errors() {
    let mut f = MockFlash::new(8192, 256, 4096);
    let mut b = vec![0u8; 4];
    assert_eq!(f.read(8190, &mut b), Err(FlashError::OutOfRange));
    assert_eq!(f.program(8191, &vec![0, 0]), Err(FlashError::OutOfRange));
    assert_eq!(f.sector_erase(8192), Err(FlashError::OutOfRange));
    // the failed program had already committed its in-range leading chunk
    let mut c = vec![0u8; 1];
    f.read(8191, &mut c).unwrap();
    assert_eq!(c[0], 0x00);
}

#[test]
fn mock_failed_program_commits_leading_pages() {
    // A program crossing the device end commits whole page chunks up to the
    // first out-of-range one, exactly like a page-by-page device.
    let mut f = MockFlash::new(8192, 256, 4096);
    // start mid-page: first chunk [8000, 8192) fits, the next does not
    assert_eq!(f.program(8000, &vec![0x00; 300]), Err(FlashError::OutOfRange));
    let mut c = vec![0u8; 1];
    f.read(8000, &mut c).unwrap();
    assert_eq!(c[0], 0x00);
    f.read(8191, &mut c).unwrap();
    assert_eq!(c[0], 0x00);
}

#[test]
fn mock_geometry_reports_configuration() {
    let f = MockFlash::new(8192, 256, 4096);
    let g = f.geometry();
    assert_eq!(g.mem_size, 8192);
    assert_eq!(g.page_size, 256);
    assert_eq!(g.sector_size, 4096);
}

#[test]
fn parse_u32_decimal_and_hex() {
    assert_eq!(parse_u32(&b"0".to_vec()), Some(0));
    assert_eq!(parse_u32(&b"123".to_vec()), Some(123));
    assert_eq!(parse_u32(&b"+5".to_vec()), Some(5));
    assert_eq!(parse_u32(&b"4294967295".to_vec()), Some(4294967295));
    assert_eq!(parse_u32(&b"0x1A".to_vec()), Some(26));
    assert_eq!(parse_u32(&b"0xdeadBEEF".to_vec()), Some(0xDEAD_BEEF));
    assert_eq!(parse_u32(&b"0xFFFFFFFF".to_vec()), Some(u32::MAX));
}

#[test]
fn parse_u32_rejects() {
    assert_eq!(parse_u32(&b"".to_vec()), None);
    assert_eq!(parse_u32(&b"0x".to_vec()), None);
    assert_eq!(parse_u32(&b"12a".to_vec()), None);
    assert_eq!(parse_u32(&b"-4".to_vec()), None);
    assert_eq!(parse_u32(&b"4294967296".to_vec()), None);
    assert_eq!(parse_u32(&b"0x100000000".to_vec()), None);
    assert_eq!(parse_u32(&b"++5".to_vec()), None);
}

#[test]
fn decode_hex_pairs() {
    assert_eq!(decode_hex(&b"deadBEEF".to_vec()), Some(vec![0xDE, 0xAD, 0xBE, 0xEF]));
    assert_eq!(decode_hex(&b"00ff10".to_vec()), Some(vec![0x00, 0xFF, 0x10]));
    assert_eq!(decode_hex(&b"".to_vec()), Some(Vec::new()));
    assert_eq!(decode_hex(&b"abc".to_vec()), None);
    assert_eq!(decode_hex(&b"zz".to_vec()), None);
}
