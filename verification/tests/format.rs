use mcu_runtime::format::{
    block_len, crc8, parse_hdr, Block, ParseNoBlock, LENLEN_MASK, TAGLEN_MASK, TAG_LIMIT,
    VALIDITY_MASK,
};

/// Sets the last byte of `header` to the checksum of the others
fn with_crc(header: &mut [u8]) {
    let n = header.len();
    header[n - 1] = crc8(header[0] & !VALIDITY_MASK, &header[1..n - 1]);
}

fn parts<'a>(zone: &'a [u8], b: &Block) -> (bool, &'a [u8], &'a [u8], usize) {
    (
        b.valid,
        &zone[b.tag_start..b.tag_start + b.tag_len],
        &zone[b.data_start..b.data_start + b.data_len],
        b.size,
    )
}

#[test]
fn crc_has_a_correct_crc_table() {
    // The table of the checksum, computed from its polynomial; the checksum
    // of one byte, from a zero state, is its entry of the table
    let polynomial = 0xD5;
    let msb = 0b10000000;
    let mut t: u8 = msb;
    let mut i = 1;
    let mut table: [u8; 256] = [0; 256];
    while i < 256 {
        let tmp = if t & msb != 0 { polynomial } else { 0 };
        t = (t << 1) ^ tmp;
        for j in 0..i {
            let idx = (i + j) as u8;
            table[idx as usize] = table[j as usize] ^ t;
        }
        i *= 2;
    }
    for b in 0..=255u8 {
        assert_eq!(crc8(b, &[]), table[b as usize]);
    }
}

#[test]
fn crc_computes_correct_crcs() {
    assert_eq!(crc8(0xE1, &[0x00, 0xCA, 0xFE]), 0x26);
    assert_eq!(crc8(0x12, &[0x34, 0x56, 0x78, 0x90]), 0x3E);
}

#[test]
fn fs_does_not_have_overlapping_masks() {
    assert_eq!(VALIDITY_MASK & TAGLEN_MASK, 0);
    assert_eq!(VALIDITY_MASK & LENLEN_MASK, 0);
    assert_eq!(TAGLEN_MASK & LENLEN_MASK, 0);
}

#[test]
fn fs_correctly_computes_a_blocks_length() {
    assert_eq!(block_len(b"test".len(), b"1234567890".len()), 17);
    assert_eq!(block_len(b"test2".len(), 500), 511);
    assert_eq!(block_len(1, 0xFF), 2 + 1 + 1 + 0xFF);
    assert_eq!(block_len(1, 0x100), 2 + 4 + 1 + 0x100);
    assert_eq!(TAG_LIMIT, 30);
}

#[test]
fn parse_hdr_parses_correct_header() {
    let mut header = [0b01001000, 5, b't', b'e', b's', b't', b'v', b'a', b'l', b'u', b'e', 0];
    with_crc(&mut header);
    let b = parse_hdr(&header).unwrap();
    assert_eq!(parts(&header, &b), (true, &b"test"[..], &b"value"[..], 12));
}

#[test]
fn parse_hdr_parses_no_longer_valid_header() {
    let mut header = [0b00001000, 5, b't', b'e', b's', b't', b'v', b'a', b'l', b'u', b'e', 0];
    with_crc(&mut header);
    let b = parse_hdr(&header).unwrap();
    assert_eq!(parts(&header, &b), (false, &b"test"[..], &b"value"[..], 12));
}

#[test]
fn parse_hdr_detects_checksum_errors() {
    let header = [0b01001000, 5, b't', b'e', b's', b't', b'v', b'a', b'l', b'u', b'e', 0];
    assert_eq!(parse_hdr(&header).unwrap_err(), ParseNoBlock::Broken);
}

#[test]
fn parse_hdr_detects_empty_block() {
    assert_eq!(parse_hdr(&[0xFF]).unwrap_err(), ParseNoBlock::Empty);
}

#[test]
fn parse_hdr_detects_erased_blocks() {
    assert_eq!(parse_hdr(&[0, 0, 0, 0, 0, 0, 0x42]).unwrap_err(), ParseNoBlock::Erased(6));
}

#[test]
fn parse_hdr_skips_a_block_that_is_not_yet_valid() {
    let mut header = [0b11001000, 5, b't', b'e', b's', b't', b'v', b'a', b'l', b'u', b'e', 0];
    with_crc(&mut header);
    let b = parse_hdr(&header).unwrap();
    assert_eq!(parts(&header, &b), (false, &b"test"[..], &b"value"[..], 12));
}

#[test]
fn parse_hdr_reads_a_long_length() {
    let data: Vec<u8> = (0..300).map(|x| x as u8).collect();
    let mut zone = vec![0b01000011, 0, 0, 0x01, 0x2C, b'k'];
    zone.extend_from_slice(&data);
    zone.push(0);
    with_crc(&mut zone);
    zone.extend_from_slice(&[0xFF; 7]);
    let b = parse_hdr(&zone).unwrap();
    assert_eq!(parts(&zone, &b), (true, &b"k"[..], &data[..], 2 + 4 + 1 + 300));
}

#[test]
fn parse_hdr_finds_a_truncated_block_broken() {
    let mut header = [0b01001000, 5, b't', b'e', b's', b't', b'v', b'a', b'l', b'u', b'e', 0];
    with_crc(&mut header);
    assert_eq!(parse_hdr(&header[..11]).unwrap_err(), ParseNoBlock::Broken);
    assert_eq!(parse_hdr(&[]).unwrap_err(), ParseNoBlock::Broken);
}
