use bitfield::bits::{read_bits, write_bits};

#[test]
fn write_then_read_aligned_byte() {
    let mut buf: Vec<u8> = vec![0u8; 2];
    write_bits(&mut buf, 8, 8, 0xAB);
    assert_eq!(read_bits(&buf, 8, 8), 0xAB);
    assert_eq!(buf[0], 0x00);
    assert_eq!(buf[1], 0xAB);
}

#[test]
fn write_then_read_straddling_bytes() {
    let mut buf: Vec<u8> = vec![0u8; 2];
    // Bits 4..12: the high nibble of byte 0 and the low nibble of byte 1.
    write_bits(&mut buf, 4, 8, 0xAB);
    assert_eq!(buf[0], 0xB0);
    assert_eq!(buf[1], 0x0A);
    assert_eq!(read_bits(&buf, 4, 8), 0xAB);
}

#[test]
fn write_preserves_neighbouring_bits() {
    let mut buf: Vec<u8> = vec![0xFFu8; 3];
    // Clear bits 5..19; everything outside must stay set.
    write_bits(&mut buf, 5, 14, 0);
    assert_eq!(buf[0], 0b0001_1111);
    assert_eq!(buf[1], 0x00);
    assert_eq!(buf[2], 0b1111_1000);
    assert_eq!(read_bits(&buf, 5, 14), 0);
    assert_eq!(read_bits(&buf, 0, 5), 0b1_1111);
    assert_eq!(read_bits(&buf, 19, 5), 0b1_1111);
}

#[test]
fn write_truncates_value_to_width() {
    let mut buf: Vec<u8> = vec![0u8; 1];
    // 0b1101 into a three-bit slot keeps only 0b101.
    write_bits(&mut buf, 0, 3, 0b1101);
    assert_eq!(read_bits(&buf, 0, 3), 0b101);
    assert_eq!(buf[0], 0b101);
}

#[test]
fn full_width_round_trip() {
    let mut buf: Vec<u8> = vec![0u8; 8];
    write_bits(&mut buf, 0, 64, u64::MAX);
    assert_eq!(read_bits(&buf, 0, 64), u64::MAX);
    write_bits(&mut buf, 0, 64, 0x0123_4567_89AB_CDEF);
    assert_eq!(read_bits(&buf, 0, 64), 0x0123_4567_89AB_CDEF);
}

#[test]
fn field_contained_in_one_byte_mid_bits() {
    let mut buf: Vec<u8> = vec![0b1000_0001u8; 1];
    // Bits 2..5 lie strictly inside the byte: both ends must survive.
    write_bits(&mut buf, 2, 3, 0b111);
    assert_eq!(buf[0], 0b1001_1101);
    assert_eq!(read_bits(&buf, 2, 3), 0b111);
    assert_eq!(read_bits(&buf, 0, 2), 0b01);
    assert_eq!(read_bits(&buf, 5, 3), 0b100);
}

#[test]
fn mid_byte_start_and_end_over_several_bytes() {
    let mut buf: Vec<u8> = vec![0u8; 3];
    // Bits 3..21: partial lead, one whole byte, partial tail.
    write_bits(&mut buf, 3, 18, 0b10_1100_1110_0101_1010);
    assert_eq!(read_bits(&buf, 3, 18), 0b10_1100_1110_0101_1010);
    assert_eq!(read_bits(&buf, 0, 3), 0);
    assert_eq!(read_bits(&buf, 21, 3), 0);
}

#[test]
fn reading_zeroes_is_zero() {
    let buf: Vec<u8> = vec![0u8; 4];
    assert_eq!(read_bits(&buf, 0, 1), 0);
    assert_eq!(read_bits(&buf, 7, 17), 0);
    assert_eq!(read_bits(&buf, 13, 3), 0);
}
