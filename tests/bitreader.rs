use dungers::{BitError, BitReader};

#[test]
fn test_read_ubit64_overflow() {
    let buf = [0xffu8; 8];
    let mut br = BitReader::new(&buf);

    assert!(br.read_ubit64(u64::BITS as usize).is_ok());
    assert!(br.read_ubit64(1).is_err());
}

#[test]
fn test_read_ubit64_multiple_reads() {
    let mut buf = [0u8; 8];
    buf[0] = 0b1100_101;
    let mut br = BitReader::new(&buf);

    assert_eq!(br.read_ubit64(3).unwrap(), 0b101);
    assert_eq!(br.read_ubit64(4).unwrap(), 0b1100);
}

#[test]
fn test_read_ubit64_spanning_blocks() {
    let mut buf = [0xff; 16];
    buf[8] = 0xaa;
    let mut br = BitReader::new(&buf);

    br.read_ubit64(60).unwrap();

    // 4 bits from the end of the first word and 4 from the start of the second
    let result = br.read_ubit64(8).unwrap();
    assert_eq!(result, 0xaf);
}

#[test]
fn test_read_bits() {
    let buf = [
        0b10110011, 0b01011100, 0b11001010, 0b00110101, 0xff, 0xff, 0xff, 0xff,
    ];
    let mut br = BitReader::new(&buf);

    let mut out = [0u8; 4];

    br.read_bits(&mut out[0..1], 3).unwrap();
    assert_eq!(out[0], 0b011);

    br.read_bits(&mut out[0..1], 5).unwrap();
    assert_eq!(out[0], 0b10110);

    br.read_bits(&mut out[0..1], 8).unwrap();
    assert_eq!(out[0], 0b01011100);

    br.read_bits(&mut out[0..2], 16).unwrap();
    assert_eq!(out[0], 0b11001010);
    assert_eq!(out[1], 0b00110101);

    // more bits than the destination holds
    assert!(br.read_bits(&mut out, 33).is_err());
}

#[test]
fn test_read_bytes() {
    let buf = [0xaa, 0xbb, 0xcc, 0xdd, 0xee, 0xff, 0x11, 0x22];
    let mut br = BitReader::new(&buf);

    let mut out = [0u8; 8];

    br.read_bytes(&mut out[0..4]).unwrap();
    assert_eq!(out[0..4], [0xaa, 0xbb, 0xcc, 0xdd]);

    br.read_bytes(&mut out[0..2]).unwrap();
    assert_eq!(out[0..2], [0xee, 0xff]);

    // more bytes than are left
    assert!(br.read_bytes(&mut out).is_err());

    br.read_bytes(&mut out[0..2]).unwrap();
    assert_eq!(out[0..2], [0x11, 0x22]);

    assert!(br.read_bytes(&mut out[0..1]).is_err());
}

#[test]
fn read_exactly_the_whole_buffer_then_fail() {
    let buf = [0x5au8; 8];
    let mut br = BitReader::new(&buf);
    assert_eq!(br.read_ubit64(64), Ok(0x5a5a_5a5a_5a5a_5a5a));
    assert_eq!(br.num_bits_left(), 0);
    assert_eq!(br.read_ubit64(1), Err(BitError::Overflow));
    assert_eq!(br.read_bool(), Err(BitError::Overflow));
    assert_eq!(br.read_byte(), Err(BitError::Overflow));
    assert_eq!(br.read_ubit64(0), Ok(0));
    assert!(br.is_overflowed().is_ok());
}

#[test]
fn read_more_than_64_bits_at_once_fails() {
    let buf = [0u8; 16];
    let mut br = BitReader::new(&buf);
    assert_eq!(br.read_ubit64(65), Err(BitError::Overflow));
    assert_eq!(br.num_bits_read(), 0);
}

#[test]
fn read_bool_and_byte() {
    let buf = [0b0000_0010, 0xab, 0xcd, 0, 0, 0, 0, 0];
    let mut br = BitReader::new(&buf);
    assert_eq!(br.read_bool(), Ok(false));
    assert_eq!(br.read_bool(), Ok(true));
    assert_eq!(br.num_bits_read(), 2);
    assert_eq!(br.num_bytes_read(), 1);
    br.seek(8).unwrap();
    assert_eq!(br.read_byte(), Ok(0xab));
    // a byte that straddles two bytes of the buffer
    br.seek(12).unwrap();
    assert_eq!(br.read_byte(), Ok(0xda));
}

#[test]
fn read_spanning_word_boundary_at_every_width() {
    // bits 60..124 hold the pattern; the read crosses from the first word into the second
    let buf = [
        0x00, 0x00, 0x00, 0x00, 0x00, 0x00, 0x00, 0x30, 0x12, 0x34, 0x56, 0x78, 0x9a, 0xbc, 0xde,
        0x0f,
    ];
    let mut br = BitReader::new(&buf);
    br.seek(60).unwrap();
    assert_eq!(br.read_ubit64(64), Ok(0xfdeb_c9a7_8563_4123));
}

#[test]
fn read_bits_buffer_too_small() {
    let buf = [0u8; 8];
    let mut br = BitReader::new(&buf);
    let mut out = [0u8; 1];
    assert_eq!(br.read_bits(&mut out, 9), Err(BitError::BufferTooSmall));
    assert_eq!(br.num_bits_read(), 0);
}

#[test]
fn read_bits_whole_words_and_partial_byte() {
    let buf = [
        0x01, 0x02, 0x03, 0x04, 0x05, 0x06, 0x07, 0x08, 0x09, 0x0a, 0x0b, 0xff, 0, 0, 0, 0,
    ];
    let mut br = BitReader::new(&buf);
    let mut out = [0xeeu8; 12];
    br.read_bits(&mut out, 92).unwrap();
    assert_eq!(
        out,
        [0x01, 0x02, 0x03, 0x04, 0x05, 0x06, 0x07, 0x08, 0x09, 0x0a, 0x0b, 0x0f]
    );
    assert_eq!(br.num_bits_read(), 92);
    assert_eq!(br.num_bytes_read(), 12);
    assert_eq!(br.num_bits_left(), 36);
    assert_eq!(br.num_bytes_left(), 4);
}

#[test]
fn reader_seek_and_seek_relative() {
    let buf = [0u8; 16];
    let mut br = BitReader::new(&buf);
    assert_eq!(br.seek(128), Ok(()));
    assert_eq!(br.seek(129), Err(BitError::Overflow));
    assert_eq!(br.num_bits_read(), 128);
    assert_eq!(br.seek_relative(-28), Ok(100));
    assert_eq!(br.seek_relative(-101), Err(BitError::Overflow));
    assert_eq!(br.seek_relative(29), Err(BitError::Overflow));
    assert_eq!(br.seek_relative(28), Ok(128));
    assert_eq!(br.seek_relative(isize::MIN), Err(BitError::Overflow));
    assert_eq!(br.num_bits_read(), 128);
}
