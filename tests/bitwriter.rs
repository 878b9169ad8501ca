use dungers::{BitError, BitReader, BitWriter};

#[test]
fn test_write_ubit64_extra_bits_erasure() {
    let mut buf = [0u8; 8];
    let mut bw = BitWriter::new(&mut buf);

    // 4 bits asked for, a value with more than 4 bits set
    bw.write_ubit64(0b11111111, 4).unwrap();
    assert_eq!(buf[0], 0b1111);
}

#[test]
fn test_write_ubit64_overflow() {
    let mut buf = [0u8; 8];
    let mut bw = BitWriter::new(&mut buf);

    assert!(bw.write_ubit64(u64::MAX, u64::BITS as usize).is_ok());
    assert!(bw.write_ubit64(0b1, 1).is_err());
}

#[test]
fn test_write_ubit64_multiple_writes() {
    let mut buf = [0u8; 8];
    let mut bw = BitWriter::new(&mut buf);

    bw.write_ubit64(0b101, 3).unwrap();
    bw.write_ubit64(0b1100, 4).unwrap();
    assert_eq!(buf[0], 0b1100_101);
}

#[test]
fn test_write_ubit64_spanning_blocks() {
    let mut buf = [0u8; 16];
    let mut bw = BitWriter::new(&mut buf);

    // 60 bits nearly fill the first word
    bw.write_ubit64(0xfffffffffffffff, 60).unwrap();

    // 8 more bits span the first and second word
    bw.write_ubit64(0xaa, 8).unwrap();

    let block1 = u64::from_le_bytes(buf[0..8].try_into().unwrap());
    assert_eq!(block1, 0xafffffffffffffff);

    let block2 = u64::from_le_bytes(buf[8..16].try_into().unwrap());
    assert_eq!(block2, 0xa);
}

#[test]
fn spanning_write_reads_back() {
    let mut buf = [0u8; 16];
    {
        let mut bw = BitWriter::new(&mut buf);
        bw.write_ubit64(0xfffffffffffffff, 60).unwrap();
        bw.write_ubit64(0xaa, 8).unwrap();
        assert_eq!(bw.num_bits_written(), 68);
        assert_eq!(bw.num_bytes_written(), 9);
    }
    let mut br = BitReader::new(&buf);
    assert_eq!(br.read_ubit64(60), Ok(0xfffffffffffffff));
    assert_eq!(br.read_ubit64(8), Ok(0xaa));
}

#[test]
fn write_then_read_every_width() {
    let values = [0u64, 1, 0x8000_0000_0000_0001, u64::MAX, 0x0123_4567_89ab_cdef];
    for n in 0..=64usize {
        for &v in &values {
            for start in [0usize, 3, 60, 64] {
                let mut buf = [0x5au8; 24];
                {
                    let mut bw = BitWriter::new(&mut buf);
                    bw.seek(start).unwrap();
                    bw.write_ubit64(v, n).unwrap();
                }
                let mut br = BitReader::new(&buf);
                br.seek(start).unwrap();
                let mask = if n == 64 { u64::MAX } else { (1u64 << n) - 1 };
                assert_eq!(br.read_ubit64(n), Ok(v & mask));
                // the bits on either side are untouched
                let mut untouched = BitReader::new(&buf);
                for bit in (0..start).chain(start + n..192) {
                    untouched.seek(bit).unwrap();
                    assert_eq!(untouched.read_bool(), Ok(0x5au8 >> (bit % 8) & 1 == 1));
                }
            }
        }
    }
}

#[test]
fn write_truncates_instead_of_failing() {
    let mut buf = [0u8; 8];
    let mut bw = BitWriter::new(&mut buf);
    assert_eq!(bw.write_ubit64(0xff, 4), Ok(()));
    assert_eq!(bw.write_ubit64(0x1_0000_0000, 32), Ok(()));
    assert_eq!(buf[0], 0b1111);
    assert_eq!(&buf[1..5], &[0, 0, 0, 0]);
}

#[test]
fn write_past_the_end_fails_and_changes_nothing() {
    let mut buf = [0u8; 8];
    let mut bw = BitWriter::new(&mut buf);
    bw.seek(60).unwrap();
    assert_eq!(bw.write_ubit64(0xff, 5), Err(BitError::Overflow));
    assert_eq!(bw.write_ubit64(0, 65), Err(BitError::Overflow));
    assert_eq!(bw.num_bits_written(), 60);
    assert_eq!(bw.num_bits_left(), 4);
    assert_eq!(bw.num_bytes_left(), 0);
    assert_eq!(bw.write_ubit64(0xf, 4), Ok(()));
    assert_eq!(bw.write_byte(1), Err(BitError::Overflow));
    assert_eq!(buf, [0, 0, 0, 0, 0, 0, 0, 0xf0]);
}

#[test]
fn writer_seek_and_seek_relative() {
    let mut buf = [0u8; 8];
    let mut bw = BitWriter::new(&mut buf);
    assert_eq!(bw.seek(65), Err(BitError::Overflow));
    assert_eq!(bw.seek(8), Ok(()));
    assert_eq!(bw.write_byte(0x42), Ok(()));
    assert_eq!(bw.seek_relative(-16), Ok(0));
    assert_eq!(bw.seek_relative(-1), Err(BitError::Overflow));
    assert_eq!(bw.seek_relative(65), Err(BitError::Overflow));
    assert_eq!(bw.write_byte(0x41), Ok(()));
    assert_eq!(&buf[0..2], &[0x41, 0x42]);
}

#[test]
fn into_buffer_hands_back_the_written_bytes() {
    let mut buf = [0u8; 8];
    let mut bw = BitWriter::new(&mut buf);
    bw.write_ubit64(0x1234, 16).unwrap();
    let out = bw.into_buffer();
    assert_eq!(out.len(), 8);
    let mut br = BitReader::new(out);
    assert_eq!(br.read_ubit64(16), Ok(0x1234));
}

#[test]
fn failed_varint_write_leaves_cursor_at_last_whole_byte() {
    let mut buf = [0u8; 8];
    let mut bw = BitWriter::new(&mut buf);
    bw.seek(3).unwrap();
    assert_eq!(bw.write_uvarint64(u64::MAX), Err(BitError::Overflow));
    // 61 bits were left: seven whole bytes went in before the eighth failed
    assert_eq!(bw.num_bits_written(), 3 + 56);
}
