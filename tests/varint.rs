use dungers::varint::{
    max_varint_size, read_uvarint, read_uvarint32, read_uvarint64, read_varint32, read_varint64,
    write_uvarint64, write_varint64, zigzag_decode32, zigzag_decode64, zigzag_encode32,
    zigzag_encode64, VarintError,
};
use dungers::{BitError, BitReader, BitWriter};

fn unsigned_values() -> Vec<u64> {
    // 256 evenly spaced values of the range, the maximum, and a spread of products
    let mut values = Vec::new();

    let increment = (1 as u64) << (u64::BITS - 8);
    values.extend((0..256).map(|i| u64::MIN + i * increment));

    values.push(u64::MAX);

    values.extend((-500..500).map(|i| (i as u64).wrapping_mul(0x12345789abcdefu64 as u64)));
    values
}

fn signed_values() -> Vec<i64> {
    let mut values = Vec::new();

    let mut value = i64::MIN;
    let increment = (1 as i64) << (i64::BITS - 8);

    for _ in 0..256 {
        values.push(value);
        // the addition in the last iteration overflows
        value = value.wrapping_add(increment);
    }

    values.push(i64::MAX);

    values.extend((-500..500).map(|i| (i as i64).wrapping_mul(0x12345789abcdefi64 as i64)));
    values
}

#[test]
fn test_varuint64() {
    let values = unsigned_values();

    let mut buf = vec![0u8; 1 << 20];

    let mut bw = BitWriter::new(&mut buf);
    for x in &values {
        bw.write_uvarint64(*x).unwrap();
    }

    let mut br = BitReader::new(&buf);
    for want in &values {
        let got = br.read_uvarint64().unwrap();
        assert_eq!(got, *want);
    }
}

#[test]
fn varint_test_varint64() {
    let values = signed_values();

    let mut buf = vec![0u8; 1 << 20];

    let mut bw = BitWriter::new(&mut buf);
    for x in &values {
        bw.write_varint64(*x).unwrap();
    }

    let mut br = BitReader::new(&buf);
    for want in &values {
        let got = br.read_varint64().unwrap();
        assert_eq!(got, *want);
    }
}

#[test]
fn test_uvarint64() {
    let values = unsigned_values();

    let mut buf = Vec::new();
    for x in &values {
        write_uvarint64(&mut buf, *x);
    }

    let mut at = 0;
    for want in &values {
        let (got, n) = read_uvarint64(&buf[at..]).unwrap();
        assert_eq!(got, *want);
        assert!(n <= 10);
        at += n;
    }
    assert_eq!(at, buf.len());
}

#[test]
fn tests_test_varint64() {
    let values = signed_values();

    let mut buf = Vec::new();
    for x in &values {
        write_varint64(&mut buf, *x);
    }

    let mut at = 0;
    for want in &values {
        let (got, n) = read_varint64(&buf[at..]).unwrap();
        assert_eq!(got, *want);
        at += n;
    }
    assert_eq!(at, buf.len());
}

#[test]
fn uvarint_known_encodings() {
    let mut buf = Vec::new();
    assert_eq!(write_uvarint64(&mut buf, 0), 1);
    assert_eq!(write_uvarint64(&mut buf, 127), 1);
    assert_eq!(write_uvarint64(&mut buf, 300), 2);
    assert_eq!(write_uvarint64(&mut buf, u64::MAX), 10);
    assert_eq!(
        buf,
        vec![
            0x00, 0x7f, 0xac, 0x02, 0xff, 0xff, 0xff, 0xff, 0xff, 0xff, 0xff, 0xff, 0xff, 0x01
        ]
    );
    assert_eq!(read_uvarint64(&[0xac, 0x02, 0x55]), Ok((300, 2)));
}

#[test]
fn zigzag_examples() {
    assert_eq!(zigzag_encode64(0), 0);
    assert_eq!(zigzag_encode64(-1), 1);
    assert_eq!(zigzag_encode64(1), 2);
    assert_eq!(zigzag_encode64(-2), 3);
    assert_eq!(zigzag_encode64(i64::MAX), u64::MAX - 1);
    assert_eq!(zigzag_encode64(i64::MIN), u64::MAX);
    assert_eq!(zigzag_encode32(2147483647), 4294967294);
    assert_eq!(zigzag_encode32(-2147483648), 4294967295);
    assert_eq!(zigzag_decode32(3), -2);
    assert_eq!(zigzag_decode64(u64::MAX), i64::MIN);
    for v in [i64::MIN, -65, -64, -63, -1, 0, 1, 63, 64, i64::MAX] {
        assert_eq!(zigzag_decode64(zigzag_encode64(v)), v);
    }
    for v in [i32::MIN, -1, 0, 1, i32::MAX] {
        assert_eq!(zigzag_decode32(zigzag_encode32(v)), v);
    }
}

#[test]
fn small_signed_values_take_one_byte() {
    for v in -63i64..=63 {
        let mut buf = Vec::new();
        assert_eq!(write_varint64(&mut buf, v), 1);
    }
    let mut buf = Vec::new();
    assert_eq!(write_varint64(&mut buf, 64), 2);
    assert_eq!(write_varint64(&mut buf, -65), 2);
}

#[test]
fn hostile_input_is_malformed() {
    let bytes = [0xffu8; 10];
    assert_eq!(read_uvarint64(&bytes), Err(VarintError::MalformedVarint));
    assert_eq!(read_varint64(&bytes), Err(VarintError::MalformedVarint));
    assert_eq!(read_uvarint32(&bytes[..5]), Err(VarintError::MalformedVarint));
    assert_eq!(read_varint32(&bytes[..5]), Err(VarintError::MalformedVarint));

    let mut buf = [0x80u8; 16];
    let mut br = BitReader::new(&buf);
    assert_eq!(br.read_uvarint64(), Err(BitError::MalformedVarint));
    buf[9] = 0x01;
    let mut br = BitReader::new(&buf);
    assert_eq!(br.read_uvarint64(), Ok(1u64 << 63));
    assert_eq!(br.num_bits_read(), 80);
}

#[test]
fn truncated_varint() {
    assert_eq!(read_uvarint64(&[]), Err(VarintError::UnexpectedEof));
    assert_eq!(read_uvarint64(&[0x80, 0x80]), Err(VarintError::UnexpectedEof));
    let buf = [0x80u8; 8];
    let mut br = BitReader::new(&buf);
    assert_eq!(br.read_uvarint64(), Err(BitError::Overflow));
}

#[test]
fn uvarint32_drops_high_bits() {
    // 2^35 - 1 encoded in five bytes reads as a u32 of all ones
    let bytes = [0xff, 0xff, 0xff, 0xff, 0x7f];
    assert_eq!(read_uvarint32(&bytes), Ok((u32::MAX, 5)));
    assert_eq!(read_uvarint(&bytes, 16), Err(VarintError::MalformedVarint));
    assert_eq!(read_uvarint(&bytes, 64), Ok(((1u64 << 35) - 1, 5)));
    assert_eq!(read_varint32(&[0x03]), Ok((-2, 1)));

    let mut buf = [0u8; 8];
    buf[..5].copy_from_slice(&bytes);
    let mut br = BitReader::new(&buf);
    assert_eq!(br.read_uvarint32(), Ok(u32::MAX));
    let mut br = BitReader::new(&buf);
    assert_eq!(br.read_varint32(), Ok(i32::MIN));
    let mut br = BitReader::new(&buf);
    assert_eq!(br.read_uvarint(16), Err(BitError::MalformedVarint));
}

#[test]
fn writer_varint_that_does_not_fit() {
    let mut buf = [0u8; 8];
    let mut bw = BitWriter::new(&mut buf);
    bw.seek(8).unwrap();
    assert_eq!(bw.write_uvarint64(u64::MAX), Err(BitError::Overflow));
    let mut bw = BitWriter::new(&mut buf);
    assert_eq!(bw.write_uvarint64(1 << 49), Ok(()));
    assert_eq!(bw.num_bits_written(), 64);
}

#[test]
fn max_sizes() {
    assert_eq!(max_varint_size(64), 10);
    assert_eq!(max_varint_size(32), 5);
    assert_eq!(max_varint_size(8), 2);
    assert_eq!(max_varint_size(7), 1);
    assert_eq!(max_varint_size(0), 0);
}

#[test]
fn bit_reader_varint_errors_consume_a_bounded_prefix() {
    let buf = [0xffu8; 16];
    let mut br = BitReader::new(&buf);
    assert_eq!(br.read_uvarint64(), Err(BitError::MalformedVarint));
    assert_eq!(br.num_bits_read(), 80);
    let mut br = BitReader::new(&buf);
    assert_eq!(br.read_uvarint32(), Err(BitError::MalformedVarint));
    assert_eq!(br.num_bits_read(), 40);
    let buf = [0x80u8; 8];
    let mut br = BitReader::new(&buf);
    assert_eq!(br.read_varint64(), Err(BitError::Overflow));
    assert_eq!(br.num_bits_read(), 64);
}
