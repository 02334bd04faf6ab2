use tscodec::compression::timestamp_compression::{TimestampCompressionError, TimestampCompressor};
use tscodec::compression::Compressor;

fn encode_one(seed: u64, timestamp: u64) -> Vec<u8> {
    let mut c = TimestampCompressor::new(seed, Vec::new());
    c.compress(timestamp).unwrap();
    c.flush().unwrap();
    c.into_inner()
}

fn encode_change(change: i64) -> Vec<u8> {
    let seed: u64 = 1 << 40;
    encode_one(seed, seed.wrapping_add(change as u64))
}

#[test]
fn first_gap_of_one_is_a_seven_bit_field() {
    let mut c = TimestampCompressor::new(1000, Vec::new());
    c.compress(1001).unwrap();
    assert_eq!(c.get_writer(), &vec![0x80]);
    c.flush().unwrap();
    assert_eq!(c.into_inner(), vec![0x80, 0x80]);
}

#[test]
fn an_unchanged_gap_is_one_zero_bit() {
    assert_eq!(encode_change(0), vec![0x00]);
    let mut c = TimestampCompressor::new(7, Vec::new());
    for _ in 0..8 {
        c.compress(7).unwrap();
    }
    assert_eq!(c.into_inner(), vec![0x00]);
}

#[test]
fn seven_bit_bucket_and_its_edges() {
    assert_eq!(encode_change(1), vec![0x80, 0x80]);
    assert_eq!(encode_change(-1), vec![0xbf, 0x80]);
    assert_eq!(encode_change(64), vec![0xa0, 0x00]);
    assert_eq!(encode_change(-63), vec![0xa0, 0x80]);
}

#[test]
fn nine_bit_bucket_and_its_edges() {
    assert_eq!(encode_change(65), vec![0xc4, 0x10]);
    assert_eq!(encode_change(-64), vec![0xdc, 0x00]);
    assert_eq!(encode_change(256), vec![0xd0, 0x00]);
    assert_eq!(encode_change(-255), vec![0xd0, 0x10]);
}

#[test]
fn twelve_bit_bucket_and_its_edges() {
    assert_eq!(encode_change(257), vec![0xe1, 0x01]);
    assert_eq!(encode_change(-256), vec![0xef, 0x00]);
    assert_eq!(encode_change(2048), vec![0xe8, 0x00]);
    assert_eq!(encode_change(-2047), vec![0xe8, 0x01]);
}

#[test]
fn thirty_two_bit_bucket() {
    assert_eq!(encode_change(2049), vec![0xf0, 0x00, 0x00, 0x80, 0x10]);
    assert_eq!(encode_change(-2048), vec![0xff, 0xff, 0xff, 0x80, 0x00]);
    assert_eq!(encode_change(1 << 31), vec![0xf8, 0x00, 0x00, 0x00, 0x00]);
    assert_eq!(encode_change(-(1 << 31) + 1), vec![0xf8, 0x00, 0x00, 0x00, 0x10]);
}

#[test]
fn a_change_wider_than_thirty_two_bits_loses_its_high_bits() {
    assert_eq!(encode_change(1 << 32), vec![0xf0, 0x00, 0x00, 0x00, 0x00]);
    assert_eq!(encode_change((1 << 32) + 5), vec![0xf0, 0x00, 0x00, 0x00, 0x50]);
}

#[test]
fn constant_interval_costs_one_bit_a_sample() {
    let mut c = TimestampCompressor::new(5000, Vec::new());
    for i in 1..=100u64 {
        c.compress(5000 + 10 * i).unwrap();
    }
    c.flush().unwrap();
    let bytes = c.into_inner();
    // nine bits for the first gap, then ninety-nine zero bits
    assert_eq!(bytes.len(), 14);
    assert_eq!(bytes[0], 0x85);
    assert!(bytes[1..].iter().all(|b| *b == 0));
}

#[test]
fn decreasing_timestamps_are_taken() {
    let mut c = TimestampCompressor::new(100, Vec::new());
    c.compress(90).unwrap();
    c.compress(80).unwrap();
    c.compress(95).unwrap();
    c.flush().unwrap();
    assert_eq!(c.into_inner(), vec![0xbb, 0x23, 0x20]);
}

#[test]
fn gaps_wrap_in_sixty_four_bits() {
    assert_eq!(encode_one(0, u64::MAX), vec![0xbf, 0x80]);
    assert_eq!(encode_one(0, 1 << 63), vec![0xf0, 0x00, 0x00, 0x00, 0x00]);
}

#[test]
fn timestamp_bytes_follow_those_already_in_the_sink() {
    let mut c = TimestampCompressor::new(1000, vec![0xaa]);
    c.compress(1001).unwrap();
    c.flush().unwrap();
    assert_eq!(c.into_inner(), vec![0xaa, 0x80, 0x80]);
}

fn feed<C: Compressor>(compressor: &mut C, data: Vec<C::Output>) -> Result<(), C::Error> {
    for datum in data {
        compressor.compress(datum)?;
    }
    compressor.finalize()
}

#[test]
fn timestamp_compressor_through_the_trait() {
    let mut c = TimestampCompressor::new(100, Vec::new());
    assert!(feed(&mut c, vec![90, 80, 95]).is_ok());
    assert_eq!(c.into_inner(), vec![0xbb, 0x23, 0x20]);
}

#[test]
fn timestamp_error_wraps_an_io_error() {
    let e = TimestampCompressionError::from(std::io::Error::new(
        std::io::ErrorKind::WriteZero,
        "sink is full",
    ));
    match e {
        TimestampCompressionError::IoError(inner) => {
            assert_eq!(inner.kind(), std::io::ErrorKind::WriteZero)
        }
    }
}
