use tscodec::compression::timestamp_compression::TimestampCompressor;
use tscodec::compression::value_compression::ValueCompressor;
use tscodec::data_structures::time_series::TimeSeries;

/// Reads a byte sequence bit by bit, most significant bit first.
struct Bits<'a> {
    bytes: &'a [u8],
    at: usize,
}

impl<'a> Bits<'a> {
    fn bit(&mut self) -> bool {
        let byte = self.bytes[self.at / 8];
        let bit = (byte >> (7 - self.at % 8)) & 1 == 1;
        self.at += 1;
        bit
    }

    fn word(&mut self, width: usize) -> u64 {
        let mut word: u64 = 0;
        for _ in 0..width {
            word = (word << 1) | (self.bit() as u64);
        }
        word
    }

    fn change(&mut self, width: usize) -> i64 {
        let word = self.word(width) as i64;
        if word <= 1 << (width - 1) {
            word
        } else {
            word - (1 << width)
        }
    }
}

fn read_timestamps(bytes: &[u8], first: u64, n: usize) -> Vec<u64> {
    let mut bits = Bits { bytes, at: 0 };
    let (mut last, mut last_delta) = (first, 0i64);
    let mut out = Vec::new();
    for _ in 0..n {
        let change = if !bits.bit() {
            0
        } else if !bits.bit() {
            bits.change(7)
        } else if !bits.bit() {
            bits.change(9)
        } else if !bits.bit() {
            bits.change(12)
        } else {
            bits.change(32)
        };
        last_delta = last_delta.wrapping_add(change);
        last = last.wrapping_add(last_delta as u64);
        out.push(last);
    }
    out
}

fn read_values(bits: &mut Bits, first: u64, leading: u32, trailing: u32, n: usize) -> Vec<u64> {
    let (mut previous, mut leading, mut trailing) = (first, leading, trailing);
    let mut out = Vec::new();
    for _ in 0..n {
        if bits.bit() {
            if bits.bit() {
                leading = bits.word(5) as u32;
                let width = match bits.word(6) as u32 {
                    0 => 64,
                    width => width,
                };
                trailing = 64 - leading - width;
            }
            let width = (64 - leading - trailing) as usize;
            previous ^= bits.word(width) << trailing;
        }
        out.push(previous);
    }
    out
}

#[test]
fn timestamps_whose_changes_fit_are_read_back() {
    let first = 1_700_000_000_000u64;
    let timestamps: Vec<u64> = vec![
        first + 10,
        first + 20,
        first + 30,
        first + 29,
        first + 200,
        first + 100,
        first + 5_000,
        first + 4_000,
        first + 1_000_000_000,
        first,
        // the gap grows by 2^31, the most that fits, then shrinks by 2^31 - 1
        first + 1_147_483_648,
        first + 147_483_649,
        first + 147_483_649,
    ];
    let mut c = TimestampCompressor::new(first, Vec::new());
    for t in &timestamps {
        c.compress(*t).unwrap();
    }
    c.flush().unwrap();
    let bytes = c.into_inner();
    assert_eq!(read_timestamps(&bytes, first, timestamps.len()), timestamps);
}

#[test]
fn timestamps_are_read_back_across_the_wrap() {
    let first = u64::MAX - 5;
    let timestamps: Vec<u64> = vec![u64::MAX, 4, 9, 3, u64::MAX - 2];
    let mut c = TimestampCompressor::new(first, Vec::new());
    for t in &timestamps {
        c.compress(*t).unwrap();
    }
    c.flush().unwrap();
    let bytes = c.into_inner();
    assert_eq!(read_timestamps(&bytes, first, timestamps.len()), timestamps);
}

#[test]
fn a_change_too_wide_is_not_read_back() {
    let mut c = TimestampCompressor::new(0, Vec::new());
    c.compress(1 << 32).unwrap();
    c.flush().unwrap();
    let bytes = c.into_inner();
    assert_eq!(read_timestamps(&bytes, 0, 1), vec![0]);
}

#[test]
fn values_with_differences_of_full_width_are_read_back() {
    let first = 0x4000_0000_0000_0000u64;
    let flip = 0x8000_0000_0000_0001u64;
    let values: Vec<u64> = vec![
        first,
        first ^ flip,
        first ^ flip,
        first ^ flip ^ 0xffff_ffff_ffff_ffff,
        first ^ flip ^ 0xffff_ffff_ffff_ffff ^ 0x8123_4567_89ab_cdef,
    ];
    let mut c = ValueCompressor::new(first, Vec::new());
    for v in &values {
        c.compress(*v).unwrap();
    }
    c.flush().unwrap();
    let bytes = c.into_inner();
    let mut bits = Bits { bytes: &bytes, at: 0 };
    assert_eq!(read_values(&mut bits, first, 0, 0, values.len()), values);
}

#[test]
fn values_in_named_and_kept_windows_are_read_back() {
    let mut c = ValueCompressor::new(1.0f64.to_bits(), Vec::new());
    // thirteen bits that a reader cannot take in: it goes on after them, from what the
    // compressor then remembers
    c.compress(2.0f64.to_bits()).unwrap();
    let values: Vec<u64> =
        [3.0f64, 4.0, 4.0, 3.0, 3.5, -3.5].iter().map(|v| v.to_bits()).collect();
    for v in &values {
        c.compress(*v).unwrap();
    }
    c.flush().unwrap();
    let bytes = c.into_inner();
    let mut bits = Bits { bytes: &bytes, at: 13 };
    assert_eq!(read_values(&mut bits, 2.0f64.to_bits(), 1, 52, values.len()), values);
}

#[test]
fn the_first_changed_value_is_not_read_back_as_a_rule() {
    let mut c = ValueCompressor::new(1.0f64.to_bits(), Vec::new());
    c.compress(2.0f64.to_bits()).unwrap();
    c.compress(2.0f64.to_bits()).unwrap();
    c.flush().unwrap();
    let mut bytes = c.into_inner();
    // eleven bits of window were written where a reader takes sixty-four
    assert_eq!(bytes, vec![0xbf, 0xf8]);
    bytes.resize(16, 0);
    let mut bits = Bits { bytes: &bytes, at: 0 };
    assert_ne!(read_values(&mut bits, 1.0f64.to_bits(), 0, 0, 1), vec![2.0f64.to_bits()]);
}

#[test]
fn a_finished_series_gives_its_samples_back() {
    let first = (1_000u64, 0x0000_0000_0000_0000u64);
    let samples: Vec<(u64, u64)> = vec![
        (1_010, 0x8000_0000_0000_0001),
        (1_020, 0x8000_0000_0000_0001),
        (1_025, 0x0000_0000_0000_0000),
        (900, 0xffff_ffff_ffff_ffff),
    ];
    let mut s = TimeSeries::new(String::from("s"), first.0, first.1);
    for (t, v) in &samples {
        s.append(*t, *v).unwrap();
    }
    s.finalize().unwrap();
    let timestamps = s.get_compressed_timestamps();
    let values = s.get_compressed_values();
    let expected_timestamps: Vec<u64> = samples.iter().map(|s| s.0).collect();
    let expected_values: Vec<u64> = samples.iter().map(|s| s.1).collect();
    assert_eq!(read_timestamps(&timestamps, first.0, samples.len()), expected_timestamps);
    let mut bits = Bits { bytes: &values, at: 0 };
    assert_eq!(read_values(&mut bits, first.1, 0, 0, samples.len()), expected_values);
}
