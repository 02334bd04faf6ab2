use tscodec::data_structures::time_series::TimeSeries;

fn sample_series() -> TimeSeries {
    let mut s = TimeSeries::new(String::from("Cpu.Load"), 1000, 1.0f64.to_bits());
    for (t, v) in [(1001u64, 1.0f64), (1002, 1.0), (1003, 2.5), (1005, 2.5), (1010, -7.25)] {
        s.append(t, v.to_bits()).unwrap();
    }
    s
}

#[test]
fn a_new_series_holds_its_first_sample_and_no_bytes() {
    let s = TimeSeries::new(String::from("Cpu.Load"), 1000, 1.0f64.to_bits());
    assert_eq!(s.get_key(), "Cpu.Load");
    assert_eq!(s.get_last_timestamp(), 1000);
    assert_eq!(f64::from_bits(s.get_last_value()), 1.0);
    assert!(s.get_compressed_timestamps().is_empty());
    assert!(s.get_compressed_values().is_empty());
}

#[test]
fn one_unchanged_sample_after_the_seed() {
    let mut s = TimeSeries::new(String::from("s"), 1000, 1.0f64.to_bits());
    s.append(1001, 1.0f64.to_bits()).unwrap();
    // the value stream holds one zero bit, the timestamp stream `10` and the field 0000001
    assert_eq!(s.get_compressed_timestamps(), vec![0x80]);
    assert!(s.get_compressed_values().is_empty());
    s.finalize().unwrap();
    assert_eq!(s.get_compressed_timestamps(), vec![0x80, 0x80]);
    assert_eq!(s.get_compressed_values(), vec![0x00]);
}

#[test]
fn append_remembers_the_last_sample() {
    let s = sample_series();
    assert_eq!(s.get_last_timestamp(), 1010);
    assert_eq!(f64::from_bits(s.get_last_value()), -7.25);
    assert_eq!(s.get_key(), "Cpu.Load");
}

#[test]
fn buffers_before_finalize_lack_the_last_byte() {
    let s = sample_series();
    assert_eq!(s.get_compressed_timestamps(), vec![0x80, 0x90, 0x18]);
    assert_eq!(s.get_compressed_values(), vec![0x2f, 0xfe, 0xb0, 0x21, 0x00]);
}

#[test]
fn finalize_adds_the_padded_last_byte_and_nothing_else() {
    let mut s = sample_series();
    let timestamps_before = s.get_compressed_timestamps();
    let values_before = s.get_compressed_values();
    s.finalize().unwrap();
    let timestamps = s.get_compressed_timestamps();
    let values = s.get_compressed_values();
    assert_eq!(timestamps, vec![0x80, 0x90, 0x18, 0x18]);
    assert_eq!(values, vec![0x2f, 0xfe, 0xb0, 0x21, 0x00, 0x32]);
    assert_eq!(&timestamps[..timestamps_before.len()], &timestamps_before[..]);
    assert_eq!(&values[..values_before.len()], &values_before[..]);
}

#[test]
fn finalize_on_whole_bytes_adds_nothing() {
    let mut s = TimeSeries::new(String::from("s"), 0, 0);
    for _ in 0..8 {
        s.append(0, 0).unwrap();
    }
    assert_eq!(s.get_compressed_timestamps(), vec![0x00]);
    s.finalize().unwrap();
    assert_eq!(s.get_compressed_timestamps(), vec![0x00]);
    assert_eq!(s.get_compressed_values(), vec![0x00]);
}

#[test]
fn two_series_fed_alike_hold_the_same_bytes() {
    let mut a = sample_series();
    let mut b = sample_series();
    a.finalize().unwrap();
    b.finalize().unwrap();
    assert_eq!(a.get_compressed_timestamps(), b.get_compressed_timestamps());
    assert_eq!(a.get_compressed_values(), b.get_compressed_values());
}
