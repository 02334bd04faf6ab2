use tscodec::utils::BitWriter;

#[test]
fn single_bits_fill_a_byte_most_significant_first() {
    let mut w = BitWriter::new(Vec::new());
    for bit in [true, false, true, true, false, false, true, false] {
        w.write_bit(bit).unwrap();
    }
    assert_eq!(w.get_ref(), &vec![0b1011_0010u8]);
}

#[test]
fn a_byte_is_sent_only_when_its_eighth_bit_arrives() {
    let mut w = BitWriter::new(Vec::new());
    for _ in 0..7 {
        w.write_bit(true).unwrap();
        assert!(w.get_ref().is_empty());
    }
    w.write_bit(true).unwrap();
    assert_eq!(w.get_ref(), &vec![0xffu8]);
}

#[test]
fn write_bits_takes_the_low_bits_high_bit_first() {
    let mut w = BitWriter::new(Vec::new());
    w.write_bits(0xDEAD_BEEF_CAFE_F00D, 64).unwrap();
    assert_eq!(w.into_inner(), vec![0xde, 0xad, 0xbe, 0xef, 0xca, 0xfe, 0xf0, 0x0d]);

    let mut w = BitWriter::new(Vec::new());
    w.write_bits(0xffff_ffff_ffff_ff05, 8).unwrap();
    assert_eq!(w.into_inner(), vec![0x05]);
}

#[test]
fn write_bits_of_no_bits_writes_nothing() {
    let mut w = BitWriter::new(Vec::new());
    w.write_bits(0xffff, 0).unwrap();
    w.flush().unwrap();
    assert!(w.into_inner().is_empty());
}

#[test]
fn signed_fields_are_twos_complement() {
    let mut w = BitWriter::new(Vec::new());
    w.write_bits(0b101, 3).unwrap();
    w.write_bits_signed(-1, 7).unwrap();
    w.write_bits_signed(-3, 4).unwrap();
    w.write_bits_signed(300, 8).unwrap();
    assert_eq!(w.get_ref(), &vec![0xbf, 0xf4]);
    w.flush().unwrap();
    assert_eq!(w.into_inner(), vec![0xbf, 0xf4, 0xb0]);
}

#[test]
fn signed_fields_of_full_width() {
    let mut w = BitWriter::new(Vec::new());
    w.write_bits_signed(i64::MIN, 64).unwrap();
    w.write_bits_signed(-2, 64).unwrap();
    w.write_bits_signed(i64::MAX, 64).unwrap();
    assert_eq!(
        w.into_inner(),
        vec![
            0x80, 0x00, 0x00, 0x00, 0x00, 0x00, 0x00, 0x00, 0xff, 0xff, 0xff, 0xff, 0xff, 0xff,
            0xff, 0xfe, 0x7f, 0xff, 0xff, 0xff, 0xff, 0xff, 0xff, 0xff,
        ]
    );
}

#[test]
fn a_signed_field_too_narrow_keeps_the_low_bits() {
    let mut w = BitWriter::new(Vec::new());
    w.write_bits_signed(0x1_23, 8).unwrap();
    w.write_bits_signed(-0x1_23, 8).unwrap();
    assert_eq!(w.into_inner(), vec![0x23, 0xdd]);
}

#[test]
fn flush_pads_the_low_end_with_zeros() {
    let mut w = BitWriter::new(vec![1, 2]);
    w.write_bits(0x1ff, 9).unwrap();
    assert_eq!(w.get_ref(), &vec![1, 2, 0xff]);
    w.flush().unwrap();
    assert_eq!(w.get_ref(), &vec![1, 2, 0xff, 0x80]);
}

#[test]
fn flush_without_waiting_bits_writes_nothing() {
    let mut w = BitWriter::new(Vec::new());
    w.flush().unwrap();
    assert!(w.get_ref().is_empty());
    w.write_bits(0xab, 8).unwrap();
    w.flush().unwrap();
    w.flush().unwrap();
    assert_eq!(w.into_inner(), vec![0xab]);
}

#[test]
fn writing_after_a_flush_begins_a_new_byte() {
    let mut w = BitWriter::new(Vec::new());
    w.write_bit(true).unwrap();
    w.flush().unwrap();
    w.write_bit(true).unwrap();
    w.flush().unwrap();
    assert_eq!(w.into_inner(), vec![0x80, 0x80]);
}

#[test]
fn into_inner_drops_the_waiting_bits() {
    let mut w = BitWriter::new(vec![9]);
    w.write_bits(0b111, 3).unwrap();
    assert_eq!(w.into_inner(), vec![9]);
}
