use glyphstream::BitReaderWrapper;

#[test]
fn framed_reads_strip_continuation_bits() {
    // raw bits: 1,0,1,0,1,0,1,0 | 1,1,0,0,1,1,0,0
    let mut r = BitReaderWrapper::new(&[0xAA, 0xCC]);
    // On a byte boundary the continuation bit (1) is discarded first.
    assert_eq!(r.read_bit(), Some(false));
    assert_eq!(r.read(6), Some(0b101010));
    // The next framed read crosses into the second byte: its continuation
    // bit (1) is discarded, the payload bit (1) delivered.
    assert_eq!(r.read_bit(), Some(true));
    assert_eq!(r.read(6), Some(0b001100));
    assert_eq!(r.read_bit(), None);
}

#[test]
fn read_zero_width_field() {
    let mut r = BitReaderWrapper::new(&[0xFF]);
    assert_eq!(r.read(0), Some(0));
}

#[test]
fn read_signed_negative_is_twos_complement() {
    // discarded continuation 0, sign 1, magnitude 000011
    let mut r = BitReaderWrapper::new(&[0x43]);
    assert_eq!(r.read_signed(7), Some(3 - 64));
}

#[test]
fn read_signed_positive() {
    // discarded continuation 0, sign 0, magnitude 000101
    let mut r = BitReaderWrapper::new(&[0x05]);
    assert_eq!(r.read_signed(7), Some(5));
}

#[test]
fn skip_bypasses_the_boundary_rule() {
    let mut r = BitReaderWrapper::new(&[0b1111_0110]);
    // skip consumes raw bits even across the boundary at position 0
    assert!(r.skip(4));
    assert_eq!(r.bit_position_in_byte(), 4);
    // not on a boundary: no continuation bit is discarded
    assert_eq!(r.read_bit(), Some(false));
    assert_eq!(r.read(3), Some(0b110));
    // the stream is exhausted now
    assert!(!r.skip(1));
    assert_eq!(r.read_bit(), None);
}

#[test]
fn raw_bit_reads_do_not_discard() {
    let mut r = BitReaderWrapper::new(&[0b1000_0000]);
    assert_eq!(r.read_raw_bit(), Some(true));
    assert_eq!(r.read(7), Some(0));
    assert_eq!(r.read_raw_bit(), None);
}
