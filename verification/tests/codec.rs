use flatdata::codec::{read, read_signed, read_unsigned, write_signed, write_unsigned};

fn max_unsigned(width: usize) -> u64 {
    if width == 64 {
        u64::MAX
    } else {
        (1u64 << width) - 1
    }
}

fn min_signed(width: usize) -> i64 {
    if width == 64 {
        i64::MIN
    } else {
        -(1i64 << (width - 1))
    }
}

fn max_signed(width: usize) -> i64 {
    if width == 64 {
        i64::MAX
    } else {
        (1i64 << (width - 1)) - 1
    }
}

#[test]
fn unsigned_round_trip_for_all_widths_and_offsets() {
    for width in 1..=64usize {
        for offset in 0..8usize {
            let samples = [0u64, 1, max_unsigned(width), max_unsigned(width) / 2, 0x5555_5555_5555_5555 & max_unsigned(width)];
            for &v in samples.iter() {
                let mut buf = vec![0xA5u8; 16];
                write_unsigned(&mut buf, offset, width, v);
                assert_eq!(read_unsigned(&buf, offset, width), v, "width {} offset {}", width, offset);
            }
        }
    }
}

#[test]
fn signed_round_trip_for_all_widths_and_offsets() {
    for width in 1..=64usize {
        for offset in 0..8usize {
            let samples = [0i64, -1, min_signed(width), max_signed(width), max_signed(width) / 3];
            for &v in samples.iter() {
                let mut buf = vec![0x3Cu8; 16];
                write_signed(&mut buf, offset, width, v);
                assert_eq!(read_signed(&buf, offset, width), v, "width {} offset {}", width, offset);
            }
        }
    }
}

#[test]
fn write_leaves_bits_outside_the_field_untouched() {
    for width in 1..=64usize {
        for offset in 0..8usize {
            for &fill in [0x00u8, 0xFF, 0xA5].iter() {
                let before = vec![fill; 12];
                let mut after = before.clone();
                write_unsigned(&mut after, offset + 8, width, 0x0123_4567_89AB_CDEF);
                for bit in 0..(8 * before.len()) {
                    if bit < offset + 8 || bit >= offset + 8 + width {
                        let old = (before[bit / 8] >> (bit % 8)) & 1;
                        let new = (after[bit / 8] >> (bit % 8)) & 1;
                        assert_eq!(old, new, "bit {} width {} offset {}", bit, width, offset);
                    }
                }
            }
        }
    }
}

#[test]
fn fields_are_little_endian_and_least_significant_bit_first() {
    let mut buf = vec![0u8; 4];
    write_unsigned(&mut buf, 0, 32, 0x1234_5678);
    assert_eq!(buf, vec![0x78, 0x56, 0x34, 0x12]);
    let mut buf = vec![0u8; 2];
    write_unsigned(&mut buf, 4, 7, 0x7F);
    assert_eq!(buf, vec![0xF0, 0x07]);
    let mut buf = vec![0u8; 2];
    write_unsigned(&mut buf, 0, 4, 1);
    write_unsigned(&mut buf, 4, 7, 2);
    assert_eq!(buf, vec![0x21, 0x00]);
    assert_eq!(read_unsigned(&[0x21, 0x00], 0, 4), 1);
    assert_eq!(read_unsigned(&[0x21, 0x00], 4, 7), 2);
}

#[test]
fn a_field_of_64_bits_at_offset_7_spans_nine_bytes() {
    let mut buf = vec![0u8; 9];
    write_unsigned(&mut buf, 7, 64, u64::MAX);
    assert_eq!(buf, vec![0x80, 0xFF, 0xFF, 0xFF, 0xFF, 0xFF, 0xFF, 0xFF, 0x7F]);
    assert_eq!(read_unsigned(&buf, 7, 64), u64::MAX);
    assert_eq!(read_signed(&buf, 7, 64), -1);
}

#[test]
fn values_wider_than_the_field_are_cut_to_its_width() {
    let mut buf = vec![0u8; 2];
    write_unsigned(&mut buf, 3, 5, 0xFFFF);
    assert_eq!(buf, vec![0xF8, 0x00]);
    assert_eq!(read_unsigned(&buf, 3, 5), 31);
    assert_eq!(read_signed(&buf, 3, 5), -1);
}

#[test]
fn signed_reads_extend_the_sign() {
    assert_eq!(read_signed(&[0b0000_0100], 0, 3), -4);
    assert_eq!(read_signed(&[0b0000_0011], 0, 3), 3);
    assert_eq!(read_signed(&[0b0000_0001], 0, 1), -1);
    assert_eq!(read_unsigned(&[0b0000_0100], 0, 3), 4);
    let mut buf = vec![0u8; 1];
    write_signed(&mut buf, 2, 4, -3);
    assert_eq!(buf, vec![0b0011_0100]);
}

#[test]
fn read_and_write_follow_the_sign() {
    let mut buf = vec![0u8; 9];
    flatdata::codec::write(&mut buf, 3, 10, -5);
    assert_eq!(read(&buf, 3, 10, true), -5);
    assert_eq!(read(&buf, 3, 10, false), 1019);
    assert_eq!(read_signed(&buf, 3, 10), -5);
    assert_eq!(read_unsigned(&buf, 3, 10), 1019);
    flatdata::codec::write(&mut buf, 3, 64, u64::MAX as i128);
    assert_eq!(read(&buf, 3, 64, false), u64::MAX as i128);
    assert_eq!(read(&buf, 3, 64, true), -1);
    flatdata::codec::write(&mut buf, 5, 64, i64::MIN as i128);
    assert_eq!(read(&buf, 5, 64, true), i64::MIN as i128);
    assert_eq!(read(&buf, 5, 64, false), 1i128 << 63);
    flatdata::codec::write(&mut buf, 0, 1, 1);
    assert_eq!(read(&buf, 0, 1, false), 1);
    assert_eq!(read(&buf, 0, 1, true), -1);
}
