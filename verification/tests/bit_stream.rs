use librec::bit_stream::BitStream;
use librec::error::Error;

#[test]
fn read_bits_within_and_across_bytes() {
    let mut bs = BitStream::new(vec![0b1011_0101, 0b0000_0011]);
    assert_eq!(bs.read_bits_u8(3), Ok(0b101));
    assert_eq!(bs.read_bits_u8(4), Ok(0b0110));
    // one bit left in the first byte, then three from the second
    assert_eq!(bs.read_bits_u8(4), Ok(0b0111));
    assert_eq!(bs.read_bits_u8(6), Err(Error::ReadEof));
    assert_eq!(bs.read_bits_u8(5), Ok(0));
    assert!(bs.eof());
}

#[test]
fn read_too_many_bits() {
    let mut bs = BitStream::new(vec![0xff, 0xff]);
    assert_eq!(bs.read_bits_u8(9), Err(Error::ReadingTooManyBits));
    assert_eq!(bs.read_bits_u16(17), Err(Error::ReadingTooManyBits));
    // the first eight bits were read before the error
    assert_eq!(bs.read_bits_u8(8), Ok(0xff));
    assert!(bs.eof());
}

#[test]
fn read_eof_on_empty() {
    let mut bs = BitStream::new(vec![]);
    assert!(bs.eof());
    assert_eq!(bs.read_bits_u8(0), Err(Error::ReadEof));
    assert_eq!(bs.read_bool(), Err(Error::ReadEof));
    assert_eq!(bs.read_u32(), Err(Error::ReadEof));
}

#[test]
fn read_wide_values_little_endian() {
    let mut bs = BitStream::new(vec![0x34, 0x12, 0x78, 0x56, 0xbc, 0x9a, 0xf0, 0xde, 0x01]);
    assert_eq!(bs.read_u16(), Ok(0x1234));
    bs.seek(0, 0);
    assert_eq!(bs.read_u32(), Ok(0x5678_1234));
    bs.seek(0, 0);
    assert_eq!(bs.read_u64(), Ok(0xdef0_9abc_5678_1234));
    assert_eq!(bs.read_u8(), Ok(0x01));
    assert_eq!(bs.read_u8(), Err(Error::ReadEof));
}

#[test]
fn read_u16_partial_failure_moves_cursor() {
    let mut bs = BitStream::new(vec![0xaa, 0x0f]);
    bs.seek(0, 4);
    // eight bits are read, then the last four are too few for the rest
    assert_eq!(bs.read_bits_u16(13), Err(Error::ReadEof));
    assert_eq!(bs.read_bits_u8(4), Ok(0));
}

#[test]
fn write_then_read_u8_fields() {
    let mut bs = BitStream::new(vec![]);
    assert_eq!(bs.write_bits_u8(0b101, 3), Ok(()));
    assert_eq!(bs.write_bits_u8(0b11001, 5), Ok(()));
    assert_eq!(bs.write_bits_u8(0b110, 3), Ok(()));
    assert_eq!(bs.bytes(), &vec![0b1100_1101, 0b110]);
    bs.seek(0, 0);
    assert_eq!(bs.read_bits_u8(3), Ok(0b101));
    assert_eq!(bs.read_bits_u8(5), Ok(0b11001));
    assert_eq!(bs.read_bits_u8(3), Ok(0b110));
}

#[test]
fn write_crossing_byte_boundary() {
    let mut bs = BitStream::new(vec![]);
    assert_eq!(bs.write_bits_u8(0b11, 6), Ok(()));
    assert_eq!(bs.write_bits_u8(0b1011_0110, 8), Ok(()));
    assert_eq!(bs.into_bytes(), vec![0b1000_0011, 0b0010_1101]);
}

#[test]
fn write_errors() {
    let mut bs = BitStream::new(vec![]);
    assert_eq!(bs.write_bits_u8(1, 9), Err(Error::WritingTooManyBits));
    assert_eq!(bs.write_bits_u8(8, 3), Err(Error::ValueOverflowsBitCount));
    assert_eq!(bs.write_bits_u16(1024, 10), Err(Error::ValueOverflowsBitCount));
    assert_eq!(bs.write_bits_u32(1 << 24, 24), Err(Error::ValueOverflowsBitCount));
    assert_eq!(bs.write_bits_u64(1 << 40, 40), Err(Error::ValueOverflowsBitCount));
    assert_eq!(bs.into_bytes(), Vec::<u8>::new());
}

#[test]
fn write_then_read_wide_values() {
    let mut bs = BitStream::new(vec![]);
    assert_eq!(bs.write_bool(true), Ok(()));
    assert_eq!(bs.write_u16(0xbeef), Ok(()));
    assert_eq!(bs.write_bits_u32(0x00ab_cdef, 24), Ok(()));
    assert_eq!(bs.write_u64(0x0123_4567_89ab_cdef), Ok(()));
    assert_eq!(bs.write_bits_u16(0x3ff, 10), Ok(()));
    assert_eq!(bs.write_u32(0xdead_beef), Ok(()));
    bs.seek(0, 0);
    assert_eq!(bs.read_bool(), Ok(true));
    assert_eq!(bs.read_u16(), Ok(0xbeef));
    assert_eq!(bs.read_bits_u32(24), Ok(0x00ab_cdef));
    assert_eq!(bs.read_u64(), Ok(0x0123_4567_89ab_cdef));
    assert_eq!(bs.read_bits_u16(10), Ok(0x3ff));
    assert_eq!(bs.read_u32(), Ok(0xdead_beef));
}

#[test]
fn write_u16_exact_bytes() {
    let mut bs = BitStream::new(vec![]);
    assert_eq!(bs.write_u16(0x1234), Ok(()));
    assert_eq!(bs.write_u8(0xff), Ok(()));
    assert_eq!(bs.into_bytes(), vec![0x34, 0x12, 0xff]);
}

#[test]
fn write_ors_into_existing_bits() {
    let mut bs = BitStream::new(vec![0b0000_0001]);
    assert_eq!(bs.write_bits_u8(0b10, 2), Ok(()));
    assert_eq!(bs.into_bytes(), vec![0b0000_0011]);
}

#[test]
fn write_past_end_grows_data() {
    let mut bs = BitStream::new(vec![]);
    bs.seek(2, 0);
    assert_eq!(bs.write_u8(7), Ok(()));
    assert_eq!(bs.into_bytes(), vec![0, 0, 7]);
}

#[test]
fn string_roundtrip() {
    let mut bs = BitStream::new(vec![]);
    assert_eq!(bs.write_string(String::from("Gem Madness ✓")), Ok(()));
    assert_eq!(bs.bytes()[0], 15);
    bs.seek(0, 0);
    assert_eq!(bs.read_string(), Ok(String::from("Gem Madness ✓")));
    assert!(bs.eof());
}

#[test]
fn string_errors() {
    let mut bs = BitStream::new(vec![3, b'a', b'b']);
    assert_eq!(bs.read_string(), Err(Error::ReadEof));
    let mut bs = BitStream::new(vec![2, 0xff, 0xfe]);
    assert_eq!(bs.read_string(), Err(Error::InvalidUtf8));
    assert!(bs.eof());
}

#[test]
fn optional_roundtrip() {
    let mut bs = BitStream::new(vec![]);
    assert_eq!(bs.write_optional(Some(0x2au8), |b, v| b.write_bits_u8(v, 6)), Ok(()));
    assert_eq!(bs.write_optional(None::<u8>, |b, v| b.write_bits_u8(v, 6)), Ok(()));
    bs.seek(0, 0);
    assert_eq!(bs.read_optional(|b| b.read_bits_u8(6)), Ok(Some(0x2a)));
    assert_eq!(bs.read_optional(|b| b.read_bits_u8(6)), Ok(None));
}

#[test]
fn sequence_of_u8_writes_reads_back() {
    let vals: [u8; 6] = [5, 0, 200, 1, 77, 3];
    let bits: [u8; 6] = [3, 1, 8, 1, 7, 2];
    let mut bs = BitStream::new(vec![]);
    let mut total: usize = 0;
    for k in 0..vals.len() {
        assert_eq!(bs.write_bits_u8(vals[k], bits[k]), Ok(()));
        total += bits[k] as usize;
        assert_eq!(bs.bytes().len(), (total + 7) / 8);
    }
    bs.seek(0, 0);
    for k in 0..vals.len() {
        assert_eq!(bs.read_bits_u8(bits[k]), Ok(vals[k]));
    }
    // 22 bits written into 3 bytes: two bits are left
    assert_eq!(bs.read_bits_u8(3), Err(Error::ReadEof));
}

#[test]
fn sequence_of_u32_writes_reads_back() {
    let vals: [u32; 4] = [0x00ab_cdef, 1, 0xffff_ffff, 12345];
    let bits: [u8; 4] = [24, 1, 32, 14];
    let mut bs = BitStream::new(vec![]);
    let mut total: usize = 0;
    for k in 0..vals.len() {
        assert_eq!(bs.write_bits_u32(vals[k], bits[k]), Ok(()));
        total += bits[k] as usize;
        assert_eq!(bs.bytes().len(), (total + 7) / 8);
    }
    bs.seek(0, 0);
    for k in 0..vals.len() {
        assert_eq!(bs.read_bits_u32(bits[k]), Ok(vals[k]));
    }
    // 71 bits written into 9 bytes: one bit is left
    assert!(bs.read_bits_u32(2).is_err());
    assert!(bs.is_valid());
    bs.seek(0, 9);
    assert!(!bs.is_valid());
}
