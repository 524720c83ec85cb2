use merlion_tsdb::encoding::bstream::{BitReader, BitWriter};
use merlion_tsdb::encoding::varint::{put_uvarint, put_varint, MAX_VARINT_LEN64};
use merlion_tsdb::encoding::ReadError;

#[test]
fn new_starts_empty() {
    let w = BitWriter::new();
    assert!(w.bytes().is_empty());
}

#[test]
fn from_bytes_adopts_aligned_buffer() {
    let mut w = BitWriter::from_bytes(vec![0xab]);
    w.write_bit(true);
    assert_eq!(w.bytes(), &[0xab, 0x80]);
}

#[test]
fn write_bit_packs_msb_first() {
    let mut w = BitWriter::new();
    for b in [true, false, true, true, false, false, true, false] {
        w.write_bit(b);
    }
    assert_eq!(w.bytes(), &[0xb2]);
}

#[test]
fn write_byte_crosses_partial_boundary() {
    let mut w = BitWriter::new();
    w.write_bit(true);
    w.write_byte(0xab);
    assert_eq!(w.bytes(), &[0xd5, 0x80]);
}

#[test]
fn write_bits_zero_is_noop() {
    let mut w = BitWriter::new();
    w.write_bits(0xffff, 0);
    assert!(w.bytes().is_empty());
}

#[test]
fn write_bits_preserves_byte_semantics() {
    let mut a = BitWriter::new();
    let mut b = BitWriter::new();
    a.write_bits(0xbeef, 16);
    b.write_byte(0xbe);
    b.write_byte(0xef);
    assert_eq!(a.bytes(), b.bytes());
}

#[test]
fn bytes_mut_can_rewrite_existing_bytes() {
    let mut w = BitWriter::from_bytes(vec![0, 0]);
    w.bytes_mut().copy_from_slice(&[0x12, 0x34]);
    assert_eq!(w.bytes(), &[0x12, 0x34]);
}

#[test]
fn reset_clears_stream() {
    let mut w = BitWriter::new();
    w.write_byte(0xff);
    w.reset();
    assert!(w.bytes().is_empty());
}

#[test]
fn into_bytes_returns_owned_stream() {
    let mut w = BitWriter::new();
    w.write_byte(0xab);
    assert_eq!(w.into_bytes(), vec![0xab]);
}

#[test]
fn read_bit_roundtrips_single_bits() {
    let mut w = BitWriter::new();
    let bits = [true, false, true, false, true, true, false, false, true];
    for bit in bits {
        w.write_bit(bit);
    }
    let mut r = BitReader::new(w.bytes());
    for bit in bits {
        assert_eq!(r.read_bit(), Ok(bit));
    }
}

#[test]
fn read_byte_reads_aligned_and_unaligned_bytes() {
    let mut w = BitWriter::new();
    w.write_byte(0xab);
    w.write_bit(true);
    w.write_byte(0x55);
    let mut r = BitReader::new(w.bytes());
    assert_eq!(r.read_byte(), Ok(0xab));
    assert_eq!(r.read_bit(), Ok(true));
    assert_eq!(r.read_byte(), Ok(0x55));
}

#[test]
fn read_bits_roundtrips_variable_lengths() {
    let writes = [
        (0, 0),
        (1, 1),
        (0b10, 2),
        (0xbeef, 16),
        (0x0123_4567_89ab_cdef, 64),
        (0x12345, 17),
        (0, 3),
    ];
    let mut w = BitWriter::new();
    for (v, nbits) in writes {
        w.write_bits(v, nbits);
    }
    let mut r = BitReader::new(w.bytes());
    for (v, nbits) in writes {
        assert_eq!(r.read_bits(nbits as u8), Ok(v));
    }
}

#[test]
fn read_bits_spans_buffer_boundary() {
    let mut w = BitWriter::new();
    for _ in 0..20 {
        w.write_bits(0xdead_beef_cafe_babe, 64);
    }
    let mut r = BitReader::new(w.bytes());
    for _ in 0..20 {
        assert_eq!(r.read_bits(64), Ok(0xdead_beef_cafe_babe));
    }
}

#[test]
fn read_uvarint_roundtrips_through_bit_stream() {
    let mut w = BitWriter::new();
    let mut buf = [0; MAX_VARINT_LEN64];
    for value in [7, 300, u64::MAX] {
        let n = put_uvarint(&mut buf, value);
        for &b in &buf[..n] {
            w.write_byte(b);
        }
    }
    let mut r = BitReader::new(w.bytes());
    assert_eq!(r.read_uvarint(), Ok(7));
    assert_eq!(r.read_uvarint(), Ok(300));
    assert_eq!(r.read_uvarint(), Ok(u64::MAX));
}

#[test]
fn read_varint_roundtrips_through_bit_stream() {
    let mut w = BitWriter::new();
    let mut buf = [0; MAX_VARINT_LEN64];
    for value in [0, -1, 1, -42, 1_000_000] {
        let n = put_varint(&mut buf, value);
        for &b in &buf[..n] {
            w.write_byte(b);
        }
    }
    let mut r = BitReader::new(w.bytes());
    for value in [0, -1, 1, -42, 1_000_000] {
        assert_eq!(r.read_varint(), Ok(value));
    }
}

#[test]
fn read_errors_at_end_of_stream() {
    let mut w = BitWriter::new();
    w.write_byte(0xff);
    let mut r = BitReader::new(w.bytes());
    assert_eq!(r.read_bits(8), Ok(0xff));
    assert_eq!(r.read_bit(), Err(ReadError::EndOfStream));
    assert!(r.at_end());
}

#[test]
fn read_uvarint_reports_truncated_after_continuation() {
    let mut w = BitWriter::new();
    w.write_byte(0x80);
    let mut r = BitReader::new(w.bytes());
    assert_eq!(r.read_uvarint(), Err(ReadError::UnexpectedEnd));
}

#[test]
fn default_writer_is_empty() {
    let w = BitWriter::default();
    assert!(w.bytes().is_empty());
}

#[test]
fn write_bits_unaligned_packs_across_bytes() {
    let mut w = BitWriter::new();
    w.write_bits(0b101, 3);
    w.write_bits(0x1ff, 9);
    assert_eq!(w.bytes(), &[0xbf, 0xf0]);
}

#[test]
fn write_bits_keeps_only_the_low_bits() {
    let mut w = BitWriter::new();
    w.write_bits(0xffff_ffff_ffff_ff0a, 4);
    assert_eq!(w.bytes(), &[0xa0]);
}

#[test]
fn read_bits_past_end_is_end_of_stream_and_reader_is_at_end() {
    let bytes = [0xff, 0xab];
    let mut r = BitReader::new(&bytes);
    assert_eq!(r.read_bits(5), Ok(0b11111));
    assert_eq!(r.read_bits(16), Err(ReadError::EndOfStream));
    assert!(r.at_end());
    assert_eq!(r.read_bit(), Err(ReadError::EndOfStream));
}

#[test]
fn read_bits_zero_is_zero_even_at_end() {
    let mut r = BitReader::new(&[]);
    assert_eq!(r.read_bits(0), Ok(0));
    assert!(r.at_end());
    assert_eq!(r.read_byte(), Err(ReadError::EndOfStream));
}

#[test]
fn read_bits_exactly_to_the_end() {
    let bytes = [0x12, 0x34, 0x56];
    let mut r = BitReader::new(&bytes);
    assert_eq!(r.read_bits(4), Ok(0x1));
    assert_eq!(r.read_bits(20), Ok(0x23456));
    assert!(r.at_end());
}

#[test]
fn reader_over_long_stream_uses_fast_path() {
    let bytes: Vec<u8> = (0u8..20).collect();
    let mut r = BitReader::new(&bytes);
    assert_eq!(r.read_bits(4), Ok(0x0));
    assert_eq!(r.read_bits(12), Ok(0x001));
    for i in 2u8..20 {
        assert_eq!(r.read_byte(), Ok(i));
    }
    assert!(r.at_end());
}

#[test]
fn read_uvarint_errors_through_bit_stream() {
    let mut r = BitReader::new(&[]);
    assert_eq!(r.read_uvarint(), Err(ReadError::EndOfStream));
    let ten = [0x80u8; 10];
    let mut r = BitReader::new(&ten);
    assert_eq!(r.read_uvarint(), Err(ReadError::VarintOverflow));
    let big = [0xff, 0xff, 0xff, 0xff, 0xff, 0xff, 0xff, 0xff, 0xff, 0x02];
    let mut r = BitReader::new(&big);
    assert_eq!(r.read_uvarint(), Err(ReadError::VarintOverflow));
}

#[test]
fn writer_clean_bytes_read_back_after_reset() {
    let mut w = BitWriter::new();
    w.write_bits(0x3, 2);
    w.reset();
    w.write_bit(true);
    assert_eq!(w.bytes(), &[0x80]);
}

#[test]
fn write_bits_splits_into_byte_and_low_bits() {
    let mut a = BitWriter::new();
    a.write_bit(true);
    let mut b = a.clone();
    a.write_bits(0xabc, 12);
    b.write_byte(0xab);
    b.write_bits(0xc, 4);
    assert_eq!(a.bytes(), b.bytes());
    assert_eq!(a.bytes(), &[0xd5, 0xe0]);
}
