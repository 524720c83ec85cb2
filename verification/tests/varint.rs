use merlion_tsdb::encoding::varint::{
    put_uvarint, put_varint, read_uvarint, read_varint, MAX_VARINT_LEN64,
};
use merlion_tsdb::encoding::ReadError;

fn encode_uvarint(x: u64) -> Vec<u8> {
    let mut buf = [0; MAX_VARINT_LEN64];
    let n = put_uvarint(&mut buf, x);
    buf[..n].to_vec()
}

fn encode_varint(x: i64) -> Vec<u8> {
    let mut buf = [0; MAX_VARINT_LEN64];
    let n = put_varint(&mut buf, x);
    buf[..n].to_vec()
}

#[test]
fn put_uvarint_known_bytes() {
    assert_eq!(encode_uvarint(0), [0x00]);
    assert_eq!(encode_uvarint(1), [0x01]);
    assert_eq!(encode_uvarint(127), [0x7f]);
    assert_eq!(encode_uvarint(128), [0x80, 0x01]);
    assert_eq!(encode_uvarint(300), [0xac, 0x02]);
    assert_eq!(encode_uvarint(16_384), [0x80, 0x80, 0x01]);
    assert_eq!(
        encode_uvarint(u64::MAX),
        [0xff, 0xff, 0xff, 0xff, 0xff, 0xff, 0xff, 0xff, 0xff, 0x01]
    );
}

#[test]
fn put_varint_known_bytes() {
    assert_eq!(encode_varint(0), [0x00]);
    assert_eq!(encode_varint(-1), [0x01]);
    assert_eq!(encode_varint(1), [0x02]);
    assert_eq!(encode_varint(-2), [0x03]);
    assert_eq!(encode_varint(63), [0x7e]);
    assert_eq!(encode_varint(-64), [0x7f]);
    assert_eq!(encode_varint(64), [0x80, 0x01]);
}

#[test]
fn read_uvarint_roundtrip_and_consumed_len() {
    for v in [0, 1, 127, 128, 300, 16_384, u64::MAX] {
        let bytes = encode_uvarint(v);
        assert_eq!(read_uvarint(&bytes), Ok((v, bytes.len())));
    }
}

#[test]
fn read_varint_roundtrip_and_consumed_len() {
    for v in [i64::MIN, -1_000_000, -64, -1, 0, 1, 64, 1_000_000, i64::MAX] {
        let bytes = encode_varint(v);
        assert_eq!(read_varint(&bytes), Ok((v, bytes.len())));
    }
}

#[test]
fn read_uvarint_errors() {
    assert_eq!(read_uvarint(&[]), Err(ReadError::EndOfStream));
    assert_eq!(read_uvarint(&[0x80, 0x80]), Err(ReadError::UnexpectedEnd));
    assert_eq!(read_uvarint(&[0x80; 11]), Err(ReadError::VarintOverflow));
    assert_eq!(
        read_uvarint(&[0xff, 0xff, 0xff, 0xff, 0xff, 0xff, 0xff, 0xff, 0xff, 0x02]),
        Err(ReadError::VarintOverflow)
    );
}

#[test]
fn put_uvarint_leaves_rest_of_buffer() {
    let mut buf = [0xee; 12];
    let n = put_uvarint(&mut buf, 300);
    assert_eq!(n, 2);
    assert_eq!(buf, [0xac, 0x02, 0xee, 0xee, 0xee, 0xee, 0xee, 0xee, 0xee, 0xee, 0xee, 0xee]);
}

#[test]
fn read_uvarint_ignores_trailing_bytes() {
    assert_eq!(read_uvarint(&[0xac, 0x02, 0x7f, 0x80]), Ok((300, 2)));
    assert_eq!(read_varint(&[0x03, 0xff]), Ok((-2, 1)));
}

#[test]
fn read_uvarint_ten_continuation_bytes_is_unexpected_end() {
    assert_eq!(read_uvarint(&[0x80; 10]), Err(ReadError::UnexpectedEnd));
}

#[test]
fn read_uvarint_accepts_tenth_byte_one() {
    let bytes = [0xff, 0xff, 0xff, 0xff, 0xff, 0xff, 0xff, 0xff, 0xff, 0x01];
    assert_eq!(read_uvarint(&bytes), Ok((u64::MAX, 10)));
}

#[test]
fn read_varint_reports_errors_of_uvarint() {
    assert_eq!(read_varint(&[]), Err(ReadError::EndOfStream));
    assert_eq!(read_varint(&[0x80]), Err(ReadError::UnexpectedEnd));
}

#[test]
fn zigzag_roundtrip_on_extremes() {
    for v in [i64::MIN, i64::MIN + 1, -2, -1, 0, 1, 2, i64::MAX - 1, i64::MAX] {
        let bytes = encode_varint(v);
        assert!(bytes.len() <= MAX_VARINT_LEN64);
        assert_eq!(read_varint(&bytes), Ok((v, bytes.len())));
    }
    assert_eq!(encode_varint(i64::MIN), encode_uvarint(u64::MAX));
    assert_eq!(encode_varint(i64::MAX), encode_uvarint(u64::MAX - 1));
}
