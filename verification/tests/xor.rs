use merlion_tsdb::chunkenc::xor::{XorChunk, XorError, MAX_BYTES_PER_XOR_CHUNK};
use merlion_tsdb::chunkenc::{Encoding, ValueType};
use merlion_tsdb::encoding::ReadError;

fn collect(chunk: &XorChunk) -> Result<Vec<(i64, u64)>, ReadError> {
    let mut it = chunk.iterator();
    let mut out = Vec::new();
    while let Some((t, v)) = it.next()? {
        out.push((t, v));
    }
    Ok(out)
}

#[test]
fn new_chunk_has_empty_header() {
    let chunk = XorChunk::new();
    assert_eq!(chunk.num_samples(), 0);
    assert_eq!(chunk.bytes(), &[0, 0]);
}

#[test]
fn default_chunk_matches_new() {
    assert_eq!(XorChunk::default().bytes(), XorChunk::new().bytes());
}

#[test]
fn from_bytes_reads_existing_chunk() {
    let mut chunk = XorChunk::new();
    chunk.appender().unwrap().append(123, 4.5_f64.to_bits()).unwrap();
    let copy = XorChunk::from_bytes(chunk.bytes().to_vec());
    assert_eq!(copy.num_samples(), 1);
    assert_eq!(collect(&copy).unwrap(), vec![(123, 4.5_f64.to_bits())]);
}

#[test]
fn num_samples_tracks_header() {
    let mut chunk = XorChunk::new();
    {
        let mut app = chunk.appender().unwrap();
        app.append(1, 1.0_f64.to_bits()).unwrap();
        app.append(2, 2.0_f64.to_bits()).unwrap();
    }
    assert_eq!(chunk.num_samples(), 2);
    assert_eq!(&chunk.bytes()[..2], &[0, 2]);
}

#[test]
fn bytes_match_first_sample_wire_format() {
    let mut chunk = XorChunk::new();
    chunk.appender().unwrap().append(0, 1.0_f64.to_bits()).unwrap();
    assert_eq!(
        chunk.bytes(),
        &[0x00, 0x01, 0x00, 0x3f, 0xf0, 0, 0, 0, 0, 0, 0]
    );
}

#[test]
fn compact_preserves_bytes() {
    let mut chunk = XorChunk::new();
    chunk.appender().unwrap().append(0, 0.0_f64.to_bits()).unwrap();
    let before = chunk.bytes().to_vec();
    chunk.compact();
    assert_eq!(chunk.bytes(), before);
}

#[test]
fn appender_replays_non_empty_chunk_state() {
    let mut chunk = XorChunk::new();
    {
        let mut app = chunk.appender().unwrap();
        app.append(100, 1.0_f64.to_bits()).unwrap();
        app.append(110, 1.5_f64.to_bits()).unwrap();
    }
    chunk.appender().unwrap().append(120, 2.0_f64.to_bits()).unwrap();
    assert_eq!(
        collect(&chunk).unwrap(),
        vec![
            (100, 1.0_f64.to_bits()),
            (110, 1.5_f64.to_bits()),
            (120, 2.0_f64.to_bits())
        ]
    );
}

#[test]
fn appender_rejects_decreasing_timestamps() {
    let mut chunk = XorChunk::new();
    let mut app = chunk.appender().unwrap();
    app.append(10, 1.0_f64.to_bits()).unwrap();
    assert_eq!(
        app.append(9, 2.0_f64.to_bits()),
        Err(XorError::TimestampOutOfOrder)
    );
}

#[test]
fn appender_rejects_sample_count_overflow() {
    let mut chunk = XorChunk::new();
    let mut app = chunk.appender().unwrap();
    for i in 0..u16::MAX {
        app.append(i64::from(i), 0.0_f64.to_bits()).unwrap();
    }
    assert_eq!(
        app.append(i64::from(u16::MAX), 0.0_f64.to_bits()),
        Err(XorError::ChunkFull)
    );
}

#[test]
fn iterator_on_empty_chunk_returns_none() {
    let chunk = XorChunk::new();
    let mut it = chunk.iterator();
    assert_eq!(it.next(), Ok(None));
}

#[test]
fn iterator_roundtrips_delta_of_delta_cases() {
    let samples = [
        (1_000, 1.0),
        (1_010, 1.0),
        (1_020, 2.0),
        (1_031, 2.5),
        (10_000, 3.5),
        (200_000, 4.5),
        (10_000_000, 5.5),
    ];
    let mut chunk = XorChunk::new();
    {
        let mut app = chunk.appender().unwrap();
        for (t, v) in samples {
            app.append(t, f64::to_bits(v)).unwrap();
        }
    }
    assert_eq!(
        collect(&chunk).unwrap(),
        samples.map(|(t, v)| (t, f64::to_bits(v))).to_vec()
    );
}

#[test]
fn xor_value_reader_handles_equal_reused_and_full_width_deltas() {
    let samples = [
        (0, 0.0_f64),
        (1, 0.0_f64),
        (2, 1.0_f64),
        (3, 1.5_f64),
        (4, f64::from_bits(u64::MAX)),
    ];
    let mut chunk = XorChunk::new();
    {
        let mut app = chunk.appender().unwrap();
        for (t, v) in samples {
            app.append(t, v.to_bits()).unwrap();
        }
    }
    assert_eq!(
        collect(&chunk).unwrap(),
        samples.map(|(t, v)| (t, v.to_bits())).to_vec()
    );
}

#[test]
fn malformed_iterator_returns_read_error() {
    let chunk = XorChunk::from_bytes(vec![0, 1]);
    let mut it = chunk.iterator();
    assert_eq!(it.next(), Err(ReadError::EndOfStream));
}

#[test]
fn max_bytes_constant_matches_spec() {
    assert_eq!(MAX_BYTES_PER_XOR_CHUNK, 1024);
}

#[test]
fn appender_on_malformed_chunk_reports_read_error() {
    let mut chunk = XorChunk::from_bytes(vec![0, 2, 0x02]);
    assert_eq!(
        chunk.appender().err(),
        Some(XorError::Read(ReadError::EndOfStream))
    );
    assert_eq!(chunk.bytes(), &[0, 2, 0x02]);
}

#[test]
fn second_sample_rejects_older_timestamp() {
    let mut chunk = XorChunk::new();
    {
        let mut app = chunk.appender().unwrap();
        app.append(50, 1.0_f64.to_bits()).unwrap();
        app.append(60, 1.0_f64.to_bits()).unwrap();
        assert_eq!(
            app.append(59, 1.0_f64.to_bits()),
            Err(XorError::TimestampOutOfOrder)
        );
        app.append(60, 3.0_f64.to_bits()).unwrap();
    }
    assert_eq!(chunk.num_samples(), 3);
    assert_eq!(
        collect(&chunk).unwrap(),
        vec![
            (50, 1.0_f64.to_bits()),
            (60, 1.0_f64.to_bits()),
            (60, 3.0_f64.to_bits())
        ]
    );
}

#[test]
fn replay_rebuilds_the_same_bytes() {
    let mut chunk = XorChunk::new();
    {
        let mut app = chunk.appender().unwrap();
        for (t, v) in [(5, 1.25), (7, -3.0), (7, 1e300), (1_000_000, 0.0), (1_000_001, f64::NAN)] {
            app.append(t, f64::to_bits(v)).unwrap();
        }
    }
    let before = chunk.bytes().to_vec();
    let app = chunk.appender().unwrap();
    drop(app);
    assert_eq!(chunk.bytes(), before);
}

#[test]
fn negative_and_extreme_timestamps_roundtrip() {
    let samples = [
        (i64::MIN, 1),
        (-5, 2),
        (-5, 3),
        (i64::MAX - 10, u64::MAX),
        (i64::MAX, 0),
    ];
    let mut chunk = XorChunk::new();
    {
        let mut app = chunk.appender().unwrap();
        for (t, v) in samples {
            app.append(t, v).unwrap();
        }
    }
    assert_eq!(collect(&chunk).unwrap(), samples.to_vec());
}

#[test]
fn negative_delta_of_delta_cases_roundtrip() {
    let samples = [
        (0, 7),
        (1_000_000, 7),
        (1_900_000, 8),
        (2_700_000, 9),
        (3_400_000, 10),
        (4_000_000, 10),
        (4_590_000, 11),
        (5_179_999, 11),
    ];
    let mut chunk = XorChunk::new();
    {
        let mut app = chunk.appender().unwrap();
        for (t, v) in samples {
            app.append(t, v).unwrap();
        }
    }
    assert_eq!(collect(&chunk).unwrap(), samples.to_vec());
}

#[test]
fn iterator_after_end_keeps_returning_none() {
    let mut chunk = XorChunk::new();
    chunk.appender().unwrap().append(3, 9).unwrap();
    let mut it = chunk.iterator();
    assert_eq!(it.next(), Ok(Some((3, 9))));
    assert_eq!(it.next(), Ok(None));
    assert_eq!(it.next(), Ok(None));
}

#[test]
fn read_error_converts_into_xor_error() {
    let e: XorError = ReadError::UnexpectedEnd.into();
    assert_eq!(e, XorError::Read(ReadError::UnexpectedEnd));
}

#[test]
fn encoding_tags_match_wire_values() {
    assert_eq!(Encoding::EncNone.to_u8(), 0);
    assert_eq!(Encoding::Xor.to_u8(), 1);
    assert_eq!(Encoding::Histogram.to_u8(), 2);
    assert_eq!(Encoding::FloatHistogram.to_u8(), 3);
    assert_eq!(Encoding::Xor2.to_u8(), 4);
    assert_eq!(ValueType::ValNone.to_u8(), 0);
    assert_eq!(ValueType::Float.to_u8(), 1);
    assert_eq!(ValueType::Histogram.to_u8(), 2);
    assert_eq!(ValueType::FloatHistogram.to_u8(), 3);
}

#[test]
fn compact_for_capacity_keeps_bytes_either_way() {
    let mut chunk = XorChunk::new();
    {
        let mut app = chunk.appender().unwrap();
        app.append(0, 1.0_f64.to_bits()).unwrap();
        app.append(1, 1.0_f64.to_bits()).unwrap();
    }
    let before = chunk.bytes().to_vec();
    let len = before.len();
    chunk.compact_for_capacity(len + 32);
    assert_eq!(chunk.bytes(), before);
    chunk.compact_for_capacity(len + 33);
    assert_eq!(chunk.bytes(), before);
    chunk.appender().unwrap().append(2, 2.0_f64.to_bits()).unwrap();
    assert_eq!(
        collect(&chunk).unwrap(),
        vec![(0, 1.0_f64.to_bits()), (1, 1.0_f64.to_bits()), (2, 2.0_f64.to_bits())]
    );
}

#[test]
fn fourteen_bit_delta_of_delta_edges_roundtrip() {
    // deltas 10000, 18192 (+8192), 10001 (-8191), 18194 (+8193), 10002 (-8192)
    let samples = [
        (0, 1.0_f64.to_bits()),
        (10_000, 1.0_f64.to_bits()),
        (28_192, 1.0_f64.to_bits()),
        (38_193, 1.0_f64.to_bits()),
        (56_387, 1.0_f64.to_bits()),
        (66_389, 1.0_f64.to_bits()),
    ];
    let mut chunk = XorChunk::new();
    {
        let mut app = chunk.appender().unwrap();
        for (t, v) in samples {
            app.append(t, v).unwrap();
        }
    }
    assert_eq!(collect(&chunk).unwrap(), samples.to_vec());
}
