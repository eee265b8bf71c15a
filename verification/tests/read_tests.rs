use xdf::errors::{ParseError, StreamError, XDFError, XMLError};
use xdf::parse::{parse_chunks, Chunk};
use xdf::raw::read_to_raw_chunks;
use xdf::{Format, Values, XDFFile};

const EPSILON: f64 = 1E-9;

fn encode_len(out: &mut Vec<u8>, n: u64) {
    if n <= 255 {
        out.push(1);
        out.push(n as u8);
    } else if n <= u32::MAX as u64 {
        out.push(4);
        out.extend_from_slice(&(n as u32).to_le_bytes());
    } else {
        out.push(8);
        out.extend_from_slice(&n.to_le_bytes());
    }
}

fn frame(out: &mut Vec<u8>, tag: u16, content: &[u8]) {
    encode_len(out, content.len() as u64 + 2);
    out.extend_from_slice(&tag.to_le_bytes());
    out.extend_from_slice(content);
}

fn stream_header_content(id: u32, channel_count: u32, srate: &str, format: &str) -> Vec<u8> {
    let mut c = id.to_le_bytes().to_vec();
    let xml = format!(
        "<info><channel_count>{}</channel_count><nominal_srate>{}</nominal_srate><channel_format>{}</channel_format><name>s{}</name><type>t{}</type></info>",
        channel_count, srate, format, id, id
    );
    c.extend_from_slice(xml.as_bytes());
    c
}

fn int16_samples_content(id: u32, first_ts: f64, rows: &[[i16; 3]]) -> Vec<u8> {
    let mut c = id.to_le_bytes().to_vec();
    encode_len(&mut c, rows.len() as u64);
    for (i, row) in rows.iter().enumerate() {
        if i == 0 {
            c.push(8);
            c.extend_from_slice(&first_ts.to_le_bytes());
        } else {
            c.push(0);
        }
        for v in row {
            c.extend_from_slice(&v.to_le_bytes());
        }
    }
    c
}

fn string_samples_content(id: u32, rows: &[&str]) -> Vec<u8> {
    let mut c = id.to_le_bytes().to_vec();
    encode_len(&mut c, rows.len() as u64);
    for row in rows {
        c.push(0);
        encode_len(&mut c, row.len() as u64);
        c.extend_from_slice(row.as_bytes());
    }
    c
}

fn clock_offset_content(id: u32, time: f64, value: f64) -> Vec<u8> {
    let mut c = id.to_le_bytes().to_vec();
    c.extend_from_slice(&time.to_le_bytes());
    c.extend_from_slice(&value.to_le_bytes());
    c
}

fn footer_content(id: u32) -> Vec<u8> {
    let mut c = id.to_le_bytes().to_vec();
    c.extend_from_slice(b"<info><sample_count>9</sample_count></info>");
    c
}

const BOUNDARY_UUID: [u8; 16] = [
    0x43, 0xA5, 0x46, 0xDC, 0xCB, 0xF5, 0x41, 0x0F, 0xB3, 0x0E, 0xD5, 0x46, 0x73, 0x83, 0xCB, 0xE4,
];

const FOOTER_STRING: &str = "<?xml version=\"1.0\"?>\n    <info>\n        <writer>LabRecorder xdfwriter</writer>\n        <first_timestamp>5.1</first_timestamp>\n        <last_timestamp>5.9</last_timestamp>\n        <sample_count>9</sample_count>\n    </info>";

/// A small file with two streams, nine samples each, mirroring the layout a
/// recorder would produce: file header, two stream headers, sample chunks
/// between boundaries, two clock offsets, two footers.
fn minimal_xdf_bytes() -> Vec<u8> {
    let mut f: Vec<u8> = b"XDF:".to_vec();
    frame(&mut f, 1, b"<info><version>1.0</version></info>");
    frame(&mut f, 2, &stream_header_content(0, 3, "10", "int16"));
    frame(&mut f, 2, &stream_header_content(0x02C0_FFEE, 1, "0", "string"));
    frame(&mut f, 5, &BOUNDARY_UUID);
    frame(
        &mut f,
        3,
        &int16_samples_content(
            0,
            5.1,
            &[
                [192, 255, 238],
                [12, 22, 32],
                [13, 23, 33],
                [14, 24, 34],
                [15, 25, 35],
            ],
        ),
    );
    frame(
        &mut f,
        3,
        &int16_samples_content(0, 5.6, &[[12, 22, 32], [13, 23, 33], [14, 24, 34], [15, 25, 35]]),
    );
    frame(&mut f, 3, &string_samples_content(0x02C0_FFEE, &[FOOTER_STRING, "Hello"]));
    frame(&mut f, 3, &string_samples_content(0x02C0_FFEE, &["World", "from"]));
    frame(&mut f, 3, &string_samples_content(0x02C0_FFEE, &["LSL", "Hello"]));
    frame(&mut f, 3, &string_samples_content(0x02C0_FFEE, &["World", "from", "LSL"]));
    frame(&mut f, 5, &BOUNDARY_UUID);
    frame(&mut f, 4, &clock_offset_content(0, 5.1, -0.1));
    frame(&mut f, 4, &clock_offset_content(0, 5.9, -0.1));
    frame(&mut f, 6, &footer_content(0));
    frame(&mut f, 6, &footer_content(0x02C0_FFEE));
    f
}

#[test]
fn chunk_parsers_test_xdf_file() {
    let input = minimal_xdf_bytes();

    let raws = read_to_raw_chunks(&input).unwrap();
    let chunks = parse_chunks(&raws).unwrap();

    assert_eq!(chunks.len(), 15);

    assert!(matches!(chunks[0], Chunk::FileHeader(_)));
    assert!(matches!(chunks[1], Chunk::StreamHeader(_)));
    assert!(matches!(chunks[2], Chunk::StreamHeader(_)));
    assert!(matches!(chunks[3], Chunk::Boundary(_)));
    assert!(matches!(chunks[4], Chunk::Samples(_)));
    assert!(matches!(chunks[5], Chunk::Samples(_)));
    assert!(matches!(chunks[6], Chunk::Samples(_)));
    assert!(matches!(chunks[7], Chunk::Samples(_)));
    assert!(matches!(chunks[8], Chunk::Samples(_)));
    assert!(matches!(chunks[9], Chunk::Samples(_)));
    assert!(matches!(chunks[10], Chunk::Boundary(_)));
    assert!(matches!(chunks[11], Chunk::ClockOffset(_)));
    assert!(matches!(chunks[12], Chunk::ClockOffset(_)));
    assert!(matches!(chunks[13], Chunk::StreamFooter(_)));
    assert!(matches!(chunks[14], Chunk::StreamFooter(_)));
}

#[test]
fn xdf_file_test_xdf_file() {
    let input = minimal_xdf_bytes();

    let raws = read_to_raw_chunks(&input).unwrap();
    assert_eq!(raws.len(), 15);
    let chunks = parse_chunks(&raws).unwrap();
    assert_eq!(chunks.len(), 15);

    for (i, expected_samples) in [(4usize, true), (3, false)] {
        let is_samples = matches!(chunks[i], Chunk::Samples(_));
        assert_eq!(is_samples, expected_samples);
    }
}

#[test]
fn read_minimal_xdf() {
    let bytes = minimal_xdf_bytes();
    let xdf_file = XDFFile::from_bytes(&bytes).unwrap();

    //must be sorted
    let stream_ids: [u32; 2] = [0, 0x02C0_FFEE];

    assert_eq!(xdf_file.header.name, "info");

    assert_eq!(xdf_file.streams.len(), stream_ids.len());
    let mut read_ids = xdf_file
        .streams
        .iter()
        .map(|stream| stream.id)
        .collect::<Vec<u32>>();
    let mut expected_ids = stream_ids;
    read_ids.sort_unstable();
    expected_ids.sort_unstable();
    assert_eq!(read_ids, expected_ids);

    let first_stream = xdf_file.streams.iter().find(|s| s.id == expected_ids[0]).unwrap();
    let second_stream = xdf_file.streams.iter().find(|s| s.id == expected_ids[1]).unwrap();

    // timestamps minus the clock offsets (always -0.1 in this file)
    let expected_first_values: Vec<Vec<i16>> = vec![
        vec![192, 255, 238],
        vec![12, 22, 32],
        vec![13, 23, 33],
        vec![14, 24, 34],
        vec![15, 25, 35],
        vec![12, 22, 32],
        vec![13, 23, 33],
        vec![14, 24, 34],
        vec![15, 25, 35],
    ];
    let expected_first_timestamps: Vec<f64> = (0..9).map(|i| 5.1 + 0.1 * i as f64 - 0.1).collect();

    assert_eq!(
        expected_first_values.len(),
        first_stream.samples.len(),
        "unexpected number of samples in first stream. Expected {}, got {}",
        expected_first_values.len(),
        first_stream.samples.len()
    );

    match first_stream.format {
        Format::Int16 => (),
        _ => panic!(
            "unexpected format of first stream. Expected {:?}, got {:?}",
            Format::Int16,
            first_stream.format
        ),
    }

    for (i, sample) in first_stream.samples.iter().enumerate() {
        match &sample.values {
            Values::Int16(v) => assert_eq!(v, &expected_first_values[i]),
            other => panic!("first stream values are not as expected: {:?}", other),
        }
        let ts = sample.timestamp.expect("timestamp in first stream is None");
        let ts = f64::from_bits(ts);
        assert!(
            (ts - expected_first_timestamps[i]).abs() < EPSILON,
            "timestamp of sample {} in first stream is {}, expected {} to be within {} of it",
            i,
            ts,
            expected_first_timestamps[i],
            EPSILON
        );
    }

    assert!(first_stream.measured_srate.is_some());
    assert!(f64::from_bits(first_stream.measured_srate.unwrap()).is_finite());

    // second stream
    let expected_second_samples =
        [FOOTER_STRING, "Hello", "World", "from", "LSL", "Hello", "World", "from", "LSL"];

    assert_eq!(
        second_stream.samples.len(),
        expected_second_samples.len(),
        "unexpected number of samples in second stream. Expected {}, got {}",
        expected_second_samples.len(),
        second_stream.samples.len()
    );

    for (&expected, actual_sample) in expected_second_samples.iter().zip(second_stream.samples.iter())
    {
        match actual_sample.values.clone() {
            Values::Strings(strings) => {
                let mut actual_string = strings;
                actual_string[0].retain(|c| !c.is_whitespace());

                let mut expected = vec![expected.to_string()];
                expected[0].retain(|c| !c.is_whitespace());

                assert_eq!(
                    actual_string, expected,
                    "Unexpected value in second stream. Expected \n{expected:?}\n, got \n{actual_string:?}\n"
                );
            }
            _ => panic!(
                "Unexpected type in second stream. Expected String, got {:?}",
                actual_sample.values
            ),
        }
    }

    match second_stream.format {
        Format::String => (),
        _ => panic!(
            "unexpected format of second stream. Expected {:?}, got {:?}",
            Format::String,
            second_stream.format
        ),
    }

    assert!(second_stream.footer.is_some());
}

#[test]
fn fail_on_invalid_xdf() {
    let invalid_bytes = "This is not a valid XDF file!".as_bytes();
    let xdf_file = XDFFile::from_bytes(invalid_bytes);
    assert!(xdf_file.is_err());
}

#[test]
fn unsupported_version() {
    let mut f: Vec<u8> = b"XDF:".to_vec();
    frame(&mut f, 1, b"<info><version>2.0</version></info>");
    let err = XDFFile::from_bytes(&f).unwrap_err();
    match err {
        XDFError::Stream(StreamError::UnsupportedVersion(bits)) => {
            assert_eq!(f32::from_bits(bits), 2.0);
        }
        other => panic!("expected UnsupportedVersion, got {:?}", other),
    }
}

#[test]
fn missing_header_for_samples() {
    let mut f: Vec<u8> = b"XDF:".to_vec();
    frame(&mut f, 1, b"<info><version>1.0</version></info>");
    frame(&mut f, 3, &int16_samples_content(42, 0.5, &[[1, 2, 3]]));
    let err = XDFFile::from_bytes(&f).unwrap_err();
    match err {
        XDFError::Stream(StreamError::MissingHeader(id)) => assert_eq!(id, 42),
        other => panic!("expected MissingHeader(42), got {:?}", other),
    }
}

#[test]
fn missing_file_header() {
    let mut f: Vec<u8> = b"XDF:".to_vec();
    frame(&mut f, 5, &BOUNDARY_UUID);
    let err = XDFFile::from_bytes(&f).unwrap_err();
    assert!(matches!(err, XDFError::Stream(StreamError::MissingFileHeader)));

    let empty: Vec<u8> = b"XDF:".to_vec();
    let err = XDFFile::from_bytes(&empty).unwrap_err();
    assert!(matches!(err, XDFError::Stream(StreamError::MissingFileHeader)));
}

#[test]
fn multiple_file_headers() {
    let mut f: Vec<u8> = b"XDF:".to_vec();
    frame(&mut f, 1, b"<info><version>1.0</version></info>");
    frame(&mut f, 1, b"<info><version>1.0</version></info>");
    let err = XDFFile::from_bytes(&f).unwrap_err();
    assert!(matches!(err, XDFError::Stream(StreamError::MultipleFileHeader)));
}

#[test]
fn invalid_sample_flag() {
    let mut f: Vec<u8> = b"XDF:".to_vec();
    frame(&mut f, 1, b"<info><version>1.0</version></info>");
    frame(&mut f, 2, &stream_header_content(7, 1, "0", "int8"));
    let mut c = 7u32.to_le_bytes().to_vec();
    encode_len(&mut c, 1);
    c.push(3); // timestamp flag must be 0 or 8
    c.push(1);
    frame(&mut f, 3, &c);
    let err = XDFFile::from_bytes(&f).unwrap_err();
    assert!(matches!(err, XDFError::Parse(ParseError::InvalidSample)));
}

#[test]
fn invalid_string_value_utf8() {
    let mut f: Vec<u8> = b"XDF:".to_vec();
    frame(&mut f, 1, b"<info><version>1.0</version></info>");
    frame(&mut f, 2, &stream_header_content(7, 1, "0", "string"));
    let mut c = 7u32.to_le_bytes().to_vec();
    encode_len(&mut c, 1);
    c.push(0);
    encode_len(&mut c, 2);
    c.push(0xFF);
    c.push(0xFE);
    frame(&mut f, 3, &c);
    let err = XDFFile::from_bytes(&f).unwrap_err();
    assert!(matches!(err, XDFError::Parse(ParseError::Utf8)));
}

#[test]
fn bad_stream_header_element() {
    let mut f: Vec<u8> = b"XDF:".to_vec();
    frame(&mut f, 1, b"<info><version>1.0</version></info>");
    let mut c = 7u32.to_le_bytes().to_vec();
    c.extend_from_slice(b"<info><nominal_srate>0</nominal_srate><channel_format>int8</channel_format></info>");
    frame(&mut f, 2, &c);
    let err = XDFFile::from_bytes(&f).unwrap_err();
    match err {
        XDFError::Xml(XMLError::BadElement(name)) => assert_eq!(name, "channel_count"),
        other => panic!("expected BadElement(channel_count), got {:?}", other),
    }
}

#[test]
fn short_clock_offset() {
    let mut f: Vec<u8> = b"XDF:".to_vec();
    frame(&mut f, 1, b"<info><version>1.0</version></info>");
    frame(&mut f, 4, &[1, 2, 3]);
    let err = XDFFile::from_bytes(&f).unwrap_err();
    assert!(matches!(err, XDFError::Parse(ParseError::InvalidClockOffset)));
}

#[test]
fn version_not_a_number() {
    let mut f: Vec<u8> = b"XDF:".to_vec();
    frame(&mut f, 1, b"<info><version>abc</version></info>");
    let err = XDFFile::from_bytes(&f).unwrap_err();
    assert!(matches!(err, XDFError::Parse(ParseError::ParseFloat)));
}

#[test]
fn malformed_header_xml() {
    let mut f: Vec<u8> = b"XDF:".to_vec();
    frame(&mut f, 1, b"<info><version>1.0</version></info>");
    let mut c = 9u32.to_le_bytes().to_vec();
    c.extend_from_slice(b"<info><unclosed></info>");
    frame(&mut f, 2, &c);
    let err = XDFFile::from_bytes(&f).unwrap_err();
    assert!(matches!(err, XDFError::Xml(XMLError::ParseError)));
}

#[test]
fn bad_sample_count_field() {
    let mut f: Vec<u8> = b"XDF:".to_vec();
    frame(&mut f, 1, b"<info><version>1.0</version></info>");
    frame(&mut f, 2, &stream_header_content(7, 1, "0", "int8"));
    let mut c = 7u32.to_le_bytes().to_vec();
    c.push(3); // not an accepted count of length bytes
    c.push(1);
    frame(&mut f, 3, &c);
    let err = XDFFile::from_bytes(&f).unwrap_err();
    assert!(matches!(err, XDFError::Parse(ParseError::InvalidNumCountBytes(3))));
}

#[test]
fn truncated_samples_content() {
    let mut f: Vec<u8> = b"XDF:".to_vec();
    frame(&mut f, 1, b"<info><version>1.0</version></info>");
    frame(&mut f, 2, &stream_header_content(7, 1, "0", "int8"));
    frame(&mut f, 3, &[7, 0]); // content shorter than the stream id field
    let err = XDFFile::from_bytes(&f).unwrap_err();
    assert!(matches!(err, XDFError::Parse(ParseError::ChunkParse)));
}

#[test]
fn duplicate_stream_header_first_wins() {
    // a second header for the same id is kept as a chunk but the first
    // header's channel count and format govern the stream
    let mut f: Vec<u8> = b"XDF:".to_vec();
    frame(&mut f, 1, b"<info><version>1.0</version></info>");
    frame(&mut f, 2, &stream_header_content(5, 3, "0", "int16"));
    frame(&mut f, 2, &stream_header_content(5, 2, "0", "int8"));
    frame(
        &mut f,
        3,
        &int16_samples_content(5, 1.0, &[[4, 5, 6]]),
    );
    let parsed = XDFFile::from_bytes(&f).unwrap();
    assert_eq!(parsed.streams.len(), 1);
    let stream = &parsed.streams[0];
    assert_eq!(stream.channel_count, 3);
    assert_eq!(stream.format, Format::Int16);
    assert_eq!(stream.samples.len(), 1);
}

#[test]
fn out_of_order_clock_offsets() {
    // offsets whose collection times do not increase must not derail parsing
    let mut f: Vec<u8> = b"XDF:".to_vec();
    frame(&mut f, 1, b"<info><version>1.0</version></info>");
    frame(&mut f, 2, &stream_header_content(1, 3, "10", "int16"));
    frame(&mut f, 4, &clock_offset_content(1, 9.0, -0.5));
    frame(&mut f, 4, &clock_offset_content(1, 2.0, 0.5));
    frame(
        &mut f,
        3,
        &int16_samples_content(1, 5.0, &[[1, 2, 3], [4, 5, 6]]),
    );
    let _xdf_file = XDFFile::from_bytes(&f);
}

#[test]
fn irregular_stream_clock_correction() {
    // clock correction applies to samples that carry timestamps even when
    // the stream declares no nominal rate
    let mut f: Vec<u8> = b"XDF:".to_vec();
    frame(&mut f, 1, b"<info><version>1.0</version></info>");
    frame(&mut f, 2, &stream_header_content(3, 1, "0", "string"));
    frame(&mut f, 4, &clock_offset_content(3, 1.0, -0.5));
    frame(&mut f, 4, &clock_offset_content(3, 9.0, -0.5));
    let mut c = 3u32.to_le_bytes().to_vec();
    encode_len(&mut c, 1);
    c.push(8);
    c.extend_from_slice(&5.0f64.to_le_bytes());
    encode_len(&mut c, 2);
    c.extend_from_slice(b"go");
    frame(&mut f, 3, &c);
    let parsed = XDFFile::from_bytes(&f).unwrap();
    assert_eq!(parsed.streams.len(), 1);
    let stream = &parsed.streams[0];
    assert_eq!(stream.nominal_srate, None);
    assert_eq!(stream.samples.len(), 1);
    let ts = f64::from_bits(stream.samples[0].timestamp.unwrap());
    assert!((ts - 4.5).abs() < 1e-9, "corrected timestamp is {}", ts);
}
