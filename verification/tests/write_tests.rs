use xdf::writer::{HasMetadataAndDesc, HasTimestamps, NoTimestamps, StreamInfo, XDFBuilder, XDFWriterError};
use xdf::{Format, Values, XDFFile};

#[test]
fn write_simple() {
    let mut writer = XDFBuilder::new().build().unwrap();
    let stream_info = StreamInfo::new(2, Some(100.0f64.to_bits()));
    let stream_builder = writer
        .add_stream::<HasTimestamps>(stream_info, Format::Int32)
        .name("Test Stream")
        .content_type("Test Content")
        .add_metadata_key("key1", "value1");
    let mut stream = stream_builder.start_stream(&mut writer).unwrap();

    let samples: Vec<Values> = vec![
        Values::Int32(vec![1, 2]),
        Values::Int32(vec![3, 4]),
        Values::Int32(vec![5, 6]),
    ];
    let timestamp = 1.0f64;

    stream
        .write_samples(&mut writer, &samples, timestamp.to_bits())
        .unwrap();

    stream.close(&mut writer).unwrap();
    let buffer = writer.into_bytes();

    let parsed = XDFFile::from_bytes(&buffer).unwrap();
    println!("Parsed XDFFile: {:#?}", parsed);

    assert_eq!(f32::from_bits(parsed.version), 1.0);
    assert_eq!(parsed.streams.len(), 1);
    let stream = &parsed.streams[0];
    assert_eq!(stream.channel_count, 2);
    assert_eq!(stream.name.as_deref(), Some("Test Stream"));
    assert_eq!(stream.content_type.as_deref(), Some("Test Content"));
    assert_eq!(
        stream.header.get_child("key1").unwrap().get_text().unwrap(),
        "value1"
    );
    assert_eq!(stream.samples.len(), samples.len());

    for (i, sample) in stream.samples.iter().enumerate() {
        match (&sample.values, &samples[i]) {
            (Values::Int32(got), Values::Int32(expected)) => assert_eq!(got, expected),
            other => panic!("unexpected values {:?}", other),
        }
        let expected_timestamp = timestamp + i as f64 / 100.0;
        assert_eq!(f64::from_bits(sample.timestamp.unwrap()), expected_timestamp);
    }
}

#[test]
fn write_simple_str_one_ch() {
    let mut writer = XDFBuilder::new().build().unwrap();
    let stream_info = StreamInfo::new(1, Some(100.0f64.to_bits()));
    let mut stream = writer
        .add_stream::<HasTimestamps>(stream_info, Format::String)
        .name("Test Stream")
        .content_type("Test Content")
        .add_metadata_key("key1", "value1")
        .start_stream(&mut writer)
        .unwrap();

    let samples: Vec<Values> = vec![
        Values::Strings(vec!["one".to_string()]),
        Values::Strings(vec!["two".to_string()]),
        Values::Strings(vec!["\u{1F980}".to_string()]),
    ];

    let timestamp = 1.0f64;

    stream
        .write_samples(&mut writer, &samples, timestamp.to_bits())
        .unwrap();

    stream.close(&mut writer).unwrap();
    let buffer = writer.into_bytes();
    println!("buffer: {:?}", String::from_utf8_lossy(&buffer));
    println!("buffer: {:?}", &buffer);

    let parsed = XDFFile::from_bytes(&buffer).unwrap();

    assert_eq!(f32::from_bits(parsed.version), 1.0);
    assert_eq!(parsed.streams.len(), 1);
    let stream = &parsed.streams[0];
    assert_eq!(stream.channel_count, 1);
    assert_eq!(stream.name.as_deref(), Some("Test Stream"));
    assert_eq!(stream.content_type.as_deref(), Some("Test Content"));
    assert_eq!(
        stream.header.get_child("key1").unwrap().get_text().unwrap(),
        "value1"
    );
    assert_eq!(stream.samples.len(), samples.len());

    for (i, sample) in stream.samples.iter().enumerate() {
        match (&sample.values, &samples[i]) {
            (Values::Strings(got), Values::Strings(expected)) => assert_eq!(got, expected),
            _ => panic!("Wrong value type for string test"),
        }
        let expected_timestamp = timestamp + i as f64 / 100.0;
        assert_eq!(f64::from_bits(sample.timestamp.unwrap()), expected_timestamp);
    }
}

#[test]
fn write_simple_str_two_ch() {
    let mut writer = XDFBuilder::new().build().unwrap();
    let stream_info = StreamInfo::new(2, Some(100.0f64.to_bits()));
    let mut stream = writer
        .add_stream::<HasTimestamps>(stream_info, Format::String)
        .name("Test Stream")
        .content_type("Test Content")
        .add_metadata_key("key1", "value1")
        .start_stream(&mut writer)
        .unwrap();

    let samples: Vec<Values> = vec![
        Values::Strings(vec!["one".to_string(), "two".to_string()]),
        Values::Strings(vec!["three".to_string(), "four".to_string()]),
        Values::Strings(vec!["five".to_string(), "\u{1F980}".to_string()]),
    ];

    let timestamp = 1.0f64;

    stream
        .write_samples(&mut writer, &samples, timestamp.to_bits())
        .unwrap();

    stream.close(&mut writer).unwrap();
    let buffer = writer.into_bytes();
    println!("buffer: {:?}", String::from_utf8_lossy(&buffer));

    let parsed = XDFFile::from_bytes(&buffer).unwrap();

    assert_eq!(f32::from_bits(parsed.version), 1.0);
    assert_eq!(parsed.streams.len(), 1);
    let stream = &parsed.streams[0];
    assert_eq!(stream.channel_count, 2);
    assert_eq!(stream.samples.len(), samples.len());

    for (i, sample) in stream.samples.iter().enumerate() {
        match (&sample.values, &samples[i]) {
            (Values::Strings(got), Values::Strings(expected)) => assert_eq!(got, expected),
            _ => panic!("Wrong value type for string test"),
        }
        let expected_timestamp = timestamp + i as f64 / 100.0;
        assert_eq!(f64::from_bits(sample.timestamp.unwrap()), expected_timestamp);
    }
}

#[test]
fn write_markers_no_timestamps() {
    let mut writer = XDFBuilder::new().build().unwrap();
    let marker_stream_info = StreamInfo::new(1, None);
    let marker_stream_builder = writer
        .add_stream::<NoTimestamps>(marker_stream_info, Format::String)
        .name("Cue")
        .content_type("Markers")
        .add_metadata_key("hostname", "Test");

    let mut marker_stream = marker_stream_builder.start_stream(&mut writer).unwrap();

    let markers: Vec<Values> = vec![
        Values::Strings(vec!["go".to_string()]),
        Values::Strings(vec!["stop".to_string()]),
    ];
    marker_stream.write_samples(&mut writer, &markers).unwrap();
    marker_stream.close(&mut writer).unwrap();

    let parsed = XDFFile::from_bytes(&writer.into_bytes()).unwrap();
    assert_eq!(parsed.streams.len(), 1);
    let stream = &parsed.streams[0];
    assert_eq!(stream.name.as_deref(), Some("Cue"));
    assert_eq!(stream.content_type.as_deref(), Some("Markers"));
    assert_eq!(stream.nominal_srate, None);
    assert_eq!(stream.samples.len(), 2);
    for (i, sample) in stream.samples.iter().enumerate() {
        assert!(sample.timestamp.is_none());
        match (&sample.values, &markers[i]) {
            (Values::Strings(got), Values::Strings(expected)) => assert_eq!(got, expected),
            _ => panic!("Wrong value type for marker test"),
        }
    }
}

#[test]
fn timestamp_synthesis() {
    // nominal_srate = 100, three samples, first_timestamp = 1.0: re-parsed
    // timestamps are 1.00, 1.01, 1.02
    let mut writer = XDFBuilder::new().build().unwrap();
    let stream_info = StreamInfo::new(1, Some(100.0f64.to_bits()));
    let mut stream = writer
        .add_stream::<HasTimestamps>(stream_info, Format::Float64)
        .start_stream(&mut writer)
        .unwrap();
    let samples: Vec<Values> = vec![
        Values::Float64(vec![1.5f64.to_bits()]),
        Values::Float64(vec![2.5f64.to_bits()]),
        Values::Float64(vec![3.5f64.to_bits()]),
    ];
    stream
        .write_samples(&mut writer, &samples, 1.0f64.to_bits())
        .unwrap();
    stream.close(&mut writer).unwrap();

    let parsed = XDFFile::from_bytes(&writer.into_bytes()).unwrap();
    let stream = &parsed.streams[0];
    let expected = [1.00f64, 1.01, 1.02];
    assert_eq!(stream.samples.len(), 3);
    for (i, sample) in stream.samples.iter().enumerate() {
        let ts = f64::from_bits(sample.timestamp.unwrap());
        assert!(
            (ts - expected[i]).abs() < 1e-12,
            "timestamp {} is {}, expected {}",
            i,
            ts,
            expected[i]
        );
    }
}

#[test]
fn close_emits_footer() {
    // after closing, the re-parsed stream has a footer with sample_count 1
    let mut writer = XDFBuilder::new().build().unwrap();
    let stream_info = StreamInfo::new(2, Some(10.0f64.to_bits()));
    let mut stream = writer
        .add_stream::<HasTimestamps>(stream_info, Format::Int16)
        .start_stream(&mut writer)
        .unwrap();
    let samples: Vec<Values> = vec![Values::Int16(vec![7, 8])];
    stream
        .write_samples(&mut writer, &samples, 2.0f64.to_bits())
        .unwrap();
    stream.close(&mut writer).unwrap();

    let parsed = XDFFile::from_bytes(&writer.into_bytes()).unwrap();
    let stream = &parsed.streams[0];
    let footer = stream.footer.as_ref().expect("stream should have a footer");
    let count = footer
        .get_child("sample_count")
        .expect("footer should carry sample_count")
        .get_text()
        .unwrap();
    assert_eq!(count, "1");
    assert!(footer.get_child("first_timestamp").is_some());
    assert!(footer.get_child("last_timestamp").is_some());
}

#[test]
fn length_mismatch_rejected() {
    let mut writer = XDFBuilder::new().build().unwrap();
    let stream_info = StreamInfo::new(2, None);
    let mut stream = writer
        .add_stream::<NoTimestamps>(stream_info, Format::Int8)
        .start_stream(&mut writer)
        .unwrap();
    let bad: Vec<Values> = vec![Values::Int8(vec![1, 2, 3])];
    let err = stream.write_samples(&mut writer, &bad).unwrap_err();
    assert!(
        matches!(err, XDFWriterError::LengthMismatch { expected: 2, actual: 3 }),
        "got {:?}",
        err
    );
    let wrong_format: Vec<Values> = vec![Values::Int16(vec![1, 2])];
    let err = stream.write_samples(&mut writer, &wrong_format).unwrap_err();
    assert!(matches!(err, XDFWriterError::FormatMismatch), "got {:?}", err);
}

#[test]
fn boundary_chunks_accepted() {
    let mut writer = XDFBuilder::new().build().unwrap();
    writer.write_boundary().unwrap();
    let stream_info = StreamInfo::new(1, None);
    let mut stream = writer
        .add_stream::<NoTimestamps>(stream_info, Format::Int64)
        .start_stream(&mut writer)
        .unwrap();
    let samples: Vec<Values> = vec![Values::Int64(vec![-5]), Values::Int64(vec![9])];
    stream.write_samples(&mut writer, &samples).unwrap();
    stream.write_boundary(&mut writer).unwrap();
    stream.close(&mut writer).unwrap();

    let parsed = XDFFile::from_bytes(&writer.into_bytes()).unwrap();
    assert_eq!(parsed.streams.len(), 1);
    let stream = &parsed.streams[0];
    assert_eq!(stream.samples.len(), 2);
    match &stream.samples[0].values {
        Values::Int64(v) => assert_eq!(v, &vec![-5i64]),
        other => panic!("unexpected values {:?}", other),
    }
}

#[test]
fn all_numeric_formats_round_trip() {
    let cases: Vec<(Format, Values)> = vec![
        (Format::Int8, Values::Int8(vec![-1, 2])),
        (Format::Int16, Values::Int16(vec![-300, 400])),
        (Format::Int32, Values::Int32(vec![-70000, 80000])),
        (Format::Int64, Values::Int64(vec![-5_000_000_000, 6_000_000_000])),
        (
            Format::Float32,
            Values::Float32(vec![1.25f32.to_bits(), (-2.5f32).to_bits()]),
        ),
        (
            Format::Float64,
            Values::Float64(vec![1.25f64.to_bits(), (-2.5f64).to_bits()]),
        ),
    ];
    for (fmt, row) in cases {
        let mut writer = XDFBuilder::new().build().unwrap();
        let stream_info = StreamInfo::new(2, Some(100.0f64.to_bits()));
        let mut stream = writer
            .add_stream::<HasTimestamps>(stream_info, fmt)
            .start_stream(&mut writer)
            .unwrap();
        let samples: Vec<Values> = vec![row.clone()];
        stream
            .write_samples(&mut writer, &samples, 3.0f64.to_bits())
            .unwrap();
        stream.close(&mut writer).unwrap();
        let parsed = XDFFile::from_bytes(&writer.into_bytes()).unwrap();
        let stream = &parsed.streams[0];
        assert_eq!(stream.format, fmt);
        assert_eq!(stream.samples.len(), 1);
        assert_eq!(stream.samples[0].values, row);
        assert_eq!(f64::from_bits(stream.samples[0].timestamp.unwrap()), 3.0);
    }
}

#[test]
fn write_write_simple() {
    let builder = XDFBuilder::new();
    let mut writer = builder.build().expect("failed to create XDFWriter from builder");

    let marker_stream_info = StreamInfo::new(1, None);
    let marker_stream_builder = writer
        .add_stream::<HasTimestamps>(marker_stream_info, Format::String)
        .name("Cue")
        .content_type("Markers")
        .add_metadata_key("hostname", "Test");

    let mut marker_stream = marker_stream_builder
        .start_stream(&mut writer)
        .expect("could not create marker stream from its builder");

    // Write some markers to the stream and check the output
    let markers: Vec<Values> = vec![Values::Strings(vec!["start".to_string()])];
    marker_stream
        .write_samples(&mut writer, &markers, 0.25f64.to_bits())
        .unwrap();
    marker_stream.close(&mut writer).unwrap();

    let parsed = XDFFile::from_bytes(&writer.into_bytes()).unwrap();
    assert_eq!(parsed.streams.len(), 1);
    let stream = &parsed.streams[0];
    assert_eq!(stream.name.as_deref(), Some("Cue"));
    assert_eq!(stream.content_type.as_deref(), Some("Markers"));
    assert_eq!(
        stream
            .header
            .get_child("hostname")
            .unwrap()
            .get_text()
            .unwrap(),
        "Test"
    );
    assert_eq!(stream.samples.len(), 1);
    match &stream.samples[0].values {
        Values::Strings(v) => assert_eq!(v, &vec!["start".to_string()]),
        other => panic!("unexpected values {:?}", other),
    }
}
