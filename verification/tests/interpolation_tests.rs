use xdf::parse::ClockOffsetChunk;
use xdf::reconstruct::interpolate_and_add_offsets;

const EPSILON: f64 = 1E-15;

fn offsets() -> Vec<ClockOffsetChunk> {
    vec![
        ClockOffsetChunk {
            collection_time: 0.0f64.to_bits(),
            offset_value: (-1.0f64).to_bits(),
            stream_id: 0,
        },
        ClockOffsetChunk {
            collection_time: 1.0f64.to_bits(),
            offset_value: 1.0f64.to_bits(),
            stream_id: 0,
        },
    ]
}

// test the interpolation function for timestamps *inside* the range of offsets
#[test]
fn test_interpolation_inside() {
    let offsets = offsets();

    // test at multiple steps
    for i in 0..=10 {
        let timestamp = i as f64 / 10.0;

        let mut offset_index: usize = 0;
        let interpolated = f64::from_bits(interpolate_and_add_offsets(
            timestamp.to_bits(),
            &offsets,
            &mut offset_index,
        ));

        let expected = timestamp + (timestamp * 2.0 - 1.0); // original timestamp + interpolated offset

        assert!(
            (interpolated - expected).abs() < EPSILON,
            "expected {} to be within {} of {}",
            interpolated,
            EPSILON,
            expected
        );
    }
}

// test the interpolation function for timestamps after the last offset
#[test]
fn test_interpolation_after() {
    let offsets = offsets();
    // after the range we expect for the last offset to be used
    let last_offset = offsets.last().unwrap();
    let timestamp = f64::from_bits(last_offset.collection_time) + 1.0;
    let expected = timestamp + f64::from_bits(last_offset.offset_value);
    let mut offset_index: usize = 0;
    let interpolated = f64::from_bits(interpolate_and_add_offsets(
        timestamp.to_bits(),
        &offsets,
        &mut offset_index,
    ));

    assert!(
        (interpolated - expected).abs() < EPSILON,
        "expected {} to be within {} of {}",
        interpolated,
        EPSILON,
        expected
    );
}

// test the interpolation function for timestamps before the first offset
#[test]
fn test_interpolation_before() {
    let offsets = offsets();
    let first_offset = offsets.first().unwrap();
    let timestamp = f64::from_bits(first_offset.collection_time) - 1.0;
    let expected = timestamp + f64::from_bits(first_offset.offset_value);
    let mut offset_index: usize = 0;
    let interpolated = f64::from_bits(interpolate_and_add_offsets(
        timestamp.to_bits(),
        &offsets,
        &mut offset_index,
    ));

    assert!(
        (interpolated - expected).abs() < EPSILON,
        "expected {} to be within {} of {}",
        interpolated,
        EPSILON,
        expected
    );
}
