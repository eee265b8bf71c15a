use xdf::fbits::{f64_is_finite, f64_is_nonzero_positive, f64_is_positive, f64_is_zero};
use xdf::length::{decode_length, encode_length, num_length_bytes, LenError};

#[test]
fn test_num_length_bytes() {
    let valid_inputs = [1u8, 4, 8];
    for input in valid_inputs {
        let result = num_length_bytes(input);
        assert!(result.is_some());
        assert_eq!(result.unwrap(), input);
    }

    let invalid_inputs = [0u8, 2, 3, 5, 6, 7, 9, 10, 11, 12, 13, 14, 15];
    for invalid_input in invalid_inputs {
        let result = num_length_bytes(invalid_input);
        assert!(result.is_none());
    }
}

#[test]
fn test_length() {
    let test_sets: [(u8, u64); 3] = [(1, 0xCA), (4, 0xCAFE_CACE), (8, 0xCAFE_CACE_600D_F00D)];

    for (num_bytes, value) in test_sets {
        let mut input = vec![num_bytes];
        match num_bytes {
            n @ (1 | 4 | 8) => input.extend_from_slice(&value.to_le_bytes()[..n as usize]),
            _ => panic!("unexpected num_bytes"),
        }

        let result = decode_length(&input, 0);
        assert!(result.is_ok());
        let (len, next) = result.unwrap();
        assert_eq!(next, input.len());
        assert_eq!(
            value, len,
            "num_bytes: {num_bytes}\nExpected: \t0x{value:X}\nGot:\t\t0x{len:X}"
        );
    }
}

#[test]
fn invalid_length() {
    let invalid_inputs = [0u8, 2, 3, 5, 6, 7, 9, 10, 11, 12, 13, 14, 15];
    for invalid_input in invalid_inputs {
        let mut input = vec![invalid_input];
        input.extend_from_slice(&0xCAFE_CACE_600D_F00D_u64.to_le_bytes());
        let result = decode_length(&input, 0);
        assert!(matches!(result, Err(LenError::BadCount(b)) if b == invalid_input));
    }
}

#[test]
fn length_codec_boundaries() {
    // encoder uses the minimal byte count, and decoding gives the value back
    let cases: [(u64, u8); 5] = [
        (0, 1),
        (255, 1),
        (256, 4),
        (0xCAFE_CACE, 4),
        (0xCAFE_CACE_600D_F00D, 8),
    ];
    for (value, expected_first_byte) in cases {
        let mut encoded: Vec<u8> = Vec::new();
        encode_length(&mut encoded, value);
        assert_eq!(encoded[0], expected_first_byte, "wrong width for {value}");
        let (decoded, next) = decode_length(&encoded, 0).unwrap();
        assert_eq!(decoded, value);
        assert_eq!(next, encoded.len());
    }
}

#[test]
fn float_bit_classes() {
    assert!(f64_is_finite(1.5f64.to_bits()));
    assert!(f64_is_finite((-0.0f64).to_bits()));
    assert!(!f64_is_finite(f64::INFINITY.to_bits()));
    assert!(!f64_is_finite(f64::NAN.to_bits()));
    assert!(f64_is_positive(0.0f64.to_bits()));
    assert!(f64_is_positive(2.5f64.to_bits()));
    assert!(!f64_is_positive((-2.5f64).to_bits()));
    assert!(!f64_is_positive(f64::INFINITY.to_bits()));
    assert!(f64_is_zero(0.0f64.to_bits()));
    assert!(f64_is_zero((-0.0f64).to_bits()));
    assert!(!f64_is_zero(1e-300f64.to_bits()));
    assert!(f64_is_nonzero_positive(100.0f64.to_bits()));
    assert!(!f64_is_nonzero_positive(0.0f64.to_bits()));
}
