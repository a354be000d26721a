use hrest_core::varint::{decode_varint, encode_varint};
use hrest_core::HrestError;

fn round_trip(n: i64) -> i64 {
    let encoded = encode_varint(n);
    let (decoded, consumed) = decode_varint(&encoded).expect("Should decode");
    assert_eq!(consumed, encoded.len(), "Should consume all bytes for {}", n);
    decoded
}

#[test]
fn round_trip_zero() {
    assert_eq!(round_trip(0), 0);
}

#[test]
fn round_trip_positive() {
    assert_eq!(round_trip(1), 1);
    assert_eq!(round_trip(127), 127);
    assert_eq!(round_trip(128), 128);
    assert_eq!(round_trip(i32::MAX as i64), i32::MAX as i64);
}

#[test]
fn round_trip_negative() {
    assert_eq!(round_trip(-1), -1);
    assert_eq!(round_trip(-127), -127);
    assert_eq!(round_trip(-128), -128);
    assert_eq!(round_trip(i32::MIN as i64), i32::MIN as i64);
}

#[test]
fn round_trip_i64_extremes() {
    assert_eq!(round_trip(i64::MAX), i64::MAX);
    assert_eq!(round_trip(i64::MIN), i64::MIN);
}

#[test]
fn small_values_encode_compactly() {
    // 0 should encode to 1 byte
    assert_eq!(encode_varint(0).len(), 1);
    // 1 and -1 should also be 1 byte
    assert_eq!(encode_varint(1).len(), 1);
    assert_eq!(encode_varint(-1).len(), 1);
    // 63 and -64 should be 1 byte (max for 7-bit zigzag)
    assert_eq!(encode_varint(63).len(), 1);
    assert_eq!(encode_varint(-64).len(), 1);
}

#[test]
fn truncated_varint_returns_error() {
    // A byte with continuation bit set but no following bytes
    let truncated = &[0x80u8];
    let result = decode_varint(truncated);
    assert!(matches!(result, Err(HrestError::VarintError(_))));
}

#[test]
fn decode_with_trailing_bytes() {
    // Encode 42, then append extra bytes — should only consume varint bytes
    let mut buf = encode_varint(42);
    let varint_len = buf.len();
    buf.extend_from_slice(&[0xFF, 0xFF]);
    let (val, consumed) = decode_varint(&buf).expect("Should decode");
    assert_eq!(val, 42);
    assert_eq!(consumed, varint_len);
}

#[test]
fn zigzag_bytes_are_exact() {
    assert_eq!(encode_varint(0), vec![0x00]);
    assert_eq!(encode_varint(-1), vec![0x01]);
    assert_eq!(encode_varint(1), vec![0x02]);
    assert_eq!(encode_varint(64), vec![0x80, 0x01]);
    assert_eq!(encode_varint(-65), vec![0x81, 0x01]);
    assert_eq!(encode_varint(300), vec![0xD8, 0x04]);
    assert_eq!(encode_varint(i64::MIN).len(), 10);
    assert_eq!(
        encode_varint(i64::MAX),
        vec![0xFE, 0xFF, 0xFF, 0xFF, 0xFF, 0xFF, 0xFF, 0xFF, 0xFF, 0x01]
    );
}

#[test]
fn varint_overflow_is_rejected() {
    let eleven = [0x80u8; 11];
    match decode_varint(&eleven) {
        Err(HrestError::VarintError(m)) => {
            assert_eq!(m, "Varint overflow: exceeds 64-bit capacity")
        }
        other => panic!("expected overflow, got {:?}", other),
    }
    match decode_varint(&[0x80u8, 0x80]) {
        Err(HrestError::VarintError(m)) => {
            assert_eq!(m, "Varint truncated: stream ended before terminating byte")
        }
        other => panic!("expected truncation, got {:?}", other),
    }
    assert!(matches!(decode_varint(&[]), Err(HrestError::VarintError(_))));
}

#[test]
fn tenth_byte_carries_only_bit_63() {
    // Nine continuation bytes of 0x80 then 0x01: the raw value is 2^63,
    // which zigzag-decodes to 2^62; 0x7F there would exceed 64 bits.
    let mut bytes = vec![0x80u8; 9];
    bytes.push(0x01);
    assert_eq!(decode_varint(&bytes).unwrap(), (4611686018427387904, 10));
    bytes[9] = 0x7F;
    assert!(matches!(decode_varint(&bytes), Err(HrestError::VarintError(_))));
}

#[test]
fn tenth_byte_beyond_bit_63_is_overflow() {
    let mut bytes = vec![0xFFu8; 9];
    bytes.push(0x02);
    match decode_varint(&bytes) {
        Err(HrestError::VarintError(m)) => {
            assert_eq!(m, "Varint overflow: exceeds 64-bit capacity")
        }
        other => panic!("expected overflow, got {:?}", other),
    }
    let mut top = vec![0xFFu8; 9];
    top.push(0x01);
    assert_eq!(decode_varint(&top).unwrap(), (i64::MIN, 10));
}

#[test]
fn ten_continuation_bytes_at_end_are_truncated() {
    let ten = [0x80u8; 10];
    match decode_varint(&ten) {
        Err(HrestError::VarintError(m)) => {
            assert_eq!(m, "Varint truncated: stream ended before terminating byte")
        }
        other => panic!("expected truncation, got {:?}", other),
    }
    let mut eleven = vec![0x80u8; 10];
    eleven.push(0x00);
    match decode_varint(&eleven) {
        Err(HrestError::VarintError(m)) => {
            assert_eq!(m, "Varint overflow: exceeds 64-bit capacity")
        }
        other => panic!("expected overflow, got {:?}", other),
    }
}
