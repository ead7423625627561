use asuka_core::codec::{decode, encode};
use asuka_core::CodecError;

fn bits_of(values: &[f64]) -> Vec<u32> {
    values.iter().map(|x| (*x as f32).to_bits()).collect()
}

fn floats_of(bits: &[u32]) -> Vec<f64> {
    bits.iter().map(|b| f32::from_bits(*b) as f64).collect()
}

#[test]
fn encode_is_little_endian_single_precision() {
    let v = bits_of(&[1.0, -2.5, 0.0]);
    let blob = encode(&v);
    let mut expected: Vec<u8> = Vec::new();
    for x in [1.0f32, -2.5, 0.0] {
        expected.extend_from_slice(&x.to_le_bytes());
    }
    assert_eq!(blob, expected);
}

#[test]
fn decode_inverts_encode_exactly_on_bits() {
    let v = bits_of(&[0.25, 1e-10, -3.75e20, 6.5, -0.0]);
    let blob = encode(&v);
    assert_eq!(blob.len(), 4 * v.len());
    let back = decode(&blob).unwrap();
    assert_eq!(back, v);
}

#[test]
fn round_trip_is_within_single_precision_relative_error() {
    let values = [
        0.1f64,
        -0.9,
        12345.6789,
        -1.0e-30,
        2.5e30,
        0.333333333333333,
        7.0,
        -42.42,
    ];
    let blob = encode(&bits_of(&values));
    let back = floats_of(&decode(&blob).unwrap());
    assert_eq!(back.len(), values.len());
    for (a, b) in values.iter().zip(back.iter()) {
        let rel = ((a - b) / a).abs();
        assert!(rel <= (2.0f64).powi(-23), "relative error {rel} too large");
    }
}

#[test]
fn decode_rejects_length_not_multiple_of_four() {
    for n in [1usize, 2, 3, 5, 7, 9] {
        let blob = vec![0u8; n];
        assert_eq!(decode(&blob), Err(CodecError::InvalidLength));
    }
    assert!(decode(&Vec::new()).unwrap().is_empty());
}

#[test]
fn encode_of_empty_vector_is_empty() {
    let blob = encode(&Vec::new());
    assert!(blob.is_empty());
}
