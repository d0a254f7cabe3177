use borsh::float::deserialize_f32_bits;
use borsh::float::deserialize_f64_bits;
use borsh::float::f32_bits_is_nan;
use borsh::float::f64_bits_is_nan;
use borsh::float::serialize_f32_bits;
use borsh::float::serialize_f64_bits;
use borsh::io::SliceReader;
use borsh::Error;

#[test]
fn nan_bit_patterns_are_recognized() {
    assert!(f32_bits_is_nan(f32::NAN.to_bits()));
    assert!(f64_bits_is_nan(f64::NAN.to_bits()));
    assert!(f32_bits_is_nan((-f32::NAN).to_bits()));
    assert!(!f32_bits_is_nan(1.5f32.to_bits()));
    assert!(!f32_bits_is_nan(f32::INFINITY.to_bits()));
    assert!(!f64_bits_is_nan(0.0f64.to_bits()));
    assert!(!f64_bits_is_nan(f64::NEG_INFINITY.to_bits()));
}

#[test]
fn encoding_a_nan_fails() {
    let mut out: Vec<u8> = Vec::new();
    let r = serialize_f32_bits(f32::NAN.to_bits(), &mut out);
    assert_eq!(r, Err(Error::NanNotPortable));
    let r = serialize_f64_bits(f64::NAN.to_bits(), &mut out);
    assert_eq!(r, Err(Error::NanNotPortable));
    assert!(out.is_empty());
}

#[test]
fn decoding_nan_bytes_fails() {
    let bytes = f32::NAN.to_bits().to_le_bytes();
    let mut reader = SliceReader::new(&bytes);
    assert_eq!(deserialize_f32_bits(&mut reader), Err(Error::NanNotPortable));

    let bytes = f64::NAN.to_bits().to_le_bytes();
    let mut reader = SliceReader::new(&bytes);
    assert_eq!(deserialize_f64_bits(&mut reader), Err(Error::NanNotPortable));
}

#[test]
fn ordinary_floats_round_trip_through_their_bits() {
    for x in [0.0f32, -0.0, 1.5, -3.25, f32::MAX, f32::MIN_POSITIVE, f32::INFINITY] {
        let mut out: Vec<u8> = Vec::new();
        serialize_f32_bits(x.to_bits(), &mut out).unwrap();
        assert_eq!(out, x.to_bits().to_le_bytes().to_vec());
        let mut reader = SliceReader::new(&out);
        let bits = deserialize_f32_bits(&mut reader).unwrap();
        assert_eq!(f32::from_bits(bits), x);
        assert_eq!(reader.remaining_len(), 0);
    }
    for x in [0.0f64, -1.0e300, 2.5, f64::MIN, f64::NEG_INFINITY] {
        let mut out: Vec<u8> = Vec::new();
        serialize_f64_bits(x.to_bits(), &mut out).unwrap();
        let mut reader = SliceReader::new(&out);
        let bits = deserialize_f64_bits(&mut reader).unwrap();
        assert_eq!(f64::from_bits(bits), x);
    }
}

#[test]
fn short_float_input_fails() {
    let mut reader = SliceReader::new(&[0, 0]);
    assert_eq!(deserialize_f32_bits(&mut reader), Err(Error::UnexpectedLengthOfInput));
    let mut reader = SliceReader::new(&[0; 7]);
    assert_eq!(deserialize_f64_bits(&mut reader), Err(Error::UnexpectedLengthOfInput));
}
