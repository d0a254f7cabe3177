use borsh::de::BorshDeserialize;
use borsh::de::EnumExt;
use borsh::from_slice;
use borsh::to_vec;
use borsh::Error;
use borsh::ErrorKind;
use borsh::io::SliceReader;

#[test]
fn option_tag_two_is_rejected() {
    let r: Result<Option<u8>, Error> = from_slice(&[2, 5]);
    assert_eq!(r, Err(Error::InvalidOptionTag(2)));
}

#[test]
fn option_tag_255_is_rejected() {
    let r: Result<Option<u8>, Error> = from_slice(&[255, 5]);
    assert_eq!(r, Err(Error::InvalidOptionTag(255)));
}

#[test]
fn result_tag_two_is_rejected() {
    let r: Result<Result<u8, u8>, Error> = from_slice(&[2, 5]);
    assert_eq!(r, Err(Error::InvalidResultTag(2)));
}

#[test]
fn bool_byte_two_is_rejected() {
    let r: Result<bool, Error> = from_slice(&[2]);
    assert_eq!(r, Err(Error::InvalidBoolByte(2)));
}

#[test]
fn trailing_bytes_fail_at_the_root() {
    let r: Result<u8, Error> = from_slice(&[5, 9]);
    assert_eq!(r, Err(Error::NotAllBytesRead));
}

#[test]
fn the_same_bytes_succeed_as_two_fields() {
    let r: Result<(u8, u8), Error> = from_slice(&[5, 9]);
    assert_eq!(r, Ok((5, 9)));
}

#[test]
fn short_input_fails_for_each_width() {
    assert_eq!(from_slice::<u8>(&[]), Err(Error::UnexpectedLengthOfInput));
    assert_eq!(from_slice::<u16>(&[1]), Err(Error::UnexpectedLengthOfInput));
    assert_eq!(from_slice::<u32>(&[1, 2, 3]), Err(Error::UnexpectedLengthOfInput));
    assert_eq!(from_slice::<u64>(&[0; 7]), Err(Error::UnexpectedLengthOfInput));
    assert_eq!(from_slice::<u128>(&[0; 15]), Err(Error::UnexpectedLengthOfInput));
    assert_eq!(from_slice::<String>(&[4, 0, 0, 0, b'a']), Err(Error::UnexpectedLengthOfInput));
}

#[test]
fn hostile_length_prefix_fails_without_allocation() {
    // Declared length 0xFFFFFFFF with only ten payload bytes available.
    let mut bytes = vec![0xff, 0xff, 0xff, 0xff];
    bytes.extend_from_slice(&[0u8; 10]);
    assert_eq!(from_slice::<Vec<u8>>(&bytes), Err(Error::UnexpectedLengthOfInput));
    assert_eq!(from_slice::<String>(&bytes), Err(Error::UnexpectedLengthOfInput));
    assert_eq!(from_slice::<Vec<u32>>(&bytes), Err(Error::UnexpectedLengthOfInput));
}

#[test]
fn invalid_utf8_is_rejected() {
    let bytes = vec![2, 0, 0, 0, 0xff, 0xfe];
    assert_eq!(from_slice::<String>(&bytes), Err(Error::InvalidUtf8));
}

#[test]
fn zero_sized_elements_are_rejected_both_ways() {
    let r = to_vec(&vec![(), ()]);
    assert_eq!(r, Err(Error::ZeroSizedElement));
    let r: Result<Vec<()>, Error> = from_slice(&[2, 0, 0, 0]);
    assert_eq!(r, Err(Error::ZeroSizedElement));
}

#[test]
fn pointer_width_overflow_on_narrow_target() {
    let wide: usize = 1 << 40;
    let bytes = to_vec(&wide).unwrap();
    // A platform whose usize is 32 bits wide must reject the stored value.
    let mut reader = SliceReader::new(&bytes);
    let r = borsh::de::decode_target_usize(&mut reader, u32::MAX as u64);
    assert_eq!(r, Err(Error::UsizeOverflow));
    // This platform accepts it unchanged.
    assert_eq!(from_slice::<usize>(&bytes), Ok(wide));
}

#[test]
fn pointer_width_overflow_signed_on_narrow_target() {
    let wide: isize = -(1 << 40);
    let bytes = to_vec(&wide).unwrap();
    let mut reader = SliceReader::new(&bytes);
    let r = borsh::de::decode_target_isize(&mut reader, i32::MIN as i64, i32::MAX as i64);
    assert_eq!(r, Err(Error::IsizeOverflow));
    assert_eq!(from_slice::<isize>(&bytes), Ok(wide));
}

#[test]
fn nested_decode_error_propagates() {
    // Option tag says present, then the inner bool byte is bad.
    let r: Result<Option<bool>, Error> = from_slice(&[1, 9]);
    assert_eq!(r, Err(Error::InvalidBoolByte(9)));
}

#[test]
fn eof_mapping_rewrites_only_the_eof_signal() {
    let mapped = borsh::unexpected_eof_to_unexpected_length_of_input(Error::UnexpectedEof);
    assert_eq!(mapped, Error::UnexpectedLengthOfInput);
    let other = borsh::unexpected_eof_to_unexpected_length_of_input(Error::InvalidBoolByte(7));
    assert_eq!(other, Error::InvalidBoolByte(7));
}

#[test]
fn error_kinds_classify_the_variants() {
    assert_eq!(Error::UnexpectedEof.kind(), ErrorKind::UnexpectedEof);
    assert_eq!(Error::Io.kind(), ErrorKind::Other);
    assert_eq!(Error::NotAllBytesRead.kind(), ErrorKind::InvalidData);
    assert_eq!(Error::WrongOrderOfKeys.kind(), ErrorKind::InvalidData);
}

#[test]
fn variant_dispatch_rejects_unknown_tags() {
    let payload = [7u8];
    let mut reader = SliceReader::new(&payload);
    let r = <Option<u8> as EnumExt>::deserialize_variant(&mut reader, 1);
    assert_eq!(r, Ok(Some(7)));

    let mut reader = SliceReader::new(&[]);
    let r = <Option<u8> as EnumExt>::deserialize_variant(&mut reader, 0);
    assert_eq!(r, Ok(None));

    let mut reader = SliceReader::new(&[]);
    let r = <Option<u8> as EnumExt>::deserialize_variant(&mut reader, 3);
    assert_eq!(r, Err(Error::InvalidOptionTag(3)));

    let payload = [9u8];
    let mut reader = SliceReader::new(&payload);
    let r = <Result<u8, u8> as EnumExt>::deserialize_variant(&mut reader, 0);
    assert_eq!(r, Ok(Err(9)));

    let mut reader = SliceReader::new(&[]);
    let r = <Result<u8, u8> as EnumExt>::deserialize_variant(&mut reader, 4);
    assert_eq!(r, Err(Error::InvalidResultTag(4)));
}

#[test]
fn array_decode_fails_cleanly_mid_way() {
    // Three bytes cannot fill five elements.
    let r: Result<[u8; 5], Error> = from_slice(&[0, 0, 0]);
    assert_eq!(r, Err(Error::UnexpectedLengthOfInput));
}

#[test]
fn non_zero_constrained_integers_reject_zero() {
    let bytes = to_vec(&7u32).unwrap();
    let mut reader = SliceReader::new(&bytes);
    assert_eq!(borsh::de::deserialize_nonzero_u32(&mut reader), Ok(7));

    let bytes = to_vec(&0u32).unwrap();
    let mut reader = SliceReader::new(&bytes);
    assert_eq!(
        borsh::de::deserialize_nonzero_u32(&mut reader),
        Err(Error::ExpectedNonZeroValue)
    );

    let bytes = to_vec(&0u64).unwrap();
    let mut reader = SliceReader::new(&bytes);
    assert_eq!(
        borsh::de::deserialize_nonzero_u64(&mut reader),
        Err(Error::ExpectedNonZeroValue)
    );
}
