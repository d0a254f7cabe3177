use borsh::interop::deserialize_bytes;
use borsh::interop::deserialize_bytes_mut;
use borsh::interop::deserialize_object_id;
use borsh::io::SliceReader;
use borsh::to_vec;
use borsh::Error;

#[test]
fn shared_byte_buffer_round_trips() {
    let buf = bytes::Bytes::from(vec![1u8, 2, 3, 4]);
    let encoded = to_vec(&buf).unwrap();
    assert_eq!(encoded, vec![4, 0, 0, 0, 1, 2, 3, 4]);
    let mut reader = SliceReader::new(&encoded);
    let back = deserialize_bytes(&mut reader).unwrap();
    assert_eq!(back, buf);
    assert_eq!(reader.remaining_len(), 0);
}

#[test]
fn mutable_byte_buffer_round_trips() {
    let buf = bytes::BytesMut::from(&[9u8, 8, 7][..]);
    let encoded = to_vec(&buf).unwrap();
    assert_eq!(encoded, vec![3, 0, 0, 0, 9, 8, 7]);
    let mut reader = SliceReader::new(&encoded);
    let back = deserialize_bytes_mut(&mut reader).unwrap();
    assert_eq!(back, buf);
}

#[test]
fn byte_buffer_encoding_matches_vec_encoding() {
    let raw = vec![5u8, 6, 7];
    let as_vec = to_vec(&raw).unwrap();
    let as_buf = to_vec(&bytes::Bytes::from(raw)).unwrap();
    assert_eq!(as_vec, as_buf);
}

#[test]
fn object_id_round_trips_as_twelve_raw_bytes() {
    let id = bson::oid::ObjectId::from_bytes([1, 2, 3, 4, 5, 6, 7, 8, 9, 10, 11, 12]);
    let encoded = to_vec(&id).unwrap();
    assert_eq!(encoded, vec![1, 2, 3, 4, 5, 6, 7, 8, 9, 10, 11, 12]);
    let mut reader = SliceReader::new(&encoded);
    let back = deserialize_object_id(&mut reader).unwrap();
    assert_eq!(back, id);
    assert_eq!(reader.remaining_len(), 0);
}

#[test]
fn short_object_id_input_fails() {
    let mut reader = SliceReader::new(&[0u8; 11]);
    assert_eq!(deserialize_object_id(&mut reader), Err(Error::UnexpectedLengthOfInput));
}

#[test]
fn truncated_byte_buffer_fails() {
    let encoded = vec![4, 0, 0, 0, 1, 2];
    let mut reader = SliceReader::new(&encoded);
    assert_eq!(deserialize_bytes(&mut reader), Err(Error::UnexpectedLengthOfInput));
}
