use borsh::de::BorshDeserialize;
use borsh::from_slice;
use borsh::to_vec;

fn round_trip<T>(value: T)
where
    T: borsh::BorshSerialize + BorshDeserialize + PartialEq + core::fmt::Debug,
{
    let bytes = to_vec(&value).expect("serialization failed");
    let back = from_slice::<T>(&bytes).expect("deserialization failed");
    assert_eq!(value, back);
}

#[test]
fn round_trip_unsigned() {
    round_trip(0u8);
    round_trip(255u8);
    round_trip(0u16);
    round_trip(65535u16);
    round_trip(0u32);
    round_trip(123456789u32);
    round_trip(u32::MAX);
    round_trip(0u64);
    round_trip(u64::MAX);
    round_trip(0u128);
    round_trip(u128::MAX);
}

#[test]
fn round_trip_signed() {
    round_trip(0i8);
    round_trip(-1i8);
    round_trip(i8::MIN);
    round_trip(i8::MAX);
    round_trip(-2i16);
    round_trip(i16::MIN);
    round_trip(-3i32);
    round_trip(i32::MIN);
    round_trip(i32::MAX);
    round_trip(-4i64);
    round_trip(i64::MIN);
    round_trip(-5i128);
    round_trip(i128::MIN);
    round_trip(i128::MAX);
}

#[test]
fn round_trip_pointer_sized() {
    round_trip(0usize);
    round_trip(100usize);
    round_trip(usize::MIN);
    round_trip(usize::MAX);
    round_trip(-100isize);
    round_trip(100isize);
    round_trip(isize::MIN);
    round_trip(isize::MAX);
}

#[test]
fn round_trip_bool_and_unit() {
    round_trip(true);
    round_trip(false);
    round_trip(());
    round_trip(core::marker::PhantomData::<u64>);
}

#[test]
fn round_trip_strings() {
    round_trip(String::new());
    round_trip(String::from("hello"));
    round_trip(String::from("non-ascii: \u{00e9}\u{4e16}\u{754c}\u{1f600}"));
}

#[test]
fn round_trip_options_and_results() {
    round_trip(None::<u32>);
    round_trip(Some(77u32));
    round_trip(Some(String::from("inner")));
    round_trip(Ok::<u32, String>(5));
    round_trip(Err::<u32, String>(String::from("error")));
    round_trip(Some(Some(1u8)));
}

#[test]
fn round_trip_sequences() {
    round_trip(Vec::<u32>::new());
    round_trip(vec![1u32, 2, 3]);
    round_trip(vec![String::from("foo"), String::from("bar")]);
    round_trip(vec![vec![1u8, 2], vec![], vec![3]]);
    round_trip(vec![0u8, 1, 2, 3, 255]);
}

#[test]
fn round_trip_tuples_and_boxes() {
    round_trip((1u8, 2u32));
    round_trip((String::from("k"), 9u64, false));
    round_trip(Box::new(77u64));
    round_trip(Box::new(String::from("boxed")));
}

#[test]
fn round_trip_arrays() {
    round_trip([0u64, 1, 2, 3, 4]);
    round_trip([7u8; 12]);
    round_trip([String::from("a"), String::from("b")]);
}

#[test]
fn sequence_wire_format_is_length_prefix_then_elements() {
    let bytes = to_vec(&vec![1u32, 2u32]).unwrap();
    assert_eq!(
        bytes,
        vec![0x02, 0x00, 0x00, 0x00, 0x01, 0x00, 0x00, 0x00, 0x02, 0x00, 0x00, 0x00]
    );
    let back = from_slice::<Vec<u32>>(&bytes).unwrap();
    assert_eq!(back, vec![1u32, 2u32]);
}

#[test]
fn primitive_wire_format_is_little_endian() {
    assert_eq!(to_vec(&0x0102u16).unwrap(), vec![0x02, 0x01]);
    assert_eq!(to_vec(&0x01020304u32).unwrap(), vec![0x04, 0x03, 0x02, 0x01]);
    assert_eq!(to_vec(&true).unwrap(), vec![1]);
    assert_eq!(to_vec(&false).unwrap(), vec![0]);
    assert_eq!(to_vec(&(-1i8)).unwrap(), vec![0xff]);
    assert_eq!(to_vec(&(-1i32)).unwrap(), vec![0xff, 0xff, 0xff, 0xff]);
}

#[test]
fn pointer_sized_values_use_eight_bytes() {
    assert_eq!(to_vec(&1usize).unwrap(), vec![1, 0, 0, 0, 0, 0, 0, 0]);
    assert_eq!(to_vec(&(-1isize)).unwrap(), vec![0xff; 8]);
}

#[test]
fn string_wire_format_is_length_prefix_then_utf8() {
    let bytes = to_vec(&String::from("hi")).unwrap();
    assert_eq!(bytes, vec![0x02, 0x00, 0x00, 0x00, b'h', b'i']);
}

#[test]
fn wrappers_add_no_bytes() {
    let plain = to_vec(&42u32).unwrap();
    let boxed = to_vec(&Box::new(42u32)).unwrap();
    assert_eq!(plain, boxed);
}

#[test]
fn large_byte_payload_crosses_read_chunks() {
    // Larger than the one-mebibyte per-read ceiling, so the bounded reader
    // must gather the payload over several reads.
    let big: Vec<u8> = (0..2_200_000u32).map(|i| (i % 251) as u8).collect();
    round_trip(big);
}

#[test]
fn try_from_slice_matches_from_slice() {
    let bytes = to_vec(&31337u32).unwrap();
    assert_eq!(u32::try_from_slice(&bytes).unwrap(), 31337);
}

#[test]
fn from_reader_requires_exhausted_source() {
    let bytes = to_vec(&5u16).unwrap();
    let mut reader = borsh::io::SliceReader::new(&bytes);
    let value: u16 = borsh::from_reader(&mut reader).unwrap();
    assert_eq!(value, 5);

    let padded = vec![5, 0, 9];
    let mut reader = borsh::io::SliceReader::new(&padded);
    let r: Result<u16, borsh::Error> = borsh::from_reader(&mut reader);
    assert_eq!(r, Err(borsh::Error::NotAllBytesRead));
}

#[test]
fn try_from_reader_matches_from_reader() {
    let bytes = to_vec(&vec![9u8, 8, 7]).unwrap();
    let mut reader = borsh::io::SliceReader::new(&bytes);
    let value = Vec::<u8>::try_from_reader(&mut reader).unwrap();
    assert_eq!(value, vec![9u8, 8, 7]);
}

#[test]
fn to_writer_appends_to_the_sink() {
    let mut sink: Vec<u8> = vec![0xaa];
    borsh::to_writer(&7u16, &mut sink).unwrap();
    assert_eq!(sink, vec![0xaa, 7, 0]);
}

#[test]
fn deserialize_advances_the_slice() {
    let bytes = vec![7, 0, 0, 0, 1, 0];
    let mut buf: &[u8] = &bytes;
    let first = u32::deserialize(&mut buf).unwrap();
    assert_eq!(first, 7);
    assert_eq!(buf, &[1, 0]);
    let second = u16::deserialize(&mut buf).unwrap();
    assert_eq!(second, 1);
    assert!(buf.is_empty());
}

#[test]
fn shared_ownership_wrappers_round_trip_as_fresh_copies() {
    let shared = std::rc::Rc::new(41u32);
    let pair = (shared.clone(), shared.clone());
    let bytes = to_vec(&pair).unwrap();
    // Each reference serialized its own copy of the contents.
    assert_eq!(bytes, to_vec(&(41u32, 41u32)).unwrap());
    let back: (std::rc::Rc<u32>, std::rc::Rc<u32>) = from_slice(&bytes).unwrap();
    assert_eq!(*back.0, 41);
    assert_eq!(*back.1, 41);
    // Decoded instances are independent, never aliased back together.
    assert_eq!(std::rc::Rc::strong_count(&back.0), 1);

    round_trip(std::sync::Arc::new(String::from("shared")));
}

#[test]
fn insertion_ordered_sequences_round_trip() {
    let mut dq: std::collections::VecDeque<u32> = std::collections::VecDeque::new();
    dq.push_back(2);
    dq.push_back(3);
    dq.push_front(1);
    let bytes = to_vec(&dq).unwrap();
    assert_eq!(bytes, to_vec(&vec![1u32, 2, 3]).unwrap());
    let back: std::collections::VecDeque<u32> = from_slice(&bytes).unwrap();
    assert_eq!(back, dq);
}

#[test]
fn ranges_round_trip_as_their_endpoints() {
    round_trip(3u32..9u32);
    let bytes = to_vec(&(1u16..4u16)).unwrap();
    assert_eq!(bytes, vec![1, 0, 4, 0]);
}
