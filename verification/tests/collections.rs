use std::collections::BTreeMap;
use std::collections::HashMap;
use std::collections::HashSet;

use borsh::maps::deserialize_hash_map;
use borsh::maps::deserialize_hash_map_relaxed;
use borsh::maps::deserialize_hash_set;
use borsh::maps::deserialize_hash_set_relaxed;
use borsh::maps::serialize_hash_map;
use borsh::maps::serialize_hash_set;
use borsh::maps::serialize_sorted_entries;
use borsh::io::SliceReader;
use borsh::Error;

fn map_to_vec(m: &HashMap<u32, String>) -> Vec<u8> {
    let mut out: Vec<u8> = Vec::new();
    serialize_hash_map(m, &mut out).expect("map serialization failed");
    out
}

#[test]
fn map_encoding_is_sorted_by_key() {
    let mut m: HashMap<u32, String> = HashMap::new();
    m.insert(34, String::from("another"));
    m.insert(14, String::from("value"));
    let bytes = map_to_vec(&m);
    let expected = vec![
        0x02, 0x00, 0x00, 0x00, // two entries
        14, 0x00, 0x00, 0x00, // key 14 first
        0x05, 0x00, 0x00, 0x00, b'v', b'a', b'l', b'u', b'e', //
        34, 0x00, 0x00, 0x00, // key 34 second
        0x07, 0x00, 0x00, 0x00, b'a', b'n', b'o', b't', b'h', b'e', b'r',
    ];
    assert_eq!(bytes, expected);
}

#[test]
fn map_encoding_ignores_insertion_order() {
    let keys: Vec<u32> = (0..200).map(|i| (i * 37) % 1000).collect();
    let mut forward: HashMap<u32, u64> = HashMap::new();
    for k in keys.iter() {
        forward.insert(*k, *k as u64 + 1);
    }
    let mut backward: HashMap<u32, u64> = HashMap::new();
    for k in keys.iter().rev() {
        backward.insert(*k, *k as u64 + 1);
    }
    let mut a: Vec<u8> = Vec::new();
    serialize_hash_map(&forward, &mut a).unwrap();
    let mut b: Vec<u8> = Vec::new();
    serialize_hash_map(&backward, &mut b).unwrap();
    assert_eq!(a, b);
}

#[test]
fn set_encoding_ignores_insertion_order() {
    let keys: Vec<u64> = (0..150).map(|i| (i * 91) % 10_000).collect();
    let mut forward: HashSet<u64> = HashSet::new();
    for k in keys.iter() {
        forward.insert(*k);
    }
    let mut backward: HashSet<u64> = HashSet::new();
    for k in keys.iter().rev() {
        backward.insert(*k);
    }
    let mut a: Vec<u8> = Vec::new();
    serialize_hash_set(&forward, &mut a).unwrap();
    let mut b: Vec<u8> = Vec::new();
    serialize_hash_set(&backward, &mut b).unwrap();
    assert_eq!(a, b);
}

#[test]
fn map_round_trip() {
    let mut m: HashMap<u32, String> = HashMap::new();
    m.insert(34, String::from("another"));
    m.insert(14, String::from("value"));
    let bytes = map_to_vec(&m);
    let mut reader = SliceReader::new(&bytes);
    let back: HashMap<u32, String> = deserialize_hash_map(&mut reader).unwrap();
    assert_eq!(reader.remaining_len(), 0);
    assert_eq!(back.get(&14), Some(String::from("value")).as_ref());
    assert_eq!(back.get(&34), Some(String::from("another")).as_ref());
    assert_eq!(back.len(), 2);
}

#[test]
fn set_round_trip() {
    let mut s: HashSet<u64> = HashSet::new();
    s.insert(10);
    s.insert(3);
    s.insert(77);
    let mut bytes: Vec<u8> = Vec::new();
    serialize_hash_set(&s, &mut bytes).unwrap();
    let mut reader = SliceReader::new(&bytes);
    let back: HashSet<u64> = deserialize_hash_set(&mut reader).unwrap();
    assert_eq!(reader.remaining_len(), 0);
    assert_eq!(back, s);
}

#[test]
fn descending_keys_fail_strict_and_pass_relaxed() {
    // A two-entry map payload with keys 5 then 3, values single bytes.
    let bytes = vec![
        0x02, 0x00, 0x00, 0x00, // two entries
        5, 0x00, 0x00, 0x00, 7, // key 5, value 7
        3, 0x00, 0x00, 0x00, 9, // key 3, value 9
    ];
    let mut reader = SliceReader::new(&bytes);
    let strict: Result<HashMap<u32, u8>, Error> = deserialize_hash_map(&mut reader);
    assert_eq!(strict, Err(Error::WrongOrderOfKeys));

    let mut reader = SliceReader::new(&bytes);
    let relaxed: HashMap<u32, u8> = deserialize_hash_map_relaxed(&mut reader).unwrap();
    assert_eq!(relaxed.get(&5), Some(&7));
    assert_eq!(relaxed.get(&3), Some(&9));
    assert_eq!(relaxed.len(), 2);
}

#[test]
fn duplicate_keys_fail_strict_and_last_write_wins_relaxed() {
    let bytes = vec![
        0x02, 0x00, 0x00, 0x00, // two entries
        3, 0x00, 0x00, 0x00, 7, // key 3, value 7
        3, 0x00, 0x00, 0x00, 9, // key 3 again, value 9
    ];
    let mut reader = SliceReader::new(&bytes);
    let strict: Result<HashMap<u32, u8>, Error> = deserialize_hash_map(&mut reader);
    assert_eq!(strict, Err(Error::WrongOrderOfKeys));

    let mut reader = SliceReader::new(&bytes);
    let relaxed: HashMap<u32, u8> = deserialize_hash_map_relaxed(&mut reader).unwrap();
    assert_eq!(relaxed.get(&3), Some(&9));
    assert_eq!(relaxed.len(), 1);
}

#[test]
fn descending_set_elements_fail_strict_and_pass_relaxed() {
    let bytes = vec![
        0x02, 0x00, 0x00, 0x00, // two elements
        5, 0x00, 0x00, 0x00, 0x00, 0x00, 0x00, 0x00, // element 5
        3, 0x00, 0x00, 0x00, 0x00, 0x00, 0x00, 0x00, // element 3
    ];
    let mut reader = SliceReader::new(&bytes);
    let strict: Result<HashSet<u64>, Error> = deserialize_hash_set(&mut reader);
    assert_eq!(strict, Err(Error::WrongOrderOfKeys));

    let mut reader = SliceReader::new(&bytes);
    let relaxed: HashSet<u64> = deserialize_hash_set_relaxed(&mut reader).unwrap();
    assert_eq!(relaxed.len(), 2);
    assert!(relaxed.contains(&3) && relaxed.contains(&5));
}

#[test]
fn empty_collections_round_trip() {
    let m: HashMap<u32, u8> = HashMap::new();
    let mut bytes: Vec<u8> = Vec::new();
    serialize_hash_map(&m, &mut bytes).unwrap();
    assert_eq!(bytes, vec![0, 0, 0, 0]);
    let mut reader = SliceReader::new(&bytes);
    let back: HashMap<u32, u8> = deserialize_hash_map(&mut reader).unwrap();
    assert!(back.is_empty());

    let s: HashSet<u64> = HashSet::new();
    let mut bytes: Vec<u8> = Vec::new();
    serialize_hash_set(&s, &mut bytes).unwrap();
    assert_eq!(bytes, vec![0, 0, 0, 0]);
}

#[test]
fn tree_backed_entries_serialize_without_a_sort_step() {
    // A key-ordered source iterates ascending already: writing its entries
    // in iteration order equals the canonical map encoding.
    let mut tree: BTreeMap<u32, u8> = BTreeMap::new();
    tree.insert(9, 1);
    tree.insert(2, 2);
    tree.insert(5, 3);
    let entries: Vec<(u32, u8)> = tree.iter().map(|(k, v)| (*k, *v)).collect();
    let mut ordered: Vec<u8> = Vec::new();
    serialize_sorted_entries(&entries, &mut ordered).unwrap();

    let mut hashed: HashMap<u32, u8> = HashMap::new();
    for (k, v) in tree.iter() {
        hashed.insert(*k, *v);
    }
    let mut canonical: Vec<u8> = Vec::new();
    serialize_hash_map(&hashed, &mut canonical).unwrap();
    assert_eq!(ordered, canonical);
}

#[test]
fn out_of_order_entries_are_refused_by_the_ordered_writer() {
    let entries: Vec<(u32, u8)> = vec![(5, 1), (3, 2)];
    let mut out: Vec<u8> = Vec::new();
    let r = serialize_sorted_entries(&entries, &mut out);
    assert_eq!(r, Err(Error::WrongOrderOfKeys));
    assert!(out.is_empty());
}
