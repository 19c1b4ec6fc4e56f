use asphaleia_storage::compression::unpack;
use asphaleia_storage::Fragment;
use asphaleia_storage::FragmentError;
use asphaleia_storage::KeyBound;
use asphaleia_storage::Sha256;
use asphaleia_storage::Timestamp;

const ZSTD_MAGIC: [u8; 4] = [0x28, 0xB5, 0x2F, 0xFD];

fn key(first: u8) -> Sha256 {
    let mut raw = [0u8; 32];
    raw[0] = first;
    Sha256::from_bytes(raw)
}

fn plain() -> Fragment {
    Fragment::new("zstd".to_string(), 3, None)
}

fn with_dictionary() -> Fragment {
    let dict = b"the quick brown fox jumps over the lazy dog, again and again".to_vec();
    Fragment::new("zstd".to_string(), 3, Some(dict))
}

fn long_value() -> Vec<u8> {
    let mut value = Vec::new();
    for i in 0..400u32 {
        value.extend_from_slice(b"the quick brown fox ");
        value.push((i % 7) as u8);
    }
    value
}

#[test]
fn new_fragment_is_empty_and_consistent() {
    let fragment = plain();
    assert_eq!(fragment.len(), 0);
    assert!(fragment.is_empty());
    assert_eq!(fragment.get_hash(), &Sha256::new(b""));
    let metadata = fragment.get_metadata();
    assert_eq!(metadata.size, 0);
    assert_eq!(metadata.compression, "zstd");
    assert_eq!(metadata.compression_level, 3);
    assert_eq!(metadata.compression_dict, None);
    assert_eq!(metadata.creation_date, metadata.last_modified);
}

#[test]
fn new_at_records_the_time() {
    let now = Timestamp { secs: 1_700_000_000, nanos: 5 };
    let fragment = Fragment::new_at("zstd".to_string(), 9, Some(vec![1, 2]), now);
    let metadata = fragment.get_metadata();
    assert_eq!(metadata.creation_date, now);
    assert_eq!(metadata.last_modified, now);
    assert_eq!(metadata.compression_level, 9);
    assert_eq!(metadata.compression_dict, Some(vec![1, 2]));
}

#[test]
fn fragment_insert_then_get_returns_the_value() {
    let mut fragment = plain();
    let value = b"test data".to_vec();
    assert!(matches!(fragment.insert(value.clone(), key(1)), Ok(None)));
    assert_eq!(fragment.get(&key(1)).unwrap(), Some(value));
    assert!(fragment.contains_key(&key(1)));
}

#[test]
fn what_is_stored_is_compressed() {
    let mut fragment = plain();
    let value = long_value();
    fragment.insert(value.clone(), key(1)).unwrap();
    let stored = fragment.get_compressed(&key(1)).unwrap().clone();
    assert_ne!(stored, value);
    assert!(stored.len() < value.len());
    assert_eq!(&stored[..4], &ZSTD_MAGIC);
    assert_eq!(unpack(&None, &stored).unwrap(), value);
    assert_eq!(fragment.get(&key(1)).unwrap(), Some(value));
}

#[test]
fn values_round_trip_at_every_level() {
    for level in [-5, 0, 1, 3, 19, 22] {
        let mut fragment = Fragment::new("zstd".to_string(), level, None);
        let value = long_value();
        fragment.insert(value.clone(), key(1)).unwrap();
        assert_eq!(fragment.get(&key(1)).unwrap(), Some(value));
    }
}

#[test]
fn empty_value_round_trips() {
    let mut fragment = plain();
    fragment.insert(Vec::new(), key(1)).unwrap();
    assert_eq!(fragment.get(&key(1)).unwrap(), Some(Vec::new()));
}

#[test]
fn values_round_trip_with_a_dictionary() {
    let mut fragment = with_dictionary();
    let value = long_value();
    fragment.insert(value.clone(), key(1)).unwrap();
    let stored = fragment.get_compressed(&key(1)).unwrap().clone();
    assert_ne!(stored, value);
    assert_eq!(&stored[..4], &ZSTD_MAGIC);
    let dict = fragment.get_metadata().compression_dict.clone();
    assert_eq!(unpack(&dict, &stored).unwrap(), value);
    assert_eq!(fragment.get(&key(1)).unwrap(), Some(value));
}

#[test]
fn insert_returns_the_previous_compressed_slot() {
    let mut fragment = plain();
    fragment.insert(b"first".to_vec(), key(1)).unwrap();
    let stored = fragment.get_compressed(&key(1)).unwrap().clone();
    let previous = fragment.insert(b"second".to_vec(), key(1)).unwrap();
    assert_eq!(previous, Some(stored));
    assert_eq!(fragment.get(&key(1)).unwrap(), Some(b"second".to_vec()));
    assert_eq!(fragment.len(), 1);
}

#[test]
fn hash_and_size_follow_every_mutation() {
    let mut fragment = plain();
    fragment.insert(b"one".to_vec(), key(1)).unwrap();
    assert_eq!(fragment.get_hash(), &Sha256::new(&fragment.get_table().to_bytes()));
    assert_eq!(fragment.get_metadata().size, 1);
    fragment.insert(b"two".to_vec(), key(2)).unwrap();
    assert_eq!(fragment.get_hash(), &Sha256::new(&fragment.get_table().to_bytes()));
    assert_eq!(fragment.get_metadata().size, 2);
    fragment.remove(&key(1)).unwrap();
    assert_eq!(fragment.get_hash(), &Sha256::new(&fragment.get_table().to_bytes()));
    assert_eq!(fragment.get_metadata().size, 1);
    fragment.pop_first().unwrap();
    assert_eq!(fragment.get_hash(), &Sha256::new(b""));
    assert_eq!(fragment.get_metadata().size, 0);
    fragment.insert(b"three".to_vec(), key(3)).unwrap();
    fragment.clear();
    assert_eq!(fragment.get_hash(), &Sha256::new(b""));
    assert_eq!(fragment.get_metadata().size, 0);
    assert!(fragment.is_empty());
}

#[test]
fn last_modified_never_goes_back() {
    let late = Timestamp { secs: u64::MAX, nanos: 0 };
    let mut fragment = Fragment::new_at("zstd".to_string(), 3, None, late);
    fragment.insert(b"one".to_vec(), key(1)).unwrap();
    assert_eq!(fragment.get_metadata().last_modified, late);
    let mut early = Fragment::new_at("zstd".to_string(), 3, None, Timestamp { secs: 1, nanos: 0 });
    early.update_hash_at(Timestamp { secs: 2, nanos: 3 });
    assert_eq!(early.get_metadata().last_modified, Timestamp { secs: 2, nanos: 3 });
    early.update_hash_at(Timestamp { secs: 2, nanos: 2 });
    assert_eq!(early.get_metadata().last_modified, Timestamp { secs: 2, nanos: 3 });
    assert_eq!(early.get_metadata().creation_date, Timestamp { secs: 1, nanos: 0 });
}

#[test]
fn insert_compressed_at_is_exact() {
    let now = Timestamp { secs: 10, nanos: 1 };
    let later = Timestamp { secs: 10, nanos: 2 };
    let mut a = Fragment::new_at("zstd".to_string(), 3, None, now);
    let mut b = Fragment::new_at("zstd".to_string(), 3, None, now);
    assert_eq!(a.insert_compressed_at(vec![1, 2], key(1), later), None);
    assert_eq!(b.insert_compressed_at(vec![1, 2], key(1), later), None);
    assert_eq!(a.to_bytes().unwrap(), b.to_bytes().unwrap());
    assert_eq!(a.get_metadata().last_modified, later);
    assert_eq!(a.get_metadata().creation_date, now);
    assert_eq!(a.get_compressed(&key(1)), Some(&vec![1, 2]));
    assert_eq!(a.insert_compressed_at(vec![3], key(1), now), Some(vec![1, 2]));
    assert_eq!(a.get_metadata().last_modified, later);
}

#[test]
fn fragment_get_on_an_absent_key_gives_nothing() {
    let fragment = plain();
    assert!(matches!(fragment.get(&key(1)), Ok(None)));
    assert!(fragment.get_compressed(&key(1)).is_none());
}

#[test]
fn remove_returns_the_plain_value() {
    let mut fragment = plain();
    fragment.insert(b"test data".to_vec(), key(1)).unwrap();
    assert_eq!(fragment.remove(&key(1)).unwrap(), Some(b"test data".to_vec()));
    assert!(matches!(fragment.get(&key(1)), Ok(None)));
    assert!(matches!(fragment.remove(&key(1)), Ok(None)));
}

#[test]
fn bytes_that_do_not_decompress_give_a_decompression_error() {
    let mut fragment = plain();
    fragment.insert_compressed(vec![1, 2, 3, 4, 5], key(1));
    assert!(matches!(fragment.get(&key(1)), Err(FragmentError::DecompressionError(_))));
    assert!(matches!(fragment.first_key_value(), Err(FragmentError::DecompressionError(_))));
    assert!(matches!(fragment.last_key_value(), Err(FragmentError::DecompressionError(_))));
    let items = fragment.iter();
    assert_eq!(items.len(), 1);
    assert!(matches!(items[0], Err(FragmentError::DecompressionError(_))));
    assert!(matches!(fragment.remove(&key(1)), Err(FragmentError::DecompressionError(_))));
    assert!(fragment.is_empty());
}

#[test]
fn iteration_goes_on_behind_a_bad_entry() {
    let mut fragment = plain();
    fragment.insert(b"one".to_vec(), key(1)).unwrap();
    fragment.insert_compressed(vec![9, 9, 9], key(2));
    fragment.insert(b"three".to_vec(), key(3)).unwrap();
    let items = fragment.iter();
    assert_eq!(items.len(), 3);
    assert!(matches!(&items[0], Ok((k, v)) if *k == key(1) && v == b"one"));
    assert!(matches!(&items[1], Err(FragmentError::DecompressionError(_))));
    assert!(matches!(&items[2], Ok((k, v)) if *k == key(3) && v == b"three"));
    let values = fragment.values();
    assert!(matches!(&values[0], Ok(v) if v == b"one"));
    assert!(matches!(&values[1], Err(FragmentError::DecompressionError(_))));
    assert!(matches!(&values[2], Ok(v) if v == b"three"));
}

#[test]
fn a_corrupt_dictionary_gives_a_compression_error() {
    let mut dict = vec![0x37, 0xA4, 0x30, 0xEC];
    dict.extend_from_slice(&[0xFF; 64]);
    let mut fragment = Fragment::new("zstd".to_string(), 3, Some(dict));
    let before = fragment.get_hash().clone();
    let outcome = fragment.insert(b"test data".to_vec(), key(1));
    assert!(matches!(outcome, Err(FragmentError::CompressionError(_))));
    assert!(fragment.is_empty());
    assert_eq!(fragment.get_hash(), &before);
}

#[test]
fn keys_and_values_come_in_key_order() {
    let mut fragment = plain();
    fragment.insert(b"c".to_vec(), key(3)).unwrap();
    fragment.insert(b"a".to_vec(), key(1)).unwrap();
    fragment.insert(b"b".to_vec(), key(2)).unwrap();
    assert_eq!(fragment.keys(), vec![key(1), key(2), key(3)]);
    let values: Vec<Vec<u8>> = fragment.values().into_iter().map(|v| v.unwrap()).collect();
    assert_eq!(values, vec![b"a".to_vec(), b"b".to_vec(), b"c".to_vec()]);
    let (first, value) = fragment.first_key_value().unwrap().unwrap();
    assert_eq!((*first, value), (key(1), b"a".to_vec()));
    let (last, value) = fragment.last_key_value().unwrap().unwrap();
    assert_eq!((*last, value), (key(3), b"c".to_vec()));
}

#[test]
fn range_gives_the_plain_values_between_the_bounds() {
    let mut fragment = plain();
    fragment.insert(b"a".to_vec(), key(1)).unwrap();
    fragment.insert(b"b".to_vec(), key(2)).unwrap();
    fragment.insert(b"c".to_vec(), key(3)).unwrap();
    let items = fragment.range(KeyBound::Excluded(key(1)), KeyBound::Unbounded);
    assert_eq!(items.len(), 2);
    assert!(matches!(&items[0], Ok((k, v)) if *k == key(2) && v == b"b"));
    assert!(matches!(&items[1], Ok((k, v)) if *k == key(3) && v == b"c"));
}

#[test]
fn pop_first_and_pop_last_return_plain_entries() {
    let mut fragment = plain();
    fragment.insert(b"a".to_vec(), key(1)).unwrap();
    fragment.insert(b"b".to_vec(), key(2)).unwrap();
    fragment.insert(b"c".to_vec(), key(3)).unwrap();
    assert_eq!(fragment.pop_first().unwrap(), Some((key(1), b"a".to_vec())));
    assert_eq!(fragment.pop_last().unwrap(), Some((key(3), b"c".to_vec())));
    assert_eq!(fragment.len(), 1);
    assert_eq!(fragment.get_metadata().size, 1);
    assert_eq!(fragment.pop_last().unwrap(), Some((key(2), b"b".to_vec())));
    assert_eq!(fragment.pop_first().unwrap(), None);
    assert_eq!(fragment.pop_last().unwrap(), None);
}

#[test]
fn pop_takes_a_bad_entry_out_all_the_same() {
    let mut fragment = plain();
    fragment.insert_compressed(vec![1, 2, 3], key(1));
    assert!(matches!(fragment.pop_first(), Err(FragmentError::DecompressionError(_))));
    assert!(fragment.is_empty());
    assert_eq!(fragment.get_metadata().size, 0);
}

#[test]
fn append_moves_the_entries_of_the_other_fragment() {
    let mut fragment = plain();
    let mut other = plain();
    fragment.insert(b"a".to_vec(), key(1)).unwrap();
    fragment.insert(b"old".to_vec(), key(2)).unwrap();
    other.insert(b"new".to_vec(), key(2)).unwrap();
    other.insert(b"c".to_vec(), key(3)).unwrap();
    fragment.append(&mut other);
    assert_eq!(fragment.len(), 3);
    assert_eq!(fragment.get_metadata().size, 3);
    assert_eq!(fragment.get(&key(2)).unwrap(), Some(b"new".to_vec()));
    assert_eq!(fragment.get_hash(), &Sha256::new(&fragment.get_table().to_bytes()));
    assert!(other.is_empty());
    assert_eq!(other.get_metadata().size, 0);
    assert_eq!(other.get_hash(), &Sha256::new(b""));
}

#[test]
fn to_bytes_is_table_hash_and_metadata() {
    let now = Timestamp { secs: 0x0102030405060708, nanos: 0x0A0B0C0D };
    let fragment = Fragment::new_at("zstd".to_string(), -2, Some(vec![0xAB, 0xCD]), now);
    let mut expected = Vec::new();
    expected.extend_from_slice(Sha256::new(b"").as_bytes());
    for _ in 0..2 {
        expected.extend_from_slice(&[8, 7, 6, 5, 4, 3, 2, 1]);
        expected.extend_from_slice(&[0x0D, 0x0C, 0x0B, 0x0A]);
    }
    expected.extend_from_slice(&[4, 0, 0, 0, 0, 0, 0, 0]);
    expected.extend_from_slice(b"zstd");
    expected.extend_from_slice(&[0xFE, 0xFF, 0xFF, 0xFF]);
    expected.push(1);
    expected.extend_from_slice(&[2, 0, 0, 0, 0, 0, 0, 0]);
    expected.extend_from_slice(&[0xAB, 0xCD]);
    expected.extend_from_slice(&[0, 0, 0, 0, 0, 0, 0, 0]);
    assert_eq!(fragment.to_bytes().unwrap(), expected);
}

#[test]
fn to_bytes_starts_with_the_table_and_the_hash() {
    let mut fragment = plain();
    fragment.insert(b"one".to_vec(), key(1)).unwrap();
    let table = fragment.get_table().to_bytes();
    let bytes = fragment.to_bytes().unwrap();
    assert_eq!(&bytes[..table.len()], &table[..]);
    assert_eq!(&bytes[table.len()..table.len() + 32], fragment.get_hash().as_bytes());
    assert_eq!(&bytes[table.len() + 32..], &fragment.get_metadata().to_bytes()[..]);
}

#[test]
fn a_fragment_put_together_from_parts_is_checked_on_demand() {
    let mut fragment = plain();
    fragment.insert(b"one".to_vec(), key(1)).unwrap();
    assert!(fragment.is_consistent());
    let table = fragment.get_table().clone();
    let metadata = fragment.get_metadata().clone();
    let same = Fragment::from_parts(table.clone(), *fragment.get_hash(), metadata.clone());
    assert!(same.is_consistent());
    let other_hash = Fragment::from_parts(table.clone(), Sha256::new(b"x"), metadata.clone());
    assert!(!other_hash.is_consistent());
    let mut wrong_size = metadata.clone();
    wrong_size.size = 5;
    let other_size = Fragment::from_parts(table, *fragment.get_hash(), wrong_size);
    assert!(!other_size.is_consistent());
    let mut mended = other_size;
    mended.update_hash_at(Timestamp { secs: 0, nanos: 0 });
    assert!(mended.is_consistent());
}

#[test]
fn clone_is_the_same_fragment() {
    let mut fragment = plain();
    fragment.insert(b"one".to_vec(), key(1)).unwrap();
    let copy = fragment.clone();
    assert_eq!(copy.to_bytes().unwrap(), fragment.to_bytes().unwrap());
}
