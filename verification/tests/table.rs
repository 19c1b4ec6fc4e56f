use asphaleia_storage::KeyBound;
use asphaleia_storage::Sha256;
use asphaleia_storage::Table;

fn key(first: u8) -> Sha256 {
    let mut raw = [0u8; 32];
    raw[0] = first;
    Sha256::from_bytes(raw)
}

fn sample() -> Table {
    let mut table = Table::new();
    table.insert(vec![30], key(3));
    table.insert(vec![10, 11], key(1));
    table.insert(vec![20], key(2));
    table
}

#[test]
fn new_table_is_empty() {
    let table = Table::new();
    assert_eq!(table.len(), 0);
    assert!(table.is_empty());
    assert!(table.to_bytes().is_empty());
    assert!(table.first_key_value().is_none());
    assert!(table.last_key_value().is_none());
}

#[test]
fn table_insert_then_get_returns_the_value() {
    let mut table = Table::new();
    assert_eq!(table.insert(vec![1, 2, 3], key(9)), None);
    assert_eq!(table.get(&key(9)), Some(&vec![1, 2, 3]));
    assert!(table.contains_key(&key(9)));
    assert_eq!(table.len(), 1);
    assert!(!table.is_empty());
}

#[test]
fn table_insert_returns_the_previous_value() {
    let mut table = Table::new();
    table.insert(vec![1], key(9));
    assert_eq!(table.insert(vec![2], key(9)), Some(vec![1]));
    assert_eq!(table.get(&key(9)), Some(&vec![2]));
    assert_eq!(table.len(), 1);
}

#[test]
fn table_get_on_an_absent_key_gives_nothing() {
    let table = sample();
    assert_eq!(table.get(&key(7)), None);
    assert!(!table.contains_key(&key(7)));
}

#[test]
fn remove_returns_the_value_and_takes_the_entry_out() {
    let mut table = sample();
    assert_eq!(table.remove(&key(2)), Some(vec![20]));
    assert_eq!(table.remove(&key(2)), None);
    assert_eq!(table.len(), 2);
    assert_eq!(table.keys(), vec![key(1), key(3)]);
}

#[test]
fn iteration_is_in_key_order() {
    let table = sample();
    let entries = table.iter();
    assert_eq!(entries.len(), 3);
    assert_eq!(entries[0], (key(1), vec![10, 11]));
    assert_eq!(entries[1], (key(2), vec![20]));
    assert_eq!(entries[2], (key(3), vec![30]));
    assert_eq!(table.keys(), vec![key(1), key(2), key(3)]);
    assert_eq!(table.values(), vec![&vec![10, 11], &vec![20], &vec![30]]);
}

#[test]
fn first_and_last_are_the_least_and_the_greatest_key() {
    let table = sample();
    assert_eq!(table.first_key_value(), Some((&key(1), &vec![10, 11])));
    assert_eq!(table.last_key_value(), Some((&key(3), &vec![30])));
}

#[test]
fn pop_first_and_pop_last_take_the_ends() {
    let mut table = sample();
    assert_eq!(table.pop_first(), Some((key(1), vec![10, 11])));
    assert_eq!(table.pop_last(), Some((key(3), vec![30])));
    assert_eq!(table.keys(), vec![key(2)]);
    assert_eq!(table.pop_last(), Some((key(2), vec![20])));
    assert_eq!(table.pop_first(), None);
    assert_eq!(table.pop_last(), None);
}

#[test]
fn clear_takes_every_entry_out() {
    let mut table = sample();
    table.clear();
    assert!(table.is_empty());
    assert_eq!(table.get(&key(1)), None);
}

#[test]
fn append_moves_entries_and_prefers_the_other_table() {
    let mut table = sample();
    let mut other = Table::new();
    other.insert(vec![21], key(2));
    other.insert(vec![40], key(4));
    table.append(&mut other);
    assert!(other.is_empty());
    assert_eq!(table.keys(), vec![key(1), key(2), key(3), key(4)]);
    assert_eq!(table.get(&key(2)), Some(&vec![21]));
    assert_eq!(table.get(&key(4)), Some(&vec![40]));
    assert_eq!(table.get(&key(1)), Some(&vec![10, 11]));
}

#[test]
fn range_holds_the_keys_between_the_bounds() {
    let table = sample();
    let all = table.range(KeyBound::Unbounded, KeyBound::Unbounded);
    assert_eq!(all.len(), 3);
    let closed = table.range(KeyBound::Included(key(1)), KeyBound::Included(key(2)));
    assert_eq!(closed.len(), 2);
    assert_eq!(closed[0].0, key(1));
    assert_eq!(closed[1].0, key(2));
    let open = table.range(KeyBound::Excluded(key(1)), KeyBound::Excluded(key(3)));
    assert_eq!(open.len(), 1);
    assert_eq!(open[0], (key(2), vec![20]));
    let from = table.range(KeyBound::Included(key(2)), KeyBound::Unbounded);
    assert_eq!(from.len(), 2);
    let between_keys = table.range(KeyBound::Included(key(0)), KeyBound::Excluded(key(1)));
    assert!(between_keys.is_empty());
}

#[test]
fn range_with_crossed_bounds_is_empty() {
    let table = sample();
    assert!(table.range(KeyBound::Included(key(3)), KeyBound::Included(key(1))).is_empty());
    assert!(table.range(KeyBound::Excluded(key(2)), KeyBound::Excluded(key(2))).is_empty());
}

#[test]
fn to_bytes_is_key_length_value_per_entry() {
    let mut table = Table::new();
    table.insert(vec![0xAA, 0xBB], key(2));
    table.insert(vec![0xCC], key(1));
    let mut expected = Vec::new();
    expected.extend_from_slice(key(1).as_bytes());
    expected.extend_from_slice(&[0, 0, 0, 1]);
    expected.push(0xCC);
    expected.extend_from_slice(key(2).as_bytes());
    expected.extend_from_slice(&[0, 0, 0, 2]);
    expected.extend_from_slice(&[0xAA, 0xBB]);
    assert_eq!(table.to_bytes(), expected);
}

#[test]
fn to_bytes_writes_the_length_most_significant_byte_first() {
    let mut table = Table::new();
    table.insert(vec![7u8; 0x0102], key(1));
    let bytes = table.to_bytes();
    assert_eq!(&bytes[32..36], &[0, 0, 1, 2]);
    assert_eq!(bytes.len(), 32 + 4 + 0x0102);
}

#[test]
fn to_bytes_depends_on_the_content_alone() {
    let mut a = Table::new();
    a.insert(vec![1], key(1));
    a.insert(vec![2], key(2));
    a.insert(vec![9], key(3));
    a.remove(&key(3));
    let mut b = Table::new();
    b.insert(vec![2], key(2));
    b.insert(vec![0], key(1));
    b.insert(vec![1], key(1));
    assert_eq!(a.to_bytes(), b.to_bytes());
}

#[test]
fn from_sorted_wants_increasing_keys() {
    let sorted = vec![(key(1), vec![1]), (key(2), vec![2])];
    let table = Table::from_sorted(sorted).unwrap();
    assert_eq!(table.keys(), vec![key(1), key(2)]);
    assert!(Table::from_sorted(vec![(key(2), vec![2]), (key(1), vec![1])]).is_none());
    assert!(Table::from_sorted(vec![(key(1), vec![2]), (key(1), vec![1])]).is_none());
    assert!(Table::from_sorted(Vec::new()).unwrap().is_empty());
}

#[test]
fn clone_holds_the_same_entries() {
    let table = sample();
    let copy = table.clone();
    assert_eq!(copy.to_bytes(), table.to_bytes());
    assert_eq!(copy.len(), 3);
}
