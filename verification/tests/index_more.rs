use asphaleia_storage::CacheConfig;
use asphaleia_storage::EvictionStrategy;
use asphaleia_storage::Sha256;
use asphaleia_storage::StorageError;
use asphaleia_storage::StorageIndex;
use asphaleia_storage::Timestamp;

fn fresh() -> StorageIndex {
    StorageIndex::new(CacheConfig::default(), None).unwrap()
}

#[test]
fn new_index_is_empty() {
    let mut index = fresh();
    assert_eq!(index.get_version_history().len(), 1);
    assert_eq!(index.get_max_versions(), None);
    let metadata = index.get_metadata().unwrap();
    assert_eq!(metadata.size, 0);
    assert_eq!(metadata.compression, "zstd");
    assert_eq!(metadata.compression_level, 3);
    assert!(matches!(index.get(&Sha256::new(b"x")), Err(StorageError::KeyNotFound)));
}

#[test]
fn insert_without_a_key_stores_under_the_hash_of_the_value() {
    let mut index = fresh();
    let value = b"test data".to_vec();
    assert!(matches!(index.insert(value.clone(), None), Ok(None)));
    assert_eq!(index.get(&Sha256::new(&value)).unwrap(), value);
}

#[test]
fn insert_returns_the_previous_slot() {
    let mut index = fresh();
    let key = Sha256::new(b"key");
    assert!(matches!(index.insert(b"one".to_vec(), Some(key)), Ok(None)));
    let previous = index.insert(b"two".to_vec(), Some(key)).unwrap();
    assert!(previous.is_some());
    assert_ne!(previous, Some(b"one".to_vec()));
    assert_eq!(index.get(&key).unwrap(), b"two".to_vec());
    assert_eq!(index.get_metadata().unwrap().size, 1);
}

#[test]
fn every_write_makes_one_version() {
    let mut index = fresh();
    let key = Sha256::new(b"key");
    index.insert(b"one".to_vec(), Some(key)).unwrap();
    assert_eq!(index.get_version_history().len(), 2);
    index.remove(&key).unwrap();
    assert_eq!(index.get_version_history().len(), 3);
    let sizes: Vec<usize> = index.get_version_history().iter().map(|f| f.len()).collect();
    assert_eq!(sizes, vec![0, 1, 0]);
}

#[test]
fn remove_of_an_absent_key_changes_nothing() {
    let mut index = fresh();
    index.insert(b"one".to_vec(), None).unwrap();
    let outcome = index.remove(&Sha256::new(b"other"));
    assert!(matches!(outcome, Err(StorageError::KeyNotFound)));
    assert_eq!(index.get_version_history().len(), 2);
    assert_eq!(index.get_metadata().unwrap().size, 1);
}

#[test]
fn create_new_version_changes_no_answer() {
    let mut index = fresh();
    let value = b"test data".to_vec();
    let key = Sha256::new(&value);
    let absent = Sha256::new(b"absent");
    index.insert(value.clone(), Some(key)).unwrap();
    let before = index.get(&key).unwrap();
    index.create_new_version().unwrap();
    assert_eq!(index.get(&key).unwrap(), before);
    assert!(matches!(index.get(&absent), Err(StorageError::KeyNotFound)));
    assert_eq!(index.get_version_history().len(), 2);
}

#[test]
fn rollback_to_a_missing_version_is_version_not_found() {
    let mut index = fresh();
    let value = b"test data".to_vec();
    let key = Sha256::new(&value);
    index.insert(value.clone(), Some(key)).unwrap();
    assert!(matches!(index.rollback(40), Err(StorageError::VersionNotFound)));
    assert_eq!(index.get(&key).unwrap(), value);
    assert_eq!(index.get_version_history().len(), 2);
    assert_eq!(index.get_metadata().unwrap().size, 1);
}

#[test]
fn rollback_returns_the_fragment_of_the_version() {
    let mut index = fresh();
    index.insert(b"one".to_vec(), None).unwrap();
    index.insert(b"two".to_vec(), None).unwrap();
    let fragment = index.rollback(2).unwrap();
    assert_eq!(fragment.len(), 1);
    assert_eq!(index.get_metadata().unwrap().size, 1);
    let fragment = index.rollback(1).unwrap();
    assert_eq!(fragment.len(), 0);
    assert!(matches!(index.get(&Sha256::new(b"one")), Err(StorageError::KeyNotFound)));
}

#[test]
fn set_max_versions_of_one_leaves_the_newest() {
    let mut index = fresh();
    index.insert(b"one".to_vec(), None).unwrap();
    index.insert(b"two".to_vec(), None).unwrap();
    index.set_max_versions(Some(1));
    let history = index.get_version_history();
    assert_eq!(history.len(), 1);
    assert_eq!(history[0].len(), 2);
    assert_eq!(index.get_max_versions(), Some(1));
    assert_eq!(index.get(&Sha256::new(b"two")).unwrap(), b"two".to_vec());
}

#[test]
fn clear_history_leaves_the_newest() {
    let mut index = fresh();
    index.insert(b"one".to_vec(), None).unwrap();
    index.insert(b"two".to_vec(), None).unwrap();
    index.clear_history();
    let history = index.get_version_history();
    assert_eq!(history.len(), 1);
    assert_eq!(history[0].len(), 2);
    assert_eq!(index.get(&Sha256::new(b"one")).unwrap(), b"one".to_vec());
}

#[test]
fn a_cache_without_room_does_not_fail_a_write() {
    let config = CacheConfig {
        max_size: 0,
        ttl: Timestamp { secs: 1, nanos: 0 },
        eviction_strategy: EvictionStrategy::FirstInFirstOut,
    };
    let mut index = StorageIndex::new(config, None).unwrap();
    index.insert(b"one".to_vec(), None).unwrap();
    assert_eq!(index.get(&Sha256::new(b"one")).unwrap(), b"one".to_vec());
    assert_eq!(index.remove(&Sha256::new(b"one")).unwrap(), b"one".to_vec());
}

#[test]
fn save_and_load_keep_the_store() {
    let mut index = StorageIndex::new(CacheConfig::default(), Some(4)).unwrap();
    index.insert(b"one".to_vec(), None).unwrap();
    index.insert(b"two".to_vec(), None).unwrap();
    let saved = index.save_to_disk(Some(5)).unwrap();
    assert_eq!(saved.metadata.compression_level, Some(5));
    assert_eq!(saved.metadata.max_versions, Some(4));
    let mut loaded =
        StorageIndex::load_from_disk(saved.metadata, &saved.versions, CacheConfig::default())
            .unwrap();
    assert_eq!(loaded.get(&Sha256::new(b"one")).unwrap(), b"one".to_vec());
    assert_eq!(loaded.get(&Sha256::new(b"two")).unwrap(), b"two".to_vec());
    assert_eq!(loaded.get_max_versions(), Some(4));
    assert_eq!(loaded.get_version_history().len(), 2);
    assert_eq!(loaded.get_metadata().unwrap().size, 2);
    loaded.insert(b"three".to_vec(), None).unwrap();
    assert_eq!(loaded.rollback(2).unwrap().len(), 1);
}

#[test]
fn load_of_garbage_is_a_backup_error() {
    let mut index = fresh();
    let saved = index.save_to_disk(None).unwrap();
    let outcome = StorageIndex::load_from_disk(saved.metadata, b"garbage", CacheConfig::default());
    assert!(matches!(outcome, Err(StorageError::BackupError(_))));
}

#[test]
fn a_key_that_is_the_hash_of_a_cached_fragment_is_answered_from_it() {
    let mut index = fresh();
    index.insert(b"one".to_vec(), None).unwrap();
    let history = index.get_version_history();
    let cached = Sha256::new(&history[1].to_bytes().unwrap());
    assert!(matches!(index.get(&cached), Err(StorageError::KeyNotFound)));
}
