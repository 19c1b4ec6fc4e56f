use asphaleia_storage::BackupError;
use asphaleia_storage::CacheConfig;
use asphaleia_storage::CacheError;
use asphaleia_storage::CacheManager;
use asphaleia_storage::EvictionStrategy;
use asphaleia_storage::Fragment;
use asphaleia_storage::FragmentError;
use asphaleia_storage::Sha256;
use asphaleia_storage::StorageError;
use asphaleia_storage::Timestamp;

#[test]
fn fragment_errors_say_what_failed() {
    let e = FragmentError::CompressionError("bad level".to_string());
    assert_eq!(e.message(), "Compression error: bad level");
    let e = FragmentError::DecompressionError("bad frame".to_string());
    assert_eq!(e.message(), "Decompression error: bad frame");
    let e = FragmentError::SerializationError("bad text".to_string());
    assert_eq!(e.message(), "Serialization error: bad text");
}

#[test]
fn cache_errors_say_what_failed() {
    let e = CacheError::InsertionError("no room".to_string());
    assert_eq!(e.message(), "Failed to insert fragment: no room");
    let e = CacheError::BackupLoadError("no backup".to_string());
    assert_eq!(e.message(), "Failed to load from backup: no backup");
}

#[test]
fn backup_errors_say_what_failed() {
    assert_eq!(BackupError::IoError("disk".to_string()).message(), "IO error: disk");
    assert_eq!(
        BackupError::SerializationError("json".to_string()).message(),
        "Serialization error: json"
    );
    assert_eq!(
        BackupError::DeserializationError("record".to_string()).message(),
        "Deserialization error: record"
    );
    let inner = FragmentError::DecompressionError("frame".to_string());
    assert_eq!(
        BackupError::FragmentError(inner).message(),
        "Fragment error: Decompression error: frame"
    );
    assert_eq!(BackupError::NoVersionsFound.message(), "No versions found");
}

#[test]
fn storage_errors_say_what_failed() {
    assert_eq!(StorageError::Io("disk".to_string()).message(), "IO error: disk");
    assert_eq!(StorageError::Compression("c".to_string()).message(), "Compression error: c");
    assert_eq!(StorageError::Decompression("d".to_string()).message(), "Decompression error: d");
    assert_eq!(StorageError::KeyNotFound.message(), "Key not found");
    assert_eq!(StorageError::VersionNotFound.message(), "Version not found");
    assert_eq!(
        StorageError::BackupError(BackupError::NoVersionsFound).message(),
        "Backup error: No versions found"
    );
    let inner = FragmentError::CompressionError("x".to_string());
    assert_eq!(
        StorageError::FragmentError(inner).message(),
        "Fragment error: Compression error: x"
    );
}

#[test]
fn a_failed_eviction_names_the_strategy() {
    let config = CacheConfig {
        max_size: 0,
        ttl: Timestamp { secs: 1, nanos: 0 },
        eviction_strategy: EvictionStrategy::LeastRecentlyUsed,
    };
    let mut cache = CacheManager::new(config);
    let fragment = Fragment::new("zstd".to_string(), 3, None);
    match cache.insert(fragment.clone()) {
        Err(e) => assert_eq!(e.message(), "Failed to insert fragment: Failed to evict LRU item"),
        Ok(_) => panic!("the cache has no room"),
    }
    let config = CacheConfig { eviction_strategy: EvictionStrategy::FirstInFirstOut, ..config };
    let mut cache = CacheManager::new(config);
    match cache.insert(fragment) {
        Err(e) => assert_eq!(e.message(), "Failed to insert fragment: Failed to evict FIFO item"),
        Ok(_) => panic!("the cache has no room"),
    }
}

#[test]
fn an_empty_value_round_trips_with_a_dictionary() {
    let dict = b"a dictionary of some words, some words, some words".to_vec();
    let mut fragment = Fragment::new("zstd".to_string(), 3, Some(dict));
    let key = Sha256::new(b"");
    fragment.insert(Vec::new(), key).unwrap();
    assert_eq!(fragment.get(&key).unwrap(), Some(Vec::new()));
    assert!(!fragment.get_compressed(&key).unwrap().is_empty());
}
