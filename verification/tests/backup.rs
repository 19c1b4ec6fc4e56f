use asphaleia_storage::compression::pack;
use asphaleia_storage::format::parse_log;
use asphaleia_storage::format::write_log;
use asphaleia_storage::Backup;
use asphaleia_storage::BackupError;
use asphaleia_storage::Fragment;
use asphaleia_storage::Sha256;
use asphaleia_storage::VersionControl;

fn fragment_with(entries: u8) -> Fragment {
    let mut fragment = Fragment::new("zstd".to_string(), 3, None);
    for i in 0..entries {
        fragment.insert(vec![i; 40], Sha256::new(&[i])).unwrap();
    }
    fragment
}

fn sizes(backup: &Backup) -> Vec<usize> {
    backup.get_history().iter().map(|f| f.len()).collect()
}

#[test]
fn new_backup_holds_genesis_and_the_fragment() {
    let fragment = fragment_with(2);
    let backup = Backup::new(fragment.clone(), None).unwrap();
    assert_eq!(sizes(&backup), vec![0, 2]);
    assert_eq!(backup.latest_version_number(), 1);
    let metadata = backup.get_metadata();
    assert_eq!(metadata.fragment_count, 2);
    assert_eq!(metadata.version_count, 2);
    assert_eq!(metadata.total_size, 2);
    assert_eq!(metadata.compression_level, None);
    assert_eq!(metadata.max_versions, None);
    assert_eq!(backup.get_hash(), &Sha256::new(&fragment.to_bytes().unwrap()));
    assert_eq!(backup.get_max_versions(), None);
}

#[test]
fn new_backup_with_a_bound_of_one_holds_the_fragment_alone() {
    let backup = Backup::new(fragment_with(2), Some(1)).unwrap();
    assert_eq!(sizes(&backup), vec![2]);
    assert_eq!(backup.get_metadata().version_count, 1);
    assert_eq!(backup.get_metadata().max_versions, Some(1));
}

#[test]
fn add_version_sums_the_sizes_and_moves_the_hash() {
    let mut backup = Backup::new(fragment_with(2), None).unwrap();
    let next = fragment_with(3);
    backup.add_version(next.clone()).unwrap();
    assert_eq!(sizes(&backup), vec![0, 2, 3]);
    assert_eq!(backup.get_metadata().total_size, 5);
    assert_eq!(backup.get_metadata().fragment_count, 3);
    assert_eq!(backup.get_metadata().version_count, 3);
    assert_eq!(backup.get_hash(), &Sha256::new(&next.to_bytes().unwrap()));
    assert_eq!(backup.get_latest_version().unwrap().len(), 3);
    assert_eq!(backup.latest_version_number(), 2);
}

#[test]
fn backup_rollback_sets_size_counts_and_hash() {
    let first = fragment_with(2);
    let mut backup = Backup::new(first.clone(), None).unwrap();
    backup.add_version(fragment_with(3)).unwrap();
    backup.add_version(fragment_with(4)).unwrap();
    let fragment = backup.rollback(1).unwrap().unwrap();
    assert_eq!(fragment.len(), 2);
    assert_eq!(sizes(&backup), vec![0, 2]);
    assert_eq!(backup.get_metadata().total_size, 2);
    assert_eq!(backup.get_metadata().version_count, 2);
    assert_eq!(backup.get_metadata().fragment_count, 2);
    assert_eq!(backup.get_hash(), &Sha256::new(&first.to_bytes().unwrap()));
}

#[test]
fn backup_rollback_to_a_missing_version_changes_nothing() {
    let mut backup = Backup::new(fragment_with(2), None).unwrap();
    backup.add_version(fragment_with(3)).unwrap();
    let hash = backup.get_hash().clone();
    assert!(backup.rollback(7).unwrap().is_none());
    assert_eq!(sizes(&backup), vec![0, 2, 3]);
    assert_eq!(backup.get_metadata().total_size, 5);
    assert_eq!(backup.get_hash(), &hash);
}

#[test]
fn backup_set_max_versions_trims_and_counts() {
    let mut backup = Backup::new(fragment_with(1), None).unwrap();
    backup.add_version(fragment_with(2)).unwrap();
    backup.add_version(fragment_with(3)).unwrap();
    backup.set_max_versions(Some(2));
    assert_eq!(sizes(&backup), vec![2, 3]);
    assert_eq!(backup.get_max_versions(), Some(2));
    assert_eq!(backup.get_metadata().max_versions, Some(2));
    assert_eq!(backup.get_metadata().version_count, 2);
    assert_eq!(backup.get_metadata().fragment_count, 2);
}

#[test]
fn backup_clear_history_keeps_the_newest() {
    let mut backup = Backup::new(fragment_with(1), None).unwrap();
    backup.add_version(fragment_with(2)).unwrap();
    backup.clear_history();
    assert_eq!(sizes(&backup), vec![2]);
    assert_eq!(backup.get_metadata().fragment_count, 1);
    assert_eq!(backup.get_metadata().version_count, 1);
    assert_eq!(backup.get_metadata().total_size, 2);
}

#[test]
fn save_records_the_level() {
    let mut backup = Backup::new(fragment_with(2), None).unwrap();
    let saved = backup.save_to_disk(None).unwrap();
    assert_eq!(saved.metadata.compression_level, Some(3));
    assert_eq!(backup.get_metadata().compression_level, Some(3));
    let saved = backup.save_to_disk(Some(7)).unwrap();
    assert_eq!(saved.metadata.compression_level, Some(7));
    assert_eq!(saved.metadata.version_count, 2);
    assert_eq!(&saved.versions[..4], &[0x28, 0xB5, 0x2F, 0xFD]);
}

#[test]
fn save_then_load_gives_the_same_newest_fragment() {
    let mut backup = Backup::new(fragment_with(2), Some(4)).unwrap();
    backup.add_version(fragment_with(5)).unwrap();
    let before = backup.get_latest_version().unwrap().to_bytes().unwrap();
    let saved = backup.save_to_disk(Some(1)).unwrap();
    let loaded = Backup::load_from_disk(saved.metadata, &saved.versions).unwrap();
    assert_eq!(loaded.get_latest_version().unwrap().to_bytes().unwrap(), before);
    assert_eq!(loaded.get_hash(), backup.get_hash());
    assert_eq!(sizes(&loaded), vec![0, 2, 5]);
    assert_eq!(loaded.get_max_versions(), Some(4));
    assert_eq!(loaded.latest_version_number(), 2);
    assert_eq!(loaded.get_metadata().total_size, 7);
    assert_eq!(loaded.get_metadata().compression_level, Some(1));
    let older: Vec<Vec<u8>> = backup.get_history().iter().map(|f| f.to_bytes().unwrap()).collect();
    let again: Vec<Vec<u8>> = loaded.get_history().iter().map(|f| f.to_bytes().unwrap()).collect();
    assert_eq!(older, again);
}

#[test]
fn save_then_load_keeps_a_dictionary_and_a_label() {
    let dict = b"some dictionary".to_vec();
    let mut fragment = Fragment::new("zstd-dict".to_string(), -3, Some(dict));
    fragment.insert(b"value".to_vec(), Sha256::new(b"value")).unwrap();
    let mut backup = Backup::new(fragment, None).unwrap();
    let saved = backup.save_to_disk(None).unwrap();
    let loaded = Backup::load_from_disk(saved.metadata, &saved.versions).unwrap();
    let latest = loaded.get_latest_version().unwrap();
    assert_eq!(latest.get_metadata().compression, "zstd-dict");
    assert_eq!(latest.get_metadata().compression_level, -3);
    assert_eq!(latest.get_metadata().compression_dict, Some(b"some dictionary".to_vec()));
    assert_eq!(latest.get(&Sha256::new(b"value")).unwrap(), Some(b"value".to_vec()));
}

#[test]
fn loading_what_is_not_compressed_is_an_io_error() {
    let mut backup = Backup::new(fragment_with(1), None).unwrap();
    let saved = backup.save_to_disk(None).unwrap();
    let outcome = Backup::load_from_disk(saved.metadata, b"not a zstandard frame");
    assert!(matches!(outcome, Err(BackupError::IoError(_))));
}

#[test]
fn loading_what_is_no_log_is_a_deserialization_error() {
    let mut backup = Backup::new(fragment_with(1), None).unwrap();
    let saved = backup.save_to_disk(None).unwrap();
    let garbage = pack(&None, 3, b"certainly not a version log").unwrap();
    let outcome = Backup::load_from_disk(saved.metadata, &garbage);
    assert!(matches!(outcome, Err(BackupError::DeserializationError(_))));
    let log = VersionControl::new(None);
    let mut record = write_log(&log);
    record.push(0);
    let trailing = pack(&None, 3, &record).unwrap();
    let outcome = Backup::load_from_disk(saved.metadata, &trailing);
    assert!(matches!(outcome, Err(BackupError::DeserializationError(_))));
    record.truncate(record.len() - 2);
    let cut = pack(&None, 3, &record).unwrap();
    let outcome = Backup::load_from_disk(saved.metadata, &cut);
    assert!(matches!(outcome, Err(BackupError::DeserializationError(_))));
}

#[test]
fn loading_a_log_without_versions_finds_no_versions() {
    let mut backup = Backup::new(fragment_with(1), None).unwrap();
    let saved = backup.save_to_disk(None).unwrap();
    let empty = pack(&None, 3, &[0, 0, 0, 0, 0, 0, 0, 0, 0]).unwrap();
    let outcome = Backup::load_from_disk(saved.metadata, &empty);
    assert!(matches!(outcome, Err(BackupError::NoVersionsFound)));
}

#[test]
fn loading_a_log_over_its_bound_is_a_deserialization_error() {
    let mut log = VersionControl::new(None);
    log.add_version(fragment_with(1));
    let mut record = write_log(&log);
    assert_eq!(record.pop(), Some(0));
    record.push(1);
    record.extend_from_slice(&[1, 0, 0, 0, 0, 0, 0, 0]);
    let (versions, bound) = parse_log(&record).unwrap();
    assert_eq!(versions.len(), 2);
    assert_eq!(bound, Some(1));
    let packed = pack(&None, 3, &record).unwrap();
    let mut backup = Backup::new(fragment_with(1), None).unwrap();
    let saved = backup.save_to_disk(None).unwrap();
    let outcome = Backup::load_from_disk(saved.metadata, &packed);
    assert!(matches!(outcome, Err(BackupError::DeserializationError(_))));
}

#[test]
fn the_record_of_a_log_reads_back() {
    let mut log = VersionControl::new(Some(5));
    log.add_version_at(fragment_with(2), 1234);
    let record = write_log(&log);
    assert_eq!(&record[..8], &[2, 0, 0, 0, 0, 0, 0, 0]);
    assert_eq!(&record[record.len() - 9..], &[1, 5, 0, 0, 0, 0, 0, 0, 0]);
    let (versions, bound) = parse_log(&record).unwrap();
    assert_eq!(bound, Some(5));
    assert_eq!(versions.len(), 2);
    assert_eq!(versions[0].version, 0);
    assert_eq!(versions[1].version, 1);
    assert_eq!(versions[1].creation_date, 1234);
    assert_eq!(
        versions[1].fragment.to_bytes().unwrap(),
        log.get_latest_version().unwrap().fragment.to_bytes().unwrap()
    );
}

#[test]
fn a_record_with_entries_out_of_order_is_no_log() {
    let mut log = VersionControl::new(None);
    let mut fragment = Fragment::new("zstd".to_string(), 3, None);
    fragment.insert_compressed(vec![1], Sha256::from_bytes([1u8; 32]));
    fragment.insert_compressed(vec![2], Sha256::from_bytes([2u8; 32]));
    log.add_version(fragment);
    let record = write_log(&log);
    assert!(parse_log(&record).is_some());
    let mut swapped = record.clone();
    let mut found = false;
    for i in 0..swapped.len() - 32 {
        if swapped[i..i + 32] == [1u8; 32] {
            for j in 0..32 {
                swapped[i + j] = 3;
            }
            found = true;
            break;
        }
    }
    assert!(found);
    assert!(parse_log(&swapped).is_none());
}
