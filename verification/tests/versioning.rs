use asphaleia_storage::Fragment;
use asphaleia_storage::Sha256;
use asphaleia_storage::Version;
use asphaleia_storage::VersionControl;

fn fragment_with(entries: u8) -> Fragment {
    let mut fragment = Fragment::new("zstd".to_string(), 3, None);
    for i in 0..entries {
        fragment.insert(vec![i], Sha256::new(&[i])).unwrap();
    }
    fragment
}

fn numbers(log: &VersionControl) -> Vec<u64> {
    log.get_history().iter().map(|v| v.version).collect()
}

#[test]
fn new_log_holds_the_genesis_version() {
    let log = VersionControl::new(None);
    assert_eq!(log.get_version_count(), 1);
    assert_eq!(numbers(&log), vec![0]);
    let genesis = log.get_latest_version().unwrap();
    assert_eq!(genesis.version, 0);
    assert!(genesis.fragment.is_empty());
    assert_eq!(genesis.fragment.get_metadata().compression, "zstd");
    assert_eq!(genesis.fragment.get_metadata().compression_level, 3);
    assert_eq!(genesis.fragment.get_metadata().compression_dict, None);
    assert_eq!(log.get_max_versions(), None);
}

#[test]
fn version_new_starts_at_one_and_increment_moves_on() {
    let mut version = Version::new(fragment_with(2));
    assert_eq!(version.version, 1);
    assert_eq!(version.fragment.len(), 2);
    version.increment();
    assert_eq!(version.version, 2);
    assert_eq!(version.fragment.len(), 2);
}

#[test]
fn add_version_numbers_go_up_by_one() {
    let mut log = VersionControl::new(None);
    log.add_version(fragment_with(1));
    log.add_version(fragment_with(2));
    log.add_version_at(fragment_with(3), 77);
    assert_eq!(numbers(&log), vec![0, 1, 2, 3]);
    assert_eq!(log.get_latest_version().unwrap().fragment.len(), 3);
    assert_eq!(log.get_latest_version().unwrap().creation_date, 77);
    assert_eq!(log.latest().version, 3);
    assert_eq!(log.get_version_count(), 4);
}

#[test]
fn retention_drops_the_oldest() {
    let mut log = VersionControl::new(Some(3));
    for i in 0..5 {
        log.add_version(fragment_with(i));
    }
    assert_eq!(numbers(&log), vec![3, 4, 5]);
    assert_eq!(log.get_max_versions(), Some(3));
}

#[test]
fn a_bound_of_one_keeps_the_newest_alone() {
    let mut log = VersionControl::new(Some(1));
    assert_eq!(numbers(&log), vec![0]);
    log.add_version(fragment_with(1));
    assert_eq!(numbers(&log), vec![1]);
    log.add_version(fragment_with(2));
    assert_eq!(numbers(&log), vec![2]);
}

#[test]
fn set_max_versions_trims_at_once() {
    let mut log = VersionControl::new(None);
    for i in 0..5 {
        log.add_version(fragment_with(i));
    }
    log.set_max_versions(Some(2));
    assert_eq!(numbers(&log), vec![4, 5]);
    log.set_max_versions(Some(1));
    assert_eq!(numbers(&log), vec![5]);
    assert_eq!(log.get_latest_version().unwrap().fragment.len(), 4);
    log.set_max_versions(None);
    assert_eq!(log.get_max_versions(), None);
    assert_eq!(numbers(&log), vec![5]);
    log.set_max_versions(Some(10));
    assert_eq!(numbers(&log), vec![5]);
}

#[test]
fn get_version_finds_by_number() {
    let mut log = VersionControl::new(None);
    log.add_version(fragment_with(1));
    log.add_version(fragment_with(2));
    assert_eq!(log.get_version(0).unwrap().fragment.len(), 0);
    assert_eq!(log.get_version(1).unwrap().fragment.len(), 1);
    assert_eq!(log.get_version(2).unwrap().fragment.len(), 2);
    assert!(log.get_version(3).is_none());
}

#[test]
fn rollback_cuts_behind_the_target() {
    let mut log = VersionControl::new(None);
    for i in 1..5 {
        log.add_version(fragment_with(i));
    }
    let fragment = log.rollback(2).unwrap();
    assert_eq!(fragment.len(), 2);
    assert_eq!(numbers(&log), vec![0, 1, 2]);
    log.add_version(fragment_with(9));
    assert_eq!(numbers(&log), vec![0, 1, 2, 3]);
}

#[test]
fn rollback_to_the_newest_changes_nothing() {
    let mut log = VersionControl::new(None);
    log.add_version(fragment_with(1));
    let fragment = log.rollback(1).unwrap();
    assert_eq!(fragment.len(), 1);
    assert_eq!(numbers(&log), vec![0, 1]);
}

#[test]
fn rollback_to_a_missing_version_changes_nothing() {
    let mut log = VersionControl::new(Some(2));
    for i in 1..4 {
        log.add_version(fragment_with(i));
    }
    assert_eq!(numbers(&log), vec![2, 3]);
    assert!(log.rollback(1).is_none());
    assert!(log.rollback(4).is_none());
    assert_eq!(numbers(&log), vec![2, 3]);
}

#[test]
fn clear_history_keeps_the_newest_alone() {
    let mut log = VersionControl::new(None);
    for i in 1..4 {
        log.add_version(fragment_with(i));
    }
    log.clear_history();
    assert_eq!(numbers(&log), vec![3]);
    assert_eq!(log.get_latest_version().unwrap().fragment.len(), 3);
    log.add_version(fragment_with(1));
    assert_eq!(numbers(&log), vec![3, 4]);
}

#[test]
fn from_versions_wants_a_valid_log() {
    let mut source = VersionControl::new(None);
    source.add_version(fragment_with(1));
    let versions: Vec<Version> = source.get_history().into_iter().cloned().collect();
    let log = VersionControl::from_versions(versions.clone(), Some(2)).unwrap();
    assert_eq!(numbers(&log), vec![0, 1]);
    assert!(VersionControl::from_versions(versions.clone(), Some(1)).is_none());
    assert!(VersionControl::from_versions(Vec::new(), None).is_none());
    let mut reversed = versions.clone();
    reversed.reverse();
    assert!(VersionControl::from_versions(reversed, None).is_none());
    let twice = vec![versions[0].clone(), versions[0].clone()];
    assert!(VersionControl::from_versions(twice, None).is_none());
}
