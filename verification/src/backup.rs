//! The backup: a version log with the metadata and the hash that go to disk
//! with it.

use crate::clock::wall_clock_now;
use crate::clock::Timestamp;
use crate::compression::compress_bytes;
use crate::compression::decompress_bytes;
use crate::compression::failure_message;
use crate::compression::zstd_compressed;
use crate::compression::zstd_decompressed;
use crate::format::log_record;
use crate::format::parse_log;
use crate::format::read_log;
use crate::format::write_log;
use crate::fragment::Fragment;
use crate::fragment::FragmentError;
use crate::fragment::FragmentView;
use crate::hash::digest_of;
use crate::hash::Sha256;
use crate::versioning::place_of;
use crate::versioning::VersionControl;
use crate::versioning::VersionControlView;
use vstd::prelude::*;

verus! {

/// What can go wrong in a backup.
#[derive(Debug)]
pub enum BackupError {
    /// A file could not be read or written, or its content could not be
    /// compressed or decompressed.
    IoError(String),
    /// The metadata could not be written as JSON or read from it.
    SerializationError(String),
    /// The content of the versions file is not the record of a version log.
    DeserializationError(String),
    /// A fragment failed.
    FragmentError(FragmentError),
    /// The version log that was loaded holds no version.
    NoVersionsFound,
}

impl BackupError {
    /// The error in words: what failed, and the text that the error carries.
    pub open spec fn spec_message(&self) -> Seq<char> {
        match *self {
            BackupError::IoError(t) => "IO error: "@ + t@,
            BackupError::SerializationError(t) => "Serialization error: "@ + t@,
            BackupError::DeserializationError(t) => "Deserialization error: "@ + t@,
            BackupError::FragmentError(e) => "Fragment error: "@ + e.spec_message(),
            BackupError::NoVersionsFound => "No versions found"@,
        }
    }

    /// The error in words: what failed, and the text that the error carries.
    pub fn message(&self) -> (text: String)
        ensures
            text@ == self.spec_message(),
    {
        match self {
            BackupError::IoError(t) => "IO error: ".to_string().concat(t.as_str()),
            BackupError::SerializationError(t) => "Serialization error: ".to_string().concat(
                t.as_str(),
            ),
            BackupError::DeserializationError(t) => "Deserialization error: ".to_string().concat(
                t.as_str(),
            ),
            BackupError::FragmentError(e) => "Fragment error: ".to_string().concat(
                e.message().as_str(),
            ),
            BackupError::NoVersionsFound => "No versions found".to_string(),
        }
    }
}

/// What a backup says of itself in its metadata file.
#[derive(Clone, Copy, Debug)]
pub struct BackupMetadata {
    /// When the backup was made.
    pub creation_date: Timestamp,
    /// The number of versions in the log.
    pub fragment_count: usize,
    /// The entries of the fragments that were added, summed up.
    pub total_size: usize,
    /// The number of versions in the log.
    pub version_count: usize,
    /// The level at which the versions file was compressed last.
    pub compression_level: Option<usize>,
    /// The bound on the number of versions.
    pub max_versions: Option<usize>,
}

/// The two files of a saved backup, as values.
#[derive(Debug)]
pub struct SavedBackup {
    /// What goes into the metadata file.
    pub metadata: BackupMetadata,
    /// The content of the versions file: the record of the version log,
    /// compressed.
    pub versions: Vec<u8>,
}

/// The level at which the versions file is compressed where none is asked
/// for.
pub const DEFAULT_LEVEL: usize = 3;

/// A backup as plain values.
pub struct BackupView {
    pub metadata: BackupMetadata,
    pub log: VersionControlView,
    pub hash: Seq<u8>,
}

/// The version log that the content of a versions file stands for.
pub open spec fn loaded(versions: Seq<u8>) -> Option<VersionControlView> {
    match zstd_decompressed(versions) {
        Some(plain) => read_log(plain),
        None => None,
    }
}

/// The level in effect where `level` is asked for.
pub open spec fn level_in_effect(level: Option<usize>) -> usize {
    match level {
        Some(l) => l,
        None => DEFAULT_LEVEL,
    }
}

impl BackupView {
    /// The newest fragment.
    pub open spec fn latest(self) -> FragmentView {
        self.log.latest().fragment
    }

    /// Whether the hash is that of the newest fragment.
    pub open spec fn hashed(self) -> bool {
        self.hash == digest_of(self.latest().to_bytes())
    }

    /// Whether the counts and the bound in the metadata are those of the
    /// log.
    pub open spec fn counted(self) -> bool {
        &&& self.metadata.fragment_count == self.log.versions.len()
        &&& self.metadata.version_count == self.log.versions.len()
        &&& self.metadata.max_versions == self.log.max_versions
    }

    /// Whether hash, counts and bound are up to date.
    pub open spec fn consistent(self) -> bool {
        self.hashed() && self.counted()
    }

    /// The backup with another log, its hash and counts brought up to date
    /// and the total size set to `total_size`.
    pub open spec fn with_log(self, log: VersionControlView, total_size: usize) -> BackupView {
        BackupView {
            metadata: BackupMetadata {
                fragment_count: log.versions.len() as usize,
                version_count: log.versions.len() as usize,
                total_size,
                max_versions: log.max_versions,
                ..self.metadata
            },
            log,
            hash: digest_of(log.latest().fragment.to_bytes()),
        }
    }
}

/// A version log with its metadata and the hash of its newest fragment.
#[derive(Debug)]
pub struct Backup {
    metadata: BackupMetadata,
    version_control: VersionControl,
    hash: Sha256,
}

impl View for Backup {
    type V = BackupView;

    closed spec fn view(&self) -> BackupView {
        BackupView {
            metadata: self.metadata,
            log: self.version_control@,
            hash: self.hash@,
        }
    }
}

impl Backup {
    /// A backup whose log holds the genesis version and `fragment` on top of
    /// it.
    pub fn new(fragment: Fragment, max_versions: Option<usize>) -> (r: Result<Backup, BackupError>)
        requires
            max_versions != Some(0usize),
        ensures
            r matches Ok(backup) && {
                &&& backup@.consistent()
                &&& backup@.log.valid()
                &&& backup@.log.max_versions == max_versions
                &&& backup@.latest() == fragment@
                &&& backup@.log.latest().version == 1
                &&& backup@.log.versions.len() == if max_versions == Some(1usize) {
                    1int
                } else {
                    2int
                }
                &&& max_versions != Some(1usize) ==> {
                    &&& backup@.log.versions[0].version == 0
                    &&& backup@.log.versions[0].fragment.entries == Seq::<
                        (Seq<u8>, Seq<u8>),
                    >::empty()
                    &&& backup@.log.versions[0].fragment.consistent()
                }
                &&& backup@.metadata.total_size == fragment@.entries.len()
                &&& backup@.metadata.compression_level.is_none()
            },
    {
        let mut version_control = VersionControl::new(max_versions);
        let size: usize = fragment.len();
        let hash = match fragment.to_bytes() {
            Ok(bytes) => Sha256::new(bytes.as_slice()),
            Err(e) => {
                return Err(BackupError::FragmentError(e));
            },
        };
        version_control.add_version(fragment);
        let count: usize = version_control.get_version_count();
        let metadata = BackupMetadata {
            creation_date: wall_clock_now(),
            fragment_count: count,
            total_size: size,
            version_count: count,
            compression_level: None,
            max_versions,
        };
        Ok(Backup { metadata, version_control, hash })
    }

    /// Brings the hash up to date with the newest fragment.
    fn update_hash(&mut self) -> (r: Result<(), BackupError>)
        ensures
            r is Ok,
            final(self)@ == (BackupView {
                hash: digest_of(old(self)@.latest().to_bytes()),
                ..old(self)@
            }),
            final(self)@.hashed(),
    {
        match self.version_control.latest().fragment.to_bytes() {
            Ok(bytes) => {
                self.hash = Sha256::new(bytes.as_slice());
                Ok(())
            },
            Err(e) => Err(BackupError::FragmentError(e)),
        }
    }

    /// Adds `fragment` to the log as the next version, adds its size to the
    /// total, and brings counts and hash up to date.
    pub fn add_version(&mut self, fragment: Fragment) -> (r: Result<(), BackupError>)
        requires
            old(self)@.log.latest().version < u64::MAX,
            old(self)@.metadata.total_size + fragment@.entries.len() <= usize::MAX,
        ensures
            r is Ok,
            final(self)@ == old(self)@.with_log(
                old(self)@.log.added(fragment@, final(self)@.log.latest().creation_date),
                (old(self)@.metadata.total_size + fragment@.entries.len()) as usize,
            ),
            final(self)@.latest() == fragment@,
            final(self)@.log.latest().version == old(self)@.log.latest().version + 1,
            final(self)@.log.valid(),
            final(self)@.hashed(),
    {
        let size: usize = fragment.len();
        self.version_control.add_version(fragment);
        let count: usize = self.version_control.get_version_count();
        self.metadata.fragment_count = count;
        self.metadata.total_size = self.metadata.total_size + size;
        self.metadata.version_count = count;
        self.metadata.max_versions = self.version_control.get_max_versions();
        self.update_hash()
    }

    /// Rolls the log back to the version with the number `version` and
    /// returns a copy of its fragment; counts, total size and hash follow.
    /// Where there is no such version nothing changes.
    pub fn rollback(&mut self, version: u64) -> (r: Result<Option<Fragment>, BackupError>)
        ensures
            r is Ok,
            match r {
                Ok(Some(fragment)) => {
                    &&& place_of(old(self)@.log.versions, version).is_some()
                    &&& final(self)@ == old(self)@.with_log(
                        old(self)@.log.rolled_back(version),
                        fragment@.entries.len() as usize,
                    )
                    &&& fragment@ == final(self)@.latest()
                    &&& final(self)@.log.latest().version == version
                    &&& final(self)@.log.valid()
                },
                Ok(None) => place_of(old(self)@.log.versions, version).is_none() && final(self)@
                    == old(self)@,
                Err(_) => false,
            },
    {
        let result = self.version_control.rollback(version);
        match result {
            Some(fragment) => {
                let count: usize = self.version_control.get_version_count();
                self.metadata.fragment_count = count;
                self.metadata.total_size = fragment.len();
                self.metadata.version_count = count;
                self.metadata.max_versions = self.version_control.get_max_versions();
                match self.update_hash() {
                    Ok(_) => Ok(Some(fragment)),
                    Err(e) => Err(e),
                }
            },
            None => Ok(None),
        }
    }

    /// The newest fragment. There always is one.
    pub fn get_latest_version(&self) -> (latest: Option<&Fragment>)
        ensures
            latest matches Some(f) && f@ == self@.latest(),
            self@.log.valid(),
    {
        Some(&self.version_control.latest().fragment)
    }

    /// The metadata.
    pub fn get_metadata(&self) -> (metadata: &BackupMetadata)
        ensures
            *metadata == self@.metadata,
    {
        &self.metadata
    }

    /// The hash of the newest fragment's serialization, as of the last
    /// change.
    pub fn get_hash(&self) -> (hash: &Sha256)
        ensures
            hash@ == self@.hash,
    {
        &self.hash
    }

    /// The number of the newest version.
    pub fn latest_version_number(&self) -> (number: u64)
        ensures
            number == self@.log.latest().version,
    {
        self.version_control.latest().version
    }

    /// The content of the versions file for this backup, compressed at
    /// `level` or else at the default level, and the metadata with that
    /// level recorded. What is returned loads back as the log of this
    /// backup.
    pub fn save_to_disk(&mut self, level: Option<usize>) -> (r: Result<SavedBackup, BackupError>)
        requires
            level_in_effect(level) <= i32::MAX,
        ensures
            match r {
                Ok(saved) => {
                    &&& zstd_compressed(
                        log_record(old(self)@.log),
                        level_in_effect(level) as i32,
                    ) == Some(saved.versions@)
                    &&& loaded(saved.versions@) == Some(old(self)@.log)
                    &&& saved.metadata == final(self)@.metadata
                    &&& final(self)@ == (BackupView {
                        metadata: BackupMetadata {
                            compression_level: Some(level_in_effect(level)),
                            ..old(self)@.metadata
                        },
                        ..old(self)@
                    })
                },
                Err(e) => {
                    &&& zstd_compressed(
                        log_record(old(self)@.log),
                        level_in_effect(level) as i32,
                    ).is_none()
                    &&& final(self)@ == old(self)@
                    &&& e is IoError
                },
            },
    {
        let record = write_log(&self.version_control);
        let chosen: usize = match level {
            Some(l) => l,
            None => DEFAULT_LEVEL,
        };
        match compress_bytes(record.as_slice(), chosen as i32) {
            Ok(versions) => {
                self.metadata.compression_level = Some(chosen);
                Ok(SavedBackup { metadata: self.metadata, versions })
            },
            Err(e) => Err(BackupError::IoError(failure_message(&e))),
        }
    }

    /// The backup that the two files of a saved backup stand for: the
    /// metadata as they are, the log read from the content of the versions
    /// file, the hash computed from the newest fragment.
    pub fn load_from_disk(metadata: BackupMetadata, versions: &[u8]) -> (r: Result<
        Backup,
        BackupError,
    >)
        ensures
            match r {
                Ok(backup) => {
                    &&& loaded(versions@) == Some(backup@.log)
                    &&& backup@.log.valid()
                    &&& backup@.metadata == metadata
                    &&& backup@.hashed()
                },
                Err(BackupError::IoError(_)) => zstd_decompressed(versions@).is_none(),
                Err(BackupError::NoVersionsFound) => loaded(versions@) matches Some(log)
                    && log.versions.len() == 0,
                Err(BackupError::DeserializationError(_)) => zstd_decompressed(
                    versions@,
                ).is_some() && match loaded(versions@) {
                    Some(log) => log.versions.len() > 0 && !log.valid(),
                    None => true,
                },
                Err(_) => false,
            },
    {
        let plain = match decompress_bytes(versions) {
            Ok(plain) => plain,
            Err(e) => {
                return Err(BackupError::IoError(failure_message(&e)));
            },
        };
        let (history, max_versions) = match parse_log(plain.as_slice()) {
            Some(parts) => parts,
            None => {
                return Err(
                    BackupError::DeserializationError(
                        "the versions are not the record of a version log".to_string(),
                    ),
                );
            },
        };
        if history.len() == 0 {
            return Err(BackupError::NoVersionsFound);
        }
        let version_control = match VersionControl::from_versions(history, max_versions) {
            Some(log) => log,
            None => {
                return Err(
                    BackupError::DeserializationError(
                        "the versions do not make up a version log".to_string(),
                    ),
                );
            },
        };
        let hash = match version_control.latest().fragment.to_bytes() {
            Ok(bytes) => Sha256::new(bytes.as_slice()),
            Err(e) => {
                return Err(BackupError::FragmentError(e));
            },
        };
        Ok(Backup { metadata, version_control, hash })
    }

    /// Sets the bound on the number of versions, drops the oldest versions
    /// where it asks for it, and brings the counts up to date.
    pub fn set_max_versions(&mut self, max_versions: Option<usize>)
        requires
            max_versions != Some(0usize),
        ensures
            final(self)@ == old(self)@.with_log(
                old(self)@.log.bounded(max_versions),
                old(self)@.metadata.total_size,
            ),
            final(self)@.latest() == old(self)@.latest(),
            final(self)@.log.valid(),
            final(self)@.hashed(),
    {
        self.version_control.set_max_versions(max_versions);
        let count: usize = self.version_control.get_version_count();
        self.metadata.fragment_count = count;
        self.metadata.version_count = count;
        self.metadata.max_versions = max_versions;
        let _ = self.update_hash();
    }

    /// The bound on the number of versions.
    pub fn get_max_versions(&self) -> (max_versions: Option<usize>)
        ensures
            max_versions == self@.log.max_versions,
    {
        self.version_control.get_max_versions()
    }

    /// Drops every version but the newest; counts and total size follow.
    pub fn clear_history(&mut self)
        ensures
            final(self)@ == old(self)@.with_log(
                old(self)@.log.cleared(),
                old(self)@.latest().entries.len() as usize,
            ),
            final(self)@.latest() == old(self)@.latest(),
            final(self)@.log.versions.len() == 1,
            final(self)@.log.valid(),
            final(self)@.hashed(),
    {
        self.version_control.clear_history();
        self.metadata.fragment_count = 1;
        self.metadata.total_size = self.version_control.latest().fragment.len();
        self.metadata.version_count = 1;
        self.metadata.max_versions = self.version_control.get_max_versions();
        let _ = self.update_hash();
    }

    /// The fragments of every version, oldest first.
    pub fn get_history(&self) -> (history: Vec<&Fragment>)
        ensures
            history@.len() == self@.log.versions.len(),
            forall|i: int|
                0 <= i < history@.len() ==> (#[trigger] history@[i])@
                    == self@.log.versions[i].fragment,
            self@.log.valid(),
    {
        let versions = self.version_control.get_history();
        let mut history: Vec<&Fragment> = Vec::new();
        let mut i: usize = 0;
        while i < versions.len()
            invariant
                0 <= i <= versions@.len(),
                history@.len() == i,
                forall|j: int| 0 <= j < i ==> (#[trigger] history@[j])@ == versions@[j]@.fragment,
            decreases versions@.len() - i,
        {
            history.push(&versions[i].fragment);
            i += 1;
        }
        history
    }
}

} // verus!
