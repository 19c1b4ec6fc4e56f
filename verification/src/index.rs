//! The storage index: one key/value store over a backup, a cache and a
//! history of its own.

use crate::backup::loaded;
use crate::backup::level_in_effect;
use crate::backup::Backup;
use crate::backup::BackupError;
use crate::backup::BackupMetadata;
use crate::backup::BackupView;
use crate::backup::SavedBackup;
use crate::cache::installed;
use crate::cache::lemma_slot_of;
use crate::cache::lemma_stalest;
use crate::cache::slot_of;
use crate::cache::stored;
use crate::cache::CacheEntryView;
use crate::cache::EvictionStrategy;
use crate::cache::CacheConfig;
use crate::cache::CacheManager;
use crate::cache::CacheView;
use crate::clock::Timestamp;
use crate::fragment::Fragment;
use crate::fragment::FragmentError;
use crate::fragment::FragmentView;
use crate::fragment::Lookup;
use crate::fragment::Metadata;
use crate::hash::digest_of;
use crate::hash::Sha256;
use crate::table::has_key;
use crate::table::inserted;
use crate::table::lemma_inserted_len;
use crate::table::lemma_removed_len;
use crate::table::removed;
use crate::versioning::place_of;
use crate::versioning::VersionControl;
use crate::versioning::VersionControlView;
use vstd::prelude::*;

verus! {

/// What can go wrong in the store.
#[derive(Debug)]
pub enum StorageError {
    /// A file could not be read or written.
    Io(String),
    /// A value could not be compressed.
    Compression(String),
    /// A value could not be decompressed.
    Decompression(String),
    /// No entry stands under the key.
    KeyNotFound,
    /// There is no such version.
    VersionNotFound,
    /// The backup failed.
    BackupError(BackupError),
    /// A fragment failed.
    FragmentError(FragmentError),
}

impl StorageError {
    /// The error in words: what failed, and the text that the error carries.
    pub open spec fn spec_message(&self) -> Seq<char> {
        match *self {
            StorageError::Io(t) => "IO error: "@ + t@,
            StorageError::Compression(t) => "Compression error: "@ + t@,
            StorageError::Decompression(t) => "Decompression error: "@ + t@,
            StorageError::KeyNotFound => "Key not found"@,
            StorageError::VersionNotFound => "Version not found"@,
            StorageError::BackupError(e) => "Backup error: "@ + e.spec_message(),
            StorageError::FragmentError(e) => "Fragment error: "@ + e.spec_message(),
        }
    }

    /// The error in words: what failed, and the text that the error carries.
    pub fn message(&self) -> (text: String)
        ensures
            text@ == self.spec_message(),
    {
        match self {
            StorageError::Io(t) => "IO error: ".to_string().concat(t.as_str()),
            StorageError::Compression(t) => "Compression error: ".to_string().concat(t.as_str()),
            StorageError::Decompression(t) => "Decompression error: ".to_string().concat(
                t.as_str(),
            ),
            StorageError::KeyNotFound => "Key not found".to_string(),
            StorageError::VersionNotFound => "Version not found".to_string(),
            StorageError::BackupError(e) => "Backup error: ".to_string().concat(
                e.message().as_str(),
            ),
            StorageError::FragmentError(e) => "Fragment error: ".to_string().concat(
                e.message().as_str(),
            ),
        }
    }
}

/// A store as plain values: the backup, the cache and the store's own
/// history.
pub struct StorageIndexView {
    pub backup: BackupView,
    pub cache: CacheView,
    pub history: VersionControlView,
}

impl StorageIndexView {
    /// The newest fragment: what the store holds now.
    pub open spec fn latest(self) -> FragmentView {
        self.backup.latest()
    }

    /// The fragment that a read of `key` is answered from: the cached
    /// fragment whose own hash is `key`, where there is one, and the newest
    /// fragment otherwise.
    pub open spec fn source(self, key: Seq<u8>) -> FragmentView {
        if self.cache.contains_key(key) {
            self.cache.entry(key).fragment
        } else {
            self.latest()
        }
    }

    /// What a read of `key` gives.
    pub open spec fn answer(self, key: Seq<u8>) -> Lookup {
        self.source(key).lookup(key)
    }

    /// Whether there is room for one more version that holds `entries`
    /// entries: the version numbers and the total size can still be
    /// counted.
    pub open spec fn has_room(self, entries: int) -> bool {
        &&& self.backup.log.latest().version < u64::MAX
        &&& self.history.latest().version < u64::MAX
        &&& self.backup.metadata.total_size + entries <= usize::MAX
    }

    /// Whether `self` is `before` after a write that made `fragment` the
    /// newest: the fragment was added to the backup and to the history and
    /// installed in the cache.
    pub open spec fn wrote(self, before: StorageIndexView, fragment: FragmentView) -> bool {
        &&& self.backup == before.backup.with_log(
            before.backup.log.added(fragment, self.backup.log.latest().creation_date),
            (before.backup.metadata.total_size + fragment.entries.len()) as usize,
        )
        &&& self.history == before.history.added(fragment, self.history.latest().creation_date)
        &&& installed(before.cache, self.cache, fragment)
        &&& self.latest() == fragment
        &&& self.backup.log.latest().version == before.backup.log.latest().version + 1
        &&& self.history.latest().version == before.history.latest().version + 1
    }
}

/// Making a new version of what the store holds changes the answer to no
/// read.
pub proof fn lemma_new_version_keeps_answers(
    before: StorageIndexView,
    after: StorageIndexView,
    key: Seq<u8>,
)
    requires
        after.cache == before.cache,
        after.latest() == before.latest(),
    ensures
        after.answer(key) == before.answer(key),
{
}

/// After a write that left `value` under `key`, a read of `key` gives
/// `value`, unless the cache held a fragment under `key` before: a key that
/// is the hash of a cached fragment is answered from that fragment.
pub proof fn lemma_read_after_write(
    before: StorageIndexView,
    after: StorageIndexView,
    key: Seq<u8>,
    value: Seq<u8>,
)
    requires
        after.wrote(before, after.latest()),
        after.latest().lookup(key) == Lookup::Value(value),
        !before.cache.contains_key(key),
    ensures
        after.answer(key) == Lookup::Value(value),
{
    let fragment = after.latest();
    let slot = digest_of(fragment.to_bytes());
    if key != slot && after.cache.contains_key(key) {
        let old_entries = before.cache.entries;
        lemma_slot_of(old_entries, key);
        lemma_slot_of(after.cache.entries, key);
        let at = slot_of(after.cache.entries, key);
        let entry = CacheEntryView {
            fragment,
            last_accessed: after.cache.entry(slot).last_accessed,
        };
        if before.cache.full() && old_entries.len() > 0 {
            let victim = before.cache.victim();
            if before.cache.config.eviction_strategy == EvictionStrategy::LeastRecentlyUsed {
                lemma_stalest(old_entries);
            }
            let rest = old_entries.remove(victim);
            lemma_slot_of(rest, slot);
            let found = stored(rest, slot, entry)[at];
            assert(found.0 == key);
            assert(rest[at].0 == key);
            let origin = if at < victim { at } else { at + 1 };
            assert(old_entries[origin].0 == key);
        } else if !before.cache.full() {
            lemma_slot_of(old_entries, slot);
            let found = stored(old_entries, slot, entry)[at];
            assert(found.0 == key);
            assert(old_entries[at].0 == key);
        }
    }
}

/// The key/value store.
pub struct StorageIndex {
    backup: Backup,
    cache: CacheManager,
    version_control: VersionControl,
}

impl View for StorageIndex {
    type V = StorageIndexView;

    closed spec fn view(&self) -> StorageIndexView {
        StorageIndexView {
            backup: self.backup@,
            cache: self.cache@,
            history: self.version_control@,
        }
    }
}

impl StorageIndex {
    /// An empty store: the backup holds the genesis version and an empty
    /// fragment on top of it, the history holds the genesis version, and
    /// the cache is empty.
    pub fn new(cache_config: CacheConfig, max_versions: Option<usize>) -> (r: Result<
        StorageIndex,
        StorageError,
    >)
        requires
            max_versions != Some(0usize),
        ensures
            r matches Ok(index) && {
                &&& index@.latest().entries == Seq::<(Seq<u8>, Seq<u8>)>::empty()
                &&& index@.latest().consistent()
                &&& index@.latest().metadata.compression == "zstd"@
                &&& index@.latest().metadata.compression_level == 3
                &&& index@.latest().metadata.compression_dict.is_none()
                &&& index@.backup.consistent()
                &&& index@.backup.log.valid()
                &&& index@.backup.log.max_versions == max_versions
                &&& index@.backup.log.latest().version == 1
                &&& index@.backup.metadata.total_size == 0
                &&& index@.history.valid()
                &&& index@.history.versions.len() == 1
                &&& index@.history.latest().version == 0
                &&& index@.history.max_versions == max_versions
                &&& index@.cache == (CacheView { entries: Seq::empty(), config: cache_config })
            },
    {
        let fragment = Fragment::new("zstd".to_string(), 3, None);
        let backup = match Backup::new(fragment, max_versions) {
            Ok(backup) => backup,
            Err(e) => {
                return Err(StorageError::BackupError(e));
            },
        };
        let cache = CacheManager::new(cache_config);
        let version_control = VersionControl::new(max_versions);
        Ok(StorageIndex { backup, cache, version_control })
    }

    /// Makes `fragment` the newest: installs it in the cache and adds it to
    /// the backup and to the history.
    fn commit(&mut self, fragment: Fragment) -> (r: Result<(), StorageError>)
        requires
            old(self)@.has_room(fragment@.entries.len() as int),
        ensures
            r is Ok,
            final(self)@.wrote(old(self)@, fragment@),
    {
        self.cache.install(fragment.clone());
        match self.backup.add_version(fragment.clone()) {
            Ok(_) => {},
            Err(e) => {
                return Err(StorageError::BackupError(e));
            },
        }
        self.version_control.add_version(fragment);
        Ok(())
    }

    /// Stores `value` under `key`, or under the hash of `value` where no key
    /// is given, in a copy of the newest fragment, and makes that copy the
    /// newest. Returns the compressed bytes that stood under the key
    /// before. Where the value cannot be compressed nothing changes.
    pub fn insert(&mut self, value: Vec<u8>, key: Option<Sha256>) -> (r: Result<
        Option<Vec<u8>>,
        StorageError,
    >)
        requires
            old(self)@.has_room(old(self)@.latest().entries.len() as int + 1),
        ensures
            ({
                let before = old(self)@.latest();
                let slot = match key {
                    Some(k) => k@,
                    None => digest_of(value@),
                };
                match r {
                    Ok(previous) => {
                        &&& before.compressed(value@) matches Some(stored)
                        &&& final(self)@.latest().is_later(
                            before.with_entries(inserted(before.entries, slot, stored)),
                        )
                        &&& final(self)@.latest().map() == before.map().insert(slot, stored)
                        &&& final(self)@.latest().lookup(slot) == Lookup::Value(value@)
                        &&& final(self)@.latest().consistent()
                        &&& final(self)@.wrote(old(self)@, final(self)@.latest())
                        &&& match previous {
                            Some(p) => has_key(before.entries, slot) && before.map()[slot] == p@,
                            None => !has_key(before.entries, slot),
                        }
                    },
                    Err(StorageError::FragmentError(e)) => {
                        &&& before.compressed(value@).is_none()
                        &&& e is CompressionError
                        &&& final(self)@ == old(self)@
                    },
                    Err(_) => false,
                }
            }),
    {
        let mut fragment = match self.backup.get_latest_version() {
            Some(latest) => latest.clone(),
            None => {
                return Err(StorageError::VersionNotFound);
            },
        };
        let key = match key {
            Some(k) => k,
            None => Sha256::new(value.as_slice()),
        };
        let ghost before = fragment@;
        let result = match fragment.insert(value, key) {
            Ok(previous) => previous,
            Err(e) => {
                return Err(StorageError::FragmentError(e));
            },
        };
        proof {
            lemma_inserted_len(before.entries, key@, before.compressed(value@).unwrap());
        }
        match self.commit(fragment) {
            Ok(_) => Ok(result),
            Err(e) => Err(e),
        }
    }

    /// The value under `key`. It is read from the cached fragment whose own
    /// hash is `key`, where there is one, and otherwise from the newest
    /// fragment, which is then installed in the cache.
    pub fn get(&mut self, key: &Sha256) -> (r: Result<Vec<u8>, StorageError>)
        ensures
            final(self)@.backup == old(self)@.backup,
            final(self)@.history == old(self)@.history,
            final(self)@.cache.config == old(self)@.cache.config,
            if old(self)@.cache.contains_key(key@) {
                final(self)@.cache == old(self)@.cache.read(
                    key@,
                    final(self)@.cache.entry(key@).last_accessed,
                )
            } else {
                installed(old(self)@.cache, final(self)@.cache, old(self)@.latest())
            },
            match r {
                Ok(value) => old(self)@.answer(key@) == Lookup::Value(value@),
                Err(StorageError::KeyNotFound) => old(self)@.answer(key@) == Lookup::Absent,
                Err(StorageError::FragmentError(e)) => old(self)@.answer(key@) == Lookup::Corrupt
                    && e is DecompressionError,
                Err(_) => false,
            },
    {
        let found = match self.cache.get(key) {
            Some(fragment) => Some(fragment.get(key)),
            None => None,
        };
        let outcome = match found {
            Some(outcome) => outcome,
            None => {
                let fragment = match self.backup.get_latest_version() {
                    Some(latest) => latest.clone(),
                    None => {
                        return Err(StorageError::VersionNotFound);
                    },
                };
                let outcome = fragment.get(key);
                self.cache.install(fragment);
                outcome
            },
        };
        match outcome {
            Ok(Some(value)) => Ok(value),
            Ok(None) => Err(StorageError::KeyNotFound),
            Err(e) => Err(StorageError::FragmentError(e)),
        }
    }

    /// Takes the entry under `key` out of a copy of the newest fragment,
    /// makes that copy the newest, and returns the value. Where no entry
    /// stands under the key, or its bytes do not decompress, nothing
    /// changes.
    pub fn remove(&mut self, key: &Sha256) -> (r: Result<Vec<u8>, StorageError>)
        requires
            old(self)@.has_room(old(self)@.latest().entries.len() as int),
        ensures
            ({
                let before = old(self)@.latest();
                match r {
                    Ok(value) => {
                        &&& before.lookup(key@) == Lookup::Value(value@)
                        &&& final(self)@.latest().is_later(
                            before.with_entries(removed(before.entries, key@)),
                        )
                        &&& final(self)@.latest().map() == before.map().remove(key@)
                        &&& final(self)@.latest().lookup(key@) == Lookup::Absent
                        &&& final(self)@.latest().consistent()
                        &&& final(self)@.wrote(old(self)@, final(self)@.latest())
                    },
                    Err(StorageError::KeyNotFound) => before.lookup(key@) == Lookup::Absent
                        && final(self)@ == old(self)@,
                    Err(StorageError::FragmentError(e)) => before.lookup(key@) == Lookup::Corrupt
                        && e is DecompressionError && final(self)@ == old(self)@,
                    Err(_) => false,
                }
            }),
    {
        let mut fragment = match self.backup.get_latest_version() {
            Some(latest) => latest.clone(),
            None => {
                return Err(StorageError::VersionNotFound);
            },
        };
        let ghost before = fragment@;
        let value = match fragment.remove(key) {
            Ok(Some(value)) => value,
            Ok(None) => {
                return Err(StorageError::KeyNotFound);
            },
            Err(e) => {
                return Err(StorageError::FragmentError(e));
            },
        };
        proof {
            lemma_removed_len(before.entries, key@);
        }
        match self.commit(fragment) {
            Ok(_) => Ok(value),
            Err(e) => Err(e),
        }
    }

    /// Adds a copy of the newest fragment to the backup as a new version.
    /// What the store holds, the cache and the history stay as they are.
    pub fn create_new_version(&mut self) -> (r: Result<(), StorageError>)
        requires
            old(self)@.backup.log.latest().version < u64::MAX,
            old(self)@.backup.metadata.total_size + old(self)@.latest().entries.len()
                <= usize::MAX,
        ensures
            r is Ok,
            final(self)@.backup == old(self)@.backup.with_log(
                old(self)@.backup.log.added(
                    old(self)@.latest(),
                    final(self)@.backup.log.latest().creation_date,
                ),
                (old(self)@.backup.metadata.total_size + old(self)@.latest().entries.len())
                    as usize,
            ),
            final(self)@.latest() == old(self)@.latest(),
            final(self)@.backup.log.latest().version == old(self)@.backup.log.latest().version
                + 1,
            final(self)@.cache == old(self)@.cache,
            final(self)@.history == old(self)@.history,
            forall|key: Seq<u8>| final(self)@.answer(key) == old(self)@.answer(key),
    {
        let fragment = match self.backup.get_latest_version() {
            Some(latest) => latest.clone(),
            None => {
                return Err(StorageError::VersionNotFound);
            },
        };
        match self.backup.add_version(fragment) {
            Ok(_) => Ok(()),
            Err(e) => Err(StorageError::BackupError(e)),
        }
    }

    /// Rolls the backup back to the version with the number `version`,
    /// empties the cache and installs that version's fragment in it, rolls
    /// the history back to the same number, and returns the fragment. Where
    /// the backup has no such version nothing changes.
    pub fn rollback(&mut self, version: u64) -> (r: Result<Fragment, StorageError>)
        ensures
            match r {
                Ok(fragment) => {
                    &&& place_of(old(self)@.backup.log.versions, version).is_some()
                    &&& final(self)@.backup == old(self)@.backup.with_log(
                        old(self)@.backup.log.rolled_back(version),
                        fragment@.entries.len() as usize,
                    )
                    &&& final(self)@.latest() == fragment@
                    &&& final(self)@.backup.log.latest().version == version
                    &&& final(self)@.history == old(self)@.history.rolled_back(version)
                    &&& installed(
                        CacheView { entries: Seq::empty(), ..old(self)@.cache },
                        final(self)@.cache,
                        fragment@,
                    )
                },
                Err(StorageError::VersionNotFound) => place_of(
                    old(self)@.backup.log.versions,
                    version,
                ).is_none() && final(self)@ == old(self)@,
                Err(_) => false,
            },
    {
        let fragment = match self.backup.rollback(version) {
            Ok(Some(fragment)) => fragment,
            Ok(None) => {
                return Err(StorageError::VersionNotFound);
            },
            Err(e) => {
                return Err(StorageError::BackupError(e));
            },
        };
        self.cache.clear();
        self.cache.install(fragment.clone());
        let _ = self.version_control.rollback(version);
        Ok(fragment)
    }

    /// The two files of the saved backup, as values. See
    /// [`Backup::save_to_disk`].
    pub fn save_to_disk(&mut self, compression_level: Option<usize>) -> (r: Result<
        SavedBackup,
        StorageError,
    >)
        requires
            level_in_effect(compression_level) <= i32::MAX,
        ensures
            final(self)@.cache == old(self)@.cache,
            final(self)@.history == old(self)@.history,
            final(self)@.backup.log == old(self)@.backup.log,
            final(self)@.backup.hash == old(self)@.backup.hash,
            match r {
                Ok(saved) => {
                    &&& loaded(saved.versions@) == Some(old(self)@.backup.log)
                    &&& saved.metadata == final(self)@.backup.metadata
                    &&& final(self)@.backup.metadata == (BackupMetadata {
                        compression_level: Some(level_in_effect(compression_level)),
                        ..old(self)@.backup.metadata
                    })
                },
                Err(StorageError::BackupError(e)) => e is IoError && final(self)@ == old(self)@,
                Err(_) => false,
            },
    {
        match self.backup.save_to_disk(compression_level) {
            Ok(saved) => Ok(saved),
            Err(e) => Err(StorageError::BackupError(e)),
        }
    }

    /// The store that the two files of a saved backup stand for: the backup
    /// as loaded, a cache that holds its newest fragment, and a history of
    /// the genesis version and that fragment.
    pub fn load_from_disk(
        metadata: BackupMetadata,
        versions: &[u8],
        cache_config: CacheConfig,
    ) -> (r: Result<StorageIndex, StorageError>)
        ensures
            match r {
                Ok(index) => {
                    &&& loaded(versions@) == Some(index@.backup.log)
                    &&& index@.backup.log.valid()
                    &&& index@.backup.metadata == metadata
                    &&& index@.backup.hashed()
                    &&& index@.history.valid()
                    &&& index@.history.latest().fragment == index@.latest()
                    &&& index@.history.latest().version == 1
                    &&& index@.history.max_versions == index@.backup.log.max_versions
                    &&& index@.history.versions.len() == if index@.history.max_versions == Some(
                        1usize,
                    ) {
                        1int
                    } else {
                        2int
                    }
                    &&& index@.history.versions.len() == 2 ==> {
                        &&& index@.history.versions[0].version == 0
                        &&& index@.history.versions[0].fragment.entries == Seq::<
                            (Seq<u8>, Seq<u8>),
                        >::empty()
                    }
                    &&& installed(
                        CacheView { entries: Seq::empty(), config: cache_config },
                        index@.cache,
                        index@.latest(),
                    )
                },
                Err(StorageError::BackupError(e)) => !(loaded(versions@) matches Some(log)
                    && log.versions.len() > 0 && log.valid()),
                Err(_) => false,
            },
    {
        let backup = match Backup::load_from_disk(metadata, versions) {
            Ok(backup) => backup,
            Err(e) => {
                return Err(StorageError::BackupError(e));
            },
        };
        let mut cache = CacheManager::new(cache_config);
        let _ = cache.load_from_backup(&backup);
        let max_versions = backup.get_max_versions();
        let mut version_control = VersionControl::new(max_versions);
        match backup.get_latest_version() {
            Some(fragment) => {
                version_control.add_version(fragment.clone());
            },
            None => {},
        }
        Ok(StorageIndex { backup, cache, version_control })
    }

    /// The metadata of the newest fragment.
    pub fn get_metadata(&self) -> (r: Result<&Metadata, StorageError>)
        ensures
            r matches Ok(metadata) && metadata@ == self@.latest().metadata,
            self@.backup.log.valid(),
    {
        match self.backup.get_latest_version() {
            Some(fragment) => Ok(fragment.get_metadata()),
            None => Err(StorageError::VersionNotFound),
        }
    }

    /// The fragments of the history, oldest first.
    pub fn get_version_history(&self) -> (history: Vec<&Fragment>)
        ensures
            history@.len() == self@.history.versions.len(),
            forall|i: int|
                0 <= i < history@.len() ==> (#[trigger] history@[i])@
                    == self@.history.versions[i].fragment,
            self@.history.valid(),
    {
        let versions = self.version_control.get_history();
        let mut history: Vec<&Fragment> = Vec::new();
        let mut i: usize = 0;
        while i < versions.len()
            invariant
                0 <= i <= versions@.len(),
                history@.len() == i,
                forall|j: int| 0 <= j < i ==> (#[trigger] history@[j])@ == versions@[j]@.fragment,
            decreases versions@.len() - i,
        {
            history.push(&versions[i].fragment);
            i += 1;
        }
        history
    }

    /// Empties the cache.
    pub fn clear_cache(&mut self)
        ensures
            final(self)@ == (StorageIndexView {
                cache: CacheView { entries: Seq::empty(), ..old(self)@.cache },
                ..old(self)@
            }),
    {
        self.cache.clear();
    }

    /// Takes the entries that have expired out of the cache: the cache is
    /// swept at the reading of its clock, whatever that is.
    pub fn evict_expired_cache(&mut self)
        ensures
            exists|now: Timestamp|
                now.normal() && final(self)@.cache == #[trigger] old(self)@.cache.swept(now),
            final(self)@.backup == old(self)@.backup,
            final(self)@.history == old(self)@.history,
            final(self)@.cache.config == old(self)@.cache.config,
            final(self)@.cache.entries.len() <= old(self)@.cache.entries.len(),
            forall|i: int|
                0 <= i < final(self)@.cache.entries.len() ==> old(self)@.cache.entries.contains(
                    #[trigger] final(self)@.cache.entries[i],
                ),
    {
        self.cache.evict_expired();
    }

    /// Sets the bound on the number of versions in the backup and in the
    /// history, and drops the oldest versions where it asks for it.
    pub fn set_max_versions(&mut self, max_versions: Option<usize>)
        requires
            max_versions != Some(0usize),
        ensures
            final(self)@ == (StorageIndexView {
                backup: old(self)@.backup.with_log(
                    old(self)@.backup.log.bounded(max_versions),
                    old(self)@.backup.metadata.total_size,
                ),
                history: old(self)@.history.bounded(max_versions),
                ..old(self)@
            }),
            final(self)@.latest() == old(self)@.latest(),
            final(self)@.backup.log.valid(),
            final(self)@.history.valid(),
    {
        self.backup.set_max_versions(max_versions);
        self.version_control.set_max_versions(max_versions);
    }

    /// The bound on the number of versions.
    pub fn get_max_versions(&self) -> (max_versions: Option<usize>)
        ensures
            max_versions == self@.backup.log.max_versions,
    {
        self.backup.get_max_versions()
    }

    /// Drops every version but the newest, in the backup and in the
    /// history.
    pub fn clear_history(&mut self)
        ensures
            final(self)@ == (StorageIndexView {
                backup: old(self)@.backup.with_log(
                    old(self)@.backup.log.cleared(),
                    old(self)@.latest().entries.len() as usize,
                ),
                history: old(self)@.history.cleared(),
                ..old(self)@
            }),
            final(self)@.latest() == old(self)@.latest(),
            final(self)@.history.versions == seq![old(self)@.history.latest()],
    {
        self.backup.clear_history();
        self.version_control.clear_history();
    }
}

} // verus!
