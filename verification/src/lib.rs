//! A versioned, compressed, content-addressed key/value store.
//!
//! Values live in an ordered [`Table`] keyed by [`Sha256`] digests. A
//! [`Fragment`] wraps a table with a compression policy and keeps a content
//! hash of it; a [`VersionControl`] is a bounded linear history of fragments;
//! a [`Backup`] ties a history to the metadata that go to disk with it; a
//! [`CacheManager`] keeps recently used fragments; and a [`StorageIndex`]
//! presents all of it as one key/value store.

pub mod backup;
pub mod cache;
pub mod clock;
pub mod compression;
pub mod encoding;
pub mod format;
pub mod fragment;
pub mod hash;
pub mod index;
pub mod table;
pub mod versioning;

pub use backup::Backup;
pub use backup::BackupError;
pub use backup::BackupMetadata;
pub use backup::SavedBackup;
pub use cache::CacheConfig;
pub use cache::CacheEntry;
pub use cache::CacheError;
pub use cache::CacheManager;
pub use cache::EvictionStrategy;
pub use clock::Timestamp;
pub use fragment::Fragment;
pub use fragment::FragmentError;
pub use fragment::Metadata;
pub use hash::Sha256;
pub use index::StorageError;
pub use index::StorageIndex;
pub use table::KeyBound;
pub use table::Table;
pub use versioning::Version;
pub use versioning::VersionControl;
