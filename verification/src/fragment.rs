//! Fragments: a table of compressed values with its compression policy, its
//! content hash and its metadata.

use crate::clock::wall_clock_now;
use crate::clock::Timestamp;
use crate::compression::dict_view;
use crate::compression::failure_message;
use crate::compression::pack;
use crate::compression::packed;
use crate::compression::unpack;
use crate::compression::unpacked;
use crate::encoding::le32;
use crate::encoding::le64;
use crate::encoding::optional;
use crate::encoding::prefixed;
use crate::encoding::push_bytes;
use crate::encoding::put_i32;
use crate::encoding::put_optional;
use crate::encoding::put_prefixed;
use crate::encoding::put_u32;
use crate::encoding::put_u64;
use crate::encoding::unsigned_of;
use crate::hash::digest_of;
use crate::hash::Sha256;
use crate::table::entries_between;
use crate::table::entries_map;
use crate::table::has_key;
use crate::table::inserted;
use crate::table::lemma_map_dom;
use crate::table::removed;
use crate::table::strictly_sorted;
use crate::table::table_bytes;
use crate::table::view_entries;
use crate::table::KeyBound;
use crate::table::Table;
use vstd::prelude::*;
use vstd::utf8::encode_utf8;

verus! {

/// What can go wrong in a fragment.
#[derive(Debug)]
pub enum FragmentError {
    /// A value could not be compressed.
    CompressionError(String),
    /// A stored value could not be decompressed.
    DecompressionError(String),
    /// The metadata could not be serialized.
    SerializationError(String),
}

impl FragmentError {
    /// The error in words: what failed, and the text that the error carries.
    pub open spec fn spec_message(&self) -> Seq<char> {
        match *self {
            FragmentError::CompressionError(t) => "Compression error: "@ + t@,
            FragmentError::DecompressionError(t) => "Decompression error: "@ + t@,
            FragmentError::SerializationError(t) => "Serialization error: "@ + t@,
        }
    }

    /// The error in words: what failed, and the text that the error carries.
    pub fn message(&self) -> (text: String)
        ensures
            text@ == self.spec_message(),
    {
        match self {
            FragmentError::CompressionError(t) => "Compression error: ".to_string().concat(
                t.as_str(),
            ),
            FragmentError::DecompressionError(t) => "Decompression error: ".to_string().concat(
                t.as_str(),
            ),
            FragmentError::SerializationError(t) => "Serialization error: ".to_string().concat(
                t.as_str(),
            ),
        }
    }
}

/// What a fragment says of itself.
#[derive(Debug)]
pub struct Metadata {
    /// When the fragment was made.
    pub creation_date: Timestamp,
    /// When the fragment was last changed.
    pub last_modified: Timestamp,
    /// The name of the compression algorithm.
    pub compression: String,
    /// The compression level.
    pub compression_level: i32,
    /// The compression dictionary, where one is used.
    pub compression_dict: Option<Vec<u8>>,
    /// The number of entries.
    pub size: usize,
}

/// The metadata as plain values.
pub struct MetadataView {
    pub creation_date: Timestamp,
    pub last_modified: Timestamp,
    pub compression: Seq<char>,
    pub compression_level: i32,
    pub compression_dict: Option<Seq<u8>>,
    pub size: usize,
}

impl View for Metadata {
    type V = MetadataView;

    open spec fn view(&self) -> MetadataView {
        MetadataView {
            creation_date: self.creation_date,
            last_modified: self.last_modified,
            compression: self.compression@,
            compression_level: self.compression_level,
            compression_dict: dict_view(self.compression_dict),
            size: self.size,
        }
    }
}

/// The serialization of the metadata: the two dates as seconds (eight
/// bytes) and nanoseconds (four bytes), the algorithm's name in UTF-8 behind
/// its length, the level in four bytes, the optional dictionary, and the
/// size in eight bytes; every number least significant byte first.
pub open spec fn metadata_bytes(m: MetadataView) -> Seq<u8> {
    le64(m.creation_date.secs) + le32(m.creation_date.nanos) + le64(m.last_modified.secs) + le32(
        m.last_modified.nanos,
    ) + prefixed(encode_utf8(m.compression)) + le32(unsigned_of(m.compression_level)) + optional(
        m.compression_dict,
    ) + le64(m.size as u64)
}

/// Copies optional bytes.
fn copy_optional(data: &Option<Vec<u8>>) -> (copy: Option<Vec<u8>>)
    ensures
        dict_view(copy) == dict_view(*data),
{
    match data {
        Some(d) => Some(vstd::slice::slice_to_vec(d.as_slice())),
        None => None,
    }
}

impl Clone for Metadata {
    fn clone(&self) -> (copy: Metadata)
        ensures
            copy@ == self@,
    {
        Metadata {
            creation_date: self.creation_date,
            last_modified: self.last_modified,
            compression: self.compression.clone(),
            compression_level: self.compression_level,
            compression_dict: copy_optional(&self.compression_dict),
            size: self.size,
        }
    }
}

impl Metadata {
    /// The serialization of the metadata.
    pub fn to_bytes(&self) -> (bytes: Vec<u8>)
        ensures
            bytes@ == metadata_bytes(self@),
    {
        let mut bytes: Vec<u8> = Vec::new();
        put_u64(&mut bytes, self.creation_date.secs);
        put_u32(&mut bytes, self.creation_date.nanos);
        put_u64(&mut bytes, self.last_modified.secs);
        put_u32(&mut bytes, self.last_modified.nanos);
        put_prefixed(&mut bytes, self.compression.as_str().as_bytes());
        put_i32(&mut bytes, self.compression_level);
        put_optional(&mut bytes, &self.compression_dict);
        put_u64(&mut bytes, self.size as u64);
        assert(bytes@ =~= metadata_bytes(self@));
        bytes
    }
}

/// A fragment as plain values: the entries in key order, the content hash
/// and the metadata.
pub struct FragmentView {
    pub entries: Seq<(Seq<u8>, Seq<u8>)>,
    pub hash: Seq<u8>,
    pub metadata: MetadataView,
}

/// What reading a key gives.
pub enum Lookup {
    /// No entry stands under the key.
    Absent,
    /// The entry under the key does not decompress.
    Corrupt,
    /// The value under the key.
    Value(Seq<u8>),
}

impl FragmentView {
    /// The mapping from keys to stored, compressed bytes.
    pub open spec fn map(self) -> Map<Seq<u8>, Seq<u8>> {
        entries_map(self.entries)
    }

    /// Whether the hash and the size are those of the table.
    pub open spec fn consistent(self) -> bool {
        &&& self.hash == digest_of(table_bytes(self.entries))
        &&& self.metadata.size == self.entries.len()
    }

    /// The fragment with other entries, its hash and size brought up to
    /// date.
    pub open spec fn with_entries(self, entries: Seq<(Seq<u8>, Seq<u8>)>) -> FragmentView {
        FragmentView {
            entries,
            hash: digest_of(table_bytes(entries)),
            metadata: MetadataView { size: entries.len() as usize, ..self.metadata },
        }
    }

    /// The fragment as changed at `now`: the date of the last change moves
    /// to `now` unless it is later already.
    pub open spec fn touched(self, now: Timestamp) -> FragmentView {
        FragmentView {
            metadata: MetadataView {
                last_modified: if self.metadata.last_modified.le(now) {
                    now
                } else {
                    self.metadata.last_modified
                },
                ..self.metadata
            },
            ..self
        }
    }

    /// Whether `self` is `before` but for the date of the last change, which
    /// is no earlier.
    pub open spec fn is_later(self, before: FragmentView) -> bool {
        &&& before.metadata.last_modified.le(self.metadata.last_modified)
        &&& self == FragmentView {
            metadata: MetadataView {
                last_modified: self.metadata.last_modified,
                ..before.metadata
            },
            ..before
        }
    }

    /// What decompressing the bytes `stored` gives under the fragment's
    /// policy.
    pub open spec fn plain(self, stored: Seq<u8>) -> Option<Seq<u8>> {
        unpacked(self.metadata.compression_dict, stored)
    }

    /// What compressing `value` gives under the fragment's policy.
    pub open spec fn compressed(self, value: Seq<u8>) -> Option<Seq<u8>> {
        packed(self.metadata.compression_dict, self.metadata.compression_level, value)
    }

    /// What reading `key` gives.
    pub open spec fn lookup(self, key: Seq<u8>) -> Lookup {
        if has_key(self.entries, key) {
            match self.plain(self.map()[key]) {
                Some(value) => Lookup::Value(value),
                None => Lookup::Corrupt,
            }
        } else {
            Lookup::Absent
        }
    }

    /// The serialization: that of the table, the hash, and that of the
    /// metadata.
    pub open spec fn to_bytes(self) -> Seq<u8> {
        table_bytes(self.entries) + self.hash + metadata_bytes(self.metadata)
    }
}

/// A snapshot of a table with its compression policy and metadata.
#[derive(Debug)]
pub struct Fragment {
    table: Table,
    hash: Sha256,
    metadata: Metadata,
}

impl View for Fragment {
    type V = FragmentView;

    closed spec fn view(&self) -> FragmentView {
        FragmentView { entries: self.table.entries(), hash: self.hash@, metadata: self.metadata@ }
    }
}

impl Clone for Fragment {
    fn clone(&self) -> (copy: Fragment)
        ensures
            copy@ == self@,
    {
        Fragment { table: self.table.clone(), hash: self.hash, metadata: self.metadata.clone() }
    }
}

impl Fragment {
    /// An empty fragment under the given policy, made at `now`.
    pub fn new_at(
        compression: String,
        compression_level: i32,
        compression_dict: Option<Vec<u8>>,
        now: Timestamp,
    ) -> (fragment: Fragment)
        ensures
            fragment@ == (FragmentView {
                entries: Seq::empty(),
                hash: digest_of(Seq::empty()),
                metadata: MetadataView {
                    creation_date: now,
                    last_modified: now,
                    compression: compression@,
                    compression_level,
                    compression_dict: dict_view(compression_dict),
                    size: 0,
                },
            }),
            fragment@.consistent(),
    {
        let table = Table::new();
        let bytes = table.to_bytes();
        assert(bytes@ =~= Seq::<u8>::empty());
        let hash = Sha256::new(bytes.as_slice());
        let metadata = Metadata {
            creation_date: now,
            last_modified: now,
            compression,
            compression_level,
            compression_dict,
            size: 0,
        };
        Fragment { table, hash, metadata }
    }

    /// An empty fragment under the given policy, made now.
    pub fn new(
        compression: String,
        compression_level: i32,
        compression_dict: Option<Vec<u8>>,
    ) -> (fragment: Fragment)
        ensures
            fragment@.entries == Seq::<(Seq<u8>, Seq<u8>)>::empty(),
            fragment@.hash == digest_of(Seq::empty()),
            fragment@.metadata.creation_date == fragment@.metadata.last_modified,
            fragment@.metadata.creation_date.normal(),
            fragment@.metadata.compression == compression@,
            fragment@.metadata.compression_level == compression_level,
            fragment@.metadata.compression_dict == dict_view(compression_dict),
            fragment@.metadata.size == 0,
            fragment@.consistent(),
    {
        Fragment::new_at(compression, compression_level, compression_dict, wall_clock_now())
    }

    /// Puts a fragment together from its parts, as they are.
    pub fn from_parts(table: Table, hash: Sha256, metadata: Metadata) -> (fragment: Fragment)
        ensures
            fragment@ == (FragmentView {
                entries: table.entries(),
                hash: hash@,
                metadata: metadata@,
            }),
    {
        Fragment { table, hash, metadata }
    }

    /// The content hash.
    pub fn get_hash(&self) -> (hash: &Sha256)
        ensures
            hash@ == self@.hash,
    {
        &self.hash
    }

    /// The metadata.
    pub fn get_metadata(&self) -> (metadata: &Metadata)
        ensures
            metadata@ == self@.metadata,
    {
        &self.metadata
    }

    /// The table.
    pub fn get_table(&self) -> (table: &Table)
        ensures
            table.entries() == self@.entries,
            strictly_sorted(self@.entries),
    {
        proof {
            use_type_invariant(&self.table);
            self.table.lemma_sorted();
        }
        &self.table
    }

    /// Whether the hash and the size are those of the table. They are after
    /// every mutation; a fragment that was put together from parts may hold
    /// others.
    pub fn is_consistent(&self) -> (r: bool)
        ensures
            r == self@.consistent(),
    {
        let bytes = self.table.to_bytes();
        let hash = Sha256::new(bytes.as_slice());
        hash.same(&self.hash) && self.metadata.size == self.table.len()
    }

    /// Brings the hash and the size up to date with the table, and moves the
    /// date of the last change to `now` unless it is later already.
    pub fn update_hash_at(&mut self, now: Timestamp)
        ensures
            final(self)@ == old(self)@.with_entries(old(self)@.entries).touched(now),
            final(self)@.consistent(),
    {
        let bytes = self.table.to_bytes();
        self.hash = Sha256::new(bytes.as_slice());
        self.metadata.last_modified = self.metadata.last_modified.later_of(now);
        self.metadata.size = self.table.len();
    }

    /// Brings the hash and the size up to date with the table, and the date
    /// of the last change to the present.
    fn update_hash(&mut self)
        ensures
            final(self)@.is_later(old(self)@.with_entries(old(self)@.entries)),
            final(self)@.consistent(),
    {
        self.update_hash_at(wall_clock_now());
    }

    /// Decompresses stored bytes under the fragment's policy.
    fn reveal_value(&self, stored: &[u8]) -> (r: Result<Vec<u8>, FragmentError>)
        ensures
            match r {
                Ok(value) => self@.plain(stored@) == Some(value@),
                Err(e) => self@.plain(stored@).is_none() && e is DecompressionError,
            },
    {
        match unpack(&self.metadata.compression_dict, stored) {
            Ok(value) => Ok(value),
            Err(e) => Err(FragmentError::DecompressionError(failure_message(&e))),
        }
    }

    /// Stores bytes that are compressed already under `key`, brings hash
    /// and size up to date and moves the date of the last change to `now`
    /// unless it is later already. Returns what was stored there before.
    pub fn insert_compressed_at(
        &mut self,
        compressed: Vec<u8>,
        key: Sha256,
        now: Timestamp,
    ) -> (previous: Option<Vec<u8>>)
        ensures
            final(self)@ == old(self)@.with_entries(
                inserted(old(self)@.entries, key@, compressed@),
            ).touched(now),
            final(self)@.map() == old(self)@.map().insert(key@, compressed@),
            final(self)@.consistent(),
            match previous {
                Some(p) => has_key(old(self)@.entries, key@) && old(self)@.map()[key@] == p@,
                None => !has_key(old(self)@.entries, key@),
            },
    {
        let previous = self.table.insert(compressed, key);
        self.update_hash_at(now);
        previous
    }

    /// Stores bytes that are compressed already under `key`, brings hash,
    /// size and date up to date, and returns what was stored there before.
    pub fn insert_compressed(&mut self, compressed: Vec<u8>, key: Sha256) -> (previous: Option<
        Vec<u8>,
    >)
        ensures
            final(self)@.is_later(
                old(self)@.with_entries(inserted(old(self)@.entries, key@, compressed@)),
            ),
            final(self)@.map() == old(self)@.map().insert(key@, compressed@),
            final(self)@.consistent(),
            match previous {
                Some(p) => has_key(old(self)@.entries, key@) && old(self)@.map()[key@] == p@,
                None => !has_key(old(self)@.entries, key@),
            },
    {
        self.insert_compressed_at(compressed, key, wall_clock_now())
    }

    /// Compresses `value` under the fragment's policy and stores it under
    /// `key`. Returns the compressed bytes that were stored there before.
    /// Reading `key` afterwards gives `value`.
    pub fn insert(&mut self, value: Vec<u8>, key: Sha256) -> (r: Result<
        Option<Vec<u8>>,
        FragmentError,
    >)
        ensures
            match r {
                Ok(previous) => {
                    &&& old(self)@.compressed(value@) matches Some(stored)
                    &&& final(self)@.is_later(
                        old(self)@.with_entries(inserted(old(self)@.entries, key@, stored)),
                    )
                    &&& final(self)@.map() == old(self)@.map().insert(key@, stored)
                    &&& final(self)@.lookup(key@) == Lookup::Value(value@)
                    &&& final(self)@.consistent()
                    &&& match previous {
                        Some(p) => has_key(old(self)@.entries, key@) && old(self)@.map()[key@]
                            == p@,
                        None => !has_key(old(self)@.entries, key@),
                    }
                },
                Err(e) => {
                    &&& old(self)@.compressed(value@).is_none()
                    &&& final(self)@ == old(self)@
                    &&& e is CompressionError
                },
            },
    {
        match pack(
            &self.metadata.compression_dict,
            self.metadata.compression_level,
            value.as_slice(),
        ) {
            Ok(stored) => {
                let previous = self.insert_compressed(stored, key);
                proof {
                    lemma_map_dom(self@.entries, key@);
                }
                Ok(previous)
            },
            Err(e) => Err(FragmentError::CompressionError(failure_message(&e))),
        }
    }

    /// The compressed bytes stored under `key`.
    pub fn get_compressed(&self, key: &Sha256) -> (stored: Option<&Vec<u8>>)
        ensures
            match stored {
                Some(s) => has_key(self@.entries, key@) && self@.map()[key@] == s@,
                None => !has_key(self@.entries, key@),
            },
    {
        self.table.get(key)
    }

    /// The value under `key`, decompressed.
    pub fn get(&self, key: &Sha256) -> (r: Result<Option<Vec<u8>>, FragmentError>)
        ensures
            match r {
                Ok(Some(value)) => self@.lookup(key@) == Lookup::Value(value@),
                Ok(None) => self@.lookup(key@) == Lookup::Absent,
                Err(e) => self@.lookup(key@) == Lookup::Corrupt && e is DecompressionError,
            },
    {
        match self.table.get(key) {
            Some(stored) => {
                match self.reveal_value(stored.as_slice()) {
                    Ok(value) => Ok(Some(value)),
                    Err(e) => Err(e),
                }
            },
            None => Ok(None),
        }
    }

    /// Takes the entry under `key` out, brings hash, size and date up to
    /// date, and returns the value, decompressed. Where the stored bytes do
    /// not decompress the entry is gone all the same.
    pub fn remove(&mut self, key: &Sha256) -> (r: Result<Option<Vec<u8>>, FragmentError>)
        ensures
            final(self)@.is_later(old(self)@.with_entries(removed(old(self)@.entries, key@))),
            final(self)@.map() == old(self)@.map().remove(key@),
            final(self)@.consistent(),
            final(self)@.lookup(key@) == Lookup::Absent,
            match r {
                Ok(Some(value)) => old(self)@.lookup(key@) == Lookup::Value(value@),
                Ok(None) => old(self)@.lookup(key@) == Lookup::Absent,
                Err(e) => old(self)@.lookup(key@) == Lookup::Corrupt && e is DecompressionError,
            },
    {
        let taken = self.table.remove(key);
        self.update_hash();
        proof {
            lemma_map_dom(self@.entries, key@);
            lemma_map_dom(old(self)@.entries, key@);
        }
        match taken {
            Some(stored) => {
                match self.reveal_value(stored.as_slice()) {
                    Ok(value) => Ok(Some(value)),
                    Err(e) => Err(e),
                }
            },
            None => Ok(None),
        }
    }

    /// Whether an entry stands under `key`.
    pub fn contains_key(&self, key: &Sha256) -> (r: bool)
        ensures
            r == has_key(self@.entries, key@),
    {
        self.table.contains_key(key)
    }

    /// The number of entries.
    pub fn len(&self) -> (n: usize)
        ensures
            n == self@.entries.len(),
    {
        self.table.len()
    }

    /// Whether the fragment has no entry.
    pub fn is_empty(&self) -> (r: bool)
        ensures
            r == (self@.entries.len() == 0),
    {
        self.table.is_empty()
    }

    /// Takes every entry out and brings hash, size and date up to date.
    pub fn clear(&mut self)
        ensures
            final(self)@.is_later(old(self)@.with_entries(Seq::empty())),
            final(self)@.consistent(),
    {
        self.table.clear();
        self.update_hash();
    }

    /// The keys in order.
    pub fn keys(&self) -> (keys: Vec<Sha256>)
        ensures
            keys@.len() == self@.entries.len(),
            forall|i: int| 0 <= i < keys@.len() ==> (#[trigger] keys@[i])@ == self@.entries[i].0,
            strictly_sorted(self@.entries),
    {
        proof {
            use_type_invariant(&self.table);
            self.table.lemma_sorted();
        }
        self.table.keys()
    }

    /// Each of `entries` with its value decompressed, or the failure to
    /// decompress it, in order.
    fn reveal_entries(&self, entries: &[(Sha256, Vec<u8>)]) -> (r: Vec<
        Result<(Sha256, Vec<u8>), FragmentError>,
    >)
        ensures
            r@.len() == entries@.len(),
            forall|i: int|
                0 <= i < r@.len() ==> match #[trigger] r@[i] {
                    Ok((key, value)) => key@ == entries@[i].0@ && self@.plain(entries@[i].1@)
                        == Some(value@),
                    Err(e) => self@.plain(entries@[i].1@).is_none() && e is DecompressionError,
                },
    {
        let mut out: Vec<Result<(Sha256, Vec<u8>), FragmentError>> = Vec::new();
        let mut i: usize = 0;
        while i < entries.len()
            invariant
                0 <= i <= entries@.len(),
                out@.len() == i,
                forall|j: int|
                    0 <= j < i ==> match #[trigger] out@[j] {
                        Ok((key, value)) => key@ == entries@[j].0@ && self@.plain(
                            entries@[j].1@,
                        ) == Some(value@),
                        Err(e) => self@.plain(entries@[j].1@).is_none()
                            && e is DecompressionError,
                    },
            decreases entries@.len() - i,
        {
            let entry = &entries[i];
            let item = match self.reveal_value(entry.1.as_slice()) {
                Ok(value) => Ok((entry.0, value)),
                Err(e) => Err(e),
            };
            out.push(item);
            i += 1;
        }
        out
    }

    /// Every entry in key order, its value decompressed; an entry that does
    /// not decompress gives an error in its place.
    pub fn iter(&self) -> (r: Vec<Result<(Sha256, Vec<u8>), FragmentError>>)
        ensures
            strictly_sorted(self@.entries),
            r@.len() == self@.entries.len(),
            forall|i: int|
                0 <= i < r@.len() ==> match #[trigger] r@[i] {
                    Ok((key, value)) => key@ == self@.entries[i].0 && self@.plain(
                        self@.entries[i].1,
                    ) == Some(value@),
                    Err(e) => self@.plain(self@.entries[i].1).is_none()
                        && e is DecompressionError,
                },
    {
        let entries = self.table.iter();
        let r = self.reveal_entries(entries);
        proof {
            assert forall|i: int| 0 <= i < r@.len() implies match #[trigger] r@[i] {
                Ok((key, value)) => key@ == self@.entries[i].0 && self@.plain(self@.entries[i].1)
                    == Some(value@),
                Err(e) => self@.plain(self@.entries[i].1).is_none() && e is DecompressionError,
            } by {
                assert(view_entries(entries@)[i] == (entries@[i].0@, entries@[i].1@));
            }
        }
        r
    }

    /// Every value in key order, decompressed; one that does not decompress
    /// gives an error in its place.
    pub fn values(&self) -> (r: Vec<Result<Vec<u8>, FragmentError>>)
        ensures
            r@.len() == self@.entries.len(),
            forall|i: int|
                0 <= i < r@.len() ==> match #[trigger] r@[i] {
                    Ok(value) => self@.plain(self@.entries[i].1) == Some(value@),
                    Err(e) => self@.plain(self@.entries[i].1).is_none()
                        && e is DecompressionError,
                },
    {
        let entries = self.table.iter();
        let mut out: Vec<Result<Vec<u8>, FragmentError>> = Vec::new();
        let mut i: usize = 0;
        while i < entries.len()
            invariant
                0 <= i <= entries@.len(),
                out@.len() == i,
                view_entries(entries@) == self@.entries,
                forall|j: int|
                    0 <= j < i ==> match #[trigger] out@[j] {
                        Ok(value) => self@.plain(self@.entries[j].1) == Some(value@),
                        Err(e) => self@.plain(self@.entries[j].1).is_none()
                            && e is DecompressionError,
                    },
            decreases entries@.len() - i,
        {
            let entry = &entries[i];
            assert(view_entries(entries@)[i as int] == (
                entries@[i as int].0@,
                entries@[i as int].1@,
            ));
            out.push(self.reveal_value(entry.1.as_slice()));
            i += 1;
        }
        out
    }

    /// The entries whose keys lie between `lower` and `upper`, in key order,
    /// their values decompressed; an entry that does not decompress gives an
    /// error in its place.
    pub fn range(&self, lower: KeyBound, upper: KeyBound) -> (r: Vec<
        Result<(Sha256, Vec<u8>), FragmentError>,
    >)
        ensures
            r@.len() == entries_between(self@.entries, lower, upper).len(),
            forall|i: int|
                0 <= i < r@.len() ==> match #[trigger] r@[i] {
                    Ok((key, value)) => key@ == entries_between(self@.entries, lower, upper)[i].0
                        && self@.plain(entries_between(self@.entries, lower, upper)[i].1) == Some(
                        value@,
                    ),
                    Err(e) => self@.plain(
                        entries_between(self@.entries, lower, upper)[i].1,
                    ).is_none() && e is DecompressionError,
                },
    {
        let entries = self.table.range(lower, upper);
        let r = self.reveal_entries(entries);
        proof {
            let within = entries_between(self@.entries, lower, upper);
            assert forall|i: int| 0 <= i < r@.len() implies match #[trigger] r@[i] {
                Ok((key, value)) => key@ == within[i].0 && self@.plain(within[i].1) == Some(
                    value@,
                ),
                Err(e) => self@.plain(within[i].1).is_none() && e is DecompressionError,
            } by {
                assert(view_entries(entries@)[i] == (entries@[i].0@, entries@[i].1@));
            }
        }
        r
    }

    /// The entry with the least key, its value decompressed.
    pub fn first_key_value(&self) -> (r: Result<Option<(&Sha256, Vec<u8>)>, FragmentError>)
        ensures
            match r {
                Ok(Some((key, value))) => self@.entries.len() > 0 && key@
                    == self@.entries.first().0 && self@.plain(self@.entries.first().1) == Some(
                    value@,
                ),
                Ok(None) => self@.entries.len() == 0,
                Err(e) => self@.entries.len() > 0 && self@.plain(
                    self@.entries.first().1,
                ).is_none() && e is DecompressionError,
            },
    {
        match self.table.first_key_value() {
            Some((key, stored)) => {
                match self.reveal_value(stored.as_slice()) {
                    Ok(value) => Ok(Some((key, value))),
                    Err(e) => Err(e),
                }
            },
            None => Ok(None),
        }
    }

    /// The entry with the greatest key, its value decompressed.
    pub fn last_key_value(&self) -> (r: Result<Option<(&Sha256, Vec<u8>)>, FragmentError>)
        ensures
            match r {
                Ok(Some((key, value))) => self@.entries.len() > 0 && key@
                    == self@.entries.last().0 && self@.plain(self@.entries.last().1) == Some(
                    value@,
                ),
                Ok(None) => self@.entries.len() == 0,
                Err(e) => self@.entries.len() > 0 && self@.plain(
                    self@.entries.last().1,
                ).is_none() && e is DecompressionError,
            },
    {
        match self.table.last_key_value() {
            Some((key, stored)) => {
                match self.reveal_value(stored.as_slice()) {
                    Ok(value) => Ok(Some((key, value))),
                    Err(e) => Err(e),
                }
            },
            None => Ok(None),
        }
    }

    /// Takes out the entry with the least key, brings hash, size and date up
    /// to date, and returns the entry with its value decompressed. Where the
    /// stored bytes do not decompress the entry is gone all the same.
    pub fn pop_first(&mut self) -> (r: Result<Option<(Sha256, Vec<u8>)>, FragmentError>)
        ensures
            final(self)@.is_later(
                old(self)@.with_entries(
                    if old(self)@.entries.len() > 0 {
                        old(self)@.entries.drop_first()
                    } else {
                        old(self)@.entries
                    },
                ),
            ),
            final(self)@.consistent(),
            match r {
                Ok(Some((key, value))) => old(self)@.entries.len() > 0 && key@ == old(
                    self,
                )@.entries.first().0 && old(self)@.plain(old(self)@.entries.first().1) == Some(
                    value@,
                ),
                Ok(None) => old(self)@.entries.len() == 0,
                Err(e) => old(self)@.entries.len() > 0 && old(self)@.plain(
                    old(self)@.entries.first().1,
                ).is_none() && e is DecompressionError,
            },
    {
        let taken = self.table.pop_first();
        self.update_hash();
        match taken {
            Some((key, stored)) => {
                match self.reveal_value(stored.as_slice()) {
                    Ok(value) => Ok(Some((key, value))),
                    Err(e) => Err(e),
                }
            },
            None => Ok(None),
        }
    }

    /// Takes out the entry with the greatest key, brings hash, size and date
    /// up to date, and returns the entry with its value decompressed. Where
    /// the stored bytes do not decompress the entry is gone all the same.
    pub fn pop_last(&mut self) -> (r: Result<Option<(Sha256, Vec<u8>)>, FragmentError>)
        ensures
            final(self)@.is_later(
                old(self)@.with_entries(
                    if old(self)@.entries.len() > 0 {
                        old(self)@.entries.drop_last()
                    } else {
                        old(self)@.entries
                    },
                ),
            ),
            final(self)@.consistent(),
            match r {
                Ok(Some((key, value))) => old(self)@.entries.len() > 0 && key@ == old(
                    self,
                )@.entries.last().0 && old(self)@.plain(old(self)@.entries.last().1) == Some(
                    value@,
                ),
                Ok(None) => old(self)@.entries.len() == 0,
                Err(e) => old(self)@.entries.len() > 0 && old(self)@.plain(
                    old(self)@.entries.last().1,
                ).is_none() && e is DecompressionError,
            },
    {
        let taken = self.table.pop_last();
        self.update_hash();
        match taken {
            Some((key, stored)) => {
                match self.reveal_value(stored.as_slice()) {
                    Ok(value) => Ok(Some((key, value))),
                    Err(e) => Err(e),
                }
            },
            None => Ok(None),
        }
    }

    /// Moves every entry of `other` into `self`, as stored; where both hold
    /// a key, the entry of `other` stays. Both fragments have their hash,
    /// size and date brought up to date.
    pub fn append(&mut self, other: &mut Fragment)
        ensures
            final(self)@.map() == old(self)@.map().union_prefer_right(old(other)@.map()),
            strictly_sorted(final(self)@.entries),
            final(self)@.is_later(old(self)@.with_entries(final(self)@.entries)),
            final(self)@.consistent(),
            final(other)@.is_later(old(other)@.with_entries(Seq::empty())),
            final(other)@.consistent(),
    {
        self.table.append(&mut other.table);
        proof {
            self.table.lemma_sorted();
        }
        self.update_hash();
        other.update_hash();
    }

    /// The serialization: that of the table, the 32 bytes of the hash, and
    /// that of the metadata.
    pub fn to_bytes(&self) -> (r: Result<Vec<u8>, FragmentError>)
        ensures
            r matches Ok(bytes) && bytes@ == self@.to_bytes(),
    {
        let mut bytes = self.table.to_bytes();
        push_bytes(&mut bytes, self.hash.as_bytes().as_slice());
        let metadata = self.metadata.to_bytes();
        push_bytes(&mut bytes, metadata.as_slice());
        Ok(bytes)
    }
}

} // verus!
