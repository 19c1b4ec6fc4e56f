//! A bounded in-memory cache of fragments, keyed by the hash of their
//! serialization.

use crate::backup::Backup;
use crate::clock::MonotonicClock;
use crate::clock::Timestamp;
use crate::fragment::Fragment;
use crate::fragment::FragmentView;
use crate::hash::digest_of;
use crate::hash::Sha256;
use vstd::prelude::*;

verus! {

/// What can go wrong in the cache.
#[derive(Debug)]
pub enum CacheError {
    /// A fragment could not be keyed, or room could not be made for it.
    InsertionError(String),
    /// The cache could not be filled from a backup.
    BackupLoadError(String),
}

impl CacheError {
    /// The error in words: what failed, and the text that the error carries.
    pub open spec fn spec_message(&self) -> Seq<char> {
        match *self {
            CacheError::InsertionError(t) => "Failed to insert fragment: "@ + t@,
            CacheError::BackupLoadError(t) => "Failed to load from backup: "@ + t@,
        }
    }

    /// The error in words: what failed, and the text that the error carries.
    pub fn message(&self) -> (text: String)
        ensures
            text@ == self.spec_message(),
    {
        match self {
            CacheError::InsertionError(t) => "Failed to insert fragment: ".to_string().concat(
                t.as_str(),
            ),
            CacheError::BackupLoadError(t) => "Failed to load from backup: ".to_string().concat(
                t.as_str(),
            ),
        }
    }
}

/// Which entry leaves a full cache.
#[derive(Clone, Copy, Debug, PartialEq, Eq, Structural)]
pub enum EvictionStrategy {
    /// The entry that was used longest ago.
    LeastRecentlyUsed,
    /// The entry that came first.
    FirstInFirstOut,
}

/// How a cache is run.
#[derive(Clone, Copy, Debug, PartialEq, Eq, Structural)]
pub struct CacheConfig {
    /// The greatest number of entries. It counts entries, not bytes.
    pub max_size: usize,
    /// How long an entry stays after its last use.
    pub ttl: Timestamp,
    /// Which entry leaves a full cache.
    pub eviction_strategy: EvictionStrategy,
}

impl Default for CacheConfig {
    /// 1 073 741 824 entries, five minutes, least recently used.
    fn default() -> (config: CacheConfig)
        ensures
            config == (CacheConfig {
                max_size: 0x4000_0000,
                ttl: Timestamp { secs: 300, nanos: 0 },
                eviction_strategy: EvictionStrategy::LeastRecentlyUsed,
            }),
    {
        CacheConfig {
            max_size: 0x4000_0000,
            ttl: Timestamp { secs: 300, nanos: 0 },
            eviction_strategy: EvictionStrategy::LeastRecentlyUsed,
        }
    }
}

/// A cached fragment and the time of its last use.
#[derive(Debug)]
pub struct CacheEntry {
    fragment: Fragment,
    last_accessed: Timestamp,
}

/// A cache entry as plain values.
pub struct CacheEntryView {
    pub fragment: FragmentView,
    pub last_accessed: Timestamp,
}

impl View for CacheEntry {
    type V = CacheEntryView;

    closed spec fn view(&self) -> CacheEntryView {
        CacheEntryView { fragment: self.fragment@, last_accessed: self.last_accessed }
    }
}

/// Whether no key occurs twice.
pub open spec fn distinct_keys(entries: Seq<(Seq<u8>, CacheEntryView)>) -> bool {
    forall|i: int, j: int|
        #![trigger entries[i], entries[j]]
        0 <= i < j < entries.len() ==> entries[i].0 != entries[j].0
}

/// The place of the entry under `key`, or the number of entries where there
/// is none.
pub open spec fn slot_of(entries: Seq<(Seq<u8>, CacheEntryView)>, key: Seq<u8>) -> int
    decreases entries.len(),
{
    if entries.len() == 0 {
        0
    } else if entries[0].0 == key {
        0
    } else {
        1 + slot_of(entries.drop_first(), key)
    }
}

/// The place of the entry that was used longest ago, the first of them
/// where there are several.
pub open spec fn stalest(entries: Seq<(Seq<u8>, CacheEntryView)>) -> int
    decreases entries.len(),
{
    if entries.len() <= 1 {
        0
    } else {
        let rest = stalest(entries.drop_last());
        if entries.last().1.last_accessed.total_nanos()
            < entries[rest].1.last_accessed.total_nanos() {
            entries.len() - 1
        } else {
            rest
        }
    }
}

/// The entries with `entry` under `key`: in the place of the entry that was
/// there, or at the end.
pub open spec fn stored(
    entries: Seq<(Seq<u8>, CacheEntryView)>,
    key: Seq<u8>,
    entry: CacheEntryView,
) -> Seq<(Seq<u8>, CacheEntryView)> {
    let at = slot_of(entries, key);
    if at < entries.len() {
        entries.update(at, (key, entry))
    } else {
        entries.push((key, entry))
    }
}

/// A cache as plain values: the entries in the order in which their keys
/// came, and the configuration.
pub struct CacheView {
    pub entries: Seq<(Seq<u8>, CacheEntryView)>,
    pub config: CacheConfig,
}

impl CacheView {
    /// Whether an entry stands under `key`.
    pub open spec fn contains_key(self, key: Seq<u8>) -> bool {
        slot_of(self.entries, key) < self.entries.len()
    }

    /// The entry under `key`.
    pub open spec fn entry(self, key: Seq<u8>) -> CacheEntryView {
        self.entries[slot_of(self.entries, key)].1
    }

    /// The place of the entry that leaves when room is needed.
    pub open spec fn victim(self) -> int {
        match self.config.eviction_strategy {
            EvictionStrategy::LeastRecentlyUsed => stalest(self.entries),
            EvictionStrategy::FirstInFirstOut => 0,
        }
    }

    /// Whether the cache is full.
    pub open spec fn full(self) -> bool {
        self.entries.len() >= self.config.max_size
    }

    /// The cache after `key` was read at `now`: the entry under it, if
    /// there is one, was last used at `now`.
    pub open spec fn read(self, key: Seq<u8>, now: Timestamp) -> CacheView {
        if self.contains_key(key) {
            CacheView {
                entries: self.entries.update(
                    slot_of(self.entries, key),
                    (key, CacheEntryView { last_accessed: now, ..self.entry(key) }),
                ),
                ..self
            }
        } else {
            self
        }
    }

    /// The cache after `fragment` was inserted at `now`: where the cache was
    /// full one entry has left first; the fragment stands under the hash of
    /// its serialization. `None` where the cache was full and empty at once,
    /// so that nothing could leave.
    pub open spec fn inserted(self, fragment: FragmentView, now: Timestamp) -> Option<CacheView> {
        let key = digest_of(fragment.to_bytes());
        let entry = CacheEntryView { fragment, last_accessed: now };
        if self.full() {
            if self.entries.len() == 0 {
                None
            } else {
                Some(
                    CacheView {
                        entries: stored(self.entries.remove(self.victim()), key, entry),
                        ..self
                    },
                )
            }
        } else {
            Some(CacheView { entries: stored(self.entries, key, entry), ..self })
        }
    }

    /// The cache without the entry under `key`.
    pub open spec fn removed(self, key: Seq<u8>) -> CacheView {
        if self.contains_key(key) {
            CacheView { entries: self.entries.remove(slot_of(self.entries, key)), ..self }
        } else {
            self
        }
    }

    /// The cache without the entries that have expired at `now`.
    pub open spec fn swept(self, now: Timestamp) -> CacheView {
        CacheView {
            entries: self.entries.filter(
                |e: (Seq<u8>, CacheEntryView)| !e.1.last_accessed.expired(now, self.config.ttl),
            ),
            ..self
        }
    }
}

/// Whether `after` is `before` with `fragment` inserted if it could be: a
/// cache that is full and empty at once stays as it is.
pub open spec fn installed(before: CacheView, after: CacheView, fragment: FragmentView) -> bool {
    if before.full() && before.entries.len() == 0 {
        after == before
    } else {
        &&& after.contains_key(digest_of(fragment.to_bytes()))
        &&& after.entry(digest_of(fragment.to_bytes())).fragment == fragment
        &&& before.inserted(
            fragment,
            after.entry(digest_of(fragment.to_bytes())).last_accessed,
        ) == Some(after)
    }
}

/// The place that `slot_of` gives holds the key, and no place before it
/// does.
pub proof fn lemma_slot_of(entries: Seq<(Seq<u8>, CacheEntryView)>, key: Seq<u8>)
    ensures
        0 <= slot_of(entries, key) <= entries.len(),
        slot_of(entries, key) < entries.len() ==> entries[slot_of(entries, key)].0 == key,
        forall|i: int| 0 <= i < slot_of(entries, key) ==> (#[trigger] entries[i]).0 != key,
    decreases entries.len(),
{
    if entries.len() > 0 && entries[0].0 != key {
        let rest = entries.drop_first();
        lemma_slot_of(rest, key);
        assert forall|i: int| 0 <= i < slot_of(entries, key) implies (#[trigger] entries[i]).0
            != key by {
            if i > 0 {
                assert(entries[i] == rest[i - 1]);
            }
        }
    }
}

/// A place that holds the key, with no place before it that does, is the
/// place that `slot_of` gives.
pub proof fn lemma_slot_is(entries: Seq<(Seq<u8>, CacheEntryView)>, key: Seq<u8>, at: int)
    requires
        0 <= at <= entries.len(),
        at < entries.len() ==> entries[at].0 == key,
        forall|i: int| 0 <= i < at ==> (#[trigger] entries[i]).0 != key,
    ensures
        slot_of(entries, key) == at,
{
    lemma_slot_of(entries, key);
    let s = slot_of(entries, key);
    if s < at {
        assert(entries[s].0 != key);
    }
}

/// The place that `stalest` gives holds an entry that none was used before,
/// and the first such.
pub proof fn lemma_stalest(entries: Seq<(Seq<u8>, CacheEntryView)>)
    requires
        entries.len() > 0,
    ensures
        0 <= stalest(entries) < entries.len(),
        forall|i: int|
            0 <= i < entries.len() ==> entries[stalest(entries)].1.last_accessed.total_nanos() <= (
            #[trigger] entries[i]).1.last_accessed.total_nanos(),
        forall|i: int|
            0 <= i < stalest(entries) ==> entries[stalest(entries)].1.last_accessed.total_nanos()
                < (#[trigger] entries[i]).1.last_accessed.total_nanos(),
    decreases entries.len(),
{
    if entries.len() > 1 {
        let init = entries.drop_last();
        lemma_stalest(init);
        let rest = stalest(init);
        assert(init[rest] == entries[rest]);
        assert forall|i: int| 0 <= i < entries.len() implies entries[stalest(
            entries,
        )].1.last_accessed.total_nanos() <= (#[trigger] entries[i]).1.last_accessed.total_nanos() by {
            if i < entries.len() - 1 {
                assert(init[i] == entries[i]);
            }
        }
        assert forall|i: int| 0 <= i < stalest(entries) implies entries[stalest(
            entries,
        )].1.last_accessed.total_nanos() < (#[trigger] entries[i]).1.last_accessed.total_nanos() by {
            assert(init[i] == entries[i]);
        }
    }
}

/// Storing an entry keeps the keys distinct.
pub proof fn lemma_stored_distinct(
    entries: Seq<(Seq<u8>, CacheEntryView)>,
    key: Seq<u8>,
    entry: CacheEntryView,
)
    requires
        distinct_keys(entries),
    ensures
        distinct_keys(stored(entries, key, entry)),
        slot_of(stored(entries, key, entry), key) == slot_of(entries, key),
        slot_of(stored(entries, key, entry), key) < stored(entries, key, entry).len(),
        stored(entries, key, entry)[slot_of(entries, key)] == (key, entry),
{
    lemma_slot_of(entries, key);
    let at = slot_of(entries, key);
    let after = stored(entries, key, entry);
    assert forall|i: int, j: int| 0 <= i < j < after.len() implies (#[trigger] after[i]).0 != (
    #[trigger] after[j]).0 by {
        if at < entries.len() {
            assert(after[i].0 == entries[i].0);
            assert(after[j].0 == entries[j].0);
        } else if j < entries.len() {
            assert(after[i] == entries[i]);
            assert(after[j] == entries[j]);
        } else {
            assert(after[i] == entries[i]);
        }
    }
    assert forall|i: int| 0 <= i < at implies (#[trigger] after[i]).0 != key by {
        assert(after[i].0 == entries[i].0);
    }
    lemma_slot_is(after, key, at);
}

/// Taking an entry out keeps the keys distinct.
pub proof fn lemma_remove_distinct(entries: Seq<(Seq<u8>, CacheEntryView)>, at: int)
    requires
        distinct_keys(entries),
        0 <= at < entries.len(),
    ensures
        distinct_keys(entries.remove(at)),
        slot_of(entries.remove(at), entries[at].0) == entries.remove(at).len(),
{
    let after = entries.remove(at);
    assert forall|i: int, j: int| 0 <= i < j < after.len() implies (#[trigger] after[i]).0 != (
    #[trigger] after[j]).0 by {
        let i0 = if i < at { i } else { i + 1 };
        let j0 = if j < at { j } else { j + 1 };
        assert(after[i] == entries[i0]);
        assert(after[j] == entries[j0]);
    }
    assert forall|i: int| 0 <= i < after.len() implies (#[trigger] after[i]).0 != entries[at].0 by {
        let i0 = if i < at { i } else { i + 1 };
        assert(after[i] == entries[i0]);
    }
    lemma_slot_is(after, entries[at].0, after.len() as int);
}

/// The views of keyed entries.
pub open spec fn view_slots(slots: Seq<(Sha256, CacheEntry)>) -> Seq<(Seq<u8>, CacheEntryView)> {
    slots.map_values(|s: (Sha256, CacheEntry)| (s.0@, s.1@))
}

/// A bounded store of fragments with eviction and expiry.
///
/// The entries are kept in the order in which their keys came, each key
/// once.
pub struct CacheManager {
    slots: Vec<(Sha256, CacheEntry)>,
    config: CacheConfig,
    clock: MonotonicClock,
}

impl View for CacheManager {
    type V = CacheView;

    closed spec fn view(&self) -> CacheView {
        CacheView { entries: view_slots(self.slots@), config: self.config }
    }
}

impl CacheManager {
    /// No key occurs twice: this holds of every cache.
    #[verifier::type_invariant]
    pub closed spec fn wf(&self) -> bool {
        distinct_keys(self@.entries)
    }

    /// An empty cache whose clock starts now.
    pub fn new(config: CacheConfig) -> (cache: CacheManager)
        ensures
            cache@ == (CacheView { entries: Seq::empty(), config }),
    {
        let cache = CacheManager { slots: Vec::new(), config, clock: MonotonicClock::start() };
        assert(cache@.entries =~= Seq::empty());
        cache
    }

    /// The time on the cache's clock.
    pub fn now(&self) -> (now: Timestamp)
        ensures
            now.normal(),
    {
        self.clock.now()
    }

    /// The place of the entry under `key`, or the number of entries.
    fn position(&self, key: &Sha256) -> (at: usize)
        ensures
            at == slot_of(self@.entries, key@),
            at <= self.slots@.len(),
            at < self.slots@.len() ==> self.slots@[at as int].0@ == key@,
    {
        let ghost entries = self@.entries;
        let mut i: usize = 0;
        while i < self.slots.len()
            invariant
                0 <= i <= self.slots@.len(),
                entries == self@.entries,
                entries.len() == self.slots@.len(),
                forall|j: int| 0 <= j < i ==> (#[trigger] entries[j]).0 != key@,
            decreases self.slots@.len() - i,
        {
            assert(entries[i as int] == (self.slots@[i as int].0@, self.slots@[i as int].1@));
            if self.slots[i].0.same(key) {
                proof {
                    lemma_slot_is(entries, key@, i as int);
                }
                return i;
            }
            i += 1;
        }
        proof {
            lemma_slot_is(entries, key@, i as int);
        }
        i
    }

    /// The fragment under `key`, without counting as a use.
    pub fn peek(&self, key: &Sha256) -> (fragment: Option<&Fragment>)
        ensures
            match fragment {
                Some(f) => self@.contains_key(key@) && f@ == self@.entry(key@).fragment,
                None => !self@.contains_key(key@),
            },
    {
        let at = self.position(key);
        if at < self.slots.len() {
            assert(self@.entries[at as int] == (
                self.slots@[at as int].0@,
                self.slots@[at as int].1@,
            ));
            Some(&self.slots[at].1.fragment)
        } else {
            None
        }
    }

    /// Marks the entry under `key` as used at `now`, and says whether there
    /// is one.
    pub fn touch_at(&mut self, key: &Sha256, now: Timestamp) -> (hit: bool)
        ensures
            final(self)@ == old(self)@.read(key@, now),
            hit == old(self)@.contains_key(key@),
            hit == final(self)@.contains_key(key@),
            hit ==> final(self)@.entry(key@) == (CacheEntryView {
                last_accessed: now,
                ..old(self)@.entry(key@)
            }),
    {
        proof {
            use_type_invariant(&*self);
        }
        let ghost before = self@.entries;
        let at = self.position(key);
        if at < self.slots.len() {
            let mut slots: Vec<(Sha256, CacheEntry)> = Vec::new();
            std::mem::swap(&mut slots, &mut self.slots);
            assert(view_slots(self.slots@) =~= Seq::empty());
            let (held, entry) = slots.remove(at);
            let renewed = CacheEntry { fragment: entry.fragment, last_accessed: now };
            slots.insert(at, (held, renewed));
            proof {
                assert(before[at as int] == (held@, entry@));
                assert(view_slots(slots@) =~= before.update(at as int, (key@, renewed@)));
                lemma_stored_distinct(before, key@, renewed@);
            }
            self.slots = slots;
            true
        } else {
            false
        }
    }

    /// The fragment under `key`, which counts as used at `now`.
    pub fn get_at(&mut self, key: &Sha256, now: Timestamp) -> (fragment: Option<&Fragment>)
        ensures
            final(self)@ == old(self)@.read(key@, now),
            match fragment {
                Some(f) => old(self)@.contains_key(key@) && f@ == old(self)@.entry(
                    key@,
                ).fragment,
                None => !old(self)@.contains_key(key@),
            },
    {
        if self.touch_at(key, now) {
            self.peek(key)
        } else {
            None
        }
    }

    /// The fragment under `key`, which counts as used now.
    pub fn get(&mut self, key: &Sha256) -> (fragment: Option<&Fragment>)
        ensures
            final(self)@ == old(self)@.read(
                key@,
                final(self)@.entry(key@).last_accessed,
            ),
            match fragment {
                Some(f) => old(self)@.contains_key(key@) && f@ == old(self)@.entry(
                    key@,
                ).fragment,
                None => !old(self)@.contains_key(key@),
            },
    {
        let now = self.clock.now();
        proof {
            use_type_invariant(&*self);
            if self@.contains_key(key@) {
                lemma_stored_distinct(
                    self@.entries,
                    key@,
                    CacheEntryView { last_accessed: now, ..self@.entry(key@) },
                );
            }
        }
        self.get_at(key, now)
    }

    /// Takes out the entry that the strategy picks. Fails where the cache
    /// is empty.
    fn evict(&mut self) -> (r: Result<(), CacheError>)
        ensures
            match r {
                Ok(_) => old(self)@.entries.len() > 0 && final(self)@ == (CacheView {
                    entries: old(self)@.entries.remove(old(self)@.victim()),
                    ..old(self)@
                }),
                Err(e) => old(self)@.entries.len() == 0 && final(self)@ == old(self)@
                    && e is InsertionError,
            },
    {
        match self.config.eviction_strategy {
            EvictionStrategy::LeastRecentlyUsed => self.evict_lru(),
            EvictionStrategy::FirstInFirstOut => self.evict_fifo(),
        }
    }

    /// Takes out the entry that was used longest ago.
    fn evict_lru(&mut self) -> (r: Result<(), CacheError>)
        ensures
            match r {
                Ok(_) => old(self)@.entries.len() > 0 && final(self)@ == (CacheView {
                    entries: old(self)@.entries.remove(stalest(old(self)@.entries)),
                    ..old(self)@
                }),
                Err(e) => old(self)@.entries.len() == 0 && final(self)@ == old(self)@
                    && e is InsertionError,
            },
    {
        proof {
            use_type_invariant(&*self);
        }
        let ghost before = self@.entries;
        if self.slots.len() == 0 {
            return Err(CacheError::InsertionError("Failed to evict LRU item".to_string()));
        }
        let mut oldest: usize = 0;
        let mut i: usize = 1;
        assert(before.take(1).drop_last() =~= Seq::empty());
        while i < self.slots.len()
            invariant
                1 <= i <= self.slots@.len(),
                before == self@.entries,
                before.len() == self.slots@.len(),
                0 <= oldest < i,
                oldest == stalest(before.take(i as int)),
            decreases self.slots@.len() - i,
        {
            proof {
                assert(before[i as int] == (self.slots@[i as int].0@, self.slots@[i as int].1@));
                assert(before[oldest as int] == (
                    self.slots@[oldest as int].0@,
                    self.slots@[oldest as int].1@,
                ));
                assert(before.take(i + 1).drop_last() =~= before.take(i as int));
            }
            if self.slots[i].1.last_accessed.is_before(&self.slots[oldest].1.last_accessed) {
                oldest = i;
            }
            i += 1;
        }
        assert(before.take(i as int) =~= before);
        let mut slots: Vec<(Sha256, CacheEntry)> = Vec::new();
        std::mem::swap(&mut slots, &mut self.slots);
        assert(view_slots(self.slots@) =~= Seq::empty());
        let _ = slots.remove(oldest);
        proof {
            assert(view_slots(slots@) =~= before.remove(oldest as int));
            lemma_remove_distinct(before, oldest as int);
        }
        self.slots = slots;
        Ok(())
    }

    /// Takes out the entry that came first.
    fn evict_fifo(&mut self) -> (r: Result<(), CacheError>)
        ensures
            match r {
                Ok(_) => old(self)@.entries.len() > 0 && final(self)@ == (CacheView {
                    entries: old(self)@.entries.remove(0),
                    ..old(self)@
                }),
                Err(e) => old(self)@.entries.len() == 0 && final(self)@ == old(self)@
                    && e is InsertionError,
            },
    {
        proof {
            use_type_invariant(&*self);
        }
        let ghost before = self@.entries;
        if self.slots.len() == 0 {
            return Err(CacheError::InsertionError("Failed to evict FIFO item".to_string()));
        }
        let mut slots: Vec<(Sha256, CacheEntry)> = Vec::new();
        std::mem::swap(&mut slots, &mut self.slots);
        assert(view_slots(self.slots@) =~= Seq::empty());
        let _ = slots.remove(0);
        proof {
            assert(view_slots(slots@) =~= before.remove(0));
            lemma_remove_distinct(before, 0);
        }
        self.slots = slots;
        Ok(())
    }

    /// Inserts `fragment` under the hash of its serialization, as used at
    /// `now`. Where the cache is full one entry leaves first; where nothing
    /// can leave the insertion fails and the cache stays as it is.
    pub fn insert_at(&mut self, fragment: Fragment, now: Timestamp) -> (r: Result<(), CacheError>)
        ensures
            match r {
                Ok(_) => old(self)@.inserted(fragment@, now) == Some(final(self)@),
                Err(e) => old(self)@.inserted(fragment@, now).is_none() && final(self)@ == old(
                    self,
                )@ && e is InsertionError,
            },
    {
        let key = match fragment.to_bytes() {
            Ok(bytes) => Sha256::new(bytes.as_slice()),
            Err(e) => {
                return Err(CacheError::InsertionError(e.message()));
            },
        };
        let entry = CacheEntry { fragment, last_accessed: now };
        if self.slots.len() >= self.config.max_size {
            match self.evict() {
                Ok(_) => {},
                Err(e) => {
                    return Err(e);
                },
            }
        }
        proof {
            use_type_invariant(&*self);
        }
        let ghost before = self@.entries;
        let at = self.position(&key);
        let mut slots: Vec<(Sha256, CacheEntry)> = Vec::new();
        std::mem::swap(&mut slots, &mut self.slots);
        assert(view_slots(self.slots@) =~= Seq::empty());
        if at < slots.len() {
            let _ = slots.remove(at);
            slots.insert(at, (key, entry));
            assert(view_slots(slots@) =~= before.update(at as int, (key@, entry@)));
        } else {
            slots.push((key, entry));
            assert(view_slots(slots@) =~= before.push((key@, entry@)));
        }
        proof {
            lemma_stored_distinct(before, key@, entry@);
        }
        self.slots = slots;
        Ok(())
    }

    /// Inserts `fragment` under the hash of its serialization, as used now.
    pub fn insert(&mut self, fragment: Fragment) -> (r: Result<(), CacheError>)
        ensures
            match r {
                Ok(_) => {
                    &&& !(old(self)@.full() && old(self)@.entries.len() == 0)
                    &&& final(self)@.contains_key(digest_of(fragment@.to_bytes()))
                    &&& final(self)@.entry(digest_of(fragment@.to_bytes())).fragment == fragment@
                    &&& old(self)@.inserted(
                        fragment@,
                        final(self)@.entry(digest_of(fragment@.to_bytes())).last_accessed,
                    ) == Some(final(self)@)
                },
                Err(e) => (old(self)@.full() && old(self)@.entries.len() == 0) && final(self)@
                    == old(self)@ && e is InsertionError,
            },
    {
        let now = self.clock.now();
        let ghost key = digest_of(fragment@.to_bytes());
        let ghost entry = CacheEntryView { fragment: fragment@, last_accessed: now };
        proof {
            use_type_invariant(&*self);
            if self@.full() {
                if self@.entries.len() > 0 {
                    match self@.config.eviction_strategy {
                        EvictionStrategy::LeastRecentlyUsed => {
                            lemma_stalest(self@.entries);
                        },
                        EvictionStrategy::FirstInFirstOut => {},
                    }
                    lemma_remove_distinct(self@.entries, self@.victim());
                    lemma_stored_distinct(self@.entries.remove(self@.victim()), key, entry);
                }
            } else {
                lemma_stored_distinct(self@.entries, key, entry);
            }
        }
        self.insert_at(fragment, now)
    }

    /// Inserts `fragment` if it can be: a failure to make room is passed
    /// over.
    pub fn install(&mut self, fragment: Fragment)
        ensures
            installed(old(self)@, final(self)@, fragment@),
            final(self)@.config == old(self)@.config,
    {
        let _ = self.insert(fragment);
    }

    /// Inserts a copy of the newest fragment of `backup`.
    pub fn load_from_backup(&mut self, backup: &Backup) -> (r: Result<(), CacheError>)
        ensures
            installed(old(self)@, final(self)@, backup@.latest()),
            r is Err <==> old(self)@.full() && old(self)@.entries.len() == 0,
            r matches Err(e) ==> e is InsertionError,
    {
        match backup.get_latest_version() {
            Some(fragment) => self.insert(fragment.clone()),
            None => Ok(()),
        }
    }

    /// Takes the entry under `key` out and returns its fragment.
    pub fn remove(&mut self, key: &Sha256) -> (fragment: Option<Fragment>)
        ensures
            final(self)@ == old(self)@.removed(key@),
            !final(self)@.contains_key(key@),
            match fragment {
                Some(f) => old(self)@.contains_key(key@) && f@ == old(self)@.entry(
                    key@,
                ).fragment,
                None => !old(self)@.contains_key(key@),
            },
    {
        proof {
            use_type_invariant(&*self);
        }
        let ghost before = self@.entries;
        let at = self.position(key);
        if at < self.slots.len() {
            let mut slots: Vec<(Sha256, CacheEntry)> = Vec::new();
            std::mem::swap(&mut slots, &mut self.slots);
            assert(view_slots(self.slots@) =~= Seq::empty());
            let (_, entry) = slots.remove(at);
            proof {
                assert(before[at as int].1 == entry@);
                assert(view_slots(slots@) =~= before.remove(at as int));
                lemma_remove_distinct(before, at as int);
            }
            self.slots = slots;
            Some(entry.fragment)
        } else {
            None
        }
    }

    /// Takes every entry out.
    pub fn clear(&mut self)
        ensures
            final(self)@ == (CacheView { entries: Seq::empty(), ..old(self)@ }),
    {
        self.slots = Vec::new();
        assert(view_slots(self.slots@) =~= Seq::empty());
    }

    /// Takes out the entries that have expired at `now`: those whose last
    /// use is at least the time to live ago.
    pub fn evict_expired_at(&mut self, now: Timestamp)
        ensures
            final(self)@ == old(self)@.swept(now),
    {
        proof {
            use_type_invariant(&*self);
        }
        let ghost before = self@.entries;
        let ghost ttl = self.config.ttl;
        let ghost keep = |e: (Seq<u8>, CacheEntryView)| !e.1.last_accessed.expired(now, ttl);
        let mut slots: Vec<(Sha256, CacheEntry)> = Vec::new();
        std::mem::swap(&mut slots, &mut self.slots);
        assert(view_slots(self.slots@) =~= Seq::empty());
        let mut pending = reversed(slots);
        let mut kept: Vec<(Sha256, CacheEntry)> = Vec::new();
        let ghost n = before.len();
        proof {
            reveal(Seq::filter);
            assert(view_slots(pending@) =~= before.reverse());
            assert(before.take(0) =~= Seq::empty());
        }
        while pending.len() > 0
            invariant
                pending@.len() <= n,
                n == before.len(),
                ttl == self.config.ttl,
                keep == |e: (Seq<u8>, CacheEntryView)| !e.1.last_accessed.expired(now, ttl),
                forall|j: int|
                    0 <= j < pending@.len() ==> (#[trigger] view_slots(pending@)[j]) == before[n
                        - 1 - j],
                view_slots(kept@) == before.take(n - pending@.len()).filter(keep),
            decreases pending@.len(),
        {
            let ghost i = n - pending@.len();
            let ghost top = view_slots(pending@)[pending@.len() - 1];
            let ghost earlier = view_slots(kept@);
            let ghost prior = view_slots(pending@);
            let slot = pending.pop().unwrap();
            proof {
                assert(top == (slot.0@, slot.1@));
                assert(top == before[i]);
                assert forall|j: int| 0 <= j < pending@.len() implies (#[trigger] view_slots(
                    pending@,
                )[j]) == before[n - 1 - j] by {
                    assert(view_slots(pending@)[j] == prior[j]);
                }
                reveal(Seq::filter);
                assert(before.take(i + 1).drop_last() =~= before.take(i));
                assert(before.take(i + 1).last() == before[i]);
            }
            if !slot.1.last_accessed.expired_at(&now, &self.config.ttl) {
                kept.push(slot);
                assert(view_slots(kept@) =~= earlier.push(top));
            }
        }
        proof {
            assert(before.take(n as int) =~= before);
            lemma_filter_distinct(before, keep);
        }
        self.slots = kept;
    }

    /// Takes out the entries that have expired by now: the cache is swept
    /// at the reading of its clock, whatever that is. Every entry that stays
    /// was there before.
    pub fn evict_expired(&mut self)
        ensures
            exists|now: Timestamp| now.normal() && final(self)@ == #[trigger] old(self)@.swept(now),
            final(self)@.config == old(self)@.config,
            final(self)@.entries.len() <= old(self)@.entries.len(),
            forall|i: int|
                0 <= i < final(self)@.entries.len() ==> old(self)@.entries.contains(
                    #[trigger] final(self)@.entries[i],
                ),
    {
        let now = self.clock.now();
        let ghost before = self@.entries;
        let ghost ttl = self@.config.ttl;
        let ghost keep = |e: (Seq<u8>, CacheEntryView)| !e.1.last_accessed.expired(now, ttl);
        self.evict_expired_at(now);
        proof {
            let after = self@.entries;
            assert(after == before.filter(keep));
            assert(now.normal() && self@ == old(self)@.swept(now));
            before.lemma_filter_len(keep);
            assert forall|i: int| 0 <= i < after.len() implies before.contains(
                #[trigger] after[i],
            ) by {
                assert(after.contains(after[i]));
                before.lemma_filter_contains_rev(keep, after[i]);
            }
        }
    }

    /// The number of entries.
    pub fn get_size(&self) -> (n: usize)
        ensures
            n == self@.entries.len(),
    {
        self.slots.len()
    }

    /// Whether the cache has no entry.
    pub fn is_empty(&self) -> (r: bool)
        ensures
            r == (self@.entries.len() == 0),
    {
        self.slots.len() == 0
    }

    /// Whether an entry stands under `key`.
    pub fn contains_key(&self, key: &Sha256) -> (r: bool)
        ensures
            r == self@.contains_key(key@),
    {
        self.position(key) < self.slots.len()
    }

    /// Replaces the configuration. The entries stay, also where they are
    /// more than the new bound: the bound counts from the next insertion.
    pub fn update_config(&mut self, config: CacheConfig)
        ensures
            final(self)@ == (CacheView { config, ..old(self)@ }),
    {
        proof {
            use_type_invariant(&*self);
        }
        self.config = config;
    }
}

/// The entries in the opposite order.
fn reversed(slots: Vec<(Sha256, CacheEntry)>) -> (r: Vec<(Sha256, CacheEntry)>)
    ensures
        r@ == slots@.reverse(),
{
    let mut source = slots;
    let mut r: Vec<(Sha256, CacheEntry)> = Vec::new();
    let ghost all = source@;
    while source.len() > 0
        invariant
            source@.len() <= all.len(),
            source@ == all.take(source@.len() as int),
            r@ == all.skip(source@.len() as int).reverse(),
        decreases source@.len(),
    {
        let ghost m = source@.len() - 1;
        let slot = source.pop().unwrap();
        r.push(slot);
        proof {
            assert(source@ =~= all.take(m));
            assert(r@ =~= all.skip(m).reverse());
        }
    }
    proof {
        assert(all.skip(0) =~= all);
    }
    r
}

/// Filtering keeps the keys distinct.
proof fn lemma_filter_distinct(
    entries: Seq<(Seq<u8>, CacheEntryView)>,
    keep: spec_fn((Seq<u8>, CacheEntryView)) -> bool,
)
    requires
        distinct_keys(entries),
    ensures
        distinct_keys(entries.filter(keep)),
    decreases entries.len(),
{
    reveal(Seq::filter);
    if entries.len() > 0 {
        let init = entries.drop_last();
        lemma_filter_distinct(init, keep);
        let kept = init.filter(keep);
        let all = entries.filter(keep);
        if keep(entries.last()) {
            assert(all =~= kept.push(entries.last()));
            assert forall|i: int, j: int| 0 <= i < j < all.len() implies (#[trigger] all[i]).0 != (
            #[trigger] all[j]).0 by {
                if j == all.len() - 1 {
                    assert(kept.contains(kept[i]));
                    init.lemma_filter_contains_rev(keep, kept[i]);
                    assert(init.contains(kept[i]));
                    let k = choose|k: int| 0 <= k < init.len() && init[k] == kept[i];
                    assert(entries[k] == init[k]);
                    assert(entries[k].0 != entries[entries.len() - 1].0);
                } else {
                    assert(kept[i].0 != kept[j].0);
                }
            }
        } else {
            assert(all =~= kept);
        }
    }
}

} // verus!
