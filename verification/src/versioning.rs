//! The version log: a linear history of fragments with increasing version
//! numbers and bounded retention.

use crate::clock::wall_clock_now;
use crate::fragment::Fragment;
use crate::fragment::FragmentView;
use vstd::prelude::*;

verus! {

/// One snapshot in the history.
#[derive(Debug)]
pub struct Version {
    /// When the version was made, in seconds since the Unix epoch.
    pub creation_date: u64,
    /// The version's number.
    pub version: u64,
    /// The snapshot.
    pub fragment: Fragment,
}

/// A version as plain values.
pub struct VersionView {
    pub creation_date: u64,
    pub version: u64,
    pub fragment: FragmentView,
}

impl View for Version {
    type V = VersionView;

    open spec fn view(&self) -> VersionView {
        VersionView {
            creation_date: self.creation_date,
            version: self.version,
            fragment: self.fragment@,
        }
    }
}

impl Clone for Version {
    fn clone(&self) -> (copy: Version)
        ensures
            copy@ == self@,
    {
        Version {
            creation_date: self.creation_date,
            version: self.version,
            fragment: self.fragment.clone(),
        }
    }
}

impl Version {
    /// The first version of a history that starts with `fragment`, made now.
    pub fn new(fragment: Fragment) -> (version: Version)
        ensures
            version@.version == 1,
            version@.fragment == fragment@,
    {
        Version { creation_date: wall_clock_now().secs, version: 1, fragment }
    }

    /// Moves on to the next number, made now.
    pub fn increment(&mut self)
        requires
            old(self).version < u64::MAX,
        ensures
            final(self)@.version == old(self)@.version + 1,
            final(self)@.fragment == old(self)@.fragment,
    {
        self.version = self.version + 1;
        self.creation_date = wall_clock_now().secs;
    }
}

/// A version log as plain values: the versions, oldest first, and the bound
/// on their number.
pub struct VersionControlView {
    pub versions: Seq<VersionView>,
    pub max_versions: Option<usize>,
}

/// Whether the version numbers strictly increase.
pub open spec fn increasing(versions: Seq<VersionView>) -> bool {
    forall|i: int, j: int|
        #![trigger versions[i], versions[j]]
        0 <= i < j < versions.len() ==> versions[i].version < versions[j].version
}

/// The greatest number of versions that a log may hold: the bound that was
/// set, or else the greatest number that the machine can count.
pub open spec fn capacity(max_versions: Option<usize>) -> usize {
    match max_versions {
        Some(m) => m,
        None => usize::MAX,
    }
}

/// Whether a retention bound admits `n` versions.
pub open spec fn admits(max_versions: Option<usize>, n: nat) -> bool {
    n <= capacity(max_versions)
}

/// The newest versions of a history, as many as the bound admits: the
/// oldest are dropped.
pub open spec fn trimmed(versions: Seq<VersionView>, max_versions: Option<usize>) -> Seq<
    VersionView,
> {
    if versions.len() > capacity(max_versions) {
        versions.skip(versions.len() - capacity(max_versions))
    } else {
        versions
    }
}

/// The place of the version with the number `number`, if there is one.
pub open spec fn place_of(versions: Seq<VersionView>, number: u64) -> Option<int> {
    if exists|i: int| 0 <= i < versions.len() && #[trigger] versions[i].version == number {
        Some(choose|i: int| 0 <= i < versions.len() && #[trigger] versions[i].version == number)
    } else {
        None
    }
}

impl VersionControlView {
    /// What holds of every version log: it has a version, the numbers
    /// strictly increase, and the bound, where one is set, is kept.
    pub open spec fn valid(self) -> bool {
        &&& self.versions.len() >= 1
        &&& increasing(self.versions)
        &&& admits(self.max_versions, self.versions.len())
    }

    /// The newest version.
    pub open spec fn latest(self) -> VersionView {
        self.versions.last()
    }

    /// The log after `fragment` was added at `created`: a version with the
    /// next number at the end, and the oldest dropped where the bound asks
    /// for it.
    pub open spec fn added(self, fragment: FragmentView, created: u64) -> VersionControlView {
        VersionControlView {
            versions: trimmed(
                self.versions.push(
                    VersionView {
                        creation_date: created,
                        version: (self.latest().version + 1) as u64,
                        fragment,
                    },
                ),
                self.max_versions,
            ),
            ..self
        }
    }

    /// The log after a rollback to `number`: cut behind the version with
    /// that number, or as it was where there is none.
    pub open spec fn rolled_back(self, number: u64) -> VersionControlView {
        match place_of(self.versions, number) {
            Some(i) => VersionControlView { versions: self.versions.take(i + 1), ..self },
            None => self,
        }
    }

    /// The log with another bound: the oldest versions dropped where the
    /// bound asks for it.
    pub open spec fn bounded(self, max_versions: Option<usize>) -> VersionControlView {
        VersionControlView { versions: trimmed(self.versions, max_versions), max_versions }
    }

    /// The log with nothing but its newest version.
    pub open spec fn cleared(self) -> VersionControlView {
        VersionControlView { versions: seq![self.latest()], ..self }
    }
}

/// In a log whose numbers increase, a number has one place at most.
pub proof fn lemma_place_unique(versions: Seq<VersionView>, i: int)
    requires
        increasing(versions),
        0 <= i < versions.len(),
    ensures
        place_of(versions, versions[i].version) == Some(i),
{
    let j = place_of(versions, versions[i].version).unwrap();
    if j < i {
        assert(versions[j].version < versions[i].version);
    } else if i < j {
        assert(versions[i].version < versions[j].version);
    }
}

/// Adding a version keeps a log valid, and the new version is the newest.
pub proof fn lemma_added_valid(log: VersionControlView, fragment: FragmentView, created: u64)
    requires
        log.valid(),
        log.latest().version < u64::MAX,
        log.max_versions != Some(0usize),
    ensures
        log.added(fragment, created).valid(),
        log.added(fragment, created).latest().fragment == fragment,
        log.added(fragment, created).latest().version == log.latest().version + 1,
{
    let v = VersionView {
        creation_date: created,
        version: (log.latest().version + 1) as u64,
        fragment,
    };
    let pushed = log.versions.push(v);
    assert forall|i: int, j: int| 0 <= i < j < pushed.len() implies (#[trigger] pushed[i]).version
        < (#[trigger] pushed[j]).version by {
        if j == pushed.len() - 1 {
            if i < log.versions.len() - 1 {
                assert(log.versions[i].version < log.versions[log.versions.len() - 1].version);
            }
        } else {
            assert(log.versions[i].version < log.versions[j].version);
        }
    }
    lemma_trimmed_valid(pushed, log.max_versions);
}

/// Dropping the oldest versions keeps the numbers increasing, keeps the
/// newest version and meets the bound.
pub proof fn lemma_trimmed_valid(versions: Seq<VersionView>, max_versions: Option<usize>)
    requires
        versions.len() >= 1,
        increasing(versions),
        max_versions != Some(0usize),
    ensures
        trimmed(versions, max_versions).len() >= 1,
        increasing(trimmed(versions, max_versions)),
        admits(max_versions, trimmed(versions, max_versions).len()),
        trimmed(versions, max_versions).last() == versions.last(),
{
    let t = trimmed(versions, max_versions);
    let m = capacity(max_versions);
    if versions.len() > m {
        let k = versions.len() - m;
        assert forall|i: int, j: int| 0 <= i < j < t.len() implies (#[trigger] t[i]).version < (
        #[trigger] t[j]).version by {
            assert(t[i] == versions[i + k]);
            assert(t[j] == versions[j + k]);
        }
    }
}

/// A bound of one leaves the newest version alone.
pub proof fn lemma_bound_of_one(log: VersionControlView)
    requires
        log.valid(),
    ensures
        log.bounded(Some(1usize)).versions == seq![log.latest()],
        log.bounded(Some(1usize)).valid(),
{
    lemma_trimmed_valid(log.versions, Some(1usize));
    assert(log.bounded(Some(1usize)).versions =~= seq![log.latest()]);
}

/// Clearing the history leaves the newest version alone, and the log
/// valid.
pub proof fn lemma_cleared(log: VersionControlView)
    requires
        log.valid(),
    ensures
        log.cleared().versions.len() == 1,
        log.cleared().latest() == log.latest(),
        log.cleared().valid(),
{
}

/// A rollback to a number that no version has leaves the log as it is; one
/// to a number that a version has makes that version the newest and keeps
/// the log valid.
pub proof fn lemma_rolled_back(log: VersionControlView, number: u64)
    requires
        log.valid(),
    ensures
        place_of(log.versions, number).is_none() ==> log.rolled_back(number) == log,
        place_of(log.versions, number).is_some() ==> log.rolled_back(number).latest().version
            == number,
        log.rolled_back(number).valid(),
{
    match place_of(log.versions, number) {
        Some(i) => {
            let cut = log.versions.take(i + 1);
            assert forall|a: int, b: int| 0 <= a < b < cut.len() implies (#[trigger] cut[a]).version
                < (#[trigger] cut[b]).version by {
                assert(log.versions[a].version < log.versions[b].version);
            }
        },
        None => {},
    }
}

/// After a rollback the numbering goes on behind the version that was
/// rolled back to.
pub proof fn lemma_added_after_rollback(
    log: VersionControlView,
    number: u64,
    fragment: FragmentView,
    created: u64,
)
    requires
        log.valid(),
        place_of(log.versions, number).is_some(),
        number < u64::MAX,
    ensures
        log.rolled_back(number).added(fragment, created).latest().version == number + 1,
{
    lemma_rolled_back(log, number);
    lemma_added_valid(log.rolled_back(number), fragment, created);
}

/// The history of fragments: a newest version and the older ones before it.
///
/// The log is never empty, its version numbers strictly increase, and where
/// a bound is set it holds no more versions than the bound.
#[derive(Debug)]
pub struct VersionControl {
    older: Vec<Version>,
    latest: Version,
    max_versions: Option<usize>,
}

/// The views of a sequence of versions.
pub open spec fn view_versions(versions: Seq<Version>) -> Seq<VersionView> {
    versions.map_values(|v: Version| v@)
}

impl View for VersionControl {
    type V = VersionControlView;

    closed spec fn view(&self) -> VersionControlView {
        VersionControlView {
            versions: view_versions(self.older@).push(self.latest@),
            max_versions: self.max_versions,
        }
    }
}

impl VersionControl {
    /// What holds of every version log.
    #[verifier::type_invariant]
    pub closed spec fn wf(&self) -> bool {
        self@.valid()
    }

    /// A version log is valid.
    pub proof fn lemma_valid(&self)
        requires
            self.wf(),
        ensures
            self@.valid(),
    {
    }

    /// The genesis version: number 0, an empty fragment under the default
    /// policy.
    fn genesis_version() -> (version: Version)
        ensures
            version@.version == 0,
            version@.fragment.entries == Seq::<(Seq<u8>, Seq<u8>)>::empty(),
            version@.fragment.consistent(),
            version@.fragment.metadata.compression == "zstd"@,
            version@.fragment.metadata.compression_level == 3,
            version@.fragment.metadata.compression_dict.is_none(),
    {
        let now = wall_clock_now();
        Version {
            creation_date: now.secs,
            version: 0,
            fragment: Fragment::new_at("zstd".to_string(), 3, None, now),
        }
    }

    /// A log that holds the genesis version alone.
    pub fn new(max_versions: Option<usize>) -> (log: VersionControl)
        requires
            max_versions != Some(0usize),
        ensures
            log@.versions.len() == 1,
            log@.max_versions == max_versions,
            log@.latest().version == 0,
            log@.latest().fragment.entries == Seq::<(Seq<u8>, Seq<u8>)>::empty(),
            log@.latest().fragment.consistent(),
            log@.latest().fragment.metadata.compression == "zstd"@,
            log@.latest().fragment.metadata.compression_level == 3,
            log@.latest().fragment.metadata.compression_dict.is_none(),
            log@.valid(),
    {
        let log = VersionControl {
            older: Vec::new(),
            latest: VersionControl::genesis_version(),
            max_versions,
        };
        assert(view_versions(log.older@) =~= Seq::empty());
        log
    }

    /// Puts a log together from versions, oldest first, where they make up a
    /// valid log: at least one, with increasing numbers, within the bound.
    pub fn from_versions(versions: Vec<Version>, max_versions: Option<usize>) -> (r: Option<
        VersionControl,
    >)
        ensures
            match r {
                Some(log) => log@ == (VersionControlView {
                    versions: view_versions(versions@),
                    max_versions,
                }) && log@.valid(),
                None => !(VersionControlView {
                    versions: view_versions(versions@),
                    max_versions,
                }).valid(),
            },
    {
        let ghost all = view_versions(versions@);
        let n: usize = versions.len();
        if n == 0 {
            return None;
        }
        match max_versions {
            Some(m) => {
                if n > m {
                    return None;
                }
            },
            None => {},
        }
        assert(all.len() == n);
        let mut i: usize = 1;
        while i < n
            invariant
                1 <= i <= n,
                n == versions@.len(),
                all == view_versions(versions@),
                forall|a: int, b: int|
                    #![trigger all[a], all[b]]
                    0 <= a < b < i ==> all[a].version < all[b].version,
            decreases n - i,
        {
            if versions[i - 1].version >= versions[i].version {
                assert(all[i - 1].version >= all[i as int].version);
                return None;
            }
            proof {
                assert forall|a: int, b: int| 0 <= a < b < i + 1 implies (#[trigger] all[a]).version
                    < (#[trigger] all[b]).version by {
                    if b == i {
                        assert(all[i - 1].version < all[i as int].version);
                        if a < i - 1 {
                            assert(all[a].version < all[i - 1].version);
                        }
                    }
                }
            }
            i += 1;
        }
        let mut older = versions;
        let latest = older.pop().unwrap();
        proof {
            assert(view_versions(older@).push(latest@) =~= all);
        }
        Some(VersionControl { older, latest, max_versions })
    }

    /// Adds `fragment` as the next version, made at `created`, and drops the
    /// oldest versions where the bound asks for it.
    pub fn add_version_at(&mut self, fragment: Fragment, created: u64)
        requires
            old(self)@.latest().version < u64::MAX,
        ensures
            final(self)@ == old(self)@.added(fragment@, created),
            final(self)@.valid(),
    {
        proof {
            use_type_invariant(&*self);
            lemma_added_valid(self@, fragment@, created);
        }
        let ghost before = self@;
        let mut older: Vec<Version> = Vec::new();
        std::mem::swap(&mut older, &mut self.older);
        assert(view_versions(self.older@) =~= Seq::empty());
        let mut previous = Version {
            creation_date: created,
            version: self.latest.version + 1,
            fragment,
        };
        std::mem::swap(&mut previous, &mut self.latest);
        older.push(previous);
        assert(view_versions(older@).push(self.latest@) =~= before.versions.push(self.latest@));
        let m: usize = match self.max_versions {
            Some(m) => m,
            None => usize::MAX,
        };
        if older.len() >= m {
            let surplus: usize = older.len() - (m - 1);
            let kept = older.split_off(surplus);
            older = kept;
        }
        assert(view_versions(older@).push(self.latest@) =~= before.added(
            fragment@,
            created,
        ).versions);
        self.older = older;
    }

    /// Adds `fragment` as the next version, made now, and drops the oldest
    /// versions where the bound asks for it.
    pub fn add_version(&mut self, fragment: Fragment)
        requires
            old(self)@.latest().version < u64::MAX,
        ensures
            final(self)@ == old(self)@.added(fragment@, final(self)@.latest().creation_date),
            final(self)@.latest().fragment == fragment@,
            final(self)@.latest().version == old(self)@.latest().version + 1,
            final(self)@.valid(),
    {
        proof {
            use_type_invariant(&*self);
        }
        let created = wall_clock_now().secs;
        proof {
            lemma_added_valid(self@, fragment@, created);
        }
        self.add_version_at(fragment, created);
    }

    /// The version with the number `version`.
    pub fn get_version(&self, version: u64) -> (found: Option<&Version>)
        ensures
            match found {
                Some(v) => place_of(self@.versions, version) matches Some(i) && v@
                    == self@.versions[i],
                None => place_of(self@.versions, version).is_none(),
            },
    {
        proof {
            use_type_invariant(self);
        }
        let ghost all = self@.versions;
        if self.latest.version == version {
            proof {
                lemma_place_unique(all, all.len() - 1);
            }
            return Some(&self.latest);
        }
        let mut i: usize = 0;
        while i < self.older.len()
            invariant
                0 <= i <= self.older@.len(),
                all == self@.versions,
                all.len() == self.older@.len() + 1,
                increasing(all),
                all.last().version != version,
                forall|j: int| 0 <= j < i ==> (#[trigger] all[j]).version != version,
            decreases self.older@.len() - i,
        {
            if self.older[i].version == version {
                proof {
                    assert(all[i as int] == self.older@[i as int]@);
                    lemma_place_unique(all, i as int);
                }
                return Some(&self.older[i]);
            }
            assert(all[i as int] == self.older@[i as int]@);
            i += 1;
        }
        None
    }

    /// The newest version. There always is one.
    pub fn get_latest_version(&self) -> (latest: Option<&Version>)
        ensures
            latest matches Some(v) && v@ == self@.latest(),
            self@.valid(),
    {
        proof {
            use_type_invariant(self);
        }
        Some(&self.latest)
    }

    /// The newest version.
    pub fn latest(&self) -> (latest: &Version)
        ensures
            latest@ == self@.latest(),
            self@.valid(),
    {
        proof {
            use_type_invariant(self);
        }
        &self.latest
    }

    /// Cuts the log behind the version with the number `version` and returns
    /// a copy of that version's fragment. Where there is no such version the
    /// log stays as it is.
    pub fn rollback(&mut self, version: u64) -> (fragment: Option<Fragment>)
        ensures
            final(self)@ == old(self)@.rolled_back(version),
            final(self)@.valid(),
            match fragment {
                Some(f) => {
                    &&& place_of(old(self)@.versions, version).is_some()
                    &&& f@ == final(self)@.latest().fragment
                    &&& final(self)@.latest().version == version
                },
                None => place_of(old(self)@.versions, version).is_none(),
            },
    {
        proof {
            use_type_invariant(&*self);
        }
        let ghost all = self@.versions;
        if self.latest.version == version {
            proof {
                lemma_place_unique(all, all.len() - 1);
                assert(all.take(all.len() as int) =~= all);
            }
            return Some(self.latest.fragment.clone());
        }
        let mut i: usize = 0;
        while i < self.older.len()
            invariant
                0 <= i <= self.older@.len(),
                all == self@.versions,
                *self == *old(self),
                all.len() == self.older@.len() + 1,
                increasing(all),
                admits(self.max_versions, all.len()),
                all.last().version != version,
                forall|j: int| 0 <= j < i ==> (#[trigger] all[j]).version != version,
            decreases self.older@.len() - i,
        {
            assert(all[i as int] == self.older@[i as int]@);
            if self.older[i].version == version {
                proof {
                    lemma_place_unique(all, i as int);
                }
                let mut older: Vec<Version> = Vec::new();
                std::mem::swap(&mut older, &mut self.older);
                assert(view_versions(self.older@) =~= Seq::empty());
                older.truncate(i + 1);
                let target = older.pop().unwrap();
                let fragment = target.fragment.clone();
                proof {
                    assert(view_versions(older@).push(target@) =~= all.take(i + 1));
                    assert forall|a: int, b: int| 0 <= a < b < i + 1 implies (#[trigger] all.take(
                        i + 1,
                    )[a]).version < (#[trigger] all.take(i + 1)[b]).version by {
                        assert(all[a].version < all[b].version);
                    }
                }
                self.latest = target;
                self.older = older;
                return Some(fragment);
            }
            i += 1;
        }
        None
    }

    /// Every version, oldest first.
    pub fn get_history(&self) -> (history: Vec<&Version>)
        ensures
            history@.len() == self@.versions.len(),
            forall|i: int|
                0 <= i < history@.len() ==> (#[trigger] history@[i])@ == self@.versions[i],
            self@.valid(),
    {
        proof {
            use_type_invariant(self);
        }
        let mut history: Vec<&Version> = Vec::new();
        let mut i: usize = 0;
        while i < self.older.len()
            invariant
                0 <= i <= self.older@.len(),
                history@.len() == i,
                forall|j: int| 0 <= j < i ==> (#[trigger] history@[j])@ == self.older@[j]@,
            decreases self.older@.len() - i,
        {
            history.push(&self.older[i]);
            i += 1;
        }
        history.push(&self.latest);
        history
    }

    /// The number of versions: at least one, and no more than the bound.
    pub fn get_version_count(&self) -> (count: usize)
        ensures
            count == self@.versions.len(),
            count >= 1,
            admits(self@.max_versions, count as nat),
    {
        proof {
            use_type_invariant(self);
        }
        self.older.len() + 1
    }

    /// Drops every version but the newest.
    pub fn clear_history(&mut self)
        ensures
            final(self)@ == old(self)@.cleared(),
            final(self)@.latest() == old(self)@.latest(),
            final(self)@.versions.len() == 1,
            final(self)@.valid(),
    {
        proof {
            use_type_invariant(&*self);
        }
        self.older = Vec::new();
        proof {
            assert(self@.versions =~= old(self)@.cleared().versions);
        }
    }

    /// Sets the bound and drops the oldest versions where it asks for it.
    pub fn set_max_versions(&mut self, max_versions: Option<usize>)
        requires
            max_versions != Some(0usize),
        ensures
            final(self)@ == old(self)@.bounded(max_versions),
            final(self)@.latest() == old(self)@.latest(),
            final(self)@.valid(),
    {
        proof {
            use_type_invariant(&*self);
            lemma_trimmed_valid(self@.versions, max_versions);
        }
        let ghost before = self@;
        let mut older: Vec<Version> = Vec::new();
        std::mem::swap(&mut older, &mut self.older);
        assert(view_versions(self.older@) =~= Seq::empty());
        self.max_versions = max_versions;
        let m: usize = match max_versions {
            Some(m) => m,
            None => usize::MAX,
        };
        if older.len() >= m {
            let surplus: usize = older.len() - (m - 1);
            let kept = older.split_off(surplus);
            older = kept;
        }
        assert(view_versions(older@).push(self.latest@) =~= before.bounded(max_versions).versions);
        self.older = older;
    }

    /// The bound on the number of versions.
    pub fn get_max_versions(&self) -> (max_versions: Option<usize>)
        ensures
            max_versions == self@.max_versions,
    {
        self.max_versions
    }
}

} // verus!
