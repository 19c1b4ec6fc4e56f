//! The ordered table: digests mapped to stored bytes, in key order.

use crate::encoding::push_bytes;
use crate::hash::lemma_lex_asymmetric;
use crate::hash::lemma_lex_irreflexive;
use crate::hash::lemma_lex_total;
use crate::hash::lemma_lex_transitive;
use crate::hash::lex_lt;
use crate::hash::Sha256;
use vstd::prelude::*;

verus! {

/// Whether the keys of `s` strictly increase in lexicographic order.
pub open spec fn strictly_sorted(s: Seq<(Seq<u8>, Seq<u8>)>) -> bool {
    forall|i: int, j: int|
        #![trigger s[i], s[j]]
        0 <= i < j < s.len() ==> lex_lt(s[i].0, s[j].0)
}

/// Whether `key` is the key of an entry of `s`.
pub open spec fn has_key(s: Seq<(Seq<u8>, Seq<u8>)>, key: Seq<u8>) -> bool {
    exists|i: int| 0 <= i < s.len() && #[trigger] s[i].0 == key
}

/// The index of an entry of `s` with the key `key`.
pub open spec fn index_of(s: Seq<(Seq<u8>, Seq<u8>)>, key: Seq<u8>) -> int {
    choose|i: int| 0 <= i < s.len() && #[trigger] s[i].0 == key
}

/// The mapping that a sequence of entries stands for.
pub open spec fn entries_map(s: Seq<(Seq<u8>, Seq<u8>)>) -> Map<Seq<u8>, Seq<u8>> {
    Map::new(|key: Seq<u8>| has_key(s, key), |key: Seq<u8>| s[index_of(s, key)].1)
}

/// The number of entries of `s` whose key comes before `key`.
pub open spec fn rank_of(s: Seq<(Seq<u8>, Seq<u8>)>, key: Seq<u8>) -> int
    decreases s.len(),
{
    if s.len() == 0 {
        0
    } else {
        rank_of(s.drop_last(), key) + if lex_lt(s.last().0, key) {
            1int
        } else {
            0int
        }
    }
}

/// Four bytes, most significant first, of `n` modulo 2^32.
pub open spec fn be32(n: int) -> Seq<u8> {
    seq![
        ((n / 0x100_0000) % 256) as u8,
        ((n / 0x1_0000) % 256) as u8,
        ((n / 0x100) % 256) as u8,
        (n % 256) as u8,
    ]
}

/// The serialization of one entry: the key, the length of the value as four
/// bytes, the value.
pub open spec fn entry_bytes(e: (Seq<u8>, Seq<u8>)) -> Seq<u8> {
    e.0 + be32(e.1.len() as int) + e.1
}

/// The serialization of a sequence of entries: that of each, in order.
pub open spec fn table_bytes(s: Seq<(Seq<u8>, Seq<u8>)>) -> Seq<u8>
    decreases s.len(),
{
    if s.len() == 0 {
        Seq::empty()
    } else {
        table_bytes(s.drop_last()) + entry_bytes(s.last())
    }
}

/// The keys of the mapping are the keys of the entries.
pub proof fn lemma_map_dom(s: Seq<(Seq<u8>, Seq<u8>)>, key: Seq<u8>)
    ensures
        entries_map(s).contains_key(key) == has_key(s, key),
{
}

/// In a sorted sequence each key occurs once: an entry is found under its
/// key.
pub proof fn lemma_sorted_lookup(s: Seq<(Seq<u8>, Seq<u8>)>, i: int)
    requires
        strictly_sorted(s),
        0 <= i < s.len(),
    ensures
        has_key(s, s[i].0),
        index_of(s, s[i].0) == i,
        entries_map(s)[s[i].0] == s[i].1,
{
    let j = index_of(s, s[i].0);
    if j < i {
        lemma_lex_irreflexive(s[i].0);
        assert(lex_lt(s[j].0, s[i].0));
    } else if i < j {
        lemma_lex_irreflexive(s[i].0);
        assert(lex_lt(s[i].0, s[j].0));
    }
}

/// A sorted sequence of entries is determined by the mapping it stands for.
pub proof fn lemma_sorted_unique(a: Seq<(Seq<u8>, Seq<u8>)>, b: Seq<(Seq<u8>, Seq<u8>)>)
    requires
        strictly_sorted(a),
        strictly_sorted(b),
        entries_map(a) == entries_map(b),
    ensures
        a == b,
    decreases a.len(),
{
    if a.len() == 0 {
        if b.len() > 0 {
            lemma_sorted_lookup(b, 0);
            assert(entries_map(b).dom().contains(b[0].0));
            assert(has_key(a, b[0].0));
        }
        assert(a =~= b);
    } else {
        let n = a.len() - 1;
        lemma_sorted_lookup(a, n);
        assert(entries_map(b).dom().contains(a[n].0));
        assert(has_key(b, a[n].0));
        let m = index_of(b, a[n].0);
        lemma_sorted_lookup(b, m);
        // the greatest key of `a` is the greatest key of `b`
        if m < b.len() - 1 {
            let last = b.len() - 1;
            lemma_sorted_lookup(b, last);
            assert(entries_map(a).dom().contains(b[last].0));
            assert(has_key(a, b[last].0));
            let k = index_of(a, b[last].0);
            assert(lex_lt(b[m].0, b[last].0));
            if k < n {
                assert(lex_lt(a[k].0, a[n].0));
                lemma_lex_asymmetric(a[k].0, a[n].0);
            } else {
                lemma_lex_irreflexive(a[n].0);
            }
        }
        assert(m == b.len() - 1);
        assert(a[n] == b[m]);
        let a0 = a.drop_last();
        let b0 = b.drop_last();
        assert(strictly_sorted(a0));
        assert(strictly_sorted(b0));
        assert forall|key: Seq<u8>| has_key(a0, key) == has_key(b0, key) by {
            if has_key(a0, key) {
                let i = index_of(a0, key);
                assert(a[i].0 == key);
                assert(lex_lt(a[i].0, a[n].0));
                lemma_lex_asymmetric(a[i].0, a[n].0);
                assert(entries_map(a).dom().contains(key));
                assert(has_key(b, key));
                let j = index_of(b, key);
                assert(j != m);
                assert(b0[j].0 == key);
            }
            if has_key(b0, key) {
                let i = index_of(b0, key);
                assert(b[i].0 == key);
                assert(lex_lt(b[i].0, b[m].0));
                lemma_lex_asymmetric(b[i].0, b[m].0);
                assert(entries_map(b).dom().contains(key));
                assert(has_key(a, key));
                let j = index_of(a, key);
                assert(j != n);
                assert(a0[j].0 == key);
            }
        }
        assert forall|key: Seq<u8>| has_key(a0, key) implies entries_map(a0)[key] == entries_map(
            b0,
        )[key] by {
            let i = index_of(a0, key);
            let j = index_of(b0, key);
            lemma_sorted_lookup(a0, i);
            lemma_sorted_lookup(b0, j);
            lemma_sorted_lookup(a, i);
            lemma_sorted_lookup(b, j);
            assert(a0[i] == a[i]);
            assert(b0[j] == b[j]);
        }
        assert(entries_map(a0) =~= entries_map(b0));
        lemma_sorted_unique(a0, b0);
        assert(a =~= a0.push(a[n]));
        assert(b =~= b0.push(b[m]));
    }
}

/// Putting an entry with a new key at its place in a sorted sequence keeps
/// the sequence sorted and adds the entry to the mapping.
pub proof fn lemma_insert_entry(s: Seq<(Seq<u8>, Seq<u8>)>, at: int, e: (Seq<u8>, Seq<u8>))
    requires
        strictly_sorted(s),
        0 <= at <= s.len(),
        forall|i: int| 0 <= i < at ==> lex_lt(#[trigger] s[i].0, e.0),
        forall|i: int| at <= i < s.len() ==> lex_lt(e.0, #[trigger] s[i].0),
    ensures
        strictly_sorted(s.insert(at, e)),
        entries_map(s.insert(at, e)) == entries_map(s).insert(e.0, e.1),
        !has_key(s, e.0),
{
    let t = s.insert(at, e);
    assert forall|i: int, j: int| 0 <= i < j < t.len() implies lex_lt(
        #[trigger] t[i].0,
        #[trigger] t[j].0,
    ) by {
        let i0 = if i < at { i } else { i - 1 };
        let j0 = if j < at { j } else { j - 1 };
        if i != at && j != at {
            assert(t[i] == s[i0]);
            assert(t[j] == s[j0]);
        } else if i == at {
            assert(t[j] == s[j0]);
        } else {
            assert(t[i] == s[i0]);
        }
    }
    if has_key(s, e.0) {
        let i = index_of(s, e.0);
        lemma_lex_irreflexive(e.0);
    }
    lemma_sorted_lookup(t, at);
    assert forall|key: Seq<u8>| has_key(t, key) == (has_key(s, key) || key == e.0) by {
        if has_key(t, key) {
            let i = index_of(t, key);
            if i < at {
                assert(s[i].0 == key);
            } else if i > at {
                assert(s[i - 1].0 == key);
            }
        }
        if has_key(s, key) {
            let i = index_of(s, key);
            if i < at {
                assert(t[i].0 == key);
            } else {
                assert(t[i + 1].0 == key);
            }
        }
    }
    assert forall|key: Seq<u8>| has_key(t, key) implies entries_map(t)[key] == entries_map(
        s,
    ).insert(e.0, e.1)[key] by {
        let i = index_of(t, key);
        lemma_sorted_lookup(t, i);
        if i < at {
            lemma_sorted_lookup(s, i);
        } else if i > at {
            lemma_sorted_lookup(s, i - 1);
        }
    }
    assert(entries_map(t) =~= entries_map(s).insert(e.0, e.1));
}

/// Replacing the value of an entry keeps the sequence sorted and updates the
/// mapping.
pub proof fn lemma_update_entry(s: Seq<(Seq<u8>, Seq<u8>)>, at: int, value: Seq<u8>)
    requires
        strictly_sorted(s),
        0 <= at < s.len(),
    ensures
        strictly_sorted(s.update(at, (s[at].0, value))),
        entries_map(s.update(at, (s[at].0, value))) == entries_map(s).insert(s[at].0, value),
{
    let t = s.update(at, (s[at].0, value));
    assert forall|i: int, j: int| 0 <= i < j < t.len() implies lex_lt(
        #[trigger] t[i].0,
        #[trigger] t[j].0,
    ) by {
        assert(t[i].0 == s[i].0);
        assert(t[j].0 == s[j].0);
    }
    assert forall|key: Seq<u8>| has_key(t, key) == has_key(s, key) by {
        if has_key(t, key) {
            let i = index_of(t, key);
            assert(s[i].0 == key);
        }
        if has_key(s, key) {
            let i = index_of(s, key);
            assert(t[i].0 == key);
        }
    }
    lemma_sorted_lookup(s, at);
    assert forall|key: Seq<u8>| has_key(t, key) implies entries_map(t)[key] == entries_map(
        s,
    ).insert(s[at].0, value)[key] by {
        let i = index_of(t, key);
        lemma_sorted_lookup(t, i);
        lemma_sorted_lookup(s, i);
    }
    assert(entries_map(t) =~= entries_map(s).insert(s[at].0, value));
}

/// Taking an entry out keeps the sequence sorted and removes its key from
/// the mapping.
pub proof fn lemma_remove_entry(s: Seq<(Seq<u8>, Seq<u8>)>, at: int)
    requires
        strictly_sorted(s),
        0 <= at < s.len(),
    ensures
        strictly_sorted(s.remove(at)),
        entries_map(s.remove(at)) == entries_map(s).remove(s[at].0),
{
    let t = s.remove(at);
    assert forall|i: int, j: int| 0 <= i < j < t.len() implies lex_lt(
        #[trigger] t[i].0,
        #[trigger] t[j].0,
    ) by {
        let i0 = if i < at { i } else { i + 1 };
        let j0 = if j < at { j } else { j + 1 };
        assert(t[i] == s[i0]);
        assert(t[j] == s[j0]);
    }
    lemma_sorted_lookup(s, at);
    assert forall|key: Seq<u8>| has_key(t, key) == (has_key(s, key) && key != s[at].0) by {
        if has_key(t, key) {
            let i = index_of(t, key);
            let i0 = if i < at { i } else { i + 1 };
            assert(s[i0].0 == key);
            lemma_sorted_lookup(s, i0);
        }
        if has_key(s, key) && key != s[at].0 {
            let i = index_of(s, key);
            if i < at {
                assert(t[i].0 == key);
            } else {
                assert(t[i - 1].0 == key);
            }
        }
    }
    assert forall|key: Seq<u8>| has_key(t, key) implies entries_map(t)[key] == entries_map(
        s,
    ).remove(s[at].0)[key] by {
        let i = index_of(t, key);
        let i0 = if i < at { i } else { i + 1 };
        lemma_sorted_lookup(t, i);
        lemma_sorted_lookup(s, i0);
    }
    assert(entries_map(t) =~= entries_map(s).remove(s[at].0));
}

/// Where a key has no entry in a sorted sequence, the entries before its
/// rank come before it and the others after it.
pub proof fn lemma_rank_splits(s: Seq<(Seq<u8>, Seq<u8>)>, key: Seq<u8>)
    requires
        strictly_sorted(s),
    ensures
        0 <= rank_of(s, key) <= s.len(),
        forall|i: int| 0 <= i < rank_of(s, key) ==> lex_lt(#[trigger] s[i].0, key),
        forall|i: int| rank_of(s, key) <= i < s.len() ==> !lex_lt(#[trigger] s[i].0, key),
    decreases s.len(),
{
    if s.len() > 0 {
        let s0 = s.drop_last();
        let n = s.len() - 1;
        assert(strictly_sorted(s0));
        lemma_rank_splits(s0, key);
        assert forall|i: int| 0 <= i < rank_of(s, key) implies lex_lt(#[trigger] s[i].0, key) by {
            if i < n {
                assert(s0[i] == s[i]);
                if rank_of(s0, key) <= i {
                    // then the last entry comes before the key, and so does this one
                    assert(lex_lt(s[i].0, s[n].0));
                    lemma_lex_transitive(s[i].0, s[n].0, key);
                }
            }
        }
        assert forall|i: int| rank_of(s, key) <= i < s.len() implies !lex_lt(
            #[trigger] s[i].0,
            key,
        ) by {
            if i < n {
                assert(s0[i] == s[i]);
            } else {
                if lex_lt(s[n].0, key) {
                    // every entry comes before the key: the rank is the length
                    assert forall|k: int| 0 <= k < n implies lex_lt(#[trigger] s0[k].0, key) by {
                        assert(lex_lt(s[k].0, s[n].0));
                        lemma_lex_transitive(s[k].0, s[n].0, key);
                    }
                    if rank_of(s0, key) < n {
                        assert(!lex_lt(s0[rank_of(s0, key)].0, key));
                    }
                }
            }
        }
    }
}

/// The rank of a key is the one place that splits a sorted sequence around
/// it.
pub proof fn lemma_rank_is(s: Seq<(Seq<u8>, Seq<u8>)>, key: Seq<u8>, at: int)
    requires
        strictly_sorted(s),
        0 <= at <= s.len(),
        forall|i: int| 0 <= i < at ==> lex_lt(#[trigger] s[i].0, key),
        forall|i: int| at <= i < s.len() ==> !lex_lt(#[trigger] s[i].0, key),
    ensures
        rank_of(s, key) == at,
{
    lemma_rank_splits(s, key);
    let r = rank_of(s, key);
    if r < at {
        assert(lex_lt(s[r].0, key));
    } else if at < r {
        assert(lex_lt(s[at].0, key));
    }
}


/// What a sequence of entries becomes when `value` is stored under `key`:
/// the entry with that key is replaced, or a new one put at its rank.
pub open spec fn inserted(s: Seq<(Seq<u8>, Seq<u8>)>, key: Seq<u8>, value: Seq<u8>) -> Seq<
    (Seq<u8>, Seq<u8>),
> {
    if has_key(s, key) {
        s.update(index_of(s, key), (key, value))
    } else {
        s.insert(rank_of(s, key), (key, value))
    }
}

/// What a sequence of entries becomes when the entry under `key`, if any, is
/// taken out.
pub open spec fn removed(s: Seq<(Seq<u8>, Seq<u8>)>, key: Seq<u8>) -> Seq<(Seq<u8>, Seq<u8>)> {
    if has_key(s, key) {
        s.remove(index_of(s, key))
    } else {
        s
    }
}

/// The rank of a key lies within the sequence.
pub proof fn lemma_rank_bounds(s: Seq<(Seq<u8>, Seq<u8>)>, key: Seq<u8>)
    ensures
        0 <= rank_of(s, key) <= s.len(),
    decreases s.len(),
{
    if s.len() > 0 {
        lemma_rank_bounds(s.drop_last(), key);
    }
}

/// Storing under a key adds one entry at most.
pub proof fn lemma_inserted_len(s: Seq<(Seq<u8>, Seq<u8>)>, key: Seq<u8>, value: Seq<u8>)
    ensures
        s.len() <= inserted(s, key, value).len() <= s.len() + 1,
{
    lemma_rank_bounds(s, key);
}

/// Taking an entry out adds none.
pub proof fn lemma_removed_len(s: Seq<(Seq<u8>, Seq<u8>)>, key: Seq<u8>)
    ensures
        removed(s, key).len() <= s.len(),
{
}

/// Storing a value under a key in a sorted sequence keeps it sorted, and the
/// mapping then gives that value under the key and what it gave before
/// under every other key.
pub proof fn lemma_inserted(s: Seq<(Seq<u8>, Seq<u8>)>, key: Seq<u8>, value: Seq<u8>)
    requires
        strictly_sorted(s),
    ensures
        strictly_sorted(inserted(s, key, value)),
        entries_map(inserted(s, key, value)) == entries_map(s).insert(key, value),
        entries_map(inserted(s, key, value))[key] == value,
{
    if has_key(s, key) {
        let at = index_of(s, key);
        lemma_update_entry(s, at, value);
    } else {
        lemma_rank_splits(s, key);
        let at = rank_of(s, key);
        assert forall|i: int| at <= i < s.len() implies lex_lt(key, #[trigger] s[i].0) by {
            lemma_lex_total(key, s[i].0);
        }
        lemma_insert_entry(s, at, (key, value));
    }
}

/// Taking the entry under a key out of a sorted sequence keeps it sorted,
/// and the mapping then has no value under the key and what it had before
/// under every other key.
pub proof fn lemma_removed(s: Seq<(Seq<u8>, Seq<u8>)>, key: Seq<u8>)
    requires
        strictly_sorted(s),
    ensures
        strictly_sorted(removed(s, key)),
        entries_map(removed(s, key)) == entries_map(s).remove(key),
        !has_key(removed(s, key), key),
{
    if has_key(s, key) {
        let at = index_of(s, key);
        lemma_remove_entry(s, at);
    } else {
        assert(entries_map(s) =~= entries_map(s).remove(key));
    }
    lemma_map_dom(removed(s, key), key);
}

/// The serialization of a table is determined by its content: sorted
/// sequences that stand for the same mapping have the same bytes.
pub proof fn lemma_bytes_determined(a: Seq<(Seq<u8>, Seq<u8>)>, b: Seq<(Seq<u8>, Seq<u8>)>)
    requires
        strictly_sorted(a),
        strictly_sorted(b),
        entries_map(a) == entries_map(b),
    ensures
        table_bytes(a) == table_bytes(b),
{
    lemma_sorted_unique(a, b);
}

/// The entries of a vector of keys and values, each by its view.
pub open spec fn view_entries(v: Seq<(Sha256, Vec<u8>)>) -> Seq<(Seq<u8>, Seq<u8>)> {
    v.map_values(|e: (Sha256, Vec<u8>)| (e.0@, e.1@))
}

/// An ordered mapping from digests to stored bytes.
///
/// The entries are kept in a vector, sorted by key, each key once.
#[derive(Debug)]
pub struct Table {
    entries: Vec<(Sha256, Vec<u8>)>,
}

impl View for Table {
    type V = Map<Seq<u8>, Seq<u8>>;

    /// The mapping from key bytes to stored bytes.
    open spec fn view(&self) -> Map<Seq<u8>, Seq<u8>> {
        entries_map(self.entries())
    }
}

impl Table {
    /// The entries in key order.
    pub closed spec fn entries(&self) -> Seq<(Seq<u8>, Seq<u8>)> {
        view_entries(self.entries@)
    }

    /// The keys strictly increase: this holds of every table.
    #[verifier::type_invariant]
    pub closed spec fn wf(&self) -> bool {
        strictly_sorted(self.entries())
    }

    /// The keys of a table strictly increase in lexicographic order.
    pub proof fn lemma_sorted(&self)
        requires
            self.wf(),
        ensures
            strictly_sorted(self.entries()),
    {
    }

    /// The serialization: each entry in key order.
    pub open spec fn spec_to_bytes(&self) -> Seq<u8> {
        table_bytes(self.entries())
    }

    /// An empty table.
    pub fn new() -> (table: Table)
        ensures
            table.entries() == Seq::<(Seq<u8>, Seq<u8>)>::empty(),
            table@ == Map::<Seq<u8>, Seq<u8>>::empty(),
            table.wf(),
    {
        let table = Table { entries: Vec::new() };
        proof {
            assert(table.entries() =~= Seq::<(Seq<u8>, Seq<u8>)>::empty());
            assert(table@ =~= Map::<Seq<u8>, Seq<u8>>::empty());
        }
        table
    }

    /// A table of the given entries, where their keys strictly increase.
    pub fn from_sorted(entries: Vec<(Sha256, Vec<u8>)>) -> (r: Option<Table>)
        ensures
            match r {
                Some(table) => table.entries() == view_entries(entries@) && strictly_sorted(
                    table.entries(),
                ),
                None => !strictly_sorted(view_entries(entries@)),
            },
    {
        let ghost s = view_entries(entries@);
        let n: usize = entries.len();
        let mut i: usize = 1;
        while i < n
            invariant
                1 <= i,
                n == entries@.len(),
                s == view_entries(entries@),
                forall|a: int, b: int|
                    #![trigger s[a], s[b]]
                    0 <= a < b < i && b < n ==> lex_lt(s[a].0, s[b].0),
            decreases n - i,
        {
            assert(s[i - 1] == (entries@[i - 1].0@, entries@[i - 1].1@));
            assert(s[i as int] == (entries@[i as int].0@, entries@[i as int].1@));
            if !entries[i - 1].0.precedes(&entries[i].0) {
                assert(!lex_lt(s[i - 1].0, s[i as int].0));
                return None;
            }
            proof {
                assert forall|a: int, b: int| 0 <= a < b < i + 1 && b < n implies lex_lt(
                    (#[trigger] s[a]).0,
                    (#[trigger] s[b]).0,
                ) by {
                    if b == i && a < i - 1 {
                        assert(lex_lt(s[a].0, s[i - 1].0));
                        lemma_lex_transitive(s[a].0, s[i - 1].0, s[i as int].0);
                    }
                }
            }
            i += 1;
        }
        Some(Table { entries })
    }

    /// The place of `key`: its rank, and whether an entry with that key
    /// stands there.
    fn find(&self, key: &Sha256) -> (r: (usize, bool))
        ensures
            r.1 == has_key(self.entries(), key@),
            r.1 ==> 0 <= r.0 < self.entries().len() && index_of(self.entries(), key@) == r.0
                && self.entries@[r.0 as int].0@ == key@,
            r.0 == rank_of(self.entries(), key@),
            0 <= r.0 <= self.entries@.len(),
            r.1 ==> r.0 < self.entries@.len(),
            forall|i: int| 0 <= i < r.0 ==> lex_lt(#[trigger] self.entries()[i].0, key@),
            forall|i: int|
                r.0 + (if r.1 { 1int } else { 0int }) <= i < self.entries().len() ==> lex_lt(
                    key@,
                    #[trigger] self.entries()[i].0,
                ),
    {
        proof {
            use_type_invariant(self);
        }
        let ghost s = self.entries();
        let mut lo: usize = 0;
        let mut hi: usize = self.entries.len();
        while lo < hi
            invariant
                0 <= lo <= hi <= s.len(),
                s == self.entries(),
                s.len() == self.entries@.len(),
                strictly_sorted(s),
                forall|i: int| 0 <= i < lo ==> lex_lt(#[trigger] s[i].0, key@),
                forall|i: int| hi <= i < s.len() ==> lex_lt(key@, #[trigger] s[i].0),
            decreases hi - lo,
        {
            let mid: usize = lo + (hi - lo) / 2;
            let probe: &Sha256 = &self.entries[mid].0;
            assert(probe@ == s[mid as int].0);
            if probe.precedes(key) {
                proof {
                    assert forall|i: int| 0 <= i < mid + 1 implies lex_lt(
                        #[trigger] s[i].0,
                        key@,
                    ) by {
                        if i < mid {
                            assert(lex_lt(s[i].0, s[mid as int].0));
                            lemma_lex_transitive(s[i].0, s[mid as int].0, key@);
                        }
                    }
                }
                lo = mid + 1;
            } else if key.precedes(probe) {
                proof {
                    assert forall|i: int| mid <= i < s.len() implies lex_lt(
                        key@,
                        #[trigger] s[i].0,
                    ) by {
                        if mid < i {
                            assert(lex_lt(s[mid as int].0, s[i].0));
                            lemma_lex_transitive(key@, s[mid as int].0, s[i].0);
                        }
                    }
                }
                hi = mid;
            } else {
                proof {
                    lemma_lex_total(probe@, key@);
                    lemma_sorted_lookup(s, mid as int);
                    assert forall|i: int| 0 <= i < mid implies lex_lt(#[trigger] s[i].0, key@) by {
                        assert(lex_lt(s[i].0, s[mid as int].0));
                    }
                    assert forall|i: int| mid + 1 <= i < s.len() implies lex_lt(
                        key@,
                        #[trigger] s[i].0,
                    ) by {
                        assert(lex_lt(s[mid as int].0, s[i].0));
                    }
                    assert forall|i: int| mid <= i < s.len() implies !lex_lt(
                        #[trigger] s[i].0,
                        key@,
                    ) by {
                        if i == mid {
                            lemma_lex_irreflexive(key@);
                        } else {
                            assert(lex_lt(s[mid as int].0, s[i].0));
                            lemma_lex_asymmetric(key@, s[i].0);
                        }
                    }
                    lemma_rank_is(s, key@, mid as int);
                }
                return (mid, true);
            }
        }
        proof {
            if has_key(s, key@) {
                let i = index_of(s, key@);
                lemma_lex_irreflexive(key@);
            }
            assert forall|i: int| lo <= i < s.len() implies !lex_lt(#[trigger] s[i].0, key@) by {
                lemma_lex_asymmetric(key@, s[i].0);
            }
            lemma_rank_is(s, key@, lo as int);
        }
        (lo, false)
    }

    /// Stores `value` under `key` and returns what was stored there before.
    pub fn insert(&mut self, value: Vec<u8>, key: Sha256) -> (previous: Option<Vec<u8>>)
        ensures
            final(self)@ == old(self)@.insert(key@, value@),
            final(self).entries() == inserted(old(self).entries(), key@, value@),
            match previous {
                Some(v) => old(self)@.contains_key(key@) && old(self)@[key@] == v@,
                None => !old(self)@.contains_key(key@),
            },
            final(self).wf(),
    {
        proof {
            use_type_invariant(&*self);
        }
        let ghost s = self.entries();
        let (at, found) = self.find(&key);
        let mut entries: Vec<(Sha256, Vec<u8>)> = Vec::new();
        std::mem::swap(&mut entries, &mut self.entries);
        assert(view_entries(entries@) == s);
        let previous = if found {
            let taken = entries.remove(at);
            entries.insert(at, (key, value));
            proof {
                lemma_sorted_lookup(s, at as int);
                lemma_update_entry(s, at as int, value@);
                assert(view_entries(entries@) =~= s.update(at as int, (key@, value@)));
            }
            Some(taken.1)
        } else {
            entries.insert(at, (key, value));
            proof {
                lemma_insert_entry(s, at as int, (key@, value@));
                assert(view_entries(entries@) =~= s.insert(at as int, (key@, value@)));
            }
            None
        };
        self.entries = entries;
        previous
    }

    /// The bytes stored under `key`.
    pub fn get(&self, key: &Sha256) -> (value: Option<&Vec<u8>>)
        ensures
            match value {
                Some(v) => self@.contains_key(key@) && self@[key@] == v@,
                None => !self@.contains_key(key@),
            },
    {
        proof {
            use_type_invariant(self);
        }
        let (at, found) = self.find(key);
        if found {
            proof {
                lemma_sorted_lookup(self.entries(), at as int);
            }
            Some(&self.entries[at].1)
        } else {
            None
        }
    }

    /// Takes the entry under `key` out and returns its bytes.
    pub fn remove(&mut self, key: &Sha256) -> (value: Option<Vec<u8>>)
        ensures
            final(self)@ == old(self)@.remove(key@),
            final(self).entries() == removed(old(self).entries(), key@),
            match value {
                Some(v) => old(self)@.contains_key(key@) && old(self)@[key@] == v@,
                None => !old(self)@.contains_key(key@),
            },
            final(self).wf(),
    {
        proof {
            use_type_invariant(&*self);
        }
        let ghost s = self.entries();
        let (at, found) = self.find(key);
        if found {
            let mut entries: Vec<(Sha256, Vec<u8>)> = Vec::new();
            std::mem::swap(&mut entries, &mut self.entries);
            let taken = entries.remove(at);
            proof {
                lemma_sorted_lookup(s, at as int);
                lemma_remove_entry(s, at as int);
                assert(view_entries(entries@) =~= s.remove(at as int));
            }
            self.entries = entries;
            Some(taken.1)
        } else {
            proof {
                assert(self@ =~= self@.remove(key@));
            }
            None
        }
    }

    /// Whether an entry stands under `key`.
    pub fn contains_key(&self, key: &Sha256) -> (r: bool)
        ensures
            r == self@.contains_key(key@),
    {
        self.find(key).1
    }

    /// The number of entries.
    pub fn len(&self) -> (n: usize)
        ensures
            n == self.entries().len(),
            n == self@.len(),
            self@.dom().finite(),
    {
        proof {
            use_type_invariant(self);
            lemma_entries_map_len(self.entries());
        }
        self.entries.len()
    }

    /// Whether the table has no entry.
    pub fn is_empty(&self) -> (r: bool)
        ensures
            r == (self.entries().len() == 0),
            r == (self@ == Map::<Seq<u8>, Seq<u8>>::empty()),
    {
        proof {
            use_type_invariant(self);
            lemma_entries_map_len(self.entries());
            if self.entries().len() == 0 {
                assert(self@ =~= Map::<Seq<u8>, Seq<u8>>::empty());
            }
        }
        self.entries.len() == 0
    }

    /// Takes every entry out.
    pub fn clear(&mut self)
        ensures
            final(self).entries() == Seq::<(Seq<u8>, Seq<u8>)>::empty(),
            final(self)@ == Map::<Seq<u8>, Seq<u8>>::empty(),
            final(self).wf(),
    {
        self.entries = Vec::new();
        proof {
            assert(self.entries() =~= Seq::<(Seq<u8>, Seq<u8>)>::empty());
            assert(self@ =~= Map::<Seq<u8>, Seq<u8>>::empty());
        }
    }
}

/// A sorted sequence has as many entries as its mapping has keys.
pub proof fn lemma_entries_map_len(s: Seq<(Seq<u8>, Seq<u8>)>)
    requires
        strictly_sorted(s),
    ensures
        entries_map(s).dom().finite(),
        entries_map(s).len() == s.len(),
    decreases s.len(),
{
    if s.len() == 0 {
        assert(entries_map(s).dom() =~= Set::<Seq<u8>>::empty());
    } else {
        let n = s.len() - 1;
        let s0 = s.drop_last();
        assert(s0 =~= s.remove(n));
        lemma_remove_entry(s, n);
        lemma_entries_map_len(s0);
        lemma_sorted_lookup(s, n);
        assert(entries_map(s).dom() =~= entries_map(s0).dom().insert(s[n].0));
    }
}


/// One end of a range of keys.
#[derive(Clone, Copy, Debug)]
pub enum KeyBound {
    /// The range goes up to and holds this key.
    Included(Sha256),
    /// The range goes up to this key and does not hold it.
    Excluded(Sha256),
    /// The range has no end on this side.
    Unbounded,
}

/// Whether `key` lies at or above the lower end `lower`.
pub open spec fn above(key: Seq<u8>, lower: KeyBound) -> bool {
    match lower {
        KeyBound::Included(k) => !lex_lt(key, k@),
        KeyBound::Excluded(k) => lex_lt(k@, key),
        KeyBound::Unbounded => true,
    }
}

/// Whether `key` lies at or below the upper end `upper`.
pub open spec fn below(key: Seq<u8>, upper: KeyBound) -> bool {
    match upper {
        KeyBound::Included(k) => !lex_lt(k@, key),
        KeyBound::Excluded(k) => lex_lt(key, k@),
        KeyBound::Unbounded => true,
    }
}

/// The entries of `s` whose keys lie between `lower` and `upper`, in order.
pub open spec fn entries_between(
    s: Seq<(Seq<u8>, Seq<u8>)>,
    lower: KeyBound,
    upper: KeyBound,
) -> Seq<(Seq<u8>, Seq<u8>)> {
    s.filter(|e: (Seq<u8>, Seq<u8>)| above(e.0, lower) && below(e.0, upper))
}

/// Where the entries that satisfy a predicate are those from `lo` up to
/// `hi`, filtering by it gives that stretch.
proof fn lemma_filter_stretch(
    s: Seq<(Seq<u8>, Seq<u8>)>,
    pred: spec_fn((Seq<u8>, Seq<u8>)) -> bool,
    lo: int,
    hi: int,
)
    requires
        0 <= lo <= hi <= s.len(),
        forall|i: int| 0 <= i < s.len() ==> (pred(#[trigger] s[i]) <==> lo <= i < hi),
    ensures
        s.filter(pred) == s.subrange(lo, hi),
    decreases s.len(),
{
    reveal(Seq::filter);
    if s.len() == 0 {
        assert(s.subrange(lo, hi) =~= Seq::empty());
    } else {
        let n = s.len() - 1;
        let s0 = s.drop_last();
        assert forall|i: int| 0 <= i < s0.len() implies (pred(#[trigger] s0[i]) <==> lo <= i < (
        if hi <= n {
            hi
        } else {
            n
        })) by {
            assert(s0[i] == s[i]);
        }
        if hi <= n {
            if lo <= n {
                lemma_filter_stretch(s0, pred, lo, hi);
            } else {
                lemma_filter_stretch(s0, pred, n, n);
            }
            assert(!pred(s[n]));
            assert(s.subrange(lo, hi) =~= s0.subrange(lo, hi));
        } else {
            if lo <= n {
                lemma_filter_stretch(s0, pred, lo, n);
                assert(pred(s[n]));
                assert(s.subrange(lo, hi) =~= s0.subrange(lo, n).push(s[n]));
            } else {
                lemma_filter_stretch(s0, pred, n, n);
                assert(s.subrange(lo, hi) =~= Seq::empty());
                assert(s0.subrange(n, n) =~= Seq::empty());
            }
        }
    }
}

/// The serialization of a sequence with one more entry.
pub proof fn lemma_table_bytes_push(s: Seq<(Seq<u8>, Seq<u8>)>, e: (Seq<u8>, Seq<u8>))
    ensures
        table_bytes(s.push(e)) == table_bytes(s) + entry_bytes(e),
{
    assert(s.push(e).drop_last() =~= s);
}

impl Table {
    /// The entries in key order.
    pub fn iter(&self) -> (entries: &[(Sha256, Vec<u8>)])
        ensures
            view_entries(entries@) == self.entries(),
            strictly_sorted(self.entries()),
    {
        proof {
            use_type_invariant(self);
        }
        self.entries.as_slice()
    }

    /// The keys in order.
    pub fn keys(&self) -> (keys: Vec<Sha256>)
        ensures
            keys@.len() == self.entries().len(),
            forall|i: int| 0 <= i < keys@.len() ==> (#[trigger] keys@[i])@ == self.entries()[i].0,
    {
        let mut keys: Vec<Sha256> = Vec::new();
        let mut i: usize = 0;
        while i < self.entries.len()
            invariant
                0 <= i <= self.entries@.len(),
                keys@.len() == i,
                forall|j: int| 0 <= j < i ==> (#[trigger] keys@[j])@ == self.entries()[j].0,
            decreases self.entries@.len() - i,
        {
            keys.push(self.entries[i].0);
            i += 1;
        }
        keys
    }

    /// The stored values in key order.
    pub fn values(&self) -> (values: Vec<&Vec<u8>>)
        ensures
            values@.len() == self.entries().len(),
            forall|i: int|
                0 <= i < values@.len() ==> (#[trigger] values@[i])@ == self.entries()[i].1,
    {
        let mut values: Vec<&Vec<u8>> = Vec::new();
        let mut i: usize = 0;
        while i < self.entries.len()
            invariant
                0 <= i <= self.entries@.len(),
                values@.len() == i,
                forall|j: int| 0 <= j < i ==> (#[trigger] values@[j])@ == self.entries()[j].1,
            decreases self.entries@.len() - i,
        {
            values.push(&self.entries[i].1);
            i += 1;
        }
        values
    }

    /// The entries whose keys lie between `lower` and `upper`, in key order.
    pub fn range(&self, lower: KeyBound, upper: KeyBound) -> (entries: &[(Sha256, Vec<u8>)])
        ensures
            view_entries(entries@) == entries_between(self.entries(), lower, upper),
    {
        proof {
            use_type_invariant(self);
        }
        let ghost s = self.entries();
        let n: usize = self.entries.len();
        let lo: usize = match lower {
            KeyBound::Included(k) => self.find(&k).0,
            KeyBound::Excluded(k) => {
                let (at, found) = self.find(&k);
                if found {
                    at + 1
                } else {
                    at
                }
            },
            KeyBound::Unbounded => 0,
        };
        let hi: usize = match upper {
            KeyBound::Included(k) => {
                let (at, found) = self.find(&k);
                if found {
                    at + 1
                } else {
                    at
                }
            },
            KeyBound::Excluded(k) => self.find(&k).0,
            KeyBound::Unbounded => n,
        };
        proof {
            assert forall|i: int| 0 <= i < s.len() implies (above(#[trigger] s[i].0, lower) <==> lo
                <= i) by {
                match lower {
                    KeyBound::Included(k) => {
                        lemma_rank_splits(s, k@);
                    },
                    KeyBound::Excluded(k) => {
                        lemma_rank_splits(s, k@);
                        if i < lo {
                            if lex_lt(k@, s[i].0) {
                                if i < rank_of(s, k@) {
                                    lemma_lex_asymmetric(k@, s[i].0);
                                } else {
                                    lemma_lex_irreflexive(k@);
                                }
                            }
                        }
                    },
                    KeyBound::Unbounded => {},
                }
            }
            assert forall|i: int| 0 <= i < s.len() implies (below(#[trigger] s[i].0, upper) <==> i
                < hi) by {
                match upper {
                    KeyBound::Included(k) => {
                        lemma_rank_splits(s, k@);
                        if i < hi {
                            if lex_lt(k@, s[i].0) {
                                if i < rank_of(s, k@) {
                                    lemma_lex_asymmetric(k@, s[i].0);
                                } else {
                                    lemma_lex_irreflexive(k@);
                                }
                            }
                        }
                    },
                    KeyBound::Excluded(k) => {
                        lemma_rank_splits(s, k@);
                    },
                    KeyBound::Unbounded => {},
                }
            }
        }
        let ghost pred = |e: (Seq<u8>, Seq<u8>)| above(e.0, lower) && below(e.0, upper);
        if lo < hi {
            proof {
                lemma_filter_stretch(s, pred, lo as int, hi as int);
            }
            let out = vstd::slice::slice_subrange(self.entries.as_slice(), lo, hi);
            assert(view_entries(out@) =~= s.subrange(lo as int, hi as int));
            out
        } else {
            proof {
                lemma_filter_stretch(s, pred, 0, 0);
            }
            let out = vstd::slice::slice_subrange(self.entries.as_slice(), 0, 0);
            assert(view_entries(out@) =~= s.subrange(0, 0));
            out
        }
    }

    /// The entry with the least key.
    pub fn first_key_value(&self) -> (entry: Option<(&Sha256, &Vec<u8>)>)
        ensures
            match entry {
                Some((k, v)) => self.entries().len() > 0 && (k@, v@) == self.entries().first(),
                None => self.entries().len() == 0,
            },
    {
        if self.entries.len() == 0 {
            None
        } else {
            let e = &self.entries[0];
            Some((&e.0, &e.1))
        }
    }

    /// The entry with the greatest key.
    pub fn last_key_value(&self) -> (entry: Option<(&Sha256, &Vec<u8>)>)
        ensures
            match entry {
                Some((k, v)) => self.entries().len() > 0 && (k@, v@) == self.entries().last(),
                None => self.entries().len() == 0,
            },
    {
        let n: usize = self.entries.len();
        if n == 0 {
            None
        } else {
            let e = &self.entries[n - 1];
            Some((&e.0, &e.1))
        }
    }

    /// Takes out the entry with the least key.
    pub fn pop_first(&mut self) -> (entry: Option<(Sha256, Vec<u8>)>)
        ensures
            match entry {
                Some((k, v)) => old(self).entries().len() > 0 && (k@, v@) == old(
                    self,
                ).entries().first() && final(self).entries() == old(self).entries().drop_first()
                    && final(self)@ == old(self)@.remove(k@),
                None => old(self).entries().len() == 0 && final(self).entries() == old(
                    self,
                ).entries(),
            },
            final(self).wf(),
    {
        proof {
            use_type_invariant(&*self);
        }
        let ghost s = self.entries();
        if self.entries.len() == 0 {
            None
        } else {
            let mut entries: Vec<(Sha256, Vec<u8>)> = Vec::new();
            std::mem::swap(&mut entries, &mut self.entries);
            let taken = entries.remove(0);
            proof {
                lemma_remove_entry(s, 0);
                assert(view_entries(entries@) =~= s.remove(0));
                assert(s.remove(0) =~= s.drop_first());
            }
            self.entries = entries;
            Some(taken)
        }
    }

    /// Takes out the entry with the greatest key.
    pub fn pop_last(&mut self) -> (entry: Option<(Sha256, Vec<u8>)>)
        ensures
            match entry {
                Some((k, v)) => old(self).entries().len() > 0 && (k@, v@) == old(
                    self,
                ).entries().last() && final(self).entries() == old(self).entries().drop_last()
                    && final(self)@ == old(self)@.remove(k@),
                None => old(self).entries().len() == 0 && final(self).entries() == old(
                    self,
                ).entries(),
            },
            final(self).wf(),
    {
        proof {
            use_type_invariant(&*self);
        }
        let ghost s = self.entries();
        if self.entries.len() == 0 {
            None
        } else {
            let mut entries: Vec<(Sha256, Vec<u8>)> = Vec::new();
            std::mem::swap(&mut entries, &mut self.entries);
            let n: usize = entries.len();
            let taken = entries.remove(n - 1);
            proof {
                lemma_remove_entry(s, n - 1);
                assert(view_entries(entries@) =~= s.remove(n - 1));
                assert(s.remove(n - 1) =~= s.drop_last());
            }
            self.entries = entries;
            Some(taken)
        }
    }

    /// Moves every entry of `other` into `self`; where both hold a key, the
    /// value of `other` stays.
    pub fn append(&mut self, other: &mut Table)
        ensures
            final(self)@ == old(self)@.union_prefer_right(old(other)@),
            final(other).entries() == Seq::<(Seq<u8>, Seq<u8>)>::empty(),
            final(self).wf(),
            final(other).wf(),
    {
        proof {
            use_type_invariant(&*self);
            use_type_invariant(&*other);
        }
        let ghost mine = self@;
        let ghost theirs = other.entries();
        let mut taken: Vec<(Sha256, Vec<u8>)> = Vec::new();
        std::mem::swap(&mut taken, &mut other.entries);
        assert(other.entries() =~= Seq::<(Seq<u8>, Seq<u8>)>::empty());
        assert(mine.union_prefer_right(entries_map(theirs.skip(theirs.len() as int))) =~= mine) by {
            assert(theirs.skip(theirs.len() as int) =~= Seq::empty());
        }
        while taken.len() > 0
            invariant
                strictly_sorted(theirs),
                taken@.len() <= theirs.len(),
                view_entries(taken@) == theirs.take(taken@.len() as int),
                self@ == mine.union_prefer_right(entries_map(theirs.skip(taken@.len() as int))),
            decreases taken@.len(),
        {
            let ghost n = taken@.len() - 1;
            let (key, value) = taken.pop().unwrap();
            proof {
                assert(view_entries(taken@) =~= theirs.take(n));
                assert((key@, value@) == theirs.take(n + 1)[n]);
                lemma_skip_map(theirs, n);
                assert(mine.union_prefer_right(entries_map(theirs.skip(n + 1))).insert(
                    key@,
                    value@,
                ) =~= mine.union_prefer_right(entries_map(theirs.skip(n))));
            }
            self.insert(value, key);
        }
        proof {
            assert(theirs.skip(0) =~= theirs);
            use_type_invariant(&*self);
            use_type_invariant(&*other);
        }
    }

    /// The serialization: for each entry in key order the 32 bytes of the
    /// key, the length of the value as four bytes, most significant first,
    /// and the value.
    pub fn to_bytes(&self) -> (bytes: Vec<u8>)
        ensures
            bytes@ == self.spec_to_bytes(),
    {
        let ghost s = self.entries();
        let mut bytes: Vec<u8> = Vec::new();
        let mut i: usize = 0;
        assert(s.take(0) =~= Seq::empty());
        while i < self.entries.len()
            invariant
                0 <= i <= self.entries@.len(),
                s == self.entries(),
                bytes@ == table_bytes(s.take(i as int)),
            decreases self.entries@.len() - i,
        {
            let entry = &self.entries[i];
            let n: usize = entry.1.len();
            push_bytes(&mut bytes, entry.0.as_bytes().as_slice());
            bytes.push(((n / 0x100_0000) % 256) as u8);
            bytes.push(((n / 0x1_0000) % 256) as u8);
            bytes.push(((n / 0x100) % 256) as u8);
            bytes.push((n % 256) as u8);
            push_bytes(&mut bytes, entry.1.as_slice());
            proof {
                lemma_table_bytes_push(s.take(i as int), s[i as int]);
                assert(s.take(i + 1) =~= s.take(i as int).push(s[i as int]));
                assert(bytes@ =~= table_bytes(s.take(i as int)) + entry_bytes(s[i as int]));
            }
            i += 1;
        }
        assert(s.take(i as int) =~= s);
        bytes
    }
}

/// The mapping of a sorted sequence from `n` on is that from `n + 1` on with
/// the entry at `n` added.
proof fn lemma_skip_map(s: Seq<(Seq<u8>, Seq<u8>)>, n: int)
    requires
        strictly_sorted(s),
        0 <= n < s.len(),
    ensures
        entries_map(s.skip(n)) == entries_map(s.skip(n + 1)).insert(s[n].0, s[n].1),
        strictly_sorted(s.skip(n)),
{
    let a = s.skip(n);
    let b = s.skip(n + 1);
    assert forall|i: int, j: int| 0 <= i < j < a.len() implies lex_lt(
        #[trigger] a[i].0,
        #[trigger] a[j].0,
    ) by {
        assert(a[i] == s[n + i]);
        assert(a[j] == s[n + j]);
    }
    assert(b =~= a.remove(0));
    lemma_remove_entry(a, 0);
    lemma_sorted_lookup(a, 0);
    assert(entries_map(a) =~= entries_map(b).insert(s[n].0, s[n].1));
}

impl Clone for Table {
    fn clone(&self) -> (copy: Table)
        ensures
            copy.entries() == self.entries(),
            copy@ == self@,
    {
        proof {
            use_type_invariant(self);
        }
        let mut entries: Vec<(Sha256, Vec<u8>)> = Vec::new();
        let mut i: usize = 0;
        while i < self.entries.len()
            invariant
                0 <= i <= self.entries@.len(),
                entries@.len() == i,
                forall|j: int|
                    0 <= j < i ==> (#[trigger] entries@[j]).0@ == self.entries@[j].0@
                        && entries@[j].1@ == self.entries@[j].1@,
            decreases self.entries@.len() - i,
        {
            let entry = &self.entries[i];
            let value: Vec<u8> = vstd::slice::slice_to_vec(entry.1.as_slice());
            entries.push((entry.0, value));
            i += 1;
        }
        proof {
            assert(view_entries(entries@) =~= self.entries());
        }
        Table { entries }
    }
}

} // verus!
