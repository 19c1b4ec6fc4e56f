//! The binary layout of a version log: what is written to disk, before it
//! is compressed, and how it is read back.
//!
//! A log is the number of its versions, the versions, oldest first, and the
//! optional bound. A version is its date, its number and its fragment. A
//! fragment is the number of its entries, the entries in key order (each
//! the 32 bytes of the key and the value behind its length), the 32 bytes
//! of the hash, and the metadata. Every number is written in eight bytes,
//! least significant first, unless the metadata's layout says otherwise.

use crate::clock::Timestamp;
use crate::encoding::le32;
use crate::encoding::le64;
use crate::encoding::lemma_read_exact;
use crate::encoding::lemma_read_le32;
use crate::encoding::lemma_read_le64;
use crate::encoding::lemma_read_optional;
use crate::encoding::lemma_read_optional_u64;
use crate::encoding::lemma_read_prefixed;
use crate::encoding::optional;
use crate::encoding::optional_u64;
use crate::encoding::prefixed;
use crate::encoding::read_exact;
use crate::encoding::read_le32;
use crate::encoding::read_le64;
use crate::encoding::read_optional;
use crate::encoding::read_optional_u64;
use crate::encoding::read_prefixed;
use crate::encoding::signed_of;
use crate::encoding::unsigned_of;
use crate::fragment::metadata_bytes;
use crate::fragment::FragmentView;
use crate::fragment::MetadataView;
use crate::table::strictly_sorted;
use crate::versioning::VersionControlView;
use crate::versioning::VersionView;
use crate::encoding::get_exact;
use crate::encoding::get_i32;
use crate::encoding::get_optional;
use crate::encoding::get_optional_u64;
use crate::encoding::get_prefixed;
use crate::encoding::get_u32;
use crate::encoding::get_u64;
use crate::encoding::push_bytes;
use crate::encoding::put_optional_u64;
use crate::encoding::put_prefixed;
use crate::encoding::put_u64;
use crate::fragment::Fragment;
use crate::fragment::Metadata;
use crate::hash::Sha256;
use crate::table::view_entries;
use crate::table::Table;
use crate::versioning::view_versions;
use crate::versioning::Version;
use crate::versioning::VersionControl;
use std::string::FromUtf8Error;
use vstd::prelude::*;
use vstd::utf8::decode_utf8;
use vstd::utf8::encode_utf8;
use vstd::utf8::encode_utf8_decode_utf8;
use vstd::utf8::encode_utf8_valid_utf8;
use vstd::utf8::valid_utf8;

verus! {

/// The record of one entry: the key, and the value behind its length.
pub open spec fn entry_record(e: (Seq<u8>, Seq<u8>)) -> Seq<u8> {
    e.0 + prefixed(e.1)
}

/// The records of entries, one behind the other.
pub open spec fn entries_record(s: Seq<(Seq<u8>, Seq<u8>)>) -> Seq<u8>
    decreases s.len(),
{
    if s.len() == 0 {
        Seq::empty()
    } else {
        entry_record(s[0]) + entries_record(s.drop_first())
    }
}

/// The record of a fragment.
pub open spec fn fragment_record(f: FragmentView) -> Seq<u8> {
    le64(f.entries.len() as u64) + entries_record(f.entries) + f.hash + metadata_bytes(f.metadata)
}

/// The record of a version.
pub open spec fn version_record(v: VersionView) -> Seq<u8> {
    le64(v.creation_date) + le64(v.version) + fragment_record(v.fragment)
}

/// The records of versions, one behind the other.
pub open spec fn versions_record(s: Seq<VersionView>) -> Seq<u8>
    decreases s.len(),
{
    if s.len() == 0 {
        Seq::empty()
    } else {
        version_record(s[0]) + versions_record(s.drop_first())
    }
}

/// A bound as a number of eight bytes.
pub open spec fn wide(max_versions: Option<usize>) -> Option<u64> {
    match max_versions {
        Some(m) => Some(m as u64),
        None => None,
    }
}

/// The record of a version log.
pub open spec fn log_record(log: VersionControlView) -> Seq<u8> {
    le64(log.versions.len() as u64) + versions_record(log.versions) + optional_u64(
        wide(log.max_versions),
    )
}

/// The entry whose record starts at `at`.
pub open spec fn read_entry(data: Seq<u8>, at: int) -> Option<((Seq<u8>, Seq<u8>), int)> {
    match read_exact(data, at, 32) {
        Some((key, next)) => match read_prefixed(data, next) {
            Some((value, end)) => Some(((key, value), end)),
            None => None,
        },
        None => None,
    }
}

/// The `count` entries whose records start at `at`.
pub open spec fn read_entries(data: Seq<u8>, at: int, count: nat) -> Option<
    (Seq<(Seq<u8>, Seq<u8>)>, int),
>
    decreases count,
{
    if count == 0 {
        Some((Seq::empty(), at))
    } else {
        match read_entry(data, at) {
            Some((e, next)) => match read_entries(data, next, (count - 1) as nat) {
                Some((rest, end)) => Some((seq![e] + rest, end)),
                None => None,
            },
            None => None,
        }
    }
}

/// The point in time whose record starts at `at`.
pub open spec fn read_timestamp(data: Seq<u8>, at: int) -> Option<(Timestamp, int)> {
    match read_le64(data, at) {
        Some((secs, next)) => match read_le32(data, next) {
            Some((nanos, end)) => Some((Timestamp { secs, nanos }, end)),
            None => None,
        },
        None => None,
    }
}

/// The text whose UTF-8 bytes start at `at` behind their length.
pub open spec fn read_text(data: Seq<u8>, at: int) -> Option<(Seq<char>, int)> {
    match read_prefixed(data, at) {
        Some((bytes, end)) => if valid_utf8(bytes) {
            Some((decode_utf8(bytes), end))
        } else {
            None
        },
        None => None,
    }
}

/// The size that starts at `at`, where the machine can count that far.
pub open spec fn read_size(data: Seq<u8>, at: int) -> Option<(usize, int)> {
    match read_le64(data, at) {
        Some((n, end)) => if n <= usize::MAX {
            Some((n as usize, end))
        } else {
            None
        },
        None => None,
    }
}

/// The level that starts at `at`.
pub open spec fn read_level(data: Seq<u8>, at: int) -> Option<(i32, int)> {
    match read_le32(data, at) {
        Some((u, end)) => Some((signed_of(u), end)),
        None => None,
    }
}

/// The policy part of the metadata, which starts at `at`: the algorithm's
/// name, the level and the optional dictionary.
pub open spec fn read_policy(data: Seq<u8>, at: int) -> Option<
    ((Seq<char>, i32, Option<Seq<u8>>), int),
> {
    match read_text(data, at) {
        Some((compression, a1)) => match read_level(data, a1) {
            Some((level, a2)) => match read_optional(data, a2) {
                Some((dict, a3)) => Some(((compression, level, dict), a3)),
                None => None,
            },
            None => None,
        },
        None => None,
    }
}

/// The metadata whose serialization starts at `at`.
pub open spec fn read_metadata(data: Seq<u8>, at: int) -> Option<(MetadataView, int)> {
    match read_timestamp(data, at) {
        Some((creation_date, a1)) => match read_timestamp(data, a1) {
            Some((last_modified, a2)) => match read_policy(data, a2) {
                Some((policy, a3)) => match read_size(data, a3) {
                    Some((size, a4)) => Some(
                        (
                            MetadataView {
                                creation_date,
                                last_modified,
                                compression: policy.0,
                                compression_level: policy.1,
                                compression_dict: policy.2,
                                size,
                            },
                            a4,
                        ),
                    ),
                    None => None,
                },
                None => None,
            },
            None => None,
        },
        None => None,
    }
}

/// The sorted entries of a fragment, which start at `at` behind their
/// number.
pub open spec fn read_table(data: Seq<u8>, at: int) -> Option<(Seq<(Seq<u8>, Seq<u8>)>, int)> {
    match read_le64(data, at) {
        Some((count, a1)) => match read_entries(data, a1, count as nat) {
            Some((entries, a2)) => if strictly_sorted(entries) {
                Some((entries, a2))
            } else {
                None
            },
            None => None,
        },
        None => None,
    }
}

/// The fragment whose record starts at `at`. Entries that are not in key
/// order make no fragment.
pub open spec fn read_fragment(data: Seq<u8>, at: int) -> Option<(FragmentView, int)> {
    match read_table(data, at) {
        Some((entries, a1)) => match read_exact(data, a1, 32) {
            Some((hash, a2)) => match read_metadata(data, a2) {
                Some((metadata, a3)) => Some((FragmentView { entries, hash, metadata }, a3)),
                None => None,
            },
            None => None,
        },
        None => None,
    }
}

/// The version whose record starts at `at`.
pub open spec fn read_version(data: Seq<u8>, at: int) -> Option<(VersionView, int)> {
    match read_le64(data, at) {
        Some((creation_date, a1)) => match read_le64(data, a1) {
            Some((version, a2)) => match read_fragment(data, a2) {
                Some((fragment, a3)) => Some(
                    (VersionView { creation_date, version, fragment }, a3),
                ),
                None => None,
            },
            None => None,
        },
        None => None,
    }
}

/// The `count` versions whose records start at `at`.
pub open spec fn read_versions(data: Seq<u8>, at: int, count: nat) -> Option<
    (Seq<VersionView>, int),
>
    decreases count,
{
    if count == 0 {
        Some((Seq::empty(), at))
    } else {
        match read_version(data, at) {
            Some((v, next)) => match read_versions(data, next, (count - 1) as nat) {
                Some((rest, end)) => Some((seq![v] + rest, end)),
                None => None,
            },
            None => None,
        }
    }
}

/// The bound that starts at `at`, where the machine can count that far.
pub open spec fn read_bound(data: Seq<u8>, at: int) -> Option<(Option<usize>, int)> {
    match read_optional_u64(data, at) {
        Some((Some(m), end)) => if m <= usize::MAX {
            Some((Some(m as usize), end))
        } else {
            None
        },
        Some((None, end)) => Some((None, end)),
        None => None,
    }
}

/// The version log that `data` is the record of. Bytes behind the record
/// make no log.
pub open spec fn read_log(data: Seq<u8>) -> Option<VersionControlView> {
    match read_le64(data, 0) {
        Some((count, a1)) => match read_versions(data, a1, count as nat) {
            Some((versions, a2)) => match read_bound(data, a2) {
                Some((max_versions, a3)) => if a3 == data.len() {
                    Some(VersionControlView { versions, max_versions })
                } else {
                    None
                },
                None => None,
            },
            None => None,
        },
        None => None,
    }
}

/// Whether the entries can be written: each key has 32 bytes, and every
/// length fits in eight bytes.
pub open spec fn entries_fit(s: Seq<(Seq<u8>, Seq<u8>)>) -> bool {
    &&& s.len() <= u64::MAX
    &&& forall|i: int|
        0 <= i < s.len() ==> (#[trigger] s[i]).0.len() == 32 && s[i].1.len() <= u64::MAX
}

/// Whether the metadata can be written: every length fits in eight bytes.
pub open spec fn metadata_fits(m: MetadataView) -> bool {
    &&& encode_utf8(m.compression).len() <= u64::MAX
    &&& m.compression_dict matches Some(d) ==> d.len() <= u64::MAX
}

/// Whether the fragment can be written and read back: the entries are in
/// key order, the hash has 32 bytes, and every length fits.
pub open spec fn fragment_fits(f: FragmentView) -> bool {
    &&& entries_fit(f.entries)
    &&& strictly_sorted(f.entries)
    &&& f.hash.len() == 32
    &&& metadata_fits(f.metadata)
}

/// Whether every version can be written and read back.
pub open spec fn versions_fit(s: Seq<VersionView>) -> bool {
    &&& s.len() <= u64::MAX
    &&& forall|i: int| 0 <= i < s.len() ==> fragment_fits((#[trigger] s[i]).fragment)
}

/// The records of entries with one more entry.
pub proof fn lemma_entries_record_push(s: Seq<(Seq<u8>, Seq<u8>)>, e: (Seq<u8>, Seq<u8>))
    ensures
        entries_record(s.push(e)) == entries_record(s) + entry_record(e),
    decreases s.len(),
{
    if s.len() == 0 {
        assert(s.push(e).drop_first() =~= Seq::empty());
        assert(entries_record(s.push(e)) =~= entry_record(e) + entries_record(Seq::empty()));
        assert(entries_record(s.push(e)) =~= entries_record(s) + entry_record(e));
    } else {
        lemma_entries_record_push(s.drop_first(), e);
        assert(s.push(e).drop_first() =~= s.drop_first().push(e));
        assert(entries_record(s.push(e)) =~= entries_record(s) + entry_record(e));
    }
}

/// The records of versions with one more version.
pub proof fn lemma_versions_record_push(s: Seq<VersionView>, v: VersionView)
    ensures
        versions_record(s.push(v)) == versions_record(s) + version_record(v),
    decreases s.len(),
{
    if s.len() == 0 {
        assert(s.push(v).drop_first() =~= Seq::empty());
        assert(versions_record(s.push(v)) =~= version_record(v) + versions_record(Seq::empty()));
        assert(versions_record(s.push(v)) =~= versions_record(s) + version_record(v));
    } else {
        lemma_versions_record_push(s.drop_first(), v);
        assert(s.push(v).drop_first() =~= s.drop_first().push(v));
        assert(versions_record(s.push(v)) =~= versions_record(s) + version_record(v));
    }
}

/// An entry's record is read back as the entry.
pub proof fn lemma_read_entry(head: Seq<u8>, e: (Seq<u8>, Seq<u8>), tail: Seq<u8>)
    requires
        e.0.len() == 32,
        e.1.len() <= u64::MAX,
    ensures
        read_entry(head + entry_record(e) + tail, head.len() as int) == Some(
            (e, head.len() as int + entry_record(e).len() as int),
        ),
{
    let data = head + entry_record(e) + tail;
    lemma_read_exact(head, e.0, prefixed(e.1) + tail);
    assert(data =~= head + e.0 + (prefixed(e.1) + tail));
    lemma_read_prefixed(head + e.0, e.1, tail);
    assert(data =~= (head + e.0) + prefixed(e.1) + tail);
}

/// The records of entries are read back as the entries.
pub proof fn lemma_read_entries(head: Seq<u8>, s: Seq<(Seq<u8>, Seq<u8>)>, tail: Seq<u8>)
    requires
        forall|i: int|
            0 <= i < s.len() ==> (#[trigger] s[i]).0.len() == 32 && s[i].1.len() <= u64::MAX,
    ensures
        read_entries(head + entries_record(s) + tail, head.len() as int, s.len()) == Some(
            (s, head.len() as int + entries_record(s).len() as int),
        ),
    decreases s.len(),
{
    let data = head + entries_record(s) + tail;
    if s.len() == 0 {
    } else {
        let e = s[0];
        let rest = s.drop_first();
        lemma_read_entry(head, e, entries_record(rest) + tail);
        assert(data =~= head + entry_record(e) + (entries_record(rest) + tail));
        assert forall|i: int| 0 <= i < rest.len() implies (#[trigger] rest[i]).0.len() == 32
            && rest[i].1.len() <= u64::MAX by {
            assert(rest[i] == s[i + 1]);
        }
        lemma_read_entries(head + entry_record(e), rest, tail);
        assert(data =~= (head + entry_record(e)) + entries_record(rest) + tail);
        assert(seq![e] + rest =~= s);
    }
}

/// A point in time is read back from its record.
pub proof fn lemma_read_timestamp(head: Seq<u8>, t: Timestamp, tail: Seq<u8>)
    ensures
        read_timestamp(head + (le64(t.secs) + le32(t.nanos)) + tail, head.len() as int) == Some(
            (t, head.len() as int + 12),
        ),
        (le64(t.secs) + le32(t.nanos)).len() == 12,
{
    let data = head + (le64(t.secs) + le32(t.nanos)) + tail;
    lemma_read_le64(head, t.secs, le32(t.nanos) + tail);
    assert(data =~= head + le64(t.secs) + (le32(t.nanos) + tail));
    lemma_read_le32(head + le64(t.secs), t.nanos, tail);
    assert(data =~= (head + le64(t.secs)) + le32(t.nanos) + tail);
}

/// The policy part of the metadata is read back from its record.
pub proof fn lemma_read_policy(
    head: Seq<u8>,
    compression: Seq<char>,
    level: i32,
    dict: Option<Seq<u8>>,
    tail: Seq<u8>,
)
    requires
        encode_utf8(compression).len() <= u64::MAX,
        dict matches Some(d) ==> d.len() <= u64::MAX,
    ensures
        read_policy(
            head + (prefixed(encode_utf8(compression)) + le32(unsigned_of(level)) + optional(dict))
                + tail,
            head.len() as int,
        ) == Some(
            (
                (compression, level, dict),
                head.len() as int + (prefixed(encode_utf8(compression)) + le32(unsigned_of(level))
                    + optional(dict)).len() as int,
            ),
        ),
{
    let text = encode_utf8(compression);
    let a = prefixed(text);
    let b = le32(unsigned_of(level));
    let c = optional(dict);
    let data = head + (a + b + c) + tail;
    encode_utf8_valid_utf8(compression);
    encode_utf8_decode_utf8(compression);
    lemma_read_prefixed(head, text, b + c + tail);
    assert(data =~= head + a + (b + c + tail));
    lemma_read_le32(head + a, unsigned_of(level), c + tail);
    assert(data =~= (head + a) + b + (c + tail));
    lemma_read_optional(head + a + b, dict, tail);
    assert(data =~= (head + a + b) + c + tail);
}

/// Four pieces between a head and a tail, split at each of the places
/// between them.
proof fn lemma_split_four(
    head: Seq<u8>,
    a: Seq<u8>,
    b: Seq<u8>,
    c: Seq<u8>,
    d: Seq<u8>,
    tail: Seq<u8>,
)
    ensures
        head + (a + b + c + d) + tail == head + a + (b + c + d + tail),
        head + (a + b + c + d) + tail == (head + a) + b + (c + d + tail),
        head + (a + b + c + d) + tail == (head + a + b) + c + (d + tail),
        head + (a + b + c + d) + tail == (head + a + b + c) + d + tail,
        (a + b + c + d).len() == a.len() + b.len() + c.len() + d.len(),
{
    let data = head + (a + b + c + d) + tail;
    assert(data =~= head + a + (b + c + d + tail));
    assert(data =~= (head + a) + b + (c + d + tail));
    assert(data =~= (head + a + b) + c + (d + tail));
    assert(data =~= (head + a + b + c) + d + tail);
}

/// The four parts of the metadata's serialization: the two dates, the
/// policy and the size.
spec fn metadata_parts(m: MetadataView) -> (Seq<u8>, Seq<u8>, Seq<u8>, Seq<u8>) {
    (
        le64(m.creation_date.secs) + le32(m.creation_date.nanos),
        le64(m.last_modified.secs) + le32(m.last_modified.nanos),
        prefixed(encode_utf8(m.compression)) + le32(unsigned_of(m.compression_level)) + optional(
            m.compression_dict,
        ),
        le64(m.size as u64),
    )
}

/// The metadata's serialization is its four parts, one behind the other.
proof fn lemma_metadata_parts(m: MetadataView)
    ensures
        metadata_bytes(m) == metadata_parts(m).0 + metadata_parts(m).1 + metadata_parts(m).2
            + metadata_parts(m).3,
{
    let p = metadata_parts(m);
    assert(metadata_bytes(m) =~= p.0 + p.1 + p.2 + p.3);
}

/// The metadata are read back from their serialization.
pub proof fn lemma_read_metadata(head: Seq<u8>, m: MetadataView, tail: Seq<u8>)
    requires
        metadata_fits(m),
    ensures
        read_metadata(head + metadata_bytes(m) + tail, head.len() as int) == Some(
            (m, head.len() as int + metadata_bytes(m).len() as int),
        ),
{
    let p = metadata_parts(m);
    let a = p.0;
    let b = p.1;
    let c = p.2;
    let d = p.3;
    let data = head + (a + b + c + d) + tail;
    let h = head.len() as int;
    lemma_metadata_parts(m);
    lemma_split_four(head, a, b, c, d, tail);
    lemma_read_timestamp(head, m.creation_date, b + c + d + tail);
    lemma_read_timestamp(head + a, m.last_modified, c + d + tail);
    lemma_read_policy(
        head + a + b,
        m.compression,
        m.compression_level,
        m.compression_dict,
        d + tail,
    );
    lemma_read_le64(head + a + b + c, m.size as u64, tail);
    assert(read_timestamp(data, h) == Some((m.creation_date, h + 12)));
    assert(read_timestamp(data, h + 12) == Some((m.last_modified, h + 24)));
    assert(read_policy(data, h + 24) == Some(
        ((m.compression, m.compression_level, m.compression_dict), h + 24 + c.len()),
    ));
    assert(read_size(data, h + 24 + c.len()) == Some((m.size, h + 24 + c.len() + 8)));
}

/// A fragment is read back from its record.
pub proof fn lemma_read_fragment(head: Seq<u8>, f: FragmentView, tail: Seq<u8>)
    requires
        fragment_fits(f),
    ensures
        read_fragment(head + fragment_record(f) + tail, head.len() as int) == Some(
            (f, head.len() as int + fragment_record(f).len() as int),
        ),
{
    let a = le64(f.entries.len() as u64);
    let b = entries_record(f.entries);
    let c = f.hash;
    let d = metadata_bytes(f.metadata);
    let data = head + (a + b + c + d) + tail;
    let h = head.len() as int;
    lemma_split_four(head, a, b, c, d, tail);
    lemma_read_le64(head, f.entries.len() as u64, b + c + d + tail);
    lemma_read_entries(head + a, f.entries, c + d + tail);
    lemma_read_exact(head + a + b, c, d + tail);
    lemma_read_metadata(head + a + b + c, f.metadata, tail);
    assert(read_le64(data, h) == Some((f.entries.len() as u64, h + 8)));
    assert(read_entries(data, h + 8, f.entries.len()) == Some((f.entries, h + 8 + b.len())));
    assert(read_exact(data, h + 8 + b.len(), 32) == Some((c, h + 8 + b.len() + 32)));
    assert(read_metadata(data, h + 8 + b.len() + 32) == Some(
        (f.metadata, h + 8 + b.len() + 32 + d.len()),
    ));
}

/// A version is read back from its record.
pub proof fn lemma_read_version(head: Seq<u8>, v: VersionView, tail: Seq<u8>)
    requires
        fragment_fits(v.fragment),
    ensures
        read_version(head + version_record(v) + tail, head.len() as int) == Some(
            (v, head.len() as int + version_record(v).len() as int),
        ),
{
    let a = le64(v.creation_date);
    let b = le64(v.version);
    let c = fragment_record(v.fragment);
    let data = head + version_record(v) + tail;
    lemma_read_le64(head, v.creation_date, b + c + tail);
    assert(data =~= head + a + (b + c + tail));
    lemma_read_le64(head + a, v.version, c + tail);
    assert(data =~= (head + a) + b + (c + tail));
    lemma_read_fragment(head + a + b, v.fragment, tail);
    assert(data =~= (head + a + b) + c + tail);
}

/// Versions are read back from their records.
pub proof fn lemma_read_versions(head: Seq<u8>, s: Seq<VersionView>, tail: Seq<u8>)
    requires
        forall|i: int| 0 <= i < s.len() ==> fragment_fits((#[trigger] s[i]).fragment),
    ensures
        read_versions(head + versions_record(s) + tail, head.len() as int, s.len()) == Some(
            (s, head.len() as int + versions_record(s).len() as int),
        ),
    decreases s.len(),
{
    let data = head + versions_record(s) + tail;
    if s.len() == 0 {
    } else {
        let v = s[0];
        let rest = s.drop_first();
        lemma_read_version(head, v, versions_record(rest) + tail);
        assert(data =~= head + version_record(v) + (versions_record(rest) + tail));
        assert forall|i: int| 0 <= i < rest.len() implies fragment_fits(
            (#[trigger] rest[i]).fragment,
        ) by {
            assert(rest[i] == s[i + 1]);
        }
        lemma_read_versions(head + version_record(v), rest, tail);
        assert(data =~= (head + version_record(v)) + versions_record(rest) + tail);
        assert(seq![v] + rest =~= s);
    }
}

/// A version log is read back from its record.
pub proof fn lemma_read_log(log: VersionControlView)
    requires
        versions_fit(log.versions),
    ensures
        read_log(log_record(log)) == Some(log),
{
    let a = le64(log.versions.len() as u64);
    let b = versions_record(log.versions);
    let c = optional_u64(wide(log.max_versions));
    let data = log_record(log);
    let nothing = Seq::<u8>::empty();
    lemma_read_le64(nothing, log.versions.len() as u64, b + c);
    assert(data =~= nothing + a + (b + c));
    lemma_read_versions(nothing + a, log.versions, c);
    assert(data =~= (nothing + a) + b + c);
    lemma_read_optional_u64(nothing + a + b, wide(log.max_versions), nothing);
    assert(data =~= (nothing + a + b) + c + nothing);
}


/// `std::string::FromUtf8Error`, the failure of `String::from_utf8`; opaque
/// here.
#[verifier::external_type_specification]
#[verifier::external_body]
pub struct ExFromUtf8Error(FromUtf8Error);

/// `String::from_utf8` makes a string of bytes. std documents that it fails
/// where the bytes are not valid UTF-8 and else gives the string that has
/// those bytes.
pub assume_specification[ String::from_utf8 ](bytes: Vec<u8>) -> (r: Result<String, FromUtf8Error>)
    ensures
        r is Ok <==> valid_utf8(bytes@),
        r matches Ok(text) ==> encode_utf8(text@) == bytes@,
;

/// Appends the record of `fragment`.
pub fn write_fragment(out: &mut Vec<u8>, fragment: &Fragment)
    ensures
        final(out)@ == old(out)@ + fragment_record(fragment@),
        fragment_fits(fragment@),
{
    let entries = fragment.get_table().iter();
    let ghost s = fragment@.entries;
    let ghost start = out@;
    let n: usize = entries.len();
    put_u64(out, n as u64);
    let mut i: usize = 0;
    assert(s.take(0) =~= Seq::empty());
    while i < n
        invariant
            0 <= i <= n,
            n == entries@.len(),
            s == view_entries(entries@),
            out@ == start + le64(n as u64) + entries_record(s.take(i as int)),
            forall|j: int|
                0 <= j < i ==> (#[trigger] s[j]).0.len() == 32 && s[j].1.len() <= u64::MAX,
        decreases n - i,
    {
        let entry = &entries[i];
        let ghost e = (entry.0@, entry.1@);
        let size: usize = entry.1.len();
        push_bytes(out, entry.0.as_bytes().as_slice());
        put_prefixed(out, entry.1.as_slice());
        proof {
            assert(s[i as int] == e);
            entry.0.lemma_len();
            lemma_entries_record_push(s.take(i as int), e);
            assert(s.take(i + 1) =~= s.take(i as int).push(e));
            assert(out@ =~= start + le64(n as u64) + (entries_record(s.take(i as int))
                + entry_record(e)));
        }
        i += 1;
    }
    assert(s.take(n as int) =~= s);
    let hash = fragment.get_hash();
    push_bytes(out, hash.as_bytes().as_slice());
    let metadata = fragment.get_metadata();
    let text_len: usize = metadata.compression.as_str().as_bytes().len();
    match &metadata.compression_dict {
        Some(d) => {
            let dict_len: usize = d.len();
        },
        None => {},
    }
    let bytes = metadata.to_bytes();
    push_bytes(out, bytes.as_slice());
    proof {
        hash.lemma_len();
        assert(out@ =~= start + fragment_record(fragment@));
    }
}

/// The record of `log`, which reads back as the log.
pub fn write_log(log: &VersionControl) -> (out: Vec<u8>)
    ensures
        out@ == log_record(log@),
        read_log(out@) == Some(log@),
{
    let history = log.get_history();
    let ghost s = log@.versions;
    let n: usize = history.len();
    let mut out: Vec<u8> = Vec::new();
    put_u64(&mut out, n as u64);
    let mut i: usize = 0;
    assert(s.take(0) =~= Seq::empty());
    while i < n
        invariant
            0 <= i <= n,
            n == history@.len(),
            n == s.len(),
            forall|j: int| 0 <= j < n ==> (#[trigger] history@[j])@ == s[j],
            out@ == le64(n as u64) + versions_record(s.take(i as int)),
            forall|j: int| 0 <= j < i ==> fragment_fits((#[trigger] s[j]).fragment),
        decreases n - i,
    {
        let version = history[i];
        let ghost before = out@;
        put_u64(&mut out, version.creation_date);
        put_u64(&mut out, version.version);
        write_fragment(&mut out, &version.fragment);
        proof {
            assert(version@ == s[i as int]);
            lemma_versions_record_push(s.take(i as int), version@);
            assert(s.take(i + 1) =~= s.take(i as int).push(version@));
            assert(out@ =~= le64(n as u64) + (versions_record(s.take(i as int)) + version_record(
                version@,
            )));
        }
        i += 1;
    }
    assert(s.take(n as int) =~= s);
    let bound: Option<u64> = match log.get_max_versions() {
        Some(m) => Some(m as u64),
        None => None,
    };
    put_optional_u64(&mut out, bound);
    proof {
        lemma_read_log(log@);
    }
    out
}

/// Reads the entry whose record starts at `at`.
fn parse_entry(data: &[u8], at: usize) -> (r: Option<((Sha256, Vec<u8>), usize)>)
    ensures
        match r {
            Some((e, next)) => read_entry(data@, at as int) == Some(
                ((e.0@, e.1@), next as int),
            ),
            None => read_entry(data@, at as int).is_none(),
        },
{
    match get_exact(data, at, 32) {
        Some((raw, next)) => {
            match Sha256::from_slice(raw.as_slice()) {
                Some(key) => match get_prefixed(data, next) {
                    Some((value, end)) => Some(((key, value), end)),
                    None => None,
                },
                None => None,
            }
        },
        None => None,
    }
}

/// Reads the point in time whose record starts at `at`.
fn parse_timestamp(data: &[u8], at: usize) -> (r: Option<(Timestamp, usize)>)
    ensures
        match r {
            Some((t, next)) => read_timestamp(data@, at as int) == Some((t, next as int)),
            None => read_timestamp(data@, at as int).is_none(),
        },
{
    match get_u64(data, at) {
        Some((secs, next)) => match get_u32(data, next) {
            Some((nanos, end)) => Some((Timestamp { secs, nanos }, end)),
            None => None,
        },
        None => None,
    }
}

/// Reads the text whose UTF-8 bytes start at `at` behind their length.
fn parse_text(data: &[u8], at: usize) -> (r: Option<(String, usize)>)
    ensures
        match r {
            Some((text, next)) => read_text(data@, at as int) == Some((text@, next as int)),
            None => read_text(data@, at as int).is_none(),
        },
{
    match get_prefixed(data, at) {
        Some((bytes, end)) => {
            match String::from_utf8(bytes) {
                Ok(text) => {
                    proof {
                        encode_utf8_decode_utf8(text@);
                    }
                    Some((text, end))
                },
                Err(_) => None,
            }
        },
        None => None,
    }
}

/// Reads the metadata whose serialization starts at `at`.
fn parse_metadata(data: &[u8], at: usize) -> (r: Option<(Metadata, usize)>)
    ensures
        match r {
            Some((m, next)) => read_metadata(data@, at as int) == Some((m@, next as int)),
            None => read_metadata(data@, at as int).is_none(),
        },
{
    let (creation_date, a1) = match parse_timestamp(data, at) {
        Some(r) => r,
        None => {
            return None;
        },
    };
    let (last_modified, a2) = match parse_timestamp(data, a1) {
        Some(r) => r,
        None => {
            return None;
        },
    };
    let (compression, a3) = match parse_text(data, a2) {
        Some(r) => r,
        None => {
            return None;
        },
    };
    let (compression_level, a4) = match get_i32(data, a3) {
        Some(r) => r,
        None => {
            return None;
        },
    };
    let (compression_dict, a5) = match get_optional(data, a4) {
        Some(r) => r,
        None => {
            return None;
        },
    };
    let (size, a6) = match get_u64(data, a5) {
        Some(r) => r,
        None => {
            return None;
        },
    };
    if size > usize::MAX as u64 {
        return None;
    }
    Some(
        (
            Metadata {
                creation_date,
                last_modified,
                compression,
                compression_level,
                compression_dict,
                size: size as usize,
            },
            a6,
        ),
    )
}

/// Reads the fragment whose record starts at `at`.
fn parse_fragment(data: &[u8], at: usize) -> (r: Option<(Fragment, usize)>)
    ensures
        match r {
            Some((f, next)) => read_fragment(data@, at as int) == Some((f@, next as int)),
            None => read_fragment(data@, at as int).is_none(),
        },
{
    let (count, start) = match get_u64(data, at) {
        Some(r) => r,
        None => {
            return None;
        },
    };
    let mut entries: Vec<(Sha256, Vec<u8>)> = Vec::new();
    let mut cursor: usize = start;
    let mut i: u64 = 0;
    while i < count
        invariant
            0 <= i <= count,
            read_le64(data@, at as int) == Some((count, start as int)),
            read_entries(data@, start as int, count as nat) == match read_entries(
                data@,
                cursor as int,
                (count - i) as nat,
            ) {
                Some((rest, end)) => Some((view_entries(entries@) + rest, end)),
                None => None,
            },
        decreases count - i,
    {
        match parse_entry(data, cursor) {
            Some((e, next)) => {
                let ghost before = view_entries(entries@);
                let ghost item = (e.0@, e.1@);
                entries.push(e);
                proof {
                    assert(view_entries(entries@) =~= before.push(item));
                    match read_entries(data@, next as int, (count - i - 1) as nat) {
                        Some((rest, end)) => {
                            assert(before + (seq![item] + rest) =~= before.push(item) + rest);
                        },
                        None => {},
                    }
                }
                cursor = next;
            },
            None => {
                proof {
                    assert(read_entries(data@, cursor as int, (count - i) as nat).is_none());
                }
                return None;
            },
        }
        i += 1;
    }
    proof {
        assert(view_entries(entries@) + Seq::empty() =~= view_entries(entries@));
    }
    let table = match Table::from_sorted(entries) {
        Some(table) => table,
        None => {
            return None;
        },
    };
    let (raw, a2) = match get_exact(data, cursor, 32) {
        Some(r) => r,
        None => {
            return None;
        },
    };
    let hash = match Sha256::from_slice(raw.as_slice()) {
        Some(hash) => hash,
        None => {
            return None;
        },
    };
    let (metadata, a3) = match parse_metadata(data, a2) {
        Some(r) => r,
        None => {
            return None;
        },
    };
    Some((Fragment::from_parts(table, hash, metadata), a3))
}

/// Reads the version whose record starts at `at`.
fn parse_version(data: &[u8], at: usize) -> (r: Option<(Version, usize)>)
    ensures
        match r {
            Some((v, next)) => read_version(data@, at as int) == Some((v@, next as int)),
            None => read_version(data@, at as int).is_none(),
        },
{
    let (creation_date, a1) = match get_u64(data, at) {
        Some(r) => r,
        None => {
            return None;
        },
    };
    let (version, a2) = match get_u64(data, a1) {
        Some(r) => r,
        None => {
            return None;
        },
    };
    let (fragment, a3) = match parse_fragment(data, a2) {
        Some(r) => r,
        None => {
            return None;
        },
    };
    Some((Version { creation_date, version, fragment }, a3))
}

/// Reads the versions and the bound of the log that `data` is the record
/// of.
pub fn parse_log(data: &[u8]) -> (r: Option<(Vec<Version>, Option<usize>)>)
    ensures
        match r {
            Some((versions, max_versions)) => read_log(data@) == Some(
                VersionControlView { versions: view_versions(versions@), max_versions },
            ),
            None => read_log(data@).is_none(),
        },
{
    let (count, start) = match get_u64(data, 0) {
        Some(r) => r,
        None => {
            return None;
        },
    };
    let mut versions: Vec<Version> = Vec::new();
    let mut cursor: usize = start;
    let mut i: u64 = 0;
    while i < count
        invariant
            0 <= i <= count,
            read_le64(data@, 0) == Some((count, start as int)),
            read_versions(data@, start as int, count as nat) == match read_versions(
                data@,
                cursor as int,
                (count - i) as nat,
            ) {
                Some((rest, end)) => Some((view_versions(versions@) + rest, end)),
                None => None,
            },
        decreases count - i,
    {
        match parse_version(data, cursor) {
            Some((v, next)) => {
                let ghost before = view_versions(versions@);
                let ghost item = v@;
                versions.push(v);
                proof {
                    assert(view_versions(versions@) =~= before.push(item));
                    match read_versions(data@, next as int, (count - i - 1) as nat) {
                        Some((rest, end)) => {
                            assert(before + (seq![item] + rest) =~= before.push(item) + rest);
                        },
                        None => {},
                    }
                }
                cursor = next;
            },
            None => {
                proof {
                    assert(read_versions(data@, cursor as int, (count - i) as nat).is_none());
                }
                return None;
            },
        }
        i += 1;
    }
    proof {
        assert(view_versions(versions@) + Seq::empty() =~= view_versions(versions@));
    }
    let (bound, end) = match get_optional_u64(data, cursor) {
        Some(r) => r,
        None => {
            return None;
        },
    };
    let max_versions: Option<usize> = match bound {
        Some(m) => {
            if m > usize::MAX as u64 {
                return None;
            }
            Some(m as usize)
        },
        None => None,
    };
    if end != data.len() {
        return None;
    }
    Some((versions, max_versions))
}

} // verus!
