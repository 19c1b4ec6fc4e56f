//! 32-byte SHA-256 digests and their lexicographic order.

use vstd::prelude::*;
use vstd::slice::slice_subrange;

verus! {

/// The SHA-256 digest of a message, as computed by `ring`.
///
/// Nothing is stated of it but that it is a function of the message.
pub uninterp spec fn sha256(data: Seq<u8>) -> Seq<u8>;

/// SHA-256 is defined for messages of fewer than 2^61 bytes (2^64 bits).
pub const MAX_MESSAGE_LEN: u64 = 0x2000_0000_0000_0000;

/// The digest this library assigns to a byte sequence: its SHA-256 digest,
/// where for an input too long for SHA-256 only the longest admissible prefix
/// counts.
pub open spec fn digest_of(data: Seq<u8>) -> Seq<u8> {
    if data.len() < MAX_MESSAGE_LEN {
        sha256(data)
    } else {
        sha256(data.subrange(0, MAX_MESSAGE_LEN - 1))
    }
}

/// Strict lexicographic order on byte sequences: the first differing byte
/// decides, and a proper prefix comes first.
pub open spec fn lex_lt(a: Seq<u8>, b: Seq<u8>) -> bool
    decreases a.len(),
{
    if b.len() == 0 {
        false
    } else if a.len() == 0 {
        true
    } else if a[0] != b[0] {
        a[0] < b[0]
    } else {
        lex_lt(a.drop_first(), b.drop_first())
    }
}

/// The lexicographic order is irreflexive.
pub proof fn lemma_lex_irreflexive(a: Seq<u8>)
    ensures
        !lex_lt(a, a),
    decreases a.len(),
{
    if a.len() > 0 {
        lemma_lex_irreflexive(a.drop_first());
    }
}

/// The lexicographic order is transitive.
pub proof fn lemma_lex_transitive(a: Seq<u8>, b: Seq<u8>, c: Seq<u8>)
    requires
        lex_lt(a, b),
        lex_lt(b, c),
    ensures
        lex_lt(a, c),
    decreases a.len(),
{
    if a.len() > 0 && b.len() > 0 && c.len() > 0 && a[0] == b[0] && b[0] == c[0] {
        lemma_lex_transitive(a.drop_first(), b.drop_first(), c.drop_first());
    }
}

/// The lexicographic order is total: of two sequences that differ, one comes
/// first.
pub proof fn lemma_lex_total(a: Seq<u8>, b: Seq<u8>)
    ensures
        lex_lt(a, b) || lex_lt(b, a) || a == b,
    decreases a.len(),
{
    if a.len() > 0 && b.len() > 0 && a[0] == b[0] {
        lemma_lex_total(a.drop_first(), b.drop_first());
        if a.drop_first() == b.drop_first() {
            assert(a =~= seq![a[0]] + a.drop_first());
            assert(b =~= seq![b[0]] + b.drop_first());
        }
    } else if a.len() == 0 && b.len() == 0 {
        assert(a =~= b);
    }
}

/// No two sequences precede each other.
pub proof fn lemma_lex_asymmetric(a: Seq<u8>, b: Seq<u8>)
    requires
        lex_lt(a, b),
    ensures
        !lex_lt(b, a),
        a != b,
{
    if lex_lt(b, a) {
        lemma_lex_transitive(a, b, a);
    }
    lemma_lex_irreflexive(a);
}

/// Where two sequences agree on their first `i` bytes, what follows decides
/// the order.
proof fn lemma_lex_skip(a: Seq<u8>, b: Seq<u8>, i: int)
    requires
        0 <= i <= a.len(),
        i <= b.len(),
        forall|j: int| 0 <= j < i ==> a[j] == b[j],
    ensures
        lex_lt(a, b) == lex_lt(a.skip(i), b.skip(i)),
    decreases i,
{
    if i == 0 {
        assert(a.skip(0) =~= a);
        assert(b.skip(0) =~= b);
    } else {
        lemma_lex_skip(a.drop_first(), b.drop_first(), i - 1);
        assert(a.drop_first().skip(i - 1) =~= a.skip(i));
        assert(b.drop_first().skip(i - 1) =~= b.skip(i));
    }
}

/// SHA-256 of `data` through `ring::digest::digest` with `ring::digest::SHA256`.
///
/// Claims that the 32 bytes returned are the SHA-256 digest of `data`, a
/// function of `data` alone. Inputs of 2^61 bytes or more, on which `ring`
/// panics, are left out.
#[verifier::external_body]
fn ring_sha256(data: &[u8]) -> (out: [u8; 32])
    requires
        data@.len() < MAX_MESSAGE_LEN,
    ensures
        out@ == sha256(data@),
{
    let digest = ring::digest::digest(&ring::digest::SHA256, data);
    let mut out = [0u8; 32];
    out.copy_from_slice(digest.as_ref());
    out
}

/// A 32-byte content hash.
#[derive(Clone, Copy, Debug, PartialEq, Eq, PartialOrd, Ord, Hash)]
pub struct Sha256 {
    bytes: [u8; 32],
}

impl View for Sha256 {
    type V = Seq<u8>;

    closed spec fn view(&self) -> Seq<u8> {
        self.bytes@
    }
}

impl Sha256 {
    /// Every digest has 32 bytes.
    pub broadcast proof fn lemma_len(self)
        ensures
            #[trigger] self@.len() == 32,
    {
    }

    /// Digests with the same bytes are the same digest.
    pub proof fn lemma_view_injective(self, other: Sha256)
        requires
            self@ == other@,
        ensures
            self == other,
    {
        assert(self.bytes@ =~= other.bytes@);
        assert(self.bytes == other.bytes);
    }

    /// Hashes `data`.
    pub fn new(data: &[u8]) -> (digest: Sha256)
        ensures
            digest@ == digest_of(data@),
    {
        let len: usize = data.len();
        if len as u64 >= MAX_MESSAGE_LEN {
            let prefix = slice_subrange(data, 0, (MAX_MESSAGE_LEN - 1) as usize);
            Sha256 { bytes: ring_sha256(prefix) }
        } else {
            Sha256 { bytes: ring_sha256(data) }
        }
    }

    /// Makes a digest of 32 given bytes, without hashing.
    pub fn from_bytes(bytes: [u8; 32]) -> (digest: Sha256)
        ensures
            digest@ == bytes@,
    {
        Sha256 { bytes }
    }

    /// Makes a digest of the bytes of `bytes`, without hashing, where they
    /// are 32.
    pub fn from_slice(bytes: &[u8]) -> (digest: Option<Sha256>)
        ensures
            match digest {
                Some(d) => d@ == bytes@,
                None => bytes@.len() != 32,
            },
    {
        if bytes.len() != 32 {
            return None;
        }
        let mut out: [u8; 32] = [0u8; 32];
        let mut i: usize = 0;
        while i < 32
            invariant
                0 <= i <= 32,
                bytes@.len() == 32,
                forall|j: int| 0 <= j < i ==> out@[j] == bytes@[j],
            decreases 32 - i,
        {
            out[i] = bytes[i];
            i += 1;
        }
        assert(out@ =~= bytes@);
        Some(Sha256 { bytes: out })
    }

    /// The raw 32 bytes.
    pub fn as_bytes(&self) -> (bytes: &[u8; 32])
        ensures
            bytes@ == self@,
    {
        &self.bytes
    }

    /// Whether both digests hold the same bytes.
    pub fn same(&self, other: &Sha256) -> (r: bool)
        ensures
            r == (self@ == other@),
    {
        let mut i: usize = 0;
        while i < 32
            invariant
                0 <= i <= 32,
                forall|j: int| 0 <= j < i ==> self.bytes@[j] == other.bytes@[j],
            decreases 32 - i,
        {
            if self.bytes[i] != other.bytes[i] {
                return false;
            }
            i += 1;
        }
        assert(self.bytes@ =~= other.bytes@);
        true
    }

    /// Whether `self` comes strictly before `other` in lexicographic order.
    pub fn precedes(&self, other: &Sha256) -> (r: bool)
        ensures
            r == lex_lt(self@, other@),
    {
        let mut i: usize = 0;
        while i < 32
            invariant
                0 <= i <= 32,
                forall|j: int| 0 <= j < i ==> self.bytes@[j] == other.bytes@[j],
            decreases 32 - i,
        {
            let x: u8 = self.bytes[i];
            let y: u8 = other.bytes[i];
            if x != y {
                proof {
                    lemma_lex_skip(self@, other@, i as int);
                }
                return x < y;
            }
            i += 1;
        }
        proof {
            assert(self.bytes@ =~= other.bytes@);
            lemma_lex_irreflexive(self@);
        }
        false
    }
}

} // verus!
