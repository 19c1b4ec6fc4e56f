//! Fixed-width little-endian numbers and length-prefixed bytes: the building
//! blocks of the binary layouts.

use vstd::bytes::lemma_auto_spec_u32_to_from_le_bytes;
use vstd::bytes::lemma_auto_spec_u64_to_from_le_bytes;
use vstd::bytes::spec_u32_from_le_bytes;
use vstd::bytes::spec_u32_to_le_bytes;
use vstd::bytes::spec_u64_from_le_bytes;
use vstd::bytes::spec_u64_to_le_bytes;
use vstd::bytes::u32_from_le_bytes;
use vstd::bytes::u32_to_le_bytes;
use vstd::bytes::u64_from_le_bytes;
use vstd::bytes::u64_to_le_bytes;
use vstd::prelude::*;
use vstd::slice::slice_subrange;

verus! {

/// Eight bytes, least significant first.
pub open spec fn le64(x: u64) -> Seq<u8> {
    spec_u64_to_le_bytes(x)
}

/// Four bytes, least significant first.
pub open spec fn le32(x: u32) -> Seq<u8> {
    spec_u32_to_le_bytes(x)
}

/// The unsigned number with the bits of `x` in two's complement.
pub open spec fn unsigned_of(x: i32) -> u32 {
    if x >= 0 {
        x as u32
    } else {
        (x + 0x1_0000_0000) as u32
    }
}

/// The signed number with the bits of `x` in two's complement.
pub open spec fn signed_of(x: u32) -> i32 {
    if x < 0x8000_0000 {
        x as i32
    } else {
        (x - 0x1_0000_0000) as i32
    }
}

/// Bytes behind their length as eight bytes.
pub open spec fn prefixed(data: Seq<u8>) -> Seq<u8> {
    le64(data.len() as u64) + data
}

/// Optional bytes: one byte that says whether they are there, then the
/// bytes behind their length.
pub open spec fn optional(data: Option<Seq<u8>>) -> Seq<u8> {
    match data {
        Some(d) => seq![1u8] + prefixed(d),
        None => seq![0u8],
    }
}

/// An optional number: one byte that says whether it is there, then the
/// number.
pub open spec fn optional_u64(x: Option<u64>) -> Seq<u8> {
    match x {
        Some(v) => seq![1u8] + le64(v),
        None => seq![0u8],
    }
}

/// The number that starts at `at`, where eight bytes are left.
pub open spec fn read_le64(data: Seq<u8>, at: int) -> Option<(u64, int)> {
    if 0 <= at && at + 8 <= data.len() {
        Some((spec_u64_from_le_bytes(data.subrange(at, at + 8)), at + 8))
    } else {
        None
    }
}

/// The number that starts at `at`, where four bytes are left.
pub open spec fn read_le32(data: Seq<u8>, at: int) -> Option<(u32, int)> {
    if 0 <= at && at + 4 <= data.len() {
        Some((spec_u32_from_le_bytes(data.subrange(at, at + 4)), at + 4))
    } else {
        None
    }
}

/// The `n` bytes that start at `at`, where that many are left.
pub open spec fn read_exact(data: Seq<u8>, at: int, n: int) -> Option<(Seq<u8>, int)> {
    if 0 <= at && 0 <= n && at + n <= data.len() {
        Some((data.subrange(at, at + n), at + n))
    } else {
        None
    }
}

/// The length-prefixed bytes that start at `at`.
pub open spec fn read_prefixed(data: Seq<u8>, at: int) -> Option<(Seq<u8>, int)> {
    match read_le64(data, at) {
        Some((n, next)) => read_exact(data, next, n as int),
        None => None,
    }
}

/// The optional bytes that start at `at`.
pub open spec fn read_optional(data: Seq<u8>, at: int) -> Option<(Option<Seq<u8>>, int)> {
    if 0 <= at < data.len() {
        if data[at] == 0 {
            Some((None, at + 1))
        } else if data[at] == 1 {
            match read_prefixed(data, at + 1) {
                Some((d, next)) => Some((Some(d), next)),
                None => None,
            }
        } else {
            None
        }
    } else {
        None
    }
}

/// The optional number that starts at `at`.
pub open spec fn read_optional_u64(data: Seq<u8>, at: int) -> Option<(Option<u64>, int)> {
    if 0 <= at < data.len() {
        if data[at] == 0 {
            Some((None, at + 1))
        } else if data[at] == 1 {
            match read_le64(data, at + 1) {
                Some((x, next)) => Some((Some(x), next)),
                None => None,
            }
        } else {
            None
        }
    } else {
        None
    }
}

/// A number written at the end of `head` is read back from there.
pub proof fn lemma_read_le64(head: Seq<u8>, x: u64, tail: Seq<u8>)
    ensures
        read_le64(head + le64(x) + tail, head.len() as int) == Some((x, head.len() as int + 8)),
        le64(x).len() == 8,
{
    lemma_auto_spec_u64_to_from_le_bytes();
    let all = head + le64(x) + tail;
    assert(all.subrange(head.len() as int, head.len() as int + 8) =~= le64(x));
}

/// A number written at the end of `head` is read back from there.
pub proof fn lemma_read_le32(head: Seq<u8>, x: u32, tail: Seq<u8>)
    ensures
        read_le32(head + le32(x) + tail, head.len() as int) == Some((x, head.len() as int + 4)),
        le32(x).len() == 4,
{
    lemma_auto_spec_u32_to_from_le_bytes();
    let all = head + le32(x) + tail;
    assert(all.subrange(head.len() as int, head.len() as int + 4) =~= le32(x));
}

/// Bytes written at the end of `head` are read back from there.
pub proof fn lemma_read_exact(head: Seq<u8>, body: Seq<u8>, tail: Seq<u8>)
    ensures
        read_exact(head + body + tail, head.len() as int, body.len() as int) == Some(
            (body, head.len() as int + body.len() as int),
        ),
{
    let all = head + body + tail;
    assert(all.subrange(head.len() as int, head.len() as int + body.len() as int) =~= body);
}

/// Length-prefixed bytes written at the end of `head` are read back from
/// there.
pub proof fn lemma_read_prefixed(head: Seq<u8>, body: Seq<u8>, tail: Seq<u8>)
    requires
        body.len() <= u64::MAX,
    ensures
        read_prefixed(head + prefixed(body) + tail, head.len() as int) == Some(
            (body, head.len() as int + 8 + body.len() as int),
        ),
        prefixed(body).len() == 8 + body.len(),
{
    let n = body.len() as u64;
    lemma_read_le64(head, n, body + tail);
    assert(head + prefixed(body) + tail =~= head + le64(n) + (body + tail));
    lemma_read_exact(head + le64(n), body, tail);
    assert(head + prefixed(body) + tail =~= (head + le64(n)) + body + tail);
}

/// Optional bytes written at the end of `head` are read back from there.
pub proof fn lemma_read_optional(head: Seq<u8>, body: Option<Seq<u8>>, tail: Seq<u8>)
    requires
        body matches Some(d) ==> d.len() <= u64::MAX,
    ensures
        read_optional(head + optional(body) + tail, head.len() as int) == Some(
            (body, head.len() as int + optional(body).len() as int),
        ),
{
    let all = head + optional(body) + tail;
    match body {
        Some(d) => {
            lemma_read_prefixed(head + seq![1u8], d, tail);
            assert(all =~= (head + seq![1u8]) + prefixed(d) + tail);
            assert(all[head.len() as int] == 1u8);
        },
        None => {
            assert(all[head.len() as int] == 0u8);
        },
    }
}

/// An optional number written at the end of `head` is read back from there.
pub proof fn lemma_read_optional_u64(head: Seq<u8>, x: Option<u64>, tail: Seq<u8>)
    ensures
        read_optional_u64(head + optional_u64(x) + tail, head.len() as int) == Some(
            (x, head.len() as int + optional_u64(x).len() as int),
        ),
{
    let all = head + optional_u64(x) + tail;
    match x {
        Some(v) => {
            lemma_read_le64(head + seq![1u8], v, tail);
            assert(all =~= (head + seq![1u8]) + le64(v) + tail);
            assert(all[head.len() as int] == 1u8);
        },
        None => {
            assert(all[head.len() as int] == 0u8);
        },
    }
}

/// The two's complement of a signed number reads back as the number.
pub proof fn lemma_signed_round_trip(x: i32)
    ensures
        signed_of(unsigned_of(x)) == x,
{
}

/// Appends `data` to `out`.
pub fn push_bytes(out: &mut Vec<u8>, data: &[u8])
    ensures
        final(out)@ == old(out)@ + data@,
{
    out.extend_from_slice(data);
    assert(out@ =~= old(out)@ + data@);
}

/// Appends `x` as eight bytes.
pub fn put_u64(out: &mut Vec<u8>, x: u64)
    ensures
        final(out)@ == old(out)@ + le64(x),
{
    let bytes = u64_to_le_bytes(x);
    push_bytes(out, bytes.as_slice());
}

/// Appends `x` as four bytes.
pub fn put_u32(out: &mut Vec<u8>, x: u32)
    ensures
        final(out)@ == old(out)@ + le32(x),
{
    let bytes = u32_to_le_bytes(x);
    push_bytes(out, bytes.as_slice());
}

/// Appends `x` as four bytes in two's complement.
pub fn put_i32(out: &mut Vec<u8>, x: i32)
    ensures
        final(out)@ == old(out)@ + le32(unsigned_of(x)),
{
    let u: u32 = if x >= 0 {
        x as u32
    } else {
        (x as i64 + 0x1_0000_0000) as u32
    };
    put_u32(out, u);
}

/// Appends `data` behind its length.
pub fn put_prefixed(out: &mut Vec<u8>, data: &[u8])
    ensures
        final(out)@ == old(out)@ + prefixed(data@),
{
    put_u64(out, data.len() as u64);
    push_bytes(out, data);
    assert(out@ =~= old(out)@ + prefixed(data@));
}

/// Appends optional bytes.
pub fn put_optional(out: &mut Vec<u8>, data: &Option<Vec<u8>>)
    ensures
        final(out)@ == old(out)@ + optional(
            match *data {
                Some(d) => Some(d@),
                None => None,
            },
        ),
{
    match data {
        Some(d) => {
            out.push(1u8);
            put_prefixed(out, d.as_slice());
            assert(out@ =~= old(out)@ + (seq![1u8] + prefixed(d@)));
        },
        None => {
            out.push(0u8);
            assert(out@ =~= old(out)@ + seq![0u8]);
        },
    }
}

/// Appends an optional number.
pub fn put_optional_u64(out: &mut Vec<u8>, x: Option<u64>)
    ensures
        final(out)@ == old(out)@ + optional_u64(x),
{
    match x {
        Some(v) => {
            out.push(1u8);
            put_u64(out, v);
            assert(out@ =~= old(out)@ + (seq![1u8] + le64(v)));
        },
        None => {
            out.push(0u8);
            assert(out@ =~= old(out)@ + seq![0u8]);
        },
    }
}

/// Reads the number that starts at `at`.
pub fn get_u64(data: &[u8], at: usize) -> (r: Option<(u64, usize)>)
    ensures
        match r {
            Some((x, next)) => read_le64(data@, at as int) == Some((x, next as int)),
            None => read_le64(data@, at as int).is_none(),
        },
{
    if data.len() < 8 || at > data.len() - 8 {
        return None;
    }
    let x = u64_from_le_bytes(slice_subrange(data, at, at + 8));
    Some((x, at + 8))
}

/// Reads the number that starts at `at`.
pub fn get_u32(data: &[u8], at: usize) -> (r: Option<(u32, usize)>)
    ensures
        match r {
            Some((x, next)) => read_le32(data@, at as int) == Some((x, next as int)),
            None => read_le32(data@, at as int).is_none(),
        },
{
    if data.len() < 4 || at > data.len() - 4 {
        return None;
    }
    let x = u32_from_le_bytes(slice_subrange(data, at, at + 4));
    Some((x, at + 4))
}

/// Reads the signed number that starts at `at`.
pub fn get_i32(data: &[u8], at: usize) -> (r: Option<(i32, usize)>)
    ensures
        match r {
            Some((x, next)) => read_le32(data@, at as int) == Some(
                (unsigned_of(x), next as int),
            ) && x == signed_of(unsigned_of(x)),
            None => read_le32(data@, at as int).is_none(),
        },
{
    match get_u32(data, at) {
        Some((u, next)) => {
            let x: i32 = if u < 0x8000_0000 {
                u as i32
            } else {
                (u as i64 - 0x1_0000_0000) as i32
            };
            Some((x, next))
        },
        None => None,
    }
}

/// Reads the `n` bytes that start at `at`.
pub fn get_exact(data: &[u8], at: usize, n: usize) -> (r: Option<(Vec<u8>, usize)>)
    ensures
        match r {
            Some((bytes, next)) => read_exact(data@, at as int, n as int) == Some(
                (bytes@, next as int),
            ),
            None => read_exact(data@, at as int, n as int).is_none(),
        },
{
    if at > data.len() || n > data.len() - at {
        return None;
    }
    let bytes = vstd::slice::slice_to_vec(slice_subrange(data, at, at + n));
    Some((bytes, at + n))
}

/// Reads the length-prefixed bytes that start at `at`.
pub fn get_prefixed(data: &[u8], at: usize) -> (r: Option<(Vec<u8>, usize)>)
    ensures
        match r {
            Some((bytes, next)) => read_prefixed(data@, at as int) == Some((bytes@, next as int)),
            None => read_prefixed(data@, at as int).is_none(),
        },
{
    match get_u64(data, at) {
        Some((n, next)) => {
            let total: usize = data.len();
            if n > total as u64 {
                return None;
            }
            get_exact(data, next, n as usize)
        },
        None => None,
    }
}

/// Reads the optional bytes that start at `at`.
pub fn get_optional(data: &[u8], at: usize) -> (r: Option<(Option<Vec<u8>>, usize)>)
    ensures
        match r {
            Some((bytes, next)) => read_optional(data@, at as int) == Some(
                (
                    match bytes {
                        Some(d) => Some(d@),
                        None => None,
                    },
                    next as int,
                ),
            ),
            None => read_optional(data@, at as int).is_none(),
        },
{
    if at >= data.len() {
        return None;
    }
    let tag: u8 = data[at];
    if tag == 0 {
        Some((None, at + 1))
    } else if tag == 1 {
        match get_prefixed(data, at + 1) {
            Some((d, next)) => Some((Some(d), next)),
            None => None,
        }
    } else {
        None
    }
}

/// Reads the optional number that starts at `at`.
pub fn get_optional_u64(data: &[u8], at: usize) -> (r: Option<(Option<u64>, usize)>)
    ensures
        match r {
            Some((x, next)) => read_optional_u64(data@, at as int) == Some((x, next as int)),
            None => read_optional_u64(data@, at as int).is_none(),
        },
{
    if at >= data.len() {
        return None;
    }
    let tag: u8 = data[at];
    if tag == 0 {
        Some((None, at + 1))
    } else if tag == 1 {
        match get_u64(data, at + 1) {
            Some((x, next)) => Some((Some(x), next)),
            None => None,
        }
    } else {
        None
    }
}

} // verus!
