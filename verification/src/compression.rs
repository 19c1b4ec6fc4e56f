//! The byte codec: zstandard, plain or with a dictionary.

use std::io::Read;
use vstd::prelude::*;

verus! {

/// What `zstd::stream::encode_all` makes of `data` at `level`, or `None` where
/// it fails.
pub uninterp spec fn zstd_compressed(data: Seq<u8>, level: i32) -> Option<Seq<u8>>;

/// What `zstd::stream::decode_all` makes of `data`, or `None` where it fails.
pub uninterp spec fn zstd_decompressed(data: Seq<u8>) -> Option<Seq<u8>>;

/// What a `zstd::bulk::Compressor` made with `dict` makes of `data` at
/// `level`, or `None` where it fails.
pub uninterp spec fn zstd_compressed_with_dict(data: Seq<u8>, level: i32, dict: Seq<u8>) -> Option<
    Seq<u8>,
>;

/// What a `zstd::stream::read::Decoder` made with `dict` reads out of `data`,
/// or `None` where it fails.
pub uninterp spec fn zstd_decompressed_with_dict(data: Seq<u8>, dict: Seq<u8>) -> Option<Seq<u8>>;

/// `std::io::Error`, in which zstd reports its failures; opaque here.
#[verifier::external_type_specification]
#[verifier::external_body]
pub struct ExIoError(std::io::Error);

/// Compresses `data` with `zstd::stream::encode_all`.
///
/// Claims that the outcome is a function of `data` and `level`, and that what
/// was compressed decompresses to `data` again: zstandard is lossless.
#[verifier::external_body]
pub(crate) fn compress_bytes(data: &[u8], level: i32) -> (r: Result<Vec<u8>, std::io::Error>)
    ensures
        match r {
            Ok(packed) => zstd_compressed(data@, level) == Some(packed@) && zstd_decompressed(
                packed@,
            ) == Some(data@),
            Err(_) => zstd_compressed(data@, level).is_none(),
        },
{
    zstd::stream::encode_all(data, level)
}

/// Decompresses `data` with `zstd::stream::decode_all`.
///
/// Claims that the outcome is a function of `data`.
#[verifier::external_body]
pub(crate) fn decompress_bytes(data: &[u8]) -> (r: Result<Vec<u8>, std::io::Error>)
    ensures
        match r {
            Ok(plain) => zstd_decompressed(data@) == Some(plain@),
            Err(_) => zstd_decompressed(data@).is_none(),
        },
{
    zstd::stream::decode_all(data)
}

/// Compresses `data` with a `zstd::bulk::Compressor` that was made with the
/// dictionary `dict`.
///
/// Claims that the outcome is a function of `data`, `level` and `dict`, and
/// that what was compressed decompresses to `data` again under the same
/// dictionary.
#[verifier::external_body]
pub(crate) fn compress_bytes_with_dict(data: &[u8], level: i32, dict: &[u8]) -> (r: Result<
    Vec<u8>,
    std::io::Error,
>)
    ensures
        match r {
            Ok(packed) => zstd_compressed_with_dict(data@, level, dict@) == Some(packed@)
                && zstd_decompressed_with_dict(packed@, dict@) == Some(data@),
            Err(_) => zstd_compressed_with_dict(data@, level, dict@).is_none(),
        },
{
    zstd::bulk::Compressor::with_dictionary(level, dict)?.compress(data)
}

/// Decompresses `data` with a `zstd::stream::read::Decoder` that was made with
/// the dictionary `dict`.
///
/// Claims that the outcome is a function of `data` and `dict`.
#[verifier::external_body]
pub(crate) fn decompress_bytes_with_dict(data: &[u8], dict: &[u8]) -> (r: Result<
    Vec<u8>,
    std::io::Error,
>)
    ensures
        match r {
            Ok(plain) => zstd_decompressed_with_dict(data@, dict@) == Some(plain@),
            Err(_) => zstd_decompressed_with_dict(data@, dict@).is_none(),
        },
{
    let mut decoder = zstd::stream::read::Decoder::with_dictionary(data, dict)?;
    let mut plain = Vec::new();
    decoder.read_to_end(&mut plain)?;
    Ok(plain)
}

/// What compressing `data` gives under a policy: with the dictionary where
/// there is one, plain otherwise.
pub open spec fn packed(dict: Option<Seq<u8>>, level: i32, data: Seq<u8>) -> Option<Seq<u8>> {
    match dict {
        Some(d) => zstd_compressed_with_dict(data, level, d),
        None => zstd_compressed(data, level),
    }
}

/// What decompressing `data` gives under a policy.
pub open spec fn unpacked(dict: Option<Seq<u8>>, data: Seq<u8>) -> Option<Seq<u8>> {
    match dict {
        Some(d) => zstd_decompressed_with_dict(data, d),
        None => zstd_decompressed(data),
    }
}

/// The view of an optional dictionary.
pub open spec fn dict_view(dict: Option<Vec<u8>>) -> Option<Seq<u8>> {
    match dict {
        Some(d) => Some(d@),
        None => None,
    }
}

/// Compresses `data` under a policy. What comes out decompresses to `data`
/// under the same policy.
pub fn pack(dict: &Option<Vec<u8>>, level: i32, data: &[u8]) -> (r: Result<
    Vec<u8>,
    std::io::Error,
>)
    ensures
        match r {
            Ok(out) => packed(dict_view(*dict), level, data@) == Some(out@) && unpacked(
                dict_view(*dict),
                out@,
            ) == Some(data@),
            Err(_) => packed(dict_view(*dict), level, data@).is_none(),
        },
{
    match dict {
        Some(d) => compress_bytes_with_dict(data, level, d.as_slice()),
        None => compress_bytes(data, level),
    }
}

/// Decompresses `data` under a policy.
pub fn unpack(dict: &Option<Vec<u8>>, data: &[u8]) -> (r: Result<Vec<u8>, std::io::Error>)
    ensures
        match r {
            Ok(out) => unpacked(dict_view(*dict), data@) == Some(out@),
            Err(_) => unpacked(dict_view(*dict), data@).is_none(),
        },
{
    match dict {
        Some(d) => decompress_bytes_with_dict(data, d.as_slice()),
        None => decompress_bytes(data),
    }
}

/// The message of a codec failure: the text that the error displays as.
pub(crate) fn failure_message(error: &std::io::Error) -> (text: String)
    ensures
        vstd::string::to_string_from_display_ensures::<std::io::Error>(error, text),
{
    error.to_string()
}

} // verus!
