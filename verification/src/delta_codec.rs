//! Delta blobs: content compressed against a source extent.

use vstd::prelude::*;

verus! {

/// Level delta blobs are compressed at. A frame does not record its level, so
/// reading one does not depend on it.
pub const ZSTD_LEVEL: i32 = 9;

/// The most an extent can hold, uncompressed.
pub const MAX_EXTENT_PLAINTEXT: usize = 268435456;

/// What a delta blob may decode to: one extent.
pub const DELTA_DECOMPRESS_CAP: usize = MAX_EXTENT_PLAINTEXT;

/// What `data` compresses to at `level`, without a dictionary, where it can be
/// compressed.
pub uninterp spec fn zstd_alone(data: Seq<u8>, level: i32) -> Option<Seq<u8>>;

/// What `blob` decodes to against `dict`, into a buffer for `cap` bytes, where
/// it can be decoded.
pub uninterp spec fn zstd_decoded(dict: Seq<u8>, blob: Seq<u8>, cap: nat) -> Option<Seq<u8>>;

/// Something was decoded, and it is no more than `cap` bytes.
pub open spec fn fits(decoded: Option<Seq<u8>>, cap: nat) -> bool {
    decoded matches Some(bytes) && bytes.len() <= cap
}

/// `blob` decodes to `data` against `dict`, into any buffer that can hold it.
pub open spec fn reads_back(dict: Seq<u8>, blob: Seq<u8>, data: Seq<u8>) -> bool {
    forall|cap: nat| data.len() <= cap ==> #[trigger] zstd_decoded(dict, blob, cap) == Some(data)
}

/// What `blob` decodes to against `dict`, where that is no more than an extent.
pub open spec fn extent_decoded(dict: Seq<u8>, blob: Seq<u8>) -> Option<Seq<u8>> {
    let decoded = zstd_decoded(dict, blob, DELTA_DECOMPRESS_CAP as nat);
    if fits(decoded, DELTA_DECOMPRESS_CAP as nat) {
        decoded
    } else {
        None
    }
}

/// Why a delta could not be made, checked or applied, with the codec's words.
#[derive(Debug)]
pub enum DeltaError {
    CompressorInit(String),
    Compress(String),
    Control(String),
    DecoderInit(String),
    Decompress(String),
}

/// `zstd::bulk::Compressor::with_dictionary` and its `compress`: where both
/// succeed, the blob decodes back to `data` against `dict` where the buffer can
/// hold it. Which of the blobs that do is left open, for it also depends on
/// where the two lie in memory; and so is when they fail. The error says which
/// of the two failed. Delta blobs are all made at one level.
#[verifier::external_body]
pub(crate) fn compress_against(dict: &[u8], data: &[u8], level: i32) -> (made: Result<
    Vec<u8>,
    DeltaError,
>)
    requires
        level == ZSTD_LEVEL,
    ensures
        made matches Ok(blob) ==> reads_back(dict@, blob@, data@),
        made matches Err(e) ==> e is CompressorInit || e is Compress,
{
    match zstd::bulk::Compressor::with_dictionary(level, dict) {
        Ok(mut c) => c.compress(data).map_err(|e| DeltaError::Compress(e.to_string())),
        Err(e) => Err(DeltaError::CompressorInit(e.to_string())),
    }
}

/// `zstd::bulk::compress`: whether `data` can be compressed at `level`, and
/// what it compresses to, is a function of the two.
#[verifier::external_body]
pub(crate) fn compress_alone(data: &[u8], level: i32) -> (made: Result<Vec<u8>, DeltaError>)
    ensures
        made is Ok == zstd_alone(data@, level) is Some,
        made matches Ok(blob) ==> zstd_alone(data@, level) == Some(blob@),
        made matches Err(e) ==> e is Control,
{
    zstd::bulk::compress(data, level).map_err(|e| DeltaError::Control(e.to_string()))
}

/// `zstd::bulk::Decompressor::with_dictionary` and its `decompress`: whether
/// `blob` decodes against `dict` into a buffer for `cap` bytes, and to what, is
/// a function of the three. Of a blob that decodes to more than `cap` bytes
/// nothing is claimed, for the buffer may be larger than was asked for. The
/// error says which of the two failed. The buffer is set aside whole, so `cap`
/// is at most what one extent holds.
#[verifier::external_body]
pub(crate) fn decompress_against(dict: &[u8], blob: &[u8], cap: usize) -> (made: Result<
    Vec<u8>,
    DeltaError,
>)
    requires
        cap <= DELTA_DECOMPRESS_CAP,
    ensures
        made is Err ==> !fits(zstd_decoded(dict@, blob@, cap as nat), cap as nat),
        made matches Ok(v) ==> (v@.len() <= cap || fits(
            zstd_decoded(dict@, blob@, cap as nat),
            cap as nat,
        ) ==> zstd_decoded(dict@, blob@, cap as nat) == Some(v@)),
        made matches Err(e) ==> e is DecoderInit || e is Decompress,
{
    match zstd::bulk::Decompressor::with_dictionary(dict) {
        Ok(mut d) => d.decompress(blob, cap).map_err(|e| DeltaError::Decompress(e.to_string())),
        Err(e) => Err(DeltaError::DecoderInit(e.to_string())),
    }
}

/// What was decoded, where it is no more than one extent.
pub fn within_one_extent(decoded: Vec<u8>) -> (r: Result<Vec<u8>, DeltaError>)
    ensures
        r is Ok == (decoded@.len() <= DELTA_DECOMPRESS_CAP),
        r matches Ok(bytes) ==> bytes@ == decoded@,
        r matches Err(e) ==> e is Decompress,
{
    if decoded.len() <= DELTA_DECOMPRESS_CAP {
        Ok(decoded)
    } else {
        Err(DeltaError::Decompress("more than one extent".to_string()))
    }
}

/// Rebuild an extent from a delta blob and the plaintext of the source it was
/// made against, where the blob decodes to no more than one extent.
pub fn apply_delta(base_body: &[u8], delta_blob: &[u8]) -> (applied: Result<Vec<u8>, DeltaError>)
    ensures
        applied is Ok == extent_decoded(base_body@, delta_blob@) is Some,
        applied matches Ok(bytes) ==> extent_decoded(base_body@, delta_blob@) == Some(bytes@),
        applied matches Err(e) ==> e is DecoderInit || e is Decompress,
{
    match decompress_against(base_body, delta_blob, DELTA_DECOMPRESS_CAP) {
        Ok(decoded) => within_one_extent(decoded),
        Err(e) => Err(e),
    }
}

/// Compress `target` against `base`. `apply_delta` with the same base gives
/// the target back. Whether it can compress is the codec's to decide.
pub fn make_delta(base: &[u8], target: &[u8]) -> (made: Result<Vec<u8>, DeltaError>)
    ensures
        made matches Ok(blob) ==> reads_back(base@, blob@, target@),
        made matches Err(e) ==> e is CompressorInit || e is Compress,
{
    compress_against(base, target, ZSTD_LEVEL)
}

/// A delta of an extent gives the extent back when it is applied.
pub proof fn law_a_delta_applies(base: Seq<u8>, blob: Seq<u8>, target: Seq<u8>)
    requires
        reads_back(base, blob, target),
        target.len() <= DELTA_DECOMPRESS_CAP,
    ensures
        extent_decoded(base, blob) == Some(target),
{
}

/// Compressed length of `plain` without a dictionary, where it can be
/// compressed.
pub fn dictionaryless_len(plain: &[u8]) -> (len: Result<usize, DeltaError>)
    ensures
        len is Ok == zstd_alone(plain@, ZSTD_LEVEL) is Some,
        len matches Ok(n) ==> n == zstd_alone(plain@, ZSTD_LEVEL)->0.len(),
        len matches Err(e) ==> e is Control,
{
    match compress_alone(plain, ZSTD_LEVEL) {
        Ok(blob) => Ok(blob.len()),
        Err(e) => Err(e),
    }
}

/// A delta of `delta_len` bytes earns its place over a body stored in
/// `stored_length` bytes: it is smaller, and smaller than what compression
/// without a dictionary comes to. Beating only the stored body would show
/// that the codec is the stronger one, not that the source helped.
pub open spec fn worth_storing(delta_len: int, stored_length: int, control_len: int) -> bool {
    delta_len < stored_length && delta_len < control_len
}

/// Whether a delta of `delta_len` bytes earns its place over a body stored in
/// `stored_length` bytes and compressed without a dictionary to `control_len`.
pub fn is_worth_storing(delta_len: usize, stored_length: u32, control_len: usize) -> (b: bool)
    ensures
        b == worth_storing(delta_len as int, stored_length as int, control_len as int),
{
    (delta_len as u64) < stored_length as u64 && delta_len < control_len
}

/// Whether a delta of `delta_len` bytes earns its place over a body stored in
/// `stored_length` bytes, of the plaintext `plain`; or nothing, where that
/// takes a control and it cannot be compressed.
pub open spec fn earns_place(delta_len: int, stored_length: int, plain: Seq<u8>) -> Option<bool> {
    if delta_len >= stored_length {
        Some(false)
    } else {
        match zstd_alone(plain, ZSTD_LEVEL) {
            Some(control) => Some(
                worth_storing(delta_len, stored_length, control.len() as int),
            ),
            None => None,
        }
    }
}

/// Whether a delta of `delta_len` bytes earns its place.
pub fn delta_is_worth_storing(delta_len: usize, stored_length: u32, plain: &[u8]) -> (worth: Result<
    bool,
    DeltaError,
>)
    ensures
        match worth {
            Ok(b) => earns_place(delta_len as int, stored_length as int, plain@) == Some(b),
            Err(e) => earns_place(delta_len as int, stored_length as int, plain@) is None && e
                is Control,
        },
{
    if delta_len as u64 >= stored_length as u64 {
        return Ok(false);
    }
    match dictionaryless_len(plain) {
        Ok(control) => Ok(is_worth_storing(delta_len, stored_length, control)),
        Err(e) => Err(e),
    }
}

/// A delta earns its place just where it is shorter than the stored body and
/// than what compression alone makes of the plaintext; a tie earns nothing.
pub proof fn law_a_delta_pays_twice(delta_len: int, stored_length: int, plain: Seq<u8>)
    ensures
        earns_place(delta_len, stored_length, plain) == Some(true) <==> delta_len < stored_length
            && zstd_alone(plain, ZSTD_LEVEL) is Some && delta_len < (zstd_alone(
            plain,
            ZSTD_LEVEL,
        )->0).len(),
        earns_place(delta_len, stored_length, plain) is None <==> delta_len < stored_length
            && zstd_alone(plain, ZSTD_LEVEL) is None,
{
}

/// Nothing longer than an extent comes out of a delta.
pub proof fn law_a_delta_is_of_one_extent(base: Seq<u8>, blob: Seq<u8>)
    ensures
        extent_decoded(base, blob) matches Some(bytes) ==> bytes.len() <= 268435456 && zstd_decoded(
            base,
            blob,
            268435456,
        ) == Some(bytes),
{
}

} // verus!
