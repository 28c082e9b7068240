//! Compressed pprof files: a profile's protobuf bytes inside one gzip member.
use vstd::prelude::*;
use std::io::{Read, Write};
use crate::codec::{decoded, profile_bytes};
use crate::decode::decode_profile_bytes;
use crate::encode::encode_profile_bytes;
use crate::proto::{Profile, ProfileView};
use crate::round_trip::law_decode_undoes_encode;

verus! {

/// What `std::io::Error` holds stays unread.
#[verifier::external_type_specification]
#[verifier::external_body]
pub struct ExIoError(std::io::Error);

/// What `flate2::write::GzEncoder`, at the default level, makes of `data`.
pub uninterp spec fn gzipped(data: Seq<u8>) -> Option<Seq<u8>>;

/// What `flate2::read::GzDecoder` reads out of `data`. `None` where it fails.
pub uninterp spec fn gunzipped(data: Seq<u8>) -> Option<Seq<u8>>;

/// Two bytes that every gzip member starts with.
pub open spec fn has_gzip_magic(b: Seq<u8>) -> bool {
    b.len() >= 2 && b[0] == 0x1f && b[1] == 0x8b
}

/// `flate2::write::GzEncoder` over a `Vec`: what it writes starts with the gzip magic,
/// and `flate2::read::GzDecoder` reads `data` back out of it.
#[verifier::external_body]
fn gzip(data: &[u8]) -> (r: Result<Vec<u8>, std::io::Error>)
    ensures
        match r {
            Ok(out) => gzipped(data@) == Some(out@) && has_gzip_magic(out@) && gunzipped(out@) == Some(data@),
            Err(_) => gzipped(data@) is None,
        },
{
    let mut gz = flate2::write::GzEncoder::new(Vec::new(), flate2::Compression::default());
    gz.write_all(data)?;
    gz.finish()
}

/// `flate2::read::GzDecoder` read to its end.
#[verifier::external_body]
fn gunzip(data: &[u8]) -> (r: Result<Vec<u8>, std::io::Error>)
    ensures
        match r {
            Ok(out) => gunzipped(data@) == Some(out@),
            Err(_) => gunzipped(data@) is None,
        },
{
    let mut out = Vec::new();
    flate2::read::GzDecoder::new(data).read_to_end(&mut out)?;
    Ok(out)
}

/// Compression failed.
#[derive(Clone, Copy, Debug, PartialEq, Eq, Structural)]
pub struct CompressError;

/// Why bytes were not taken for a profile.
#[derive(Clone, Copy, Debug, PartialEq, Eq, Structural)]
pub enum LoadError {
    /// The gzip member is broken.
    Gunzip,
    /// The protobuf bytes are broken.
    Decode,
}

/// Why a compressed input file was refused.
#[derive(Clone, Copy, Debug, PartialEq, Eq, Structural)]
pub enum PayloadError {
    /// The gzip member is broken.
    Gunzip,
    /// The gzip member holds nothing.
    Empty,
}

/// The gzip-compressed protobuf bytes of a profile.
pub fn compress_profile(p: &Profile) -> (r: Result<Vec<u8>, CompressError>)
    ensures
        match r {
            Ok(out) => {
                &&& gzipped(profile_bytes(p@)) == Some(out@)
                &&& loaded(out@) == Ok::<ProfileView, LoadError>(p@)
            },
            Err(_) => gzipped(profile_bytes(p@)) is None,
        },
{
    let raw = encode_profile_bytes(p);
    proof {
        assert(raw@.len() == raw.len());
        law_decode_undoes_encode(p@);
    }
    match gzip(raw.as_slice()) {
        Ok(out) => Ok(out),
        Err(_) => Err(CompressError),
    }
}

/// The profile in a pprof file, gzip-compressed or not.
pub open spec fn loaded(raw: Seq<u8>) -> Result<ProfileView, LoadError> {
    if has_gzip_magic(raw) {
        match gunzipped(raw) {
            Some(b) => match decoded(b) {
                Some(p) => Ok(p),
                None => Err(LoadError::Decode),
            },
            None => Err(LoadError::Gunzip),
        }
    } else {
        match decoded(raw) {
            Some(p) => Ok(p),
            None => Err(LoadError::Decode),
        }
    }
}

/// Reads a pprof file, gzip-compressed or not.
pub fn load_profile(raw: &[u8]) -> (r: Result<Profile, LoadError>)
    ensures
        match r {
            Ok(p) => loaded(raw@) == Ok::<ProfileView, LoadError>(p@),
            Err(e) => loaded(raw@) == Err::<ProfileView, LoadError>(e),
        },
{
    let found = if raw.len() >= 2 && raw[0] == 0x1f && raw[1] == 0x8b {
        match gunzip(raw) {
            Ok(b) => decode_profile_bytes(b.as_slice()),
            Err(_) => {
                return Err(LoadError::Gunzip);
            },
        }
    } else {
        decode_profile_bytes(raw)
    };
    match found {
        Some(p) => Ok(p),
        None => Err(LoadError::Decode),
    }
}

/// The contents of an input file: decompressed where its name says that it is
/// compressed.
pub fn read_maybe_gz(named_gz: bool, raw: Vec<u8>) -> (r: Result<Vec<u8>, PayloadError>)
    ensures
        if named_gz {
            match gunzipped(raw@) {
                None => r == Err::<Vec<u8>, PayloadError>(PayloadError::Gunzip),
                Some(b) => if b.len() == 0 {
                    r == Err::<Vec<u8>, PayloadError>(PayloadError::Empty)
                } else {
                    r matches Ok(out) && out@ == b
                },
            }
        } else {
            r matches Ok(out) && out@ == raw@
        },
{
    if !named_gz {
        return Ok(raw);
    }
    match gunzip(raw.as_slice()) {
        Ok(b) => if b.len() == 0 {
            Err(PayloadError::Empty)
        } else {
            Ok(b)
        },
        Err(_) => Err(PayloadError::Gunzip),
    }
}

} // verus!
