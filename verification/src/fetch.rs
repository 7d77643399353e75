//! The compute half of the fetch pipeline: building the download URL and
//! decoding downloaded bytes into package records.
//!
//! The transport itself (the HTTP GET) and the persistence of the raw bytes
//! are I/O and live with the drivers; they hand the raw bytes to
//! [`decode_packages`], which optionally decompresses, validates the text as
//! UTF-8, and parses it.

use vstd::prelude::*;

use crate::control::spec_parse_control;
use crate::packages::{Packages, ParseControlError, spec_parse_packages};
use crate::xz::{xz_plain, xz_decompress};
use vstd::utf8::{valid_utf8, decode_utf8};

verus! {

/// Why downloaded bytes could not be decoded into records: the xz stream was
/// malformed, or the decompressed document was not parseable.
#[derive(Debug, Clone, Copy, PartialEq, Eq, Structural)]
pub enum DecodeError {
    Decompression,
    DebControl(ParseControlError),
}

/// The decoded text bytes of a download: the bytes themselves, or their xz
/// decompression when the compressed variant was requested.
pub open spec fn spec_decoded(raw: Seq<u8>, compressed: bool) -> Option<Seq<u8>> {
    if compressed {
        xz_plain(raw)
    } else {
        Some(raw)
    }
}

/// Decodes downloaded bytes into package records: optional xz decompression,
/// then UTF-8 validation, then the control-file parse. Each failure names
/// its stage, and nothing else fails.
pub fn decode_packages(raw: &Vec<u8>, compressed: bool) -> (r: Result<Packages, DecodeError>)
    ensures
        r is Ok <==> (spec_decoded(raw@, compressed) matches Some(plain) && valid_utf8(plain)
            && spec_parse_control(decode_utf8(plain)) is Some),
        r is Ok ==> Some(r.unwrap()@) == spec_parse_packages(
            decode_utf8(spec_decoded(raw@, compressed).unwrap()),
        ),
        spec_decoded(raw@, compressed) is None ==> r == Err::<Packages, DecodeError>(
            DecodeError::Decompression,
        ),
        spec_decoded(raw@, compressed) matches Some(plain) && !valid_utf8(plain) ==> r
            == Err::<Packages, DecodeError>(DecodeError::DebControl(ParseControlError::Utf8)),
        spec_decoded(raw@, compressed) matches Some(plain) && valid_utf8(plain)
            && spec_parse_control(decode_utf8(plain)) is None ==> r == Err::<
            Packages,
            DecodeError,
        >(DecodeError::DebControl(ParseControlError::ParseError)),
{
    if compressed {
        match xz_decompress(raw.as_slice()) {
            None => Err(DecodeError::Decompression),
            Some(plain) => match Packages::parse_bytes(plain.as_slice()) {
                Ok(pkgs) => Ok(pkgs),
                Err(e) => Err(DecodeError::DebControl(e)),
            },
        }
    } else {
        match Packages::parse_bytes(raw.as_slice()) {
            Ok(pkgs) => Ok(pkgs),
            Err(e) => Err(DecodeError::DebControl(e)),
        }
    }
}

/// The URL an index file is downloaded from:
/// `{mirror}/dists/{branch}/main/binary-{arch}/Packages`, with `.xz`
/// appended when the compressed variant is requested.
pub open spec fn spec_download_url(
    mirror: Seq<char>,
    branch: Seq<char>,
    arch: Seq<char>,
    compressed: bool,
) -> Seq<char> {
    mirror + "/dists/"@ + branch + "/main/binary-"@ + arch + "/Packages"@ + (if compressed {
        ".xz"@
    } else {
        Seq::<char>::empty()
    })
}

/// Builds the download URL for one `(architecture, branch)` pair.
pub fn build_download_url(mirror: &str, branch: &str, arch: &str, compressed: bool) -> (r: String)
    ensures
        r@ == spec_download_url(mirror@, branch@, arch@, compressed),
{
    let mut out = String::from_str(mirror);
    out.append("/dists/");
    out.append(branch);
    out.append("/main/binary-");
    out.append(arch);
    out.append("/Packages");
    if compressed {
        out.append(".xz");
    }
    proof {
        assert(out@ =~= spec_download_url(mirror@, branch@, arch@, compressed));
    }
    out
}

} // verus!
