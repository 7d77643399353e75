//! xz decompression, behind a trusted wrapper over liblzma.

use vstd::prelude::*;

verus! {

/// What xz decompression of a byte sequence yields: the decompressed bytes,
/// or nothing when the stream is malformed. The result depends on the input
/// bytes alone; its definition is the xz format as liblzma decodes it.
pub uninterp spec fn xz_plain(data: Seq<u8>) -> Option<Seq<u8>>;

/// Relies on liblzma's `read::XzDecoder`: reading it to the end yields the
/// decompressed content of the xz stream held in `data`, or an I/O error
/// when the stream is malformed.
#[verifier::external_body]
pub(crate) fn xz_decompress(data: &[u8]) -> (r: Option<Vec<u8>>)
    ensures
        r is Some <==> xz_plain(data@) is Some,
        r is Some ==> r.unwrap()@ == xz_plain(data@).unwrap(),
{
    let mut dec = liblzma::read::XzDecoder::new(data);
    let mut out = Vec::new();
    match std::io::Read::read_to_end(&mut dec, &mut out) {
        Ok(_) => Some(out),
        Err(_) => None,
    }
}

} // verus!
