use std::io::Read;

use aosc_packages::fetch::{build_download_url, decode_packages, DecodeError};
use aosc_packages::packages::ParseControlError;

fn xz_compress(data: &[u8]) -> Vec<u8> {
    let mut enc = liblzma::read::XzEncoder::new(data, 6);
    let mut out = vec![];
    enc.read_to_end(&mut out).unwrap();
    out
}

#[test]
fn decode_uncompressed() {
    let raw = b"Package: plain\nVersion: 1\n".to_vec();
    let pkgs = decode_packages(&raw, false).unwrap();
    assert_eq!(pkgs.0.len(), 1);
    assert_eq!(pkgs.0[0].package, "plain");
}

#[test]
fn decode_compressed() {
    let raw = xz_compress(b"Package: squeezed\nSize: 7\n");
    assert_ne!(raw, b"Package: squeezed\nSize: 7\n".to_vec());
    let pkgs = decode_packages(&raw, true).unwrap();
    assert_eq!(pkgs.0.len(), 1);
    assert_eq!(pkgs.0[0].package, "squeezed");
    assert_eq!(pkgs.0[0].size, 7);
}

#[test]
fn corrupt_xz_is_decompression_error() {
    let raw = vec![1u8, 2, 3, 4, 5];
    assert_eq!(decode_packages(&raw, true).unwrap_err(), DecodeError::Decompression);
}

#[test]
fn compressed_invalid_utf8_is_encoding_error() {
    let raw = xz_compress(&[0xffu8, 0xfe]);
    assert_eq!(
        decode_packages(&raw, true).unwrap_err(),
        DecodeError::DebControl(ParseControlError::Utf8)
    );
}

#[test]
fn compressed_bad_document_is_parse_error() {
    let raw = xz_compress(b"no colon here\n");
    assert_eq!(
        decode_packages(&raw, true).unwrap_err(),
        DecodeError::DebControl(ParseControlError::ParseError)
    );
}

#[test]
fn url_uncompressed() {
    let url = build_download_url("https://repo.aosc.io/debs", "stable", "amd64", false);
    assert_eq!(
        url,
        "https://repo.aosc.io/debs/dists/stable/main/binary-amd64/Packages"
    );
}

#[test]
fn url_compressed() {
    let url = build_download_url("https://repo.aosc.io/debs", "stable", "arm64", true);
    assert_eq!(
        url,
        "https://repo.aosc.io/debs/dists/stable/main/binary-arm64/Packages.xz"
    );
}
