use aosc_packages::packages::{Package, Packages, ParseControlError};

#[test]
fn single_paragraph_scenario() {
    let text = "Package: bash\n\
                Architecture: amd64\n\
                Version: 5.2-1\n\
                Installed-Size: 3200\n\
                Filename: pool/bash_5.2-1_amd64.deb\n\
                Size: 1048576\n\
                SHA256: abc123\n\
                Description: the Bourne Again shell\n";
    let pkgs = Packages::parse_str(text).unwrap();
    assert_eq!(pkgs.0.len(), 1);
    let p = &pkgs.0[0];
    assert_eq!(p.package, "bash");
    assert_eq!(p.architecture, "amd64");
    assert_eq!(p.version, "5.2-1");
    assert_eq!(p.install_size, 3200);
    assert_eq!(p.filename, "pool/bash_5.2-1_amd64.deb");
    assert_eq!(p.size, 1048576);
    assert_eq!(p.sha256, "abc123");
    assert_eq!(p.description, "the Bourne Again shell");
    assert!(p.depends.is_none());
    assert!(p.provides.is_none());
    assert_eq!(p.section, "");
    assert_eq!(p.maintainer, "");
}

#[test]
fn two_paragraphs_in_order() {
    let text = "Package: first\nVersion: 1\n\nPackage: second\nVersion: 2\n";
    let pkgs = Packages::parse_str(text).unwrap();
    assert_eq!(pkgs.0.len(), 2);
    assert_eq!(pkgs.0[0].package, "first");
    assert_eq!(pkgs.0[1].package, "second");
}

#[test]
fn empty_input_yields_no_records() {
    let pkgs = Packages::parse_str("").unwrap();
    assert_eq!(pkgs.0.len(), 0);
    let pkgs = Packages::parse_str("\n\n").unwrap();
    assert_eq!(pkgs.0.len(), 0);
    let pkgs = Packages::parse_str("  \n\t\n \n").unwrap();
    assert_eq!(pkgs.0.len(), 0);
}

#[test]
fn missing_optional_fields_absent() {
    let text = "Package: a\nDepends: b\n";
    let pkgs = Packages::parse_str(text).unwrap();
    let p = &pkgs.0[0];
    assert_eq!(p.depends.as_deref(), Some("b"));
    assert!(p.provides.is_none());
    assert!(p.conflicts.is_none());
    assert!(p.replaces.is_none());
    assert!(p.breaks.is_none());
    assert!(p.featres.is_none());
}

#[test]
fn non_numeric_sizes_default_to_zero() {
    let text = "Package: a\nSize: big\nInstalled-Size: 12MB\nVersion: 1\n";
    let pkgs = Packages::parse_str(text).unwrap();
    let p = &pkgs.0[0];
    assert_eq!(p.size, 0);
    assert_eq!(p.install_size, 0);
    assert_eq!(p.package, "a");
    assert_eq!(p.version, "1");
}

#[test]
fn largest_size_parses_and_overflow_degrades() {
    let text = "Package: a\nSize: 18446744073709551615\nInstalled-Size: 18446744073709551616\n";
    let pkgs = Packages::parse_str(text).unwrap();
    assert_eq!(pkgs.0[0].size, u64::MAX);
    assert_eq!(pkgs.0[0].install_size, 0);
}

#[test]
fn invalid_line_fails_parse() {
    assert_eq!(
        Packages::parse_str("Package: a\nnot-a-field\n").unwrap_err(),
        ParseControlError::ParseError
    );
    assert_eq!(
        Packages::parse_str(": no key\n").unwrap_err(),
        ParseControlError::ParseError
    );
    // a continuation line with no preceding field
    assert_eq!(
        Packages::parse_str(" leading continuation\n").unwrap_err(),
        ParseControlError::ParseError
    );
}

#[test]
fn continuation_lines_join() {
    let text = "Description: first line\n second line\n";
    let pkgs = Packages::parse_str(text).unwrap();
    assert_eq!(pkgs.0[0].description, "first line\n second line");
}

#[test]
fn duplicate_field_first_occurrence_wins() {
    let text = "Package: one\nPackage: two\n";
    let pkgs = Packages::parse_str(text).unwrap();
    assert_eq!(pkgs.0[0].package, "one");
}

#[test]
fn invalid_utf8_is_encoding_error() {
    let bytes: Vec<u8> = vec![0xff, 0xfe, 0x41];
    assert_eq!(
        Packages::parse_bytes(&bytes).unwrap_err(),
        ParseControlError::Utf8
    );
    assert_eq!(Package::parse_bytes(&bytes).unwrap_err(), ParseControlError::Utf8);
}

#[test]
fn single_package_parse() {
    let p = Package::parse_str("Package: lone\nVersion: 3\n").unwrap();
    assert_eq!(p.package, "lone");
    assert_eq!(p.version, "3");
    // a document with two paragraphs is not one package
    assert_eq!(
        Package::parse_str("Package: a\n\nPackage: b\n").unwrap_err(),
        ParseControlError::ParseError
    );
    // and neither is an empty document
    assert_eq!(
        Package::parse_str("").unwrap_err(),
        ParseControlError::ParseError
    );
}

#[test]
fn round_trip_all_fields() {
    let text = "Package: bash\n\
                Architecture: amd64\n\
                Version: 5.2-1\n\
                Section: shells\n\
                Installed-Size: 3200\n\
                Maintainer: someone\n\
                Filename: pool/bash_5.2-1_amd64.deb\n\
                Size: 1048576\n\
                SHA256: abc123\n\
                Description: the Bourne Again shell\n\
                Depends: glibc\n\
                Provides: sh\n\
                Conflicts: oldsh\n\
                Replaces: oldersh\n\
                Breaks: ancientsh\n\
                X-AOSC-Features: cool\n";
    let p = Package::parse_str(text).unwrap();
    assert_eq!(p.section, "shells");
    assert_eq!(p.maintainer, "someone");
    assert_eq!(p.depends.as_deref(), Some("glibc"));
    assert_eq!(p.provides.as_deref(), Some("sh"));
    assert_eq!(p.conflicts.as_deref(), Some("oldsh"));
    assert_eq!(p.replaces.as_deref(), Some("oldersh"));
    assert_eq!(p.breaks.as_deref(), Some("ancientsh"));
    assert_eq!(p.featres.as_deref(), Some("cool"));
    let serialized = p.to_control();
    let q = Package::parse_str(&serialized).unwrap();
    assert_eq!(p.package, q.package);
    assert_eq!(p.architecture, q.architecture);
    assert_eq!(p.version, q.version);
    assert_eq!(p.section, q.section);
    assert_eq!(p.install_size, q.install_size);
    assert_eq!(p.maintainer, q.maintainer);
    assert_eq!(p.filename, q.filename);
    assert_eq!(p.size, q.size);
    assert_eq!(p.sha256, q.sha256);
    assert_eq!(p.description, q.description);
    assert_eq!(p.depends, q.depends);
    assert_eq!(p.provides, q.provides);
    assert_eq!(p.conflicts, q.conflicts);
    assert_eq!(p.replaces, q.replaces);
    assert_eq!(p.breaks, q.breaks);
    assert_eq!(p.featres, q.featres);
}

#[test]
fn collection_round_trip() {
    let text = "Package: a\nVersion: 1\n\nPackage: b\nVersion: 2\n";
    let pkgs = Packages::parse_str(text).unwrap();
    let serialized = pkgs.to_control();
    let again = Packages::parse_str(&serialized).unwrap();
    assert_eq!(again.0.len(), 2);
    assert_eq!(again.0[0].package, "a");
    assert_eq!(again.0[1].package, "b");
    assert_eq!(again.0[0].version, "1");
    assert_eq!(again.0[1].version, "2");
}

#[test]
fn try_from_bytes() {
    let pkgs: Packages = b"Package: x\n".as_slice().try_into().unwrap();
    assert_eq!(pkgs.0[0].package, "x");
    let p: Package = b"Package: y\n".as_slice().try_into().unwrap();
    assert_eq!(p.package, "y");
}

#[test]
fn from_str_trait() {
    let pkgs: Packages = "Package: z\n".parse().unwrap();
    assert_eq!(pkgs.0[0].package, "z");
    let p: Package = "Package: w\n".parse().unwrap();
    assert_eq!(p.package, "w");
}
