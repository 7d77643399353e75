use aosc_packages::arch::{aosc_branch_of, arch_name_of, AOSCBranch};
use aosc_packages::decimal::{format_u64, parse_u64};

#[test]
fn arch_mapping_table() {
    assert_eq!(arch_name_of("x86_64"), Some("amd64"));
    assert_eq!(arch_name_of("x86"), Some("i486"));
    assert_eq!(arch_name_of("powerpc"), Some("powerpc"));
    assert_eq!(arch_name_of("aarch64"), Some("arm64"));
    assert_eq!(arch_name_of("mips64"), Some("loongson3"));
    assert_eq!(arch_name_of("riscv64"), Some("riscv64"));
    assert_eq!(arch_name_of("sparc"), None);
}

#[test]
fn branch_mainline() {
    let os = "PRETTY_NAME=\"AOSC OS\"\nNAME=AOSC OS\nID=aosc\n";
    assert_eq!(aosc_branch_of(os), Some(AOSCBranch::Mainline));
}

#[test]
fn branch_afterglow() {
    assert_eq!(
        aosc_branch_of("NAME=AOSC OS/Retro\n"),
        Some(AOSCBranch::Afterglow)
    );
    assert_eq!(aosc_branch_of("NAME=Afterglow\n"), Some(AOSCBranch::Afterglow));
}

#[test]
fn branch_unknown_or_missing() {
    assert_eq!(aosc_branch_of("NAME=Debian\n"), None);
    assert_eq!(aosc_branch_of("ID=debian\nVERSION=12\n"), None);
    assert_eq!(aosc_branch_of(""), None);
}

#[test]
fn branch_first_name_line_decides() {
    let os = "NAME=Debian\nNAME=AOSC OS\n";
    assert_eq!(aosc_branch_of(os), None);
}

#[test]
fn parse_u64_values() {
    assert_eq!(parse_u64("0"), Some(0));
    assert_eq!(parse_u64("3200"), Some(3200));
    assert_eq!(parse_u64("18446744073709551615"), Some(u64::MAX));
    assert_eq!(parse_u64("18446744073709551616"), None);
    assert_eq!(parse_u64(""), None);
    assert_eq!(parse_u64("12a"), None);
    assert_eq!(parse_u64("+3"), None);
    assert_eq!(parse_u64("-3"), None);
    assert_eq!(parse_u64(" 3"), None);
}

#[test]
fn format_u64_values() {
    assert_eq!(format_u64(0), "0");
    assert_eq!(format_u64(7), "7");
    assert_eq!(format_u64(1048576), "1048576");
    assert_eq!(format_u64(u64::MAX), "18446744073709551615");
}
