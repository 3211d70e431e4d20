use phasecraft::update::{candidate_matches, update_step, verify, Manifest, Target, UpdateStep};
use sha2::{Digest, Sha256};

fn linux_target() -> Target {
    Target { asset: "phasecraft-update-linux-x64.bin".into(), sha256: "b".repeat(64), size: 10 }
}

#[test]
fn corrupt_or_mixed_release_is_rejected() {
    let mut target = Target {
        asset: "phasecraft-update-linux-x64.bin".into(),
        sha256: format!("{:x}", Sha256::digest(b"new binary")),
        size: 10,
    };
    assert!(verify(b"new binary", &target).is_ok());
    assert!(verify(b"old binary", &target).is_err());
    target.size = 9;
    assert!(verify(b"new binary", &target).is_err());
}

#[test]
fn manifest_requires_known_schema_commit_and_platform_asset() {
    let mut manifest = Manifest {
        schema: 1,
        commit: "a".repeat(40),
        targets: vec![("linux-x64".into(), linux_target())],
    };
    assert!(manifest.target("linux-x64").is_ok());
    assert!(manifest.target("windows-x64").is_err());
    manifest.schema = 2;
    assert!(manifest.target("linux-x64").is_err());
    manifest.schema = 1;
    manifest.commit = "dev".into();
    assert!(manifest.target("linux-x64").is_err());
}

#[test]
fn a_digest_matches_in_either_case_and_a_mismatch_names_the_retry() {
    let hex = format!("{:x}", Sha256::digest(b"new binary"));
    let target = Target { asset: "a".into(), sha256: hex.to_uppercase(), size: 10 };
    assert!(verify(b"new binary", &target).is_ok());
    let e = verify(b"old binary", &target).unwrap_err();
    assert_eq!(
        e,
        "update checksum/size mismatch; executable unchanged. The rolling release may be changing; retry shortly"
    );
    let short = Target { asset: "a".into(), sha256: hex[..63].into(), size: 10 };
    assert!(verify(b"new binary", &short).is_err());
}

#[test]
fn each_manifest_refusal_has_its_message() {
    let windows = Target { asset: "phasecraft-update-windows-x64.exe".into(), sha256: "C".repeat(64), size: 1 };
    let manifest = Manifest {
        schema: 1,
        commit: "0123456789abcdefABCDEF0123456789abcdef01".into(),
        targets: vec![("linux-x64".into(), linux_target()), ("windows-x64".into(), windows.clone())],
    };
    assert_eq!(manifest.target("windows-x64").unwrap(), &windows);
    assert_eq!(manifest.target("macos-arm64").unwrap_err(), "no update for platform macos-arm64");
    let mut bad = manifest.clone();
    bad.targets[0].1.asset = "phasecraft-update-linux-x64.exe".into();
    assert_eq!(bad.target("linux-x64").unwrap_err(), "invalid update asset metadata");
    let mut big = manifest.clone();
    big.targets[0].1.size = 100 * 1024 * 1024 + 1;
    assert_eq!(big.target("linux-x64").unwrap_err(), "invalid update asset metadata");
    big.targets[0].1.size = 100 * 1024 * 1024;
    assert!(big.target("linux-x64").is_ok());
    let mut empty = manifest.clone();
    empty.targets[0].1.size = 0;
    assert!(empty.target("linux-x64").is_err());
    let mut odd = manifest;
    odd.commit.replace_range(0..1, "g");
    assert_eq!(odd.target("linux-x64").unwrap_err(), "unsupported or malformed update manifest");
}

#[test]
fn an_update_installs_only_a_different_release_unless_forced_or_checking() {
    let a = "a".repeat(40);
    let b = "b".repeat(40);
    assert_eq!(update_step(&a, &a, false, false), UpdateStep::UpToDate);
    assert_eq!(update_step(&a, &a, true, false), UpdateStep::UpToDate);
    assert_eq!(update_step(&a, &a, false, true), UpdateStep::Install);
    assert_eq!(update_step(&a, &b, true, false), UpdateStep::Available);
    assert_eq!(update_step(&a, &b, false, false), UpdateStep::Install);
    assert!(candidate_matches(true, &b, "linux-x64", &b, "linux-x64"));
    assert!(!candidate_matches(false, &b, "linux-x64", &b, "linux-x64"));
    assert!(!candidate_matches(true, &a, "linux-x64", &b, "linux-x64"));
    assert!(!candidate_matches(true, &b, "windows-x64", &b, "linux-x64"));
}
