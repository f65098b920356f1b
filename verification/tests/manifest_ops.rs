//! Tests of reading and bumping the version inside a manifest text.

use semvercli::errors::Error;
use semvercli::manifest::{bump_manifest, read_component};
use semvercli::mutate::{BumpOp, Selector};

const BASIC: &str = "[package]\nname = \"demo\"\nversion = \"1.2.3\"\n";

#[test]
fn bump_major_rewrites_version_field() {
    let out = bump_manifest(BASIC, &BumpOp::IncrementMajor).unwrap();
    assert_eq!(out, "[package]\nname = \"demo\"\nversion = \"2.0.0\"\n");
}

#[test]
fn read_pre_and_build() {
    let text = "[package]\nversion = \"1.2.3-alpha.1+build.7\"\n";
    assert_eq!(read_component(text, Selector::Pre).unwrap(), "alpha.1");
    assert_eq!(read_component(text, Selector::Build).unwrap(), "build.7");
}

#[test]
fn bump_pre_appends_label() {
    let text = "[package]\nversion = \"0.9.0\"\n";
    let out = bump_manifest(text, &BumpOp::SetPre(String::from("rc.2"))).unwrap();
    assert_eq!(out, "[package]\nversion = \"0.9.0-rc.2\"\n");
}

#[test]
fn bump_full_version_replaces_value() {
    let text = "[package]\nversion = \"5.0.0\"\n";
    let out = bump_manifest(text, &BumpOp::SetFull(String::from("6.0.0-beta"))).unwrap();
    assert_eq!(out, "[package]\nversion = \"6.0.0-beta\"\n");
}

#[test]
fn bump_with_invalid_version_fails_without_output() {
    let r = bump_manifest(BASIC, &BumpOp::SetFull(String::from("not-a-version")));
    assert_eq!(r, Err(Error::InvalidVersion));
}

#[test]
fn bump_with_invalid_label_fails() {
    let r = bump_manifest(BASIC, &BumpOp::SetPre(String::from("a b")));
    assert_eq!(r, Err(Error::InvalidLabel));
}

#[test]
fn read_all_components() {
    assert_eq!(read_component(BASIC, Selector::Major).unwrap(), "1");
    assert_eq!(read_component(BASIC, Selector::Minor).unwrap(), "2");
    assert_eq!(read_component(BASIC, Selector::Patch).unwrap(), "3");
    assert_eq!(read_component(BASIC, Selector::Pre).unwrap(), "");
    assert_eq!(read_component(BASIC, Selector::Build).unwrap(), "");
    assert_eq!(read_component(BASIC, Selector::Full).unwrap(), "1.2.3");
}

#[test]
fn everything_else_in_the_manifest_is_preserved() {
    let text = "# top comment\n[package]\nname = \"demo\"   # keep me\nversion = \"1.2.3\"\nedition = \"2021\"\n\n[dependencies]\nserde = { version = \"1\", features = [\"derive\"] }\n";
    let expected = "# top comment\n[package]\nname = \"demo\"   # keep me\nversion = \"1.2.4\"\nedition = \"2021\"\n\n[dependencies]\nserde = { version = \"1\", features = [\"derive\"] }\n";
    let out = bump_manifest(text, &BumpOp::IncrementPatch).unwrap();
    assert_eq!(out, expected);
}

#[test]
fn unreadable_manifest_is_reported() {
    let r = read_component("not = = toml", Selector::Major);
    assert_eq!(r, Err(Error::InvalidManifest));
    let r = bump_manifest("not = = toml", &BumpOp::IncrementMajor);
    assert_eq!(r, Err(Error::InvalidManifest));
}

#[test]
fn missing_version_field_is_reported() {
    for text in [
        "",
        "[package]\nname = \"demo\"\n",
        "[dependencies]\nserde = \"1\"\n",
        "[package]\nversion = 3\n",
    ] {
        assert_eq!(
            read_component(text, Selector::Major),
            Err(Error::MissingVersionField),
            "{}",
            text
        );
        assert_eq!(
            bump_manifest(text, &BumpOp::IncrementMajor),
            Err(Error::MissingVersionField),
            "{}",
            text
        );
    }
}

#[test]
fn unparsable_version_field_is_reported() {
    let text = "[package]\nversion = \"one.two.three\"\n";
    assert_eq!(
        read_component(text, Selector::Major),
        Err(Error::UnparsableManifestVersion)
    );
    assert_eq!(
        bump_manifest(text, &BumpOp::IncrementMajor),
        Err(Error::UnparsableManifestVersion)
    );
}

#[test]
fn bump_overflow_is_reported() {
    let text = "[package]\nversion = \"18446744073709551615.0.0\"\n";
    assert_eq!(
        bump_manifest(text, &BumpOp::IncrementMajor),
        Err(Error::Overflow)
    );
}

#[test]
fn bump_minor_and_patch_rewrite_version_field() {
    let out = bump_manifest(BASIC, &BumpOp::IncrementMinor).unwrap();
    assert_eq!(out, "[package]\nname = \"demo\"\nversion = \"1.3.0\"\n");
    let out = bump_manifest(BASIC, &BumpOp::IncrementPatch).unwrap();
    assert_eq!(out, "[package]\nname = \"demo\"\nversion = \"1.2.4\"\n");
}

#[test]
fn read_full_version_with_labels() {
    let text = "[package]\nversion = \"1.2.3-alpha.1+build.7\"\n";
    assert_eq!(
        read_component(text, Selector::Full).unwrap(),
        "1.2.3-alpha.1+build.7"
    );
}

#[test]
fn bump_build_replaces_build_label() {
    let text = "[package]\nversion = \"1.2.3-rc.1+old.1\"\n";
    let out = bump_manifest(text, &BumpOp::SetBuild(String::from("new.2"))).unwrap();
    assert_eq!(out, "[package]\nversion = \"1.2.3-rc.1+new.2\"\n");
}

#[test]
fn error_messages_name_the_failure() {
    let err = bump_manifest("not = = toml", &BumpOp::IncrementMajor).unwrap_err();
    assert_eq!(err.message(), "manifest is not valid TOML");
    let err = bump_manifest(BASIC, &BumpOp::SetPre(String::from(""))).unwrap_err();
    assert_eq!(err.message(), "invalid pre-release or build label");
}
