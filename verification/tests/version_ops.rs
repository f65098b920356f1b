//! Tests of the version grammar and the mutator.

use semvercli::errors::Error;
use semvercli::ident::Identifier;
use semvercli::mutate::{apply, select, BumpOp, Selector};
use semvercli::version::{parse_version, render_version, SemanticVersion};

fn ver(s: &str) -> SemanticVersion {
    parse_version(s).expect("version should parse")
}

#[test]
fn parse_basic_version() {
    let v = ver("1.2.3");
    assert_eq!(v.major, 1);
    assert_eq!(v.minor, 2);
    assert_eq!(v.patch, 3);
    assert!(v.pre.is_empty());
    assert!(v.build.is_empty());
}

#[test]
fn parse_full_version() {
    let v = ver("1.2.3-alpha.1+build.7");
    assert_eq!(v.major, 1);
    assert_eq!(v.minor, 2);
    assert_eq!(v.patch, 3);
    assert_eq!(
        v.pre,
        vec![
            Identifier::AlphaNumeric(String::from("alpha")),
            Identifier::Numeric(1),
        ]
    );
    assert_eq!(
        v.build,
        vec![
            Identifier::AlphaNumeric(String::from("build")),
            Identifier::Numeric(7),
        ]
    );
}

#[test]
fn render_round_trip() {
    for s in [
        "0.0.0",
        "1.2.3",
        "10.20.30",
        "1.2.3-alpha.1",
        "1.2.3+build.7",
        "1.2.3-alpha.1+build.7",
        "0.9.0-rc.2",
        "1.0.0-x.7.z.92",
        "18446744073709551615.0.0",
    ] {
        let v = ver(s);
        assert_eq!(render_version(&v), s);
        assert_eq!(ver(&render_version(&v)), v);
    }
}

#[test]
fn parse_rejects_bad_versions() {
    for s in [
        "",
        "1",
        "1.2",
        "1.2.3.4",
        "a.b.c",
        "01.0.0",
        "0.01.0",
        "0.0.01",
        "1.2.3-",
        "1.2.3+",
        "1.2.3-a..b",
        "1.2.3-a b",
        "1.2.3 a.b.c",
        " 1.2.3",
        "1.2.3 ",
        "-1.2.3",
        "1.-2.3",
        "18446744073709551616.0.0",
        "1.2.3-é",
    ] {
        assert_eq!(parse_version(s), Err(Error::InvalidVersion), "{}", s);
    }
}

#[test]
fn leading_zero_and_oversized_label_segments_are_alphanumeric() {
    let v = ver("1.2.3-01");
    assert_eq!(v.pre, vec![Identifier::AlphaNumeric(String::from("01"))]);
    assert_eq!(render_version(&v), "1.2.3-01");

    let v = ver("1.2.3-18446744073709551616");
    assert_eq!(
        v.pre,
        vec![Identifier::AlphaNumeric(String::from(
            "18446744073709551616"
        ))]
    );
    assert_eq!(render_version(&v), "1.2.3-18446744073709551616");

    let v = ver("1.2.3+0012");
    assert_eq!(v.build, vec![Identifier::AlphaNumeric(String::from("0012"))]);
}

#[test]
fn numeric_label_segments_stay_numeric() {
    let v = ver("1.2.3-0.7.100");
    assert_eq!(
        v.pre,
        vec![
            Identifier::Numeric(0),
            Identifier::Numeric(7),
            Identifier::Numeric(100),
        ]
    );
}

#[test]
fn select_components() {
    let v = ver("1.2.3-alpha.1+build.7");
    assert_eq!(select(&v, Selector::Major), "1");
    assert_eq!(select(&v, Selector::Minor), "2");
    assert_eq!(select(&v, Selector::Patch), "3");
    assert_eq!(select(&v, Selector::Pre), "alpha.1");
    assert_eq!(select(&v, Selector::Build), "build.7");
    assert_eq!(select(&v, Selector::Full), "1.2.3-alpha.1+build.7");
}

#[test]
fn select_empty_labels() {
    let v = ver("1.2.3");
    assert_eq!(select(&v, Selector::Pre), "");
    assert_eq!(select(&v, Selector::Build), "");
}

#[test]
fn increment_major_resets_everything_below() {
    let v = ver("1.2.3-alpha.1+build.7");
    let w = apply(v, &BumpOp::IncrementMajor).unwrap();
    assert_eq!(render_version(&w), "2.0.0");
}

#[test]
fn increment_minor_resets_patch_and_labels() {
    let v = ver("1.2.3-alpha.1+build.7");
    let w = apply(v, &BumpOp::IncrementMinor).unwrap();
    assert_eq!(render_version(&w), "1.3.0");
}

#[test]
fn increment_patch_clears_labels() {
    let v = ver("1.2.3-alpha.1+build.7");
    let w = apply(v, &BumpOp::IncrementPatch).unwrap();
    assert_eq!(render_version(&w), "1.2.4");
}

#[test]
fn set_pre_reads_back_exactly() {
    for label in ["alpha.1", "x.7.z.92", "rc.2", "01", "a-b"] {
        let v = ver("0.9.0");
        let w = apply(v, &BumpOp::SetPre(String::from(label))).unwrap();
        assert_eq!(select(&w, Selector::Pre), label);
    }
}

#[test]
fn set_build_reads_back_exactly() {
    for label in ["alpha.1", "x.7.z.92", "0012"] {
        let v = ver("0.9.0");
        let w = apply(v, &BumpOp::SetBuild(String::from(label))).unwrap();
        assert_eq!(select(&w, Selector::Build), label);
    }
}

#[test]
fn set_pre_keeps_other_fields() {
    let v = ver("1.2.3+build.7");
    let w = apply(v, &BumpOp::SetPre(String::from("rc.1"))).unwrap();
    assert_eq!(render_version(&w), "1.2.3-rc.1+build.7");
}

#[test]
fn set_full_replaces_everything() {
    let v = ver("5.0.0");
    let w = apply(v, &BumpOp::SetFull(String::from("6.0.0-beta"))).unwrap();
    assert_eq!(select(&w, Selector::Full), "6.0.0-beta");
}

#[test]
fn invalid_labels_are_rejected() {
    for label in ["", "a..b", "a b", ".", "a.", ".a", "é", "x+y"] {
        let v = ver("1.2.3");
        assert_eq!(
            apply(v, &BumpOp::SetPre(String::from(label))),
            Err(Error::InvalidLabel),
            "{}",
            label
        );
        let v = ver("1.2.3");
        assert_eq!(
            apply(v, &BumpOp::SetBuild(String::from(label))),
            Err(Error::InvalidLabel),
            "{}",
            label
        );
    }
}

#[test]
fn invalid_full_version_is_rejected() {
    let v = ver("1.2.3");
    assert_eq!(
        apply(v, &BumpOp::SetFull(String::from("not-a-version"))),
        Err(Error::InvalidVersion)
    );
}

#[test]
fn increment_at_the_limit_overflows() {
    let v = ver("18446744073709551615.0.0");
    assert_eq!(apply(v, &BumpOp::IncrementMajor), Err(Error::Overflow));
    let v = ver("0.18446744073709551615.0");
    assert_eq!(apply(v, &BumpOp::IncrementMinor), Err(Error::Overflow));
    let v = ver("0.0.18446744073709551615");
    assert_eq!(apply(v, &BumpOp::IncrementPatch), Err(Error::Overflow));
}
