//! Reading and bumping the version of a manifest text.
//!
//! The manifest is a TOML document whose `package.version` field holds the
//! version string. Editing the document — parsing it, reading and replacing
//! that one field, and printing it back with every other byte preserved —
//! is the `toml_edit` crate's work, behind the trusted items below. The two
//! spec names tie the trusted calls together: `doc_version` is the
//! `package.version` string a document holds, and `manifest_version_str` is
//! that string as a function of the manifest text alone.

use vstd::prelude::*;

use crate::errors::Error;
use crate::mutate::{apply, apply_model, op_err, op_ok, select, spec_select, BumpOp, Selector};
use crate::version::{
    lemma_render_injective, parse_version, parsed_version, render_version, version_valid,
};

verus! {

/// `toml_edit::DocumentMut`, the format-preserving TOML document. Opaque to
/// verification; the contracts speak of it through `doc_version`.
#[verifier::external_type_specification]
#[verifier::external_body]
pub struct ExDocumentMut(toml_edit::DocumentMut);

/// `toml_edit::TomlError`, the error its parser reports.
#[verifier::external_type_specification]
#[verifier::external_body]
pub struct ExTomlError(toml_edit::TomlError);

/// The string a document holds at `package.version`, or `None` when that
/// field is absent or not a string.
pub uninterp spec fn doc_version(d: toml_edit::DocumentMut) -> Option<Seq<char>>;

/// The `package.version` string of a manifest text: what `doc_version`
/// gives on the document the text parses to, or `None` when the text is not
/// a well-formed TOML document.
pub uninterp spec fn manifest_version_str(text: Seq<char>) -> Option<Seq<char>>;

/// Relies on `toml_edit::DocumentMut`'s `FromStr`: parsing is a function of
/// the text, succeeds exactly on well-formed TOML, and yields the document
/// whose `package.version` the text's is.
#[verifier::external_body]
fn parse_manifest(text: &str) -> (r: Result<toml_edit::DocumentMut, toml_edit::TomlError>)
    ensures
        match r {
            Ok(d) => doc_version(d) == manifest_version_str(text@),
            Err(_) => manifest_version_str(text@) is None,
        },
{
    text.parse::<toml_edit::DocumentMut>()
}

/// Relies on `toml_edit::Item::get` and `Item::as_str`: reads the
/// `package.version` string of the document, reporting its absence.
#[verifier::external_body]
fn get_doc_version(d: &toml_edit::DocumentMut) -> (r: Option<String>)
    ensures
        match r {
            Some(s) => doc_version(*d) == Some(s@),
            None => doc_version(*d) is None,
        },
{
    match d.as_item().get("package").and_then(|p| p.get("version")).and_then(|i| i.as_str()) {
        Some(s) => Some(s.to_owned()),
        None => None,
    }
}

/// Relies on `toml_edit::Table::get_mut`, `TableLike::get_mut` and
/// `toml_edit::value` (all non-inserting lookups): replaces the value of the
/// existing `package.version` field with the given string, touching nothing
/// else; reports whether the field was found, which it is whenever the
/// document holds a `package.version` string.
#[verifier::external_body]
fn set_doc_version(d: &mut toml_edit::DocumentMut, ver: &str) -> (r: bool)
    ensures
        doc_version(*old(d)) is Some ==> r,
        r ==> doc_version(*final(d)) == Some(ver@),
        !r ==> *final(d) == *old(d),
{
    let slot = d
        .as_table_mut()
        .get_mut("package")
        .and_then(|pkg| pkg.as_table_like_mut())
        .and_then(|pkg| pkg.get_mut("version"));
    match slot {
        Some(slot) => {
            *slot = toml_edit::value(ver);
            true
        },
        None => false,
    }
}

/// Relies on `Display for toml_edit::DocumentMut`: prints the document as
/// TOML text that parses back to an equal document, so the text's
/// `package.version` is the document's.
#[verifier::external_body]
fn doc_to_text(d: &toml_edit::DocumentMut) -> (r: String)
    ensures
        manifest_version_str(r@) == doc_version(*d),
{
    d.to_string()
}

/// Reads the selected component of the manifest's version: the manifest
/// must be well-formed TOML whose `package.version` is a valid semantic
/// version, and the returned string is that version's selected component.
pub fn read_component(text: &str, sel: Selector) -> (r: Result<String, Error>)
    ensures
        r is Ok <==> (manifest_version_str(text@) matches Some(vs) && version_valid(vs)),
        match r {
            Ok(out) => (manifest_version_str(text@) matches Some(vs) && out@ == spec_select(
                parsed_version(vs),
                sel,
            )),
            Err(e) => {
                &&& (manifest_version_str(text@) is None <==> (e == Error::InvalidManifest || e
                    == Error::MissingVersionField))
                &&& ((manifest_version_str(text@) matches Some(vs) && !version_valid(vs)) <==> e
                    == Error::UnparsableManifestVersion)
            },
        },
{
    let doc = match parse_manifest(text) {
        Ok(d) => d,
        Err(_) => {
            return Err(Error::InvalidManifest);
        },
    };
    let vs = match get_doc_version(&doc) {
        Some(s) => s,
        None => {
            return Err(Error::MissingVersionField);
        },
    };
    let v = match parse_version(vs.as_str()) {
        Ok(v) => v,
        Err(_) => {
            return Err(Error::UnparsableManifestVersion);
        },
    };
    proof {
        assert(version_valid(vs@));
        lemma_render_injective(parsed_version(vs@), v@);
    }
    Ok(select(&v, sel))
}

/// Applies one mutation to the manifest's version and returns the rewritten
/// manifest text: the version field now holds the mutated version, and the
/// rest of the document is preserved by the trusted editor. Fails — and no
/// text is produced — when the manifest or its version is unreadable or the
/// mutation does not apply.
pub fn bump_manifest(text: &str, op: &BumpOp) -> (r: Result<String, Error>)
    ensures
        r is Ok <==> (manifest_version_str(text@) matches Some(vs) && version_valid(vs) && op_ok(
            parsed_version(vs),
            op@,
        )),
        match r {
            Ok(out) => (manifest_version_str(text@) matches Some(vs) && manifest_version_str(out@)
                == Some(apply_model(parsed_version(vs), op@).render())),
            Err(e) => {
                &&& (manifest_version_str(text@) is None <==> (e == Error::InvalidManifest || e
                    == Error::MissingVersionField))
                &&& ((manifest_version_str(text@) matches Some(vs) && !version_valid(vs)) <==> e
                    == Error::UnparsableManifestVersion)
                &&& (manifest_version_str(text@) matches Some(vs) ==> version_valid(vs)
                    ==> !op_ok(parsed_version(vs), op@) && e == op_err(op@))
            },
        },
{
    let mut doc = match parse_manifest(text) {
        Ok(d) => d,
        Err(_) => {
            return Err(Error::InvalidManifest);
        },
    };
    let vs = match get_doc_version(&doc) {
        Some(s) => s,
        None => {
            return Err(Error::MissingVersionField);
        },
    };
    let v = match parse_version(vs.as_str()) {
        Ok(v) => v,
        Err(_) => {
            return Err(Error::UnparsableManifestVersion);
        },
    };
    proof {
        assert(version_valid(vs@));
        lemma_render_injective(parsed_version(vs@), v@);
    }
    let w = match apply(v, op) {
        Ok(w) => w,
        Err(e) => {
            return Err(e);
        },
    };
    let new_version = render_version(&w);
    let found = set_doc_version(&mut doc, new_version.as_str());
    assert(found);
    Ok(doc_to_text(&doc))
}

} // verus!
