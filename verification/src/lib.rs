//! A library for reading and mutating semantic versions embedded in a
//! package manifest.
//!
//! The core is a pure "version mutator": it parses a semantic version
//! (`major.minor.patch` with optional pre-release and build labels) into a
//! [`version::SemanticVersion`], applies a single read or write intent to it,
//! and renders the result back to a string. Manifest editing is delegated to
//! the `toml_edit` crate behind a small trusted boundary in [`manifest`];
//! everything else — the version grammar, rendering, and the mutation rules —
//! is verified.
//!
//! The laws the library proves live next to what they govern: rendering and
//! re-parsing a version round-trips ([`version::lemma_version_round_trip`],
//! via the injectivity of rendering, [`version::lemma_render_injective`]),
//! each increment reads back as expected and clears what it must
//! ([`mutate::lemma_increment_major_reads`] and its siblings), and a label or
//! full version that was set reads back exactly
//! ([`mutate::lemma_set_pre_reads`] and its siblings).

pub mod errors;
pub mod ident;
pub mod manifest;
pub mod mutate;
pub mod num;
pub mod version;
