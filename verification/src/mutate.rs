//! The version mutator: reading one component of a version, and applying
//! one mutation to it.
//!
//! Every increment — of major, minor or patch — clears both the pre-release
//! and the build label, and an increment of major or minor resets the
//! fields below it, following the convention that raising a number starts a
//! fresh release. Setting a label replaces it wholesale with the parsed
//! label; setting the full version replaces the whole value.

use vstd::prelude::*;

use crate::errors::Error;
use crate::ident::{
    idents_model, label_str, label_valid, lemma_label_str_injective, parse_label_range,
    parsed_label, render_label, IdentModel, Identifier,
};
use crate::num::{digits_of, u64_to_string};
use crate::version::{
    lemma_render_injective, parse_version, parsed_version, render_version, version_valid,
    SemanticVersion, VersionModel,
};

verus! {

/// Which component of a version a read returns.
#[derive(Clone, Copy, Debug, PartialEq, Eq, Structural)]
pub enum Selector {
    Major,
    Minor,
    Patch,
    Pre,
    Build,
    Full,
}

/// Which mutation a bump applies. Exactly one is chosen per invocation.
#[derive(Debug, Clone)]
pub enum BumpOp {
    /// Raise major by one; minor and patch become 0; both labels clear.
    IncrementMajor,
    /// Raise minor by one; patch becomes 0; both labels clear.
    IncrementMinor,
    /// Raise patch by one; both labels clear.
    IncrementPatch,
    /// Replace the pre-release label with the given one.
    SetPre(String),
    /// Replace the build label with the given one.
    SetBuild(String),
    /// Replace the whole version with the given one.
    SetFull(String),
}

/// The mathematical value of a mutation.
pub enum OpModel {
    IncMajor,
    IncMinor,
    IncPatch,
    SetPre(Seq<char>),
    SetBuild(Seq<char>),
    SetFull(Seq<char>),
}

impl View for BumpOp {
    type V = OpModel;

    open spec fn view(&self) -> OpModel {
        match self {
            BumpOp::IncrementMajor => OpModel::IncMajor,
            BumpOp::IncrementMinor => OpModel::IncMinor,
            BumpOp::IncrementPatch => OpModel::IncPatch,
            BumpOp::SetPre(l) => OpModel::SetPre(l@),
            BumpOp::SetBuild(l) => OpModel::SetBuild(l@),
            BumpOp::SetFull(s) => OpModel::SetFull(s@),
        }
    }
}

/// The component a read returns, as it is printed: numbers in canonical
/// decimal, labels joined by dots (empty when absent), and the full version
/// in canonical form.
pub open spec fn spec_select(m: VersionModel, sel: Selector) -> Seq<char> {
    match sel {
        Selector::Major => digits_of(m.major),
        Selector::Minor => digits_of(m.minor),
        Selector::Patch => digits_of(m.patch),
        Selector::Pre => label_str(m.pre),
        Selector::Build => label_str(m.build),
        Selector::Full => m.render(),
    }
}

/// When a mutation applies: an increment needs room in its field, and a
/// given label or version string must be valid.
pub open spec fn op_ok(m: VersionModel, op: OpModel) -> bool {
    match op {
        OpModel::IncMajor => m.major < u64::MAX,
        OpModel::IncMinor => m.minor < u64::MAX,
        OpModel::IncPatch => m.patch < u64::MAX,
        OpModel::SetPre(l) => label_valid(l),
        OpModel::SetBuild(l) => label_valid(l),
        OpModel::SetFull(s) => version_valid(s),
    }
}

/// The error a mutation raises when it does not apply.
pub open spec fn op_err(op: OpModel) -> Error {
    match op {
        OpModel::IncMajor => Error::Overflow,
        OpModel::IncMinor => Error::Overflow,
        OpModel::IncPatch => Error::Overflow,
        OpModel::SetPre(_) => Error::InvalidLabel,
        OpModel::SetBuild(_) => Error::InvalidLabel,
        OpModel::SetFull(_) => Error::InvalidVersion,
    }
}

/// The version a mutation produces, when it applies.
pub open spec fn apply_model(m: VersionModel, op: OpModel) -> VersionModel {
    match op {
        OpModel::IncMajor => VersionModel {
            major: (m.major + 1) as nat,
            minor: 0,
            patch: 0,
            pre: Seq::empty(),
            build: Seq::empty(),
        },
        OpModel::IncMinor => VersionModel {
            minor: (m.minor + 1) as nat,
            patch: 0,
            pre: Seq::empty(),
            build: Seq::empty(),
            ..m
        },
        OpModel::IncPatch => VersionModel {
            patch: (m.patch + 1) as nat,
            pre: Seq::empty(),
            build: Seq::empty(),
            ..m
        },
        OpModel::SetPre(l) => VersionModel { pre: parsed_label(l), ..m },
        OpModel::SetBuild(l) => VersionModel { build: parsed_label(l), ..m },
        OpModel::SetFull(s) => parsed_version(s),
    }
}

/// Returns the selected component of the version, rendered for printing.
pub fn select(v: &SemanticVersion, sel: Selector) -> (r: String)
    ensures
        r@ == spec_select(v@, sel),
{
    match sel {
        Selector::Major => u64_to_string(v.major),
        Selector::Minor => u64_to_string(v.minor),
        Selector::Patch => u64_to_string(v.patch),
        Selector::Pre => render_label(&v.pre),
        Selector::Build => render_label(&v.build),
        Selector::Full => render_version(v),
    }
}

/// Applies one mutation to a version: it succeeds exactly when the mutation
/// applies, and returns the mutated version.
pub fn apply(v: SemanticVersion, op: &BumpOp) -> (r: Result<SemanticVersion, Error>)
    requires
        v.wf(),
    ensures
        match r {
            Ok(w) => op_ok(v@, op@) && w@ == apply_model(v@, op@) && w@.wf(),
            Err(e) => !op_ok(v@, op@) && e == op_err(op@),
        },
{
    proof {
        assert(idents_model(Seq::<Identifier>::empty()) =~= Seq::<IdentModel>::empty());
    }
    match op {
        BumpOp::IncrementMajor => {
            if v.major == u64::MAX {
                Err(Error::Overflow)
            } else {
                let w = SemanticVersion {
                    major: v.major + 1,
                    minor: 0,
                    patch: 0,
                    pre: Vec::new(),
                    build: Vec::new(),
                };
                proof {
                    assert(w@ =~= apply_model(v@, op@));
                }
                Ok(w)
            }
        },
        BumpOp::IncrementMinor => {
            if v.minor == u64::MAX {
                Err(Error::Overflow)
            } else {
                let w = SemanticVersion {
                    minor: v.minor + 1,
                    patch: 0,
                    pre: Vec::new(),
                    build: Vec::new(),
                    ..v
                };
                proof {
                    assert(w@ =~= apply_model(v@, op@));
                }
                Ok(w)
            }
        },
        BumpOp::IncrementPatch => {
            if v.patch == u64::MAX {
                Err(Error::Overflow)
            } else {
                let w = SemanticVersion {
                    patch: v.patch + 1,
                    pre: Vec::new(),
                    build: Vec::new(),
                    ..v
                };
                proof {
                    assert(w@ =~= apply_model(v@, op@));
                }
                Ok(w)
            }
        },
        BumpOp::SetPre(l) => {
            let n = l.as_str().unicode_len();
            match parse_label_range(l.as_str(), 0, n) {
                Ok(ids) => {
                    let ghost idm = idents_model(ids@);
                    let w = SemanticVersion { pre: ids, ..v };
                    proof {
                        assert(l@.subrange(0, l@.len() as int) =~= l@);
                        assert(label_valid(l@));
                        lemma_label_str_injective(parsed_label(l@), idm);
                        assert(w@ =~= apply_model(v@, op@));
                    }
                    Ok(w)
                },
                Err(e) => {
                    proof {
                        assert(l@.subrange(0, l@.len() as int) =~= l@);
                    }
                    Err(e)
                },
            }
        },
        BumpOp::SetBuild(l) => {
            let n = l.as_str().unicode_len();
            match parse_label_range(l.as_str(), 0, n) {
                Ok(ids) => {
                    let ghost idm = idents_model(ids@);
                    let w = SemanticVersion { build: ids, ..v };
                    proof {
                        assert(l@.subrange(0, l@.len() as int) =~= l@);
                        assert(label_valid(l@));
                        lemma_label_str_injective(parsed_label(l@), idm);
                        assert(w@ =~= apply_model(v@, op@));
                    }
                    Ok(w)
                },
                Err(e) => {
                    proof {
                        assert(l@.subrange(0, l@.len() as int) =~= l@);
                    }
                    Err(e)
                },
            }
        },
        BumpOp::SetFull(sf) => {
            match parse_version(sf.as_str()) {
                Ok(w) => {
                    proof {
                        assert(version_valid(sf@));
                        lemma_render_injective(parsed_version(sf@), w@);
                        assert(w@ =~= apply_model(v@, op@));
                    }
                    Ok(w)
                },
                Err(e) => Err(e),
            }
        },
    }
}

/// Law: after increment-major, major reads as the old major plus one, minor
/// and patch read as zero, and the pre-release label reads as empty (the
/// build label clears as well).
pub proof fn lemma_increment_major_reads(m: VersionModel)
    requires
        m.wf(),
        m.major < u64::MAX,
    ensures
        spec_select(apply_model(m, OpModel::IncMajor), Selector::Major) == digits_of(
            (m.major + 1) as nat,
        ),
        spec_select(apply_model(m, OpModel::IncMajor), Selector::Minor) == digits_of(0),
        spec_select(apply_model(m, OpModel::IncMajor), Selector::Patch) == digits_of(0),
        spec_select(apply_model(m, OpModel::IncMajor), Selector::Pre) == Seq::<char>::empty(),
        spec_select(apply_model(m, OpModel::IncMajor), Selector::Build) == Seq::<char>::empty(),
{
}

/// Law: after increment-minor, minor reads as the old minor plus one, patch
/// reads as zero, the pre-release label reads as empty, and major is
/// unchanged.
pub proof fn lemma_increment_minor_reads(m: VersionModel)
    requires
        m.wf(),
        m.minor < u64::MAX,
    ensures
        spec_select(apply_model(m, OpModel::IncMinor), Selector::Minor) == digits_of(
            (m.minor + 1) as nat,
        ),
        spec_select(apply_model(m, OpModel::IncMinor), Selector::Patch) == digits_of(0),
        spec_select(apply_model(m, OpModel::IncMinor), Selector::Pre) == Seq::<char>::empty(),
        spec_select(apply_model(m, OpModel::IncMinor), Selector::Major) == spec_select(
            m,
            Selector::Major,
        ),
{
}

/// Law: after increment-patch, patch reads as the old patch plus one, the
/// pre-release label reads as empty, and major and minor are unchanged.
pub proof fn lemma_increment_patch_reads(m: VersionModel)
    requires
        m.wf(),
        m.patch < u64::MAX,
    ensures
        spec_select(apply_model(m, OpModel::IncPatch), Selector::Patch) == digits_of(
            (m.patch + 1) as nat,
        ),
        spec_select(apply_model(m, OpModel::IncPatch), Selector::Pre) == Seq::<char>::empty(),
        spec_select(apply_model(m, OpModel::IncPatch), Selector::Major) == spec_select(
            m,
            Selector::Major,
        ),
        spec_select(apply_model(m, OpModel::IncPatch), Selector::Minor) == spec_select(
            m,
            Selector::Minor,
        ),
{
}

/// Law: setting the pre-release to a string of the label grammar and
/// reading the pre-release back returns exactly that string.
pub proof fn lemma_set_pre_reads(m: VersionModel, s: Seq<char>)
    requires
        m.wf(),
        label_valid(s),
    ensures
        spec_select(apply_model(m, OpModel::SetPre(s)), Selector::Pre) == s,
{
}

/// Law: setting the build label to a string of the label grammar and
/// reading the build label back returns exactly that string.
pub proof fn lemma_set_build_reads(m: VersionModel, s: Seq<char>)
    requires
        m.wf(),
        label_valid(s),
    ensures
        spec_select(apply_model(m, OpModel::SetBuild(s)), Selector::Build) == s,
{
}

/// Law: setting the full version to a valid version string and reading the
/// full version back returns the canonical rendering of that string — which
/// is the string itself, since the grammar accepts canonical renderings
/// only.
pub proof fn lemma_set_full_reads(m: VersionModel, s: Seq<char>)
    requires
        m.wf(),
        version_valid(s),
    ensures
        spec_select(apply_model(m, OpModel::SetFull(s)), Selector::Full) == s,
{
}

} // verus!
