//! Semantic versions: the data model, rendering, and parsing.
//!
//! A version renders as `major.minor.patch`, followed by `-` and the
//! pre-release label when one is present, followed by `+` and the build
//! label when one is present. The numeric fields render in canonical decimal
//! form, so every version has exactly one rendering, and the parser accepts
//! exactly the strings some well-formed version renders to.

use vstd::prelude::*;

use crate::errors::Error;
use crate::ident::{
    find_char, idents_model, is_ident_char, label_str, label_wf, lemma_label_str_injective,
    lemma_label_str_shape, lemma_split_at_char, lemma_split_at_char_unique, parse_label_range,
    render_label, IdentModel, Identifier,
};
use crate::num::{
    char_of_digit, digits_of, digits_value, is_canonical_digits, is_digit,
    lemma_digits_of_canonical, lemma_digits_of_value, lemma_seg_value_of_digits, u64_to_string,
};

verus! {

/// The mathematical value of a semantic version.
#[verifier::ext_equal]
pub struct VersionModel {
    pub major: nat,
    pub minor: nat,
    pub patch: nat,
    pub pre: Seq<IdentModel>,
    pub build: Seq<IdentModel>,
}

impl VersionModel {
    /// The numeric fields are representable and the labels' identifiers are
    /// well formed.
    pub open spec fn wf(self) -> bool {
        &&& self.major <= u64::MAX
        &&& self.minor <= u64::MAX
        &&& self.patch <= u64::MAX
        &&& label_wf(self.pre)
        &&& label_wf(self.build)
    }

    /// The `major.minor.patch` part of the rendering.
    pub open spec fn core_str(self) -> Seq<char> {
        digits_of(self.major) + seq!['.'] + digits_of(self.minor) + seq!['.'] + digits_of(
            self.patch,
        )
    }

    /// The pre-release part of the rendering: `-` and the label, or nothing.
    pub open spec fn pre_part(self) -> Seq<char> {
        if self.pre.len() == 0 {
            Seq::empty()
        } else {
            seq!['-'] + label_str(self.pre)
        }
    }

    /// The build part of the rendering: `+` and the label, or nothing.
    pub open spec fn build_part(self) -> Seq<char> {
        if self.build.len() == 0 {
            Seq::empty()
        } else {
            seq!['+'] + label_str(self.build)
        }
    }

    /// Everything before the build part.
    pub open spec fn main_str(self) -> Seq<char> {
        self.core_str() + self.pre_part()
    }

    /// The full canonical rendering of the version.
    pub open spec fn render(self) -> Seq<char> {
        self.main_str() + self.build_part()
    }
}

/// A semantic version: `major.minor.patch`, an optional pre-release label,
/// and an optional build label. An empty vector stands for an absent label.
#[derive(Debug, Clone, PartialEq, Eq)]
pub struct SemanticVersion {
    pub major: u64,
    pub minor: u64,
    pub patch: u64,
    pub pre: Vec<Identifier>,
    pub build: Vec<Identifier>,
}

impl View for SemanticVersion {
    type V = VersionModel;

    open spec fn view(&self) -> VersionModel {
        VersionModel {
            major: self.major as nat,
            minor: self.minor as nat,
            patch: self.patch as nat,
            pre: idents_model(self.pre@),
            build: idents_model(self.build@),
        }
    }
}

impl SemanticVersion {
    /// The version's identifiers are all well formed.
    pub open spec fn wf(self) -> bool {
        self@.wf()
    }
}

/// The strings that are version strings: those some well-formed version
/// renders to.
pub open spec fn version_valid(s: Seq<char>) -> bool {
    exists|m: VersionModel| m.wf() && m.render() == s
}

/// The version a valid version string denotes. Rendering is injective on
/// well-formed versions (`lemma_render_injective`), so there is exactly one.
pub open spec fn parsed_version(s: Seq<char>) -> VersionModel {
    choose|m: VersionModel| m.wf() && m.render() == s
}

/// The core renders as digits and dots only.
pub proof fn lemma_core_str_shape(m: VersionModel)
    ensures
        m.core_str().len() >= 5,
        forall|j: int|
            0 <= j < m.core_str().len() ==> is_digit(#[trigger] m.core_str()[j]) || m.core_str()[j]
                == '.',
{
    lemma_digits_of_canonical(m.major);
    lemma_digits_of_canonical(m.minor);
    lemma_digits_of_canonical(m.patch);
    let a = digits_of(m.major);
    let b = digits_of(m.minor);
    let c = digits_of(m.patch);
    let s = m.core_str();
    assert forall|j: int| 0 <= j < s.len() implies is_digit(#[trigger] s[j]) || s[j] == '.' by {
        if j < a.len() {
            assert(s[j] == a[j]);
        } else if j == a.len() {
            assert(s[j] == '.');
        } else if j < a.len() + 1 + b.len() {
            assert(s[j] == b[j - a.len() - 1]);
        } else if j == a.len() + 1 + b.len() {
            assert(s[j] == '.');
        } else {
            assert(s[j] == c[j - a.len() - b.len() - 2]);
        }
    }
}

/// Everything before the build part is free of `'+'`, and the core is also
/// free of `'-'`.
pub proof fn lemma_main_str_shape(m: VersionModel)
    requires
        m.wf(),
    ensures
        forall|j: int| 0 <= j < m.main_str().len() ==> #[trigger] m.main_str()[j] != '+',
        forall|j: int| 0 <= j < m.core_str().len() ==> #[trigger] m.core_str()[j] != '-',
        m.pre.len() > 0 ==> m.main_str() == m.core_str() + seq!['-'] + label_str(m.pre),
        m.pre.len() == 0 ==> m.main_str() == m.core_str(),
{
    lemma_core_str_shape(m);
    let s = m.main_str();
    let core = m.core_str();
    if m.pre.len() == 0 {
        assert(s =~= core);
        assert forall|j: int| 0 <= j < s.len() implies #[trigger] s[j] != '+' by {
            assert(is_digit(s[j]) || s[j] == '.');
        }
    } else {
        lemma_label_str_shape(m.pre);
        let lab = label_str(m.pre);
        assert(s =~= core + seq!['-'] + lab);
        assert forall|j: int| 0 <= j < s.len() implies #[trigger] s[j] != '+' by {
            if j < core.len() {
                assert(s[j] == core[j]);
                assert(is_digit(s[j]) || s[j] == '.');
            } else if j == core.len() {
                assert(s[j] == '-');
            } else {
                assert(s[j] == lab[j - core.len() - 1]);
                assert(is_ident_char(s[j]) || s[j] == '.');
            }
        }
    }
    assert forall|j: int| 0 <= j < core.len() implies #[trigger] core[j] != '-' by {
        assert(is_digit(core[j]) || core[j] == '.');
    }
}

/// Parses the characters of `s` between `from` and `to` as one canonical
/// decimal number: it succeeds exactly on the renderings of representable
/// numbers.
pub fn parse_num(s: &str, from: usize, to: usize) -> (r: Result<u64, Error>)
    requires
        from <= to <= s@.len(),
    ensures
        match r {
            Ok(x) => s@.subrange(from as int, to as int) == digits_of(x as nat),
            Err(e) => e == Error::InvalidVersion && forall|x: nat|
                x <= u64::MAX ==> digits_of(x) != s@.subrange(from as int, to as int),
        },
{
    let ghost sub = s@.subrange(from as int, to as int);
    if to == from {
        proof {
            assert forall|x: nat| x <= u64::MAX implies digits_of(x) != sub by {
                lemma_digits_of_canonical(x);
            }
        }
        return Err(Error::InvalidVersion);
    }
    let mut i: usize = from;
    while i < to
        invariant
            from <= i <= to <= s@.len(),
            sub == s@.subrange(from as int, to as int),
            forall|j: int| from <= j < i ==> is_digit(#[trigger] s@[j]),
        decreases to - i,
    {
        let c = s.get_char(i);
        if !('0' <= c && c <= '9') {
            proof {
                assert(!is_digit(s@[i as int]));
                assert(sub[i as int - from] == s@[i as int]);
                assert forall|x: nat| x <= u64::MAX implies digits_of(x) != sub by {
                    lemma_digits_of_canonical(x);
                    if digits_of(x) == sub {
                        assert(is_digit(sub[i as int - from]));
                    }
                }
            }
            return Err(Error::InvalidVersion);
        }
        i = i + 1;
    }
    let c0 = s.get_char(from);
    if c0 == '0' && to > from + 1 {
        proof {
            assert(sub[0] == s@[from as int]);
            assert(sub[0] == '0' && sub.len() > 1);
            assert forall|x: nat| x <= u64::MAX implies digits_of(x) != sub by {
                lemma_digits_of_canonical(x);
                if digits_of(x) == sub {
                    if x >= 1 {
                        assert(digits_of(x)[0] != '0');
                    } else {
                        assert(digits_of(0nat) =~= seq![char_of_digit(0)]);
                    }
                }
            }
        }
        return Err(Error::InvalidVersion);
    }
    assert(is_canonical_digits(sub));
    match digits_value(s, from, to) {
        Some(x) => {
            proof {
                lemma_digits_of_value(sub);
            }
            Ok(x)
        },
        None => {
            proof {
                assert forall|x: nat| x <= u64::MAX implies digits_of(x) != sub by {
                    if digits_of(x) == sub {
                        lemma_seg_value_of_digits(x);
                    }
                }
            }
            Err(Error::InvalidVersion)
        },
    }
}

/// The end of the range a separator search covers: the separator's position
/// when one was found, otherwise the end of the searched range.
pub open spec fn opt_end(o: Option<int>, n: int) -> int {
    match o {
        Some(p) => p,
        None => n,
    }
}

/// `r` reports the first occurrence of `c` in `s` between `lo` and `hi`:
/// the position of one when it is found, and `None` when the range is free
/// of `c`.
pub open spec fn first_at(s: Seq<char>, c: char, lo: int, hi: int, r: Option<int>) -> bool {
    match r {
        Some(i) => lo <= i < hi && s[i] == c && (forall|j: int| lo <= j < i ==> s[j] != c),
        None => forall|j: int| lo <= j < hi ==> s[j] != c,
    }
}

/// No representable number renders to the characters of `s` between `lo`
/// and `hi`.
pub open spec fn num_unmatched(s: Seq<char>, lo: int, hi: int) -> bool {
    forall|x: nat| x <= u64::MAX ==> digits_of(x) != s.subrange(lo, hi)
}

/// No well-formed, nonempty label renders to the characters of `s` between
/// `lo` and `hi`.
pub open spec fn label_unmatched(s: Seq<char>, lo: int, hi: int) -> bool {
    forall|l: Seq<IdentModel>| label_wf(l) && l.len() > 0 ==> label_str(l) != s.subrange(lo, hi)
}

/// `d1` and `d2` report the core's first dot and the first dot after it.
pub open spec fn dots_found(s: Seq<char>, core_end: int, d1: Option<int>, d2: Option<int>) -> bool {
    &&& first_at(s, '.', 0, core_end, d1)
    &&& match d1 {
        Some(i1) => first_at(s, '.', i1 + 1, core_end, d2),
        None => true,
    }
}

/// One of the scan's stages failed: a dot of the core is missing, one of
/// the three numeric fields is not the rendering of a representable number,
/// or a separator was found but no label renders to what follows it.
pub open spec fn scan_failed(
    s: Seq<char>,
    n: int,
    plus: Option<int>,
    dash: Option<int>,
    core_end: int,
    d1: Option<int>,
    d2: Option<int>,
) -> bool {
    ||| d1 is None
    ||| d2 is None
    ||| (d1 matches Some(i1) && d2 matches Some(i2) && (num_unmatched(s, 0, i1)
        || num_unmatched(s, i1 + 1, i2) || num_unmatched(s, i2 + 1, core_end)))
    ||| (dash matches Some(h) && label_unmatched(s, h + 1, opt_end(plus, n)))
    ||| (plus matches Some(p) && label_unmatched(s, p + 1, n))
}

/// What the positions of the first `'+'` of a rendered version, and of the
/// first `'-'` before it, reveal: the `'+'` is found exactly when the
/// version has a build label and sits right after the main part, and the
/// `'-'` is found exactly when it has a pre-release label and sits right
/// after the core.
pub proof fn lemma_render_split(
    m: VersionModel,
    s: Seq<char>,
    n: int,
    plus: Option<int>,
    dash: Option<int>,
)
    requires
        m.wf(),
        m.render() == s,
        n == s.len(),
        first_at(s, '+', 0, n, plus),
        first_at(s, '-', 0, opt_end(plus, n), dash),
    ensures
        match plus {
            Some(p) => m.build.len() > 0 && p == m.main_str().len() && m.main_str() == s.subrange(
                0,
                p,
            ) && label_str(m.build) == s.subrange(p + 1, n),
            None => m.build.len() == 0 && m.main_str() == s,
        },
        match dash {
            Some(h) => m.pre.len() > 0 && h == m.core_str().len() && m.core_str() == s.subrange(
                0,
                h,
            ) && label_str(m.pre) == s.subrange(h + 1, opt_end(plus, n)),
            None => m.pre.len() == 0 && m.core_str() == s.subrange(0, opt_end(plus, n)),
        },
{
    lemma_main_str_shape(m);
    let main = m.main_str();
    let core = m.core_str();
    // The '+' split.
    if m.build.len() > 0 {
        lemma_label_str_shape(m.build);
        let lab = label_str(m.build);
        assert(s =~= main + seq!['+'] + lab);
        lemma_split_at_char(s, main, lab, '+');
        match plus {
            Some(p) => {
                assert(p == main.len()) by {
                    if p < main.len() {
                        assert(s[p] != '+');
                    } else if p > main.len() {
                        assert(s[main.len() as int] == '+');
                    }
                }
            },
            None => {
                assert(s[main.len() as int] == '+');
            },
        }
    } else {
        assert(s =~= main);
        match plus {
            Some(p) => {
                assert(s[p] != '+');
            },
            None => {},
        }
        assert(main =~= s.subrange(0, n));
    }
    let me = opt_end(plus, n);
    assert(main == s.subrange(0, me));
    // The '-' split, inside the main part.
    assert(forall|j: int| 0 <= j < me ==> main[j] == #[trigger] s[j]);
    if m.pre.len() > 0 {
        lemma_label_str_shape(m.pre);
        let lab = label_str(m.pre);
        assert(main =~= core + seq!['-'] + lab);
        lemma_split_at_char(main, core, lab, '-');
        match dash {
            Some(h) => {
                assert(h == core.len()) by {
                    if h < core.len() {
                        assert(s[h] == main[h]);
                        assert(main[h] != '-');
                    } else if h > core.len() {
                        assert(s[core.len() as int] == main[core.len() as int]);
                        assert(main[core.len() as int] == '-');
                    }
                }
                assert(core =~= s.subrange(0, h));
                assert(lab =~= s.subrange(h + 1, me));
            },
            None => {
                assert(s[core.len() as int] == main[core.len() as int]);
                assert(main[core.len() as int] == '-');
            },
        }
    } else {
        assert(main =~= core);
        match dash {
            Some(h) => {
                assert(s[h] == main[h]);
                assert(main[h] != '-');
            },
            None => {
                assert(core =~= s.subrange(0, me));
            },
        }
    }
}

/// What the first `'.'` of a rendered core reveals: it sits right after the
/// major field's digits, and the minor and patch fields follow.
pub proof fn lemma_core_first_dot(m: VersionModel, s: Seq<char>, core_end: int, d1: Option<int>)
    requires
        m.wf(),
        0 <= core_end <= s.len(),
        m.core_str() == s.subrange(0, core_end),
        first_at(s, '.', 0, core_end, d1),
    ensures
        d1 matches Some(i) && i == digits_of(m.major).len() && digits_of(m.major) == s.subrange(
            0,
            i,
        ) && digits_of(m.minor) + seq!['.'] + digits_of(m.patch) == s.subrange(i + 1, core_end),
{
    let core = m.core_str();
    let a = digits_of(m.major);
    let rest = digits_of(m.minor) + seq!['.'] + digits_of(m.patch);
    lemma_digits_of_canonical(m.major);
    assert(core =~= a + seq!['.'] + rest);
    lemma_split_at_char(core, a, rest, '.');
    assert(forall|j: int| 0 <= j < core_end ==> core[j] == #[trigger] s[j]);
    assert forall|j: int| 0 <= j < a.len() implies s[j] != '.' by {
        assert(core[j] != '.');
    }
    match d1 {
        Some(i) => {
            assert(i == a.len()) by {
                if i < a.len() {
                    assert(s[i] != '.');
                } else if i > a.len() {
                    assert(s[a.len() as int] == core[a.len() as int]);
                }
            }
            assert(a =~= s.subrange(0, i));
            assert(rest =~= s.subrange(i + 1, core_end));
        },
        None => {
            assert(s[a.len() as int] == core[a.len() as int]);
        },
    }
}

/// What the next `'.'` reveals: it sits right after the minor field's
/// digits, and the patch field's digits run to the end of the core.
pub proof fn lemma_core_second_dot(
    m: VersionModel,
    s: Seq<char>,
    from: int,
    core_end: int,
    d2: Option<int>,
)
    requires
        m.wf(),
        0 <= from <= core_end <= s.len(),
        digits_of(m.minor) + seq!['.'] + digits_of(m.patch) == s.subrange(from, core_end),
        first_at(s, '.', from, core_end, d2),
    ensures
        d2 matches Some(i) && i == from + digits_of(m.minor).len() && digits_of(m.minor)
            == s.subrange(from, i) && digits_of(m.patch) == s.subrange(i + 1, core_end),
{
    let rest = s.subrange(from, core_end);
    let b = digits_of(m.minor);
    let c = digits_of(m.patch);
    lemma_digits_of_canonical(m.minor);
    lemma_digits_of_canonical(m.patch);
    lemma_split_at_char(rest, b, c, '.');
    assert(forall|j: int| 0 <= j < rest.len() ==> rest[j] == #[trigger] s[from + j]);
    match d2 {
        Some(i) => {
            assert(i == from + b.len()) by {
                if i < from + b.len() {
                    assert(s[i] == rest[i - from]);
                    assert(rest[i - from] != '.');
                } else if i > from + b.len() {
                    assert(s[from + b.len()] == rest[b.len() as int]);
                }
            }
            assert(b =~= s.subrange(from, i));
            assert(c =~= s.subrange(i + 1, core_end));
        },
        None => {
            assert(s[from + b.len()] == rest[b.len() as int]);
        },
    }
}

/// The full anatomy of a rendered version, given where the separator
/// searches ended: the labels sit after their separators, and the three
/// numeric fields sit between the core's dots, which are found.
pub proof fn lemma_render_anatomy(
    m: VersionModel,
    s: Seq<char>,
    n: int,
    plus: Option<int>,
    dash: Option<int>,
    core_end: int,
    d1: Option<int>,
    d2: Option<int>,
)
    requires
        m.wf(),
        m.render() == s,
        n == s.len(),
        first_at(s, '+', 0, n, plus),
        first_at(s, '-', 0, opt_end(plus, n), dash),
        core_end == opt_end(dash, opt_end(plus, n)),
        dots_found(s, core_end, d1, d2),
    ensures
        d1 is Some,
        d2 is Some,
        match (d1, d2) {
            (Some(i1), Some(i2)) => {
                &&& digits_of(m.major) == s.subrange(0, i1)
                &&& digits_of(m.minor) == s.subrange(i1 + 1, i2)
                &&& digits_of(m.patch) == s.subrange(i2 + 1, core_end)
            },
            _ => true,
        },
        match plus {
            Some(p) => m.build.len() > 0 && label_str(m.build) == s.subrange(p + 1, n),
            None => m.build.len() == 0,
        },
        match dash {
            Some(h) => m.pre.len() > 0 && label_str(m.pre) == s.subrange(
                h + 1,
                opt_end(plus, n),
            ),
            None => m.pre.len() == 0,
        },
{
    lemma_render_split(m, s, n, plus, dash);
    lemma_core_first_dot(m, s, core_end, d1);
    let i1 = d1->Some_0;
    lemma_core_second_dot(m, s, i1 + 1, core_end, d2);
}

/// When any stage of the scan fails — a missing dot, a field that is not a
/// canonical representable number, or a label that no well-formed label
/// renders to — no well-formed version renders to the string.
pub proof fn lemma_version_unparsable(
    s: Seq<char>,
    n: int,
    plus: Option<int>,
    dash: Option<int>,
    core_end: int,
    d1: Option<int>,
    d2: Option<int>,
)
    requires
        n == s.len(),
        first_at(s, '+', 0, n, plus),
        first_at(s, '-', 0, opt_end(plus, n), dash),
        core_end == opt_end(dash, opt_end(plus, n)),
        dots_found(s, core_end, d1, d2),
        scan_failed(s, n, plus, dash, core_end, d1, d2),
    ensures
        forall|m: VersionModel| m.wf() ==> m.render() != s,
{
    assert forall|m: VersionModel| m.wf() implies m.render() != s by {
        if m.render() == s {
            lemma_render_anatomy(m, s, n, plus, dash, core_end, d1, d2);
        }
    }
}

/// A version whose pieces sit at the given places in a string renders to
/// that whole string.
pub proof fn lemma_render_assemble(
    m: VersionModel,
    s: Seq<char>,
    n: int,
    plus: Option<int>,
    dash: Option<int>,
    core_end: int,
    i1: int,
    i2: int,
)
    requires
        n == s.len(),
        core_end == opt_end(dash, opt_end(plus, n)),
        (plus matches Some(p) ==> 0 <= p < n && s[p] == '+'),
        (dash matches Some(h) ==> 0 <= h < opt_end(plus, n) && s[h] == '-'),
        0 <= i1 < i2 < core_end <= n,
        s[i1] == '.',
        s[i2] == '.',
        digits_of(m.major) == s.subrange(0, i1),
        digits_of(m.minor) == s.subrange(i1 + 1, i2),
        digits_of(m.patch) == s.subrange(i2 + 1, core_end),
        match dash {
            Some(h) => m.pre.len() > 0 && label_str(m.pre) == s.subrange(h + 1, opt_end(plus, n)),
            None => m.pre.len() == 0,
        },
        match plus {
            Some(p) => m.build.len() > 0 && label_str(m.build) == s.subrange(p + 1, n),
            None => m.build.len() == 0,
        },
    ensures
        m.render() == s,
{
    let main_end = opt_end(plus, n);
    assert(s.subrange(0, core_end) =~= digits_of(m.major) + seq!['.'] + digits_of(m.minor) + seq![
        '.',
    ] + digits_of(m.patch));
    assert(m.core_str() == s.subrange(0, core_end));
    match dash {
        Some(h) => {
            assert(s.subrange(0, main_end) =~= s.subrange(0, h) + seq!['-'] + s.subrange(
                h + 1,
                main_end,
            ));
            assert(m.main_str() == s.subrange(0, main_end));
        },
        None => {
            assert(m.main_str() =~= s.subrange(0, main_end));
        },
    }
    match plus {
        Some(p) => {
            assert(s =~= s.subrange(0, main_end) + seq!['+'] + s.subrange(p + 1, n));
            assert(m.render() == s);
        },
        None => {
            assert(s.subrange(0, main_end) =~= s);
            assert(m.render() =~= s);
        },
    }
}

/// Renders a version in canonical form.
pub fn render_version(v: &SemanticVersion) -> (r: String)
    ensures
        r@ == v@.render(),
{
    let mut r = u64_to_string(v.major);
    proof {
        reveal_strlit(".");
        reveal_strlit("-");
        reveal_strlit("+");
        assert((".")@ =~= seq!['.']);
        assert(("-")@ =~= seq!['-']);
        assert(("+")@ =~= seq!['+']);
    }
    r.append(".");
    let t = u64_to_string(v.minor);
    r.append(t.as_str());
    r.append(".");
    let t = u64_to_string(v.patch);
    r.append(t.as_str());
    assert(r@ =~= v@.core_str());
    if v.pre.len() > 0 {
        r.append("-");
        let lab = render_label(&v.pre);
        r.append(lab.as_str());
    }
    assert(r@ =~= v@.main_str());
    if v.build.len() > 0 {
        r.append("+");
        let lab = render_label(&v.build);
        r.append(lab.as_str());
    }
    assert(r@ =~= v@.render());
    r
}

/// Parses a version string: it succeeds exactly on the canonical renderings
/// of well-formed versions, and returns the version that renders to the
/// input.
pub fn parse_version(s: &str) -> (r: Result<SemanticVersion, Error>)
    ensures
        match r {
            Ok(v) => v@.wf() && v@.render() == s@,
            Err(e) => e == Error::InvalidVersion && forall|m: VersionModel|
                m.wf() ==> m.render() != s@,
        },
{
    let n = s.unicode_len();
    let plus = find_char(s, '+', 0, n);
    let main_end = match plus {
        Some(p) => p,
        None => n,
    };
    let ghost plus_g: Option<int> = match plus {
        Some(p) => Some(p as int),
        None => None,
    };
    let dash = find_char(s, '-', 0, main_end);
    let core_end = match dash {
        Some(h) => h,
        None => main_end,
    };
    let ghost dash_g: Option<int> = match dash {
        Some(h) => Some(h as int),
        None => None,
    };
    proof {
        assert(opt_end(plus_g, n as int) == main_end as int);
        assert(opt_end(dash_g, main_end as int) == core_end as int);
    }
    let d1 = find_char(s, '.', 0, core_end);
    let d1i = match d1 {
        Some(i) => i,
        None => {
            proof {
                lemma_version_unparsable(
                    s@, n as int, plus_g, dash_g, core_end as int, None, None,
                );
            }
            return Err(Error::InvalidVersion);
        },
    };
    let d2 = find_char(s, '.', d1i + 1, core_end);
    let d2i = match d2 {
        Some(i) => i,
        None => {
            proof {
                lemma_version_unparsable(
                    s@, n as int, plus_g, dash_g, core_end as int, Some(d1i as int), None,
                );
            }
            return Err(Error::InvalidVersion);
        },
    };
    let ghost d1_g: Option<int> = Some(d1i as int);
    let ghost d2_g: Option<int> = Some(d2i as int);
    let major = match parse_num(s, 0, d1i) {
        Ok(x) => x,
        Err(e) => {
            proof {
                lemma_version_unparsable(
                    s@, n as int, plus_g, dash_g, core_end as int, d1_g, d2_g,
                );
            }
            return Err(e);
        },
    };
    let minor = match parse_num(s, d1i + 1, d2i) {
        Ok(x) => x,
        Err(e) => {
            proof {
                lemma_version_unparsable(
                    s@, n as int, plus_g, dash_g, core_end as int, d1_g, d2_g,
                );
            }
            return Err(e);
        },
    };
    let patch = match parse_num(s, d2i + 1, core_end) {
        Ok(x) => x,
        Err(e) => {
            proof {
                lemma_version_unparsable(
                    s@, n as int, plus_g, dash_g, core_end as int, d1_g, d2_g,
                );
            }
            return Err(e);
        },
    };
    let pre: Vec<Identifier> = match dash {
        Some(h) => match parse_label_range(s, h + 1, main_end) {
            Ok(ids) => ids,
            Err(_) => {
                proof {
                    lemma_version_unparsable(
                        s@, n as int, plus_g, dash_g, core_end as int, d1_g, d2_g,
                    );
                }
                return Err(Error::InvalidVersion);
            },
        },
        None => Vec::new(),
    };
    let build: Vec<Identifier> = match plus {
        Some(p) => match parse_label_range(s, p + 1, n) {
            Ok(ids) => ids,
            Err(_) => {
                proof {
                    lemma_version_unparsable(
                        s@, n as int, plus_g, dash_g, core_end as int, d1_g, d2_g,
                    );
                }
                return Err(Error::InvalidVersion);
            },
        },
        None => Vec::new(),
    };
    let v = SemanticVersion { major, minor, patch, pre, build };
    proof {
        let mv = v@;
        assert(idents_model(Seq::<Identifier>::empty()) =~= Seq::<IdentModel>::empty());
        assert(mv.wf());
        lemma_render_assemble(
            mv, s@, n as int, plus_g, dash_g, core_end as int, d1i as int, d2i as int,
        );
    }
    Ok(v)
}

/// Law: rendering is injective on well-formed versions. Together with the
/// contracts of `render_version` and `parse_version` — parsing succeeds on
/// every rendered version and returns a version that renders to its input —
/// this says that rendering a version and parsing the result gives back an
/// identical version; `lemma_version_round_trip` states that form directly.
pub proof fn lemma_render_injective(m1: VersionModel, m2: VersionModel)
    requires
        m1.wf(),
        m2.wf(),
        m1.render() == m2.render(),
    ensures
        m1 == m2,
{
    let s = m1.render();
    lemma_main_str_shape(m1);
    lemma_main_str_shape(m2);
    // Split off the build labels at the first '+'.
    if m1.build.len() > 0 && m2.build.len() > 0 {
        assert(s =~= m1.main_str() + seq!['+'] + label_str(m1.build));
        assert(s =~= m2.main_str() + seq!['+'] + label_str(m2.build));
        lemma_split_at_char_unique(
            s,
            m1.main_str(),
            label_str(m1.build),
            m2.main_str(),
            label_str(m2.build),
            '+',
        );
        lemma_label_str_injective(m1.build, m2.build);
    } else if m1.build.len() > 0 {
        assert(s =~= m1.main_str() + seq!['+'] + label_str(m1.build));
        lemma_split_at_char(s, m1.main_str(), label_str(m1.build), '+');
        assert(s =~= m2.main_str());
        assert(false);
    } else if m2.build.len() > 0 {
        assert(s =~= m2.main_str() + seq!['+'] + label_str(m2.build));
        lemma_split_at_char(s, m2.main_str(), label_str(m2.build), '+');
        assert(s =~= m1.main_str());
        assert(false);
    } else {
        assert(s =~= m1.main_str());
        assert(s =~= m2.main_str());
        assert(m1.build =~= m2.build);
    }
    assert(m1.main_str() == m2.main_str());
    assert(m1.build == m2.build);
    // Split off the pre-release labels at the first '-'.
    let main = m1.main_str();
    if m1.pre.len() > 0 && m2.pre.len() > 0 {
        assert(main =~= m1.core_str() + seq!['-'] + label_str(m1.pre));
        assert(main =~= m2.core_str() + seq!['-'] + label_str(m2.pre));
        lemma_split_at_char_unique(
            main,
            m1.core_str(),
            label_str(m1.pre),
            m2.core_str(),
            label_str(m2.pre),
            '-',
        );
        lemma_label_str_injective(m1.pre, m2.pre);
    } else if m1.pre.len() > 0 {
        assert(main =~= m1.core_str() + seq!['-'] + label_str(m1.pre));
        lemma_split_at_char(main, m1.core_str(), label_str(m1.pre), '-');
        assert(main =~= m2.core_str());
        assert(false);
    } else if m2.pre.len() > 0 {
        assert(main =~= m2.core_str() + seq!['-'] + label_str(m2.pre));
        lemma_split_at_char(main, m2.core_str(), label_str(m2.pre), '-');
        assert(main =~= m1.core_str());
        assert(false);
    } else {
        assert(main =~= m1.core_str());
        assert(main =~= m2.core_str());
        assert(m1.pre =~= m2.pre);
    }
    assert(m1.core_str() == m2.core_str());
    assert(m1.pre == m2.pre);
    // Split the cores at their dots.
    lemma_digits_of_canonical(m1.major);
    lemma_digits_of_canonical(m2.major);
    lemma_digits_of_canonical(m1.minor);
    lemma_digits_of_canonical(m2.minor);
    let core = m1.core_str();
    let rest1 = digits_of(m1.minor) + seq!['.'] + digits_of(m1.patch);
    let rest2 = digits_of(m2.minor) + seq!['.'] + digits_of(m2.patch);
    assert(core =~= digits_of(m1.major) + seq!['.'] + rest1);
    assert(core =~= digits_of(m2.major) + seq!['.'] + rest2);
    assert forall|j: int| 0 <= j < digits_of(m1.major).len() implies digits_of(m1.major)[j]
        != '.' by {
        assert(is_digit(digits_of(m1.major)[j]));
    }
    assert forall|j: int| 0 <= j < digits_of(m2.major).len() implies digits_of(m2.major)[j]
        != '.' by {
        assert(is_digit(digits_of(m2.major)[j]));
    }
    lemma_split_at_char_unique(core, digits_of(m1.major), rest1, digits_of(m2.major), rest2, '.');
    assert forall|j: int| 0 <= j < digits_of(m1.minor).len() implies digits_of(m1.minor)[j]
        != '.' by {
        assert(is_digit(digits_of(m1.minor)[j]));
    }
    assert forall|j: int| 0 <= j < digits_of(m2.minor).len() implies digits_of(m2.minor)[j]
        != '.' by {
        assert(is_digit(digits_of(m2.minor)[j]));
    }
    lemma_split_at_char_unique(
        rest1,
        digits_of(m1.minor),
        digits_of(m1.patch),
        digits_of(m2.minor),
        digits_of(m2.patch),
        '.',
    );
    lemma_seg_value_of_digits(m1.major);
    lemma_seg_value_of_digits(m2.major);
    lemma_seg_value_of_digits(m1.minor);
    lemma_seg_value_of_digits(m2.minor);
    lemma_seg_value_of_digits(m1.patch);
    lemma_seg_value_of_digits(m2.patch);
    assert(m1 =~= m2);
}

/// Law: rendering a well-formed version gives a valid version string, and
/// parsing it back gives an identical version.
pub proof fn lemma_version_round_trip(m: VersionModel)
    requires
        m.wf(),
    ensures
        version_valid(m.render()),
        parsed_version(m.render()) == m,
{
    assert(version_valid(m.render()));
    lemma_render_injective(parsed_version(m.render()), m);
}

} // verus!
