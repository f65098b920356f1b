//! Pre-release and build label identifiers.
//!
//! A label is a nonempty sequence of identifiers joined by `'.'`. Each
//! identifier is a nonempty run of ASCII letters, digits and hyphens. A run
//! of digits in canonical decimal form whose value fits in a `u64` is a
//! numeric identifier; every other run — one with a letter or hyphen, one
//! with a leading zero, or one too large for a `u64` — is alphanumeric and
//! kept as the characters themselves. Pre-release and build labels share
//! this grammar; only the separator that joins them to the version core
//! (`-` or `+`) differs.

use vstd::prelude::*;

use crate::errors::Error;
use crate::num::{
    digits_of, digits_value, is_canonical_digits, is_digit, is_digit_seq,
    lemma_digits_of_canonical, lemma_digits_of_value, lemma_seg_value_of_digits, seg_value,
    u64_to_string,
};

verus! {

/// The characters an identifier may contain: ASCII letters, digits and `-`.
pub open spec fn is_ident_char(c: char) -> bool {
    ||| is_digit(c)
    ||| 'a' <= c && c <= 'z'
    ||| 'A' <= c && c <= 'Z'
    ||| c == '-'
}

/// The segments that read as numeric identifiers: canonical decimal digits
/// whose value is representable.
pub open spec fn is_numeric_segment(s: Seq<char>) -> bool {
    is_canonical_digits(s) && seg_value(s) <= u64::MAX
}

/// The mathematical value of one identifier.
pub enum IdentModel {
    /// A numeric identifier, compared and rendered as a number.
    Num(nat),
    /// An alphanumeric identifier, kept as its characters.
    Alpha(Seq<char>),
}

/// A well-formed identifier: a numeric one is representable, and an
/// alphanumeric one holds identifier characters and is not itself a numeric
/// segment (so classifying its rendering gives it back unchanged).
pub open spec fn ident_wf(i: IdentModel) -> bool {
    match i {
        IdentModel::Num(n) => n <= u64::MAX,
        IdentModel::Alpha(s) => {
            &&& s.len() > 0
            &&& forall|j: int| 0 <= j < s.len() ==> is_ident_char(#[trigger] s[j])
            &&& !is_numeric_segment(s)
        },
    }
}

/// How one identifier appears in a version string.
pub open spec fn ident_str(i: IdentModel) -> Seq<char> {
    match i {
        IdentModel::Num(n) => digits_of(n),
        IdentModel::Alpha(s) => s,
    }
}

/// Every identifier of the label is well formed.
pub open spec fn label_wf(l: Seq<IdentModel>) -> bool {
    forall|j: int| 0 <= j < l.len() ==> ident_wf(#[trigger] l[j])
}

/// How a label appears in a version string: its identifiers joined by `'.'`.
pub open spec fn label_str(l: Seq<IdentModel>) -> Seq<char>
    decreases l.len(),
{
    if l.len() == 0 {
        Seq::empty()
    } else if l.len() == 1 {
        ident_str(l[0])
    } else {
        ident_str(l[0]) + seq!['.'] + label_str(l.drop_first())
    }
}

/// The strings that are labels: those some well-formed, nonempty label
/// renders to.
pub open spec fn label_valid(s: Seq<char>) -> bool {
    exists|l: Seq<IdentModel>| label_wf(l) && l.len() > 0 && label_str(l) == s
}

/// The label a valid label string denotes. Rendering is injective on
/// well-formed labels, so there is exactly one.
pub open spec fn parsed_label(s: Seq<char>) -> Seq<IdentModel> {
    choose|l: Seq<IdentModel>| label_wf(l) && l.len() > 0 && label_str(l) == s
}

/// One identifier of a version string, either numeric or alphanumeric.
#[derive(Debug, Clone, PartialEq, Eq)]
pub enum Identifier {
    /// An identifier that is solely a canonical, representable number.
    Numeric(u64),
    /// An identifier with letters, hyphens, a leading zero, or a number too
    /// large to represent.
    AlphaNumeric(String),
}

impl View for Identifier {
    type V = IdentModel;

    open spec fn view(&self) -> IdentModel {
        match self {
            Identifier::Numeric(n) => IdentModel::Num(*n as nat),
            Identifier::AlphaNumeric(s) => IdentModel::Alpha(s@),
        }
    }
}

/// The identifier values a vector of identifiers stands for.
pub open spec fn idents_model(v: Seq<Identifier>) -> Seq<IdentModel> {
    v.map_values(|x: Identifier| x@)
}

/// A well-formed identifier renders as a nonempty run of identifier
/// characters.
pub proof fn lemma_ident_str_shape(i: IdentModel)
    requires
        ident_wf(i),
    ensures
        ident_str(i).len() > 0,
        forall|j: int| 0 <= j < ident_str(i).len() ==> is_ident_char(#[trigger] ident_str(i)[j]),
{
    match i {
        IdentModel::Num(n) => {
            lemma_digits_of_canonical(n);
        },
        IdentModel::Alpha(_) => {},
    }
}

/// A well-formed, nonempty label renders as a nonempty string of identifier
/// characters and dots that neither starts nor ends with a dot.
pub proof fn lemma_label_str_shape(l: Seq<IdentModel>)
    requires
        label_wf(l),
        l.len() > 0,
    ensures
        label_str(l).len() > 0,
        forall|j: int|
            0 <= j < label_str(l).len() ==> is_ident_char(#[trigger] label_str(l)[j])
                || label_str(l)[j] == '.',
        is_ident_char(label_str(l)[0]),
    decreases l.len(),
{
    lemma_ident_str_shape(l[0]);
    if l.len() > 1 {
        assert(label_wf(l.drop_first()));
        lemma_label_str_shape(l.drop_first());
        let head = ident_str(l[0]);
        let tail = label_str(l.drop_first());
        let s = label_str(l);
        assert(s == head + seq!['.'] + tail);
        assert forall|j: int| 0 <= j < s.len() implies is_ident_char(#[trigger] s[j]) || s[j]
            == '.' by {
            if j < head.len() {
                assert(s[j] == head[j]);
            } else if j == head.len() {
                assert(s[j] == '.');
            } else {
                assert(s[j] == tail[j - head.len() - 1]);
            }
        }
        assert(s[0] == head[0]);
    }
}

/// Appending one identifier to a label appends a dot (when the label was
/// nonempty) and the identifier's rendering.
pub proof fn lemma_label_str_push(l: Seq<IdentModel>, x: IdentModel)
    ensures
        l.len() == 0 ==> label_str(l.push(x)) == ident_str(x),
        l.len() > 0 ==> label_str(l.push(x)) == label_str(l) + seq!['.'] + ident_str(x),
    decreases l.len(),
{
    let p = l.push(x);
    if l.len() == 0 {
        assert(p[0] == x);
    } else if l.len() == 1 {
        assert(p[0] == l[0]);
        assert(p.drop_first() =~= seq![x]);
        assert(label_str(p.drop_first()) == ident_str(x));
    } else {
        lemma_label_str_push(l.drop_first(), x);
        assert(p[0] == l[0]);
        assert(p.drop_first() =~= l.drop_first().push(x));
        assert(label_str(l) + seq!['.'] + ident_str(x) == ident_str(l[0]) + seq!['.'] + (
        label_str(l.drop_first()) + seq!['.'] + ident_str(x)));
    }
}

/// If a string is a piece without `c`, then `c`, then a remainder, the
/// position of the first `c` and the two pieces are determined.
pub proof fn lemma_split_at_char(s: Seq<char>, a: Seq<char>, b: Seq<char>, c: char)
    requires
        s == a + seq![c] + b,
        forall|j: int| 0 <= j < a.len() ==> a[j] != c,
    ensures
        s.len() == a.len() + 1 + b.len(),
        s[a.len() as int] == c,
        forall|j: int| 0 <= j < a.len() ==> s[j] != c,
        a == s.subrange(0, a.len() as int),
        b == s.subrange(a.len() as int + 1, s.len() as int),
{
    assert forall|j: int| 0 <= j < a.len() implies s[j] != c by {
        assert(s[j] == a[j]);
    }
    assert(a =~= s.subrange(0, a.len() as int));
    assert(b =~= s.subrange(a.len() as int + 1, s.len() as int));
}

/// Two splits of the same string at the first occurrence of `c` agree.
pub proof fn lemma_split_at_char_unique(
    s: Seq<char>,
    a1: Seq<char>,
    b1: Seq<char>,
    a2: Seq<char>,
    b2: Seq<char>,
    c: char,
)
    requires
        s == a1 + seq![c] + b1,
        s == a2 + seq![c] + b2,
        forall|j: int| 0 <= j < a1.len() ==> a1[j] != c,
        forall|j: int| 0 <= j < a2.len() ==> a2[j] != c,
    ensures
        a1 == a2,
        b1 == b2,
{
    lemma_split_at_char(s, a1, b1, c);
    lemma_split_at_char(s, a2, b2, c);
    assert(a1.len() == a2.len()) by {
        if a1.len() < a2.len() {
            assert(s[a1.len() as int] == c);
        } else if a2.len() < a1.len() {
            assert(s[a2.len() as int] == c);
        }
    }
}

/// Rendering distinct well-formed identifiers gives distinct strings.
pub proof fn lemma_ident_str_injective(a: IdentModel, b: IdentModel)
    requires
        ident_wf(a),
        ident_wf(b),
        ident_str(a) == ident_str(b),
    ensures
        a == b,
{
    match (a, b) {
        (IdentModel::Num(n), IdentModel::Num(m)) => {
            lemma_seg_value_of_digits(n);
            lemma_seg_value_of_digits(m);
        },
        (IdentModel::Num(n), IdentModel::Alpha(s)) => {
            lemma_digits_of_canonical(n);
            lemma_seg_value_of_digits(n);
            assert(is_numeric_segment(s));
        },
        (IdentModel::Alpha(s), IdentModel::Num(n)) => {
            lemma_digits_of_canonical(n);
            lemma_seg_value_of_digits(n);
            assert(is_numeric_segment(s));
        },
        (IdentModel::Alpha(_), IdentModel::Alpha(_)) => {},
    }
}

/// Rendering distinct well-formed, nonempty labels gives distinct strings.
pub proof fn lemma_label_str_injective(l1: Seq<IdentModel>, l2: Seq<IdentModel>)
    requires
        label_wf(l1),
        label_wf(l2),
        l1.len() > 0,
        l2.len() > 0,
        label_str(l1) == label_str(l2),
    ensures
        l1 == l2,
    decreases l1.len(),
{
    lemma_ident_str_shape(l1[0]);
    lemma_ident_str_shape(l2[0]);
    let h1 = ident_str(l1[0]);
    let h2 = ident_str(l2[0]);
    let s = label_str(l1);
    if l1.len() == 1 && l2.len() == 1 {
        lemma_ident_str_injective(l1[0], l2[0]);
        assert(l1 =~= l2);
    } else if l1.len() == 1 && l2.len() > 1 {
        lemma_split_at_char(s, h2, label_str(l2.drop_first()), '.');
        assert(is_ident_char(s[h2.len() as int]));
    } else if l1.len() > 1 && l2.len() == 1 {
        lemma_split_at_char(s, h1, label_str(l1.drop_first()), '.');
        assert(is_ident_char(s[h1.len() as int]));
    } else {
        lemma_split_at_char(s, h1, label_str(l1.drop_first()), '.');
        lemma_split_at_char(s, h2, label_str(l2.drop_first()), '.');
        assert(h1.len() == h2.len()) by {
            if h1.len() < h2.len() {
                assert(s[h1.len() as int] == h2[h1.len() as int]);
            } else if h2.len() < h1.len() {
                assert(s[h2.len() as int] == h1[h2.len() as int]);
            }
        }
        assert(h1 == h2);
        lemma_ident_str_injective(l1[0], l2[0]);
        assert(label_wf(l1.drop_first()));
        assert(label_wf(l2.drop_first()));
        lemma_label_str_injective(l1.drop_first(), l2.drop_first());
        assert(l1 =~= l2) by {
            assert(l1.drop_first() =~= l2.drop_first());
            assert forall|j: int| 0 <= j < l1.len() implies l1[j] == l2[j] by {
                if j > 0 {
                    assert(l1[j] == l1.drop_first()[j - 1]);
                    assert(l2[j] == l2.drop_first()[j - 1]);
                }
            }
        }
    }
}

/// Finds the first occurrence of `c` in `s` between `from` and `to`.
pub fn find_char(s: &str, c: char, from: usize, to: usize) -> (r: Option<usize>)
    requires
        from <= to <= s@.len(),
    ensures
        match r {
            Some(i) => from <= i < to && s@[i as int] == c && forall|j: int|
                from <= j < i ==> s@[j] != c,
            None => forall|j: int| from <= j < to ==> s@[j] != c,
        },
{
    let mut i: usize = from;
    while i < to
        invariant
            from <= i <= to <= s@.len(),
            forall|j: int| from <= j < i ==> s@[j] != c,
        decreases to - i,
    {
        if s.get_char(i) == c {
            return Some(i);
        }
        i = i + 1;
    }
    None
}

/// Classifies the characters of `s` between `from` and `to` as one
/// identifier: numeric exactly when they are a canonical, representable
/// number, alphanumeric otherwise, and invalid when the run is empty or
/// holds a character outside the identifier alphabet.
pub fn parse_segment(s: &str, from: usize, to: usize) -> (r: Result<Identifier, Error>)
    requires
        from <= to <= s@.len(),
    ensures
        match r {
            Ok(id) => ident_wf(id@) && ident_str(id@) == s@.subrange(from as int, to as int),
            Err(e) => e == Error::InvalidLabel && forall|im: IdentModel|
                ident_wf(im) ==> ident_str(im) != s@.subrange(from as int, to as int),
        },
{
    let ghost sub = s@.subrange(from as int, to as int);
    if to == from {
        proof {
            assert forall|im: IdentModel| ident_wf(im) implies ident_str(im) != sub by {
                lemma_ident_str_shape(im);
            }
        }
        return Err(Error::InvalidLabel);
    }
    let mut i: usize = from;
    let mut all_digits: bool = true;
    while i < to
        invariant
            from <= i <= to <= s@.len(),
            sub == s@.subrange(from as int, to as int),
            forall|j: int| from <= j < i ==> is_ident_char(#[trigger] s@[j]),
            all_digits <==> forall|j: int| from <= j < i ==> is_digit(#[trigger] s@[j]),
        decreases to - i,
    {
        let c = s.get_char(i);
        let dig = '0' <= c && c <= '9';
        let ok = dig || ('a' <= c && c <= 'z') || ('A' <= c && c <= 'Z') || c == '-';
        if !ok {
            proof {
                assert(!is_ident_char(s@[i as int]));
                assert(sub[i as int - from] == s@[i as int]);
                assert forall|im: IdentModel| ident_wf(im) implies ident_str(im) != sub by {
                    lemma_ident_str_shape(im);
                    if ident_str(im) == sub {
                        assert(is_ident_char(sub[i as int - from]));
                    }
                }
            }
            return Err(Error::InvalidLabel);
        }
        if !dig {
            all_digits = false;
        }
        i = i + 1;
    }
    proof {
        assert(forall|j: int| 0 <= j < sub.len() ==> sub[j] == s@[from + j]);
    }
    if all_digits {
        let c0 = s.get_char(from);
        if c0 != '0' || to == from + 1 {
            assert(is_canonical_digits(sub));
            match digits_value(s, from, to) {
                Some(n) => {
                    proof {
                        lemma_digits_of_value(sub);
                    }
                    Ok(Identifier::Numeric(n))
                },
                None => {
                    let a = s.substring_char(from, to);
                    proof {
                        assert(!is_numeric_segment(sub));
                    }
                    Ok(Identifier::AlphaNumeric(String::from_str(a)))
                },
            }
        } else {
            let a = s.substring_char(from, to);
            proof {
                assert(sub[0] == '0' && sub.len() > 1);
                assert(!is_canonical_digits(sub));
            }
            Ok(Identifier::AlphaNumeric(String::from_str(a)))
        }
    } else {
        let a = s.substring_char(from, to);
        proof {
            let k = choose|j: int| from <= j < to && !is_digit(#[trigger] s@[j]);
            assert(!is_digit(sub[k - from]));
            assert(!is_digit_seq(sub));
            assert(!is_canonical_digits(sub));
        }
        Ok(Identifier::AlphaNumeric(String::from_str(a)))
    }
}

/// Parses the characters of `s` between `from` and `to` as a dot-separated
/// label: it succeeds exactly on the strings some well-formed, nonempty
/// label renders to, and returns that label.
pub fn parse_label_range(s: &str, from: usize, to: usize) -> (r: Result<Vec<Identifier>, Error>)
    requires
        from <= to <= s@.len(),
    ensures
        match r {
            Ok(ids) => {
                &&& ids@.len() > 0
                &&& label_wf(idents_model(ids@))
                &&& label_str(idents_model(ids@)) == s@.subrange(from as int, to as int)
            },
            Err(e) => e == Error::InvalidLabel && forall|l: Seq<IdentModel>|
                label_wf(l) && l.len() > 0 ==> label_str(l) != s@.subrange(from as int, to as int),
        },
    decreases to - from,
{
    let ghost sub = s@.subrange(from as int, to as int);
    match find_char(s, '.', from, to) {
        None => {
            match parse_segment(s, from, to) {
                Ok(id) => {
                    let mut v: Vec<Identifier> = Vec::new();
                    v.push(id);
                    proof {
                        assert(idents_model(v@) =~= seq![id@]);
                        assert(label_str(seq![id@]) == ident_str(id@));
                    }
                    Ok(v)
                },
                Err(e) => {
                    proof {
                        lemma_label_no_match(s@, from as int, to as int, None);
                    }
                    Err(e)
                },
            }
        },
        Some(d) => {
            let seg = parse_segment(s, from, d);
            match seg {
                Ok(id) => {
                    match parse_label_range(s, d + 1, to) {
                        Ok(mut rest) => {
                            let ghost tail = idents_model(rest@);
                            rest.insert(0, id);
                            proof {
                                let m = idents_model(rest@);
                                assert(m.drop_first() =~= tail);
                                assert(m[0] == id@);
                                assert(m.len() >= 2);
                                assert(label_str(m) == ident_str(id@) + seq!['.'] + label_str(
                                    tail,
                                ));
                                assert forall|j: int| 0 <= j < m.len() implies ident_wf(
                                    #[trigger] m[j],
                                ) by {
                                    if j > 0 {
                                        assert(m[j] == m.drop_first()[j - 1]);
                                        assert(m[j] == tail[j - 1]);
                                    }
                                }
                                assert(label_wf(m));
                                assert(sub =~= s@.subrange(from as int, d as int) + seq!['.']
                                    + s@.subrange(d + 1, to as int));
                            }
                            Ok(rest)
                        },
                        Err(e) => {
                            proof {
                                lemma_label_no_match(s@, from as int, to as int, Some(d as int));
                            }
                            Err(e)
                        },
                    }
                },
                Err(e) => {
                    proof {
                        lemma_label_no_match(s@, from as int, to as int, Some(d as int));
                    }
                    Err(e)
                },
            }
        },
    }
}

/// The shape every rendered label has: if a label renders to the given
/// range, then the range's first dot separates the first identifier's
/// rendering from the rest. Stated as the contrapositive pieces the parser
/// needs when a sub-parse fails.
proof fn lemma_label_no_match(s: Seq<char>, from: int, to: int, dot: Option<int>)
    requires
        0 <= from <= to <= s.len(),
        match dot {
            Some(d) => from <= d < to && s[d] == '.' && forall|j: int| from <= j < d ==> s[j]
                != '.',
            None => forall|j: int| from <= j < to ==> s[j] != '.',
        },
        match dot {
            Some(d) => (forall|im: IdentModel|
                ident_wf(im) ==> ident_str(im) != s.subrange(from, d)) || (forall|
                l: Seq<IdentModel>,
            |
                label_wf(l) && l.len() > 0 ==> label_str(l) != s.subrange(d + 1, to)),
            None => forall|im: IdentModel| ident_wf(im) ==> ident_str(im) != s.subrange(from, to),
        },
    ensures
        forall|l: Seq<IdentModel>|
            label_wf(l) && l.len() > 0 ==> label_str(l) != s.subrange(from, to),
{
    let sub = s.subrange(from, to);
    assert forall|l: Seq<IdentModel>| label_wf(l) && l.len() > 0 implies label_str(l) != sub by {
        if label_str(l) == sub {
            lemma_ident_str_shape(l[0]);
            let h = ident_str(l[0]);
            if l.len() == 1 {
                match dot {
                    Some(d) => {
                        assert(sub[d - from] == s[d]);
                        assert(is_ident_char(h[d - from]));
                    },
                    None => {
                        assert(h == sub);
                    },
                }
            } else {
                let tail = label_str(l.drop_first());
                assert(sub == h + seq!['.'] + tail);
                lemma_split_at_char(sub, h, tail, '.');
                match dot {
                    Some(d) => {
                        assert(forall|j: int| 0 <= j < sub.len() ==> sub[j] == #[trigger] s[from + j]);
                        assert(d - from == h.len()) by {
                            if d - from < h.len() {
                                assert(sub[d - from] != '.');
                                assert(sub[d - from] == s[d]);
                            } else if d - from > h.len() {
                                assert(s[from + h.len()] == sub[h.len() as int]);
                            }
                        }
                        assert(h =~= s.subrange(from, d));
                        assert(tail =~= s.subrange(d + 1, to));
                        assert(label_wf(l.drop_first()) && l.drop_first().len() > 0);
                    },
                    None => {
                        assert(sub[h.len() as int] == '.');
                        assert(sub[h.len() as int] == s[from + h.len()]);
                    },
                }
            }
        }
    }
}

/// Renders a label: the identifiers' renderings joined by `'.'`.
pub fn render_label(ids: &Vec<Identifier>) -> (r: String)
    ensures
        r@ == label_str(idents_model(ids@)),
{
    let ghost m = idents_model(ids@);
    let mut r = String::new();
    let mut i: usize = 0;
    proof {
        assert(m.take(0) =~= Seq::<IdentModel>::empty());
    }
    while i < ids.len()
        invariant
            i <= ids.len(),
            m == idents_model(ids@),
            m.len() == ids@.len(),
            r@ == label_str(m.take(i as int)),
        decreases ids.len() - i,
    {
        if i > 0 {
            proof {
                reveal_strlit(".");
            }
            r.append(".");
        }
        match &ids[i] {
            Identifier::Numeric(n) => {
                let t = u64_to_string(*n);
                r.append(t.as_str());
            },
            Identifier::AlphaNumeric(a) => {
                r.append(a.as_str());
            },
        }
        proof {
            reveal_strlit(".");
            assert((".")@ =~= seq!['.']);
            assert(m[i as int] == ids@[i as int]@);
            lemma_label_str_push(m.take(i as int), m[i as int]);
            assert(m.take(i as int + 1) =~= m.take(i as int).push(m[i as int]));
        }
        i = i + 1;
    }
    proof {
        assert(m.take(ids@.len() as int) =~= m);
    }
    r
}

} // verus!
