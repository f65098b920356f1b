//! Decimal rendering of version numbers.
//!
//! A semantic version's `major`, `minor` and `patch` fields, and every
//! numeric identifier inside a pre-release or build label, appear in a
//! version string in canonical decimal form: at least one digit, and no
//! leading zero unless the number is exactly zero. `digits_of` is the
//! specification of that form, `seg_value` reads a digit sequence back as a
//! number, and the executable functions here convert both ways.

use vstd::prelude::*;

verus! {

/// The decimal digit characters.
pub open spec fn is_digit(c: char) -> bool {
    '0' <= c && c <= '9'
}

/// The numeric value of a digit character.
pub open spec fn digit_val(c: char) -> nat {
    (c as u32 - '0' as u32) as nat
}

/// The digit character for a value below ten.
pub open spec fn char_of_digit(d: nat) -> char {
    if d == 0 {
        '0'
    } else if d == 1 {
        '1'
    } else if d == 2 {
        '2'
    } else if d == 3 {
        '3'
    } else if d == 4 {
        '4'
    } else if d == 5 {
        '5'
    } else if d == 6 {
        '6'
    } else if d == 7 {
        '7'
    } else if d == 8 {
        '8'
    } else {
        '9'
    }
}

/// The canonical decimal rendering of a number: most significant digit
/// first, no leading zeros.
pub open spec fn digits_of(n: nat) -> Seq<char>
    decreases n,
{
    if n < 10 {
        seq![char_of_digit(n)]
    } else {
        digits_of(n / 10).push(char_of_digit(n % 10))
    }
}

/// Every character of `s` is a decimal digit.
pub open spec fn is_digit_seq(s: Seq<char>) -> bool {
    forall|i: int| 0 <= i < s.len() ==> is_digit(#[trigger] s[i])
}

/// The number a digit sequence denotes, read most significant digit first.
pub open spec fn seg_value(s: Seq<char>) -> nat
    decreases s.len(),
{
    if s.len() == 0 {
        0
    } else {
        seg_value(s.drop_last()) * 10 + digit_val(s.last())
    }
}

/// A digit sequence in canonical form: nonempty, and no leading zero unless
/// it is exactly `"0"`.
pub open spec fn is_canonical_digits(s: Seq<char>) -> bool {
    &&& s.len() > 0
    &&& is_digit_seq(s)
    &&& (s[0] != '0' || s.len() == 1)
}

/// A canonical rendering is itself a canonical digit sequence.
pub proof fn lemma_digits_of_canonical(n: nat)
    ensures
        is_canonical_digits(digits_of(n)),
        n >= 1 ==> digits_of(n)[0] != '0',
        n >= 10 ==> digits_of(n).len() > 1,
    decreases n,
{
    if n < 10 {
        assert(is_digit(char_of_digit(n)));
    } else {
        lemma_digits_of_canonical(n / 10);
        assert(digits_of(n)[0] == digits_of(n / 10)[0]);
        assert(is_digit(char_of_digit(n % 10)));
    }
}

/// Reading a canonical rendering back gives the number it renders.
pub proof fn lemma_seg_value_of_digits(n: nat)
    ensures
        seg_value(digits_of(n)) == n,
    decreases n,
{
    if n < 10 {
        let s = digits_of(n);
        assert(s.drop_last() =~= Seq::<char>::empty());
        assert(seg_value(Seq::<char>::empty()) == 0);
        assert(s.last() == char_of_digit(n));
        assert(digit_val(char_of_digit(n)) == n);
    } else {
        lemma_seg_value_of_digits(n / 10);
        let s = digits_of(n);
        assert(s.drop_last() =~= digits_of(n / 10));
        assert(s.last() == char_of_digit(n % 10));
        assert(digit_val(char_of_digit(n % 10)) == n % 10);
        assert(seg_value(s) == seg_value(digits_of(n / 10)) * 10 + (n % 10));
    }
}

/// A digit sequence that does not start with `'0'` denotes a positive
/// number.
pub proof fn lemma_seg_value_pos(s: Seq<char>)
    requires
        is_digit_seq(s),
        s.len() > 0,
        s[0] != '0',
    ensures
        seg_value(s) >= 1,
    decreases s.len(),
{
    if s.len() == 1 {
        assert(digit_val(s[0]) >= 1);
    } else {
        assert(s.drop_last()[0] == s[0]);
        lemma_seg_value_pos(s.drop_last());
    }
}

/// A canonical digit sequence is the rendering of its own value: rendering
/// is a bijection between numbers and canonical digit sequences.
pub proof fn lemma_digits_of_value(s: Seq<char>)
    requires
        is_canonical_digits(s),
    ensures
        digits_of(seg_value(s)) == s,
    decreases s.len(),
{
    if s.len() == 1 {
        assert(s.drop_last() =~= Seq::<char>::empty());
        assert(seg_value(Seq::<char>::empty()) == 0);
        assert(s.last() == s[0]);
        assert(seg_value(s) == digit_val(s[0]));
        assert(char_of_digit(digit_val(s[0])) == s[0]);
        assert(digits_of(seg_value(s)) =~= s);
    } else {
        let front = s.drop_last();
        assert(front[0] == s[0]);
        lemma_digits_of_value(front);
        lemma_seg_value_pos(front);
        let v = seg_value(s);
        let d = digit_val(s.last());
        assert(d < 10);
        assert(v == seg_value(front) * 10 + d);
        assert(v / 10 == seg_value(front)) by (nonlinear_arith)
            requires v == seg_value(front) * 10 + d, d < 10;
        assert(v % 10 == d) by (nonlinear_arith)
            requires v == seg_value(front) * 10 + d, d < 10;
        assert(v >= 10);
        assert(digits_of(v) =~= s);
    }
}

/// Extending a digit sequence on the right never lowers its value.
pub proof fn lemma_seg_value_prefix_le(s: Seq<char>, k: int)
    requires
        0 <= k <= s.len(),
    ensures
        seg_value(s.take(k)) <= seg_value(s),
    decreases s.len() - k,
{
    if k < s.len() {
        lemma_seg_value_prefix_le(s.drop_last(), k);
        assert(s.take(k) =~= s.drop_last().take(k));
        assert(seg_value(s) == seg_value(s.drop_last()) * 10 + digit_val(s.last()));
    } else {
        assert(s.take(k) =~= s);
    }
}

/// The single-character string for a digit value.
fn digit_str(d: u64) -> (r: &'static str)
    requires
        d < 10,
    ensures
        r@ =~= seq![char_of_digit(d as nat)],
{
    if d == 0 {
        proof { reveal_strlit("0"); }
        "0"
    } else if d == 1 {
        proof { reveal_strlit("1"); }
        "1"
    } else if d == 2 {
        proof { reveal_strlit("2"); }
        "2"
    } else if d == 3 {
        proof { reveal_strlit("3"); }
        "3"
    } else if d == 4 {
        proof { reveal_strlit("4"); }
        "4"
    } else if d == 5 {
        proof { reveal_strlit("5"); }
        "5"
    } else if d == 6 {
        proof { reveal_strlit("6"); }
        "6"
    } else if d == 7 {
        proof { reveal_strlit("7"); }
        "7"
    } else if d == 8 {
        proof { reveal_strlit("8"); }
        "8"
    } else {
        proof { reveal_strlit("9"); }
        "9"
    }
}

/// Renders a number in canonical decimal form.
pub fn u64_to_string(n: u64) -> (r: String)
    ensures
        r@ == digits_of(n as nat),
    decreases n,
{
    if n < 10 {
        let r = String::from_str(digit_str(n));
        r
    } else {
        let mut r = u64_to_string(n / 10);
        r.append(digit_str(n % 10));
        proof {
            assert(digits_of(n as nat) =~= digits_of(n as nat / 10) + seq![
                char_of_digit(n as nat % 10),
            ]);
        }
        r
    }
}

/// Reads the value of the digit characters of `s` between `from` and `to`,
/// or reports that the value does not fit in a `u64`.
pub fn digits_value(s: &str, from: usize, to: usize) -> (r: Option<u64>)
    requires
        from <= to <= s@.len(),
        forall|i: int| from <= i < to ==> is_digit(#[trigger] s@[i]),
    ensures
        match r {
            Some(n) => n as nat == seg_value(s@.subrange(from as int, to as int)),
            None => seg_value(s@.subrange(from as int, to as int)) > u64::MAX,
        },
{
    let mut acc: u64 = 0;
    let mut i: usize = from;
    while i < to
        invariant
            from <= i <= to <= s@.len(),
            forall|k: int| from <= k < to ==> is_digit(#[trigger] s@[k]),
            acc as nat == seg_value(s@.subrange(from as int, i as int)),
        decreases to - i,
    {
        let c = s.get_char(i);
        assert(is_digit(s@[i as int]));
        let d: u64 = (c as u32 - '0' as u32) as u64;
        assert(d as nat == digit_val(s@[i as int]));
        assert(d < 10);
        proof {
            let cur = s@.subrange(from as int, i as int);
            let next = s@.subrange(from as int, i as int + 1);
            assert(next.drop_last() =~= cur);
            assert(next.last() == s@[i as int]);
        }
        if acc > u64::MAX / 10 || (acc == u64::MAX / 10 && d > u64::MAX % 10) {
            proof {
                let next = s@.subrange(from as int, i as int + 1);
                assert(seg_value(next) == acc as nat * 10 + d as nat);
                assert(seg_value(next) > u64::MAX);
                let whole = s@.subrange(from as int, to as int);
                lemma_seg_value_prefix_le(whole, i as int + 1 - from);
                assert(whole.take(i as int + 1 - from) =~= next);
            }
            return None;
        }
        acc = acc * 10 + d;
        i = i + 1;
    }
    assert(s@.subrange(from as int, to as int) =~= s@.subrange(from as int, i as int));
    Some(acc)
}

} // verus!
