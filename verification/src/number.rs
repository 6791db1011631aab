//! The spelling of a number.
//!
//! A number is written as an optional sign followed by a decimal numeral or by
//! one of the words `inf`, `infinity` and `nan` in any mix of cases. A decimal
//! numeral has digits before or after an optional point, at least one in all,
//! and may end in an exponent: `e` or `E`, an optional sign, and digits.

use vstd::prelude::*;

verus! {

/// A decimal digit.
pub open spec fn is_digit(b: u8) -> bool {
    0x30 <= b && b <= 0x39
}

/// A plus or a minus.
pub open spec fn is_sign(b: u8) -> bool {
    b == 0x2b || b == 0x2d
}

/// The lower-case form of an upper-case letter, and any other byte as it is.
pub open spec fn to_lower(b: u8) -> u8 {
    if 0x41 <= b && b <= 0x5a {
        (b + 0x20) as u8
    } else {
        b
    }
}

/// How many digits `s` starts with.
pub open spec fn digit_run(s: Seq<u8>) -> nat
    decreases s.len(),
{
    if s.len() > 0 && is_digit(s[0]) {
        1 + digit_run(s.skip(1))
    } else {
        0
    }
}

/// `s` without the sign that it may start with.
pub open spec fn unsigned(s: Seq<u8>) -> Seq<u8> {
    if s.len() > 0 && is_sign(s[0]) {
        s.skip(1)
    } else {
        s
    }
}

/// `s` spells `word`, which is in lower case, in some mix of cases.
pub open spec fn spells(s: Seq<u8>, word: Seq<u8>) -> bool {
    s.len() == word.len() && forall|i: int| 0 <= i < s.len() ==> to_lower(s[i]) == word[i]
}

/// The bytes of `inf`.
pub open spec fn word_inf() -> Seq<u8> {
    seq![0x69u8, 0x6eu8, 0x66u8]
}

/// The bytes of `infinity`.
pub open spec fn word_infinity() -> Seq<u8> {
    seq![0x69u8, 0x6eu8, 0x66u8, 0x69u8, 0x6eu8, 0x69u8, 0x74u8, 0x79u8]
}

/// The bytes of `nan`.
pub open spec fn word_nan() -> Seq<u8> {
    seq![0x6eu8, 0x61u8, 0x6eu8]
}

/// `s` is one of the words for a value that is not finite.
pub open spec fn is_special(s: Seq<u8>) -> bool {
    spells(s, word_inf()) || spells(s, word_infinity()) || spells(s, word_nan())
}

/// `s` is an exponent: the letter, an optional sign, and one digit or more up
/// to the end.
pub open spec fn is_exponent(s: Seq<u8>) -> bool {
    s.len() > 0 && to_lower(s[0]) == 0x65 && {
        let digits = unsigned(s.skip(1));
        digits.len() > 0 && digit_run(digits) == digits.len()
    }
}

/// What follows the digits before the point, the point and the digits after
/// it.
pub open spec fn after_mantissa(s: Seq<u8>) -> Seq<u8> {
    let rest = s.skip(digit_run(s) as int);
    if rest.len() > 0 && rest[0] == 0x2e {
        rest.skip(1 + digit_run(rest.skip(1)) as int)
    } else {
        rest
    }
}

/// How many digits the mantissa holds, before and after the point.
pub open spec fn mantissa_digits(s: Seq<u8>) -> nat {
    let rest = s.skip(digit_run(s) as int);
    if rest.len() > 0 && rest[0] == 0x2e {
        digit_run(s) + digit_run(rest.skip(1))
    } else {
        digit_run(s)
    }
}

/// `s` is a decimal numeral.
pub open spec fn is_decimal(s: Seq<u8>) -> bool {
    mantissa_digits(s) > 0 && (after_mantissa(s).len() == 0 || is_exponent(after_mantissa(s)))
}

/// `s` spells a number.
pub open spec fn is_number(s: Seq<u8>) -> bool {
    is_special(unsigned(s)) || is_decimal(unsigned(s))
}

/// Tells whether `b` is a decimal digit.
pub fn digit(b: u8) -> (r: bool)
    ensures
        r == is_digit(b),
{
    0x30 <= b && b <= 0x39
}

/// Tells whether `b` is a plus or a minus.
pub fn sign(b: u8) -> (r: bool)
    ensures
        r == is_sign(b),
{
    b == 0x2b || b == 0x2d
}

/// The lower-case form of `b`.
pub fn lower(b: u8) -> (r: u8)
    ensures
        r == to_lower(b),
{
    if 0x41 <= b && b <= 0x5a {
        b + 0x20
    } else {
        b
    }
}

/// The index behind the digits that start at `from`.
fn skip_digits(s: &[u8], from: usize) -> (to: usize)
    requires
        from <= s.len(),
    ensures
        from <= to <= s.len(),
        to == from + digit_run(s@.skip(from as int)),
{
    let mut to: usize = from;
    while to < s.len() && digit(s[to])
        invariant
            from <= to <= s.len(),
            from + digit_run(s@.skip(from as int)) == to + digit_run(s@.skip(to as int)),
        decreases s.len() - to,
    {
        assert(s@.skip(to as int).skip(1) =~= s@.skip(to + 1));
        to += 1;
    }
    to
}

/// Tells whether what stands in `s` from `from` on spells `word`.
fn spells_from(s: &[u8], from: usize, word: &[u8]) -> (r: bool)
    requires
        from <= s.len(),
    ensures
        r == spells(s@.skip(from as int), word@),
{
    if s.len() - from != word.len() {
        return false;
    }
    let ghost tail = s@.skip(from as int);
    let mut i: usize = 0;
    while i < word.len()
        invariant
            from <= s.len(),
            s.len() - from == word.len(),
            tail == s@.skip(from as int),
            0 <= i <= word.len(),
            forall|k: int| 0 <= k < i ==> to_lower(tail[k]) == word@[k],
        decreases word.len() - i,
    {
        if lower(s[from + i]) != word[i] {
            return false;
        }
        i += 1;
    }
    true
}

/// Tells whether what stands in `s` from `from` on is an exponent.
fn exponent_from(s: &[u8], from: usize) -> (r: bool)
    requires
        from <= s.len(),
    ensures
        r == is_exponent(s@.skip(from as int)),
{
    if from >= s.len() || lower(s[from]) != 0x65 {
        return false;
    }
    let first: usize = if from + 1 < s.len() && sign(s[from + 1]) {
        from + 2
    } else {
        from + 1
    };
    assert(unsigned(s@.skip(from as int).skip(1)) =~= s@.skip(first as int));
    let end: usize = skip_digits(s, first);
    first < s.len() && end == s.len()
}

/// Tells whether what stands in `s` from `from` on is a decimal numeral.
fn decimal_from(s: &[u8], from: usize) -> (r: bool)
    requires
        from <= s.len(),
    ensures
        r == is_decimal(s@.skip(from as int)),
{
    let ghost tail = s@.skip(from as int);
    let point: usize = skip_digits(s, from);
    let ghost rest = tail.skip(digit_run(tail) as int);
    let mut end: usize = point;
    let mut digits: usize = point - from;
    if point < s.len() && s[point] == 0x2e {
        assert(rest.skip(1) =~= s@.skip(point + 1));
        end = skip_digits(s, point + 1);
        digits = digits + (end - (point + 1));
    }
    assert(after_mantissa(tail) == s@.skip(end as int));
    if digits == 0 {
        return false;
    }
    if end == s.len() {
        return true;
    }
    exponent_from(s, end)
}

/// Tells whether `token` spells a number.
pub fn is_numeric(token: &[u8]) -> (r: bool)
    ensures
        r == is_number(token@),
{
    let from: usize = if token.len() > 0 && sign(token[0]) {
        1
    } else {
        0
    };
    assert(unsigned(token@) =~= token@.skip(from as int));
    let inf: [u8; 3] = [0x69, 0x6e, 0x66];
    let infinity: [u8; 8] = [0x69, 0x6e, 0x66, 0x69, 0x6e, 0x69, 0x74, 0x79];
    let nan: [u8; 3] = [0x6e, 0x61, 0x6e];
    if spells_from(token, from, &inf) || spells_from(token, from, &infinity) || spells_from(
        token,
        from,
        &nan,
    ) {
        return true;
    }
    decimal_from(token, from)
}

} // verus!
