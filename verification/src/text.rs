//! Bytes of text: blanks, trimming, and cutting at a separator.

use vstd::prelude::*;
use vstd::slice::slice_subrange;

verus! {

/// A blank is a space or one of the five control characters from tab to
/// carriage return.
pub open spec fn is_blank(b: u8) -> bool {
    b == 0x20 || (0x09 <= b && b <= 0x0d)
}

/// `s` without the blanks at its start.
pub open spec fn trim_start(s: Seq<u8>) -> Seq<u8>
    decreases s.len(),
{
    if s.len() > 0 && is_blank(s[0]) {
        trim_start(s.skip(1))
    } else {
        s
    }
}

/// `s` without the blanks at its end.
pub open spec fn trim_end(s: Seq<u8>) -> Seq<u8>
    decreases s.len(),
{
    if s.len() > 0 && is_blank(s.last()) {
        trim_end(s.drop_last())
    } else {
        s
    }
}

/// `s` without the blanks at either end.
pub open spec fn trim(s: Seq<u8>) -> Seq<u8> {
    trim_end(trim_start(s))
}

/// How many bytes of `s` stand before the first `sep`; the length of `s` where
/// it holds none.
pub open spec fn find(s: Seq<u8>, sep: u8) -> nat
    decreases s.len(),
{
    if s.len() == 0 || s[0] == sep {
        0
    } else {
        1 + find(s.skip(1), sep)
    }
}

/// The pieces into which the occurrences of `sep` cut `s`, in order. There is
/// one piece more than there are separators, so the result is never empty, and
/// a piece may be.
pub open spec fn split(s: Seq<u8>, sep: u8) -> Seq<Seq<u8>>
    decreases s.len(),
{
    let at: nat = find(s, sep);
    if at >= s.len() {
        seq![s]
    } else {
        seq![s.take(at as int)] + split(s.skip(at as int + 1), sep)
    }
}

/// `find` stays within `s`, no byte before it is `sep`, and the byte at it,
/// where there is one, is.
pub proof fn lemma_find(s: Seq<u8>, sep: u8)
    ensures
        find(s, sep) <= s.len(),
        forall|i: int| 0 <= i < find(s, sep) ==> s[i] != sep,
        find(s, sep) < s.len() ==> s[find(s, sep) as int] == sep,
    decreases s.len(),
{
    if s.len() == 0 || s[0] == sep {
    } else {
        let rest = s.skip(1);
        lemma_find(rest, sep);
        assert forall|i: int| 0 <= i < find(s, sep) implies s[i] != sep by {
            if i > 0 {
                assert(s[i] == rest[i - 1]);
            }
        }
    }
}

/// Trimming leaves a stretch of `s` that neither starts nor ends with a blank.
pub proof fn lemma_trim(s: Seq<u8>)
    ensures
        trim(s).len() <= s.len(),
        trim(s).len() > 0 ==> !is_blank(trim(s)[0]) && !is_blank(trim(s).last()),
        trim(trim(s)) == trim(s),
{
    lemma_trim_start(s);
    lemma_trim_end(trim_start(s));
}

proof fn lemma_trim_start(s: Seq<u8>)
    ensures
        trim_start(s).len() <= s.len(),
        trim_start(s).len() > 0 ==> !is_blank(trim_start(s)[0]),
        trim_start(s) == s.skip(s.len() - trim_start(s).len()),
    decreases s.len(),
{
    if s.len() > 0 && is_blank(s[0]) {
        let rest = s.skip(1);
        lemma_trim_start(rest);
        assert(rest.skip(rest.len() - trim_start(rest).len()) =~= s.skip(
            s.len() - trim_start(rest).len(),
        ));
    }
}

proof fn lemma_trim_end(s: Seq<u8>)
    ensures
        trim_end(s).len() <= s.len(),
        trim_end(s).len() > 0 ==> !is_blank(trim_end(s).last()),
        trim_end(s) == s.take(trim_end(s).len() as int),
        trim_end(trim_end(s)) == trim_end(s),
    decreases s.len(),
{
    if s.len() > 0 && is_blank(s.last()) {
        lemma_trim_end(s.drop_last());
    }
}

/// Tells whether `b` is a blank.
pub fn blank(b: u8) -> (r: bool)
    ensures
        r == is_blank(b),
{
    b == 0x20 || (0x09 <= b && b <= 0x0d)
}

/// The index of the first `sep` in `s` at or after `from`; the length of `s`
/// where none follows. A `from` beyond the end of `s` comes back as it is.
pub fn find_byte(s: &[u8], from: usize, sep: u8) -> (at: usize)
    ensures
        from <= s.len() ==> from <= at <= s.len() && at == from + find(s@.skip(from as int), sep),
        from > s.len() ==> at == from,
{
    if from > s.len() {
        return from;
    }
    let mut at: usize = from;
    while at < s.len() && s[at] != sep
        invariant
            from <= at <= s.len(),
            from + find(s@.skip(from as int), sep) == at + find(s@.skip(at as int), sep),
        decreases s.len() - at,
    {
        assert(s@.skip(at as int).skip(1) =~= s@.skip(at + 1));
        at += 1;
    }
    at
}

/// The stretch of `s` that is left when the blanks at both ends are taken
/// away.
pub fn trim_bytes(s: &[u8]) -> (r: &[u8])
    ensures
        r@ == trim(s@),
{
    let mut lo: usize = 0;
    assert(s@.skip(0) =~= s@);
    while lo < s.len() && blank(s[lo])
        invariant
            0 <= lo <= s.len(),
            trim_start(s@) == trim_start(s@.skip(lo as int)),
        decreases s.len() - lo,
    {
        assert(s@.skip(lo as int).skip(1) =~= s@.skip(lo + 1));
        lo += 1;
    }
    let mut hi: usize = s.len();
    while hi > lo && blank(s[hi - 1])
        invariant
            lo <= hi <= s.len(),
            trim(s@) == trim_end(s@.subrange(lo as int, hi as int)),
        decreases hi - lo,
    {
        assert(s@.subrange(lo as int, hi as int).drop_last() =~= s@.subrange(
            lo as int,
            hi - 1,
        ));
        hi -= 1;
    }
    slice_subrange(s, lo, hi)
}

} // verus!
