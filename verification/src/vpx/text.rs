//! Comparing and building strings character by character.

use vstd::prelude::*;

verus! {

/// `String::push`: appends `c` to `s`.
#[verifier::external_body]
pub(crate) fn push_char(s: &mut String, c: char)
    ensures
        final(s)@ == old(s)@.push(c),
{
    s.push(c)
}

/// The characters of `s`.
pub fn chars_of(s: &str) -> (r: Vec<char>)
    ensures
        r@ == s@,
{
    let mut out: Vec<char> = Vec::new();
    for c in iter: s.chars()
        invariant
            iter.seq() == s@,
            out@ == s@.take(iter.index() as int),
    {
        proof {
            assert(s@.take(iter.index() + 1) =~= s@.take(iter.index() as int).push(c));
        }
        out.push(c);
    }
    assert(s@.take(s@.len() as int) =~= s@);
    out
}

/// Whether `a` and `b` hold the same characters.
pub fn str_equals(a: &str, b: &str) -> (r: bool)
    ensures
        r == (a@ == b@),
{
    let x = chars_of(a);
    let y = chars_of(b);
    if x.len() != y.len() {
        return false;
    }
    let mut i: usize = 0;
    while i < x.len()
        invariant
            i <= x.len() == y.len(),
            x@ == a@,
            y@ == b@,
            forall|j: int| 0 <= j < i ==> x@[j] == y@[j],
        decreases x.len() - i,
    {
        if x[i] != y[i] {
            return false;
        }
        i = i + 1;
    }
    assert(x@ =~= y@);
    true
}

/// `c` with its case folded as Rust's `to_lowercase` folds it, for every
/// character whose lower case is a plain ASCII letter: `A` to `Z` become
/// `a` to `z`, and the Kelvin sign becomes `k`. Other characters are kept;
/// their lower case is never a lone ASCII letter, so comparing folded text
/// with a lowercase ASCII word is comparing its lower case with that word.
pub open spec fn folded_char(c: char) -> char {
    if 'A' <= c && c <= 'Z' {
        ((c as u32) + 32) as char
    } else if c == '\u{212A}' {
        'k'
    } else {
        c
    }
}

/// A word of lowercase ASCII letters.
pub open spec fn is_lowercase_word(s: Seq<char>) -> bool {
    forall|i: int| 0 <= i < s.len() ==> 'a' <= #[trigger] s[i] && s[i] <= 'z'
}

/// Whether `c` folds to the lowercase letter `t`.
fn folds_to(c: char, t: char) -> (r: bool)
    requires
        'a' <= t <= 'z',
    ensures
        r == (folded_char(c) == t),
{
    c == t || (c as u32) + 32 == (t as u32) || (c == '\u{212A}' && t == 'k')
}

/// Whether `a` with its case folded is the lowercase word `b`.
pub fn str_equals_folded(a: &str, b: &str) -> (r: bool)
    requires
        is_lowercase_word(b@),
    ensures
        r == (a@.map_values(|c: char| folded_char(c)) == b@),
{
    let x = chars_of(a);
    let y = chars_of(b);
    let ghost folded = a@.map_values(|c: char| folded_char(c));
    if x.len() != y.len() {
        assert(folded.len() != b@.len());
        return false;
    }
    let mut i: usize = 0;
    while i < x.len()
        invariant
            i <= x.len() == y.len(),
            x@ == a@,
            y@ == b@,
            is_lowercase_word(b@),
            folded == a@.map_values(|c: char| folded_char(c)),
            forall|j: int| 0 <= j < i ==> folded[j] == y@[j],
        decreases x.len() - i,
    {
        if !folds_to(x[i], y[i]) {
            assert(folded[i as int] != b@[i as int]);
            return false;
        }
        i = i + 1;
    }
    assert(folded =~= b@);
    true
}

} // verus!
