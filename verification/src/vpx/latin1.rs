//! Strings that a Latin-1 record of a table can carry unchanged.
//!
//! Most text in a table (image, material, surface, sound and layer names)
//! is stored as Latin-1, one byte per character and read up to the first
//! NUL, so the only characters such a field can hold are `U+0001` to
//! `U+00FF`.

use vstd::prelude::*;
use crate::vpx::text::push_char;
use vstd::utf8::encode_utf8;
use vstd::utf8::encode_scalar;
use vstd::std_specs::iter::IteratorSpec;

verus! {

broadcast use vstd::string::group_string_axioms;

/// A character that a Latin-1 record can carry: `U+0001` to `U+00FF`.
pub open spec fn is_latin1_char(c: char) -> bool {
    0x01 <= (c as u32) && (c as u32) <= 0xFF
}

/// Every character of `s` can be carried by a Latin-1 record.
pub open spec fn all_latin1(s: Seq<char>) -> bool {
    forall|i: int| 0 <= i < s.len() ==> #[trigger] is_latin1_char(s[i])
}

/// The number of bytes of the UTF-8 encoding of `s`.
pub open spec fn utf8_byte_len(s: Seq<char>) -> int {
    encode_utf8(s).len() as int
}

/// `c` itself when a record can carry it, `?` otherwise.
pub open spec fn lossy_char(c: char) -> char {
    if is_latin1_char(c) { c } else { '?' }
}

/// The byte that stores a character that a record can carry.
pub open spec fn latin1_byte(c: char) -> u8 {
    (c as u32) as u8
}

/// The UTF-8 length of a string grows by the width of the character pushed onto it.
pub proof fn lemma_utf8_len_push(s: Seq<char>, c: char)
    ensures
        utf8_byte_len(s.push(c)) == utf8_byte_len(s) + encode_scalar(c as u32).len(),
    decreases s.len(),
{
    if s.len() == 0 {
        assert(s.push(c).drop_first() =~= Seq::<char>::empty());
        assert(encode_utf8(Seq::<char>::empty()).len() == 0);
    } else {
        lemma_utf8_len_push(s.drop_first(), c);
        assert(s.push(c).drop_first() =~= s.drop_first().push(c));
        assert(s.push(c)[0] == s[0]);
    }
}

/// The UTF-8 length of a concatenation is the sum of the lengths.
pub proof fn lemma_utf8_len_concat(a: Seq<char>, b: Seq<char>)
    ensures
        utf8_byte_len(a + b) == utf8_byte_len(a) + utf8_byte_len(b),
    decreases b.len(),
{
    if b.len() == 0 {
        assert(a + b =~= a);
    } else {
        let c = b.last();
        lemma_utf8_len_concat(a, b.drop_last());
        lemma_utf8_len_push(a + b.drop_last(), c);
        lemma_utf8_len_push(b.drop_last(), c);
        assert((a + b.drop_last()).push(c) =~= a + b);
        assert(b.drop_last().push(c) =~= b);
    }
}

/// The first character of a string that a Latin-1 record cannot carry.
#[derive(Debug, Clone, PartialEq, Eq, Structural)]
pub struct Latin1Error {
    /// The offending character.
    pub character: char,
    /// Its byte offset in the string.
    pub index: usize,
}

/// `k` is the position of the first character of `s` that a record cannot carry.
pub open spec fn is_first_bad(s: Seq<char>, k: int) -> bool {
    0 <= k < s.len() && all_latin1(s.take(k)) && !is_latin1_char(s[k])
}

/// The error reported for `s[k]`: the character and its UTF-8 byte offset.
pub open spec fn latin1_error_at(s: Seq<char>, k: int) -> Latin1Error {
    Latin1Error { character: s[k], index: utf8_byte_len(s.take(k)) as usize }
}

/// What [`validate`] answers for `s`: `Ok` when a record can carry every
/// character, otherwise the error for the first one it cannot.
pub open spec fn check_latin1(s: Seq<char>) -> Result<(), Latin1Error> {
    if all_latin1(s) {
        Ok(())
    } else {
        Err(latin1_error_at(s, choose|k: int| is_first_bad(s, k)))
    }
}

/// There is one first bad character at most.
pub proof fn lemma_first_bad_unique(s: Seq<char>, k1: int, k2: int)
    requires
        is_first_bad(s, k1),
        is_first_bad(s, k2),
    ensures
        k1 == k2,
{
    if k1 < k2 {
        assert(s.take(k2)[k1] == s[k1]);
    } else if k2 < k1 {
        assert(s.take(k1)[k2] == s[k2]);
    }
}

/// Whether a record can carry `c`.
pub fn is_latin1(c: char) -> (r: bool)
    ensures
        r == is_latin1_char(c),
{
    let v = c as u32;
    0x01 <= v && v <= 0xFF
}

/// The number of UTF-8 bytes of `c`.
fn char_utf8_width(c: char) -> (w: usize)
    ensures
        w == encode_scalar(c as u32).len(),
{
    let v = c as u32;
    if v < 0x80 {
        1
    } else if v < 0x800 {
        2
    } else if v < 0x10000 {
        3
    } else {
        4
    }
}

/// Checks that every character of `s` can be carried by a Latin-1 record,
/// or finds the first one that cannot.
pub fn validate(s: &str) -> (r: Result<(), Latin1Error>)
    ensures
        r == check_latin1(s@),
{
    let mut index: usize = 0;
    let byte_len = s.as_bytes().len();
    proof {
        lemma_utf8_len_concat(s@.take(0), s@.skip(0));
        assert(s@.take(0) + s@.skip(0) =~= s@);
    }
    for c in iter: s.chars()
        invariant
            iter.seq() == s@,
            all_latin1(s@.take(iter.index() as int)),
            index == utf8_byte_len(s@.take(iter.index() as int)),
            utf8_byte_len(s@) == byte_len,
    {
        let ghost k = iter.index() as int;
        proof {
            assert(s@.take(k + 1) =~= s@.take(k).push(c));
            lemma_utf8_len_push(s@.take(k), c);
            lemma_utf8_len_concat(s@.take(k + 1), s@.skip(k + 1));
            assert(s@.take(k + 1) + s@.skip(k + 1) =~= s@);
        }
        if !is_latin1(c) {
            proof {
                assert(is_first_bad(s@, k));
                lemma_first_bad_unique(s@, k, choose|j: int| is_first_bad(s@, j));
            }
            return Err(Latin1Error { character: c, index });
        }
        let w = char_utf8_width(c);
        index = index + w;
    }
    proof {
        assert(s@.take(s@.len() as int) =~= s@);
    }
    Ok(())
}


/// A string a Latin-1 record can carry unchanged: every character is
/// `U+0001` to `U+00FF`.
///
/// The fallible conversions reject anything else, and
/// [`Latin1String::from_lossy`] is the explicit way to replace it with `?`
/// like vpinball does on save.
#[derive(PartialEq, Eq, PartialOrd, Ord, Hash, Debug)]
pub struct Latin1String(String);

impl View for Latin1String {
    type V = Seq<char>;

    closed spec fn view(&self) -> Seq<char> {
        self.0@
    }
}

impl Latin1String {
    #[verifier::type_invariant]
    closed spec fn carried(self) -> bool {
        all_latin1(self.0@)
    }

    /// An empty string.
    pub fn new() -> (r: Self)
        ensures
            r@ == Seq::<char>::empty(),
    {
        Latin1String(String::new())
    }

    /// Converts a string, replacing every character a Latin-1 record cannot
    /// carry with `?`.
    pub fn from_lossy(s: &str) -> (r: Self)
        ensures
            r@ == s@.map_values(|c: char| lossy_char(c)),
            all_latin1(r@),
    {
        let mut out = String::new();
        for c in iter: s.chars()
            invariant
                iter.seq() == s@,
                out@ == s@.take(iter.index() as int).map_values(|c: char| lossy_char(c)),
        {
            let ghost k = iter.index() as int;
            let ghost before = out@;
            if is_latin1(c) {
                push_char(&mut out, c);
            } else {
                push_char(&mut out, '?');
            }
            proof {
                assert(s@.take(k + 1) =~= s@.take(k).push(c));
                assert(s@.take(k + 1).map_values(|c: char| lossy_char(c)) =~= before.push(
                    lossy_char(c),
                ));
            }
        }
        proof {
            assert(s@.take(s@.len() as int) =~= s@);
        }
        Latin1String(out)
    }

    /// Wraps a string decoded from a Latin-1 record, which is valid by
    /// construction.
    pub(crate) fn from_decoded(s: String) -> (r: Self)
        requires
            all_latin1(s@),
        ensures
            r@ == s@,
    {
        Latin1String(s)
    }

    /// Converts a string that a record can carry, or finds the first
    /// character that it cannot.
    pub fn try_from_string(s: String) -> (r: Result<Self, Latin1Error>)
        ensures
            r is Ok <==> all_latin1(s@),
            r matches Ok(v) ==> v@ == s@,
            r matches Err(e) ==> check_latin1(s@) == Err::<(), Latin1Error>(e),
    {
        match validate(s.as_str()) {
            Ok(()) => Ok(Latin1String(s)),
            Err(e) => Err(e),
        }
    }

    /// Converts a string slice that a record can carry, or finds the first
    /// character that it cannot.
    pub fn try_from_str(s: &str) -> (r: Result<Self, Latin1Error>)
        ensures
            r is Ok <==> all_latin1(s@),
            r matches Ok(v) ==> v@ == s@,
            r matches Err(e) ==> check_latin1(s@) == Err::<(), Latin1Error>(e),
    {
        match validate(s) {
            Ok(()) => Ok(Latin1String(s.to_string())),
            Err(e) => Err(e),
        }
    }

    /// The string as a slice.
    pub fn as_str(&self) -> (r: &str)
        ensures
            r@ == self@,
            all_latin1(r@),
    {
        proof {
            use_type_invariant(self);
        }
        self.0.as_str()
    }

    /// Unwraps the underlying [`String`].
    pub fn into_string(self) -> (r: String)
        ensures
            r@ == self@,
            all_latin1(r@),
    {
        proof {
            use_type_invariant(&self);
        }
        self.0
    }

    /// The Latin-1 bytes of the string, one per character.
    pub fn to_bytes(&self) -> (r: Vec<u8>)
        ensures
            r@ == self@.map_values(|c: char| latin1_byte(c)),
    {
        proof {
            use_type_invariant(self);
        }
        let mut out: Vec<u8> = Vec::new();
        for c in iter: self.0.chars()
            invariant
                iter.seq() == self@,
                out@ == self@.take(iter.index() as int).map_values(|c: char| latin1_byte(c)),
                all_latin1(self@),
        {
            let ghost k = iter.index() as int;
            let ghost before = out@;
            let v: u32 = c as u32;
            proof {
                assert(is_latin1_char(self@[k]));
            }
            out.push(v as u8);
            proof {
                assert(self@.take(k + 1) =~= self@.take(k).push(c));
                assert(self@.take(k + 1).map_values(|c: char| latin1_byte(c)) =~= before.push(
                    latin1_byte(c),
                ));
            }
        }
        proof {
            assert(self@.take(self@.len() as int) =~= self@);
        }
        out
    }
}

impl Clone for Latin1String {
    fn clone(&self) -> (r: Self)
        ensures
            r@ == self@,
    {
        proof {
            use_type_invariant(self);
        }
        Latin1String(self.0.clone())
    }
}

impl Default for Latin1String {
    fn default() -> (r: Self)
        ensures
            r@ == Seq::<char>::empty(),
    {
        Self::new()
    }
}

impl TryFrom<String> for Latin1String {
    type Error = Latin1Error;

    fn try_from(s: String) -> (r: Result<Self, Self::Error>)
        ensures
            r is Ok <==> all_latin1(s@),
            r matches Ok(v) ==> v@ == s@,
            r matches Err(e) ==> check_latin1(s@) == Err::<(), Latin1Error>(e),
    {
        match validate(s.as_str()) {
            Ok(()) => Ok(Latin1String(s)),
            Err(e) => Err(e),
        }
    }
}

impl<'a> TryFrom<&'a str> for Latin1String {
    type Error = Latin1Error;

    fn try_from(s: &'a str) -> (r: Result<Self, Self::Error>)
        ensures
            r is Ok <==> all_latin1(s@),
            r matches Ok(v) ==> v@ == s@,
            r matches Err(e) ==> check_latin1(s@) == Err::<(), Latin1Error>(e),
    {
        Self::try_from_str(s)
    }
}

/// No spec function can build the `String` that a `&str` is copied into,
/// so the generic claim is left off; the `ensures` of `try_from` above
/// states the result.
impl<'a> vstd::std_specs::convert::TryFromSpecImpl<&'a str> for Latin1String {
    open spec fn obeys_try_from_spec() -> bool {
        false
    }

    open spec fn try_from_spec(s: &'a str) -> Result<Self, Latin1Error> {
        Err(Latin1Error { character: '\0', index: 0 })
    }
}

impl vstd::std_specs::convert::TryFromSpecImpl<String> for Latin1String {
    open spec fn obeys_try_from_spec() -> bool {
        true
    }

    closed spec fn try_from_spec(s: String) -> Result<Self, Latin1Error> {
        match check_latin1(s@) {
            Ok(()) => Ok(Latin1String(s)),
            Err(e) => Err(e),
        }
    }
}

impl core::str::FromStr for Latin1String {
    type Err = Latin1Error;

    fn from_str(s: &str) -> (r: Result<Self, Self::Err>)
        ensures
            r is Ok <==> all_latin1(s@),
            r matches Ok(v) ==> v@ == s@,
            r matches Err(e) ==> check_latin1(s@) == Err::<(), Latin1Error>(e),
    {
        Self::try_from_str(s)
    }
}

/// The lossy conversion leaves a string that a record can carry unchanged.
pub proof fn lemma_lossy_keeps_carried(s: Seq<char>)
    requires
        all_latin1(s),
    ensures
        s.map_values(|c: char| lossy_char(c)) == s,
{
    assert(s.map_values(|c: char| lossy_char(c)) =~= s);
}

/// Converting lossily twice is converting once.
pub proof fn lemma_lossy_idempotent(s: Seq<char>)
    ensures
        s.map_values(|c: char| lossy_char(c)).map_values(|c: char| lossy_char(c)) == s.map_values(
            |c: char| lossy_char(c),
        ),
{
    let once = s.map_values(|c: char| lossy_char(c));
    assert forall|i: int| 0 <= i < once.len() implies #[trigger] is_latin1_char(once[i]) by {
        let q: char = '?';
        assert(q as u32 == 0x3F);
    }
    lemma_lossy_keeps_carried(once);
}

/// The bytes of a carried string hold no NUL, so a record that is read up
/// to the first NUL gives back every character, and reading each byte as
/// the character with that code gives back the string.
pub proof fn lemma_bytes_read_back(s: Seq<char>)
    requires
        all_latin1(s),
    ensures
        forall|i: int| 0 <= i < s.len() ==> #[trigger] latin1_byte(s[i]) != 0,
        s.map_values(|c: char| latin1_byte(c)).map_values(|b: u8| (b as u32) as char) == s,
{
    assert forall|i: int| 0 <= i < s.len() implies #[trigger] latin1_byte(s[i]) != 0
        && ((latin1_byte(s[i]) as u32) as char) == s[i] by {
        assert(is_latin1_char(s[i]));
        let v = s[i] as u32;
        assert(0 < v <= 0xFF);
        assert((v as u8) as u32 == v) by (bit_vector)
            requires
                v <= 0xFF,
        ;
        vstd::utf8::char_u32_cast(s[i], v);
    }
    assert(s.map_values(|c: char| latin1_byte(c)).map_values(|b: u8| (b as u32) as char) =~= s);
}

} // verus!
