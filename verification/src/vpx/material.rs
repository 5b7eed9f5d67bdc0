//! Materials: the kind of shading a material uses.

use vstd::prelude::*;
use crate::vpx::text::{folded_char, str_equals_folded};
use crate::vpx::latin1::latin1_byte;

verus! {

/// The shading model of a material.
#[derive(Debug, PartialEq, Eq, Structural, Clone, Copy)]
pub enum MaterialType {
    /// Stored as -1; found in Hot Line (Williams 1966).
    Unknown,
    /// Stored as 0.
    Basic,
    /// Stored as 1.
    Metal,
}

/// Whether a stored value stands for a material type: -1, 0 or 1.
pub open spec fn is_material_type_raw(value: i32) -> bool {
    -1 <= value <= 1
}

/// The material type that a stored value stands for.
pub open spec fn material_type_from_raw(value: i32) -> MaterialType
    recommends
        is_material_type_raw(value),
{
    if value == -1 {
        MaterialType::Unknown
    } else if value == 0 {
        MaterialType::Basic
    } else {
        MaterialType::Metal
    }
}

/// The value stored for a material type.
pub open spec fn material_type_to_raw(value: MaterialType) -> i32 {
    match value {
        MaterialType::Unknown => -1i32,
        MaterialType::Basic => 0i32,
        MaterialType::Metal => 1i32,
    }
}

impl MaterialType {
    /// The material type that a stored value stands for; other values are
    /// not material types.
    pub fn from_raw(value: i32) -> (r: Self)
        requires
            is_material_type_raw(value),
        ensures
            r == material_type_from_raw(value),
    {
        if value == -1 {
            MaterialType::Unknown
        } else if value == 0 {
            MaterialType::Basic
        } else {
            MaterialType::Metal
        }
    }
}

impl From<&MaterialType> for i32 {
    fn from(value: &MaterialType) -> (r: Self)
        ensures
            r == material_type_to_raw(*value),
    {
        match value {
            MaterialType::Unknown => -1,
            MaterialType::Basic => 0,
            MaterialType::Metal => 1,
        }
    }
}

impl vstd::std_specs::convert::FromSpecImpl<&MaterialType> for i32 {
    open spec fn obeys_from_spec() -> bool {
        true
    }

    open spec fn from_spec(value: &MaterialType) -> Self {
        material_type_to_raw(*value)
    }
}

/// A material type is written as a value that reads back as itself, and
/// every stored material type value is written back as it was read.
pub proof fn lemma_material_type_round_trip(value: MaterialType, raw: i32)
    ensures
        is_material_type_raw(material_type_to_raw(value)),
        material_type_from_raw(material_type_to_raw(value)) == value,
        is_material_type_raw(raw) ==> material_type_to_raw(material_type_from_raw(raw)) == raw,
{
}

/// The name a material type is written under in JSON.
pub open spec fn material_type_json_name(value: MaterialType) -> Seq<char> {
    match value {
        MaterialType::Unknown => "unknown"@,
        MaterialType::Basic => "basic"@,
        MaterialType::Metal => "metal"@,
    }
}

/// What a JSON name stands for, in any case; `None` for any other name.
pub open spec fn material_type_from_json_name(name: Seq<char>) -> Option<MaterialType> {
    let lower = name.map_values(|c: char| folded_char(c));
    if lower == "unknown"@ {
        Some(MaterialType::Unknown)
    } else if lower == "basic"@ {
        Some(MaterialType::Basic)
    } else if lower == "metal"@ {
        Some(MaterialType::Metal)
    } else {
        None
    }
}

impl MaterialType {
    /// The name this value is written under in JSON.
    pub fn json_name(&self) -> (r: &'static str)
        ensures
            r@ == material_type_json_name(*self),
    {
        match self {
            MaterialType::Unknown => "unknown",
            MaterialType::Basic => "basic",
            MaterialType::Metal => "metal",
        }
    }

    /// What a JSON name stands for, in any case; `None` for any other name.
    pub fn from_json_name(name: &str) -> (r: Option<MaterialType>)
        ensures
            r == material_type_from_json_name(name@),
    {
        proof {
            reveal_strlit("unknown");
            reveal_strlit("basic");
            reveal_strlit("metal");
        }
        if str_equals_folded(name, "unknown") {
            Some(MaterialType::Unknown)
        } else if str_equals_folded(name, "basic") {
            Some(MaterialType::Basic)
        } else if str_equals_folded(name, "metal") {
            Some(MaterialType::Metal)
        } else {
            None
        }
    }
}

/// Every named value reads back from its JSON name.
pub proof fn lemma_material_type_json_name_round_trip(value: MaterialType)
    ensures
        material_type_from_json_name(material_type_json_name(value)) == Some(value),
{
    reveal_strlit("unknown");
    reveal_strlit("basic");
    reveal_strlit("metal");
    let name = material_type_json_name(value);
    assert(name.map_values(|c: char| folded_char(c)) =~= name);
    assert("unknown"@.len() != "basic"@.len());
    assert("unknown"@.len() != "metal"@.len());
    assert("basic"@[0] != "metal"@[0]);
}

/// The raw values and JSON names that the table format gives the material
/// types: unknown -1, basic 0, metal 1.
pub proof fn lemma_material_type_stored_values()
    ensures
        material_type_to_raw(MaterialType::Unknown) == -1,
        material_type_to_raw(MaterialType::Basic) == 0,
        material_type_to_raw(MaterialType::Metal) == 1,
        material_type_from_raw(-1i32) == MaterialType::Unknown,
        material_type_from_raw(0i32) == MaterialType::Basic,
        material_type_from_raw(1i32) == MaterialType::Metal,
        material_type_json_name(MaterialType::Unknown) == "unknown"@,
        material_type_json_name(MaterialType::Basic) == "basic"@,
        material_type_json_name(MaterialType::Metal) == "metal"@,
{
}

/// Every character of `s` is one of U+0000 to U+00FF, which Latin-1 stores
/// in one byte each.
pub open spec fn fits_latin1(s: Seq<char>) -> bool {
    forall|i: int| 0 <= i < s.len() ==> (#[trigger] s[i] as u32) <= 0xFF
}

/// The characters of the Latin-1 bytes `b`: each byte is its own code point.
pub open spec fn latin1_text(b: Seq<u8>) -> Seq<char> {
    b.map_values(|x: u8| x as char)
}

/// The number of bytes of `b` before its first NUL; all of them where it
/// holds none.
pub open spec fn cstring_len(b: Seq<u8>) -> nat
    decreases b.len(),
{
    if b.len() == 0 || b[0] == 0 {
        0
    } else {
        1 + cstring_len(b.skip(1))
    }
}

/// The `len` bytes that store `s` as a NUL-terminated Latin-1 string: its
/// bytes, cut to `len - 1`, then zeros.
pub open spec fn padded_cstring(s: Seq<char>, len: nat) -> Seq<u8> {
    let t = s.map_values(|c: char| latin1_byte(c)).take(
        if s.len() < len - 1 { s.len() as int } else { len - 1 },
    );
    t + Seq::new((len - t.len()) as nat, |i: int| 0u8)
}

/// A fixed-size string field holds no NUL that ends the string.
#[derive(Debug, PartialEq, Eq, Structural, Clone, Copy)]
pub struct PaddedCStringError;

/// `encoding_rs::mem::encode_latin1_lossy`, owned. Its documentation says
/// that for input of code points U+0000 to U+00FF each output byte is the
/// value of its code point, and that other input panics with debug
/// assertions and otherwise gives output with no promise; `requires`
/// leaves that input out.
#[verifier::external_body]
fn encode_latin1(s: &str) -> (r: Vec<u8>)
    requires
        fits_latin1(s@),
    ensures
        r@ == s@.map_values(|c: char| latin1_byte(c)),
{
    encoding_rs::mem::encode_latin1_lossy(s).into_owned()
}

/// `encoding_rs::mem::decode_latin1`, owned: each byte becomes the code
/// point of its value, as its documentation says.
#[verifier::external_body]
fn decode_latin1(bytes: &[u8]) -> (r: String)
    ensures
        r@ == latin1_text(bytes@),
{
    encoding_rs::mem::decode_latin1(bytes).into_owned()
}

/// Appends `s` as a string field of `len` bytes: its Latin-1 bytes, cut to
/// leave room for the terminating NUL, then zeros up to `len`.
pub fn write_padded_cstring_truncate(s: &str, bytes: &mut Vec<u8>, len: usize)
    requires
        len >= 1,
        fits_latin1(s@),
    ensures
        final(bytes)@ == old(bytes)@ + padded_cstring(s@, len as nat),
{
    let mut latin1_bytes = encode_latin1(s);
    if latin1_bytes.len() > len - 1 {
        latin1_bytes.truncate(len - 1);
    }
    let ghost t = latin1_bytes@;
    let ghost start = bytes@;
    assert(t == s@.map_values(|c: char| latin1_byte(c)).take(
        if s@.len() < len - 1 { s@.len() as int } else { len - 1 },
    ));
    let mut i: usize = 0;
    while i < latin1_bytes.len()
        invariant
            i <= latin1_bytes.len(),
            latin1_bytes@ == t,
            bytes@ == start + t.take(i as int),
        decreases latin1_bytes.len() - i,
    {
        bytes.push(latin1_bytes[i]);
        i = i + 1;
        assert(t.take(i as int) =~= t.take(i - 1).push(t[i - 1]));
    }
    assert(t.take(t.len() as int) =~= t);
    let zeros = len - latin1_bytes.len();
    let mut j: usize = 0;
    while j < zeros
        invariant
            j <= zeros,
            zeros == len - t.len(),
            bytes@ == start + t + Seq::new(j as nat, |k: int| 0u8),
        decreases zeros - j,
    {
        bytes.push(0);
        j = j + 1;
        assert(start + t + Seq::new(j as nat, |k: int| 0u8) =~= (start + t + Seq::new(
            (j - 1) as nat,
            |k: int| 0u8,
        )).push(0u8));
    }
    assert(start + t + Seq::new(zeros as nat, |k: int| 0u8) =~= start + padded_cstring(s@, len as nat));
}

/// Bytes without a NUL before `i` have their NUL, if any, at `i` or after.
proof fn lemma_cstring_len_skip(b: Seq<u8>, i: int)
    requires
        0 <= i <= b.len(),
        forall|j: int| 0 <= j < i ==> b[j] != 0,
    ensures
        cstring_len(b) == i + cstring_len(b.skip(i)),
    decreases i,
{
    if i > 0 {
        lemma_cstring_len_skip(b.skip(1), i - 1);
        assert(b.skip(1).skip(i - 1) =~= b.skip(i));
    } else {
        assert(b.skip(0) =~= b);
    }
}

/// Takes a string field of `len` bytes off the front of `bytes`: the
/// Latin-1 characters before its first NUL, or an error where the field
/// holds none.
pub fn read_padded_cstring(bytes: &mut Vec<u8>, len: usize) -> (r: Result<String, PaddedCStringError>)
    requires
        len <= old(bytes).len(),
    ensures
        final(bytes)@ == old(bytes)@.skip(len as int),
        r is Ok <==> cstring_len(old(bytes)@.take(len as int)) < len,
        r matches Ok(s) ==> s@ == latin1_text(
            old(bytes)@.take(cstring_len(old(bytes)@.take(len as int)) as int),
        ),
{
    let ghost whole = bytes@;
    let mut field = bytes.split_off(len);
    std::mem::swap(bytes, &mut field);
    assert(field@ =~= whole.take(len as int));
    assert(bytes@ =~= whole.skip(len as int));
    let mut i: usize = 0;
    while i < len && field[i] != 0
        invariant
            i <= len,
            field@.len() == len,
            forall|j: int| 0 <= j < i ==> field@[j] != 0,
        decreases len - i,
    {
        i = i + 1;
    }
    proof {
        lemma_cstring_len_skip(field@, i as int);
        if i < len {
            assert(field@.skip(i as int)[0] == 0);
        } else {
            assert(field@.skip(i as int).len() == 0);
        }
    }
    if i == len {
        return Err(PaddedCStringError);
    }
    let text = decode_latin1(vstd::slice::slice_subrange(field.as_slice(), 0, i));
    proof {
        assert(whole.take(i as int) =~= field@.subrange(0, i as int));
    }
    Ok(text)
}

/// A string of Latin-1 characters without NUL, written as a field of `len`
/// bytes, reads back as its first `len - 1` characters, whatever follows
/// the field.
pub proof fn lemma_padded_cstring_round_trip(s: Seq<char>, len: nat, rest: Seq<u8>)
    requires
        len >= 1,
        fits_latin1(s),
        forall|i: int| 0 <= i < s.len() ==> (#[trigger] s[i] as u32) != 0,
    ensures
        cstring_len((padded_cstring(s, len) + rest).take(len as int)) < len,
        latin1_text(
            (padded_cstring(s, len) + rest).take(
                cstring_len((padded_cstring(s, len) + rest).take(len as int)) as int,
            ),
        ) == s.take(if s.len() < len - 1 { s.len() as int } else { len - 1 }),
{
    let k: int = if s.len() < len - 1 { s.len() as int } else { len - 1 };
    let p = padded_cstring(s, len);
    let field = (p + rest).take(len as int);
    assert(field =~= p);
    assert forall|j: int| 0 <= j < k implies field[j] != 0 by {
        let c = s[j];
        let x: u32 = c as u32;
        assert(x <= 0xFF && x != 0);
        assert(field[j] == latin1_byte(c));
        assert((x as u8) != 0) by (bit_vector)
            requires
                x <= 0xFF,
                x != 0,
        ;
    }
    lemma_cstring_len_skip(field, k);
    assert(field.skip(k)[0] == 0);
    assert(cstring_len(field) == k);
    assert(latin1_text((p + rest).take(k)) =~= s.take(k)) by {
        assert forall|j: int| 0 <= j < k implies #[trigger] latin1_text((p + rest).take(k))[j] == s[j] by {
            let c = s[j];
            let x: u32 = c as u32;
            let b = latin1_byte(c);
            assert(x <= 0xFF);
            assert(b as u32 == x) by (bit_vector)
                requires
                    x <= 0xFF,
                    b == x as u8,
            ;
            assert((p + rest).take(k)[j] == b);
            vstd::utf8::char_u32_cast(c, x);
            assert((b as char) == (x as char));
        }
    }
}

} // verus!
