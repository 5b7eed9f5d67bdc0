//! The two forms in which a table stores an image.

use vstd::prelude::*;
use crate::vpx::text::{chars_of, push_char};

verus! {

/// An image stored as the bytes of its file (jpeg, png, webp, ...).
#[derive(PartialEq, Eq, Debug, Clone)]
pub struct ImageDataJpeg {
    pub path: String,
    pub name: String,
    /// Lowercased name; no longer in use.
    pub internal_name: Option<String>,
    pub data: Vec<u8>,
}

/// A bitmap blob, typically used by textures: LZW compressed raw BMP
/// 32-bit sBGRA bitmap data, whose alpha channel is expected to be 255.
#[derive(PartialEq, Eq, Debug, Clone)]
pub struct ImageDataBits {
    pub lzw_compressed_data: Vec<u8>,
}

/// Whether `s` has a `'.'` at `i` and none after it.
pub open spec fn is_last_dot(s: Seq<char>, i: int) -> bool {
    &&& 0 <= i < s.len()
    &&& s[i] == '.'
    &&& forall|j: int| i < j < s.len() ==> s[j] != '.'
}

/// The extension of an image path: what follows its last `'.'`, or the
/// whole path when it has none.
pub open spec fn path_ext(path: Seq<char>) -> Seq<char> {
    if exists|i: int| is_last_dot(path, i) {
        path.skip((choose|i: int| is_last_dot(path, i)) + 1)
    } else {
        path
    }
}

/// There is at most one last dot.
proof fn lemma_last_dot_unique(s: Seq<char>, i: int, k: int)
    requires
        is_last_dot(s, i),
        is_last_dot(s, k),
    ensures
        i == k,
{
}

/// The extension of the image file at `path`: what follows its last `'.'`,
/// or the whole path when it has none.
pub fn ext(path: &str) -> (r: String)
    ensures
        r@ == path_ext(path@),
{
    let chars = chars_of(path);
    let mut start: usize = 0;
    let mut i: usize = 0;
    while i < chars.len()
        invariant
            i <= chars.len(),
            chars@ == path@,
            start <= i,
            start == 0 ==> forall|j: int| 0 <= j < i ==> chars@[j] != '.',
            start > 0 ==> chars@[start - 1] == '.' && forall|j: int| start <= j < i ==> chars@[j] != '.',
        decreases chars.len() - i,
    {
        if chars[i] == '.' {
            start = i + 1;
        }
        i = i + 1;
    }
    proof {
        if start > 0 {
            assert(is_last_dot(path@, start - 1));
            let k = choose|k: int| is_last_dot(path@, k);
            lemma_last_dot_unique(path@, start - 1, k);
        } else {
            assert(!exists|k: int| is_last_dot(path@, k));
            assert(path@.skip(0) =~= path@);
        }
    }
    let mut out = String::new();
    let mut j: usize = start;
    while j < chars.len()
        invariant
            start <= j <= chars.len(),
            chars@ == path@,
            out@ == path@.subrange(start as int, j as int),
        decreases chars.len() - j,
    {
        push_char(&mut out, chars[j]);
        j = j + 1;
        assert(out@ =~= path@.subrange(start as int, j as int));
    }
    assert(path@.subrange(start as int, path@.len() as int) =~= path@.skip(start as int));
    out
}

/// `c` in lower case when it is an ASCII upper-case letter.
pub open spec fn ascii_lower(c: char) -> char {
    if 'A' <= c && c <= 'Z' {
        ((c as u32) + 32) as char
    } else {
        c
    }
}

/// Whether the image file at `path` is a bitmap: its extension is `bmp` in
/// any case.
pub fn is_bmp(path: &str) -> (r: bool)
    ensures
        r == (path_ext(path@).len() == 3 && ascii_lower(path_ext(path@)[0]) == 'b' && ascii_lower(
            path_ext(path@)[1],
        ) == 'm' && ascii_lower(path_ext(path@)[2]) == 'p'),
{
    let e = ext(path);
    let chars = chars_of(e.as_str());
    chars.len() == 3 && (chars[0] == 'b' || chars[0] == 'B') && (chars[1] == 'm' || chars[1] == 'M')
        && (chars[2] == 'p' || chars[2] == 'P')
}

/// Whether an image with the `link` field `link` is a link: the field is 1.
pub fn is_link(link: Option<u32>) -> (r: bool)
    ensures
        r == (link == Some(1u32)),
{
    match link {
        Some(v) => v == 1,
        None => false,
    }
}

} // verus!
