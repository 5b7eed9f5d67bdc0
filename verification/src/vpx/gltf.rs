//! The GLB container of glTF meshes: a 12-byte header, a JSON chunk padded
//! with spaces to a multiple of 4 bytes, and a binary chunk; and bounds
//! checks on the binary chunk.

use vstd::prelude::*;
use crate::vpx::obj::VpxFace;

verus! {

/// A range of the binary chunk that lies outside it.
#[derive(Debug, PartialEq, Eq, Clone)]
pub struct BinSliceError {
    /// What the range was meant to hold.
    pub what: String,
    pub offset: usize,
    pub len: usize,
    /// The length of the binary chunk.
    pub buffer_len: usize,
}

/// The `len` bytes of `bin_data` at `offset`, or an error when they do not
/// all lie inside it.
pub fn bin_slice<'a>(bin_data: &'a [u8], offset: usize, len: usize, what: &str) -> (r: Result<
    &'a [u8],
    BinSliceError,
>)
    ensures
        r is Ok <==> offset + len <= bin_data@.len(),
        r matches Ok(s) ==> s@ == bin_data@.subrange(offset as int, offset + len),
        r matches Err(e) ==> e.what@ == what@ && e.offset == offset && e.len == len
            && e.buffer_len == bin_data@.len(),
{
    if len <= bin_data.len() && offset <= bin_data.len() - len {
        Ok(&bin_data[offset..offset + len])
    } else {
        Err(BinSliceError { what: what.to_string(), offset, len, buffer_len: bin_data.len() })
    }
}

/// The bytes of `"glTF"`, which a GLB file starts with.
pub open spec fn glb_magic() -> Seq<u8> {
    seq![103u8, 108u8, 84u8, 70u8]
}

/// The type of the JSON chunk, `"JSON"`.
pub open spec fn glb_json_type() -> Seq<u8> {
    seq![74u8, 83u8, 79u8, 78u8]
}

/// The type of the binary chunk, `"BIN\0"`.
pub open spec fn glb_bin_type() -> Seq<u8> {
    seq![66u8, 73u8, 78u8, 0u8]
}

/// `v` as four bytes, least significant first.
pub open spec fn le_u32_bytes(v: u32) -> Seq<u8> {
    seq![
        (v % 256) as u8,
        ((v / 256) % 256) as u8,
        ((v / 65536) % 256) as u8,
        (v / 16777216) as u8,
    ]
}

/// The number held least significant byte first in the four bytes of `s`
/// at `at`.
pub open spec fn le_u32_at(s: Seq<u8>, at: int) -> int {
    s[at] + 256 * s[at + 1] + 65536 * s[at + 2] + 16777216 * s[at + 3]
}

/// The number of spaces that pad `len` bytes of JSON to a multiple of 4.
pub open spec fn json_padding(len: int) -> int {
    (4 - len % 4) % 4
}

/// The 12-byte header of a GLB file and the 8-byte header of its JSON
/// chunk, for JSON text of `json_len` bytes and a binary chunk of `bin_len`.
pub open spec fn glb_header(json_len: int, bin_len: int) -> Seq<u8> {
    let padded = json_len + json_padding(json_len);
    glb_magic() + le_u32_bytes(2) + le_u32_bytes((28 + padded + bin_len) as u32) + le_u32_bytes(
        padded as u32,
    ) + glb_json_type()
}

/// The GLB file of the JSON text `json` and the binary chunk `bin`.
pub open spec fn glb_image(json: Seq<u8>, bin: Seq<u8>) -> Seq<u8> {
    glb_header(json.len() as int, bin.len() as int) + (json + Seq::new(
        json_padding(json.len() as int) as nat,
        |i: int| 32u8,
    )) + (le_u32_bytes(bin.len() as u32) + glb_bin_type()) + bin
}

/// Why a GLB file cannot be read.
#[derive(Debug, PartialEq, Eq, Clone, Copy)]
pub enum GlbError {
    /// The file ends inside the header or a chunk header.
    UnexpectedEof,
    /// The file does not start with `"glTF"`.
    InvalidMagic,
    /// The header names a version other than 2.
    UnsupportedVersion(u32),
    /// The first chunk is not the JSON chunk.
    ExpectedJsonChunk,
    /// The second chunk is not the binary chunk.
    ExpectedBinChunk,
}

/// Where the JSON chunk of the GLB file `s` lies, as a start and a length,
/// or why the header cannot be read.
pub open spec fn glb_json_chunk_of(s: Seq<u8>) -> Result<(int, int), GlbError> {
    if s.len() < 4 {
        Err(GlbError::UnexpectedEof)
    } else if s.take(4) != glb_magic() {
        Err(GlbError::InvalidMagic)
    } else if s.len() < 8 {
        Err(GlbError::UnexpectedEof)
    } else if le_u32_at(s, 4) != 2 {
        Err(GlbError::UnsupportedVersion(le_u32_at(s, 4) as u32))
    } else if s.len() < 20 {
        Err(GlbError::UnexpectedEof)
    } else if s.subrange(16, 20) != glb_json_type() {
        Err(GlbError::ExpectedJsonChunk)
    } else {
        Ok((20, le_u32_at(s, 12)))
    }
}

/// Where the binary chunk of the GLB file `s` whose chunk header starts at
/// `pos` lies, as a start and a length, or why it cannot be read.
pub open spec fn glb_bin_chunk_of(s: Seq<u8>, pos: int) -> Result<(int, int), GlbError> {
    if pos + 4 > s.len() {
        Err(GlbError::UnexpectedEof)
    } else if pos + 8 > s.len() {
        Err(GlbError::UnexpectedEof)
    } else if s.subrange(pos + 4, pos + 8) != glb_bin_type() {
        Err(GlbError::ExpectedBinChunk)
    } else {
        Ok((pos + 8, le_u32_at(s, pos)))
    }
}

/// The four bytes of `s` at `at` read least significant first.
fn read_u32_le_at(s: &[u8], at: usize) -> (r: u32)
    requires
        at + 4 <= s.len(),
    ensures
        r == le_u32_at(s@, at as int),
{
    s[at] as u32 + (s[at + 1] as u32) * 256 + (s[at + 2] as u32) * 65536 + (s[at + 3] as u32)
        * 16777216
}

/// Whether the four bytes of `s` at `at` are `tag`.
fn has_tag(s: &[u8], at: usize, tag: [u8; 4]) -> (r: bool)
    requires
        at + 4 <= s.len(),
    ensures
        r == (s@.subrange(at as int, at + 4) == tag@),
{
    let r = s[at] == tag[0] && s[at + 1] == tag[1] && s[at + 2] == tag[2] && s[at + 3] == tag[3];
    proof {
        if r {
            assert(s@.subrange(at as int, at + 4) =~= tag@);
        } else {
            if s@.subrange(at as int, at + 4) == tag@ {
                assert(s@.subrange(at as int, at + 4)[0] == tag@[0]);
                assert(s@.subrange(at as int, at + 4)[1] == tag@[1]);
                assert(s@.subrange(at as int, at + 4)[2] == tag@[2]);
                assert(s@.subrange(at as int, at + 4)[3] == tag@[3]);
            }
        }
    }
    r
}

/// Reads the header of the GLB file `glb`: where its JSON chunk lies, as a
/// start and a length. The chunk itself may run past the end of `glb`.
pub fn glb_json_chunk(glb: &[u8]) -> (r: Result<(usize, usize), GlbError>)
    ensures
        match r {
            Ok((start, len)) => glb_json_chunk_of(glb@) == Ok::<(int, int), GlbError>((start as int, len as int)),
            Err(e) => glb_json_chunk_of(glb@) == Err::<(int, int), GlbError>(e),
        },
{
    if glb.len() < 4 {
        return Err(GlbError::UnexpectedEof);
    }
    proof {
        assert(glb@.take(4) =~= glb@.subrange(0, 4));
        assert([103u8, 108u8, 84u8, 70u8]@ =~= glb_magic());
    }
    if !has_tag(glb, 0, [103u8, 108u8, 84u8, 70u8]) {
        return Err(GlbError::InvalidMagic);
    }
    if glb.len() < 8 {
        return Err(GlbError::UnexpectedEof);
    }
    let version = read_u32_le_at(glb, 4);
    if version != 2 {
        return Err(GlbError::UnsupportedVersion(version));
    }
    if glb.len() < 20 {
        return Err(GlbError::UnexpectedEof);
    }
    let _total_length = read_u32_le_at(glb, 8);
    let json_length = read_u32_le_at(glb, 12) as usize;
    proof {
        assert([74u8, 83u8, 79u8, 78u8]@ =~= glb_json_type());
    }
    if !has_tag(glb, 16, [74u8, 83u8, 79u8, 78u8]) {
        return Err(GlbError::ExpectedJsonChunk);
    }
    Ok((20, json_length))
}

/// Reads the header of the binary chunk of the GLB file `glb`, which starts
/// at `pos`, just after the JSON chunk: where the chunk lies, as a start and
/// a length. The chunk itself may run past the end of `glb`.
pub fn glb_bin_chunk(glb: &[u8], pos: usize) -> (r: Result<(usize, usize), GlbError>)
    ensures
        match r {
            Ok((start, len)) => glb_bin_chunk_of(glb@, pos as int) == Ok::<(int, int), GlbError>((start as int, len as int)),
            Err(e) => glb_bin_chunk_of(glb@, pos as int) == Err::<(int, int), GlbError>(e),
        },
{
    if glb.len() < 4 || pos > glb.len() - 4 {
        return Err(GlbError::UnexpectedEof);
    }
    let bin_length = read_u32_le_at(glb, pos) as usize;
    if glb.len() < 8 || pos > glb.len() - 8 {
        return Err(GlbError::UnexpectedEof);
    }
    proof {
        assert([66u8, 73u8, 78u8, 0u8]@ =~= glb_bin_type());
    }
    if !has_tag(glb, pos + 4, [66u8, 73u8, 78u8, 0u8]) {
        return Err(GlbError::ExpectedBinChunk);
    }
    Ok((pos + 8, bin_length))
}

/// Four bytes written least significant first read back as the number.
pub proof fn lemma_le_u32_round_trip(v: u32, s: Seq<u8>, at: int)
    requires
        0 <= at,
        at + 4 <= s.len(),
        s.subrange(at, at + 4) == le_u32_bytes(v),
    ensures
        le_u32_at(s, at) == v,
{
    assert(s[at] == s.subrange(at, at + 4)[0]);
    assert(s[at + 1] == s.subrange(at, at + 4)[1]);
    assert(s[at + 2] == s.subrange(at, at + 4)[2]);
    assert(s[at + 3] == s.subrange(at, at + 4)[3]);
    let b0 = v % 256;
    let b1 = (v / 256) % 256;
    let b2 = (v / 65536) % 256;
    let b3 = v / 16777216;
    assert(b0 + 256 * b1 + 65536 * b2 + 16777216 * b3 == v) by (nonlinear_arith)
        requires
            b0 == v % 256,
            b1 == (v / 256) % 256,
            b2 == (v / 65536) % 256,
            b3 == v / 16777216,
    ;
}

/// Appends `v` least significant byte first.
fn push_u32_le(out: &mut Vec<u8>, v: u32)
    ensures
        final(out)@ == old(out)@ + le_u32_bytes(v),
{
    out.push((v % 256) as u8);
    out.push(((v / 256) % 256) as u8);
    out.push(((v / 65536) % 256) as u8);
    out.push((v / 16777216) as u8);
    assert(final(out)@ =~= old(out)@ + le_u32_bytes(v));
}

/// Appends the bytes of `bytes`.
fn push_all(out: &mut Vec<u8>, bytes: &[u8])
    ensures
        final(out)@ == old(out)@ + bytes@,
{
    let mut i: usize = 0;
    while i < bytes.len()
        invariant
            i <= bytes.len(),
            out@ == old(out)@ + bytes@.take(i as int),
        decreases bytes.len() - i,
    {
        out.push(bytes[i]);
        i = i + 1;
        assert(out@ =~= old(out)@ + bytes@.take(i as int));
    }
    assert(bytes@.take(bytes.len() as int) =~= bytes@);
}

/// The GLB file of the JSON text `json` and the binary chunk `bin`: the
/// header, the JSON chunk padded with spaces to a multiple of 4 bytes, and
/// the binary chunk.
pub fn glb_bytes(json: &[u8], bin: &[u8]) -> (r: Vec<u8>)
    requires
        28 + json.len() + json_padding(json.len() as int) + bin.len() <= u32::MAX,
    ensures
        r@ == glb_image(json@, bin@),
{
    let json_padding: usize = (4 - json.len() % 4) % 4;
    let json_padded_length = json.len() + json_padding;
    let total_length: u32 = 12 + 8 + json_padded_length as u32 + 8 + bin.len() as u32;
    let mut out: Vec<u8> = Vec::new();
    push_all(&mut out, &[103u8, 108u8, 84u8, 70u8]);
    push_u32_le(&mut out, 2);
    push_u32_le(&mut out, total_length);
    push_u32_le(&mut out, json_padded_length as u32);
    push_all(&mut out, &[74u8, 83u8, 79u8, 78u8]);
    push_all(&mut out, json);
    let ghost before_pad = out@;
    let mut k: usize = 0;
    while k < json_padding
        invariant
            k <= json_padding,
            out@ == before_pad + Seq::new(k as nat, |i: int| 32u8),
        decreases json_padding - k,
    {
        out.push(32u8);
        k = k + 1;
        assert(out@ =~= before_pad + Seq::new(k as nat, |i: int| 32u8));
    }
    push_u32_le(&mut out, bin.len() as u32);
    push_all(&mut out, &[66u8, 73u8, 78u8, 0u8]);
    push_all(&mut out, bin);
    proof {
        assert([103u8, 108u8, 84u8, 70u8]@ =~= glb_magic());
        assert([74u8, 83u8, 79u8, 78u8]@ =~= glb_json_type());
        assert([66u8, 73u8, 78u8, 0u8]@ =~= glb_bin_type());
        assert(out@ =~= glb_image(json@, bin@));
    }
    out
}

/// Reading a GLB file that [`glb_bytes`] wrote finds its JSON chunk, the
/// JSON text followed by its padding, and its binary chunk again.
pub proof fn lemma_glb_round_trip(json: Seq<u8>, bin: Seq<u8>)
    requires
        28 + json.len() + json_padding(json.len() as int) + bin.len() <= u32::MAX,
    ensures
        ({
            let glb = glb_image(json, bin);
            let padded = json.len() + json_padding(json.len() as int);
            &&& glb_json_chunk_of(glb) == Ok::<(int, int), GlbError>((20, padded as int))
            &&& glb.subrange(20, 20 + padded) == json + Seq::new(
                json_padding(json.len() as int) as nat,
                |i: int| 32u8,
            )
            &&& glb_bin_chunk_of(glb, 20 + padded) == Ok::<(int, int), GlbError>(
                (28 + padded, bin.len() as int),
            )
            &&& glb.subrange(28 + padded, 28 + padded + bin.len()) == bin
        }),
{
    let glb = glb_image(json, bin);
    let pad = json_padding(json.len() as int);
    let padded = json.len() + pad;
    let head = glb_header(json.len() as int, bin.len() as int);
    let text = json + Seq::new(pad as nat, |i: int| 32u8);
    let tail = le_u32_bytes(bin.len() as u32) + glb_bin_type();
    assert(head.len() == 20 && text.len() == padded && tail.len() == 8);
    assert(glb.take(4) =~= glb_magic()) by {
        assert(head.take(4) =~= glb_magic());
    }
    assert(glb.subrange(4, 8) =~= le_u32_bytes(2)) by {
        assert(head.subrange(4, 8) =~= le_u32_bytes(2));
    }
    lemma_le_u32_round_trip(2, glb, 4);
    assert(glb.subrange(12, 16) =~= le_u32_bytes(padded as u32)) by {
        assert(head.subrange(12, 16) =~= le_u32_bytes(padded as u32));
    }
    lemma_le_u32_round_trip(padded as u32, glb, 12);
    assert(glb.subrange(16, 20) =~= glb_json_type()) by {
        assert(head.subrange(16, 20) =~= glb_json_type());
    }
    assert(glb.subrange(20, 20 + padded) =~= text);
    assert(glb.subrange(20 + padded, 24 + padded) =~= le_u32_bytes(bin.len() as u32)) by {
        assert(tail.subrange(0, 4) =~= le_u32_bytes(bin.len() as u32));
    }
    lemma_le_u32_round_trip(bin.len() as u32, glb, 20 + padded);
    assert(glb.subrange(24 + padded, 28 + padded) =~= glb_bin_type()) by {
        assert(tail.subrange(4, 8) =~= glb_bin_type());
    }
    assert(glb.subrange(28 + padded, 28 + padded + bin.len()) =~= bin);
}

/// The header of a GLB file that [`glb_bytes`] wrote starts with `glTF`
/// and names version 2 and the length of the whole file; the JSON chunk,
/// of type `JSON`, has the length of the text rounded up to a multiple of
/// 4, the padding being spaces; the binary chunk, of type `BIN\0`, has the
/// length of the binary data.
#[verifier::spinoff_prover]
#[verifier::rlimit(40)]
pub proof fn lemma_glb_header_fields(json: Seq<u8>, bin: Seq<u8>)
    requires
        28 + json.len() + json_padding(json.len() as int) + bin.len() <= u32::MAX,
    ensures
        ({
            let glb = glb_image(json, bin);
            &&& le_u32_at(glb, 4) == 2
            &&& le_u32_at(glb, 8) == glb.len()
            &&& le_u32_at(glb, 12) % 4 == 0
            &&& json.len() <= le_u32_at(glb, 12) < json.len() + 4
            &&& forall|i: int| json.len() + 20 <= i < le_u32_at(glb, 12) + 20 ==> #[trigger] glb[i] == 32u8
            &&& glb.subrange(0, 4) == seq![103u8, 108u8, 84u8, 70u8]
            &&& glb.subrange(16, 20) == seq![74u8, 83u8, 79u8, 78u8]
            &&& le_u32_at(glb, 20 + le_u32_at(glb, 12)) == bin.len()
            &&& glb.subrange(24 + le_u32_at(glb, 12), 28 + le_u32_at(glb, 12)) == seq![66u8, 73u8, 78u8, 0u8]
        }),
{
    let glb = glb_image(json, bin);
    let pad = json_padding(json.len() as int);
    let padded = json.len() + pad;
    let head = glb_header(json.len() as int, bin.len() as int);
    let text = json + Seq::new(pad as nat, |i: int| 32u8);
    let tail = le_u32_bytes(bin.len() as u32) + glb_bin_type();
    assert(head.len() == 20 && text.len() == padded && tail.len() == 8);
    assert(0 <= pad < 4 && padded % 4 == 0);
    assert(glb.len() == 28 + padded + bin.len());
    assert(glb.subrange(4, 8) =~= le_u32_bytes(2)) by {
        assert(head.subrange(4, 8) =~= le_u32_bytes(2));
    }
    lemma_le_u32_round_trip(2, glb, 4);
    assert(glb.subrange(8, 12) =~= le_u32_bytes((28 + padded + bin.len()) as u32)) by {
        assert(head.subrange(8, 12) =~= le_u32_bytes((28 + padded + bin.len()) as u32));
    }
    lemma_le_u32_round_trip((28 + padded + bin.len()) as u32, glb, 8);
    assert(glb.subrange(12, 16) =~= le_u32_bytes(padded as u32)) by {
        assert(head.subrange(12, 16) =~= le_u32_bytes(padded as u32));
    }
    lemma_le_u32_round_trip(padded as u32, glb, 12);
    assert(glb.subrange(0, 4) =~= seq![103u8, 108u8, 84u8, 70u8]) by {
        assert(head.subrange(0, 4) =~= glb_magic());
    }
    assert(glb.subrange(16, 20) =~= seq![74u8, 83u8, 79u8, 78u8]) by {
        assert(head.subrange(16, 20) =~= glb_json_type());
    }
    assert(glb.subrange(20 + padded, 24 + padded) =~= le_u32_bytes(bin.len() as u32)) by {
        assert(tail.subrange(0, 4) =~= le_u32_bytes(bin.len() as u32));
    }
    lemma_le_u32_round_trip(bin.len() as u32, glb, 20 + padded);
    assert(glb.subrange(24 + padded, 28 + padded) =~= seq![66u8, 73u8, 78u8, 0u8]) by {
        assert(tail.subrange(4, 8) =~= glb_bin_type());
    }
    let front = head + text;
    assert(glb == front + tail + bin);
    assert forall|i: int| json.len() + 20 <= i < le_u32_at(glb, 12) + 20 implies #[trigger] glb[i] == 32u8 by {
        assert(glb[i] == front[i]);
        assert(front[i] == text[i - 20]);
    }
}

/// The two bytes of `v`, least significant first.
pub open spec fn le_u16_bytes(v: u16) -> Seq<u8> {
    seq![(v % 256) as u8, (v / 256) as u8]
}

/// The corners of `f` in the order they are written: the last two swapped
/// when the winding is reversed.
pub open spec fn written_corners(f: VpxFace, reverse_winding: bool) -> (i64, i64, i64) {
    if reverse_winding {
        (f.i0, f.i2, f.i1)
    } else {
        (f.i0, f.i1, f.i2)
    }
}

/// The bytes of one triangle in a glTF index buffer: its three corners as
/// 32-bit or as 16-bit little-endian numbers, each index taken modulo the
/// width.
pub open spec fn face_index_bytes(f: VpxFace, wide: bool, reverse_winding: bool) -> Seq<u8> {
    let (a, b, c) = written_corners(f, reverse_winding);
    if wide {
        le_u32_bytes(a as u32) + le_u32_bytes(b as u32) + le_u32_bytes(c as u32)
    } else {
        le_u16_bytes(a as u16) + le_u16_bytes(b as u16) + le_u16_bytes(c as u16)
    }
}

/// The index buffer of `faces`, one triangle after the other.
pub open spec fn index_bytes(faces: Seq<VpxFace>, wide: bool, reverse_winding: bool) -> Seq<u8>
    decreases faces.len(),
{
    if faces.len() == 0 {
        Seq::empty()
    } else {
        index_bytes(faces.drop_last(), wide, reverse_winding) + face_index_bytes(
            faces.last(),
            wide,
            reverse_winding,
        )
    }
}

/// `s` followed by the zeros that bring its length to a multiple of 4.
pub open spec fn pad_to_4(s: Seq<u8>) -> Seq<u8> {
    s + Seq::new(((4 - s.len() % 4) % 4) as nat, |i: int| 0u8)
}

/// The number held least significant byte first in the two bytes of `s`
/// at `at`.
pub open spec fn le_u16_at(s: Seq<u8>, at: int) -> int {
    s[at] + 256 * s[at + 1]
}

/// The bytes of the `k`-th triangle of an index buffer.
proof fn lemma_index_bytes_slice(faces: Seq<VpxFace>, wide: bool, reverse_winding: bool, k: int)
    requires
        0 <= k < faces.len(),
    ensures
        index_bytes(faces, wide, reverse_winding).len() == faces.len() * (if wide { 12int } else { 6int }),
        index_bytes(faces, wide, reverse_winding).subrange(
            k * (if wide { 12int } else { 6int }),
            (k + 1) * (if wide { 12int } else { 6int }),
        ) == face_index_bytes(faces[k], wide, reverse_winding),
    decreases faces.len(),
{
    let w: int = if wide { 12 } else { 6 };
    let prev = faces.drop_last();
    let all = index_bytes(faces, wide, reverse_winding);
    let last = face_index_bytes(faces.last(), wide, reverse_winding);
    assert(last.len() == w);
    if prev.len() > 0 {
        if k < prev.len() {
            lemma_index_bytes_slice(prev, wide, reverse_winding, k);
        } else {
            lemma_index_bytes_slice(prev, wide, reverse_winding, 0);
        }
    } else {
        assert(index_bytes(prev, wide, reverse_winding) == Seq::<u8>::empty());
    }
    let before = index_bytes(prev, wide, reverse_winding);
    assert(before.len() == prev.len() * w);
    assert(all == before + last);
    assert(all.len() == faces.len() * w) by (nonlinear_arith)
        requires
            all.len() == before.len() + w,
            before.len() == prev.len() * w,
            faces.len() == prev.len() + 1,
    ;
    assert(k * w + w == (k + 1) * w) by (nonlinear_arith);
    if k < prev.len() {
        assert(k * w + w <= prev.len() * w) by (nonlinear_arith)
            requires
                k + 1 <= prev.len(),
                w > 0,
        ;
        assert(all.subrange(k * w, (k + 1) * w) =~= before.subrange(k * w, (k + 1) * w));
        assert(prev[k] == faces[k]);
    } else {
        assert(k * w == before.len()) by (nonlinear_arith)
            requires
                k == prev.len(),
                before.len() == prev.len() * w,
        ;
        assert(all.subrange(k * w, (k + 1) * w) =~= last);
    }
}

/// The two bytes of `v` read back as `v`.
proof fn lemma_le_u16_round_trip(v: u16, s: Seq<u8>, at: int)
    requires
        0 <= at,
        at + 2 <= s.len(),
        s.subrange(at, at + 2) == le_u16_bytes(v),
    ensures
        le_u16_at(s, at) == v,
{
    assert(s[at] == s.subrange(at, at + 2)[0]);
    assert(s[at + 1] == s.subrange(at, at + 2)[1]);
    let b0 = v % 256;
    let b1 = v / 256;
    assert(b0 + 256 * b1 == v) by (nonlinear_arith)
        requires
            b0 == v % 256,
            b1 == v / 256,
    ;
}

/// An index buffer read back: triangle `k` sits at bytes `12 k` (32-bit
/// indices) or `6 k` (16-bit ones), and its three numbers are its first
/// corner, then its second and third, or its third and second when the
/// winding is reversed, each taken modulo the width. Both widths hold the
/// same corners in the same order.
pub proof fn lemma_index_bytes_read_back(faces: Seq<VpxFace>, wide: bool, reverse_winding: bool, k: int)
    requires
        0 <= k < faces.len(),
    ensures
        ({
            let r = index_bytes(faces, wide, reverse_winding);
            let f = faces[k];
            let second = if reverse_winding { f.i2 } else { f.i1 };
            let third = if reverse_winding { f.i1 } else { f.i2 };
            &&& wide ==> {
                &&& r.len() == 12 * faces.len()
                &&& le_u32_at(r, 12 * k) == f.i0 as u32
                &&& le_u32_at(r, 12 * k + 4) == second as u32
                &&& le_u32_at(r, 12 * k + 8) == third as u32
            }
            &&& !wide ==> {
                &&& r.len() == 6 * faces.len()
                &&& le_u16_at(r, 6 * k) == f.i0 as u16
                &&& le_u16_at(r, 6 * k + 2) == second as u16
                &&& le_u16_at(r, 6 * k + 4) == third as u16
            }
        }),
{
    let r = index_bytes(faces, wide, reverse_winding);
    let f = faces[k];
    lemma_index_bytes_slice(faces, wide, reverse_winding, k);
    let (a, b, c) = written_corners(f, reverse_winding);
    if wide {
        let piece = r.subrange(12 * k, 12 * k + 12);
        assert((k + 1) * 12 == 12 * k + 12) by (nonlinear_arith);
        assert(k * 12 == 12 * k) by (nonlinear_arith);
        assert(piece == face_index_bytes(f, true, reverse_winding));
        assert(r.subrange(12 * k, 12 * k + 4) =~= le_u32_bytes(a as u32)) by {
            assert(piece.subrange(0, 4) =~= le_u32_bytes(a as u32));
        }
        assert(r.subrange(12 * k + 4, 12 * k + 8) =~= le_u32_bytes(b as u32)) by {
            assert(piece.subrange(4, 8) =~= le_u32_bytes(b as u32));
        }
        assert(r.subrange(12 * k + 8, 12 * k + 12) =~= le_u32_bytes(c as u32)) by {
            assert(piece.subrange(8, 12) =~= le_u32_bytes(c as u32));
        }
        lemma_le_u32_round_trip(a as u32, r, 12 * k);
        lemma_le_u32_round_trip(b as u32, r, 12 * k + 4);
        lemma_le_u32_round_trip(c as u32, r, 12 * k + 8);
    } else {
        let piece = r.subrange(6 * k, 6 * k + 6);
        assert((k + 1) * 6 == 6 * k + 6) by (nonlinear_arith);
        assert(k * 6 == 6 * k) by (nonlinear_arith);
        assert(piece == face_index_bytes(f, false, reverse_winding));
        assert(r.subrange(6 * k, 6 * k + 2) =~= le_u16_bytes(a as u16)) by {
            assert(piece.subrange(0, 2) =~= le_u16_bytes(a as u16));
        }
        assert(r.subrange(6 * k + 2, 6 * k + 4) =~= le_u16_bytes(b as u16)) by {
            assert(piece.subrange(2, 4) =~= le_u16_bytes(b as u16));
        }
        assert(r.subrange(6 * k + 4, 6 * k + 6) =~= le_u16_bytes(c as u16)) by {
            assert(piece.subrange(4, 6) =~= le_u16_bytes(c as u16));
        }
        lemma_le_u16_round_trip(a as u16, r, 6 * k);
        lemma_le_u16_round_trip(b as u16, r, 6 * k + 2);
        lemma_le_u16_round_trip(c as u16, r, 6 * k + 4);
    }
}

/// The index section keeps the index buffer in front and pads it with zeros
/// to the next multiple of 4 bytes.
pub proof fn lemma_pad_to_4(s: Seq<u8>)
    ensures
        pad_to_4(s).len() % 4 == 0,
        s.len() <= pad_to_4(s).len() < s.len() + 4,
        pad_to_4(s).take(s.len() as int) == s,
        forall|i: int| s.len() <= i < pad_to_4(s).len() ==> #[trigger] pad_to_4(s)[i] == 0u8,
{
    assert(pad_to_4(s).take(s.len() as int) =~= s);
}

/// Appends the two bytes of `v`, least significant first.
fn push_u16_le(out: &mut Vec<u8>, v: u16)
    ensures
        final(out)@ == old(out)@ + le_u16_bytes(v),
{
    out.push((v % 256) as u8);
    out.push((v / 256) as u8);
    assert(final(out)@ =~= old(out)@ + le_u16_bytes(v));
}

/// The index section of a glTF binary buffer for a mesh of `vertex_count`
/// vertices: each triangle's corners, with the last two swapped when
/// `reverse_winding` (an axis map that flips handedness), as 16-bit numbers,
/// or 32-bit ones when there are more than 65535 vertices; then zeros up to
/// a multiple of 4 bytes. The sections before it hold 4-byte numbers, so
/// this is also the padding of the whole buffer.
pub fn gltf_index_bytes(faces: &[VpxFace], vertex_count: usize, reverse_winding: bool) -> (r: Vec<u8>)
    ensures
        r@ == pad_to_4(index_bytes(faces@, vertex_count > 65535, reverse_winding)),
{
    let wide = vertex_count > 65535;
    let mut out: Vec<u8> = Vec::new();
    let mut k: usize = 0;
    while k < faces.len()
        invariant
            k <= faces.len(),
            wide == (vertex_count > 65535),
            out@ == index_bytes(faces@.take(k as int), wide, reverse_winding),
        decreases faces.len() - k,
    {
        let f = faces[k];
        let (i1, i2) = if reverse_winding { (f.i2, f.i1) } else { (f.i1, f.i2) };
        let ghost before = out@;
        if wide {
            push_u32_le(&mut out, f.i0 as u32);
            push_u32_le(&mut out, i1 as u32);
            push_u32_le(&mut out, i2 as u32);
        } else {
            push_u16_le(&mut out, f.i0 as u16);
            push_u16_le(&mut out, i1 as u16);
            push_u16_le(&mut out, i2 as u16);
        }
        assert(faces@.take(k + 1).drop_last() =~= faces@.take(k as int));
        assert(out@ =~= before + face_index_bytes(f, wide, reverse_winding));
        k = k + 1;
    }
    assert(faces@.take(faces.len() as int) =~= faces@);
    let ghost body = out@;
    while out.len() % 4 != 0
        invariant
            body.len() <= out@.len() < body.len() + 4,
            out@ == body + Seq::new((out@.len() - body.len()) as nat, |i: int| 0u8),
            out@.len() % 4 != 0 ==> out@.len() - body.len() < (4 - body.len() % 4) % 4,
            out@.len() % 4 == 0 ==> out@.len() - body.len() == (4 - body.len() % 4) % 4,
        decreases 4 - (out@.len() - body.len()),
    {
        let ghost prev = out@;
        out.push(0);
        assert(out@ =~= body + Seq::new((out@.len() - body.len()) as nat, |i: int| 0u8));
    }
    out
}

} // verus!
