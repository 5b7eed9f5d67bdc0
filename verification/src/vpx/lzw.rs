//! LZW compression of the raw bitmaps that tables store, and the GIF block
//! framing around the compressed bytes.
//!
//! The compressed stream is cut into blocks of at most 254 bytes, each
//! preceded by its length, as GIF does. The codes themselves are produced
//! and read by weezl, least significant bit first with 8-bit symbols, which
//! Visual Pinball can read back.

use vstd::prelude::*;
use weezl::BitOrder;

verus! {

/// The bytes of a block-framed stream: each block is a length byte followed
/// by that many bytes. `None` when the last block is cut short.
pub open spec fn unblock(s: Seq<u8>) -> Option<Seq<u8>>
    decreases s.len(),
{
    if s.len() == 0 {
        Some(Seq::empty())
    } else {
        let n = s[0] as int;
        if 1 + n > s.len() {
            None
        } else {
            match unblock(s.skip(1 + n)) {
                Some(rest) => Some(s.subrange(1, 1 + n) + rest),
                None => None,
            }
        }
    }
}

/// `s` cut into blocks of `max_len` bytes, the last one shorter when the
/// length is not a multiple, each preceded by its length.
pub open spec fn blocks(s: Seq<u8>, max_len: u8) -> Seq<u8>
    recommends
        max_len > 0,
    decreases s.len(),
    when max_len > 0
{
    if s.len() == 0 {
        Seq::empty()
    } else {
        let k = if s.len() < max_len { s.len() as int } else { max_len as int };
        seq![k as u8] + s.take(k) + blocks(s.skip(k), max_len)
    }
}

/// Cutting into blocks and joining them again gives back the bytes.
pub proof fn lemma_unblock_blocks(s: Seq<u8>, max_len: u8)
    requires
        max_len > 0,
    ensures
        unblock(blocks(s, max_len)) == Some(s),
    decreases s.len(),
{
    if s.len() > 0 {
        let k = if s.len() < max_len { s.len() as int } else { max_len as int };
        let b = blocks(s, max_len);
        lemma_unblock_blocks(s.skip(k), max_len);
        assert(b[0] == k as u8);
        assert((k as u8) as int == k);
        assert(b.skip(1 + k) =~= blocks(s.skip(k), max_len));
        assert(b.subrange(1, 1 + k) =~= s.take(k));
        assert(s.take(k) + s.skip(k) =~= s);
    }
}

/// Bytes that fill whole blocks are framed apart from what follows them.
pub proof fn lemma_blocks_concat(a: Seq<u8>, b: Seq<u8>, max_len: u8)
    requires
        max_len > 0,
        (a.len() as int) % (max_len as int) == 0,
    ensures
        blocks(a + b, max_len) == blocks(a, max_len) + blocks(b, max_len),
    decreases a.len(),
{
    if a.len() == 0 {
        assert(a + b =~= b);
        assert(Seq::<u8>::empty() + blocks(b, max_len) =~= blocks(b, max_len));
    } else {
        let k = max_len as int;
        assert(a.len() >= k) by {
            vstd::arithmetic::div_mod::lemma_mod_self_0(k);
            if a.len() < k {
                vstd::arithmetic::div_mod::lemma_small_mod(a.len(), k as nat);
            }
        }
        vstd::arithmetic::div_mod::lemma_mod_sub_multiples_vanish(a.len() as int, k);
        lemma_blocks_concat(a.skip(k), b, max_len);
        assert((a + b).take(k) =~= a.take(k));
        assert((a + b).skip(k) =~= a.skip(k) + b);
        assert(seq![k as u8] + a.take(k) + (blocks(a.skip(k), max_len) + blocks(b, max_len))
            =~= (seq![k as u8] + a.take(k) + blocks(a.skip(k), max_len)) + blocks(b, max_len));
    }
}

/// Up to `max_len` bytes make one block.
pub proof fn lemma_blocks_single(s: Seq<u8>, max_len: u8)
    requires
        0 < s.len() <= max_len,
    ensures
        blocks(s, max_len) == seq![s.len() as u8] + s,
{
    let k = s.len() as int;
    assert(s.take(k) =~= s);
    assert(s.skip(k) =~= Seq::<u8>::empty());
    assert(blocks(s.skip(k), max_len) =~= Seq::<u8>::empty());
    assert(blocks(s, max_len) == seq![k as u8] + s.take(k) + blocks(s.skip(k), max_len));
    assert(seq![s.len() as u8] + s + Seq::<u8>::empty() =~= seq![s.len() as u8] + s);
}

/// Blocks laid out one after the other join to the concatenation of their bytes.
pub proof fn lemma_unblock_concat(a: Seq<u8>, b: Seq<u8>)
    requires
        unblock(a) is Some,
        unblock(b) is Some,
    ensures
        unblock(a + b) == Some(unblock(a)->0 + unblock(b)->0),
    decreases a.len(),
{
    if a.len() == 0 {
        assert(a + b =~= b);
        assert(Seq::<u8>::empty() + unblock(b)->0 =~= unblock(b)->0);
    } else {
        let n = a[0] as int;
        lemma_unblock_concat(a.skip(1 + n), b);
        assert((a + b).skip(1 + n) =~= a.skip(1 + n) + b);
        assert((a + b).subrange(1, 1 + n) =~= a.subrange(1, 1 + n));
        assert(a.subrange(1, 1 + n) + (unblock(a.skip(1 + n))->0 + unblock(b)->0)
            =~= (a.subrange(1, 1 + n) + unblock(a.skip(1 + n))->0) + unblock(b)->0);
    }
}

/// Joins the blocks of a block-framed stream into continuous bytes.
pub fn from_blocks(framed: &[u8]) -> (r: Vec<u8>)
    requires
        unblock(framed@) is Some,
    ensures
        r@ == unblock(framed@)->0,
{
    let mut bytes: Vec<u8> = Vec::new();
    let mut i: usize = 0;
    proof {
        assert(framed@.skip(0) =~= framed@);
    }
    while i < framed.len()
        invariant
            i <= framed.len(),
            unblock(framed@.skip(i as int)) is Some,
            bytes@ + unblock(framed@.skip(i as int))->0 == unblock(framed@)->0,
        decreases framed.len() - i,
    {
        let ghost rest = framed@.skip(i as int);
        let block_size = framed[i] as usize;
        assert(rest[0] == framed@[i as int]);
        let ghost next = rest.skip(1 + block_size);
        assert(next =~= framed@.skip(i + 1 + block_size));
        let ghost before = bytes@;
        let mut j: usize = 0;
        while j < block_size
            invariant
                j <= block_size,
                i + 1 + block_size <= framed.len(),
                bytes@ == before + framed@.subrange(i + 1, i + 1 + j),
            decreases block_size - j,
        {
            bytes.push(framed[i + 1 + j]);
            j = j + 1;
            assert(framed@.subrange(i + 1, i + 1 + j) =~= framed@.subrange(i + 1, i + j).push(
                framed@[i + j],
            ));
        }
        assert(rest.subrange(1, 1 + block_size as int) =~= framed@.subrange(
            i + 1,
            i + 1 + block_size,
        ));
        i = i + 1 + block_size;
        assert(before + (rest.subrange(1, 1 + block_size as int) + unblock(next)->0) =~= bytes@
            + unblock(next)->0);
    }
    proof {
        assert(framed@.skip(i as int) =~= Seq::<u8>::empty());
        assert(bytes@ + Seq::<u8>::empty() =~= bytes@);
    }
    bytes
}

/// Cuts bytes into blocks of at most `max_block_len` bytes, each preceded
/// by its length; typically `max_block_len` is 254.
pub fn to_blocks(compressed: &[u8], max_block_len: u8) -> (r: Vec<u8>)
    requires
        max_block_len > 0,
    ensures
        r@ == blocks(compressed@, max_block_len),
{
    let mut framed: Vec<u8> = Vec::new();
    let mut i: usize = 0;
    let len = compressed.len();
    proof {
        assert(compressed@.skip(0) =~= compressed@);
    }
    while i < len
        invariant
            i <= len,
            len == compressed@.len(),
            max_block_len > 0,
            framed@ + blocks(compressed@.skip(i as int), max_block_len) == blocks(
                compressed@,
                max_block_len,
            ),
        decreases len - i,
    {
        let ghost rest = compressed@.skip(i as int);
        let k: usize = if len - i < max_block_len as usize {
            len - i
        } else {
            max_block_len as usize
        };
        let ghost before = framed@;
        framed.push(k as u8);
        let mut j: usize = 0;
        while j < k
            invariant
                j <= k,
                i + k <= len,
                len == compressed@.len(),
                framed@ == before.push(k as u8) + compressed@.subrange(i as int, i + j),
            decreases k - j,
        {
            framed.push(compressed[i + j]);
            j = j + 1;
            assert(compressed@.subrange(i as int, i + j) =~= compressed@.subrange(
                i as int,
                i + j - 1,
            ).push(compressed@[i + j - 1]));
        }
        assert(rest.take(k as int) =~= compressed@.subrange(i as int, i + k));
        assert(rest.skip(k as int) =~= compressed@.skip(i + k));
        assert(before + blocks(rest, max_block_len) =~= framed@ + blocks(
            rest.skip(k as int),
            max_block_len,
        ));
        i = i + k;
    }
    proof {
        assert(compressed@.skip(i as int) =~= Seq::<u8>::empty());
        assert(framed@ + Seq::<u8>::empty() =~= framed@);
    }
    framed
}

/// Names the bytes that weezl's encoder, least significant bit first with
/// 8-bit symbols, produces for `data`: a clear code, the codes, an end code.
pub uninterp spec fn weezl_lsb8_encode(data: Seq<u8>) -> Seq<u8>;

/// Names what weezl's decoder, least significant bit first with 8-bit
/// symbols, produces for `compressed`: `None` when the stream holds an
/// invalid code or no end code.
pub uninterp spec fn weezl_lsb8_decode(compressed: Seq<u8>) -> Option<Seq<u8>>;

/// What [`from_lzw_blocks`] gives for a block-framed stream: the blocks
/// joined and decoded, `None` when either step fails.
pub open spec fn lzw_blocks_decode(framed: Seq<u8>) -> Option<Seq<u8>> {
    match unblock(framed) {
        Some(compressed) => weezl_lsb8_decode(compressed),
        None => None,
    }
}

/// `weezl::encode::Encoder::encode` with `BitOrder::Lsb` and 8-bit symbols.
/// Its result is named [`weezl_lsb8_encode`]; the contract also claims that
/// a decoder with the same settings gives back `data`, as weezl documents.
/// The encoder cannot fail: with 8-bit symbols every byte has a code.
#[verifier::external_body]
fn to_lzw(data: &[u8]) -> (r: Vec<u8>)
    ensures
        r@ == weezl_lsb8_encode(data@),
        weezl_lsb8_decode(r@) == Some(data@),
{
    weezl::encode::Encoder::new(BitOrder::Lsb, 8).encode(data).unwrap()
}

/// `weezl::decode::Decoder::decode` with `BitOrder::Lsb` and 8-bit symbols,
/// with its error mapped to `None`. The contract claims only that the result
/// is the one named by [`weezl_lsb8_decode`].
#[verifier::external_body]
fn from_lzw(compressed: &[u8]) -> (r: Option<Vec<u8>>)
    ensures
        match r {
            Some(v) => weezl_lsb8_decode(compressed@) == Some(v@),
            None => weezl_lsb8_decode(compressed@) is None,
        },
{
    weezl::decode::Decoder::new(BitOrder::Lsb, 8).decode(compressed).ok()
}

/// Compresses raw bitmap bytes and cuts the result into blocks of at most
/// 254 bytes. Decoding the result gives back `data`.
pub fn to_lzw_blocks(data: &[u8]) -> (r: Vec<u8>)
    ensures
        r@ == blocks(weezl_lsb8_encode(data@), 254),
        lzw_blocks_decode(r@) == Some(data@),
{
    let compressed = to_lzw(data);
    proof {
        lemma_unblock_blocks(compressed@, 254);
    }
    to_blocks(compressed.as_slice(), 254)
}

/// Joins the blocks of a compressed bitmap and decodes them.
pub fn from_lzw_blocks(compressed: &[u8]) -> (r: Vec<u8>)
    requires
        lzw_blocks_decode(compressed@) is Some,
    ensures
        r@ == lzw_blocks_decode(compressed@)->0,
{
    let joined = from_blocks(compressed);
    match from_lzw(joined.as_slice()) {
        Some(v) => v,
        None => Vec::new(),
    }
}

/// [`from_lzw_blocks`] for any input: `None` when the last block is cut
/// short or the stream does not decode.
pub fn try_from_lzw_blocks(compressed: &[u8]) -> (r: Option<Vec<u8>>)
    ensures
        match r {
            Some(v) => lzw_blocks_decode(compressed@) == Some(v@),
            None => lzw_blocks_decode(compressed@) is None,
        },
{
    if !is_block_framed(compressed) {
        return None;
    }
    let joined = from_blocks(compressed);
    match from_lzw(joined.as_slice()) {
        Some(_) => Some(from_lzw_blocks(compressed)),
        None => None,
    }
}

/// Whether every block of a block-framed stream is complete.
pub fn is_block_framed(framed: &[u8]) -> (r: bool)
    ensures
        r == unblock(framed@) is Some,
{
    let mut i: usize = 0;
    proof {
        assert(framed@.skip(0) =~= framed@);
    }
    while i < framed.len()
        invariant
            i <= framed.len(),
            unblock(framed@.skip(i as int)) is Some <==> unblock(framed@) is Some,
        decreases framed.len() - i,
    {
        let ghost rest = framed@.skip(i as int);
        let n = framed[i] as usize;
        assert(rest[0] == framed@[i as int]);
        if n >= framed.len() - i {
            return false;
        }
        assert(rest.skip(1 + n) =~= framed@.skip(i + 1 + n));
        i = i + 1 + n;
    }
    assert(framed@.skip(i as int) =~= Seq::<u8>::empty());
    true
}

} // verus!
