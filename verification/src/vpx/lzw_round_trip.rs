//! What Visual Pinball's LZW decoder reads back of what its encoder writes.
//!
//! The bytes of a stream are a number, least significant byte first, and
//! the codes written, each at its width, are a number, first code lowest:
//! the encoder keeps the two equal, its accumulator having room for every
//! code, so the decoder reads each code where it was written. The
//! decoder's table then follows the encoder's dictionary one entry behind,
//! and decodes each code to the string it was written for.

use vstd::prelude::*;
use vstd::arithmetic::power2::{pow2, lemma_pow2_pos, lemma_pow2_adds, lemma2_to64};
use vstd::arithmetic::div_mod::{
    lemma_div_denominator, lemma_mod_breakdown, lemma_fundamental_div_mod_converse,
    lemma_div_pos_is_pos, lemma_mod_bound, lemma_small_mod,
};
use vstd::arithmetic::mul::lemma_mul_nonnegative;
use vstd::bits::{lemma_u16_shl_is_mul, lemma_u32_shl_is_mul};
use crate::vpx::bitstream::{bit_at, bits_at, read_bits};
use crate::vpx::lzw::blocks;
use crate::vpx::lzw_reader::{
    block_payload, expand, apply_code, decode_from, skip_clears, DecodeState, initial_decode_state,
    lzw_decode, lzw_decode_into,
};
use crate::vpx::lzw_writer::{
    EncodeState, code_mask, accum_mask, drain, out_code, pad_out, lzw_step, encode_run, dict_key, start_state,
    lzw_old_bytes, lzw_old_encode,
};

verus! {

/// The bytes of `p` as a number, least significant byte first.
pub open spec fn bytes_value(p: Seq<u8>) -> int
    decreases p.len(),
{
    if p.len() == 0 {
        0
    } else {
        bytes_value(p.drop_last()) + pow2(8 * (p.len() - 1) as nat) as int * p.last()
    }
}

/// Adding a multiple of `2^(a + b)` leaves bits `a .. a + b` alone.
proof fn lemma_high_multiple_keeps_bits(x: int, y: int, a: nat, b: nat)
    requires
        x >= 0,
        y >= 0,
    ensures
        ((x + pow2(a + b) * y) / (pow2(a) as int)) % (pow2(b) as int) == (x / (pow2(a) as int)) % (pow2(b) as int),
{
    lemma_pow2_pos(a);
    lemma_pow2_pos(b);
    lemma_pow2_adds(a, b);
    let pa = pow2(a) as int;
    let pb = pow2(b) as int;
    let q = x / pa;
    let r = x % pa;
    vstd::arithmetic::div_mod::lemma_fundamental_div_mod(x, pa);
    lemma_mod_bound(x, pa);
    assert(x + pow2(a + b) * y == (q + pb * y) * pa + r) by (nonlinear_arith)
        requires
            x == pa * q + r,
            pow2(a + b) == pa * pb,
    ;
    lemma_fundamental_div_mod_converse(x + pow2(a + b) * y, pa, q + pb * y, r);
    vstd::arithmetic::div_mod::lemma_mod_multiples_vanish(y, q, pb);
    assert(pb * y + q == q + pb * y);
}

/// A number below `2^a` plus `2^a * y`, divided by `2^a`, is `y`.
proof fn lemma_div_past_low(x: int, y: int, a: nat)
    requires
        0 <= x < pow2(a),
    ensures
        (x + pow2(a) * y) / (pow2(a) as int) == y,
{
    lemma_pow2_pos(a);
    assert(x + pow2(a) * y == y * pow2(a) + x) by (nonlinear_arith);
    lemma_fundamental_div_mod_converse(x + pow2(a) * y, pow2(a) as int, y, x);
}

/// The bytes of `p` are below `2^(8 * |p|)`.
proof fn lemma_bytes_value_bound(p: Seq<u8>)
    ensures
        0 <= bytes_value(p) < pow2(8 * p.len()),
    decreases p.len(),
{
    lemma_pow2_pos(8 * p.len());
    if p.len() > 0 {
        let q = p.drop_last();
        lemma_bytes_value_bound(q);
        let k = 8 * (p.len() - 1) as nat;
        lemma_pow2_adds(k, 8);
        lemma2_to64();
        assert(8 * p.len() == k + 8);
        assert(0 <= bytes_value(q) + pow2(k) * p.last() < pow2(k) * 256) by (nonlinear_arith)
            requires
                0 <= bytes_value(q) < pow2(k),
                p.last() <= 255,
        ;
    }
}

/// Bit `i` of a stream is bit `i` of its number.
proof fn lemma_bit_at_value(p: Seq<u8>, i: int)
    requires
        0 <= i < 8 * p.len(),
    ensures
        bit_at(p, i) == (bytes_value(p) / (pow2(i as nat) as int)) % 2,
    decreases p.len(),
{
    let q = p.drop_last();
    let k = 8 * (p.len() - 1) as nat;
    lemma_bytes_value_bound(q);
    lemma_pow2_pos(i as nat);
    if i < k {
        lemma_bit_at_value(q, i);
        assert(q[i / 8] == p[i / 8]);
        let t = (k - i - 1) as nat;
        let i1: nat = (i + 1) as nat;
        lemma_pow2_adds(i1, t);
        assert(i1 + t == k);
        lemma_pow2_adds(i as nat, 1);
        lemma2_to64();
        assert(pow2(k) * p.last() == pow2(i1) * (pow2(t) * p.last())) by (nonlinear_arith)
            requires
                pow2(k) == pow2(i1) * pow2(t),
        ;
        assert(i1 == (i as nat) + 1);
        lemma_mul_nonnegative(pow2(t) as int, p.last() as int);
        lemma_high_multiple_keeps_bits(bytes_value(q), pow2(t) * p.last(), i as nat, 1);
        assert(pow2(1) == 2);
    } else {
        let t = (i - k) as nat;
        assert(i / 8 == p.len() - 1);
        assert(i % 8 == t);
        lemma_div_past_low(bytes_value(q), p.last() as int, k);
        lemma_pow2_pos(k);
        lemma_pow2_pos(t);
        lemma_pow2_adds(k, t);
        assert(k + t == i);
        lemma_div_denominator(bytes_value(p), pow2(k) as int, pow2(t) as int);
    }
}

/// The `w` bits of a stream at `pos` are bits `pos .. pos + w` of its number.
pub proof fn lemma_bits_at_value(p: Seq<u8>, pos: int, w: nat)
    requires
        0 <= pos,
        pos + w <= 8 * p.len(),
    ensures
        bits_at(p, pos, w) == (bytes_value(p) / (pow2(pos as nat) as int)) % (pow2(w) as int),
    decreases w,
{
    lemma_pow2_pos(pos as nat);
    lemma_pow2_pos(w);
    lemma2_to64();
    lemma_bytes_value_bound(p);
    let x = bytes_value(p) / (pow2(pos as nat) as int);
    lemma_div_pos_is_pos(bytes_value(p), pow2(pos as nat) as int);
    if w == 0 {
        assert(x % 1 == 0);
    } else {
        lemma_bit_at_value(p, pos);
        lemma_bits_at_value(p, pos + 1, (w - 1) as nat);
        lemma_pow2_pos((w - 1) as nat);
        lemma_pow2_adds(1, (w - 1) as nat);
        assert(1 + (w - 1) as nat == w);
        lemma_mod_breakdown(x, 2, pow2((w - 1) as nat) as int);
        lemma_pow2_adds(pos as nat, 1);
        assert((pos + 1) as nat == pos as nat + 1);
        lemma_div_denominator(bytes_value(p), pow2(pos as nat) as int, 2);
    }
}

/// The total width of the codes written, in bits.
pub open spec fn total_width(ws: Seq<(u16, u16)>) -> nat
    decreases ws.len(),
{
    if ws.len() == 0 {
        0
    } else {
        total_width(ws.drop_last()) + ws.last().1 as nat
    }
}

/// Codes written each at its width, as a number, first code lowest.
pub open spec fn stream_value(ws: Seq<(u16, u16)>) -> int
    decreases ws.len(),
{
    if ws.len() == 0 {
        0
    } else {
        stream_value(ws.drop_last()) + pow2(total_width(ws.drop_last())) as int * ws.last().0
    }
}

/// Every code fits in its width.
pub open spec fn well_sized(ws: Seq<(u16, u16)>) -> bool {
    forall|j: int| 0 <= j < ws.len() ==> (ws[j].0 as int) < pow2(#[trigger] ws[j].1 as nat)
}

/// The codes are below `2^` their total width as a number.
proof fn lemma_stream_value_bound(ws: Seq<(u16, u16)>)
    requires
        well_sized(ws),
    ensures
        0 <= stream_value(ws) < pow2(total_width(ws)),
    decreases ws.len(),
{
    lemma_pow2_pos(total_width(ws));
    if ws.len() > 0 {
        let q = ws.drop_last();
        assert(well_sized(q)) by {
            assert forall|j: int| 0 <= j < q.len() implies (q[j].0 as int) < pow2(#[trigger] q[j].1 as nat) by {
                assert(q[j] == ws[j]);
            }
        }
        lemma_stream_value_bound(q);
        let k = total_width(q);
        let w = ws.last().1 as nat;
        lemma_pow2_adds(k, w);
        assert((ws.last().0 as int) < pow2(w)) by {
            assert(ws.last() == ws[ws.len() - 1]);
        }
        assert(0 <= stream_value(q) + pow2(k) * ws.last().0 < pow2(k) * pow2(w)) by (nonlinear_arith)
            requires
                0 <= stream_value(q) < pow2(k),
                0 <= ws.last().0 < pow2(w),
        ;
    }
}

/// The widths of the first `j + 1` codes are those of the first `j` and
/// code `j`'s, and never more than all of them.
proof fn lemma_total_width_take(ws: Seq<(u16, u16)>, j: int)
    requires
        0 <= j < ws.len(),
    ensures
        total_width(ws.take(j + 1)) == total_width(ws.take(j)) + ws[j].1,
        total_width(ws.take(j + 1)) <= total_width(ws),
    decreases ws.len(),
{
    assert(ws.take(j + 1).drop_last() =~= ws.take(j));
    if j + 1 < ws.len() {
        lemma_total_width_take(ws.drop_last(), j);
        assert(ws.drop_last().take(j + 1) =~= ws.take(j + 1));
        assert(ws.drop_last().take(j) =~= ws.take(j));
    } else {
        assert(ws.take(j + 1) =~= ws);
    }
}

/// Code `j` sits at the total width of the codes before it.
pub proof fn lemma_stream_value_at(ws: Seq<(u16, u16)>, j: int)
    requires
        0 <= j < ws.len(),
        well_sized(ws),
    ensures
        (stream_value(ws) / (pow2(total_width(ws.take(j))) as int)) % (pow2(ws[j].1 as nat) as int) == ws[j].0,
    decreases ws.len(),
{
    let q = ws.drop_last();
    let k = total_width(q);
    assert(well_sized(q)) by {
        assert forall|i: int| 0 <= i < q.len() implies (q[i].0 as int) < pow2(#[trigger] q[i].1 as nat) by {
            assert(q[i] == ws[i]);
        }
    }
    lemma_stream_value_bound(q);
    let a = total_width(ws.take(j));
    let b = ws[j].1 as nat;
    lemma_pow2_pos(a);
    lemma_pow2_pos(b);
    if j < ws.len() - 1 {
        lemma_stream_value_at(q, j);
        assert(q[j] == ws[j]);
        assert(q.take(j) =~= ws.take(j));
        lemma_total_width_take(q, j);
        assert(q.take(j + 1) =~= ws.take(j + 1));
        let t = (k - a - b) as nat;
        lemma_pow2_adds(a + b, t);
        assert(a + b + t == k);
        assert(pow2(k) * ws.last().0 == pow2(a + b) * (pow2(t) * ws.last().0)) by (nonlinear_arith)
            requires
                pow2(k) == pow2(a + b) * pow2(t),
        ;
        lemma_mul_nonnegative(pow2(t) as int, ws.last().0 as int);
        lemma_high_multiple_keeps_bits(stream_value(q), pow2(t) * ws.last().0, a, b);
    } else {
        assert(ws.take(j) =~= q);
        assert(ws.last() == ws[j]);
        lemma_div_past_low(stream_value(q), ws.last().0 as int, k);
        lemma_small_mod(ws[j].0 as nat, pow2(b));
    }
}

/// A stream whose number is that of codes written each at its width gives
/// back code `j` when its width is read at the widths of the codes before.
pub proof fn lemma_read_written(p: Seq<u8>, ws: Seq<(u16, u16)>, j: int)
    requires
        bytes_value(p) == stream_value(ws),
        total_width(ws) <= 8 * p.len(),
        0 <= j < ws.len(),
        well_sized(ws),
    ensures
        read_bits(p, total_width(ws.take(j)) as int, ws[j].1 as nat) == Some(ws[j].0 as nat),
{
    lemma_total_width_take(ws, j);
    lemma_bits_at_value(p, total_width(ws.take(j)) as int, ws[j].1 as nat);
    lemma_stream_value_at(ws, j);
}

/// The packed bytes and the accumulator of `st` hold the codes `ws`: the
/// bytes, then the `cur_bits` bits of the accumulator, are their number.
pub open spec fn packs(st: EncodeState, ws: Seq<(u16, u16)>) -> bool {
    &&& st.cur_bits < 8
    &&& 8 * st.bytes.len() + st.cur_bits == total_width(ws)
    &&& (st.accum as int) < pow2(st.cur_bits as nat)
    &&& bytes_value(st.bytes) + pow2(8 * st.bytes.len()) * st.accum == stream_value(ws)
    &&& well_sized(ws)
}

/// Writing a code of its width adds it to the codes held: the accumulator
/// has room for the bits waiting in it and the code.
pub proof fn lemma_pack_step(st: EncodeState, ws: Seq<(u16, u16)>, code: u16)
    requires
        packs(st, ws),
        9 <= st.n_bits <= 12,
        (code as int) < pow2(st.n_bits as nat),
    ensures
        packs(out_code(st, code), ws.push((code, st.n_bits))),
{
    let cb = st.cur_bits;
    let nb = st.n_bits;
    let a = st.accum;
    let len = st.bytes.len();
    lemma2_to64();
    lemma_pow2_pos(cb as nat);
    lemma_pow2_pos(nb as nat);
    assert(pow2(cb as nat) <= 128) by {
        if cb < 7 {
            vstd::arithmetic::power2::lemma_pow2_strictly_increases(cb as nat, 7);
        }
    }
    assert(pow2(nb as nat) <= 4096) by {
        if nb < 12 {
            vstd::arithmetic::power2::lemma_pow2_strictly_increases(nb as nat, 12);
        }
    }
    let c32 = code as u32;
    assert(c32 * pow2(cb as nat) <= 4096 * 128) by (nonlinear_arith)
        requires
            c32 < 4096,
            pow2(cb as nat) <= 128,
    ;
    lemma_u32_shl_is_mul(c32, cb as u32);
    let shifted = c32 << cb;
    assert(shifted == c32 << (cb as u32)) by (bit_vector)
        requires
            shifted == c32 << cb,
    ;
    assert(shifted as int == code * pow2(cb as nat));
    lemma_u32_shl_is_mul(1u32, cb as u32);
    assert((1u32 << cb) == (1u32 << (cb as u32))) by (bit_vector);
    assert((a as int) < pow2(cb as nat));
    assert(a < (1u32 << cb));
    let kept = a & accum_mask(cb);
    assert(kept == a && shifted < 0x80000 && a < 128) by (bit_vector)
        requires
            cb < 8,
            a < (1u32 << cb),
            kept == a & (((1u32 << cb) - 1) as u32),
            c32 < 4096,
            shifted == c32 << cb,
    ;
    let joined: u32 = if cb > 0 { kept | shifted } else { c32 };
    assert(joined as int == a + code * pow2(cb as nat)) by {
        if cb > 0 {
            assert((a | shifted) as int == a + shifted) by (bit_vector)
                requires
                    cb < 8,
                    a < (1u32 << cb),
                    shifted == c32 << cb,
                    c32 < 4096,
            ;
        } else {
            assert(pow2(cb as nat) == 1);
            assert(a == 0);
            assert(code * pow2(cb as nat) == code) by (nonlinear_arith)
                requires
                    pow2(cb as nat) == 1,
            ;
        }
    }
    let total = (cb + nb) as nat;
    lemma_pow2_adds(cb as nat, nb as nat);
    assert((joined as int) < pow2(total)) by (nonlinear_arith)
        requires
            joined as int == a + code * pow2(cb as nat),
            a < pow2(cb as nat),
            code < pow2(nb as nat),
            pow2(total) == pow2(cb as nat) * pow2(nb as nat),
    ;
    let lo = (joined & 0xffu32) as u8;
    let hi = joined >> 8u32;
    assert(lo as int == joined % 256 && hi as int == joined / 256) by (bit_vector)
        requires
            lo == (joined & 0xffu32) as u8,
            hi == joined >> 8u32,
    ;
    let out = out_code(st, code);
    reveal_with_fuel(drain, 3);
    let bytes1 = st.bytes.push(lo);
    assert(bytes1.drop_last() =~= st.bytes);
    assert(bytes_value(bytes1) == bytes_value(st.bytes) + pow2(8 * len) * lo);
    let pl = pow2(8 * len);
    lemma_pow2_adds(8 * len, 8);
    lemma_pow2_adds(8 * len, cb as nat);
    let tw = total_width(ws);
    assert(8 * len + cb == tw);
    let pushed = ws.push((code, nb));
    assert(pushed.drop_last() =~= ws);
    assert(stream_value(pushed) == stream_value(ws) + pow2(tw) * code);
    assert(total_width(pushed) == tw + nb);
    assert(well_sized(pushed)) by {
        assert forall|j: int| 0 <= j < pushed.len() implies (pushed[j].0 as int) < pow2(#[trigger] pushed[j].1 as nat) by {
            if j < ws.len() {
                assert(pushed[j] == ws[j]);
            }
        }
    }
    if total < 16 {
        assert(out.bytes == bytes1 && out.accum == hi && out.cur_bits == total - 8);
        lemma_pow2_adds((total - 8) as nat, 8);
        assert((hi as int) < pow2((total - 8) as nat)) by (nonlinear_arith)
            requires
                hi as int == joined / 256,
                joined < pow2(total),
                pow2(total) == pow2((total - 8) as nat) * 256,
        ;
        assert(bytes_value(bytes1) + pow2(8 * (len + 1) as nat) * hi == stream_value(pushed)) by (nonlinear_arith)
            requires
                bytes_value(bytes1) == bytes_value(st.bytes) + pl * lo,
                pow2(8 * (len + 1) as nat) == pl * 256,
                lo as int == joined % 256,
                hi as int == joined / 256,
                joined as int == a + code * pow2(cb as nat),
                bytes_value(st.bytes) + pl * a == stream_value(ws),
                stream_value(pushed) == stream_value(ws) + pow2(tw) * code,
                pow2(tw) == pl * pow2(cb as nat),
        ;
    } else {
        let lo2 = (hi & 0xffu32) as u8;
        let hi2 = hi >> 8u32;
        assert(lo2 as int == hi % 256 && hi2 as int == hi / 256) by (bit_vector)
            requires
                lo2 == (hi & 0xffu32) as u8,
                hi2 == hi >> 8u32,
        ;
        let bytes2 = bytes1.push(lo2);
        assert(out.bytes == bytes2 && out.accum == hi2 && out.cur_bits == total - 16);
        assert(bytes2.drop_last() =~= bytes1);
        assert(bytes_value(bytes2) == bytes_value(bytes1) + pow2(8 * (len + 1) as nat) * lo2);
        lemma_pow2_adds(8 * len, 16);
        lemma_pow2_adds((total - 16) as nat, 16);
        assert(pow2(16) == 65536);
        assert((hi2 as int) < pow2((total - 16) as nat)) by (nonlinear_arith)
            requires
                hi as int == joined / 256,
                hi2 as int == hi / 256,
                joined < pow2(total),
                pow2(total) == pow2((total - 16) as nat) * 65536,
        ;
        assert(bytes_value(bytes2) + pow2(8 * (len + 2) as nat) * hi2 == stream_value(pushed)) by (nonlinear_arith)
            requires
                bytes_value(bytes2) == bytes_value(bytes1) + pow2(8 * (len + 1) as nat) * lo2,
                bytes_value(bytes1) == bytes_value(st.bytes) + pl * lo,
                pow2(8 * (len + 1) as nat) == pl * 256,
                pow2(8 * (len + 2) as nat) == pl * 65536,
                lo as int == joined % 256,
                hi as int == joined / 256,
                lo2 as int == hi % 256,
                hi2 as int == hi / 256,
                joined as int == a + code * pow2(cb as nat),
                bytes_value(st.bytes) + pl * a == stream_value(ws),
                stream_value(pushed) == stream_value(ws) + pow2(tw) * code,
                pow2(tw) == pl * pow2(cb as nat),
        ;
    }
}

/// Padding the last byte keeps the codes held.
pub proof fn lemma_pad_out(st: EncodeState, ws: Seq<(u16, u16)>)
    requires
        packs(st, ws),
    ensures
        bytes_value(pad_out(st)) == stream_value(ws),
        total_width(ws) <= 8 * pad_out(st).len(),
{
    lemma2_to64();
    if st.cur_bits > 0 {
        let b = (st.accum & 0xffu32) as u8;
        let a = st.accum;
        vstd::arithmetic::power2::lemma_pow2_strictly_increases(st.cur_bits as nat, 8);
        assert(b as int == a) by (bit_vector)
            requires
                a < 256,
                b == (a & 0xffu32) as u8,
        ;
        let padded = st.bytes.push(b);
        assert(padded.drop_last() =~= st.bytes);
    } else {
        assert(st.accum == 0);
        assert(pow2(8 * st.bytes.len()) * 0 == 0);
    }
}

/// Blocks of up to 254 bytes, read back as a reader goes through them, give
/// the bytes: no block is empty, so the reader never stops early.
pub proof fn lemma_block_payload_blocks(s: Seq<u8>)
    ensures
        block_payload(blocks(s, 254)) == s,
    decreases s.len(),
{
    if s.len() > 0 {
        let k = if s.len() < 254 { s.len() as int } else { 254 };
        let b = blocks(s, 254);
        lemma_block_payload_blocks(s.skip(k));
        assert(b[0] == k as u8);
        assert((k as u8) as int == k);
        assert(b.skip(1 + k) =~= blocks(s.skip(k), 254));
        assert(b.subrange(1, 1 + k) =~= s.take(k));
        assert(s.take(k) + s.skip(k) =~= s);
    }
}

/// The codes the encoder writes for the pixels `px`, with their widths:
/// the clear code that starts the stream, the code of each string it
/// writes, and a clear code each time the dictionary is full.
pub open spec fn run_writes(px: Seq<u8>) -> Seq<(u16, u16)>
    decreases px.len(),
{
    if px.len() <= 1 {
        seq![(256u16, 9u16)]
    } else {
        let st = encode_run(px.drop_last());
        if st.dict.contains_key(dict_key(px.last(), st.ent)) {
            run_writes(px.drop_last())
        } else {
            let written = run_writes(px.drop_last()).push((st.ent, st.n_bits));
            if out_code(st, st.ent).free_ent < 4096 {
                written
            } else {
                written.push((256u16, out_code(st, st.ent).n_bits))
            }
        }
    }
}

/// All the codes written for the pixels `px`: those of the run, the code
/// of the last string, and the end code.
pub open spec fn final_writes(px: Seq<u8>) -> Seq<(u16, u16)> {
    let st = encode_run(px);
    run_writes(px).push((st.ent, st.n_bits)).push((257u16, out_code(st, st.ent).n_bits))
}

/// The encoder between two pixels: codes 9 to 12 bits wide, the next one
/// fitting, and, right after a clear, an empty dictionary.
pub open spec fn gstate(st: EncodeState) -> bool {
    &&& 9 <= st.n_bits <= 12
    &&& st.max_code == (if st.n_bits == 12 {
        4096u16
    } else {
        code_mask(st.n_bits)
    })
    &&& !st.clear_flg
    &&& 258 <= st.free_ent <= 4096
    &&& st.free_ent <= st.max_code + 1
    &&& st.cur_bits < 8
    &&& st.ent < 256 || 258 <= st.ent < st.free_ent
    &&& forall|key: u32| #[trigger] st.dict.contains_key(key) ==> 258 <= st.dict[key] < st.free_ent
    &&& st.free_ent == 258 ==> st.dict == Map::<u32, u16>::empty() && st.n_bits == 9 && st.ent < 256
}

/// The largest codes of 9 to 12 bits, as `code_mask` gives them.
proof fn lemma_code_mask_pow2(n: u16)
    requires
        n <= 15,
    ensures
        code_mask(n) as int == pow2(n as nat) - 1,
{
    lemma2_to64();
    lemma_pow2_pos(n as nat);
    assert(pow2(n as nat) <= 32768) by {
        if n < 15 {
            vstd::arithmetic::power2::lemma_pow2_strictly_increases(n as nat, 15);
        }
    }
    lemma_u16_shl_is_mul(1u16, n);
}

/// One more pixel of a run.
proof fn lemma_run_unfold(px: Seq<u8>, k: int)
    requires
        2 <= k <= px.len(),
    ensures
        encode_run(px.take(k)) == lzw_step(encode_run(px.take(k - 1)), px[k - 1]),
        run_writes(px.take(k)) == ({
            let st = encode_run(px.take(k - 1));
            if st.dict.contains_key(dict_key(px[k - 1], st.ent)) {
                run_writes(px.take(k - 1))
            } else {
                let written = run_writes(px.take(k - 1)).push((st.ent, st.n_bits));
                if out_code(st, st.ent).free_ent < 4096 {
                    written
                } else {
                    written.push((256u16, out_code(st, st.ent).n_bits))
                }
            }
        }),
{
    assert(px.take(k).drop_last() =~= px.take(k - 1));
    assert(px.take(k).last() == px[k - 1]);
}

/// The code a state holds fits in the current width.
proof fn lemma_ent_fits_width(st: EncodeState)
    requires
        gstate(st),
    ensures
        (st.ent as int) < pow2(st.n_bits as nat),
        (st.free_ent as int) <= pow2(st.n_bits as nat),
{
    lemma2_to64();
    lemma_code_mask_pow2(st.n_bits);
    if st.n_bits < 12 {
        vstd::arithmetic::power2::lemma_pow2_strictly_increases(st.n_bits as nat, 12);
    }
}

/// Along a run, every state is as `gstate` says and its bytes and
/// accumulator hold the codes written so far.
pub proof fn lemma_encoder_run(px: Seq<u8>, k: int)
    requires
        1 <= k <= px.len(),
    ensures
        gstate(encode_run(px.take(k))),
        packs(encode_run(px.take(k)), run_writes(px.take(k))),
    decreases k,
{
    lemma2_to64();
    lemma_code_mask_pow2(9);
    lemma_code_mask_pow2(10);
    lemma_code_mask_pow2(11);
    lemma_code_mask_pow2(12);
    if k == 1 {
        let init = EncodeState {
            ent: px[0] as u16,
            dict: Map::empty(),
            free_ent: 258,
            n_bits: 9,
            max_code: code_mask(9),
            clear_flg: false,
            accum: 0,
            cur_bits: 0,
            bytes: Seq::empty(),
        };
        assert(px.take(1).len() == 1);
        assert(px.take(1)[0] == px[0]);
        assert(encode_run(px.take(1)) == start_state(px[0]));
        assert(packs(init, Seq::empty())) by {
            assert(pow2(0) == 1);
            reveal_with_fuel(bytes_value, 1);
            reveal_with_fuel(stream_value, 1);
            reveal_with_fuel(total_width, 1);
        }
        lemma_pack_step(init, Seq::empty(), 256);
        assert(Seq::<(u16, u16)>::empty().push((256u16, 9u16)) =~= seq![(256u16, 9u16)]);
    } else {
        lemma_encoder_run(px, k - 1);
        lemma_run_unfold(px, k);
        let st = encode_run(px.take(k - 1));
        let c = px[k - 1];
        let key = dict_key(c, st.ent);
        lemma_ent_fits_width(st);
        if !st.dict.contains_key(key) {
            lemma_pack_step(st, run_writes(px.take(k - 1)), st.ent);
            let written = out_code(st, st.ent);
            if written.free_ent >= 4096 {
                let cleared = EncodeState {
                    ent: c as u16,
                    dict: Map::empty(),
                    free_ent: 258,
                    clear_flg: true,
                    ..written
                };
                assert(written.cur_bits < 8);
                assert(pow2(written.cur_bits as nat) <= 128) by {
                    if written.cur_bits < 7 {
                        vstd::arithmetic::power2::lemma_pow2_strictly_increases(written.cur_bits as nat, 7);
                    }
                }
                assert(written.n_bits == 12);
                lemma_pack_step(cleared, run_writes(px.take(k - 1)).push((st.ent, st.n_bits)), 256);
            }
        }
    }
}

/// The codes of a shorter run come first among those of a longer one.
proof fn lemma_writes_prefix(px: Seq<u8>, k: int)
    requires
        1 <= k <= px.len(),
    ensures
        run_writes(px.take(k)).len() <= run_writes(px).len(),
        run_writes(px.take(k)) == run_writes(px).take(run_writes(px.take(k)).len() as int),
    decreases px.len() - k,
{
    if k < px.len() {
        lemma_writes_prefix(px, k + 1);
        lemma_run_unfold(px, k + 1);
        let a = run_writes(px.take(k));
        let b = run_writes(px.take(k + 1));
        assert(b.take(a.len() as int) =~= a);
        assert(run_writes(px).take(a.len() as int) =~= run_writes(px).take(b.len() as int).take(a.len() as int));
    } else {
        assert(px.take(k) =~= px);
        assert(run_writes(px).take(run_writes(px).len() as int) =~= run_writes(px));
    }
}

/// The packed bytes of a run hold all its codes.
proof fn lemma_final_bytes(px: Seq<u8>)
    requires
        px.len() >= 1,
    ensures
        bytes_value(lzw_old_bytes(px)) == stream_value(final_writes(px)),
        total_width(final_writes(px)) <= 8 * lzw_old_bytes(px).len(),
        well_sized(final_writes(px)),
{
    let n = px.len() as int;
    lemma_encoder_run(px, n);
    assert(px.take(n) =~= px);
    let st = encode_run(px);
    let ws = run_writes(px);
    lemma_ent_fits_width(st);
    lemma_pack_step(st, ws, st.ent);
    let st1 = out_code(st, st.ent);
    lemma2_to64();
    assert(pow2(st1.cur_bits as nat) <= 128) by {
        if st1.cur_bits < 7 {
            vstd::arithmetic::power2::lemma_pow2_strictly_increases(st1.cur_bits as nat, 7);
        }
    }
    assert(9 <= st1.n_bits <= 12);
    lemma_pow2_pos(st1.n_bits as nat);
    assert(pow2(st1.n_bits as nat) >= 512) by {
        if st1.n_bits > 9 {
            vstd::arithmetic::power2::lemma_pow2_strictly_increases(9, st1.n_bits as nat);
        }
    }
    lemma_pack_step(st1, ws.push((st.ent, st.n_bits)), 257);
    lemma_pad_out(out_code(st1, 257), ws.push((st.ent, st.n_bits)).push((257u16, st1.n_bits)));
}

/// The string of `d` in the decoder's table, first character first; for a
/// code below 258 the one character it stands for.
pub open spec fn tstr(prefix: Seq<u16>, suffix: Seq<u8>, d: nat) -> Seq<u8>
    decreases d,
{
    if d < 258 {
        seq![(d % 256) as u8]
    } else if (prefix[d as int] as nat) < d {
        tstr(prefix, suffix, prefix[d as int] as nat).push(suffix[d as int])
    } else {
        Seq::empty()
    }
}

/// Every entry below `slot` extends a character or an earlier entry.
pub open spec fn table_ok(prefix: Seq<u16>, slot: nat) -> bool {
    &&& prefix.len() == 4096
    &&& slot <= 4096
    &&& forall|e: int|
        258 <= e < slot ==> (#[trigger] prefix[e] < 256 || 258 <= prefix[e] < e)
}

/// A code the decoder's table can expand: a character or an entry.
pub open spec fn known(slot: nat, d: nat) -> bool {
    d < 256 || 258 <= d < slot
}

/// The string of a known code is not empty and at most `d - 256` long.
proof fn lemma_tstr_len(prefix: Seq<u16>, suffix: Seq<u8>, slot: nat, d: nat)
    requires
        table_ok(prefix, slot),
        known(slot, d),
    ensures
        1 <= tstr(prefix, suffix, d).len(),
        d >= 258 ==> tstr(prefix, suffix, d).len() <= d - 256,
        tstr(prefix, suffix, d)[0] as nat == tstr(prefix, suffix, d)[0],
    decreases d,
{
    if d >= 258 {
        let e = prefix[d as int] as nat;
        assert(e < 256 || 258 <= e < d);
        lemma_tstr_len(prefix, suffix, slot, e);
    }
}

/// The decoder's expansion of a known code is its string, reversed, with
/// the code of its first character.
proof fn lemma_expand_tstr(prefix: Seq<u16>, suffix: Seq<u8>, slot: nat, d: nat, room: nat)
    requires
        table_ok(prefix, slot),
        known(slot, d),
        tstr(prefix, suffix, d).len() <= room,
    ensures
        expand(prefix, suffix, d, room) == Some((tstr(prefix, suffix, d).reverse(), tstr(prefix, suffix, d)[0] as nat)),
    decreases d,
{
    lemma_tstr_len(prefix, suffix, slot, d);
    if d >= 258 {
        let e = prefix[d as int] as nat;
        lemma_tstr_len(prefix, suffix, slot, e);
        lemma_expand_tstr(prefix, suffix, slot, e, (room - 1) as nat);
        let t = tstr(prefix, suffix, e);
        assert(t.push(suffix[d as int]).reverse() =~= seq![suffix[d as int]] + t.reverse());
        assert(t.push(suffix[d as int])[0] == t[0]);
    } else {
        assert(seq![(d % 256) as u8].reverse() =~= seq![(d % 256) as u8]);
    }
}

/// A new entry at `slot` leaves the strings of the codes before it alone.
proof fn lemma_tstr_update(prefix: Seq<u16>, suffix: Seq<u8>, slot: nat, d: nat, p: u16, x: u8)
    requires
        table_ok(prefix, slot),
        suffix.len() == 4096,
        slot < 4096,
        known(slot, d),
    ensures
        tstr(prefix.update(slot as int, p), suffix.update(slot as int, x), d) == tstr(prefix, suffix, d),
    decreases d,
{
    if d >= 258 {
        let e = prefix[d as int] as nat;
        assert(prefix.update(slot as int, p)[d as int] == prefix[d as int]);
        assert(suffix.update(slot as int, x)[d as int] == suffix[d as int]);
        lemma_tstr_update(prefix, suffix, slot, e, p, x);
    }
}

/// The first character of the string of the code `ent` that the encoder
/// holds, as the decoder `d` knows it: from its table, or for the entry it
/// does not have yet, from the previous code.
pub open spec fn first_char(d: DecodeState, ent: nat) -> u8 {
    if ent < d.slot {
        tstr(d.prefix, d.suffix, ent)[0]
    } else {
        tstr(d.prefix, d.suffix, d.oc)[0]
    }
}

/// The string of the code `c`, for an encoder that holds the code `ent`
/// and a decoder `d` one entry behind it: the entry the decoder lacks is
/// the previous string followed by the first character of `ent`'s.
pub open spec fn code_str(d: DecodeState, ent: nat, c: nat) -> Seq<u8> {
    if c < d.slot {
        tstr(d.prefix, d.suffix, c)
    } else {
        tstr(d.prefix, d.suffix, d.oc).push(first_char(d, ent))
    }
}

/// Two keys of codes below 4096 are equal only for the same character and
/// code.
proof fn lemma_dict_key_injective(c1: u8, x1: u16, c2: u8, x2: u16)
    requires
        x1 < 4096,
        x2 < 4096,
        dict_key(c1, x1) == dict_key(c2, x2),
    ensures
        c1 == c2,
        x1 == x2,
{
}

/// The string of a code the decoder knows starts with its first character.
proof fn lemma_first_char(d: DecodeState, ent: nat, c: nat)
    requires
        table_ok(d.prefix, d.slot),
        d.slot >= 258,
        known(d.slot, d.oc),
        c < 256 || 258 <= c <= d.slot,
    ensures
        code_str(d, ent, c).len() >= 1,
        code_str(d, ent, c)[0] == first_char(d, c),
{
    if c < d.slot {
        lemma_tstr_len(d.prefix, d.suffix, d.slot, c);
    } else {
        lemma_tstr_len(d.prefix, d.suffix, d.slot, d.oc);
    }
}

/// The decoder `d` has read the codes that the encoder `e` wrote, at the
/// same widths, and has decoded `done` but for the string of the code the
/// encoder still holds.
pub open spec fn sim(e: EncodeState, d: DecodeState, done: Seq<u8>) -> bool {
    &&& gstate(e)
    &&& d.code_size == e.n_bits
    &&& d.top_slot == pow2(e.n_bits as nat)
    &&& d.slot >= 258
    &&& d.slot + 1 == e.free_ent
    &&& d.prefix.len() == 4096
    &&& d.suffix.len() == 4096
    &&& table_ok(d.prefix, d.slot)
    &&& known(d.slot, d.oc)
    &&& d.fc == tstr(d.prefix, d.suffix, d.oc)[0] as nat
    &&& forall|c: u8, x: u16|
        x < 4096 && #[trigger] e.dict.contains_key(dict_key(c, x)) ==> {
            &&& (x < 256 || 258 <= x <= d.slot)
            &&& code_str(d, e.ent as nat, e.dict[dict_key(c, x)] as nat) == code_str(
                d,
                e.ent as nat,
                x as nat,
            ).push(c)
        }
    &&& d.out + code_str(d, e.ent as nat, e.ent as nat) == done
}

/// The encoder `e` has just written a clear code (or started), which the
/// decoder `d` is about to read; `done` is what the decoder has decoded
/// followed by the character the encoder holds.
pub open spec fn simc(e: EncodeState, d: DecodeState, done: Seq<u8>) -> bool {
    &&& gstate(e)
    &&& e.free_ent == 258
    &&& 9 <= d.code_size <= 12
    &&& d.prefix.len() == 4096
    &&& d.suffix.len() == 4096
    &&& d.out.push(e.ent as u8) == done
}

/// The decoder after reading the code `x` at its current width.
pub open spec fn after_code(d: DecodeState, x: nat) -> DecodeState {
    apply_code(d, x, d.pos + d.code_size)->0
}

/// Decoding goes on past a code other than the clear and end codes.
proof fn lemma_decode_code(p: Seq<u8>, d: DecodeState, x: nat)
    requires
        d.code_size > 0,
        read_bits(p, d.pos as int, d.code_size) == Some(x),
        x != 256,
        x != 257,
        apply_code(d, x, d.pos + d.code_size) is Some,
    ensures
        decode_from(p, d) == decode_from(p, after_code(d, x)),
{
    reveal(decode_from);
}

/// Decoding stops at the end code with what it has decoded.
proof fn lemma_decode_end(p: Seq<u8>, d: DecodeState)
    requires
        d.code_size > 0,
        read_bits(p, d.pos as int, d.code_size) == Some(257nat),
    ensures
        decode_from(p, d) == Some(d.out),
{
    reveal(decode_from);
}

/// The decoder that reads a clear code and then the character `x` at 9
/// bits.
pub open spec fn after_clear(d: DecodeState, x: nat) -> DecodeState {
    DecodeState {
        pos: d.pos + d.code_size + 9,
        code_size: 9,
        slot: 258,
        top_slot: 512,
        oc: x,
        fc: x,
        prefix: d.prefix,
        suffix: d.suffix,
        out: d.out.push((x % 256) as u8),
    }
}

/// Decoding past a clear code and the character after it.
proof fn lemma_decode_clear(p: Seq<u8>, d: DecodeState, x: nat)
    requires
        d.code_size > 0,
        read_bits(p, d.pos as int, d.code_size) == Some(256nat),
        read_bits(p, (d.pos + d.code_size) as int, 9) == Some(x),
        x < 256,
    ensures
        decode_from(p, d) == decode_from(p, after_clear(d, x)),
{
    assert(skip_clears(p, d.pos + d.code_size) == Some((x, (d.pos + d.code_size + 9) as nat)));
    reveal(decode_from);
}

/// What reading the code the encoder holds does to a decoder in step with
/// it: the string is decoded, the entry the decoder lacked is added, and
/// the widths grow together.
proof fn lemma_sim_read(e: EncodeState, d: DecodeState, done: Seq<u8>)
    requires
        sim(e, d, done),
    ensures
        apply_code(d, e.ent as nat, d.pos + d.code_size) is Some,
        ({
            let d2 = after_code(d, e.ent as nat);
            let x = e.ent as nat;
            let w = out_code(e, e.ent);
            &&& d2.pos == d.pos + d.code_size
            &&& d2.out == done
            &&& d2.code_size == w.n_bits
            &&& d2.top_slot == pow2(w.n_bits as nat)
            &&& d2.slot == d.slot + 1
            &&& d2.oc == x
            &&& d2.prefix.len() == 4096
            &&& d2.suffix.len() == 4096
            &&& table_ok(d2.prefix, d2.slot)
            &&& d2.fc == tstr(d2.prefix, d2.suffix, x)[0] as nat
            &&& tstr(d2.prefix, d2.suffix, x) == code_str(d, x, x)
            &&& forall|y: nat| y < 256 || 258 <= y <= d.slot ==> #[trigger] tstr(d2.prefix, d2.suffix, y) == code_str(d, x, y)
        }),
{
    let x = e.ent as nat;
    let slot = d.slot;
    let oc = d.oc;
    let pre = d.prefix;
    let suf = d.suffix;
    lemma2_to64();
    lemma_code_mask_pow2(e.n_bits);
    lemma_pow2_pos(e.n_bits as nat);
    if e.n_bits < 12 {
        vstd::arithmetic::power2::lemma_pow2_strictly_increases(e.n_bits as nat, 12);
        lemma_pow2_adds(e.n_bits as nat, 1);
    }
    lemma_tstr_len(pre, suf, slot, oc);
    let first: nat = if x < slot { tstr(pre, suf, x)[0] as nat } else { tstr(pre, suf, oc)[0] as nat };
    if x < slot {
        lemma_tstr_len(pre, suf, slot, x);
        lemma_expand_tstr(pre, suf, slot, x, 4096);
        assert(tstr(pre, suf, x).reverse().reverse() =~= tstr(pre, suf, x));
    } else {
        lemma_expand_tstr(pre, suf, slot, oc, 4095);
        let t = tstr(pre, suf, oc);
        assert((seq![(d.fc % 256) as u8] + t.reverse()).reverse() =~= t.push(t[0]));
    }
    let d2 = after_code(d, x);
    assert(d2.out == d.out + code_str(d, x, x));
    assert(d2.slot == slot + 1);
    assert(d2.fc == first);
    assert(d2.prefix == pre.update(slot as int, oc as u16));
    assert(d2.suffix == suf.update(slot as int, (first % 256) as u8));
    assert((oc as u16) as nat == oc);
    assert(table_ok(d2.prefix, d2.slot));
    lemma_tstr_update(pre, suf, slot, oc, oc as u16, (first % 256) as u8);
    assert(d2.prefix[slot as int] as nat == oc);
    assert(d2.suffix[slot as int] == (first % 256) as u8);
    assert(tstr(d2.prefix, d2.suffix, slot) == tstr(pre, suf, oc).push((first % 256) as u8));
    assert(((first % 256) as u8) == first_char(d, x));
    assert(tstr(d2.prefix, d2.suffix, slot) == code_str(d, x, slot));
    assert forall|y: nat| y < 256 || 258 <= y <= slot implies #[trigger] tstr(d2.prefix, d2.suffix, y) == code_str(d, x, y) by {
        if y < slot {
            lemma_tstr_update(pre, suf, slot, y, oc as u16, (first % 256) as u8);
        }
    }
    assert(tstr(d2.prefix, d2.suffix, x) == code_str(d, x, x));
    lemma_tstr_len(d2.prefix, d2.suffix, d2.slot, x);
}

/// A pixel whose longer string the encoder does not know, with room left in
/// the dictionary: the encoder writes its code, which the decoder reads, and
/// both add the same entry.
pub proof fn lemma_sim_miss(e: EncodeState, d: DecodeState, done: Seq<u8>, c: u8)
    requires
        sim(e, d, done),
        !e.dict.contains_key(dict_key(c, e.ent)),
        out_code(e, e.ent).free_ent < 4096,
        gstate(lzw_step(e, c)),
    ensures
        apply_code(d, e.ent as nat, d.pos + d.code_size) is Some,
        after_code(d, e.ent as nat).pos == d.pos + d.code_size,
        sim(lzw_step(e, c), after_code(d, e.ent as nat), done.push(c)),
{
    lemma_sim_read(e, d, done);
    let x = e.ent as nat;
    let slot = d.slot;
    let e2 = lzw_step(e, c);
    let key = dict_key(c, e.ent);
    let d2 = after_code(d, x);
    assert(e2.ent == c as u16);
    assert(e2.dict == e.dict.insert(key, e.free_ent));
    assert(e2.free_ent == e.free_ent + 1);
    assert(e2.n_bits == out_code(e, e.ent).n_bits);
    lemma_tstr_len(d2.prefix, d2.suffix, d2.slot, x);
    let cn = c as nat;
    assert(first_char(d2, cn) == c);
    assert forall|y: nat| y < 256 || 258 <= y <= slot implies #[trigger] code_str(d2, cn, y) == code_str(d, x, y) by {
        assert(tstr(d2.prefix, d2.suffix, y) == code_str(d, x, y));
    }
    assert(code_str(d2, cn, slot + 1) == code_str(d, x, x).push(c));
    assert forall|c2: u8, x2: u16|
        x2 < 4096 && #[trigger] e2.dict.contains_key(dict_key(c2, x2)) implies {
            &&& (x2 < 256 || 258 <= x2 <= d2.slot)
            &&& code_str(d2, e2.ent as nat, e2.dict[dict_key(c2, x2)] as nat) == code_str(
                d2,
                e2.ent as nat,
                x2 as nat,
            ).push(c2)
        } by {
        if dict_key(c2, x2) == key {
            lemma_dict_key_injective(c2, x2, c, e.ent);
        } else {
            assert(e.dict.contains_key(dict_key(c2, x2)));
            let v = e.dict[dict_key(c2, x2)] as nat;
            assert(code_str(d2, cn, v) == code_str(d, x, v));
            assert(code_str(d2, cn, x2 as nat) == code_str(d, x, x2 as nat));
        }
    }
    assert(code_str(d2, cn, cn) == seq![c]);
    assert(d2.out + code_str(d2, cn, cn) =~= (d.out + code_str(d, x, x)).push(c));
}

/// A pixel whose longer string the encoder knows: the decoder stays as it
/// is.
pub proof fn lemma_sim_hit(e: EncodeState, d: DecodeState, done: Seq<u8>, c: u8)
    requires
        sim(e, d, done),
        e.dict.contains_key(dict_key(c, e.ent)),
    ensures
        sim(lzw_step(e, c), d, done.push(c)),
{
    let key = dict_key(c, e.ent);
    let e2 = lzw_step(e, c);
    let x = e.ent as nat;
    let y = e.dict[key] as nat;
    assert(e2 == EncodeState { ent: e.dict[key], ..e });
    assert(e.ent < 4096);
    assert(code_str(d, x, y) == code_str(d, x, x).push(c));
    lemma_first_char(d, x, x);
    lemma_first_char(d, x, y);
    assert(first_char(d, y) == first_char(d, x));
    assert forall|z: nat| #[trigger] code_str(d, y, z) == code_str(d, x, z) by {
    }
    assert forall|c2: u8, x2: u16|
        x2 < 4096 && #[trigger] e2.dict.contains_key(dict_key(c2, x2)) implies {
            &&& (x2 < 256 || 258 <= x2 <= d.slot)
            &&& code_str(d, e2.ent as nat, e2.dict[dict_key(c2, x2)] as nat) == code_str(
                d,
                e2.ent as nat,
                x2 as nat,
            ).push(c2)
        } by {
        assert(code_str(d, y, e.dict[dict_key(c2, x2)] as nat) == code_str(d, x, e.dict[dict_key(c2, x2)] as nat));
        assert(code_str(d, y, x2 as nat) == code_str(d, x, x2 as nat));
    }
    assert(d.out + code_str(d, y, y) =~= (d.out + code_str(d, x, x)).push(c));
}

/// Right after a clear the dictionary is empty, so the next pixel makes the
/// encoder write the character it holds; the decoder reads the clear code
/// and that character and is in step again.
pub proof fn lemma_simc_next(e: EncodeState, d: DecodeState, done: Seq<u8>, c: u8)
    requires
        simc(e, d, done),
        gstate(lzw_step(e, c)),
    ensures
        !e.dict.contains_key(dict_key(c, e.ent)),
        out_code(e, e.ent).free_ent < 4096,
        out_code(e, e.ent).n_bits == 9,
        sim(lzw_step(e, c), after_clear(d, e.ent as nat), done.push(c)),
{
    lemma2_to64();
    lemma_code_mask_pow2(9);
    let x = e.ent as nat;
    let e2 = lzw_step(e, c);
    let d2 = after_clear(d, x);
    let key = dict_key(c, e.ent);
    assert(e.dict == Map::<u32, u16>::empty());
    assert(e2.dict == Map::<u32, u16>::empty().insert(key, 258u16));
    assert(e2.ent == c as u16);
    assert(e2.free_ent == 259);
    assert(tstr(d2.prefix, d2.suffix, x) == seq![x as u8]);
    assert forall|c2: u8, x2: u16|
        x2 < 4096 && #[trigger] e2.dict.contains_key(dict_key(c2, x2)) implies {
            &&& (x2 < 256 || 258 <= x2 <= d2.slot)
            &&& code_str(d2, e2.ent as nat, e2.dict[dict_key(c2, x2)] as nat) == code_str(
                d2,
                e2.ent as nat,
                x2 as nat,
            ).push(c2)
        } by {
        lemma_dict_key_injective(c2, x2, c, e.ent);
    }
    assert(d2.out + code_str(d2, e2.ent as nat, e2.ent as nat) =~= done.push(c));
}

/// Along a run, a decoder that has read the codes
/// written so far, reached by decoding the whole stream from the start:
/// about to read the clear code the encoder has just written, or in step
/// with the encoder.
#[verifier::spinoff_prover]
#[verifier::rlimit(40)]
proof fn lemma_run_sim(px: Seq<u8>, k: int) -> (d: DecodeState)
    requires
        1 <= k <= px.len(),
    ensures
        decode_from(lzw_old_bytes(px), initial_decode_state()) == decode_from(lzw_old_bytes(px), d),
        encode_run(px.take(k)).free_ent == 258 ==> {
            &&& simc(encode_run(px.take(k)), d, px.take(k))
            &&& d.pos + d.code_size == total_width(run_writes(px.take(k)))
            &&& run_writes(px.take(k)).len() >= 1
            &&& run_writes(px.take(k)).last() == (256u16, d.code_size as u16)
        },
        encode_run(px.take(k)).free_ent != 258 ==> {
            &&& sim(encode_run(px.take(k)), d, px.take(k))
            &&& d.pos == total_width(run_writes(px.take(k)))
        },
    decreases k,
{
    let p = lzw_old_bytes(px);
    let wf = final_writes(px);
    lemma_final_bytes(px);
    lemma_encoder_run(px, k);
    lemma_writes_prefix(px, k);
    let w = run_writes(px.take(k));
    assert(run_writes(px).take(w.len() as int) =~= wf.take(w.len() as int));
    if k == 1 {
        assert(px.take(1).len() == 1 && px.take(1)[0] == px[0]);
        assert(encode_run(px.take(1)) == start_state(px[0]));
        let init = initial_decode_state();
        assert(init.out.push(px[0]) =~= px.take(1));
        reveal_with_fuel(total_width, 2);
        assert(w == seq![(256u16, 9u16)]);
        assert(total_width(w) == 9) by {
            assert(w.drop_last() =~= Seq::<(u16, u16)>::empty());
        }
        init
    } else {
        let d = lemma_run_sim(px, k - 1);
        lemma_encoder_run(px, k - 1);
        lemma_writes_prefix(px, k - 1);
        lemma_run_unfold(px, k);
        let e = encode_run(px.take(k - 1));
        let c = px[k - 1];
        let w0 = run_writes(px.take(k - 1));
        let m = w0.len() as int;
        assert(run_writes(px).take(m) =~= wf.take(m));
        assert(w0 == wf.take(m));
        assert(w == wf.take(w.len() as int));
        assert(px.take(k) =~= px.take(k - 1).push(c));
        lemma_ent_fits_width(e);
        if e.free_ent == 258 {
            lemma_simc_next(e, d, px.take(k - 1), c);
            assert(w == w0.push((e.ent, 9u16)));
            lemma_total_width_take(wf, m - 1);
            assert(wf.take(m - 1) =~= w0.drop_last());
            assert(wf[m - 1] == w0.last());
            lemma_read_written(p, wf, m - 1);
            assert(wf[m] == w[m]);
            lemma_total_width_take(wf, m);
            lemma_read_written(p, wf, m);
            lemma_decode_clear(p, d, e.ent as nat);
            assert(w.drop_last() =~= w0);
            after_clear(d, e.ent as nat)
        } else if e.dict.contains_key(dict_key(c, e.ent)) {
            lemma_sim_hit(e, d, px.take(k - 1), c);
            d
        } else {
            lemma_sim_read(e, d, px.take(k - 1));
            assert(w.len() > m);
            assert(w[m] == (e.ent, e.n_bits));
            assert(wf[m] == w[m]);
            lemma_total_width_take(wf, m);
            lemma_read_written(p, wf, m);
            lemma_decode_code(p, d, e.ent as nat);
            let d1 = after_code(d, e.ent as nat);
            assert(w.take(m + 1) =~= w0.push((e.ent, e.n_bits)));
            if out_code(e, e.ent).free_ent < 4096 {
                lemma_sim_miss(e, d, px.take(k - 1), c);
                assert(w == w0.push((e.ent, e.n_bits)));
                assert(w.drop_last() =~= w0);
                d1
            } else {
                lemma_code_mask_pow2(e.n_bits);
                lemma2_to64();
                if e.n_bits < 12 {
                    vstd::arithmetic::power2::lemma_pow2_strictly_increases(e.n_bits as nat, 12);
                }
                assert(e.n_bits == 12);
                let w1 = w0.push((e.ent, e.n_bits));
                assert(w == w1.push((256u16, 12u16)));
                assert(w.drop_last() =~= w1);
                assert(w1.drop_last() =~= w0);
                d1
            }
        }
    }
}

/// What Visual Pinball's decoder reads back of what its encoder writes, with
/// an image of exactly the pixels' size: the pixels.
#[verifier::spinoff_prover]
#[verifier::rlimit(40)]
pub proof fn lemma_old_round_trip(px: Seq<u8>)
    requires
        px.len() >= 1,
    ensures
        lzw_decode(lzw_old_encode(px)) == Some(px),
        lzw_decode_into(lzw_old_encode(px), px.len()) == Some(px),
{
    let p = lzw_old_bytes(px);
    let wf = final_writes(px);
    let n = px.len() as int;
    lemma_final_bytes(px);
    lemma_block_payload_blocks(p);
    assert(lzw_decode(lzw_old_encode(px)) == decode_from(p, initial_decode_state()));
    let d = lemma_run_sim(px, n);
    assert(px.take(n) =~= px);
    lemma_encoder_run(px, n);
    let e = encode_run(px);
    let w = run_writes(px);
    let m = w.len() as int;
    lemma_ent_fits_width(e);
    assert(wf[m] == (e.ent, e.n_bits));
    assert(wf[m + 1] == (257u16, out_code(e, e.ent).n_bits));
    assert(wf.take(m) =~= w);
    lemma_total_width_take(wf, m);
    lemma_total_width_take(wf, m + 1);
    lemma_read_written(p, wf, m);
    lemma_read_written(p, wf, m + 1);
    if e.free_ent == 258 {
        lemma_code_mask_pow2(9);
        lemma2_to64();
        lemma_total_width_take(wf, m - 1);
        assert(wf.take(m - 1) =~= w.drop_last());
        assert(wf[m - 1] == w.last());
        lemma_read_written(p, wf, m - 1);
        lemma_decode_clear(p, d, e.ent as nat);
        let d2 = after_clear(d, e.ent as nat);
        lemma_decode_end(p, d2);
        assert(d2.out =~= px);
    } else {
        lemma_sim_read(e, d, px);
        lemma_decode_code(p, d, e.ent as nat);
        let d2 = after_code(d, e.ent as nat);
        lemma_decode_end(p, d2);
    }
    assert(px + Seq::new(0, |i: int| 0u8) =~= px);
}

} // verus!
