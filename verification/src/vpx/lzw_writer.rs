//! Visual Pinball's own LZW encoder for the raw bitmaps stored in tables.
//!
//! It writes GIF-style codes of 9 to 12 bits, least significant bit first,
//! starting with a clear code and ending with an end code, and frames the
//! packed bytes in blocks of at most 254 bytes. The dictionary holds at most
//! 4096 codes and is cleared when it is full. It lives in an open-addressing
//! hash table of 5003 slots, probed as [`super::probe`] describes.
//!
//! The codes are packed in a 32-bit accumulator, wide enough for the seven
//! bits that may wait in it and a code of twelve bits. [`lzw_old_encode`]
//! states the bytes that come out, bit for bit.

use vstd::prelude::*;
use super::lzw::{blocks, lemma_blocks_concat, lemma_blocks_single};
use super::lzw_reader::{LzwReader, lzw_decode_into, CLEAR_CODE, ENDING_CODE, FIRST_FREE_CODE};
use super::probe::{probe, lemma_probe_range, lemma_probes_need_room};

pub use super::lzw::{from_lzw_blocks, to_lzw_blocks};

verus! {

/// The number of slots of the hash table.
pub const HASH_SIZE: usize = 5003;

/// The widest code, in bits.
pub const MAX_BITS: u16 = 12;

/// The number of codes of a full dictionary.
pub const MAX_MAX_CODE: u16 = 4096;

/// The state of the encoder between two pixels.
pub struct EncodeState {
    /// The code of the string read so far.
    pub ent: u16,
    /// The dictionary: for the string of code `e` followed by the byte `c`,
    /// the key `c * 4096 + e` gives the code of the longer string.
    pub dict: Map<u32, u16>,
    /// The next code to give out.
    pub free_ent: u16,
    /// The width of the next code.
    pub n_bits: u16,
    /// The largest code of the current width.
    pub max_code: u16,
    /// Whether the width goes back to 9 bits after the next code.
    pub clear_flg: bool,
    /// Bits not yet written, in the low `cur_bits` bits.
    pub accum: u32,
    pub cur_bits: u16,
    /// The packed bytes written so far.
    pub bytes: Seq<u8>,
}

/// The `bits` low bits set.
pub open spec fn code_mask(bits: u16) -> u16 {
    ((1u16 << bits) - 1) as u16
}

/// The `bits` low bits of the accumulator set.
pub open spec fn accum_mask(bits: u16) -> u32 {
    ((1u32 << bits) - 1) as u32
}

/// The dictionary key of the string of code `ent` followed by `c`.
pub open spec fn dict_key(c: u8, ent: u16) -> u32 {
    (c as int * 4096 + ent as int) as u32
}

/// Writes out the whole bytes of an accumulator holding `bits` bits.
pub open spec fn drain(accum: u32, bits: u16, out: Seq<u8>) -> (u32, u16, Seq<u8>)
    decreases bits,
{
    if bits >= 8 {
        drain(accum >> 8u32, (bits - 8) as u16, out.push((accum & 0xffu32) as u8))
    } else {
        (accum, bits, out)
    }
}

/// Writes `code` at the current width, then widens the codes when the next
/// code would not fit, or goes back to 9 bits after a clear.
pub open spec fn out_code(st: EncodeState, code: u16) -> EncodeState {
    let kept = st.accum & accum_mask(st.cur_bits);
    let joined = if st.cur_bits > 0 {
        kept | ((code as u32) << st.cur_bits)
    } else {
        code as u32
    };
    let (accum, cur_bits, bytes) = drain(joined, (st.cur_bits + st.n_bits) as u16, st.bytes);
    let widen = st.free_ent > st.max_code || st.clear_flg;
    let n_bits = if !widen {
        st.n_bits
    } else if st.clear_flg {
        9u16
    } else {
        (st.n_bits + 1) as u16
    };
    let max_code = if !widen {
        st.max_code
    } else if st.clear_flg {
        code_mask(9)
    } else if n_bits == 12 {
        4096u16
    } else {
        code_mask(n_bits)
    };
    EncodeState { accum, cur_bits, bytes, n_bits, max_code, clear_flg: false, ..st }
}

/// The state after the clear code that starts the stream, the first pixel
/// being `first`.
pub open spec fn start_state(first: u8) -> EncodeState {
    out_code(
        EncodeState {
            ent: first as u16,
            dict: Map::empty(),
            free_ent: 258,
            n_bits: 9,
            max_code: code_mask(9),
            clear_flg: false,
            accum: 0,
            cur_bits: 0,
            bytes: Seq::empty(),
        },
        256,
    )
}

/// Reads the pixel `c`: the string grows while the dictionary knows it;
/// otherwise the code of the string is written, the longer string gets the
/// next code, and `c` starts a new string. When the dictionary is full it is
/// cleared instead, and a clear code written.
pub open spec fn lzw_step(st: EncodeState, c: u8) -> EncodeState {
    let key = dict_key(c, st.ent);
    if st.dict.contains_key(key) {
        EncodeState { ent: st.dict[key], ..st }
    } else {
        let written = out_code(st, st.ent);
        if written.free_ent < 4096 {
            EncodeState {
                ent: c as u16,
                dict: written.dict.insert(key, written.free_ent),
                free_ent: (written.free_ent + 1) as u16,
                ..written
            }
        } else {
            out_code(
                EncodeState {
                    ent: c as u16,
                    dict: Map::empty(),
                    free_ent: 258,
                    clear_flg: true,
                    ..written
                },
                256,
            )
        }
    }
}

/// The state after reading the pixels `px`, of which there is at least one.
pub open spec fn encode_run(px: Seq<u8>) -> EncodeState
    decreases px.len(),
{
    if px.len() <= 1 {
        start_state(px[0])
    } else {
        lzw_step(encode_run(px.drop_last()), px.last())
    }
}

/// The packed bytes, with the bits left in the accumulator padded to a byte.
pub open spec fn pad_out(st: EncodeState) -> Seq<u8> {
    if st.cur_bits > 0 {
        st.bytes.push((st.accum & 0xffu32) as u8)
    } else {
        st.bytes
    }
}

/// The packed bytes of the pixels `px`: the run, the code of the last
/// string, the end code, and the bits left over padded to a byte.
pub open spec fn lzw_old_bytes(px: Seq<u8>) -> Seq<u8> {
    let st = encode_run(px);
    pad_out(out_code(out_code(st, st.ent), 257))
}

/// What [`to_lzw_blocks_old`] gives for the pixels `px`: the packed bytes in
/// blocks of at most 254 bytes.
pub open spec fn lzw_old_encode(px: Seq<u8>) -> Seq<u8> {
    blocks(lzw_old_bytes(px), 254)
}

/// The slot where the probes for the key `f` start: the byte of the key
/// shifted left by four, exclusive-or the code of the string.
pub open spec fn home_slot(f: u32) -> int {
    (((f >> 12u32) << 4u32) ^ (f & 0xfffu32)) as int
}

/// A key's parts, its exec form, and its first slot, which lies in the table.
proof fn lemma_key_parts(c: u8, ent: u16)
    requires
        ent < 4096,
    ensures
        dict_key(c, ent) == ((c as u32) << 12u32) + ent as u32,
        dict_key(c, ent) < 0x100000,
        home_slot(dict_key(c, ent)) == (((c as u32) << 4u32) ^ (ent as u32)) as int,
        0 <= home_slot(dict_key(c, ent)) < 4096,
{
    let cc = c as u32;
    let e = ent as u32;
    assert(((cc << 12u32) + e) as int == cc as int * 4096 + e as int) by (bit_vector)
        requires
            cc < 256,
            e < 4096,
    ;
    let f: u32 = ((cc << 12u32) + e) as u32;
    assert(f >> 12u32 == cc && f & 0xfffu32 == e && f < 0x100000) by (bit_vector)
        requires
            cc < 256,
            e < 4096,
            f == ((cc << 12u32) + e) as u32,
    ;
    assert((cc << 4u32) ^ e < 4096) by (bit_vector)
        requires
            cc < 256,
            e < 4096,
    ;
}

/// Every key below 2^20 starts its probes inside the table.
proof fn lemma_home_slot_range(f: u32)
    requires
        f < 0x100000,
    ensures
        0 <= home_slot(f) < 4096,
{
    assert(((f >> 12u32) << 4u32) ^ (f & 0xfffu32) < 4096) by (bit_vector)
        requires
            f < 0x100000,
    ;
}

/// The low `bits` bits set, for a width of at most 15 bits.
proof fn lemma_code_mask(bits: u16)
    requires
        bits <= 15,
    ensures
        (1u16 << bits) >= 1,
        code_mask(bits) == (1u16 << bits) - 1,
{
    assert((1u16 << bits) >= 1) by (bit_vector)
        requires
            bits <= 15,
    ;
}

/// The largest codes of 9, 10 and 11 bits.
proof fn lemma_code_mask_widths()
    ensures
        code_mask(9) == 511,
        code_mask(10) == 1023,
        code_mask(11) == 2047,
{
    assert((1u16 << 9u16) == 512 && (1u16 << 10u16) == 1024 && (1u16 << 11u16) == 2048)
        by (bit_vector);
}

/// The encoder, over a copy of the bitmap.
pub(crate) struct LzwWriter {
    compressed: Vec<u8>,
    bits: Vec<u8>,
    /// The number of bytes of a line of pixels.
    width: u32,
    height: u32,
    /// The distance between the starts of two lines, here equal to `width`.
    pitch: u32,
    n_bits: u16,
    max_code: u16,
    /// For each slot, the key stored there, or -1.
    h_tab: Vec<i32>,
    /// For each slot, the code of the key stored there, or 0.
    code_tab: Vec<u16>,
    free_ent: u16,
    cur_accum: u32,
    /// At most 7 between two codes.
    cur_bits: u16,
    /// The number of bytes waiting in `accum` for their block.
    accum_count: usize,
    accum: Vec<u8>,
    i_pixel_cur: u32,
    i_x_cur: u32,
    clear_flg: bool,
    /// The dictionary that the table holds.
    dict: Ghost<Map<u32, u16>>,
    /// For each key, after how many probes it was stored.
    steps: Ghost<Map<u32, nat>>,
    /// The slots in use.
    occupied: Ghost<Set<int>>,
    /// All the packed bytes written so far.
    packed: Ghost<Seq<u8>>,
}

impl LzwWriter {
    /// The encoder state that the fields stand for, with `ent` the code of
    /// the string read so far.
    closed spec fn state(&self, ent: u16) -> EncodeState {
        EncodeState {
            ent,
            dict: self.dict@,
            free_ent: self.free_ent,
            n_bits: self.n_bits,
            max_code: self.max_code,
            clear_flg: self.clear_flg,
            accum: self.cur_accum,
            cur_bits: self.cur_bits,
            bytes: self.packed@,
        }
    }

    /// The bytes written are the packed bytes in blocks, but for the last
    /// `accum_count`, which wait in `accum`.
    closed spec fn frame_wf(&self) -> bool {
        let n = self.packed@.len();
        let framed = n - self.accum_count;
        &&& self.accum.len() == 256
        &&& self.accum_count < 254
        &&& self.accum_count <= n
        &&& framed % 254 == 0
        &&& self.compressed@ == blocks(self.packed@.take(framed), 254)
        &&& self.accum@.take(self.accum_count as int) == self.packed@.skip(framed)
    }

    /// The code width and the accumulator.
    closed spec fn code_wf(&self) -> bool {
        &&& 9 <= self.n_bits <= 12
        &&& self.max_code == (if self.n_bits == 12 {
            4096u16
        } else {
            code_mask(self.n_bits)
        })
        &&& self.cur_bits < 8
        &&& 258 <= self.free_ent <= 4096
        &&& self.free_ent <= self.max_code + 1
        &&& (self.clear_flg ==> self.free_ent == 258)
    }

    /// The key `f` sits in the slot of its probe `steps[f]`, after slots
    /// that are all in use.
    closed spec fn placed(&self, f: u32) -> bool {
        &&& f < 0x100000
        &&& self.steps@.contains_key(f)
        &&& self.steps@[f] < 5003
        &&& self.h_tab@[probe(home_slot(f), self.steps@[f])] as int == f as int
        &&& forall|j: nat| j < self.steps@[f] ==> self.h_tab@[#[trigger] probe(home_slot(f), j)] != -1
    }

    /// The hash table holds the dictionary.
    closed spec fn table_wf(&self) -> bool {
        &&& self.h_tab.len() == 5003
        &&& self.code_tab.len() == 5003
        &&& forall|i: int| 0 <= i < 5003 ==> (#[trigger] self.h_tab@[i] == -1 <==> self.code_tab@[i] == 0)
        &&& forall|i: int| 0 <= i < 5003 && #[trigger] self.h_tab@[i] != -1 ==> {
            &&& 0 <= self.h_tab@[i]
            &&& self.dict@.contains_key(self.h_tab@[i] as u32)
            &&& self.dict@[self.h_tab@[i] as u32] == self.code_tab@[i]
        }
        &&& forall|f: u32| #[trigger] self.dict@.contains_key(f) ==> self.placed(f)
        &&& forall|f: u32| #[trigger] self.dict@.contains_key(f) ==> 258 <= self.dict@[f] < self.free_ent
        &&& forall|i: int| #[trigger] self.occupied@.contains(i) <==> (0 <= i < 5003 && self.h_tab@[i] != -1)
        &&& self.occupied@.finite()
        &&& self.occupied@.len() == self.free_ent - 258
    }

    closed spec fn wf(&self) -> bool {
        &&& self.frame_wf()
        &&& self.code_wf()
        &&& self.table_wf()
    }

    /// The largest code of `n_bits` bits, which is also the mask of the
    /// `n_bits` low bits.
    fn max_code(n_bits: u16) -> (r: u16)
        requires
            n_bits <= 15,
        ensures
            r == code_mask(n_bits),
    {
        proof {
            lemma_code_mask(n_bits);
        }
        (1u16 << n_bits) - 1
    }

    /// The bytes waiting in `accum` are the packed bytes after the last
    /// whole block written; there may be a full block of them.
    closed spec fn pending_ok(&self) -> bool {
        let n = self.packed@.len();
        let framed = n - self.accum_count;
        &&& self.accum.len() == 256
        &&& self.accum_count <= 254
        &&& self.accum_count <= n
        &&& framed % 254 == 0
        &&& self.compressed@ == blocks(self.packed@.take(framed), 254)
        &&& self.accum@.take(self.accum_count as int) == self.packed@.skip(framed)
    }

    /// `self` and `other` hold the same bitmap and position in it.
    closed spec fn keeps_position(&self, other: &Self) -> bool {
        &&& self.bits == other.bits
        &&& self.width == other.width
        &&& self.height == other.height
        &&& self.pitch == other.pitch
        &&& self.i_pixel_cur == other.i_pixel_cur
        &&& self.i_x_cur == other.i_x_cur
    }

    /// `self` and `other` have written the same bytes.
    closed spec fn keeps_frame(&self, other: &Self) -> bool {
        &&& self.compressed == other.compressed
        &&& self.accum == other.accum
        &&& self.accum_count == other.accum_count
        &&& self.packed == other.packed
    }

    /// `self` and `other` hold the same hash table and dictionary.
    closed spec fn keeps_store(&self, other: &Self) -> bool {
        &&& self.h_tab == other.h_tab
        &&& self.code_tab == other.code_tab
        &&& self.free_ent == other.free_ent
        &&& self.dict == other.dict
        &&& self.steps == other.steps
        &&& self.occupied == other.occupied
    }

    /// `self` and `other` hold the same bitmap, position and table.
    closed spec fn keeps_table(&self, other: &Self) -> bool {
        &&& self.keeps_position(other)
        &&& self.h_tab == other.h_tab
        &&& self.code_tab == other.code_tab
        &&& self.free_ent == other.free_ent
        &&& self.dict == other.dict
        &&& self.steps == other.steps
        &&& self.occupied == other.occupied
    }

    /// `self` and `other` have the same code width and accumulator.
    closed spec fn keeps_coder(&self, other: &Self) -> bool {
        &&& self.n_bits == other.n_bits
        &&& self.max_code == other.max_code
        &&& self.cur_accum == other.cur_accum
        &&& self.cur_bits == other.cur_bits
        &&& self.clear_flg == other.clear_flg
    }

    fn write_byte(&mut self, ch: u8)
        ensures
            final(self).compressed@ == old(self).compressed@.push(ch),
            final(self).accum == old(self).accum,
            final(self).accum_count == old(self).accum_count,
            final(self).packed == old(self).packed,
            final(self).keeps_table(old(self)),
            final(self).keeps_coder(old(self)),
    {
        self.compressed.push(ch);
    }

    /// Writes the bytes waiting in `accum` as one block.
    fn flush_char(&mut self)
        requires
            old(self).pending_ok(),
        ensures
            final(self).compressed@ == blocks(final(self).packed@, 254),
            final(self).accum_count == 0,
            final(self).accum == old(self).accum,
            final(self).packed == old(self).packed,
            final(self).keeps_table(old(self)),
            final(self).keeps_coder(old(self)),
            old(self).accum_count == 0 || old(self).accum_count == 254 ==> final(self).frame_wf(),
    {
        let ghost n = self.packed@.len();
        let ghost framed = n - self.accum_count;
        let ghost head = self.packed@.take(framed);
        let ghost chunk = self.packed@.skip(framed);
        proof {
            assert(head + chunk =~= self.packed@);
        }
        if self.accum_count > 0 {
            let ghost before = self.compressed@;
            self.write_byte(self.accum_count as u8);
            let mut j: usize = 0;
            while j < self.accum_count
                invariant
                    j <= self.accum_count <= 254,
                    self.accum.len() == 256,
                    self.compressed@ == before.push(self.accum_count as u8) + self.accum@.subrange(
                        0,
                        j as int,
                    ),
                    self.keeps_table(old(self)),
                    self.keeps_coder(old(self)),
                    self.accum == old(self).accum,
                    self.accum_count == old(self).accum_count,
                    self.packed == old(self).packed,
                decreases self.accum_count - j,
            {
                self.compressed.push(self.accum[j]);
                j = j + 1;
                assert(self.accum@.subrange(0, j as int) =~= self.accum@.subrange(0, j - 1).push(
                    self.accum@[j - 1],
                ));
            }
            proof {
                assert(self.accum@.subrange(0, self.accum_count as int) =~= chunk);
                lemma_blocks_concat(head, chunk, 254);
                lemma_blocks_single(chunk, 254);
                assert(before.push(self.accum_count as u8) + chunk =~= before + (seq![
                    self.accum_count as u8,
                ] + chunk));
            }
            self.accum_count = 0;
        } else {
            proof {
                assert(chunk =~= Seq::<u8>::empty());
                assert(head =~= self.packed@);
            }
        }
        proof {
            assert(self.packed@.take(n as int) =~= self.packed@);
            assert(self.packed@.skip(n as int) =~= Seq::<u8>::empty());
            assert(self.accum@.take(0) =~= Seq::<u8>::empty());
        }
    }

    /// Writes one packed byte, closing a block when it is full.
    fn char_out(&mut self, c: u8)
        requires
            old(self).frame_wf(),
        ensures
            final(self).frame_wf(),
            final(self).packed@ == old(self).packed@.push(c),
            final(self).keeps_table(old(self)),
            final(self).keeps_coder(old(self)),
    {
        let ghost n = self.packed@.len();
        let ghost framed = n - self.accum_count;
        let ghost waiting = self.accum@.take(self.accum_count as int);
        self.accum.set(self.accum_count, c);
        self.accum_count = self.accum_count + 1;
        proof {
            assert(self.accum@.take(self.accum_count as int) =~= waiting.push(c));
            assert(old(self).packed@.push(c).skip(framed) =~= old(self).packed@.skip(framed).push(c));
            self.packed@ = self.packed@.push(c);
            assert(self.packed@.take(framed) =~= old(self).packed@.take(framed));
            assert(self.accum@.take(self.accum_count as int) =~= self.packed@.skip(framed));
        }
        if self.accum_count >= 254 {
            self.flush_char();
        }
    }

    /// Writes `code` at the current width and widens the codes when the
    /// next one would not fit. The end code also writes the bits left over
    /// and the last block.
    fn output(&mut self, code: u16)
        requires
            old(self).frame_wf(),
            old(self).code_wf(),
        ensures
            final(self).keeps_table(old(self)),
            code != 257 ==> {
                &&& final(self).frame_wf()
                &&& final(self).code_wf()
                &&& forall|e: u16| #[trigger] final(self).state(e) == out_code(old(self).state(e), code)
                &&& final(self).free_ent <= final(self).max_code
            },
            code == 257 ==> forall|e: u16|
                final(self).compressed@ == blocks(pad_out(out_code(#[trigger] old(self).state(e), code)), 254),
    {
        let ghost st0 = self.state(0);
        let ghost target = out_code(st0, code);
        proof {
            lemma_code_mask_widths();
        }
        let cur_bits = self.cur_bits;
        assert((1u32 << cur_bits) >= 1) by (bit_vector)
            requires
                cur_bits < 8,
        ;
        let mask: u32 = (1u32 << self.cur_bits) - 1;
        self.cur_accum = self.cur_accum & mask;
        if self.cur_bits > 0 {
            self.cur_accum = self.cur_accum | ((code as u32) << self.cur_bits);
        } else {
            self.cur_accum = code as u32;
        }
        self.cur_bits = self.cur_bits + self.n_bits;
        let ghost joined = self.cur_accum;
        let ghost total = self.cur_bits;
        while self.cur_bits >= 8
            invariant
                self.frame_wf(),
                self.keeps_table(old(self)),
                self.n_bits == old(self).n_bits,
                self.max_code == old(self).max_code,
                self.clear_flg == old(self).clear_flg,
                self.cur_bits <= 19,
                drain(self.cur_accum, self.cur_bits, self.packed@) == drain(joined, total, st0.bytes),
            decreases self.cur_bits,
        {
            self.char_out((self.cur_accum & 0xff) as u8);
            self.cur_accum = self.cur_accum >> 8;
            self.cur_bits = self.cur_bits - 8;
        }
        assert(self.cur_accum == target.accum && self.cur_bits == target.cur_bits && self.packed@
            == target.bytes);
        if self.free_ent > self.max_code || self.clear_flg {
            if self.clear_flg {
                self.n_bits = 9;
                self.max_code = Self::max_code(self.n_bits);
                self.clear_flg = false;
            } else {
                self.n_bits = self.n_bits + 1;
                self.max_code = if self.n_bits == MAX_BITS {
                    MAX_MAX_CODE
                } else {
                    Self::max_code(self.n_bits)
                };
            }
        }
        assert(self.state(0) == target);
        if code == 257 {
            while self.cur_bits > 0
                invariant
                    self.frame_wf(),
                    self.cur_bits == 0 ==> self.packed@ == pad_out(target),
                    self.cur_bits > 0 ==> {
                        &&& self.cur_bits == target.cur_bits
                        &&& self.cur_accum == target.accum
                        &&& self.packed@ == target.bytes
                    },
                    target.cur_bits < 8,
                    self.keeps_table(old(self)),
                decreases self.cur_bits,
            {
                self.char_out((self.cur_accum & 0xff) as u8);
                self.cur_accum = self.cur_accum >> 8;
                if self.cur_bits > 8 {
                    self.cur_bits = self.cur_bits - 8;
                } else {
                    self.cur_bits = 0;
                }
            }
            self.flush_char();
        }
    }

    /// Empties the first `h_size` slots, here all of them.
    fn hashtable_clear(&mut self, h_size: usize)
        requires
            old(self).h_tab.len() == 5003,
            old(self).code_tab.len() == 5003,
            h_size == 5003,
        ensures
            final(self).h_tab@ == Seq::new(5003, |i: int| -1i32),
            final(self).code_tab@ == Seq::new(5003, |i: int| 0u16),
            final(self).keeps_position(old(self)),
            final(self).keeps_frame(old(self)),
            final(self).keeps_coder(old(self)),
            final(self).free_ent == old(self).free_ent,
            final(self).dict == old(self).dict,
            final(self).steps == old(self).steps,
            final(self).occupied == old(self).occupied,
    {
        let mut i: usize = 0;
        while i < h_size
            invariant
                i <= h_size == 5003,
                self.h_tab.len() == 5003,
                self.code_tab.len() == 5003,
                forall|j: int| 0 <= j < i ==> self.h_tab@[j] == -1 && self.code_tab@[j] == 0,
                self.keeps_position(old(self)),
                self.keeps_frame(old(self)),
                self.keeps_coder(old(self)),
                self.free_ent == old(self).free_ent,
                self.dict == old(self).dict,
                self.steps == old(self).steps,
                self.occupied == old(self).occupied,
            decreases h_size - i,
        {
            self.h_tab.set(i, -1);
            self.code_tab.set(i, 0);
            i = i + 1;
        }
        assert(self.h_tab@ =~= Seq::new(5003, |i: int| -1i32));
        assert(self.code_tab@ =~= Seq::new(5003, |i: int| 0u16));
    }

    /// Whether a key is stored in the slot `hash`.
    fn hashtable_contains_hash(&self, hash: usize) -> (r: bool)
        requires
            hash < self.h_tab.len(),
        ensures
            r == (self.h_tab@[hash as int] != -1),
    {
        self.h_tab[hash] != -1
    }

    /// Whether the key `f_code` is stored in the slot `hash`.
    fn hashtable_contains(&self, hash: usize, f_code: u32) -> (r: bool)
        requires
            hash < self.h_tab.len(),
            f_code < 0x100000,
        ensures
            r == (self.h_tab@[hash as int] as int == f_code as int),
    {
        let f_code: i32 = f_code as i32;
        self.h_tab[hash] == f_code
    }

    /// Stores the key `f_code` with the next code in the empty slot `hash`,
    /// which its probe number `step` reaches after slots that are all in use.
    fn hashtable_put(&mut self, hash: usize, f_code: u32, Ghost(step): Ghost<nat>)
        requires
            old(self).table_wf(),
            258 <= old(self).free_ent < 4096,
            hash < 5003,
            old(self).h_tab@[hash as int] == -1,
            !old(self).dict@.contains_key(f_code),
            f_code < 0x100000,
            step < 5003,
            hash == probe(home_slot(f_code), step),
            forall|j: nat| j < step ==> old(self).h_tab@[#[trigger] probe(home_slot(f_code), j)] != -1,
        ensures
            final(self).table_wf(),
            final(self).dict@ == old(self).dict@.insert(f_code, old(self).free_ent),
            final(self).free_ent == old(self).free_ent + 1,
            final(self).keeps_position(old(self)),
            final(self).keeps_frame(old(self)),
            final(self).keeps_coder(old(self)),
    {
        let ghost old_tab = self.h_tab@;
        let ghost code = self.free_ent;
        self.code_tab.set(hash, self.free_ent);
        self.h_tab.set(hash, f_code as i32);
        self.free_ent = self.free_ent + 1;
        proof {
            self.dict@ = self.dict@.insert(f_code, code);
            self.steps@ = self.steps@.insert(f_code, step);
            assert(!old(self).occupied@.contains(hash as int));
            self.occupied@ = self.occupied@.insert(hash as int);
            assert forall|f: u32| #[trigger] self.dict@.contains_key(f) implies self.placed(f) by {
                if f != f_code {
                    assert(old(self).placed(f));
                    lemma_home_slot_range(f);
                    assert forall|j: nat| j < self.steps@[f] implies self.h_tab@[#[trigger] probe(
                        home_slot(f),
                        j,
                    )] != -1 by {
                        assert(old_tab[probe(home_slot(f), j)] != -1);
                    }
                    assert(probe(home_slot(f), self.steps@[f]) != hash) by {
                        lemma_probe_range(home_slot(f), self.steps@[f]);
                    }
                } else {
                    lemma_home_slot_range(f);
                    assert forall|j: nat| j < self.steps@[f] implies self.h_tab@[#[trigger] probe(
                        home_slot(f),
                        j,
                    )] != -1 by {
                        lemma_probe_range(home_slot(f), j);
                        assert(old_tab[probe(home_slot(f), j)] != -1);
                    }
                }
            }
            assert forall|i: int| 0 <= i < 5003 && #[trigger] self.h_tab@[i] != -1 implies {
                &&& 0 <= self.h_tab@[i]
                &&& self.dict@.contains_key(self.h_tab@[i] as u32)
                &&& self.dict@[self.h_tab@[i] as u32] == self.code_tab@[i]
            } by {
                if i != hash {
                    assert(old_tab[i] != -1);
                    assert(old(self).dict@.contains_key(old_tab[i] as u32));
                    assert(old_tab[i] as u32 != f_code);
                }
            }
        }
    }

    /// Looks the key `f_code` up, starting at its slot `hash`. Either it is
    /// in the dictionary and stored in the slot returned, or it is not and
    /// the slot returned is the empty one that its probes reach first, after
    /// the number of probes returned.
    fn find_slot(&self, hash: usize, f_code: u32) -> (r: (bool, usize, Ghost<nat>))
        requires
            self.table_wf(),
            self.code_wf(),
            f_code < 0x100000,
            hash as int == home_slot(f_code),
        ensures
            r.1 < 5003,
            r.0 ==> self.dict@.contains_key(f_code) && self.code_tab@[r.1 as int] == self.dict@[f_code],
            !r.0 ==> {
                &&& !self.dict@.contains_key(f_code)
                &&& self.h_tab@[r.1 as int] == -1
                &&& r.2@ < 5003
                &&& r.1 == probe(home_slot(f_code), r.2@)
                &&& forall|j: nat| j < r.2@ ==> self.h_tab@[#[trigger] probe(home_slot(f_code), j)] != -1
            },
    {
        let ghost h = home_slot(f_code);
        proof {
            lemma_home_slot_range(f_code);
        }
        let mut i = hash;
        if !self.hashtable_contains_hash(i) {
            proof {
                if self.dict@.contains_key(f_code) {
                    assert(self.placed(f_code));
                    let t = self.steps@[f_code];
                    if t > 0 {
                        assert(self.h_tab@[probe(h, 0)] != -1);
                    }
                }
            }
            return (false, i, Ghost(0));
        }
        if self.hashtable_contains(i, f_code) {
            return (true, i, Ghost(0));
        }
        let disp = if i == 0 {
            1
        } else {
            HASH_SIZE - i
        };
        let ghost mut m: nat = 0;
        loop
            invariant
                self.table_wf(),
                self.code_wf(),
                f_code < 0x100000,
                h == home_slot(f_code),
                0 <= h < 5003,
                disp == (if h == 0 { 1int } else { 5003 - h }),
                m < 5003,
                i as int == probe(h, m),
                forall|j: nat| j <= m ==> {
                    &&& self.h_tab@[#[trigger] probe(h, j)] != -1
                    &&& self.h_tab@[probe(h, j)] as int != f_code as int
                },
            decreases 5003 - m,
        {
            proof {
                lemma_probes_need_room(h, m, self.occupied@);
                lemma_probe_range(h, m);
            }
            i = (i + HASH_SIZE - disp) % HASH_SIZE;
            proof {
                m = m + 1;
                assert(probe(h, m) == i);
                lemma_probe_range(h, m);
            }
            if self.code_tab[i] == 0 {
                proof {
                    if self.dict@.contains_key(f_code) {
                        assert(self.placed(f_code));
                        let t = self.steps@[f_code];
                        if t < m {
                            assert(self.h_tab@[probe(h, t)] as int != f_code as int);
                        } else if t > m {
                            assert(self.h_tab@[probe(h, m)] != -1);
                        }
                    }
                }
                return (false, i, Ghost(m));
            } else if self.hashtable_contains(i, f_code) {
                proof {
                    assert(self.dict@.contains_key(self.h_tab@[i as int] as u32));
                    assert(self.h_tab@[i as int] as u32 == f_code);
                }
                return (true, i, Ghost(m));
            }
        }
    }

    /// The bitmap is read line by line, `width` bytes each.
    closed spec fn reading(&self) -> bool {
        &&& self.pitch == self.width
        &&& self.width > 0
        &&& self.pitch * self.height <= u32::MAX
        &&& self.i_pixel_cur <= self.pitch * self.height
        &&& self.i_x_cur as int == self.i_pixel_cur as int % self.width as int
        &&& self.bits.len() >= self.pitch * self.height
    }

    /// The next byte of the bitmap, `None` after the last one.
    fn next_pixel(&mut self) -> (r: Option<u8>)
        requires
            old(self).reading(),
        ensures
            final(self).reading(),
            final(self).keeps_frame(old(self)),
            final(self).keeps_coder(old(self)),
            final(self).keeps_store(old(self)),
            final(self).bits == old(self).bits,
            final(self).width == old(self).width,
            final(self).height == old(self).height,
            final(self).pitch == old(self).pitch,
            old(self).i_pixel_cur == old(self).pitch * old(self).height ==> {
                &&& r is None
                &&& final(self).i_pixel_cur == old(self).i_pixel_cur
            },
            old(self).i_pixel_cur < old(self).pitch * old(self).height ==> {
                &&& r == Some(old(self).bits@[old(self).i_pixel_cur as int])
                &&& final(self).i_pixel_cur == old(self).i_pixel_cur + 1
            },
    {
        if self.i_pixel_cur == self.pitch * self.height {
            return None;
        }
        let ch = self.bits[self.i_pixel_cur as usize];
        let ghost x = self.i_x_cur as int;
        let ghost w = self.width as int;
        self.i_pixel_cur = self.i_pixel_cur + 1;
        self.i_x_cur = self.i_x_cur + 1;
        proof {
            vstd::arithmetic::div_mod::lemma_mod_bound(old(self).i_pixel_cur as int, w);
            vstd::arithmetic::div_mod::lemma_add_mod_noop(old(self).i_pixel_cur as int, 1, w);
            if w == 1 {
                assert(x == 0);
                vstd::arithmetic::div_mod::lemma_mod_self_0(1);
            } else {
                vstd::arithmetic::div_mod::lemma_small_mod(1, w as nat);
            }
            if x + 1 < w {
                vstd::arithmetic::div_mod::lemma_small_mod((x + 1) as nat, w as nat);
            } else {
                vstd::arithmetic::div_mod::lemma_mod_self_0(w);
            }
        }
        if self.i_x_cur == self.width {
            self.i_pixel_cur = self.i_pixel_cur + (self.pitch - self.width);
            self.i_x_cur = 0;
        }
        Some(ch)
    }

    /// An encoder for `bits`, an image of `height` lines of `width` pixels
    /// of `bytes_per_pixel` bytes.
    pub(crate) fn new(bits: Vec<u8>, width: u32, height: u32, bytes_per_pixel: u8) -> (r: LzwWriter)
        requires
            width * bytes_per_pixel <= u32::MAX,
        ensures
            r.pixels() == bits@.take(width * bytes_per_pixel * height),
            0 < width * bytes_per_pixel * height <= u32::MAX && bits.len() >= width
                * bytes_per_pixel * height ==> r.ready(),
    {
        let stride = width * bytes_per_pixel as u32;
        LzwWriter {
            compressed: Vec::new(),
            bits,
            width: stride,
            height,
            pitch: stride,
            n_bits: 0,
            max_code: 0,
            h_tab: vec![0i32; HASH_SIZE],
            code_tab: vec![0u16; HASH_SIZE],
            free_ent: 0,
            cur_accum: 0,
            cur_bits: 0,
            accum_count: 0,
            accum: vec![0u8; 256],
            i_pixel_cur: 0,
            i_x_cur: 0,
            clear_flg: false,
            dict: Ghost(Map::empty()),
            steps: Ghost(Map::empty()),
            occupied: Ghost(Set::empty()),
            packed: Ghost(Seq::empty()),
        }
    }

    /// Empties the dictionary and writes a clear code, after which the
    /// codes go back to 9 bits.
    fn clear_block(&mut self)
        requires
            old(self).wf(),
        ensures
            final(self).wf(),
            final(self).keeps_position(old(self)),
            final(self).state(0) == out_code(
                EncodeState { dict: Map::empty(), free_ent: 258, clear_flg: true, ..old(self).state(0) },
                256,
            ),
            final(self).free_ent <= final(self).max_code,
    {
        self.hashtable_clear(HASH_SIZE);
        self.free_ent = FIRST_FREE_CODE;
        self.clear_flg = true;
        proof {
            self.dict@ = Map::empty();
            self.steps@ = Map::empty();
            self.occupied@ = Set::empty();
            assert forall|i: int| #[trigger] self.occupied@.contains(i) <==> (0 <= i < 5003
                && self.h_tab@[i] != -1) by {
                if 0 <= i < 5003 {
                    assert(self.h_tab@[i] == -1);
                }
            }
        }
        self.output(CLEAR_CODE);
    }

    /// The pixels of the bitmap that the encoder reads.
    pub(crate) closed spec fn pixels(&self) -> Seq<u8> {
        self.bits@.take(self.pitch * self.height)
    }

    /// A new encoder over a bitmap that holds at least one pixel.
    pub(crate) closed spec fn ready(&self) -> bool {
        &&& self.pitch == self.width
        &&& 0 < self.pitch * self.height <= u32::MAX
        &&& self.bits.len() >= self.pitch * self.height
        &&& self.compressed@ == Seq::<u8>::empty()
        &&& self.accum.len() == 256
        &&& self.h_tab.len() == 5003
        &&& self.code_tab.len() == 5003
    }

    /// Encodes the whole bitmap and gives back the blocks written.
    pub(crate) fn compress_bits(&mut self) -> (r: Vec<u8>)
        requires
            old(self).ready(),
        ensures
            r@ == lzw_old_encode(old(self).pixels()),
    {
        let ghost px = self.pixels();
        let ghost n = self.pitch * self.height;
        let ghost pitch = self.pitch as int;
        let ghost height = self.height as int;
        assert(pitch > 0) by (nonlinear_arith)
            requires
                pitch * height > 0,
                pitch >= 0,
                height >= 0,
        ;
        self.i_pixel_cur = 0;
        self.i_x_cur = 0;
        self.clear_flg = false;
        self.cur_accum = 0;
        self.cur_bits = 0;
        self.accum_count = 0;
        self.n_bits = 9;
        self.max_code = Self::max_code(self.n_bits);
        self.free_ent = FIRST_FREE_CODE;
        proof {
            lemma_code_mask_widths();
            self.packed@ = Seq::empty();
            self.dict@ = Map::empty();
            self.steps@ = Map::empty();
            self.occupied@ = Set::empty();
            vstd::arithmetic::div_mod::lemma_small_mod(0, self.width as nat);
            assert(self.packed@.take(0) =~= Seq::<u8>::empty());
            assert(self.accum@.take(0) =~= self.packed@.skip(0));
        }
        let first = self.next_pixel();
        let mut ent: u16 = first.unwrap() as u16;

        let mut h_shift: u32 = 0;
        let mut f_code: usize = HASH_SIZE;
        while f_code < 65536
            invariant
                h_shift == 0 && f_code == 5003 || h_shift == 1 && f_code == 10006 || h_shift == 2
                    && f_code == 20012 || h_shift == 3 && f_code == 40024 || h_shift == 4 && f_code
                    == 80048,
            decreases 4 - h_shift,
        {
            h_shift = h_shift + 1;
            f_code = f_code * 2;
        }
        h_shift = 8 - h_shift;

        self.hashtable_clear(HASH_SIZE);
        proof {
            assert forall|i: int| #[trigger] self.occupied@.contains(i) <==> (0 <= i < 5003
                && self.h_tab@[i] != -1) by {
                if 0 <= i < 5003 {
                    assert(self.h_tab@[i] == -1);
                }
            }
            assert(self.state(ent) == EncodeState { ent, ..self.state(0) });
        }
        self.output(CLEAR_CODE);
        proof {
            assert(px.take(1).len() == 1);
            assert(self.state(ent) == start_state(px[0]));
        }
        loop
            invariant
                self.wf(),
                self.reading(),
                !self.clear_flg,
                self.bits == old(self).bits,
                self.pitch * self.height == n,
                px == self.pixels(),
                1 <= self.i_pixel_cur <= n,
                h_shift == 4,
                ent < 4096,
                ent < 256 || ent >= 258,
                self.state(ent) == encode_run(px.take(self.i_pixel_cur as int)),
            ensures
                self.wf(),
                !self.clear_flg,
                ent < 256 || ent >= 258,
                self.state(ent) == encode_run(px),
            decreases n - self.i_pixel_cur,
        {
            let ghost k = self.i_pixel_cur as int;
            let ghost before = self.state(ent);
            let next = self.next_pixel();
            let next_pixel = match next {
                Some(p) => p,
                None => {
                    proof {
                        assert(px.take(n as int) =~= px);
                    }
                    break;
                },
            };
            proof {
                lemma_key_parts(next_pixel, ent);
            }
            let c = next_pixel as u32;
            let f_code = (c << MAX_BITS as u32) + ent as u32;
            let i = ((c << h_shift) ^ ent as u32) as usize;
            proof {
                assert(px[k] == next_pixel);
                assert(px.take(k + 1).drop_last() =~= px.take(k));
                assert(encode_run(px.take(k + 1)) == lzw_step(before, next_pixel));
            }
            let (found, slot, Ghost(step)) = self.find_slot(i, f_code);
            if found {
                ent = self.code_tab[slot];
            } else {
                self.output(ent);
                proof {
                    assert(self.state(ent) == out_code(before, ent));
                }
                ent = c as u16;
                if self.free_ent < MAX_MAX_CODE {
                    self.hashtable_put(slot, f_code, Ghost(step));
                } else {
                    self.clear_block();
                }
            }
        }
        let ghost st = self.state(ent);
        self.output(ent);
        let ghost st1 = self.state(ent);
        assert(st1 == out_code(st, st.ent));
        self.output(ENDING_CODE);
        assert(self.compressed@ == blocks(pad_out(out_code(st1, 257)), 254));
        let out = self.compressed.clone();
        assert(out@ =~= self.compressed@);
        out
    }

    /// The two 12-bit parts of a key, the byte's part last, with a 0 in
    /// front for the key 0.
    fn reconstruct_f_code_components(f_code: u32) -> (r: Vec<u32>)
        ensures
            r@ == (if f_code == 0 {
                seq![0u32]
            } else {
                Seq::<u32>::empty()
            }) + seq![f_code & 0xfffu32, (f_code >> 12u32) & 0xfffu32],
    {
        let mut f_code = f_code;
        let ghost f0 = f_code;
        let mut repr: Vec<u32> = Vec::new();
        if f_code == 0 {
            repr.push(0);
        }
        let ghost lead = repr@;
        let mut k: usize = 0;
        while k < 2
            invariant
                k <= 2,
                f_code == (if k == 0 { f0 } else if k == 1 { f0 >> 12u32 } else { (f0 >> 12u32) >> 12u32 }),
                repr@ == lead + seq![f0 & 0xfffu32, (f0 >> 12u32) & 0xfffu32].take(k as int),
            decreases 2 - k,
        {
            proof {
                assert((1u32 << 12u32) >= 1 && (1u32 << 12u32) - 1 == 0xfffu32) by (bit_vector);
            }
            repr.push(f_code & ((1u32 << MAX_BITS as u32) - 1));
            f_code = f_code >> MAX_BITS as u32;
            k = k + 1;
            proof {
                assert(repr@ =~= lead + seq![f0 & 0xfffu32, (f0 >> 12u32) & 0xfffu32].take(k as int));
            }
        }
        assert(seq![f0 & 0xfffu32, (f0 >> 12u32) & 0xfffu32].take(2) =~= seq![f0 & 0xfffu32, (f0 >> 12u32) & 0xfffu32]);
        repr
    }
}

/// Compresses an image of `height` lines of `width` pixels of
/// `bytes_per_pixel` bytes with Visual Pinball's own encoder; see
/// [`lzw_old_encode`].
pub fn to_lzw_blocks_old(data: &[u8], width: u32, height: u32, bytes_per_pixel: u8) -> (r: Vec<u8>)
    requires
        width * bytes_per_pixel <= u32::MAX,
        0 < width * bytes_per_pixel * height <= u32::MAX,
        data.len() >= width * bytes_per_pixel * height,
    ensures
        r@ == lzw_old_encode(data@.take(width * bytes_per_pixel * height)),
{
    let mut lzw_writer = LzwWriter::new(vstd::slice::slice_to_vec(data), width, height, bytes_per_pixel);
    lzw_writer.compress_bits()
}

/// Decodes an image of `height` lines of `width` pixels of `bytes_per_pixel`
/// bytes with Visual Pinball's own decoder: the decoded bytes, then zeros up
/// to the size of the image.
pub fn from_lzw_blocks_old(compressed: &[u8], width: u32, height: u32, bytes_per_pixel: u8) -> (r: Vec<u8>)
    requires
        width * bytes_per_pixel <= u32::MAX,
        width * bytes_per_pixel * height <= u32::MAX,
        height < u32::MAX,
        lzw_decode_into(compressed@, (width * bytes_per_pixel * height) as nat) is Some,
    ensures
        Some(r@) == lzw_decode_into(compressed@, (width * bytes_per_pixel * height) as nat),
{
    let mut lzw_reader = LzwReader::new(
        vstd::slice::slice_to_vec(compressed),
        width,
        height,
        bytes_per_pixel,
    );
    lzw_reader.decompress()
}

/// [`from_lzw_blocks_old`] for any stream: `None` where Visual Pinball's
/// decoder cannot decode it into an image of that size.
pub fn try_from_lzw_blocks_old(compressed: &[u8], width: u32, height: u32, bytes_per_pixel: u8) -> (r:
    Option<Vec<u8>>)
    requires
        width * bytes_per_pixel <= u32::MAX,
        width * bytes_per_pixel * height <= u32::MAX,
        height < u32::MAX,
    ensures
        match r {
            Some(v) => lzw_decode_into(compressed@, (width * bytes_per_pixel * height) as nat) == Some(v@),
            None => lzw_decode_into(compressed@, (width * bytes_per_pixel * height) as nat) is None,
        },
{
    let mut lzw_reader = LzwReader::new(
        vstd::slice::slice_to_vec(compressed),
        width,
        height,
        bytes_per_pixel,
    );
    lzw_reader.try_decompress()
}

} // verus!
