//! Visual Pinball's own LZW decoder for the bitmaps stored in tables, a
//! descendant of Steven A. Bennett's GIF decoder (DECODE.C, 1987).
//!
//! The compressed data is cut into GIF blocks: a length byte followed by
//! that many bytes. The codes are read least significant bit first from the
//! bytes of the blocks, starting 9 bits wide and growing up to 12 bits as
//! the table of strings fills. Code 256 clears the table and code 257 ends
//! the data. The decoded bytes are written to a buffer of `width *
//! bytes_per_pixel * height` bytes, which starts zeroed.
//!
//! Streams that another encoder would not produce are decoded as the
//! decoder of Visual Pinball does: a code beyond the next free one is read as the
//! previous code, a code beyond the table after a clear code as 0, and
//! table entries are not reset by a clear code.

use vstd::prelude::*;
use vstd::arithmetic::power2::{pow2, lemma_pow2_pos, lemma_pow2_adds, lemma2_to64};
use vstd::arithmetic::mul::lemma_mul_inequality;
use crate::vpx::bitstream::{
    bits_at, read_bits, lemma_bits_at_bound, lemma_bits_at_split, lemma_bits_of_byte,
    lemma_bits_take,
};

verus! {

/// Number of entries of the code tables: codes are at most 12 bits.
pub const TABLE_SIZE: usize = 4096;

/// The code that resets the table.
pub const CLEAR_CODE: u16 = 256;

/// The code that ends the data.
pub const ENDING_CODE: u16 = 257;

/// The first code that stands for a string of the table.
pub const FIRST_FREE_CODE: u16 = 258;

/// The bytes of the blocks that a reader can go through, from the start of
/// `s`: it stops at a block of length 0, and at a block that the data cuts
/// short.
pub open spec fn block_payload(s: Seq<u8>) -> Seq<u8>
    decreases s.len(),
{
    if s.len() == 0 {
        Seq::empty()
    } else {
        let n = s[0] as int;
        if n == 0 || 1 + n > s.len() {
            Seq::empty()
        } else {
            s.subrange(1, 1 + n) + block_payload(s.skip(1 + n))
        }
    }
}

/// The decoder between two codes.
pub struct DecodeState {
    /// The number of bits of the payload read so far.
    pub pos: nat,
    /// The width of the next code.
    pub code_size: nat,
    /// The next free entry of the table.
    pub slot: nat,
    /// The first entry that needs a wider code.
    pub top_slot: nat,
    /// The previous code.
    pub oc: nat,
    /// The first character of the previous string.
    pub fc: nat,
    /// For each entry, the code of the string it extends.
    pub prefix: Seq<u16>,
    /// For each entry, the character it appends.
    pub suffix: Seq<u8>,
    /// The bytes decoded so far.
    pub out: Seq<u8>,
}

/// The decoder before the first code.
pub open spec fn initial_decode_state() -> DecodeState {
    DecodeState {
        pos: 0,
        code_size: 9,
        slot: 258,
        top_slot: 512,
        oc: 0,
        fc: 0,
        prefix: Seq::new(4096, |i: int| 0u16),
        suffix: Seq::new(4096, |i: int| 0u8),
        out: Seq::empty(),
    }
}

/// The characters of the string of `code`, last one first, as the decoder
/// stacks them, with the code of its first character; `None` when they do
/// not fit in `room` more stack entries.
pub open spec fn expand(prefix: Seq<u16>, suffix: Seq<u8>, code: nat, room: nat) -> Option<
    (Seq<u8>, nat),
>
    decreases room,
{
    if room == 0 {
        None
    } else if code < 258 {
        Some((seq![(code % 256) as u8], code))
    } else {
        match expand(prefix, suffix, prefix[code as int] as nat, (room - 1) as nat) {
            Some((rest, first)) => Some((seq![suffix[code as int]] + rest, first)),
            None => None,
        }
    }
}

/// The decoder after a code `c` other than the clear and ending codes,
/// which ends at bit `pos`: the string of the code is appended to the
/// output and, while the table has room, a new entry is added. `None` when
/// the string does not fit in the stack of 4096 entries.
pub open spec fn apply_code(st: DecodeState, c: nat, pos: nat) -> Option<DecodeState> {
    let bad = c >= st.slot;
    let start = if bad { st.oc } else { c };
    let pushed: Seq<u8> = if bad { seq![(st.fc % 256) as u8] } else { Seq::empty() };
    let room: nat = if bad { 4095 } else { 4096 };
    match expand(st.prefix, st.suffix, start, room) {
        None => None,
        Some((chain, first)) => {
            let stack = pushed + chain;
            let grows = st.slot < st.top_slot;
            let slot1 = if grows { st.slot + 1 } else { st.slot };
            let widen = slot1 >= st.top_slot && st.code_size < 12;
            Some(
                DecodeState {
                    pos,
                    code_size: if widen { st.code_size + 1 } else { st.code_size },
                    slot: slot1,
                    top_slot: if widen { 2 * st.top_slot } else { st.top_slot },
                    oc: if grows { c } else { st.oc },
                    fc: if grows { first } else { st.fc },
                    prefix: if grows { st.prefix.update(st.slot as int, st.oc as u16) } else { st.prefix },
                    suffix: if grows { st.suffix.update(st.slot as int, (first % 256) as u8) } else { st.suffix },
                    out: st.out + stack.reverse(),
                },
            )
        },
    }
}

/// The first code of 9 bits from bit `pos` on that is not a clear code,
/// with the bit after it; `None` when the payload ends first.
pub open spec fn skip_clears(p: Seq<u8>, pos: nat) -> Option<(nat, nat)>
    decreases 8 * p.len() - pos,
{
    match read_bits(p, pos as int, 9) {
        None => None,
        Some(c) => if c == 256 {
            skip_clears(p, pos + 9)
        } else {
            Some((c, pos + 9))
        },
    }
}

/// The bytes that decoding the payload `p` from the state `st` on gives
/// when it reaches the ending code, or `None` when the payload ends first
/// or a string does not fit in the stack.
#[verifier::opaque]
pub open spec fn decode_from(p: Seq<u8>, st: DecodeState) -> Option<Seq<u8>>
    decreases 8 * p.len() - st.pos,
{
    if st.code_size == 0 {
        None
    } else {
        match read_bits(p, st.pos as int, st.code_size) {
            None => None,
            Some(c) => {
                let next = st.pos + st.code_size;
                if c == 257 {
                    Some(st.out)
                } else if c == 256 {
                    match skip_clears(p, next) {
                        None => None,
                        Some((c2, pos2)) => if c2 == 257 {
                            Some(st.out)
                        } else {
                            let c3: nat = if c2 >= 258 { 0 } else { c2 };
                            proof {
                                lemma_skip_clears_advances(p, next);
                            }
                            decode_from(
                                p,
                                DecodeState {
                                    pos: pos2,
                                    code_size: 9,
                                    slot: 258,
                                    top_slot: 512,
                                    oc: c3,
                                    fc: c3,
                                    prefix: st.prefix,
                                    suffix: st.suffix,
                                    out: st.out.push((c3 % 256) as u8),
                                },
                            )
                        },
                    }
                } else {
                    match apply_code(st, c, next) {
                        None => None,
                        Some(st2) => decode_from(p, st2),
                    }
                }
            },
        }
    }
}

/// What decoding a block-framed stream gives, before it is laid out in the
/// image buffer.
pub open spec fn lzw_decode(compressed: Seq<u8>) -> Option<Seq<u8>> {
    decode_from(block_payload(compressed), initial_decode_state())
}

/// The image buffer of `capacity` bytes after decoding: the decoded bytes,
/// then zeros. `None` when decoding fails or gives more bytes than fit.
pub open spec fn lzw_decode_into(compressed: Seq<u8>, capacity: nat) -> Option<Seq<u8>> {
    match lzw_decode(compressed) {
        Some(out) => if out.len() <= capacity {
            Some(out + Seq::new((capacity - out.len()) as nat, |i: int| 0u8))
        } else {
            None
        },
        None => None,
    }
}

/// Decoding only ever appends to the output.
pub proof fn lemma_decode_from_extends(p: Seq<u8>, st: DecodeState)
    requires
        decode_from(p, st) is Some,
    ensures
        st.out.len() <= decode_from(p, st)->0.len(),
        decode_from(p, st)->0.take(st.out.len() as int) == st.out,
    decreases 8 * p.len() - st.pos,
{
    reveal(decode_from);
    if st.code_size > 0 {
        let c = read_bits(p, st.pos as int, st.code_size)->0;
        let next = st.pos + st.code_size;
        if c == 257 {
            assert(st.out.take(st.out.len() as int) =~= st.out);
        } else if c == 256 {
            let (c2, pos2) = skip_clears(p, next)->0;
            if c2 == 257 {
                assert(st.out.take(st.out.len() as int) =~= st.out);
            } else {
                let c3: nat = if c2 >= 258 { 0 } else { c2 };
                let st2 = DecodeState {
                    pos: pos2,
                    code_size: 9,
                    slot: 258,
                    top_slot: 512,
                    oc: c3,
                    fc: c3,
                    prefix: st.prefix,
                    suffix: st.suffix,
                    out: st.out.push((c3 % 256) as u8),
                };
                lemma_skip_clears_advances(p, next);
                lemma_decode_from_extends(p, st2);
                let o = decode_from(p, st2)->0;
                assert(o.take(st.out.len() as int) =~= o.take(st2.out.len() as int).take(
                    st.out.len() as int,
                ));
                assert(st2.out.take(st.out.len() as int) =~= st.out);
            }
        } else {
            let st2 = apply_code(st, c, next)->0;
            lemma_decode_from_extends(p, st2);
            let o = decode_from(p, st2)->0;
            assert(o.take(st.out.len() as int) =~= o.take(st2.out.len() as int).take(
                st.out.len() as int,
            ));
            assert(st2.out.take(st.out.len() as int) =~= st.out);
        }
    }
}

/// Skipping clear codes moves forward and stays inside the payload.
pub proof fn lemma_skip_clears_advances(p: Seq<u8>, pos: nat)
    requires
        skip_clears(p, pos) is Some,
    ensures
        pos < (skip_clears(p, pos)->0).1 <= 8 * p.len(),
    decreases 8 * p.len() - pos,
{
    if read_bits(p, pos as int, 9)->0 == 256 {
        lemma_skip_clears_advances(p, pos + 9);
    }
}

/// The codes of a block-framed stream, read least significant bit first.
struct CodeInput {
    data: Vec<u8>,
    /// Where the header of the next block is.
    block_end: usize,
    /// The next unread byte of the current block.
    cursor: usize,
    /// Bits read from the stream but not yet handed out as codes.
    bit_acc: u32,
    num_bits_left: u32,
    /// The number of bits handed out as codes.
    pos: Ghost<nat>,
}

impl CodeInput {
    /// The payload bytes that are still to be read.
    closed spec fn remaining(&self) -> Seq<u8> {
        self.data@.subrange(self.cursor as int, self.block_end as int) + block_payload(
            self.data@.skip(self.block_end as int),
        )
    }

    /// The payload of the whole stream.
    closed spec fn payload(&self) -> Seq<u8> {
        block_payload(self.data@)
    }

    closed spec fn wf(&self) -> bool {
        &&& self.cursor <= self.block_end <= self.data.len()
        &&& self.num_bits_left < 8
        &&& (self.pos@ + self.num_bits_left) % 8 == 0
        &&& (self.pos@ + self.num_bits_left) / 8 <= self.payload().len()
        &&& self.remaining() == self.payload().skip((self.pos@ + self.num_bits_left) / 8)
        &&& self.bit_acc == bits_at(self.payload(), self.pos@ as int, self.num_bits_left as nat)
    }

    fn new(data: Vec<u8>) -> (r: Self)
        ensures
            r.wf(),
            r.pos@ == 0,
            r.data@ == data@,
            r.payload() == block_payload(data@),
    {
        let r = CodeInput {
            data,
            block_end: 0,
            cursor: 0,
            bit_acc: 0,
            num_bits_left: 0,
            pos: Ghost(0),
        };
        proof {
            assert(r.data@.subrange(0, 0) =~= Seq::<u8>::empty());
            assert(r.data@.skip(0) =~= r.data@);
            assert(r.payload().skip(0) =~= r.payload());
            assert(r.remaining() =~= r.payload());
        }
        r
    }

    /// When the current block is used up, moves to the next one if it is
    /// complete and not empty; the bytes still to be read stay the same.
    fn read_next_block(&mut self)
        requires
            old(self).cursor <= old(self).block_end <= old(self).data.len(),
        ensures
            final(self).cursor <= final(self).block_end <= final(self).data.len(),
            final(self).remaining() == old(self).remaining(),
            final(self).data == old(self).data,
            final(self).pos == old(self).pos,
            final(self).bit_acc == old(self).bit_acc,
            final(self).num_bits_left == old(self).num_bits_left,
            final(self).cursor == final(self).block_end ==> final(self).remaining().len() == 0,
    {
        if self.cursor == self.block_end {
            let ghost rest = self.data@.skip(self.block_end as int);
            proof {
                assert(self.data@.subrange(self.cursor as int, self.block_end as int)
                    =~= Seq::<u8>::empty());
                assert(self.remaining() =~= block_payload(rest));
            }
            if self.block_end < self.data.len() {
                let n = self.data[self.block_end] as usize;
                assert(rest[0] == self.data@[self.block_end as int]);
                if n > 0 && n < self.data.len() - self.block_end {
                    let start = self.block_end + 1;
                    proof {
                        assert(rest.subrange(1, 1 + n as int) =~= self.data@.subrange(
                            start as int,
                            start + n,
                        ));
                        assert(rest.skip(1 + n as int) =~= self.data@.skip(start + n));
                    }
                    self.cursor = start;
                    self.block_end = start + n;
                }
            }
        }
    }

    /// The next byte of the payload, or `None` when there is none.
    fn get_byte(&mut self) -> (r: Option<u8>)
        requires
            old(self).cursor <= old(self).block_end <= old(self).data.len(),
        ensures
            final(self).cursor <= final(self).block_end <= final(self).data.len(),
            final(self).data == old(self).data,
            final(self).pos == old(self).pos,
            final(self).bit_acc == old(self).bit_acc,
            final(self).num_bits_left == old(self).num_bits_left,
            match r {
                Some(b) => old(self).remaining().len() > 0 && b == old(self).remaining()[0]
                    && final(self).remaining() == old(self).remaining().drop_first(),
                None => old(self).remaining().len() == 0,
            },
    {
        self.read_next_block();
        if self.cursor == self.block_end {
            return None;
        }
        let ghost before = self.remaining();
        let b = self.data[self.cursor];
        self.cursor = self.cursor + 1;
        proof {
            assert(before[0] == b);
            assert(self.remaining() =~= before.drop_first());
        }
        Some(b)
    }

    /// The next code of `size` bits, or `None` when the payload ends first.
    fn get_next_code(&mut self, size: u32) -> (r: Option<u16>)
        requires
            old(self).wf(),
            1 <= size <= 12,
        ensures
            final(self).data == old(self).data,
            match r {
                Some(c) => read_bits(old(self).payload(), old(self).pos@ as int, size as nat)
                    == Some(c as nat) && final(self).pos@ == old(self).pos@ + size
                    && final(self).wf(),
                None => read_bits(old(self).payload(), old(self).pos@ as int, size as nat) is None,
            },
    {
        let ghost p = self.payload();
        let ghost pos = self.pos@;
        proof {
            lemma2_to64();
        }
        while self.num_bits_left < size
            invariant
                self.cursor <= self.block_end <= self.data.len(),
                self.data == old(self).data,
                p == self.payload(),
                self.pos@ == pos,
                pos == old(self).pos@,
                1 <= size <= 12,
                self.num_bits_left < size + 8,
                (pos + self.num_bits_left) % 8 == 0,
                (pos + self.num_bits_left) / 8 <= p.len(),
                self.remaining() == p.skip((pos + self.num_bits_left) / 8),
                self.bit_acc == bits_at(p, pos as int, self.num_bits_left as nat),
                read_bits(p, pos as int, size as nat) is None ==> pos + size > 8 * p.len(),
            decreases size + 8 - self.num_bits_left,
        {
            let ghost k = (pos + self.num_bits_left) / 8;
            match self.get_byte() {
                None => {
                    proof {
                        assert(p.skip(k as int).len() == 0);
                    }
                    return None;
                },
                Some(b) => {
                    let n = self.num_bits_left;
                    proof {
                        assert(b == p[k as int]);
                        lemma_bits_of_byte(p, k as int);
                        assert(8 * k == pos + n);
                        lemma_bits_at_split(p, pos as int, n as nat, 8);
                        lemma_bits_at_bound(p, pos as int, n as nat);
                        lemma2_to64();
                        vstd::bits::lemma_u32_pow2_no_overflow(n as nat);
                        vstd::bits::lemma_u32_shl_is_mul(1, n);
                        lemma_pow2_pos(n as nat);
                        lemma_mul_inequality(b as int, 255, pow2(n as nat) as int);
                        vstd::arithmetic::power2::lemma_pow2_strictly_increases(n as nat, 20);
                        assert(pow2(20) == 0x100000);
                        assert(p.skip(k as int).drop_first() =~= p.skip(k + 1));
                    }
                    let unit: u32 = 1u32 << n;
                    let ghost acc0 = self.bit_acc;
                    proof {
                        assert(pos + n == 8 * k);
                        assert(bits_at(p, 8 * k, 8) == b);
                        assert(bits_at(p, pos as int, (n + 8) as nat) == acc0 + pow2(n as nat)
                            * bits_at(p, pos + n, 8));
                    }
                    self.bit_acc = self.bit_acc + (b as u32) * unit;
                    self.num_bits_left = n + 8;
                    proof {
                        assert(self.bit_acc == acc0 + b * pow2(n as nat));
                    }
                },
            }
        }
        let n = self.num_bits_left;
        proof {
            lemma_bits_take(p, pos as int, size as nat, n as nat);
            vstd::bits::lemma_u32_pow2_no_overflow(size as nat);
            vstd::bits::lemma_u32_shl_is_mul(1, size);
            lemma_bits_at_bound(p, pos as int, size as nat);
            vstd::arithmetic::power2::lemma_pow2_strictly_increases(size as nat, 16);
            assert(pow2(16) == 0x10000);
        }
        let unit: u32 = 1u32 << size;
        let code = self.bit_acc % unit;
        self.bit_acc = self.bit_acc / unit;
        self.num_bits_left = n - size;
        self.pos = Ghost((pos + size) as nat);
        proof {
            assert(pos + size + (n - size) == pos + n);
        }
        Some(code as u16)
    }
}

/// `stack` prepended to what [`expand`] gives.
pub open spec fn prepend_chain(stack: Seq<u8>, r: Option<(Seq<u8>, nat)>) -> Option<(Seq<u8>, nat)> {
    match r {
        Some((rest, first)) => Some((stack + rest, first)),
        None => None,
    }
}

/// What decoding gives after a clear code read from the state `st` that
/// ends at bit `next`.
pub open spec fn after_clear(p: Seq<u8>, st: DecodeState, next: nat) -> Option<Seq<u8>> {
    match skip_clears(p, next) {
        None => None,
        Some((c2, pos2)) => if c2 == 257 {
            Some(st.out)
        } else {
            let c3: nat = if c2 >= 258 { 0 } else { c2 };
            decode_from(
                p,
                DecodeState {
                    pos: pos2,
                    code_size: 9,
                    slot: 258,
                    top_slot: 512,
                    oc: c3,
                    fc: c3,
                    prefix: st.prefix,
                    suffix: st.suffix,
                    out: st.out.push((c3 % 256) as u8),
                },
            )
        },
    }
}

/// What decoding gives after a code `c` other than the clear and ending
/// codes read from the state `st` that ends at bit `next`.
pub open spec fn after_code(p: Seq<u8>, st: DecodeState, c: nat, next: nat) -> Option<Seq<u8>> {
    match apply_code(st, c, next) {
        None => None,
        Some(st2) => decode_from(p, st2),
    }
}

/// One step of decoding, by the code read at the current position.
pub proof fn lemma_decode_step(p: Seq<u8>, st: DecodeState, c: nat)
    requires
        st.code_size > 0,
    ensures
        read_bits(p, st.pos as int, st.code_size) is None ==> decode_from(p, st) is None,
        read_bits(p, st.pos as int, st.code_size) == Some(c) ==> {
            &&& c == 257 ==> decode_from(p, st) == Some(st.out)
            &&& c == 256 ==> decode_from(p, st) == after_clear(p, st, st.pos + st.code_size)
            &&& c != 256 && c != 257 ==> decode_from(p, st) == after_code(
                p,
                st,
                c,
                st.pos + st.code_size,
            )
        },
{
    reveal(decode_from);
}

/// Decoding fails, or gives more than `capacity` bytes.
pub open spec fn fails(r: Option<Seq<u8>>, capacity: nat) -> bool {
    r is None || r->0.len() > capacity
}

/// How a step of the decoder ends.
enum StepOutcome {
    /// The next code is to be read.
    Continue,
    /// The ending code was read.
    Ended,
    /// The payload ended, a string did not fit or the image is full.
    Failed,
}

/// Visual Pinball's LZW decoder for the bitmaps stored in tables.
pub(crate) struct LzwReader {
    compressed_data: CodeInput,
    decompressed_data: Vec<u8>,
    /// Where the next line of the image starts.
    decompressed_data_cursor: usize,
    /// Where the next decoded byte goes.
    out_pos: usize,
    /// The number of bytes of a line of pixels.
    stride: u32,
    lines_left: u32,
    /// The width of the next code, 9 to 12 bits.
    current_code_size: u32,
    /// The first entry that needs a wider code.
    top_slot: u16,
    /// The next free entry.
    slot: u16,
    /// For each entry, the character it appends.
    suffix: Vec<u8>,
    /// For each entry, the code of the string it extends.
    prefix: Vec<u16>,
}

impl LzwReader {
    /// The compressed stream.
    pub(crate) closed spec fn compressed(&self) -> Seq<u8> {
        self.compressed_data.data@
    }

    /// The size of the image buffer.
    pub(crate) closed spec fn capacity(&self) -> nat {
        self.decompressed_data@.len()
    }

    /// The decoder state that the fields stand for, with the previous code
    /// and the first character of the previous string.
    closed spec fn state(&self, oc: nat, fc: nat) -> DecodeState {
        DecodeState {
            pos: self.compressed_data.pos@,
            code_size: self.current_code_size as nat,
            slot: self.slot as nat,
            top_slot: self.top_slot as nat,
            oc,
            fc,
            prefix: self.prefix@,
            suffix: self.suffix@,
            out: self.decompressed_data@.take(self.out_pos as int),
        }
    }

    closed spec fn wf(&self) -> bool {
        &&& self.compressed_data.wf()
        &&& self.out_pos <= self.decompressed_data.len()
        &&& forall|i: int|
            self.out_pos <= i < self.decompressed_data.len() ==> #[trigger] self.decompressed_data@[i]
                == 0
        &&& self.prefix.len() == 4096
        &&& self.suffix.len() == 4096
        &&& forall|i: int| 0 <= i < 4096 ==> #[trigger] self.prefix@[i] < 4096
        &&& 9 <= self.current_code_size <= 12
        &&& 258 <= self.slot <= self.top_slot <= 4096
        &&& self.top_slot >= 512
        &&& (self.current_code_size < 12 ==> self.slot < self.top_slot)
        &&& self.top_slot <= pow2(self.current_code_size as nat)
    }

    /// A decoder that has not read anything yet.
    pub(crate) closed spec fn is_fresh(&self) -> bool {
        &&& self.wf()
        &&& self.state(0, 0) == initial_decode_state()
        &&& self.compressed_data.payload() == block_payload(self.compressed())
        &&& self.lines_left > 0
        &&& self.decompressed_data_cursor == 0
    }

    /// A decoder for `compressed_data`, an image of `height` lines of `width`
    /// pixels of `bytes_per_pixel` bytes.
    pub(crate) fn new(compressed_data: Vec<u8>, width: u32, height: u32, bytes_per_pixel: u8) -> (r:
        LzwReader)
        requires
            width * bytes_per_pixel <= u32::MAX,
            width * bytes_per_pixel * height <= u32::MAX,
            height < u32::MAX,
        ensures
            r.is_fresh(),
            r.compressed() == compressed_data@,
            r.capacity() == width * bytes_per_pixel * height,
    {
        let stride: u32 = width * bytes_per_pixel as u32;
        let bits_out: Vec<u8> = vec![0u8; (stride * height) as usize];
        let r = LzwReader {
            compressed_data: CodeInput::new(compressed_data),
            decompressed_data: bits_out,
            decompressed_data_cursor: 0,
            out_pos: 0,
            stride,
            lines_left: height + 1,
            current_code_size: 9,
            top_slot: 512,
            slot: 258,
            suffix: vec![0u8; 4096],
            prefix: vec![0u16; 4096],
        };
        proof {
            lemma2_to64();
            assert(r.decompressed_data@.take(0) =~= Seq::<u8>::empty());
            assert(r.prefix@ =~= Seq::new(4096, |i: int| 0u16));
            assert(r.suffix@ =~= Seq::new(4096, |i: int| 0u8));
        }
        r
    }

    /// Sets the decoder up for 8-bit symbols: codes 9 bits wide, the table
    /// empty after the clear and ending codes.
    fn init_exp(&mut self)
        requires
            old(self).wf(),
        ensures
            final(self).wf(),
            final(self).state(0, 0) == (DecodeState {
                code_size: 9,
                slot: 258,
                top_slot: 512,
                ..old(self).state(0, 0)
            }),
            *final(self) == (LzwReader {
                current_code_size: 9,
                top_slot: 512,
                slot: 258,
                ..*old(self)
            }),
    {
        self.current_code_size = 9;
        self.top_slot = 512;
        self.slot = 258;
        proof {
            lemma2_to64();
        }
    }

    /// Starts the next line of the image and returns where it starts.
    fn next_line(&mut self) -> (r: usize)
        requires
            old(self).lines_left > 0,
            old(self).decompressed_data_cursor + old(self).stride <= usize::MAX,
        ensures
            r == old(self).decompressed_data_cursor,
            final(self).decompressed_data_cursor == r + old(self).stride,
            final(self).lines_left == old(self).lines_left - 1,
            *final(self) == (LzwReader {
                decompressed_data_cursor: final(self).decompressed_data_cursor,
                lines_left: final(self).lines_left,
                ..*old(self)
            }),
    {
        let next_line_cursor = self.decompressed_data_cursor;
        self.decompressed_data_cursor = self.decompressed_data_cursor + self.stride as usize;
        self.lines_left = self.lines_left - 1;
        next_line_cursor
    }

    /// The next code, at the current width.
    fn get_next_code(&mut self) -> (r: Option<u16>)
        requires
            old(self).wf(),
        ensures
            *final(self) == (LzwReader { compressed_data: final(self).compressed_data, ..*old(self) }),
            final(self).compressed_data.data == old(self).compressed_data.data,
            match r {
                Some(c) => read_bits(
                    old(self).compressed_data.payload(),
                    old(self).compressed_data.pos@ as int,
                    old(self).current_code_size as nat,
                ) == Some(c as nat) && final(self).compressed_data.pos@
                    == old(self).compressed_data.pos@ + old(self).current_code_size
                    && final(self).wf(),
                None => read_bits(
                    old(self).compressed_data.payload(),
                    old(self).compressed_data.pos@ as int,
                    old(self).current_code_size as nat,
                ) is None,
            },
    {
        self.compressed_data.get_next_code(self.current_code_size)
    }

    /// Appends a decoded byte to the image; `false` when the image is full.
    fn put_byte(&mut self, b: u8) -> (ok: bool)
        requires
            old(self).wf(),
        ensures
            final(self).wf(),
            ok <==> old(self).out_pos < old(self).decompressed_data.len(),
            ok ==> final(self).decompressed_data@.take(final(self).out_pos as int)
                == old(self).decompressed_data@.take(old(self).out_pos as int).push(b),
            ok ==> final(self).out_pos == old(self).out_pos + 1,
            !ok ==> *final(self) == *old(self),
            *final(self) == (LzwReader {
                decompressed_data: final(self).decompressed_data,
                out_pos: final(self).out_pos,
                ..*old(self)
            }),
            final(self).decompressed_data.len() == old(self).decompressed_data.len(),
    {
        if self.out_pos >= self.decompressed_data.len() {
            return false;
        }
        let ghost before = self.decompressed_data@;
        self.decompressed_data.set(self.out_pos, b);
        self.out_pos = self.out_pos + 1;
        proof {
            assert(self.decompressed_data@.take(self.out_pos as int) =~= before.take(
                self.out_pos - 1,
            ).push(b));
        }
        true
    }

    /// Hands the image buffer out.
    fn take_image(&mut self) -> (r: Vec<u8>)
        ensures
            r@ == old(self).decompressed_data@,
    {
        let mut result: Vec<u8> = Vec::new();
        std::mem::swap(&mut result, &mut self.decompressed_data);
        result
    }

    /// The image buffer: the bytes decoded so far, then zeros.
    proof fn lemma_buffer_layout(&self)
        requires
            self.wf(),
        ensures
            self.decompressed_data@ == self.decompressed_data@.take(self.out_pos as int) + Seq::new(
                (self.decompressed_data@.len() - self.out_pos) as nat,
                |i: int| 0u8,
            ),
    {
        assert(self.decompressed_data@ =~= self.decompressed_data@.take(self.out_pos as int)
            + Seq::new(
            (self.decompressed_data@.len() - self.out_pos) as nat,
            |i: int| 0u8,
        ));
    }

    /// The string of `code`, last character first, pushed after what `stack`
    /// already holds, with the code of its first character; `None` when it
    /// does not fit in the stack of 4096 entries.
    #[verifier::loop_isolation(false)]
    fn expand_code(&self, code: u16, stack: Vec<u8>) -> (r: Option<(Vec<u8>, u16)>)
        requires
            self.wf(),
            code < 4096,
            stack.len() <= 4096,
        ensures
            match r {
                Some((s, first)) => expand(self.prefix@, self.suffix@, code as nat, (4096 - stack.len()) as nat)
                    == Some((s@.skip(stack.len() as int), first as nat)) && s@.len() >= stack.len()
                    && s@.take(stack.len() as int) == stack@ && first < 258,
                None => expand(self.prefix@, self.suffix@, code as nat, (4096 - stack.len()) as nat) is None,
            },
    {
        let ghost k0 = stack.len();
        let ghost start = code as nat;
        let ghost room0 = (4096 - k0) as nat;
        let ghost pushed0 = stack@;
        let mut stack = stack;
        let mut code = code;
        proof {
            assert(stack@.skip(k0 as int) =~= Seq::<u8>::empty());
            match expand(self.prefix@, self.suffix@, start, room0) {
                Some((rest, f)) => {
                    assert(Seq::<u8>::empty() + rest =~= rest);
                },
                None => {},
            }
        }
        while code >= FIRST_FREE_CODE
            invariant
                self.wf(),
                k0 <= stack.len() <= 4096,
                stack@.take(k0 as int) == pushed0,
                code < 4096,
                expand(self.prefix@, self.suffix@, start, room0) == prepend_chain(
                    stack@.skip(k0 as int),
                    expand(self.prefix@, self.suffix@, code as nat, (4096 - stack.len()) as nat),
                ),
            decreases 4096 - stack.len(),
        {
            if stack.len() >= 4096 {
                return None;
            }
            let ghost before = stack@;
            let ghost sfx = self.suffix@[code as int];
            stack.push(self.suffix[code as usize]);
            code = self.prefix[code as usize];
            proof {
                assert(stack@.take(k0 as int) =~= before.take(k0 as int));
                assert(stack@.skip(k0 as int) =~= before.skip(k0 as int) + seq![sfx]);
                let room = (4096 - before.len()) as nat;
                match expand(self.prefix@, self.suffix@, code as nat, (room - 1) as nat) {
                    Some((rest, f)) => {
                        assert(before.skip(k0 as int) + (seq![sfx] + rest) =~= (before.skip(
                            k0 as int,
                        ) + seq![sfx]) + rest);
                    },
                    None => {},
                }
            }
        }
        if stack.len() >= 4096 {
            return None;
        }
        let ghost before = stack@;
        stack.push((code % 256) as u8);
        proof {
            assert(stack@.take(k0 as int) =~= before.take(k0 as int));
            assert(stack@.skip(k0 as int) =~= before.skip(k0 as int) + seq![(code as nat % 256) as u8]);
        }
        Some((stack, code))
    }

    /// Appends the characters of `stack` to the image, last one first;
    /// `false` when they do not all fit.
    #[verifier::loop_isolation(false)]
    fn put_reversed(&mut self, stack: &Vec<u8>) -> (ok: bool)
        requires
            old(self).wf(),
        ensures
            final(self).wf(),
            final(self).decompressed_data.len() == old(self).decompressed_data.len(),
            ok ==> final(self).decompressed_data@.take(final(self).out_pos as int)
                == old(self).decompressed_data@.take(old(self).out_pos as int) + stack@.reverse(),
            *final(self) == (LzwReader {
                decompressed_data: final(self).decompressed_data,
                out_pos: final(self).out_pos,
                ..*old(self)
            }),
            !ok ==> old(self).out_pos + stack.len() > old(self).decompressed_data.len(),
    {
        let ghost out_before = self.decompressed_data@.take(self.out_pos as int);
        let ghost start = *self;
        let n = stack.len();
        let mut k = n;
        proof {
            assert(stack@.subrange(n as int, n as int).reverse() =~= Seq::<u8>::empty());
            assert(out_before + Seq::<u8>::empty() =~= out_before);
        }
        while k > 0
            invariant
                self.wf(),
                k <= n,
                n == stack.len(),
                self.decompressed_data.len() == start.decompressed_data.len(),
                *self == (LzwReader {
                    decompressed_data: self.decompressed_data,
                    out_pos: self.out_pos,
                    ..start
                }),
                self.out_pos == start.out_pos + (n - k),
                self.decompressed_data@.take(self.out_pos as int) == out_before + stack@.subrange(
                    k as int,
                    n as int,
                ).reverse(),
            decreases k,
        {
            k = k - 1;
            if !self.put_byte(stack[k]) {
                return false;
            }
            proof {
                assert(stack@.subrange(k as int, n as int).reverse() =~= stack@.subrange(
                    k + 1,
                    n as int,
                ).reverse().push(stack@[k as int]));
            }
        }
        proof {
            assert(stack@.subrange(0, n as int) =~= stack@);
        }
        true
    }

    /// After a clear code that ends at bit `next`, read from the state `st`:
    /// resets the table, skips further clear codes and puts the character
    /// of the next code.
    #[verifier::loop_isolation(false)]
    fn restart_after_clear(
        &mut self,
        oc: &mut u16,
        fc: &mut u16,
        Ghost(st): Ghost<DecodeState>,
        Ghost(next): Ghost<nat>,
    ) -> (r: StepOutcome)
        requires
            old(self).wf(),
            old(self).state(*old(oc) as nat, *old(fc) as nat) == (DecodeState { pos: next, ..st }),
            st.pos < next,
        ensures
            final(self).compressed_data.payload() == old(self).compressed_data.payload(),
            final(self).compressed() == old(self).compressed(),
            final(self).capacity() == old(self).capacity(),
            match r {
                StepOutcome::Continue => {
                    &&& final(self).wf()
                    &&& *final(oc) < 4096
                    &&& *final(fc) < 4096
                    &&& final(self).compressed_data.pos@ > st.pos
                    &&& decode_from(
                        final(self).compressed_data.payload(),
                        final(self).state(*final(oc) as nat, *final(fc) as nat),
                    ) == after_clear(old(self).compressed_data.payload(), st, next)
                },
                StepOutcome::Ended => {
                    &&& after_clear(old(self).compressed_data.payload(), st, next) == Some(st.out)
                    &&& final(self).wf()
                    &&& final(self).state(st.oc, st.fc).out == st.out
                    &&& final(self).decompressed_data == old(self).decompressed_data
                    &&& final(self).out_pos == old(self).out_pos
                },
                StepOutcome::Failed => fails(
                    after_clear(old(self).compressed_data.payload(), st, next),
                    old(self).capacity(),
                ),
            },
    {
        let ghost p = self.compressed_data.payload();
        self.current_code_size = 9;
        self.slot = FIRST_FREE_CODE;
        self.top_slot = 512;
        proof {
            lemma2_to64();
        }
        let mut c2 = match self.get_next_code() {
            Some(c2) => c2,
            None => {
                return StepOutcome::Failed;
            },
        };
        while c2 == CLEAR_CODE
            invariant
                self.wf(),
                self.compressed_data.payload() == p,
                self.current_code_size == 9,
                self.slot == 258,
                self.top_slot == 512,
                self.compressed_data.pos@ >= next + 9,
                skip_clears(p, next) == skip_clears(p, (self.compressed_data.pos@ - 9) as nat),
                read_bits(p, self.compressed_data.pos@ - 9, 9) == Some(c2 as nat),
                st.out == self.decompressed_data@.take(self.out_pos as int),
                st.prefix == self.prefix@,
                st.suffix == self.suffix@,
                self.decompressed_data.len() == old(self).decompressed_data.len(),
                self.compressed_data.data == old(self).compressed_data.data,
                self.decompressed_data == old(self).decompressed_data,
                self.out_pos == old(self).out_pos,
            decreases 8 * p.len() - self.compressed_data.pos@,
        {
            let ghost q = self.compressed_data.pos@;
            proof {
                assert(skip_clears(p, (q - 9) as nat) == skip_clears(p, q));
            }
            c2 = match self.get_next_code() {
                Some(c2) => c2,
                None => {
                    return StepOutcome::Failed;
                },
            };
        }
        let ghost pos2 = self.compressed_data.pos@;
        proof {
            assert(skip_clears(p, next) == Some((c2 as nat, pos2)));
            lemma_bits_at_bound(p, pos2 - 9, 9);
        }
        if c2 == ENDING_CODE {
            return StepOutcome::Ended;
        }
        if c2 >= self.slot {
            c2 = 0;
        }
        *fc = c2;
        *oc = c2;
        let ghost st2 = DecodeState {
            pos: pos2,
            code_size: 9,
            slot: 258,
            top_slot: 512,
            oc: c2 as nat,
            fc: c2 as nat,
            prefix: st.prefix,
            suffix: st.suffix,
            out: st.out.push((c2 as nat % 256) as u8),
        };
        if !self.put_byte(c2 as u8) {
            proof {
                if decode_from(p, st2) is Some {
                    lemma_decode_from_extends(p, st2);
                }
            }
            return StepOutcome::Failed;
        }
        proof {
            assert(self.state(*oc as nat, *fc as nat) == st2);
        }
        StepOutcome::Continue
    }

    /// After a code `c` other than the clear and ending codes that ends at bit
    /// `next`, read from the state `st`: puts the string of the code and
    /// adds an entry to the table while it has room.
    fn apply_normal_code(
        &mut self,
        c: u16,
        oc: &mut u16,
        fc: &mut u16,
        Ghost(st): Ghost<DecodeState>,
        Ghost(next): Ghost<nat>,
    ) -> (r: StepOutcome)
        requires
            old(self).wf(),
            old(self).state(*old(oc) as nat, *old(fc) as nat) == (DecodeState { pos: next, ..st }),
            st.pos < next,
            c < 4096,
            *old(oc) < 4096,
            *old(fc) < 4096,
        ensures
            final(self).compressed_data == old(self).compressed_data,
            final(self).capacity() == old(self).capacity(),
            match r {
                StepOutcome::Continue => {
                    &&& final(self).wf()
                    &&& *final(oc) < 4096
                    &&& *final(fc) < 4096
                    &&& decode_from(
                        final(self).compressed_data.payload(),
                        final(self).state(*final(oc) as nat, *final(fc) as nat),
                    ) == after_code(old(self).compressed_data.payload(), st, c as nat, next)
                },
                StepOutcome::Ended => false,
                StepOutcome::Failed => fails(
                    after_code(old(self).compressed_data.payload(), st, c as nat, next),
                    old(self).capacity(),
                ),
            },
    {
        let ghost p = self.compressed_data.payload();
        let bad = c >= self.slot;
        let mut stack: Vec<u8> = Vec::new();
        let start = if bad {
            stack.push((*fc % 256) as u8);
            *oc
        } else {
            c
        };
        let ghost pushed = stack@;
        let (stack, code) = match self.expand_code(start, stack) {
            Some(found) => found,
            None => {
                return StepOutcome::Failed;
            },
        };
        let ghost chain = stack@.skip(pushed.len() as int);
        proof {
            assert(stack@ =~= pushed + chain);
            assert(expand(st.prefix, st.suffix, start as nat, (if bad { 4095nat } else { 4096nat }))
                == Some((chain, code as nat)));
        }
        let ghost st2 = apply_code(st, c as nat, next)->0;
        if self.slot < self.top_slot {
            *fc = code;
            self.suffix.set(self.slot as usize, (code % 256) as u8);
            self.prefix.set(self.slot as usize, *oc);
            self.slot = self.slot + 1;
            *oc = c;
        }
        if self.slot >= self.top_slot && self.current_code_size < 12 {
            proof {
                lemma2_to64();
                vstd::arithmetic::power2::lemma_pow2_unfold((self.current_code_size + 1) as nat);
                vstd::arithmetic::power2::lemma_pow2_strictly_increases(
                    self.current_code_size as nat,
                    12,
                );
            }
            self.top_slot = self.top_slot * 2;
            self.current_code_size = self.current_code_size + 1;
        }
        proof {
            assert(self.state(*oc as nat, *fc as nat) == (DecodeState { out: st.out, ..st2 }));
            assert(st2.out == st.out + stack@.reverse());
        }
        if !self.put_reversed(&stack) {
            proof {
                if decode_from(p, st2) is Some {
                    lemma_decode_from_extends(p, st2);
                }
            }
            return StepOutcome::Failed;
        }
        proof {
            assert(self.state(*oc as nat, *fc as nat) == st2);
        }
        StepOutcome::Continue
    }

    /// Decodes the whole stream into the image buffer, which then holds the
    /// decoded bytes followed by zeros. `None` when the payload ends before
    /// the ending code, a string does not fit in the stack of 4096 entries,
    /// or the decoded bytes do not fit in the image.
    pub(crate) fn try_decompress(&mut self) -> (r: Option<Vec<u8>>)
        requires
            old(self).is_fresh(),
        ensures
            match r {
                Some(v) => lzw_decode_into(old(self).compressed(), old(self).capacity()) == Some(v@),
                None => lzw_decode_into(old(self).compressed(), old(self).capacity()) is None,
            },
    {
        let ghost p = self.compressed_data.payload();
        let ghost compressed = self.compressed();
        let ghost cap = self.capacity();
        let ghost target = decode_from(p, initial_decode_state());
        let mut fc: u16 = 0;
        self.init_exp();
        let mut oc: u16 = fc;
        let _line = self.next_line();
        loop
            invariant
                self.wf(),
                self.compressed_data.payload() == p,
                p == block_payload(compressed),
                self.compressed() == compressed,
                self.capacity() == cap,
                oc < 4096,
                fc < 4096,
                target == decode_from(block_payload(compressed), initial_decode_state()),
                decode_from(p, self.state(oc as nat, fc as nat)) == target,
                compressed == old(self).compressed(),
                cap == old(self).capacity(),
            decreases 8 * p.len() - self.compressed_data.pos@,
        {
            let ghost st = self.state(oc as nat, fc as nat);
            let ghost size = self.current_code_size as nat;
            let c = match self.get_next_code() {
                Some(c) => c,
                None => {
                    proof {
                        lemma_decode_step(p, st, 0);
                        assert(target is None);
                        assert(lzw_decode(compressed) == target);
                    }
                    return None;
                },
            };
            let ghost next = st.pos + size;
            proof {
                lemma2_to64();
                lemma_bits_at_bound(p, st.pos as int, size);
                if size < 12 {
                    vstd::arithmetic::power2::lemma_pow2_strictly_increases(size, 12);
                }
                assert(self.state(oc as nat, fc as nat) == (DecodeState { pos: next, ..st }));
                lemma_decode_step(p, st, c as nat);
            }
            if c == ENDING_CODE {
                proof {
                    assert(target == Some(st.out));
                    self.lemma_buffer_layout();
                    assert(self.decompressed_data@ =~= st.out + Seq::new(
                        (cap - st.out.len()) as nat,
                        |i: int| 0u8,
                    ));
                    assert(lzw_decode(compressed) == target);
                }
                return Some(self.take_image());
            } else if c == CLEAR_CODE {
                match self.restart_after_clear(&mut oc, &mut fc, Ghost(st), Ghost(next)) {
                    StepOutcome::Continue => {},
                    StepOutcome::Ended => {
                        proof {
                            assert(target == Some(st.out));
                            self.lemma_buffer_layout();
                            assert(self.decompressed_data@ =~= st.out + Seq::new(
                                (cap - st.out.len()) as nat,
                                |i: int| 0u8,
                            ));
                            assert(lzw_decode(compressed) == target);
                        }
                        return Some(self.take_image());
                    },
                    StepOutcome::Failed => {
                        proof {
                            assert(fails(target, cap));
                            assert(lzw_decode(compressed) == target);
                        }
                        return None;
                    },
                }
            } else {
                match self.apply_normal_code(c, &mut oc, &mut fc, Ghost(st), Ghost(next)) {
                    StepOutcome::Continue => {},
                    StepOutcome::Ended => {
                        return None;
                    },
                    StepOutcome::Failed => {
                        proof {
                            assert(fails(target, cap));
                            assert(lzw_decode(compressed) == target);
                        }
                        return None;
                    },
                }
            }
        }
    }

    /// Decodes a stream that holds an image of the reader's size: the image
    /// buffer, the decoded bytes followed by zeros.
    pub(crate) fn decompress(&mut self) -> (r: Vec<u8>)
        requires
            old(self).is_fresh(),
            lzw_decode_into(old(self).compressed(), old(self).capacity()) is Some,
        ensures
            Some(r@) == lzw_decode_into(old(self).compressed(), old(self).capacity()),
    {
        match self.try_decompress() {
            Some(v) => v,
            None => Vec::new(),
        }
    }
}

} // verus!
