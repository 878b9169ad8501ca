//! Sequential bit-granular reading from a borrowed byte buffer.
use vstd::prelude::*;
use vstd::arithmetic::power2::*;
use vstd::arithmetic::div_mod::*;
use vstd::bits::*;
use vstd::arithmetic::mul::*;

use crate::error::BitError;
use crate::varint::{
    varint_consumed,
    CONTINUE_BIT, PAYLOAD_BITS, VarintError, accumulate, continued_prefix, decode_uvarint,
    lemma_payload_bound, lemma_payload_push, lemma_prefix_at_least, lemma_prefix_le_len,
    lemma_uvarint_round_trip, max_varint_len, max_varint_size, payload_value, unzigzag,
    uvarint_bytes, zigzag_decode32, zigzag_decode64,
};
use crate::masks::{extra_mask, lemma_low_mask_value};
use crate::model::{
    bytes_value, field_value, lemma_digit, lemma_field_bound, lemma_field_split,
    lemma_low_field, lemma_or_is_add, lemma_pow2_small, lemma_replace_block,
    lemma_spanning_field, lemma_value_bound, lemma_value_update, lemma_written_bytes,
    load_word, replace_bits, store_word,
};

verus! {

/// The whole bytes that a reader at bit `pos` of `s` can still read, one
/// after another.
pub open spec fn cursor_bytes(s: Seq<u8>, pos: nat) -> Seq<u8> {
    Seq::new(((8 * s.len() - pos) / 8) as nat, |i: int| field_value(s, (pos + 8 * i) as nat, 8) as u8)
}

/// A read cursor over a byte buffer whose length is a whole number of 64-bit
/// words. Bit 0 is the least-significant bit of byte 0.
pub struct BitReader<'a> {
    num_bits: usize,
    data: &'a [u8],
    cur_bit: usize,
}

impl<'a> BitReader<'a> {
    /// The bytes being read.
    pub closed spec fn bytes(&self) -> Seq<u8> {
        self.data@
    }

    /// The read cursor, in bits from the start of the buffer.
    pub closed spec fn pos(&self) -> nat {
        self.cur_bit as nat
    }

    /// Total size of the buffer in bits.
    pub open spec fn bit_len(&self) -> nat {
        8 * self.bytes().len()
    }

    /// Bits between the cursor and the end of the buffer.
    pub open spec fn bits_left(&self) -> int {
        self.bit_len() - self.pos()
    }

    /// The reader's invariant: the cursor lies within the buffer and the buffer
    /// is a whole number of 64-bit words.
    pub closed spec fn wf(&self) -> bool {
        &&& self.num_bits == 8 * self.data@.len()
        &&& self.cur_bit <= self.num_bits
        &&& self.data@.len() % 8 == 0
    }

    /// What the invariant tells a caller.
    pub proof fn lemma_wf(&self)
        requires
            self.wf(),
        ensures
            self.pos() <= self.bit_len(),
            self.bit_len() <= usize::MAX,
            self.bytes().len() % 8 == 0,
    {
    }

    /// Borrows `data` for reading from its first bit.
    pub fn new(data: &'a [u8]) -> (r: Self)
        requires
            data@.len() % 8 == 0,
            8 * data@.len() <= usize::MAX,
        ensures
            r.wf(),
            r.bytes() == data@,
            r.pos() == 0,
    {
        Self { num_bits: data.len() * 8, data, cur_bit: 0 }
    }

    pub fn num_bits_left(&self) -> (r: usize)
        requires
            self.wf(),
        ensures
            r == self.bits_left(),
    {
        self.num_bits - self.cur_bit
    }

    pub fn num_bytes_left(&self) -> (r: usize)
        requires
            self.wf(),
        ensures
            r == self.bits_left() / 8,
    {
        self.num_bits_left() / 8
    }

    pub fn num_bits_read(&self) -> (r: usize)
        ensures
            r == self.pos(),
    {
        self.cur_bit
    }

    /// Bytes touched so far: the bits read, rounded up to whole bytes.
    pub fn num_bytes_read(&self) -> (r: usize)
        ensures
            r == (self.pos() + 7) / 8,
    {
        self.cur_bit / 8 + if self.cur_bit % 8 == 0 {
            0
        } else {
            1
        }
    }

    /// Moves the cursor to bit `bit`.
    pub fn seek(&mut self, bit: usize) -> (r: Result<(), BitError>)
        requires
            old(self).wf(),
        ensures
            final(self).wf(),
            final(self).bytes() == old(self).bytes(),
            bit <= old(self).bit_len() ==> r is Ok && final(self).pos() == bit,
            bit > old(self).bit_len() ==> r == Err::<(), BitError>(BitError::Overflow)
                && final(self).pos() == old(self).pos(),
    {
        if bit > self.num_bits {
            return Err(BitError::Overflow);
        }
        self.cur_bit = bit;
        Ok(())
    }

    /// Moves the cursor by `bit_delta` bits and returns the new position.
    pub fn seek_relative(&mut self, bit_delta: isize) -> (r: Result<usize, BitError>)
        requires
            old(self).wf(),
        ensures
            final(self).wf(),
            final(self).bytes() == old(self).bytes(),
            ({
                let target = old(self).pos() + bit_delta;
                if 0 <= target <= old(self).bit_len() {
                    r == Ok::<usize, BitError>(target as usize) && final(self).pos() == target
                } else {
                    r == Err::<usize, BitError>(BitError::Overflow) && final(self).pos()
                        == old(self).pos()
                }
            }),
    {
        let bit = if bit_delta < 0 {
            let back = (-(bit_delta + 1)) as usize + 1;
            if back > self.cur_bit {
                return Err(BitError::Overflow);
            }
            self.cur_bit - back
        } else {
            let ahead = bit_delta as usize;
            if ahead > self.num_bits - self.cur_bit {
                return Err(BitError::Overflow);
            }
            self.cur_bit + ahead
        };
        self.cur_bit = bit;
        Ok(bit)
    }

    /// Reads `num_bits` bits at the cursor, least-significant first, without a
    /// bounds check: the caller has established that they are there.
    pub fn read_ubit64_unchecked(&mut self, num_bits: usize) -> (r: u64)
        requires
            old(self).wf(),
            num_bits <= 64,
            num_bits <= old(self).bits_left(),
        ensures
            final(self).wf(),
            final(self).bytes() == old(self).bytes(),
            final(self).pos() == old(self).pos() + num_bits,
            r as nat == field_value(old(self).bytes(), old(self).pos(), num_bits as nat),
    {
        let ghost v = bytes_value(self.data@);
        let ghost pos = self.cur_bit as nat;
        if num_bits == 0 {
            proof {
                lemma_pow2_small();
                lemma_fundamental_div_mod_converse_mod((v / pow2(pos)) as int, 1, (v / pow2(pos)) as int, 0);
            }
            return 0;
        }
        let cur = self.cur_bit;
        let block1_idx = cur >> 6;
        let offset = cur & 63;
        proof {
            assert(cur >> 6 == cur / 64) by (bit_vector);
            assert(cur & 63 == cur % 64) by (bit_vector);
        }
        let block1 = load_word(self.data, block1_idx * 8);
        let low = block1 >> (offset as u64);
        let ghost x = v / pow2(64 * block1_idx as nat);
        proof {
            lemma_pow2_small();
            lemma_pow2_pos(64 * block1_idx as nat);
            lemma_pow2_pos(offset as nat);
            lemma_pow2_adds(64 * block1_idx as nat, offset as nat);
            lemma_div_denominator(v as int, pow2(64 * block1_idx as nat) as int, pow2(offset as nat) as int);
            assert(v / pow2(pos) == x / pow2(offset as nat));
            lemma_u64_shr_is_div(block1, offset as u64);
        }
        self.cur_bit = cur + num_bits;
        if offset + num_bits <= 64 {
            let mask = extra_mask(num_bits);
            let ret = low & mask;
            proof {
                lemma_low_field(x, 64, offset as nat, num_bits as nat);
                if num_bits < 64 {
                    lemma_u64_pow2_no_overflow(num_bits as nat);
                    assert(mask == low_bits_mask(num_bits as nat) as u64);
                    lemma_u64_low_bits_mask_is_mod(low, num_bits as nat);
                } else {
                    assert(low & 0xffff_ffff_ffff_ffffu64 == low) by (bit_vector);
                    lemma_small_mod(low as nat, pow2(64));
                }
                assert(block1 as nat == x % pow2(64));
                assert(low as nat == block1 as nat / pow2(offset as nat));
                assert(ret as nat == (low as nat) % pow2(num_bits as nat));
            }
            ret
        } else {
            let extra_bits = self.cur_bit & 63;
            proof {
                let cb = (cur + num_bits) as usize;
                assert(cb & 63 == cb % 64) by (bit_vector);
            }
            let block2 = load_word(self.data, block1_idx * 8 + 8);
            let mask = extra_mask(extra_bits);
            let shift = (num_bits - extra_bits) as u64;
            let high = (block2 & mask) << shift;
            proof {
                assert(extra_bits == offset + num_bits - 64);
                lemma_spanning_field(x, offset as nat, num_bits as nat);
                lemma_pow2_adds(64 * block1_idx as nat, 64);
                lemma_div_denominator(v as int, pow2(64 * block1_idx as nat) as int, pow2(64) as int);
                assert(64 * block1_idx + 64 == 8 * (block1_idx * 8 + 8));
                lemma_u64_pow2_no_overflow(extra_bits as nat);
                assert(mask == low_bits_mask(extra_bits as nat) as u64);
                lemma_u64_low_bits_mask_is_mod(block2, extra_bits as nat);
                lemma_mod_pos_bound(block2 as int, pow2(extra_bits as nat) as int);
                lemma_pow2_adds(extra_bits as nat, shift as nat);
                assert((block2 & mask) * pow2(shift as nat) < pow2(extra_bits as nat) * pow2(shift as nat)) by (nonlinear_arith)
                    requires
                        (block2 & mask) < pow2(extra_bits as nat),
                        pow2(shift as nat) > 0,
                ;
                assert(pow2(num_bits as nat) <= pow2(64)) by {
                    if num_bits < 64 {
                        lemma_pow2_strictly_increases(num_bits as nat, 64);
                    }
                }
                lemma_u64_shl_is_mul(block2 & mask, shift);
                lemma_u64_pow2_no_overflow(shift as nat);
                lemma_u64_shl_is_mul(1, shift);
                lemma_or_is_add(low, block2 & mask, shift);
                assert(block1 as nat == x % pow2(64));
                assert(block2 as nat == (x / pow2(64)) % pow2(64));
                assert(shift == 64 - offset);
                assert(high as nat == (block2 as nat % pow2(extra_bits as nat)) * pow2(shift as nat));
            }
            low | high
        }
    }

    /// Reads `num_bits` (at most 64) bits at the cursor, least-significant
    /// first, and advances past them.
    pub fn read_ubit64(&mut self, num_bits: usize) -> (r: Result<u64, BitError>)
        requires
            old(self).wf(),
        ensures
            final(self).wf(),
            final(self).bytes() == old(self).bytes(),
            num_bits <= 64 && num_bits <= old(self).bits_left() ==> r == Ok::<u64, BitError>(
                field_value(old(self).bytes(), old(self).pos(), num_bits as nat) as u64,
            ) && final(self).pos() == old(self).pos() + num_bits,
            !(num_bits <= 64 && num_bits <= old(self).bits_left()) ==> r == Err::<u64, BitError>(
                BitError::Overflow,
            ) && final(self).pos() == old(self).pos(),
    {
        if num_bits > 64 || self.num_bits_left() < num_bits {
            return Err(BitError::Overflow);
        }
        Ok(self.read_ubit64_unchecked(num_bits))
    }

    /// Reads one bit: `true` when it is set.
    pub fn read_bool(&mut self) -> (r: Result<bool, BitError>)
        requires
            old(self).wf(),
        ensures
            final(self).wf(),
            final(self).bytes() == old(self).bytes(),
            1 <= old(self).bits_left() ==> r == Ok::<bool, BitError>(
                field_value(old(self).bytes(), old(self).pos(), 1) == 1,
            ) && final(self).pos() == old(self).pos() + 1,
            old(self).bits_left() < 1 ==> r == Err::<bool, BitError>(BitError::Overflow)
                && final(self).pos() == old(self).pos(),
    {
        if self.num_bits_left() < 1 {
            return Err(BitError::Overflow);
        }
        let bit = self.read_ubit64_unchecked(1);
        Ok(bit == 1)
    }

    /// Reads eight bits as a byte.
    pub fn read_byte(&mut self) -> (r: Result<u8, BitError>)
        requires
            old(self).wf(),
        ensures
            final(self).wf(),
            final(self).bytes() == old(self).bytes(),
            8 <= old(self).bits_left() ==> r == Ok::<u8, BitError>(
                field_value(old(self).bytes(), old(self).pos(), 8) as u8,
            ) && final(self).pos() == old(self).pos() + 8,
            old(self).bits_left() < 8 ==> r == Err::<u8, BitError>(BitError::Overflow)
                && final(self).pos() == old(self).pos(),
    {
        if self.num_bits_left() < 8 {
            return Err(BitError::Overflow);
        }
        let ghost f = field_value(self.bytes(), self.pos(), 8);
        let b = self.read_ubit64_unchecked(8);
        proof {
            lemma_pow2_small();
            lemma_field_bound(old(self).bytes(), old(self).pos(), 8);
        }
        Ok(b as u8)
    }

    /// Reads `num_bits` bits into the low bytes of `buf`: afterwards its first
    /// `ceil(num_bits / 8)` bytes, read as a little-endian integer, hold the
    /// field, and the bytes after them are untouched.
    pub fn read_bits(&mut self, buf: &mut [u8], num_bits: usize) -> (r: Result<(), BitError>)
        requires
            old(self).wf(),
        ensures
            final(self).wf(),
            final(self).bytes() == old(self).bytes(),
            final(buf)@.len() == old(buf)@.len(),
            8 * old(buf)@.len() < num_bits ==> r == Err::<(), BitError>(BitError::BufferTooSmall)
                && final(self).pos() == old(self).pos() && final(buf)@ == old(buf)@,
            num_bits <= 8 * old(buf)@.len() && old(self).bits_left() < num_bits ==> r == Err::<
                (),
                BitError,
            >(BitError::Overflow) && final(self).pos() == old(self).pos() && final(buf)@ == old(
                buf,
            )@,
            num_bits <= 8 * old(buf)@.len() && num_bits <= old(self).bits_left() ==> {
                let k = ((num_bits + 7) / 8) as nat;
                &&& r is Ok
                &&& final(self).pos() == old(self).pos() + num_bits
                &&& bytes_value(final(buf)@) == field_value(
                    old(self).bytes(),
                    old(self).pos(),
                    num_bits as nat,
                ) + pow2(8 * k) * (bytes_value(old(buf)@) / pow2(8 * k))
            },
    {
        let need = num_bits / 8 + if num_bits % 8 == 0 {
            0
        } else {
            1
        };
        if need > buf.len() {
            return Err(BitError::BufferTooSmall);
        }
        if self.num_bits_left() < num_bits {
            return Err(BitError::Overflow);
        }
        let ghost src = self.bytes();
        let ghost base_pos = self.pos();
        let ghost b0 = buf@;
        let len = buf.len();
        let mut bits_left = num_bits;
        let mut bytes_written: usize = 0;
        proof {
            lemma_pow2_small();
            lemma_fundamental_div_mod_converse_mod((bytes_value(src) / pow2(base_pos)) as int, 1, (bytes_value(src) / pow2(base_pos)) as int, 0);
            lemma_fundamental_div_mod_converse_div(bytes_value(b0) as int, 1, bytes_value(b0) as int, 0);
        }
        while bits_left >= 64
            invariant
                self.wf(),
                self.bytes() == src,
                len == buf@.len(),
                len == b0.len(),
                8 * bytes_written + bits_left == num_bits,
                num_bits <= 8 * len,
                self.pos() == base_pos + 8 * bytes_written,
                self.bits_left() >= bits_left,
                bytes_value(buf@) == field_value(src, base_pos, 8 * bytes_written as nat) + pow2(
                    8 * bytes_written as nat,
                ) * (bytes_value(b0) / pow2(8 * bytes_written as nat)),
            decreases bits_left,
        {
            let ghost e = 8 * bytes_written as nat;
            let ghost cur = buf@;
            let value = self.read_ubit64_unchecked(64);
            proof {
                lemma_pow2_pos(e);
                lemma_pow2_pos(64);
                lemma_field_bound(src, base_pos, e);
                lemma_pow2_adds(e, 64);
                lemma_div_denominator(bytes_value(b0) as int, pow2(e) as int, pow2(64) as int);
                lemma_field_split(src, base_pos, e, 64);
                lemma_mul_is_commutative(pow2(e) as int, (bytes_value(b0) / pow2(e)) as int);
                lemma_fundamental_div_mod_converse_div(
                    bytes_value(cur) as int,
                    pow2(e) as int,
                    (bytes_value(b0) / pow2(e)) as int,
                    field_value(src, base_pos, e) as int,
                );
            }
            store_word(buf, bytes_written, value);
            proof {
                lemma_replace_block(
                    field_value(src, base_pos, e) as int,
                    pow2(e) as int,
                    (bytes_value(b0) / pow2(e)) as int,
                    pow2(64) as int,
                    value as int,
                    bytes_value(cur) as int,
                    bytes_value(buf@) as int,
                );
                assert(e + 64 == 8 * (bytes_written + 8));
            }
            bytes_written += 8;
            bits_left -= 64;
        }
        while bits_left >= 8
            invariant
                self.wf(),
                self.bytes() == src,
                len == buf@.len(),
                len == b0.len(),
                8 * bytes_written + bits_left == num_bits,
                num_bits <= 8 * len,
                self.pos() == base_pos + 8 * bytes_written,
                self.bits_left() >= bits_left,
                bytes_value(buf@) == field_value(src, base_pos, 8 * bytes_written as nat) + pow2(
                    8 * bytes_written as nat,
                ) * (bytes_value(b0) / pow2(8 * bytes_written as nat)),
            decreases bits_left,
        {
            let ghost e = 8 * bytes_written as nat;
            let ghost cur = buf@;
            let value = self.read_ubit64_unchecked(8);
            let b = value as u8;
            proof {
                lemma_place_byte(src, base_pos, b0, cur, e, 8, bytes_written as nat, value);
            }
            buf[bytes_written] = b;
            proof {
                lemma_value_update(cur, bytes_written as nat, b);
                lemma_placed_byte(src, base_pos, b0, cur, buf@, e, 8, bytes_written as nat, b);
            }
            bytes_written += 1;
            bits_left -= 8;
        }
        if bits_left > 0 {
            let ghost e = 8 * bytes_written as nat;
            let ghost cur = buf@;
            let value = self.read_ubit64_unchecked(bits_left);
            let b = value as u8;
            proof {
                lemma_place_byte(src, base_pos, b0, cur, e, bits_left as nat, bytes_written as nat, value);
            }
            buf[bytes_written] = b;
            proof {
                lemma_value_update(cur, bytes_written as nat, b);
                lemma_placed_byte(src, base_pos, b0, cur, buf@, e, bits_left as nat, bytes_written as nat, b);
                assert((num_bits + 7) / 8 == bytes_written + 1);
            }
        } else {
            assert((num_bits + 7) / 8 == bytes_written);
        }
        Ok(())
    }

    /// Reads `buf.len()` whole bytes into `buf`.
    pub fn read_bytes(&mut self, buf: &mut [u8]) -> (r: Result<(), BitError>)
        requires
            old(self).wf(),
            8 * old(buf)@.len() <= usize::MAX,
        ensures
            final(self).wf(),
            final(self).bytes() == old(self).bytes(),
            final(buf)@.len() == old(buf)@.len(),
            old(self).bits_left() < 8 * old(buf)@.len() ==> r == Err::<(), BitError>(
                BitError::Overflow,
            ) && final(self).pos() == old(self).pos() && final(buf)@ == old(buf)@,
            8 * old(buf)@.len() <= old(self).bits_left() ==> r is Ok && final(self).pos() == old(
                self,
            ).pos() + 8 * old(buf)@.len() && bytes_value(final(buf)@) == field_value(
                old(self).bytes(),
                old(self).pos(),
                8 * old(buf)@.len(),
            ),
    {
        let n = buf.len() * 8;
        let r = self.read_bits(buf, n);
        proof {
            let k = ((n + 7) / 8) as nat;
            assert(k == old(buf)@.len());
            lemma_value_bound(old(buf)@);
            lemma_pow2_pos(8 * k);
            lemma_fundamental_div_mod_converse_div(
                bytes_value(old(buf)@) as int,
                pow2(8 * k) as int,
                0,
                bytes_value(old(buf)@) as int,
            );
        }
        r
    }

    /// Reads a varint of an integer `num_bits` wide (8 to 64) at the cursor,
    /// one byte at a time. A varint that runs out of buffer is an `Overflow`;
    /// one longer than `ceil(num_bits / 7)` bytes is a `MalformedVarint`.
    pub fn read_uvarint(&mut self, num_bits: usize) -> (r: Result<u64, BitError>)
        requires
            old(self).wf(),
            8 <= num_bits <= 64,
        ensures
            final(self).wf(),
            final(self).bytes() == old(self).bytes(),
            final(self).pos() == old(self).pos() + 8 * varint_consumed(
                cursor_bytes(old(self).bytes(), old(self).pos()),
                num_bits as nat,
            ),
            match decode_uvarint(cursor_bytes(old(self).bytes(), old(self).pos()), num_bits as nat) {
                Ok((v, n)) => r == Ok::<u64, BitError>(v as u64) && final(self).pos() == old(
                    self,
                ).pos() + 8 * n,
                Err(VarintError::MalformedVarint) => r == Err::<u64, BitError>(
                    BitError::MalformedVarint,
                ),
                Err(VarintError::UnexpectedEof) => r == Err::<u64, BitError>(BitError::Overflow),
            },
    {
        let ghost bs = cursor_bytes(self.bytes(), self.pos());
        let ghost base_pos = self.pos();
        let max = max_varint_size(num_bits);
        let mut value: u64 = 0;
        let mut count: usize = 0;
        proof {
            lemma_pow2_small();
            lemma_pow2_pos(num_bits as nat);
            assert(bs.take(0) =~= Seq::<u8>::empty());
            lemma_prefix_le_len(bs);
        }
        while count < max
            invariant
                self.wf(),
                self.bytes() == old(self).bytes(),
                bs == cursor_bytes(self.bytes(), base_pos),
                base_pos == old(self).pos(),
                self.pos() == base_pos + 8 * count,
                8 <= num_bits <= 64,
                max == max_varint_len(num_bits as nat),
                max <= 10,
                count <= max,
                count <= bs.len(),
                continued_prefix(bs) <= bs.len(),
                forall|i: int| 0 <= i < count ==> bs[i] >= 128,
                value as nat == payload_value(bs.take(count as int)) % pow2(64),
                count < 10 ==> value as nat == payload_value(bs.take(count as int)),
            decreases max - count,
        {
            let ghost here = self.pos();
            let got = self.read_byte();
            let byte = match got {
                Ok(b) => b,
                Err(e) => {
                    proof {
                        assert(count >= bs.len());
                        lemma_prefix_at_least(bs, count as nat);
                    }
                    return Err(e);
                },
            };
            let ghost before = bs.take(count as int);
            proof {
                assert(byte == bs[count as int]);
                assert(byte & 0x7fu8 == byte % 128) by (bit_vector);
                assert((byte & 0x80u8 == 0) == (byte < 128)) by (bit_vector);
                lemma_payload_bound(before);
                assert(bs.take(count + 1) =~= before.push(byte));
                lemma_payload_push(before, byte);
            }
            value = accumulate(value, byte & PAYLOAD_BITS, count);
            count += 1;
            proof {
                lemma_pow2_small();
                if count < 10 {
                    lemma_payload_bound(bs.take(count as int));
                    lemma_pow2_strictly_increases(7 * count as nat, 64);
                    lemma_small_mod(payload_value(bs.take(count as int)), pow2(64));
                }
            }
            if byte & CONTINUE_BIT == 0 {
                let mask = extra_mask(num_bits);
                let r = value & mask;
                proof {
                    lemma_prefix_at_least(bs, (count - 1) as nat);
                    let p = payload_value(bs.take(count as int));
                    let nb = num_bits as nat;
                    lemma_pow2_pos(nb);
                    lemma_pow2_pos((64 - nb) as nat);
                    lemma_pow2_adds(nb, (64 - nb) as nat);
                    lemma_mod_mod(p as int, pow2(nb) as int, pow2((64 - nb) as nat) as int);
                    if num_bits < 64 {
                        lemma_u64_pow2_no_overflow(nb);
                        lemma_low_mask_value(nb);
                        lemma_u64_low_bits_mask_is_mod(value, nb);
                    } else {
                        assert(value & 0xffff_ffff_ffff_ffffu64 == value) by (bit_vector);
                    }
                }
                return Ok(r);
            }
        }
        proof {
            lemma_prefix_at_least(bs, count as nat);
        }
        Err(BitError::MalformedVarint)
    }

    /// Reads the varint of a `u64` at the cursor.
    pub fn read_uvarint64(&mut self) -> (r: Result<u64, BitError>)
        requires
            old(self).wf(),
        ensures
            final(self).wf(),
            final(self).bytes() == old(self).bytes(),
            final(self).pos() == old(self).pos() + 8 * varint_consumed(
                cursor_bytes(old(self).bytes(), old(self).pos()),
                64,
            ),
            match decode_uvarint(cursor_bytes(old(self).bytes(), old(self).pos()), 64) {
                Ok((v, n)) => r == Ok::<u64, BitError>(v as u64) && final(self).pos() == old(
                    self,
                ).pos() + 8 * n,
                Err(VarintError::MalformedVarint) => r == Err::<u64, BitError>(
                    BitError::MalformedVarint,
                ),
                Err(VarintError::UnexpectedEof) => r == Err::<u64, BitError>(BitError::Overflow),
            },
    {
        self.read_uvarint(64)
    }

    /// Reads the zigzag varint of an `i64` at the cursor.
    pub fn read_varint64(&mut self) -> (r: Result<i64, BitError>)
        requires
            old(self).wf(),
        ensures
            final(self).wf(),
            final(self).bytes() == old(self).bytes(),
            final(self).pos() == old(self).pos() + 8 * varint_consumed(
                cursor_bytes(old(self).bytes(), old(self).pos()),
                64,
            ),
            match decode_uvarint(cursor_bytes(old(self).bytes(), old(self).pos()), 64) {
                Ok((v, n)) => r == Ok::<i64, BitError>(unzigzag(v) as i64) && final(self).pos()
                    == old(self).pos() + 8 * n,
                Err(VarintError::MalformedVarint) => r == Err::<i64, BitError>(
                    BitError::MalformedVarint,
                ),
                Err(VarintError::UnexpectedEof) => r == Err::<i64, BitError>(BitError::Overflow),
            },
    {
        let ghost bs = cursor_bytes(self.bytes(), self.pos());
        match self.read_uvarint(64) {
            Ok(v) => {
                proof {
                    lemma_pow2_small();
                    lemma_mod_pos_bound(payload_value(bs.take(continued_prefix(bs) + 1 as int)) as int, pow2(64) as int);
                }
                Ok(zigzag_decode64(v))
            },
            Err(e) => Err(e),
        }
    }

    /// Reads the varint of a `u32` at the cursor.
    pub fn read_uvarint32(&mut self) -> (r: Result<u32, BitError>)
        requires
            old(self).wf(),
        ensures
            final(self).wf(),
            final(self).bytes() == old(self).bytes(),
            final(self).pos() == old(self).pos() + 8 * varint_consumed(
                cursor_bytes(old(self).bytes(), old(self).pos()),
                32,
            ),
            match decode_uvarint(cursor_bytes(old(self).bytes(), old(self).pos()), 32) {
                Ok((v, n)) => r == Ok::<u32, BitError>(v as u32) && final(self).pos() == old(
                    self,
                ).pos() + 8 * n,
                Err(VarintError::MalformedVarint) => r == Err::<u32, BitError>(
                    BitError::MalformedVarint,
                ),
                Err(VarintError::UnexpectedEof) => r == Err::<u32, BitError>(BitError::Overflow),
            },
    {
        let ghost bs = cursor_bytes(self.bytes(), self.pos());
        match self.read_uvarint(32) {
            Ok(v) => {
                proof {
                    lemma2_to64();
                    lemma_pow2_pos(32);
                    lemma_mod_pos_bound(payload_value(bs.take(continued_prefix(bs) + 1 as int)) as int, pow2(32) as int);
                }
                Ok(v as u32)
            },
            Err(e) => Err(e),
        }
    }

    /// Reads the zigzag varint of an `i32` at the cursor.
    pub fn read_varint32(&mut self) -> (r: Result<i32, BitError>)
        requires
            old(self).wf(),
        ensures
            final(self).wf(),
            final(self).bytes() == old(self).bytes(),
            final(self).pos() == old(self).pos() + 8 * varint_consumed(
                cursor_bytes(old(self).bytes(), old(self).pos()),
                32,
            ),
            match decode_uvarint(cursor_bytes(old(self).bytes(), old(self).pos()), 32) {
                Ok((v, n)) => r == Ok::<i32, BitError>(unzigzag(v) as i32) && final(self).pos()
                    == old(self).pos() + 8 * n,
                Err(VarintError::MalformedVarint) => r == Err::<i32, BitError>(
                    BitError::MalformedVarint,
                ),
                Err(VarintError::UnexpectedEof) => r == Err::<i32, BitError>(BitError::Overflow),
            },
    {
        let ghost bs = cursor_bytes(self.bytes(), self.pos());
        match self.read_uvarint32() {
            Ok(v) => {
                proof {
                    lemma2_to64();
                    lemma_pow2_pos(32);
                    lemma_mod_pos_bound(payload_value(bs.take(continued_prefix(bs) + 1 as int)) as int, pow2(32) as int);
                }
                Ok(zigzag_decode32(v))
            },
            Err(e) => Err(e),
        }
    }

    /// Whether the cursor has passed the end of the buffer: never, for a
    /// reader that keeps its invariant.
    pub fn is_overflowed(&self) -> (r: Result<(), BitError>)
        requires
            self.wf(),
        ensures
            r is Ok,
    {
        if self.cur_bit > self.num_bits {
            Err(BitError::Overflow)
        } else {
            Ok(())
        }
    }
}

/// Facts for placing a field of `r <= 8` bits as byte `i` of the
/// destination in `read_bits`.
proof fn lemma_place_byte(
    src: Seq<u8>,
    base_pos: nat,
    b0: Seq<u8>,
    cur: Seq<u8>,
    e: nat,
    r: nat,
    i: nat,
    value: u64,
)
    requires
        e == 8 * i,
        i < cur.len(),
        1 <= r <= 8,
        value == field_value(src, base_pos + e, r),
        bytes_value(cur) == field_value(src, base_pos, e) + pow2(e) * (bytes_value(b0) / pow2(e)),
    ensures
        value < 256,
        value as u8 == value,
        cur[i as int] == (bytes_value(b0) / pow2(e)) % 256,
{
    lemma_pow2_small();
    lemma_field_bound(src, base_pos + e, r);
    if r < 8 {
        lemma_pow2_strictly_increases(r, 8);
    }
    lemma_pow2_pos(e);
    lemma_field_bound(src, base_pos, e);
    lemma_digit(cur, i);
    lemma_mul_is_commutative(pow2(e) as int, (bytes_value(b0) / pow2(e)) as int);
    lemma_fundamental_div_mod_converse_div(
        bytes_value(cur) as int,
        pow2(e) as int,
        (bytes_value(b0) / pow2(e)) as int,
        field_value(src, base_pos, e) as int,
    );
}

/// The destination after byte `i` was placed in `read_bits`.
proof fn lemma_placed_byte(
    src: Seq<u8>,
    base_pos: nat,
    b0: Seq<u8>,
    cur: Seq<u8>,
    next: Seq<u8>,
    e: nat,
    r: nat,
    i: nat,
    b: u8,
)
    requires
        e == 8 * i,
        i < cur.len(),
        1 <= r <= 8,
        b == field_value(src, base_pos + e, r),
        bytes_value(cur) == field_value(src, base_pos, e) + pow2(e) * (bytes_value(b0) / pow2(e)),
        cur[i as int] == (bytes_value(b0) / pow2(e)) % 256,
        bytes_value(next) + cur[i as int] * pow2(8 * i) == bytes_value(cur) + b * pow2(8 * i),
    ensures
        bytes_value(next) == field_value(src, base_pos, e + r) + pow2(e + 8) * (bytes_value(b0)
            / pow2(e + 8)),
{
    lemma_pow2_small();
    lemma_pow2_pos(e);
    lemma_field_bound(src, base_pos, e);
    lemma_pow2_adds(e, 8);
    lemma_div_denominator(bytes_value(b0) as int, pow2(e) as int, 256);
    lemma_field_split(src, base_pos, e, r);
    lemma_replace_block(
        field_value(src, base_pos, e) as int,
        pow2(e) as int,
        (bytes_value(b0) / pow2(e)) as int,
        256,
        b as int,
        bytes_value(cur) as int,
        bytes_value(next) as int,
    );
}

/// A varint written into a buffer at bit `pos` reads back from `pos` as the
/// same value, taking exactly the bytes written, at most ten.
pub proof fn lemma_varint_read_back(old: Seq<u8>, new: Seq<u8>, pos: nat, v: u64)
    requires
        new.len() == old.len(),
        pos + 8 * uvarint_bytes(v as nat).len() <= 8 * new.len(),
        bytes_value(new) == replace_bits(
            bytes_value(old),
            pos,
            8 * uvarint_bytes(v as nat).len(),
            bytes_value(uvarint_bytes(v as nat)),
        ),
    ensures
        uvarint_bytes(v as nat).len() <= max_varint_len(64),
        decode_uvarint(cursor_bytes(new, pos), 64) == Ok::<(nat, nat), VarintError>(
            (v as nat, uvarint_bytes(v as nat).len()),
        ),
{
    let e = uvarint_bytes(v as nat);
    let c = cursor_bytes(new, pos);
    assert(c.len() >= e.len());
    assert forall|i: int| 0 <= i < e.len() implies c[i] == e[i] by {
        lemma_written_bytes(old, new, pos, e, i as nat);
    }
    assert(c =~= e + c.skip(e.len() as int));
    lemma_pow2_small();
    lemma_uvarint_round_trip(v as nat, c.skip(e.len() as int), 64);
}

} // verus!
