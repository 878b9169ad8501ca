//! Sequential bit-granular writing into a borrowed byte buffer.
use vstd::prelude::*;
use vstd::arithmetic::power2::*;
use vstd::arithmetic::div_mod::*;
use vstd::arithmetic::mul::*;
use vstd::bits::*;

use crate::error::BitError;
use crate::varint::{lemma_uvarint_len, uvarint_bytes, zigzag, zigzag_encode64};
use crate::masks::{bit_write_mask, extra_mask, lemma_low_mask_value, low_mask, write_mask};
use crate::model::{
    bytes_value, field_value, lemma_low_field, lemma_or_is_add, lemma_pow2_small,
    lemma_replace_compose, lemma_replace_nothing, lemma_replace_sum, lemma_spanning_field,
    lemma_store_keeps_above, lemma_value_bound, lemma_value_push, load_word, replace_bits,
    store_word,
};

verus! {

/// A write cursor over a byte buffer whose length is a whole number of 64-bit
/// words. Bit 0 is the least-significant bit of byte 0.
pub struct BitWriter<'a> {
    data_bits: usize,
    data: &'a mut [u8],
    cur_bit: usize,
}

impl<'a> BitWriter<'a> {
    /// The buffer's current contents.
    pub closed spec fn bytes(&self) -> Seq<u8> {
        self.data@
    }

    /// The write cursor, in bits from the start of the buffer.
    pub closed spec fn pos(&self) -> nat {
        self.cur_bit as nat
    }

    /// Total size of the buffer in bits.
    pub open spec fn bit_len(&self) -> nat {
        8 * self.bytes().len()
    }

    /// Bits between the cursor and the end of the buffer.
    pub open spec fn bits_left(&self) -> int {
        self.bit_len() - self.pos()
    }

    /// The writer's invariant: the cursor lies within the buffer and the buffer
    /// is a whole number of 64-bit words.
    pub closed spec fn wf(&self) -> bool {
        &&& self.data_bits == 8 * self.data@.len()
        &&& self.cur_bit <= self.data_bits
        &&& self.data@.len() % 8 == 0
    }

    /// What the invariant tells a caller.
    pub proof fn lemma_wf(&self)
        requires
            self.wf(),
        ensures
            self.pos() <= self.bit_len(),
            self.bit_len() <= usize::MAX,
            self.bytes().len() % 8 == 0,
    {
    }

    /// Borrows `buf` for writing from its first bit.
    pub fn new(buf: &'a mut [u8]) -> (r: Self)
        requires
            old(buf)@.len() % 8 == 0,
            8 * old(buf)@.len() <= usize::MAX,
        ensures
            r.wf(),
            r.bytes() == old(buf)@,
            r.pos() == 0,
    {
        Self { data_bits: buf.len() * 8, data: buf, cur_bit: 0 }
    }

    /// Ends the writer and hands back the buffer it wrote into.
    pub fn into_buffer(self) -> (r: &'a mut [u8])
        ensures
            r@ == self.bytes(),
    {
        self.data
    }

    pub fn num_bits_left(&self) -> (r: usize)
        requires
            self.wf(),
        ensures
            r == self.bits_left(),
    {
        self.data_bits - self.cur_bit
    }

    pub fn num_bytes_left(&self) -> (r: usize)
        requires
            self.wf(),
        ensures
            r == self.bits_left() / 8,
    {
        self.num_bits_left() / 8
    }

    pub fn num_bits_written(&self) -> (r: usize)
        ensures
            r == self.pos(),
    {
        self.cur_bit
    }

    /// Bytes touched so far: the bits written, rounded up to whole bytes.
    pub fn num_bytes_written(&self) -> (r: usize)
        ensures
            r == (self.pos() + 7) / 8,
    {
        self.cur_bit / 8 + if self.cur_bit % 8 == 0 {
            0
        } else {
            1
        }
    }

    /// Moves the cursor to bit `bit`.
    pub fn seek(&mut self, bit: usize) -> (r: Result<(), BitError>)
        requires
            old(self).wf(),
        ensures
            final(self).wf(),
            final(self).bytes() == old(self).bytes(),
            bit <= old(self).bit_len() ==> r is Ok && final(self).pos() == bit,
            bit > old(self).bit_len() ==> r == Err::<(), BitError>(BitError::Overflow)
                && final(self).pos() == old(self).pos(),
    {
        if bit > self.data_bits {
            return Err(BitError::Overflow);
        }
        self.cur_bit = bit;
        Ok(())
    }

    /// Moves the cursor by `bit_delta` bits and returns the new position.
    pub fn seek_relative(&mut self, bit_delta: isize) -> (r: Result<usize, BitError>)
        requires
            old(self).wf(),
        ensures
            final(self).wf(),
            final(self).bytes() == old(self).bytes(),
            ({
                let target = old(self).pos() + bit_delta;
                if 0 <= target <= old(self).bit_len() {
                    r == Ok::<usize, BitError>(target as usize) && final(self).pos() == target
                } else {
                    r == Err::<usize, BitError>(BitError::Overflow) && final(self).pos()
                        == old(self).pos()
                }
            }),
    {
        let bit = if bit_delta < 0 {
            let back = (-(bit_delta + 1)) as usize + 1;
            if back > self.cur_bit {
                return Err(BitError::Overflow);
            }
            self.cur_bit - back
        } else {
            let ahead = bit_delta as usize;
            if ahead > self.data_bits - self.cur_bit {
                return Err(BitError::Overflow);
            }
            self.cur_bit + ahead
        };
        self.cur_bit = bit;
        Ok(bit)
    }

    /// Writes the low `n` bits of `data` at the cursor, least-significant
    /// first, and advances past them; higher bits of `data` are dropped. No
    /// bounds check: the caller has established that the bits fit.
    pub fn write_ubit64_unchecked(&mut self, data: u64, n: usize)
        requires
            old(self).wf(),
            n <= 64,
            n <= old(self).bits_left(),
        ensures
            final(self).wf(),
            final(self).bytes().len() == old(self).bytes().len(),
            final(self).pos() == old(self).pos() + n,
            bytes_value(final(self).bytes()) == replace_bits(
                bytes_value(old(self).bytes()),
                old(self).pos(),
                n as nat,
                data as nat,
            ),
    {
        let ghost v = bytes_value(self.data@);
        let ghost pos = self.cur_bit as nat;
        if n == 0 {
            proof {
                lemma_pow2_small();
                lemma_fundamental_div_mod_converse_mod((v / pow2(pos)) as int, 1, (v / pow2(pos)) as int, 0);
                lemma_fundamental_div_mod_converse_mod(data as int, 1, data as int, 0);
                lemma_pow2_pos(pos);
                lemma_fundamental_div_mod(v as int, pow2(pos) as int);
                lemma_mul_is_commutative(pow2(pos) as int, (v / pow2(pos)) as int);
                lemma_replace_nothing(v, pos, data as nat);
            }
            return;
        }
        let mask = extra_mask(n);
        let value = data & mask;
        let cur = self.cur_bit;
        let block1_idx = cur >> 6;
        let bit_offset = cur & 63;
        proof {
            assert(cur >> 6 == cur / 64) by (bit_vector);
            assert(cur & 63 == cur % 64) by (bit_vector);
        }
        let at = block1_idx * 8;
        let ghost p = pow2(64 * block1_idx as nat);
        let ghost x = v / p;
        let ghost po = pow2(bit_offset as nat);
        let ghost f = field_value(self.data@, pos, n as nat);
        let block1 = load_word(self.data, at);
        let merged1 = (block1 & bit_write_mask(bit_offset, n)) | (value << (bit_offset as u64));
        proof {
            lemma_pow2_small();
            lemma_pow2_pos(64 * block1_idx as nat);
            lemma_pow2_pos(bit_offset as nat);
            lemma_pow2_adds(64 * block1_idx as nat, bit_offset as nat);
            lemma_div_denominator(v as int, p as int, po as int);
            assert(v / pow2(pos) == x / po);
            assert(8 * at == 64 * block1_idx);
            if n < 64 {
                lemma_u64_pow2_no_overflow(n as nat);
                assert(mask == low_bits_mask(n as nat) as u64);
                lemma_u64_low_bits_mask_is_mod(data, n as nat);
            } else {
                assert(data & 0xffff_ffff_ffff_ffffu64 == data) by (bit_vector);
                lemma_small_mod(data as nat, pow2(64));
            }
            assert(value as nat == data as nat % pow2(n as nat));
        }
        let ghost v0 = self.data@;
        store_word(self.data, at, merged1);
        let bits_written = 64 - bit_offset;
        if bits_written < n {
            let high = value >> (bits_written as u64);
            let rest = n - bits_written;
            let block2 = load_word(self.data, at + 8);
            let merged2 = (block2 & bit_write_mask(0, rest)) | high;
            let ghost v1 = self.data@;
            store_word(self.data, at + 8, merged2);
            proof {
                assert(8 * (at + 8) == 64 * block1_idx + 64);
                assert(rest == bit_offset + n - 64);
                lemma_spanning_write(
                    v,
                    bytes_value(v1),
                    bytes_value(self.data@),
                    pos,
                    block1_idx as nat,
                    bit_offset as nat,
                    n as nat,
                    block1,
                    block2,
                    value,
                    merged1,
                    merged2,
                    data,
                );
            }
        } else {
            proof {
                lemma_word_write(
                    v,
                    bytes_value(self.data@),
                    pos,
                    block1_idx as nat,
                    bit_offset as nat,
                    n as nat,
                    block1,
                    value,
                    merged1,
                    data,
                );
            }
        }
        self.cur_bit = cur + n;
    }

    /// Writes the low `n` (at most 64) bits of `data` at the cursor and
    /// advances past them. Higher bits of `data` are dropped, not reported.
    pub fn write_ubit64(&mut self, data: u64, n: usize) -> (r: Result<(), BitError>)
        requires
            old(self).wf(),
        ensures
            final(self).wf(),
            final(self).bytes().len() == old(self).bytes().len(),
            n <= 64 && n <= old(self).bits_left() ==> r is Ok && final(self).pos() == old(
                self,
            ).pos() + n && bytes_value(final(self).bytes()) == replace_bits(
                bytes_value(old(self).bytes()),
                old(self).pos(),
                n as nat,
                data as nat,
            ),
            !(n <= 64 && n <= old(self).bits_left()) ==> r == Err::<(), BitError>(
                BitError::Overflow,
            ) && final(self).pos() == old(self).pos() && final(self).bytes() == old(self).bytes(),
    {
        if n > 64 || n > self.data_bits - self.cur_bit {
            return Err(BitError::Overflow);
        }
        self.write_ubit64_unchecked(data, n);
        Ok(())
    }

    /// Writes one byte at the cursor.
    pub fn write_byte(&mut self, data: u8) -> (r: Result<(), BitError>)
        requires
            old(self).wf(),
        ensures
            final(self).wf(),
            final(self).bytes().len() == old(self).bytes().len(),
            8 <= old(self).bits_left() ==> r is Ok && final(self).pos() == old(self).pos() + 8
                && bytes_value(final(self).bytes()) == replace_bits(
                bytes_value(old(self).bytes()),
                old(self).pos(),
                8,
                data as nat,
            ),
            old(self).bits_left() < 8 ==> r == Err::<(), BitError>(BitError::Overflow)
                && final(self).pos() == old(self).pos() && final(self).bytes() == old(
                self,
            ).bytes(),
    {
        self.write_ubit64(data as u64, 8)
    }

    /// Writes the varint bytes of `value` at the cursor, one byte at a time.
    /// When they do not all fit, the ones that did may have been written.
    pub fn write_uvarint64(&mut self, value: u64) -> (r: Result<(), BitError>)
        requires
            old(self).wf(),
        ensures
            final(self).wf(),
            final(self).bytes().len() == old(self).bytes().len(),
            ({
                let e = uvarint_bytes(value as nat);
                if 8 * e.len() <= old(self).bits_left() {
                    &&& r is Ok
                    &&& final(self).pos() == old(self).pos() + 8 * e.len()
                    &&& bytes_value(final(self).bytes()) == replace_bits(
                        bytes_value(old(self).bytes()),
                        old(self).pos(),
                        8 * e.len(),
                        bytes_value(e),
                    )
                } else {
                    &&& r == Err::<(), BitError>(BitError::Overflow)
                    &&& final(self).pos() == old(self).pos() + 8 * (old(self).bits_left() / 8)
                }
            }),
    {
        let ghost e = uvarint_bytes(value as nat);
        let ghost v0 = bytes_value(self.bytes());
        let ghost base_pos = self.pos();
        let ghost first = value;
        let mut left = value;
        let mut count: usize = 0;
        proof {
            lemma_pow2_small();
            lemma_pow2_strictly_increases(64, 70);
            lemma_uvarint_len(left as nat, 10);
            assert(e.take(0) + uvarint_bytes(left as nat) =~= e);
            lemma_replace_nothing(v0, base_pos, bytes_value(e.take(0)));
        }
        while left >= 128
            invariant
                self.wf(),
                self.bytes().len() == old(self).bytes().len(),
                v0 == bytes_value(old(self).bytes()),
                base_pos == old(self).pos(),
                e == uvarint_bytes(first as nat),
                first == value,
                e.len() <= 10,
                count < e.len(),
                8 * count <= old(self).bits_left(),
                e.take(count as int) + uvarint_bytes(left as nat) == e,
                self.pos() == base_pos + 8 * count,
                bytes_value(self.bytes()) == replace_bits(
                    v0,
                    base_pos,
                    8 * count as nat,
                    bytes_value(e.take(count as int)),
                ),
            decreases left,
        {
            proof {
                assert(((left & 0x7f) | 0x80) == left % 128 + 128) by (bit_vector);
            }
            let b = ((left & 0x7f) | 0x80) as u8;
            let ghost vcur = bytes_value(self.bytes());
            proof {
                assert(left >> 7u64 == left / 128) by (bit_vector);
                let tail = uvarint_bytes(left as nat / 128);
                assert(uvarint_bytes(left as nat) == seq![b] + tail);
                assert(e[count as int] == b);
                assert(e.take(count + 1) =~= e.take(count as int).push(b));
                assert(e.take(count + 1) + tail =~= e.take(count as int) + (seq![b] + tail));
            }
            match self.write_byte(b) {
                Ok(()) => {},
                Err(err) => {
                    return Err(err);
                },
            }
            proof {
                let ghost vnext = bytes_value(self.bytes());
                lemma_varint_step(v0, base_pos, count as nat, e.take(count as int), b, vcur, vnext);
            }
            left = left >> 7;
            count += 1;
        }
        let last = left as u8;
        let ghost vcur = bytes_value(self.bytes());
        proof {
            assert(uvarint_bytes(left as nat) == seq![last]);
            assert(e.take(count as int) + seq![last] == e);
            assert(e.len() == count + 1);
            assert(e[count as int] == last);
            assert(e.take(count + 1) =~= e);
            assert(e =~= e.take(count as int).push(last));
        }
        match self.write_byte(last) {
            Ok(()) => {},
            Err(err) => {
                return Err(err);
            },
        }
        proof {
            let ghost vnext = bytes_value(self.bytes());
            lemma_varint_step(v0, base_pos, count as nat, e.take(count as int), last, vcur, vnext);
        }
        Ok(())
    }

    /// Writes the zigzag varint bytes of `data` at the cursor.
    pub fn write_varint64(&mut self, data: i64) -> (r: Result<(), BitError>)
        requires
            old(self).wf(),
        ensures
            final(self).wf(),
            final(self).bytes().len() == old(self).bytes().len(),
            ({
                let e = uvarint_bytes(zigzag(data as int));
                if 8 * e.len() <= old(self).bits_left() {
                    &&& r is Ok
                    &&& final(self).pos() == old(self).pos() + 8 * e.len()
                    &&& bytes_value(final(self).bytes()) == replace_bits(
                        bytes_value(old(self).bytes()),
                        old(self).pos(),
                        8 * e.len(),
                        bytes_value(e),
                    )
                } else {
                    &&& r == Err::<(), BitError>(BitError::Overflow)
                    &&& final(self).pos() == old(self).pos() + 8 * (old(self).bits_left() / 8)
                }
            }),
    {
        self.write_uvarint64(zigzag_encode64(data))
    }
}

/// Merging a field into a word that holds all of it.
proof fn lemma_merge_bits(w: u64, d: u64, off: u64, n: u64, keep: u64, lm: u64)
    by (bit_vector)
    requires
        off < 64,
        1 <= n,
        off + n <= 64,
        lm == (if n == 64 {
            0xffff_ffff_ffff_ffffu64
        } else {
            ((1u64 << n) - 1) as u64
        }),
        keep == (if off + n == 64 {
            ((1u64 << off) - 1) as u64
        } else {
            (((1u64 << off) - 1) as u64 | !(((1u64 << (off + n)) - 1) as u64)) as u64
        }),
        d & lm == d,
    ensures
        (w & keep) + (((w >> off) & lm) << off) == w,
        (w & keep) + (d << off) <= u64::MAX,
        (w & keep) | (d << off) == (w & keep) + (d << off),
{
}

/// The pieces of a field that spills out of its first word.
proof fn lemma_split_bits(w1: u64, w2: u64, d: u64, off: u64, rest: u64)
    by (bit_vector)
    requires
        0 < off < 64,
        0 < rest < 64,
        d >> ((64 - off) as u64) < (1u64 << rest),
    ensures
        d << off == (d & (((1u64 << ((64 - off) as u64)) - 1) as u64)) << off,
        w1 & (((1u64 << off) - 1) as u64) < (1u64 << off),
        (w2 & !(((1u64 << rest) - 1) as u64)) + (w2 & (((1u64 << rest) - 1) as u64)) == w2,
        (w2 & !(((1u64 << rest) - 1) as u64)) + (d >> ((64 - off) as u64)) <= u64::MAX,
        (w2 & !(((1u64 << rest) - 1) as u64)) | (d >> ((64 - off) as u64)) == (w2 & !(((1u64 << rest)
            - 1) as u64)) + (d >> ((64 - off) as u64)),
{
}

/// Turning a shift of a value below `2^a` left by `b <= 64 - a` into a product.
proof fn lemma_shl_small(x: u64, a: nat, b: u64)
    requires
        b < 64,
        a + b <= 64,
        x < pow2(a),
    ensures
        x * pow2(b as nat) < pow2(a + b as nat),
        x << b == x * pow2(b as nat),
{
    lemma_pow2_pos(b as nat);
    lemma_pow2_adds(a, b as nat);
    lemma_mul_strict_inequality(x as int, pow2(a) as int, pow2(b as nat) as int);
    lemma_pow2_small();
    if a + b < 64 {
        lemma_pow2_strictly_increases(a + b as nat, 64);
    }
    lemma_u64_shl_is_mul(x, b);
}

/// A write whose field lies within one word.
proof fn lemma_word_write(
    v: nat,
    v1: nat,
    pos: nat,
    idx: nat,
    off: nat,
    n: nat,
    w1: u64,
    value: u64,
    m1: u64,
    data: u64,
)
    requires
        1 <= n,
        off < 64,
        off + n <= 64,
        pos == 64 * idx + off,
        w1 == (v / pow2(64 * idx)) % pow2(64),
        value as nat == data as nat % pow2(n),
        m1 == (w1 & write_mask(off, n)) | (value << (off as u64)),
        v1 + w1 * pow2(64 * idx) == v + m1 * pow2(64 * idx),
    ensures
        v1 == replace_bits(v, pos, n, data as nat),
{
    let p = pow2(64 * idx);
    let po = pow2(off);
    let x = v / p;
    let lm = low_mask(n);
    let keep = write_mask(off, n);
    lemma_pow2_small();
    lemma_pow2_pos(64 * idx);
    lemma_pow2_pos(off);
    lemma_pow2_pos(n);
    lemma_pow2_adds(64 * idx, off);
    lemma_div_denominator(v as int, p as int, po as int);
    lemma_low_field(x, 64, off, n);
    let f = (w1 as nat / po) % pow2(n);
    assert(f == (v / pow2(pos)) % pow2(n));
    // the field as a value and as bits of the word
    lemma_u64_shr_is_div(w1, off as u64);
    if n < 64 {
        lemma_u64_pow2_no_overflow(n);
        lemma_low_mask_value(n);
        lemma_u64_low_bits_mask_is_mod(w1 >> (off as u64), n);
        lemma_u64_low_bits_mask_is_mod(value, n);
    } else {
        let y = w1 >> (off as u64);
        assert(y & 0xffff_ffff_ffff_ffffu64 == y) by (bit_vector);
        assert(value & 0xffff_ffff_ffff_ffffu64 == value) by (bit_vector);
        lemma_small_mod(y as nat, pow2(64));
    }
    lemma_mod_pos_bound(data as int, pow2(n) as int);
    lemma_mod_pos_bound((w1 as nat / po) as int, pow2(n) as int);
    lemma_small_mod(value as nat, pow2(n));
    lemma_merge_bits(w1, value, off as u64, n as u64, keep, lm);
    lemma_shl_small((w1 >> (off as u64)) & lm, n, off as u64);
    lemma_shl_small(value, n, off as u64);
    assert(m1 + f * po == w1 + value * po);
    assert((m1 + f * po) * p == (w1 + value * po) * p);
    lemma_mul_is_distributive_add_other_way(p as int, m1 as int, (f * po) as int);
    lemma_mul_is_distributive_add_other_way(p as int, w1 as int, (value * po) as int);
    lemma_mul_is_associative(f as int, po as int, p as int);
    lemma_mul_is_associative(value as int, po as int, p as int);
    lemma_mul_is_commutative(po as int, p as int);
    lemma_replace_sum(v, pos, n, data as nat);
}

/// A write whose field spills from its first word into the next.
proof fn lemma_spanning_write(
    v: nat,
    v1: nat,
    v2: nat,
    pos: nat,
    idx: nat,
    off: nat,
    n: nat,
    w1: u64,
    w2: u64,
    value: u64,
    m1: u64,
    m2: u64,
    data: u64,
)
    requires
        off < 64,
        64 < off + n,
        n <= 64,
        pos == 64 * idx + off,
        w1 == (v / pow2(64 * idx)) % pow2(64),
        value as nat == data as nat % pow2(n),
        m1 == (w1 & write_mask(off, n)) | (value << (off as u64)),
        v1 + w1 * pow2(64 * idx) == v + m1 * pow2(64 * idx),
        w2 == (v1 / pow2(64 * idx + 64)) % pow2(64),
        m2 == (w2 & write_mask(0, (off + n - 64) as nat)) | (value >> ((64 - off) as u64)),
        v2 + w2 * pow2(64 * idx + 64) == v1 + m2 * pow2(64 * idx + 64),
    ensures
        v2 == replace_bits(v, pos, n, data as nat),
{
    let p = pow2(64 * idx);
    let po = pow2(off);
    let k = (64 - off) as nat;
    let rest = (off + n - 64) as nat;
    let pk = pow2(k);
    let pr = pow2(rest);
    let m = pow2(64);
    let x = v / p;
    lemma_pow2_small();
    lemma_pow2_pos(64 * idx);
    lemma_pow2_pos(off);
    lemma_pow2_pos(k);
    lemma_pow2_pos(rest);
    lemma_pow2_pos(n);
    lemma_pow2_adds(64 * idx, off);
    lemma_pow2_adds(64 * idx, 64);
    lemma_pow2_adds(off, k);
    lemma_pow2_adds(k, rest);
    lemma_div_denominator(v as int, p as int, po as int);
    lemma_div_denominator(v as int, p as int, m as int);
    lemma_u64_pow2_no_overflow(off);
    lemma_u64_pow2_no_overflow(k);
    lemma_u64_pow2_no_overflow(rest);
    lemma_u64_shl_is_mul(1, off as u64);
    lemma_u64_shl_is_mul(1, k as u64);
    lemma_u64_shl_is_mul(1, rest as u64);
    // the field before the write
    lemma_spanning_field(x, off, n);
    lemma_store_keeps_above(v, v1, p, w1 as nat, m1 as nat);
    assert(w2 == (x / m) % m);
    let f = (w1 as nat) / po + (w2 as nat % pr) * pk;
    assert(f == (v / pow2(pos)) % pow2(n));
    // the value split at the word boundary
    lemma_mod_pos_bound(data as int, pow2(n) as int);
    lemma_u64_shr_is_div(value, k as u64);
    lemma_multiply_divide_lt(value as int, pk as int, pr as int);
    lemma_split_bits(w1, w2, value, off as u64, rest as u64);
    // the first word
    let lo1 = (w1 & (((1u64 << (off as u64)) - 1) as u64));
    assert(write_mask(off, n) == ((1u64 << (off as u64)) - 1) as u64);
    assert(((1u64 << (off as u64)) - 1) as u64 == low_bits_mask(off) as u64);
    lemma_u64_low_bits_mask_is_mod(w1, off);
    let zk = value & (((1u64 << (k as u64)) - 1) as u64);
    assert(((1u64 << (k as u64)) - 1) as u64 == low_bits_mask(k) as u64);
    lemma_u64_low_bits_mask_is_mod(value, k);
    lemma_mod_pos_bound(value as int, pk as int);
    lemma_shl_small(zk, k, off as u64);
    lemma_or_is_add(lo1, zk, off as u64);
    assert(m1 == w1 as nat % po + (value as nat % pk) * po);
    // the second word
    assert(write_mask(0, rest) == !(((1u64 << (rest as u64)) - 1) as u64)) by {
        assert(((1u64 << 0u64) - 1) as u64 == 0u64) by (bit_vector);
        let t = !(((1u64 << (rest as u64)) - 1) as u64);
        assert(0u64 | t == t) by (bit_vector);
    }
    assert(((1u64 << (rest as u64)) - 1) as u64 == low_bits_mask(rest) as u64);
    lemma_u64_low_bits_mask_is_mod(w2, rest);
    assert(m2 == w2 as nat - w2 as nat % pr + value as nat / pk);
    // putting the pieces together
    lemma_fundamental_div_mod(w1 as int, po as int);
    lemma_fundamental_div_mod(value as int, pk as int);
    lemma_fundamental_div_mod(w2 as int, pr as int);
    let a = w1 as int / po as int;
    let b = w2 as int % pr as int;
    let c = value as int % pk as int;
    let d = value as int / pk as int;
    assert(m1 as int - w1 as int == (c - a) * po) by (nonlinear_arith)
        requires
            m1 as int == w1 as int % po as int + c * po,
            w1 as int == po * a + w1 as int % po as int,
    ;
    assert(m2 as int - w2 as int == d - b);
    assert(v2 as int == v as int + (m1 as int - w1 as int) * p + (m2 as int - w2 as int) * (p * m)) by (nonlinear_arith)
        requires
            v1 + w1 * p == v + m1 * p,
            v2 + w2 * pow2(64 * idx + 64) == v1 + m2 * pow2(64 * idx + 64),
            pow2(64 * idx + 64) == p * m,
    ;
    assert(v2 as int == v as int + (value as int - f as int) * (po * p)) by (nonlinear_arith)
        requires
            v2 as int == v as int + (c - a) * po * p + (d - b) * (p * m),
            m == po * pk,
            value as int == pk * d + c,
            f as int == a + b * pk,
    ;
    assert(pow2(pos) == po * p) by (nonlinear_arith)
        requires
            pow2(pos) == p * po,
    ;
    let pp = pow2(pos) as int;
    assert(v2 as int + f as int * pp == v as int + value as int * pp) by (nonlinear_arith)
        requires
            v2 as int == v as int + (value as int - f as int) * pp,
    ;
    lemma_replace_sum(v, pos, n, data as nat);
}

/// One more varint byte written after the `c` already in place.
proof fn lemma_varint_step(v0: nat, base_pos: nat, c: nat, ec: Seq<u8>, b: u8, vcur: nat, vnext: nat)
    requires
        ec.len() == c,
        vcur == replace_bits(v0, base_pos, 8 * c, bytes_value(ec)),
        vnext == replace_bits(vcur, base_pos + 8 * c, 8, b as nat),
    ensures
        vnext == replace_bits(v0, base_pos, 8 * (c + 1), bytes_value(ec.push(b))),
{
    let x = bytes_value(ec);
    lemma_replace_compose(v0, base_pos, 8 * c, 8, x, b as nat);
    lemma_value_bound(ec);
    lemma_small_mod(x, pow2(8 * c));
    lemma_value_push(ec, b);
    lemma_mul_is_commutative(pow2(8 * c) as int, b as int);
    assert(8 * c + 8 == 8 * (c + 1));
}

} // verus!
