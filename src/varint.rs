//! LEB128-style variable-length integers: seven payload bits per byte, the
//! least-significant group first, the top bit of a byte set when another byte
//! follows. Signed values are zigzag-mapped first.
use vstd::prelude::*;
use vstd::arithmetic::power2::*;
use vstd::arithmetic::div_mod::*;
use vstd::arithmetic::mul::*;
use vstd::bits::*;

use crate::masks::{extra_mask, lemma_low_mask_value};
use crate::model::{lemma_or_is_add, lemma_pow2_small};

verus! {

/// Why a varint could not be read from a byte sequence.
#[derive(Debug, Clone, Copy, PartialEq, Eq, Structural)]
pub enum VarintError {
    /// The bytes ended before a byte without the continuation bit.
    UnexpectedEof,
    /// The longest encoding for the integer's width passed without an end.
    MalformedVarint,
}

/// The flag bit of a varint byte: another byte follows.
pub const CONTINUE_BIT: u8 = 0x80;

/// The payload bits of a varint byte.
pub const PAYLOAD_BITS: u8 = 0x7f;

/// The varint bytes of `v`.
pub open spec fn uvarint_bytes(v: nat) -> Seq<u8>
    decreases v,
{
    if v < 128 {
        seq![v as u8]
    } else {
        seq![(v % 128 + 128) as u8] + uvarint_bytes(v / 128)
    }
}

/// How many bytes at the start of `s` have the continuation bit set.
pub open spec fn continued_prefix(s: Seq<u8>) -> nat
    decreases s.len(),
{
    if s.len() == 0 || s[0] < 128 {
        0
    } else {
        1 + continued_prefix(s.drop_first())
    }
}

/// The payload groups of `s` put together, the first byte's lowest.
pub open spec fn payload_value(s: Seq<u8>) -> nat
    decreases s.len(),
{
    if s.len() == 0 {
        0
    } else {
        (s[0] % 128) as nat + 128 * payload_value(s.drop_first())
    }
}

/// The longest varint encoding of a `num_bits`-bit integer: `ceil(num_bits / 7)`.
pub open spec fn max_varint_len(num_bits: nat) -> nat {
    (num_bits + 6) / 7
}

/// What decoding a varint of a `num_bits`-wide integer from the start of `s`
/// gives: the value (its bits above `num_bits` dropped) and the bytes it took,
/// or why there is none.
pub open spec fn decode_uvarint(s: Seq<u8>, num_bits: nat) -> Result<(nat, nat), VarintError> {
    let k = continued_prefix(s);
    if max_varint_len(num_bits) <= k {
        Err(VarintError::MalformedVarint)
    } else if k >= s.len() {
        Err(VarintError::UnexpectedEof)
    } else {
        Ok((payload_value(s.take(k + 1 as int)) % pow2(num_bits), k + 1))
    }
}

/// How many bytes a decoder that reads one byte at a time takes from `s`:
/// the varint's bytes, or the longest encoding when it is malformed, or all
/// of `s` when it ends first.
pub open spec fn varint_consumed(s: Seq<u8>, num_bits: nat) -> nat {
    match decode_uvarint(s, num_bits) {
        Ok((_, n)) => n,
        Err(VarintError::MalformedVarint) => max_varint_len(num_bits),
        Err(VarintError::UnexpectedEof) => s.len(),
    }
}

/// Zigzag mapping: 0, -1, 1, -2, ... to 0, 1, 2, 3, ...
pub open spec fn zigzag(n: int) -> nat {
    if n >= 0 {
        (2 * n) as nat
    } else {
        (-2 * n - 1) as nat
    }
}

/// The inverse of `zigzag`.
pub open spec fn unzigzag(u: nat) -> int {
    if u % 2 == 0 {
        (u / 2) as int
    } else {
        -((u + 1) / 2)
    }
}

/// Maps a signed 64-bit integer to an unsigned one so that small magnitudes
/// stay small.
pub fn zigzag_encode64(n: i64) -> (r: u64)
    ensures
        r == zigzag(n as int),
{
    assert(((n << 1u64) ^ (n >> 63u64)) as u64 == (if n >= 0 {
        (2 * n) as u64
    } else {
        (-2 * n - 1) as u64
    })) by (bit_vector);
    ((n << 1u64) ^ (n >> 63u64)) as u64
}

/// Undoes `zigzag_encode64`.
pub fn zigzag_decode64(n: u64) -> (r: i64)
    ensures
        r == unzigzag(n as nat),
{
    let half = n >> 1u64;
    let low = n & 1u64;
    proof {
        assert(half <= i64::MAX as u64 && low <= 1) by (bit_vector)
            requires
                half == n >> 1u64,
                low == n & 1u64,
        ;
    }
    let sign: i64 = -(low as i64);
    let r = (half as i64) ^ sign;
    proof {
        assert(r == (if n % 2 == 0 {
            (n / 2) as i64
        } else {
            (-((n / 2) as int) - 1) as i64
        })) by (bit_vector)
            requires
                half == n >> 1u64,
                low == n & 1u64,
                half <= i64::MAX as u64,
                low <= 1,
                sign == (-(low as int)) as i64,
                r == (half as i64) ^ sign,
        ;
    }
    r
}

/// Maps a signed 32-bit integer to an unsigned one so that small magnitudes
/// stay small.
pub fn zigzag_encode32(n: i32) -> (r: u32)
    ensures
        r == zigzag(n as int),
{
    assert(((n << 1u32) ^ (n >> 31u32)) as u32 == (if n >= 0 {
        (2 * n) as u32
    } else {
        (-2 * n - 1) as u32
    })) by (bit_vector);
    ((n << 1u32) ^ (n >> 31u32)) as u32
}

/// Undoes `zigzag_encode32`.
pub fn zigzag_decode32(n: u32) -> (r: i32)
    ensures
        r == unzigzag(n as nat),
{
    let half = n >> 1u32;
    let low = n & 1u32;
    proof {
        assert(half <= i32::MAX as u32 && low <= 1) by (bit_vector)
            requires
                half == n >> 1u32,
                low == n & 1u32,
        ;
    }
    let sign: i32 = -(low as i32);
    let r = (half as i32) ^ sign;
    proof {
        assert(r == (if n % 2 == 0 {
            (n / 2) as i32
        } else {
            (-((n / 2) as int) - 1) as i32
        })) by (bit_vector)
            requires
                half == n >> 1u32,
                low == n & 1u32,
                half <= i32::MAX as u32,
                low <= 1,
                sign == (-(low as int)) as i32,
                r == (half as i32) ^ sign,
        ;
    }
    r
}

/// Counting the continued bytes at the start of `s`.
pub proof fn lemma_prefix_at_least(s: Seq<u8>, c: nat)
    requires
        c <= s.len(),
        forall|i: int| 0 <= i < c ==> s[i] >= 128,
    ensures
        continued_prefix(s) >= c,
        c < s.len() && s[c as int] < 128 ==> continued_prefix(s) == c,
    decreases c,
{
    if c > 0 {
        lemma_prefix_at_least(s.drop_first(), (c - 1) as nat);
    }
}

/// The continued bytes are bytes of `s`.
pub proof fn lemma_prefix_le_len(s: Seq<u8>)
    ensures
        continued_prefix(s) <= s.len(),
    decreases s.len(),
{
    if s.len() > 0 {
        lemma_prefix_le_len(s.drop_first());
    }
}

/// One more byte adds its payload group above the others.
pub proof fn lemma_payload_push(s: Seq<u8>, b: u8)
    ensures
        payload_value(s.push(b)) == payload_value(s) + (b % 128) as nat * pow2(7 * s.len()),
    decreases s.len(),
{
    lemma_pow2_small();
    if s.len() == 0 {
        assert(s.push(b).drop_first() =~= Seq::<u8>::empty());
        assert(payload_value(s.push(b)) == (b % 128) as nat + 128 * payload_value(Seq::<u8>::empty()));
        assert(7 * s.len() == 0);
    } else {
        assert(s.push(b).drop_first() =~= s.drop_first().push(b));
        assert(s.push(b)[0] == s[0]);
        lemma_payload_push(s.drop_first(), b);
        lemma_pow2_adds(7, 7 * (s.len() - 1) as nat);
        lemma2_to64();
        let p = pow2(7 * (s.len() - 1) as nat);
        let g = (b % 128) as nat;
        assert(128 * (g * p) == g * (128 * p)) by (nonlinear_arith);
        assert(7 + 7 * (s.len() - 1) == 7 * s.len());
        assert(payload_value(s.push(b)) == (s[0] % 128) as nat + 128 * (payload_value(s.drop_first()) + g * p));
    }
}

/// `k` bytes carry fewer than `7 * k` bits of payload.
pub proof fn lemma_payload_bound(s: Seq<u8>)
    ensures
        payload_value(s) < pow2(7 * s.len()),
    decreases s.len(),
{
    lemma_pow2_small();
    if s.len() > 0 {
        lemma_payload_bound(s.drop_first());
        lemma_pow2_adds(7, 7 * (s.len() - 1) as nat);
        lemma2_to64();
        assert(7 + 7 * (s.len() - 1) == 7 * s.len());
    }
}

/// A value below `2^(7k)` takes at most `k` bytes, and always at least one.
pub proof fn lemma_uvarint_len(v: nat, k: nat)
    requires
        1 <= k,
        v < pow2(7 * k),
    ensures
        1 <= uvarint_bytes(v).len() <= k,
    decreases v,
{
    if v >= 128 {
        lemma2_to64();
        // a value of 128 or more needs more than seven bits
        assert(k >= 2);
        lemma_pow2_adds(7, 7 * (k - 1) as nat);
        assert(7 + 7 * (k - 1) == 7 * k);
        lemma_pow2_pos(7 * (k - 1) as nat);
        lemma_multiply_divide_lt(v as int, 128, pow2(7 * (k - 1) as nat) as int);
        lemma_uvarint_len(v / 128, (k - 1) as nat);
    }
}

/// A shift left that pushes bits out keeps only the bits that stay.
proof fn lemma_shl_wraps(z: u64, k: u64)
    by (bit_vector)
    requires
        0 < k < 64,
    ensures
        z << k == (z & (((1u64 << ((64 - k) as u64)) - 1) as u64)) << k,
{
}

/// Adds payload group `i` of a varint to the groups below it, wrapping at
/// 64 bits.
pub(crate) fn accumulate(value: u64, group: u8, i: usize) -> (r: u64)
    requires
        i < 10,
        group < 128,
        value < pow2(7 * i as nat),
    ensures
        r as nat == (value as nat + group as nat * pow2(7 * i as nat)) % pow2(64),
{
    let shift = (7 * i) as u64;
    let z = group as u64;
    let r = value | (z << shift);
    proof {
        let k = shift as nat;
        lemma_pow2_small();
        lemma_pow2_pos(k);
        if shift == 0 {
            assert(z << 0u64 == z) by (bit_vector);
            assert(value == 0);
            assert(0u64 | z == z) by (bit_vector);
            lemma_small_mod(z as nat, pow2(64));
        } else {
            let j = (64 - k) as nat;
            lemma_pow2_pos(j);
            lemma_shl_wraps(z, shift);
            lemma_u64_pow2_no_overflow(j);
            lemma_u64_shl_is_mul(1, (64 - shift) as u64);
            assert(((1u64 << ((64 - shift) as u64)) - 1) as u64 == low_bits_mask(j) as u64);
            lemma_u64_low_bits_mask_is_mod(z, j);
            let zl = (z as nat) % pow2(j);
            lemma_mod_pos_bound(z as int, pow2(j) as int);
            lemma_pow2_adds(k, j);
            lemma_mul_strict_inequality(zl as int, pow2(j) as int, pow2(k) as int);
            lemma_mul_is_commutative(zl as int, pow2(k) as int);
            assert(k + j == 64);
            assert(pow2(64) == pow2(k) * pow2(j));
            lemma_mul_is_commutative(pow2(j) as int, pow2(k) as int);
            assert(zl * pow2(k) < pow2(64));
            assert((zl as u64) as nat == zl);
            lemma_u64_shl_is_mul(zl as u64, shift);
            lemma_u64_pow2_no_overflow(k);
            lemma_u64_shl_is_mul(1, shift);
            lemma_or_is_add(value, zl as u64, shift);
            // the bits pushed out are multiples of 2^64
            lemma_fundamental_div_mod(z as int, pow2(j) as int);
            let q = (z as nat) / pow2(j);
            assert(value as nat + z as nat * pow2(k) == q * pow2(64) + (value as nat + zl * pow2(k))) by (nonlinear_arith)
                requires
                    z == pow2(j) * q + zl,
                    pow2(64) == pow2(k) * pow2(j),
            ;
            lemma_fundamental_div_mod_converse_mod(
                (value as nat + z as nat * pow2(k)) as int,
                pow2(64) as int,
                q as int,
                (value as nat + zl * pow2(k)) as int,
            );
        }
    }
    r
}

/// The longest varint encoding of a `num_bits`-bit integer, in bytes.
pub fn max_varint_size(num_bits: usize) -> (r: usize)
    ensures
        r == max_varint_len(num_bits as nat),
{
    num_bits / 7 + if num_bits % 7 == 0 {
        0
    } else {
        1
    }
}

/// Reads a varint of an integer `num_bits` wide from the start of `bytes`.
/// Returns the value, its bits above `num_bits` dropped, and the number of
/// bytes it took.
pub fn read_uvarint(bytes: &[u8], num_bits: usize) -> (r: Result<(u64, usize), VarintError>)
    requires
        8 <= num_bits <= 64,
    ensures
        match decode_uvarint(bytes@, num_bits as nat) {
            Ok((v, n)) => r == Ok::<(u64, usize), VarintError>((v as u64, n as usize)),
            Err(e) => r == Err::<(u64, usize), VarintError>(e),
        },
{
    let max = max_varint_size(num_bits);
    let mut value: u64 = 0;
    let mut count: usize = 0;
    proof {
        lemma_pow2_small();
        assert(bytes@.take(0) =~= Seq::<u8>::empty());
        lemma_prefix_le_len(bytes@);
        lemma_pow2_pos(num_bits as nat);
    }
    while count < max
        invariant
            8 <= num_bits <= 64,
            max == max_varint_len(num_bits as nat),
            max <= 10,
            count <= max,
            count <= bytes@.len(),
            continued_prefix(bytes@) <= bytes@.len(),
            forall|i: int| 0 <= i < count ==> bytes@[i] >= 128,
            value as nat == payload_value(bytes@.take(count as int)) % pow2(64),
            count < 10 ==> value as nat == payload_value(bytes@.take(count as int)),
        decreases max - count,
    {
        if count >= bytes.len() {
            proof {
                lemma_prefix_at_least(bytes@, count as nat);
            }
            return Err(VarintError::UnexpectedEof);
        }
        let byte = bytes[count];
        let ghost before = bytes@.take(count as int);
        proof {
            assert(byte & 0x7fu8 == byte % 128) by (bit_vector);
            assert((byte & 0x80u8 == 0) == (byte < 128)) by (bit_vector);
            lemma_payload_bound(before);
            assert(bytes@.take(count + 1) =~= before.push(byte));
            lemma_payload_push(before, byte);
        }
        value = accumulate(value, byte & PAYLOAD_BITS, count);
        count += 1;
        proof {
            lemma_pow2_small();
            if count < 10 {
                lemma_payload_bound(bytes@.take(count as int));
                lemma_pow2_strictly_increases(7 * count as nat, 64);
                lemma_small_mod(payload_value(bytes@.take(count as int)), pow2(64));
            }
        }
        if byte & CONTINUE_BIT == 0 {
            let mask = extra_mask(num_bits);
            let r = value & mask;
            proof {
                lemma_prefix_at_least(bytes@, (count - 1) as nat);
                let p = payload_value(bytes@.take(count as int));
                let nb = num_bits as nat;
                lemma_pow2_pos(nb);
                lemma_pow2_pos((64 - nb) as nat);
                lemma_pow2_adds(nb, (64 - nb) as nat);
                lemma_mod_mod(p as int, pow2(nb) as int, pow2((64 - nb) as nat) as int);
                if num_bits < 64 {
                    lemma_u64_pow2_no_overflow(nb);
                    lemma_low_mask_value(nb);
                    lemma_u64_low_bits_mask_is_mod(value, nb);
                } else {
                    assert(value & 0xffff_ffff_ffff_ffffu64 == value) by (bit_vector);
                }
            }
            return Ok((r, count));
        }
    }
    proof {
        lemma_prefix_at_least(bytes@, count as nat);
    }
    Err(VarintError::MalformedVarint)
}

/// Reads the varint of a `u64` from the start of `bytes`; also returns the
/// number of bytes it took.
pub fn read_uvarint64(bytes: &[u8]) -> (r: Result<(u64, usize), VarintError>)
    ensures
        match decode_uvarint(bytes@, 64) {
            Ok((v, n)) => r == Ok::<(u64, usize), VarintError>((v as u64, n as usize)),
            Err(e) => r == Err::<(u64, usize), VarintError>(e),
        },
{
    read_uvarint(bytes, 64)
}

/// Reads the zigzag varint of an `i64` from the start of `bytes`; also
/// returns the number of bytes it took.
pub fn read_varint64(bytes: &[u8]) -> (r: Result<(i64, usize), VarintError>)
    ensures
        match decode_uvarint(bytes@, 64) {
            Ok((v, n)) => r == Ok::<(i64, usize), VarintError>((unzigzag(v) as i64, n as usize)),
            Err(e) => r == Err::<(i64, usize), VarintError>(e),
        },
{
    match read_uvarint(bytes, 64) {
        Ok((v, n)) => {
            proof {
                lemma_pow2_small();
                lemma_mod_pos_bound(payload_value(bytes@.take(continued_prefix(bytes@) + 1 as int)) as int, pow2(64) as int);
            }
            Ok((zigzag_decode64(v), n))
        },
        Err(e) => Err(e),
    }
}

/// Reads the varint of a `u32` from the start of `bytes`; also returns the
/// number of bytes it took.
pub fn read_uvarint32(bytes: &[u8]) -> (r: Result<(u32, usize), VarintError>)
    ensures
        match decode_uvarint(bytes@, 32) {
            Ok((v, n)) => r == Ok::<(u32, usize), VarintError>((v as u32, n as usize)),
            Err(e) => r == Err::<(u32, usize), VarintError>(e),
        },
{
    match read_uvarint(bytes, 32) {
        Ok((v, n)) => {
            proof {
                lemma_pow2_small();
                lemma2_to64();
                lemma_pow2_pos(32);
                lemma_mod_pos_bound(payload_value(bytes@.take(continued_prefix(bytes@) + 1 as int)) as int, pow2(32) as int);
            }
            Ok((v as u32, n))
        },
        Err(e) => Err(e),
    }
}

/// Reads the zigzag varint of an `i32` from the start of `bytes`; also
/// returns the number of bytes it took.
pub fn read_varint32(bytes: &[u8]) -> (r: Result<(i32, usize), VarintError>)
    ensures
        match decode_uvarint(bytes@, 32) {
            Ok((v, n)) => r == Ok::<(i32, usize), VarintError>((unzigzag(v) as i32, n as usize)),
            Err(e) => r == Err::<(i32, usize), VarintError>(e),
        },
{
    match read_uvarint32(bytes) {
        Ok((v, n)) => {
            proof {
                lemma2_to64();
                lemma_pow2_pos(32);
                lemma_mod_pos_bound(payload_value(bytes@.take(continued_prefix(bytes@) + 1 as int)) as int, pow2(32) as int);
            }
            Ok((zigzag_decode32(v), n))
        },
        Err(e) => Err(e),
    }
}

/// Appends the varint bytes of `value` to `w` and returns how many there were.
pub fn write_uvarint64(w: &mut Vec<u8>, value: u64) -> (r: usize)
    ensures
        final(w)@ == old(w)@ + uvarint_bytes(value as nat),
        r == uvarint_bytes(value as nat).len(),
        r <= max_varint_len(64),
{
    let ghost all = uvarint_bytes(value as nat);
    let mut value = value;
    let mut count: usize = 0;
    proof {
        lemma_pow2_small();
        lemma_pow2_strictly_increases(64, 70);
        lemma_uvarint_len(value as nat, 10);
        assert(w@ + uvarint_bytes(value as nat) =~= old(w)@ + all);
    }
    while value >= 128
        invariant
            w@ + uvarint_bytes(value as nat) == old(w)@ + all,
            count + uvarint_bytes(value as nat).len() == all.len(),
            all.len() <= 10,
        decreases value,
    {
        let b = ((value & 0x7f) | 0x80) as u8;
        proof {
            assert(((value & 0x7f) | 0x80) == value % 128 + 128) by (bit_vector);
            assert(value >> 7u64 == value / 128) by (bit_vector);
            let rest = uvarint_bytes(value as nat / 128);
            assert(uvarint_bytes(value as nat) == seq![b] + rest);
            assert(w@.push(b) + rest =~= w@ + (seq![b] + rest));
            lemma_pow2_small();
            lemma_pow2_strictly_increases(64, 70);
            lemma_uvarint_len(value as nat / 128, 10);
        }
        w.push(b);
        value = value >> 7;
        count += 1;
    }
    proof {
        assert(uvarint_bytes(value as nat) == seq![value as u8]);
        assert(w@.push(value as u8) =~= w@ + seq![value as u8]);
    }
    w.push(value as u8);
    count += 1;
    count
}

/// Appends the zigzag varint bytes of `value` to `w` and returns how many
/// there were.
pub fn write_varint64(w: &mut Vec<u8>, value: i64) -> (r: usize)
    ensures
        final(w)@ == old(w)@ + uvarint_bytes(zigzag(value as int)),
        r == uvarint_bytes(zigzag(value as int)).len(),
{
    write_uvarint64(w, zigzag_encode64(value))
}

/// The bytes of `v` read back: every byte but the last carries the
/// continuation bit, their payload is `v`, and whatever follows is not read.
pub proof fn lemma_uvarint_bytes_shape(v: nat, rest: Seq<u8>)
    ensures
        uvarint_bytes(v).len() >= 1,
        continued_prefix(uvarint_bytes(v) + rest) == uvarint_bytes(v).len() - 1,
        payload_value(uvarint_bytes(v)) == v,
    decreases v,
{
    let e = uvarint_bytes(v);
    if v < 128 {
        assert((e + rest)[0] == v as u8);
        assert(payload_value(e) == (v % 128) as nat + 128 * payload_value(e.drop_first()));
        assert(e.drop_first() =~= Seq::<u8>::empty());
    } else {
        let t = uvarint_bytes(v / 128);
        lemma_uvarint_bytes_shape(v / 128, rest);
        assert((e + rest).drop_first() =~= t + rest);
        assert(e.drop_first() =~= t);
        assert((e + rest)[0] == (v % 128 + 128) as u8);
        assert(((v % 128 + 128) as u8) % 128 == v % 128);
    }
}

/// Round trip: decoding the varint bytes of any `num_bits`-wide value, with
/// anything after them, gives the value back and takes exactly those bytes,
/// at most `ceil(num_bits / 7)` of them.
pub proof fn lemma_uvarint_round_trip(v: nat, rest: Seq<u8>, num_bits: nat)
    requires
        8 <= num_bits <= 64,
        v < pow2(num_bits),
    ensures
        uvarint_bytes(v).len() <= max_varint_len(num_bits),
        decode_uvarint(uvarint_bytes(v) + rest, num_bits) == Ok::<(nat, nat), VarintError>(
            (v, uvarint_bytes(v).len()),
        ),
{
    let e = uvarint_bytes(v);
    let m = max_varint_len(num_bits);
    lemma_uvarint_bytes_shape(v, rest);
    if num_bits < 7 * m {
        lemma_pow2_strictly_increases(num_bits, 7 * m);
    }
    lemma_uvarint_len(v, m);
    assert((e + rest).take(e.len() as int) =~= e);
    lemma_small_mod(v, pow2(num_bits));
}

/// Zigzag mapping is undone by its inverse, and puts every value strictly
/// between -64 and 64 in a one-byte varint.
pub proof fn lemma_zigzag_round_trip(n: int)
    ensures
        unzigzag(zigzag(n)) == n,
        -64 < n < 64 ==> uvarint_bytes(zigzag(n)).len() == 1,
{
}

/// A run of continued bytes as long as the longest encoding is rejected as
/// malformed, whatever follows it.
pub proof fn lemma_hostile_input(s: Seq<u8>, num_bits: nat)
    requires
        max_varint_len(num_bits) <= s.len(),
        forall|i: int| 0 <= i < max_varint_len(num_bits) ==> s[i] >= 128,
    ensures
        decode_uvarint(s, num_bits) == Err::<(nat, nat), VarintError>(VarintError::MalformedVarint),
{
    lemma_prefix_at_least(s, max_varint_len(num_bits));
}

/// Whatever the bytes, decoding takes at most `ceil(num_bits / 7)` of them
/// (ten for 64 bits), and asks for more only while fewer than that were given.
pub proof fn lemma_varint_consumed_bound(s: Seq<u8>, num_bits: nat)
    ensures
        varint_consumed(s, num_bits) <= max_varint_len(num_bits),
        varint_consumed(s, num_bits) <= s.len(),
        decode_uvarint(s, num_bits) == Err::<(nat, nat), VarintError>(VarintError::UnexpectedEof)
            ==> s.len() < max_varint_len(num_bits),
        decode_uvarint(s, num_bits) is Ok ==> 1 <= varint_consumed(s, num_bits),
{
    lemma_prefix_le_len(s);
}

} // verus!
