//! The mathematical view of a byte buffer as one little-endian unsigned
//! integer, and the 64-bit word access that the reader and writer build on.
use vstd::prelude::*;
use vstd::arithmetic::power2::*;
use vstd::arithmetic::div_mod::*;
use vstd::arithmetic::mul::*;
use vstd::bits::*;

use crate::masks::{lemma_low_mask_value, low_mask};

verus! {

/// The buffer read as one unsigned integer: byte `i` holds bits `8*i .. 8*i+8`.
pub open spec fn bytes_value(s: Seq<u8>) -> nat
    decreases s.len(),
{
    if s.len() == 0 {
        0
    } else {
        s[0] as nat + 256 * bytes_value(s.drop_first())
    }
}

/// The `n`-bit field that starts at bit `pos`, least-significant bit first.
pub open spec fn field_value(s: Seq<u8>, pos: nat, n: nat) -> nat {
    (bytes_value(s) / pow2(pos)) % pow2(n)
}

/// `x` with its `n` bits at `pos` replaced by the low `n` bits of `v`: the bits
/// below `pos`, then the new field, then the bits from `pos + n` up.
pub open spec fn replace_bits(x: nat, pos: nat, n: nat, v: nat) -> nat {
    x % pow2(pos) + (v % pow2(n)) * pow2(pos) + (x / pow2(pos + n)) * pow2(pos + n)
}

/// The 64-bit little-endian word that starts at byte `at`.
pub open spec fn word_at(s: Seq<u8>, at: nat) -> nat {
    (bytes_value(s) / pow2(8 * at)) % pow2(64)
}

pub proof fn lemma_pow2_small()
    ensures
        pow2(0) == 1,
        pow2(8) == 256,
        pow2(64) == 0x1_0000_0000_0000_0000,
{
    lemma2_to64();
    lemma2_to64_rest();
}

/// Dropping the low `m` bytes divides the value by `2^(8m)`.
pub proof fn lemma_value_skip(s: Seq<u8>, m: nat)
    requires
        m <= s.len(),
    ensures
        bytes_value(s) / pow2(8 * m) == bytes_value(s.subrange(m as int, s.len() as int)),
    decreases m,
{
    lemma_pow2_small();
    if m == 0 {
        assert(s.subrange(0, s.len() as int) =~= s);
        assert(pow2(8 * m) == 1);
        lemma_fundamental_div_mod_converse_div(bytes_value(s) as int, 1, bytes_value(s) as int, 0);
    } else {
        let e = (8 * (m - 1)) as nat;
        let p = pow2(e);
        lemma_value_skip(s, (m - 1) as nat);
        let t = s.subrange(m - 1, s.len() as int);
        assert(t.drop_first() =~= s.subrange(m as int, s.len() as int));
        lemma_pow2_adds(e, 8);
        assert(e + 8 == 8 * m);
        assert(pow2(8 * m) == p * 256);
        lemma_pow2_pos(e);
        lemma_div_denominator(bytes_value(s) as int, p as int, 256);
        assert(bytes_value(s) / pow2(8 * m) == bytes_value(t) / 256);
        assert(bytes_value(t) == t[0] + 256 * bytes_value(t.drop_first()));
        lemma_fundamental_div_mod_converse_div(
            bytes_value(t) as int,
            256,
            bytes_value(t.drop_first()) as int,
            t[0] as int,
        );
    }
}

/// A buffer of `len` bytes holds a value below `2^(8*len)`.
pub proof fn lemma_value_bound(s: Seq<u8>)
    ensures
        bytes_value(s) < pow2(8 * s.len()),
    decreases s.len(),
{
    lemma_pow2_small();
    if s.len() > 0 {
        lemma_value_bound(s.drop_first());
        lemma_pow2_adds(8, 8 * (s.len() - 1) as nat);
    }
}

/// Byte `m` is digit `m` of the value in base 256.
pub proof fn lemma_digit(s: Seq<u8>, m: nat)
    requires
        m < s.len(),
    ensures
        (bytes_value(s) / pow2(8 * m)) % 256 == s[m as int],
{
    lemma_value_skip(s, m);
    let t = s.subrange(m as int, s.len() as int);
    lemma_fundamental_div_mod_converse_mod(
        bytes_value(t) as int,
        256,
        bytes_value(t.drop_first()) as int,
        t[0] as int,
    );
}

/// Replacing byte `m` changes the value by the difference at digit `m`.
pub proof fn lemma_value_update(s: Seq<u8>, m: nat, b: u8)
    requires
        m < s.len(),
    ensures
        bytes_value(s.update(m as int, b)) + s[m as int] * pow2(8 * m) == bytes_value(s) + b
            * pow2(8 * m),
    decreases m,
{
    lemma_pow2_small();
    let u = s.update(m as int, b);
    if m == 0 {
        assert(u.drop_first() =~= s.drop_first());
        assert(pow2(8 * m) == 1);
        assert(bytes_value(u) == b + 256 * bytes_value(s.drop_first()));
    } else {
        let e = (8 * (m - 1)) as nat;
        let p = pow2(e);
        assert(u.drop_first() =~= s.drop_first().update(m - 1, b));
        lemma_value_update(s.drop_first(), (m - 1) as nat, b);
        lemma_pow2_adds(8, e);
        assert(8 + e == 8 * m);
        assert(pow2(8 * m) == 256 * p);
        let x = bytes_value(u.drop_first());
        let y = bytes_value(s.drop_first());
        let c = s[m as int] as int;
        assert(s.drop_first()[m - 1] == c);
        assert(x + c * p == y + b * p);
        assert(bytes_value(u) == u[0] + 256 * x);
        assert(bytes_value(s) == s[0] + 256 * y);
        assert(u[0] == s[0]);
        assert(256 * (c * p) == c * (256 * p)) by (nonlinear_arith);
        assert(256 * (b * p) == b * (256 * p)) by (nonlinear_arith);
    }
}

/// Bits `off .. off+n` of `x` read the same after keeping only its low `a`
/// bits, as long as they lie below `a`.
pub proof fn lemma_low_field(x: nat, a: nat, off: nat, n: nat)
    requires
        off + n <= a,
    ensures
        ((x % pow2(a)) / pow2(off)) % pow2(n) == (x / pow2(off)) % pow2(n),
{
    let po = pow2(off);
    let pr = pow2((a - off) as nat);
    lemma_pow2_pos(off);
    lemma_pow2_pos((a - off) as nat);
    lemma_pow2_pos(n);
    lemma_pow2_pos((a - off - n) as nat);
    lemma_pow2_adds(off, (a - off) as nat);
    lemma_mod_breakdown(x as int, po as int, pr as int);
    lemma_mod_pos_bound(x as int, po as int);
    lemma_mod_pos_bound((x / po) as int, pr as int);
    lemma_fundamental_div_mod_converse_div(
        (x % pow2(a)) as int,
        po as int,
        ((x / po) % pr) as int,
        (x % po) as int,
    );
    lemma_pow2_adds(n, (a - off - n) as nat);
    lemma_mod_mod((x / po) as int, pow2(n) as int, pow2((a - off - n) as nat) as int);
}

/// Reads the little-endian 64-bit word that starts at byte `at`.
pub fn load_word(data: &[u8], at: usize) -> (w: u64)
    requires
        at + 8 <= data@.len(),
    ensures
        w as nat == word_at(data@, at as nat),
{
    let len = data.len();
    let base = at;
    let mut w: u64 = 0;
    let mut j: usize = 8;
    proof {
        lemma_pow2_small();
    }
    while j > 0
        invariant
            0 <= j <= 8,
            base == at,
            len == data@.len(),
            base + 8 <= len,
            w as nat == (bytes_value(data@) / pow2(8 * (base + j) as nat)) % pow2(
                8 * (8 - j) as nat,
            ),
        decreases j,
    {
        let ghost v = bytes_value(data@);
        let ghost e = (8 * (base + j - 1)) as nat;
        let ghost x = v / pow2(e);
        let ghost z = pow2(8 * (8 - j) as nat);
        proof {
            lemma_pow2_small();
            lemma_pow2_adds(e, 8);
            lemma_pow2_pos(e);
            lemma_pow2_pos(8 * (8 - j) as nat);
            lemma_div_denominator(v as int, pow2(e) as int, 256);
            lemma_digit(data@, (base + j - 1) as nat);
            lemma_pow2_adds(8, 8 * (8 - j) as nat);
            lemma_mod_breakdown(x as int, 256, z as int);
            lemma_mod_pos_bound((v / pow2(8 * (base + j) as nat)) as int, z as int);
            if j > 1 {
                lemma_pow2_strictly_increases(8 * (8 - j) as nat, 56);
            }
            lemma_pow2_adds(56, 8);
            assert(pow2(56) * 256 == pow2(64));
            assert(e + 8 == 8 * (base + j));
            assert(x / 256 == v / pow2(8 * (base + j) as nat));
            assert(x % 256 == data@[base + j - 1]);
            assert(8 + 8 * (8 - j) == 8 * (8 - (j - 1)));
            assert(x % pow2(8 * (8 - (j - 1)) as nat) == 256 * w + data@[base + j - 1]);
        }
        j -= 1;
        w = w * 256 + data[base + j] as u64;
    }
    w
}

/// A field of `a + b` bits is its low `a` bits followed by the next `b`.
pub proof fn lemma_field_split(s: Seq<u8>, pos: nat, a: nat, b: nat)
    ensures
        field_value(s, pos, a + b) == field_value(s, pos, a) + pow2(a) * field_value(
            s,
            pos + a,
            b,
        ),
{
    let y = bytes_value(s) / pow2(pos);
    lemma_pow2_pos(pos);
    lemma_pow2_pos(a);
    lemma_pow2_pos(b);
    lemma_pow2_adds(a, b);
    lemma_pow2_adds(pos, a);
    lemma_mod_breakdown(y as int, pow2(a) as int, pow2(b) as int);
    lemma_div_denominator(bytes_value(s) as int, pow2(pos) as int, pow2(a) as int);
}

/// Writes `w` little-endian into the eight bytes that start at `at`.
pub fn store_word(data: &mut [u8], at: usize, w: u64)
    requires
        at + 8 <= old(data)@.len(),
    ensures
        final(data)@.len() == old(data)@.len(),
        bytes_value(final(data)@) + word_at(old(data)@, at as nat) * pow2(8 * at as nat)
            == bytes_value(old(data)@) + w * pow2(8 * at as nat),
{
    let ghost v0 = bytes_value(data@);
    let ghost ow = word_at(data@, at as nat);
    let ghost p = pow2(8 * at as nat);
    let ghost s0 = data@;
    let len = data.len();
    let mut rest = w;
    let mut j: usize = 0;
    proof {
        lemma_pow2_small();
        lemma_fundamental_div_mod_converse_mod(ow as int, 1, ow as int, 0);
        lemma_fundamental_div_mod_converse_mod(w as int, 1, w as int, 0);
        lemma_fundamental_div_mod_converse_div(w as int, 1, w as int, 0);
    }
    while j < 8
        invariant
            0 <= j <= 8,
            len == data@.len(),
            at + 8 <= len,
            data@.len() == s0.len(),
            v0 == bytes_value(s0),
            ow == word_at(s0, at as nat),
            p == pow2(8 * at as nat),
            rest as nat == w as nat / pow2(8 * j as nat),
            forall|i: int| at + j <= i < s0.len() ==> data@[i] == s0[i],
            bytes_value(data@) + (ow % pow2(8 * j as nat)) * p == v0 + (w as nat % pow2(
                8 * j as nat,
            )) * p,
        decreases 8 - j,
    {
        let ghost cur = data@;
        let ghost e = 8 * j as nat;
        let ghost q = pow2(e);
        let ghost c = cur[at + j];
        let b = (rest % 256) as u8;
        proof {
            lemma_pow2_small();
            lemma_pow2_pos(e);
            lemma_pow2_pos(8 * at as nat);
            // the old byte at `at + j` is digit `j` of the old word
            lemma_pow2_adds(8 * at as nat, e);
            lemma_div_denominator(v0 as int, p as int, q as int);
            lemma_digit(s0, (at + j) as nat);
            lemma_low_field(v0 / p, 64, e, 8);
            assert(c == (ow / q) % 256);
            // both remainders grow by one digit
            lemma_pow2_adds(e, 8);
            lemma_mod_breakdown(ow as int, q as int, 256);
            lemma_mod_breakdown(w as int, q as int, 256);
            lemma_div_denominator(w as int, q as int, 256);
            lemma_value_update(cur, (at + j) as nat, b);
            assert(8 * (at + j) == 8 * at + e);
            assert(pow2(8 * (at + j) as nat) == p * q);
            assert(c * (p * q) == (q * c) * p) by (nonlinear_arith);
            assert(b * (p * q) == (q * b) * p) by (nonlinear_arith);
            lemma_mul_is_distributive_add_other_way(p as int, (ow % q) as int, q * c);
            lemma_mul_is_distributive_add_other_way(p as int, (w as nat % q) as int, q * b);
            assert(e + 8 == 8 * (j + 1));
        }
        data[at + j] = b;
        rest = rest / 256;
        j += 1;
    }
    proof {
        lemma_pow2_small();
        lemma_pow2_pos(8 * at as nat);
        lemma_mod_pos_bound((v0 / p) as int, pow2(64) as int);
        lemma_small_mod(ow, pow2(64));
        lemma_small_mod(w as nat, pow2(64));
    }
}

/// A field that crosses from one 64-bit word into the next: the top bits of
/// the first word, then the low bits of the second above them.
pub proof fn lemma_spanning_field(x: nat, off: nat, n: nat)
    requires
        0 < off < 64,
        64 < off + n,
        n <= 64,
    ensures
        (x / pow2(off)) % pow2(n) == (x % pow2(64)) / pow2(off) + ((x / pow2(64)) % pow2(64)
            % pow2((off + n - 64) as nat)) * pow2((64 - off) as nat),
        (x % pow2(64)) / pow2(off) < pow2((64 - off) as nat),
{
    let k = (64 - off) as nat;
    let spill = (off + n - 64) as nat;
    let y = x / pow2(off);
    let a = pow2(k);
    let b = pow2(spill);
    lemma_pow2_pos(off);
    lemma_pow2_pos(k);
    lemma_pow2_pos(spill);
    lemma_pow2_pos(64);
    lemma_pow2_pos((64 - spill) as nat);
    lemma_pow2_adds(k, spill);
    lemma_pow2_adds(off, k);
    lemma_pow2_adds(spill, (64 - spill) as nat);
    lemma_mod_breakdown(y as int, a as int, b as int);
    lemma_low_field(x, 64, off, k);
    lemma_mod_pos_bound(x as int, pow2(64) as int);
    lemma_multiply_divide_lt((x % pow2(64)) as int, pow2(off) as int, a as int);
    lemma_small_mod((x % pow2(64)) / pow2(off), a);
    lemma_div_denominator(x as int, pow2(off) as int, a as int);
    lemma_mod_mod((x / pow2(64)) as int, b as int, pow2((64 - spill) as nat) as int);
    assert(k + spill == n);
    assert(pow2(n) == a * b);
    assert(off + k == 64);
    assert(y / a == x / pow2(64));
    assert(y % a == (x % pow2(64)) / pow2(off));
    assert(spill + (64 - spill) == 64);
    assert((x / pow2(64)) % pow2(64) % b == (x / pow2(64)) % b);
    assert(y % pow2(n) == a * ((y / a) % b) + y % a);
    lemma_mul_is_commutative(a as int, ((y / a) % b) as int);
}

/// Two values whose set bits do not overlap combine by addition.
pub proof fn lemma_or_is_add(lo: u64, z: u64, k: u64)
    by (bit_vector)
    requires
        k < 64,
        lo < (1u64 << k),
    ensures
        lo + (z << k) <= u64::MAX,
        lo | (z << k) == lo + (z << k),
{
}

/// Replacing the digit block `Q % M` of `vcur = F + P * Q` by `x`.
pub proof fn lemma_replace_block(f: int, p: int, q: int, m: int, x: int, vcur: int, vnew: int)
    requires
        p > 0,
        m > 0,
        0 <= f < p,
        q >= 0,
        vcur == f + p * q,
        vnew + (q % m) * p == vcur + x * p,
    ensures
        vcur / p == q,
        vnew == f + p * x + (p * m) * (q / m),
{
    lemma_mul_is_commutative(p, q);
    lemma_fundamental_div_mod_converse_div(vcur, p, q, f);
    lemma_fundamental_div_mod(q, m);
    assert(p * q == p * (m * (q / m)) + p * (q % m)) by (nonlinear_arith)
        requires
            q == m * (q / m) + q % m,
    ;
    assert(p * (m * (q / m)) == (p * m) * (q / m)) by (nonlinear_arith);
    assert((q % m) * p == p * (q % m)) by (nonlinear_arith);
    assert(x * p == p * x) by (nonlinear_arith);
}

/// A field of `n` bits is below `2^n`.
pub proof fn lemma_field_bound(s: Seq<u8>, pos: nat, n: nat)
    ensures
        field_value(s, pos, n) < pow2(n),
{
    lemma_pow2_pos(n);
    lemma_pow2_pos(pos);
    lemma_mod_pos_bound((bytes_value(s) / pow2(pos)) as int, pow2(n) as int);
}

/// Storing a word leaves the words above it as they were.
pub proof fn lemma_store_keeps_above(v: nat, v1: nat, p: nat, w: nat, w1: nat)
    requires
        p > 0,
        w == (v / p) % pow2(64),
        w1 < pow2(64),
        v1 + w * p == v + w1 * p,
    ensures
        v1 / (p * pow2(64)) == v / (p * pow2(64)),
        v1 / p == (v / p) / pow2(64) * pow2(64) + w1,
{
    let m = pow2(64);
    lemma_pow2_pos(64);
    let x = v / p;
    let q = x / m;
    lemma_fundamental_div_mod(v as int, p as int);
    lemma_fundamental_div_mod(x as int, m as int);
    lemma_mod_pos_bound(v as int, p as int);
    assert(v1 == (q * m + w1) * p + v % p) by (nonlinear_arith)
        requires
            v == p * x + v % p,
            x == m * q + w,
            v1 + w * p == v + w1 * p,
    ;
    lemma_fundamental_div_mod_converse_div(v1 as int, p as int, (q * m + w1) as int, (v % p) as int);
    lemma_fundamental_div_mod_converse_div((v1 / p) as int, m as int, q as int, w1 as int);
    lemma_div_denominator(v1 as int, p as int, m as int);
    lemma_div_denominator(v as int, p as int, m as int);
}

/// Replacing a field takes the old field's weight out and puts the new one in.
pub proof fn lemma_replace_sum(x: nat, pos: nat, n: nat, v: nat)
    ensures
        replace_bits(x, pos, n, v) + ((x / pow2(pos)) % pow2(n)) * pow2(pos) == x + (v % pow2(
            n,
        )) * pow2(pos),
{
    let pp = pow2(pos);
    let pn = pow2(n);
    lemma_pow2_pos(pos);
    lemma_pow2_pos(n);
    lemma_pow2_adds(pos, n);
    let y = x / pp;
    let l = x % pp;
    let f = y % pn;
    let q = y / pn;
    lemma_fundamental_div_mod(x as int, pp as int);
    lemma_fundamental_div_mod(y as int, pn as int);
    lemma_div_denominator(x as int, pp as int, pn as int);
    assert(x == l + f * pp + q * (pp * pn)) by (nonlinear_arith)
        requires
            x == pp * y + l,
            y == pn * q + f,
    ;
}

/// Replacing a field leaves the bits around it as they were, and the field
/// then holds the new value.
pub proof fn lemma_replace_keeps_above(x: nat, pos: nat, n: nat, v: nat)
    ensures
        replace_bits(x, pos, n, v) / pow2(pos + n) == x / pow2(pos + n),
        replace_bits(x, pos, n, v) % pow2(pos) == x % pow2(pos),
        (replace_bits(x, pos, n, v) / pow2(pos)) % pow2(n) == v % pow2(n),
{
    let pp = pow2(pos);
    let pn = pow2(n);
    lemma_pow2_pos(pos);
    lemma_pow2_pos(n);
    lemma_pow2_adds(pos, n);
    let l = x % pp;
    let u = v % pn;
    let q = x / pow2(pos + n);
    lemma_mod_pos_bound(x as int, pp as int);
    lemma_mod_pos_bound(v as int, pn as int);
    let r = replace_bits(x, pos, n, v);
    assert(r == (q * pn + u) * pp + l) by (nonlinear_arith)
        requires
            r == l + u * pp + q * (pp * pn),
    ;
    lemma_fundamental_div_mod_converse_div(r as int, pp as int, (q * pn + u) as int, l as int);
    lemma_fundamental_div_mod_converse_mod(r as int, pp as int, (q * pn + u) as int, l as int);
    let t = (q * pn + u) as int;
    assert(0 <= u < pn);
    assert(t == (q as int) * (pn as int) + (u as int)) by (nonlinear_arith)
        requires
            t == (q * pn + u) as int,
    ;
    lemma_fundamental_div_mod_converse_div(t, pn as int, q as int, u as int);
    lemma_fundamental_div_mod_converse_mod(t, pn as int, q as int, u as int);
    lemma_div_denominator(r as int, pp as int, pn as int);
}

/// Two writes to adjacent fields are one write to the joined field.
pub proof fn lemma_replace_compose(x: nat, pos: nat, a: nat, b: nat, u: nat, w: nat)
    ensures
        replace_bits(replace_bits(x, pos, a, u), pos + a, b, w) == replace_bits(
            x,
            pos,
            a + b,
            u % pow2(a) + pow2(a) * w,
        ),
{
    let pp = pow2(pos);
    let pa = pow2(a);
    let pb = pow2(b);
    lemma_pow2_pos(pos);
    lemma_pow2_pos(a);
    lemma_pow2_pos(b);
    lemma_pow2_adds(pos, a);
    lemma_pow2_adds(a, b);
    lemma_pow2_adds(pos + a, b);
    let ppa = pow2(pos + a);
    let ppab = pow2(pos + a + b);
    let x1 = replace_bits(x, pos, a, u);
    lemma_replace_keeps_above(x, pos, a, u);
    // the low part of x1 below the second field
    lemma_mod_breakdown(x1 as int, pp as int, pa as int);
    assert(x1 % ppa == x % pp + (u % pa) * pp);
    // the high part of x1 above the second field
    lemma_pow2_pos(pos + a);
    lemma_div_denominator(x1 as int, ppa as int, pb as int);
    lemma_div_denominator(x as int, ppa as int, pb as int);
    assert(x1 / ppab == x / ppab);
    // the joined value
    let jw = u % pa + pa * w;
    lemma_mod_pos_bound(u as int, pa as int);
    lemma_fundamental_div_mod_converse_div(jw as int, pa as int, w as int, (u % pa) as int);
    lemma_fundamental_div_mod_converse_mod(jw as int, pa as int, w as int, (u % pa) as int);
    lemma_mod_breakdown(jw as int, pa as int, pb as int);
    assert(jw % (pa * pb) == u % pa + pa * (w % pb));
    assert(pos + (a + b) == pos + a + b);
    let c1 = u % pa;
    let c2 = w % pb;
    assert((c1 + pa * c2) * pp == c1 * pp + c2 * ppa) by (nonlinear_arith)
        requires
            ppa == pp * pa,
    ;
}

/// One more byte adds its value above the others.
pub proof fn lemma_value_push(s: Seq<u8>, b: u8)
    ensures
        bytes_value(s.push(b)) == bytes_value(s) + b * pow2(8 * s.len()),
    decreases s.len(),
{
    lemma_pow2_small();
    if s.len() == 0 {
        assert(s.push(b).drop_first() =~= Seq::<u8>::empty());
        assert(bytes_value(s.push(b)) == b + 256 * bytes_value(Seq::<u8>::empty()));
        assert(8 * s.len() == 0);
    } else {
        assert(s.push(b).drop_first() =~= s.drop_first().push(b));
        assert(s.push(b)[0] == s[0]);
        lemma_value_push(s.drop_first(), b);
        lemma_pow2_adds(8, 8 * (s.len() - 1) as nat);
        let p = pow2(8 * (s.len() - 1) as nat);
        assert(256 * (b * p) == b * (256 * p)) by (nonlinear_arith);
        assert(8 + 8 * (s.len() - 1) == 8 * s.len());
        assert(bytes_value(s.push(b)) == s[0] + 256 * (bytes_value(s.drop_first()) + b * p));
    }
}

/// Replacing an empty field changes nothing.
pub proof fn lemma_replace_nothing(x: nat, pos: nat, v: nat)
    ensures
        replace_bits(x, pos, 0, v) == x,
{
    lemma_pow2_small();
    lemma_pow2_pos(pos);
    lemma_fundamental_div_mod(x as int, pow2(pos) as int);
    lemma_mul_is_commutative(pow2(pos) as int, (x / pow2(pos)) as int);
    assert(pos + 0 == pos);
    lemma_fundamental_div_mod_converse_mod(v as int, 1, v as int, 0);
}

/// Writing `v` into `n` bits at `pos` and reading those `n` bits back gives
/// `v` with all but its low `n` bits cleared.
pub proof fn lemma_write_then_read(old: Seq<u8>, new: Seq<u8>, pos: nat, n: nat, v: u64)
    requires
        n <= 64,
        bytes_value(new) == replace_bits(bytes_value(old), pos, n, v as nat),
    ensures
        field_value(new, pos, n) == (v & low_mask(n)) as nat,
{
    lemma_replace_keeps_above(bytes_value(old), pos, n, v as nat);
    lemma_low_mask_value(n);
    if n < 64 {
        lemma_u64_pow2_no_overflow(n);
        lemma_u64_low_bits_mask_is_mod(v, n);
    } else {
        lemma_pow2_small();
        assert(v & 0xffff_ffff_ffff_ffffu64 == v) by (bit_vector);
        lemma_small_mod(v as nat, pow2(64));
    }
}

/// After bytes `e` were written at bit `pos`, the byte-sized fields from
/// `pos` on are the bytes of `e`.
pub proof fn lemma_written_bytes(old: Seq<u8>, new: Seq<u8>, pos: nat, e: Seq<u8>, i: nat)
    requires
        i < e.len(),
        bytes_value(new) == replace_bits(bytes_value(old), pos, 8 * e.len(), bytes_value(e)),
    ensures
        field_value(new, pos + 8 * i, 8) == e[i as int],
{
    let y = bytes_value(new) / pow2(pos);
    let l = 8 * e.len();
    lemma_replace_keeps_above(bytes_value(old), pos, l, bytes_value(e));
    lemma_value_bound(e);
    lemma_small_mod(bytes_value(e), pow2(l));
    lemma_low_field(y, l, 8 * i, 8);
    lemma_pow2_pos(pos);
    lemma_pow2_pos(8 * i);
    lemma_pow2_adds(pos, 8 * i);
    lemma_div_denominator(bytes_value(new) as int, pow2(pos) as int, pow2(8 * i) as int);
    lemma_digit(e, i);
    lemma_pow2_small();
}

} // verus!
