//! The packed stream as a number: bit ranges of a natural number, and the
//! little-endian bytes that hold it.

use vstd::arithmetic::div_mod::{
    lemma_div_denominator, lemma_fundamental_div_mod, lemma_fundamental_div_mod_converse,
    lemma_hoist_over_denominator, lemma_mod_multiples_vanish, lemma_small_mod,
};
use vstd::arithmetic::power2::{lemma2_to64, lemma_pow2_adds, lemma_pow2_pos, pow2};
use vstd::bits::{
    lemma_u64_low_bits_mask_is_mod, lemma_u64_shl_is_mul, lemma_u64_shr_is_div, low_bits_mask,
};
use vstd::prelude::*;

verus! {

/// The `w` bits of `n` that start at bit `off`, as a number.
pub open spec fn bit_field(n: nat, off: nat, w: nat) -> nat {
    (n / pow2(off)) % pow2(w)
}

/// The number that a string of bytes holds, the first byte being the least
/// significant.
pub open spec fn le_value(bytes: Seq<u8>) -> nat
    decreases bytes.len(),
{
    if bytes.len() == 0 {
        0
    } else {
        le_value(bytes.drop_last()) + bytes.last() as nat * pow2((8 * (bytes.len() - 1)) as nat)
    }
}

/// The first `count` bytes of `n`, the least significant first.
pub open spec fn le_bytes(n: nat, count: nat) -> Seq<u8> {
    Seq::new(count, |j: int| bit_field(n, (8 * j) as nat, 8) as u8)
}

/// Bits of `n` below bit `k` are not changed by adding a multiple of `2^k`.
pub proof fn lemma_bit_field_below(n: nat, e: nat, k: nat, off: nat, w: nat)
    requires
        off + w <= k,
    ensures
        bit_field(n + e * pow2(k), off, w) == bit_field(n, off, w),
{
    let d = pow2(off);
    let m = pow2(w);
    let r = pow2((k - off - w) as nat);
    lemma_pow2_pos(off);
    lemma_pow2_pos(w);
    lemma_pow2_adds(w, (k - off - w) as nat);
    lemma_pow2_adds(off, (k - off) as nat);
    assert(pow2(k) == d * (m * r));
    assert(e * (d * (m * r)) == (e * r * m) * d) by (nonlinear_arith);
    lemma_hoist_over_denominator(n as int, (e * r * m) as int, d);
    assert((n + e * pow2(k)) / d == n / d + e * r * m);
    assert(e * r * m == m * (e * r)) by (nonlinear_arith);
    lemma_mod_multiples_vanish((e * r) as int, (n / d) as int, m as int);
}

/// A number that fits in `w` bits and is placed at bit `off`, above a number
/// that fits below it, is read back unchanged.
pub proof fn lemma_bit_field_placed(low: nat, s: nat, off: nat, w: nat)
    requires
        low < pow2(off),
        s < pow2(w),
    ensures
        bit_field(low + s * pow2(off), off, w) == s,
{
    lemma_pow2_pos(off);
    lemma_fundamental_div_mod_converse(
        (low + s * pow2(off)) as int,
        pow2(off) as int,
        s as int,
        low as int,
    );
    lemma_small_mod(s, pow2(w));
}

/// A number that fits in `a` bits, with a number that fits in `b` bits
/// placed above it, fits in `a + b` bits.
pub proof fn lemma_placed_bound(low: nat, s: nat, a: nat, b: nat)
    requires
        low < pow2(a),
        s < pow2(b),
    ensures
        low + s * pow2(a) < pow2(a + b),
{
    lemma_pow2_adds(a, b);
    let p = pow2(a);
    let q = pow2(b);
    assert(low + s * p < p * q) by (nonlinear_arith)
        requires
            low < p,
            s < q,
    ;
}

/// Dropping `a` bits and then `b` bits drops `a + b` bits.
pub proof fn lemma_shift_twice(n: nat, a: nat, b: nat)
    ensures
        n / pow2(a) / pow2(b) == n / pow2(a + b),
{
    lemma_pow2_pos(a);
    lemma_pow2_pos(b);
    lemma_pow2_adds(a, b);
    lemma_div_denominator(n as int, pow2(a) as int, pow2(b) as int);
}

/// A number below `2^(a + b)`, with `a` bits dropped, is below `2^b`.
pub proof fn lemma_shift_bound(n: nat, a: nat, b: nat)
    requires
        n < pow2(a + b),
    ensures
        n / pow2(a) < pow2(b),
{
    lemma_pow2_pos(a);
    lemma_pow2_adds(a, b);
    lemma_fundamental_div_mod(n as int, pow2(a) as int);
    let p = pow2(a);
    let q = pow2(b);
    let x = n / p;
    let y = n % p;
    assert(x < q) by (nonlinear_arith)
        requires
            p * x + y < p * q,
            0 <= y,
            0 < p,
    ;
}

/// Appending a byte adds it at the next byte position.
pub proof fn lemma_le_value_push(bytes: Seq<u8>, b: u8)
    ensures
        le_value(bytes.push(b)) == le_value(bytes) + b as nat * pow2((8 * bytes.len()) as nat),
{
    assert(bytes.push(b).drop_last() == bytes);
}

/// A string of bytes holds a number below `2^(8 * len)`.
pub proof fn lemma_le_value_bound(bytes: Seq<u8>)
    ensures
        le_value(bytes) < pow2((8 * bytes.len()) as nat),
    decreases bytes.len(),
{
    if bytes.len() == 0 {
        lemma2_to64();
    } else {
        let rest = bytes.drop_last();
        lemma_le_value_bound(rest);
        lemma2_to64();
        lemma_placed_bound(le_value(rest), bytes.last() as nat, (8 * rest.len()) as nat, 8);
    }
}

/// The number held by two strings joined: the second is placed above the
/// first.
pub proof fn lemma_le_value_concat(a: Seq<u8>, b: Seq<u8>)
    ensures
        le_value(a + b) == le_value(a) + le_value(b) * pow2((8 * a.len()) as nat),
    decreases b.len(),
{
    if b.len() == 0 {
        assert(a + b == a);
        assert(le_value(b) * pow2((8 * a.len()) as nat) == 0) by (nonlinear_arith)
            requires
                le_value(b) == 0,
        ;
    } else {
        let rest = b.drop_last();
        assert((a + b).drop_last() == a + rest);
        assert((a + b).last() == b.last());
        lemma_le_value_concat(a, rest);
        lemma_pow2_adds((8 * a.len()) as nat, (8 * rest.len()) as nat);
        let x = b.last() as nat;
        let p = pow2((8 * a.len()) as nat);
        let q = pow2((8 * rest.len()) as nat);
        assert((8 * ((a + b).len() - 1)) as nat == (8 * a.len()) as nat + (8 * rest.len()) as nat);
        assert(le_value(a + b) == le_value(a + rest) + x * (p * q));
        assert(le_value(b) == le_value(rest) + x * q);
        assert((le_value(rest) + x * q) * p == le_value(rest) * p + x * (p * q))
            by (nonlinear_arith);
    }
}

/// Each byte of a string is the matching eight bits of the number it holds.
pub proof fn lemma_le_value_byte(bytes: Seq<u8>, j: int)
    requires
        0 <= j < bytes.len(),
    ensures
        bit_field(le_value(bytes), (8 * j) as nat, 8) == bytes[j],
{
    let low = bytes.take(j);
    let high = bytes.skip(j + 1);
    let mid = seq![bytes[j]];
    assert(bytes == (low + mid) + high);
    lemma_le_value_concat(low + mid, high);
    lemma_le_value_push(low, bytes[j]);
    assert(low + mid == low.push(bytes[j]));
    lemma_le_value_bound(low);
    lemma2_to64();
    lemma_bit_field_below(
        le_value(low + mid),
        le_value(high),
        (8 * (j + 1)) as nat,
        (8 * j) as nat,
        8,
    );
    lemma_bit_field_placed(le_value(low), bytes[j] as nat, (8 * j) as nat, 8);
}

/// A string of bytes is the only one of its length that holds its number.
pub proof fn lemma_le_bytes_of_value(bytes: Seq<u8>)
    ensures
        le_bytes(le_value(bytes), bytes.len()) == bytes,
{
    assert forall|j: int| 0 <= j < bytes.len() implies le_bytes(le_value(bytes), bytes.len())[j]
        == bytes[j] by {
        lemma_le_value_byte(bytes, j);
    }
}

/// The bytes of a number that fits in them hold that number.
pub proof fn lemma_le_value_of_bytes(n: nat, count: nat)
    requires
        n < pow2(8 * count),
    ensures
        le_value(le_bytes(n, count)) == n,
    decreases count,
{
    if count > 0 {
        let k = (8 * (count - 1)) as nat;
        let p = pow2(k);
        let low = n % p;
        let high = n / p;
        lemma_pow2_pos(k);
        lemma2_to64();
        lemma_fundamental_div_mod(n as int, p as int);
        assert(low < p) by {
            vstd::arithmetic::div_mod::lemma_mod_bound(n as int, p as int);
        }
        assert(8 * count == k + 8);
        lemma_shift_bound(n, k, 8);
        let init = le_bytes(n, count).drop_last();
        let lower = le_bytes(low, (count - 1) as nat);
        assert(n == low + high * p) by (nonlinear_arith)
            requires
                n == p * high + low,
        ;
        assert forall|j: int| 0 <= j < init.len() implies init[j] == lower[j] by {
            lemma_bit_field_below(low, high, k, (8 * j) as nat, 8);
        }
        assert(init == lower);
        lemma_le_value_of_bytes(low, (count - 1) as nat);
        assert(bit_field(n, k, 8) == high) by {
            lemma_small_mod(high, pow2(8));
        }
        assert(le_bytes(n, count).last() == high);
        assert(le_value(le_bytes(n, count)) == le_value(init) + high * p);
    } else {
        lemma2_to64();
    }
}

/// Dropping `off` bits from a sum whose second part starts at bit `off + p`
/// leaves that part starting at bit `p`.
pub proof fn lemma_shift_of_sum(x: nat, e: nat, off: nat, p: nat)
    ensures
        (x + e * pow2(off + p)) / pow2(off) == x / pow2(off) + e * pow2(p),
{
    lemma_pow2_pos(off);
    lemma_pow2_adds(off, p);
    let d = pow2(off);
    let q = pow2(p);
    assert(e * (d * q) == (e * q) * d) by (nonlinear_arith);
    lemma_hoist_over_denominator(x as int, (e * q) as int, d);
}

/// Bits that lie within the first `count` bytes of a string can be read from
/// those bytes alone.
pub proof fn lemma_bit_field_prefix(bytes: Seq<u8>, count: int, off: nat, w: nat)
    requires
        0 <= count <= bytes.len(),
        off + w <= 8 * count,
    ensures
        bit_field(le_value(bytes.take(count)), off, w) == bit_field(le_value(bytes), off, w),
{
    assert(bytes == bytes.take(count) + bytes.skip(count));
    lemma_le_value_concat(bytes.take(count), bytes.skip(count));
    lemma_bit_field_below(
        le_value(bytes.take(count)),
        le_value(bytes.skip(count)),
        (8 * count) as nat,
        off,
        w,
    );
}

/// In a 64-bit register, `1 << w` is `2^w`.
pub proof fn lemma_one_shifted(w: u64)
    requires
        w < 64,
    ensures
        1u64 << w == pow2(w as nat),
        0 < pow2(w as nat) <= u64::MAX,
{
    vstd::bits::lemma_u64_pow2_no_overflow(w as nat);
    lemma_u64_shl_is_mul(1, w);
}

/// Placing `x` above the `p` bits that a register holds: the bits do not
/// overlap, so the union is the sum.
pub proof fn lemma_register_merge(acc: u64, x: u64, p: u64, w: u64)
    requires
        p + w < 64,
        acc < pow2(p as nat),
        x < pow2(w as nat),
    ensures
        acc | (x << p) == acc + x * pow2(p as nat),
        acc + x * pow2(p as nat) < pow2((p + w) as nat),
        pow2((p + w) as nat) <= u64::MAX,
{
    lemma_placed_bound(acc as nat, x as nat, p as nat, w as nat);
    lemma_one_shifted(p);
    lemma_one_shifted((p + w) as u64);
    lemma_u64_shl_is_mul(x, p);
    let t = x << p;
    assert(acc | t == acc + t) by (bit_vector)
        requires
            p < 64,
            acc < (1u64 << p),
            t == x << p,
    ;
}

/// The low `w` bits of a register, and what is left when they are dropped.
pub proof fn lemma_register_split(acc: u64, w: u64)
    requires
        w < 64,
    ensures
        1u64 << w == pow2(w as nat),
        acc & (((1u64 << w) - 1) as u64) == acc as nat % pow2(w as nat),
        acc >> w == acc as nat / pow2(w as nat),
{
    lemma_one_shifted(w);
    lemma_u64_shr_is_div(acc, w);
    assert(((1u64 << w) - 1) as u64 == low_bits_mask(w as nat) as u64);
    lemma_u64_low_bits_mask_is_mod(acc, w as nat);
}

} // verus!
