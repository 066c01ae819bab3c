//! Operations on IEEE-754 double-precision values, carried as their
//! 64-bit patterns.
//!
//! A number value stores the raw bits of a double: sign (bit 63), biased
//! exponent (bits 52..=62) and fraction (bits 0..=51).  Everything the
//! runtime needs of a number — the ECMAScript integer conversions,
//! equality, ordering — is integer arithmetic on those fields, so it can
//! be implemented and specified exactly without floating-point types.

use vstd::prelude::*;
use vstd::arithmetic::power2::pow2;

verus! {

/// Bits of a positive zero.
pub const POS_ZERO_BITS: u64 = 0;
/// Bits of a negative zero.
pub const NEG_ZERO_BITS: u64 = 0x8000_0000_0000_0000;
/// Bits of the canonical NaN.
pub const NAN_BITS: u64 = 0x7FF8_0000_0000_0000;
/// Bits of positive infinity.
pub const POS_INF_BITS: u64 = 0x7FF0_0000_0000_0000;
/// Bits of negative infinity.
pub const NEG_INF_BITS: u64 = 0xFFF0_0000_0000_0000;

/// The sign bit: 1 for negative patterns.
pub open spec fn sign_of(bits: u64) -> u64 {
    bits >> 63
}

/// The 11-bit biased exponent.
pub open spec fn exp_of(bits: u64) -> u64 {
    (bits >> 52) & 0x7FF
}

/// The 52-bit fraction.
pub open spec fn frac_of(bits: u64) -> u64 {
    bits & 0xF_FFFF_FFFF_FFFF
}

/// NaN: exponent all ones, fraction non-zero.
pub open spec fn spec_is_nan(bits: u64) -> bool {
    exp_of(bits) == 0x7FF && frac_of(bits) != 0
}

/// An infinity of either sign.
pub open spec fn spec_is_infinity(bits: u64) -> bool {
    exp_of(bits) == 0x7FF && frac_of(bits) == 0
}

/// A zero of either sign.
pub open spec fn spec_is_zero(bits: u64) -> bool {
    exp_of(bits) == 0 && frac_of(bits) == 0
}

/// The integer part of the double's absolute value, as a mathematical
/// natural.  NaN and the infinities are taken as 0, the convention the
/// `ToUint32` and `ToInt32` conversions use.
pub open spec fn abs_int_part(bits: u64) -> nat {
    let e = exp_of(bits);
    let m = frac_of(bits);
    if e == 0x7FF {
        0
    } else if e < 1023 {
        0
    } else {
        let significand = (0x10_0000_0000_0000 + m) as nat;
        if e - 1023 >= 52 {
            significand * pow2((e - 1023 - 52) as nat)
        } else {
            significand / pow2((52 - (e - 1023)) as nat)
        }
    }
}

/// The value `ToUint32` yields for this pattern.
pub open spec fn spec_to_uint32(bits: u64) -> u32 {
    let t = abs_int_part(bits) % 0x1_0000_0000;
    if sign_of(bits) == 1 && t != 0 {
        (0x1_0000_0000 - t) as u32
    } else {
        t as u32
    }
}

/// True of patterns whose double is a mathematical integer (NaN and the
/// infinities excluded).
pub open spec fn spec_is_integral(bits: u64) -> bool {
    let e = exp_of(bits);
    let m = frac_of(bits);
    if e == 0x7FF {
        false
    } else if spec_is_zero(bits) {
        true
    } else if e < 1023 {
        false
    } else if e - 1023 >= 52 {
        true
    } else {
        // all fraction bits below the binary point must be clear
        m as nat % pow2((52 - (e - 1023)) as nat) == 0
    }
}

pub fn is_nan(bits: u64) -> (r: bool)
    ensures
        r == spec_is_nan(bits),
{
    ((bits >> 52) & 0x7FF) == 0x7FF && (bits & 0xF_FFFF_FFFF_FFFF) != 0
}

pub fn is_infinity(bits: u64) -> (r: bool)
    ensures
        r == spec_is_infinity(bits),
{
    ((bits >> 52) & 0x7FF) == 0x7FF && (bits & 0xF_FFFF_FFFF_FFFF) == 0
}

pub fn is_zero(bits: u64) -> (r: bool)
    ensures
        r == spec_is_zero(bits),
{
    ((bits >> 52) & 0x7FF) == 0 && (bits & 0xF_FFFF_FFFF_FFFF) == 0
}

/// The ECMAScript `ToUint32` of a double: truncate toward zero, then
/// reduce modulo `2^32` (NaN and the infinities yield 0).
pub fn to_uint32_bits(bits: u64) -> (r: u32)
    ensures
        r == spec_to_uint32(bits),
{
    let e = (bits >> 52) & 0x7FF;
    let m = bits & 0xF_FFFF_FFFF_FFFF;
    let sign = bits >> 63;
    assert(e <= 0x7FF && m <= 0xF_FFFF_FFFF_FFFF) by (bit_vector)
        requires
            e == (bits >> 52) & 0x7FF,
            m == bits & 0xF_FFFF_FFFF_FFFF,
    ;
    let t: u32 = if e == 0x7FF {
        assert(abs_int_part(bits) == 0);
        0
    } else if e < 1023 {
        assert(abs_int_part(bits) == 0);
        0
    } else {
        let significand = 0x10_0000_0000_0000u64 + m;
        if e - 1023 >= 84 {
            // the integer part is a multiple of 2^32
            assert((abs_int_part(bits) % 0x1_0000_0000) == 0) by {
                lemma_high_shift_mod32(e, m);
            }
            0
        } else if e - 1023 >= 52 {
            let k = (e - 1023 - 52) as u32;
            let low = (significand as u32) << k;
            proof {
                lemma_mid_shift_mod32(e, m);
            }
            low
        } else {
            let k = (52 - (e - 1023)) as u32;
            let v = significand >> (k as u64);
            proof {
                lemma_low_shift_mod32(e, m);
            }
            v as u32
        }
    };
    if sign == 1 && t != 0 {
        (0x1_0000_0000u64 - t as u64) as u32
    } else {
        t
    }
}

/// For exponents at least 84 the integer part is a multiple of `2^32`.
proof fn lemma_high_shift_mod32(e: u64, m: u64)
    requires
        e < 0x7FF,
        1023 + 84 <= e,
        m <= 0xF_FFFF_FFFF_FFFF,
    ensures
        ((0x10_0000_0000_0000 + m) as nat * pow2((e - 1023 - 52) as nat)) % 0x1_0000_0000 == 0,
{
    let s = (0x10_0000_0000_0000 + m) as nat;
    let k = (e - 1023 - 52) as nat;
    vstd::arithmetic::power2::lemma_pow2_adds(32, (k - 32) as nat);
    vstd::arithmetic::power2::lemma2_to64();
    assert(pow2(k) == pow2(32) * pow2((k - 32) as nat));
    let rest = s * pow2((k - 32) as nat);
    assert(s * pow2(k) == rest * 0x1_0000_0000) by (nonlinear_arith)
        requires
            pow2(k) == pow2(32) * pow2((k - 32) as nat),
            pow2(32) == 0x1_0000_0000,
            rest == s * pow2((k - 32) as nat),
    ;
    vstd::arithmetic::div_mod::lemma_mod_multiples_basic(rest as int, 0x1_0000_0000);
}

/// For exponents in `52..84` the low 32 bits of the integer part are the
/// truncated left shift of the significand.
proof fn lemma_mid_shift_mod32(e: u64, m: u64)
    requires
        e < 0x7FF,
        1023 + 52 <= e < 1023 + 84,
        m <= 0xF_FFFF_FFFF_FFFF,
    ensures
        ((0x10_0000_0000_0000 + m) as nat * pow2((e - 1023 - 52) as nat)) % 0x1_0000_0000
            == (((0x10_0000_0000_0000 + m) as u32) << ((e - 1023 - 52) as u32)) as nat,
{
    let s: u64 = (0x10_0000_0000_0000 + m) as u64;
    let k: u64 = (e - 1023 - 52) as u64;
    lemma_pow2_mul_is_shift_mod(s, k as u32);
    assert((0x10_0000_0000_0000 + m) as u32 == s as u32);
}

/// `(s * 2^k) % 2^32 == (s as u32 << k) as nat` for `k < 32`.
proof fn lemma_pow2_mul_is_shift_mod(s: u64, k: u32)
    requires
        k < 32,
    ensures
        (s as nat * pow2(k as nat)) % 0x1_0000_0000 == ((s as u32) << k) as nat,
    decreases k,
{
    if k == 0 {
        vstd::arithmetic::power2::lemma2_to64();
        assert(((s as u32) << 0u32) as u64 == s % 0x1_0000_0000) by (bit_vector);
        assert(s as nat * pow2(0) == s as nat);
    } else {
        lemma_pow2_mul_is_shift_mod(s, (k - 1) as u32);
        vstd::arithmetic::power2::lemma_pow2_unfold(k as nat);
        let prev: u32 = (s as u32) << ((k - 1) as u32);
        let prod: u64 = ((prev as u64) * 2) as u64;
        assert(((s as u32) << k) as u64 == prod % 0x1_0000_0000) by (bit_vector)
            requires
                prev == (s as u32) << ((k - 1) as u32),
                prod == (prev as u64) * 2,
                0 < k < 32,
        ;
        let p = pow2((k - 1) as nat);
        assert(s as nat * (2 * p) == (s as nat * p) * 2) by (nonlinear_arith);
        vstd::arithmetic::div_mod::lemma_mul_mod_noop_general(
            (s as nat * p) as int, 2, 0x1_0000_0000);
        assert((s as nat * p) % 0x1_0000_0000 == prev as nat);
    }
}

/// For exponents below 52 the integer part is the right shift of the
/// significand, which already fits 53 bits.
proof fn lemma_low_shift_mod32(e: u64, m: u64)
    requires
        1023 <= e < 1023 + 52,
        m <= 0xF_FFFF_FFFF_FFFF,
    ensures
        ((0x10_0000_0000_0000 + m) as nat / pow2((52 - (e - 1023)) as nat)) % 0x1_0000_0000
            == ((((0x10_0000_0000_0000 + m) as u64) >> ((52 - (e - 1023)) as u64)) as u32) as nat,
{
    let s: u64 = (0x10_0000_0000_0000 + m) as u64;
    let k: u64 = (52 - (e - 1023)) as u64;
    vstd::bits::lemma_u64_shr_is_div(s, k);
    let shifted = s >> k;
    assert(shifted < 0x20_0000_0000_0000) by (bit_vector)
        requires
            shifted == s >> k,
            s < 0x20_0000_0000_0000,
            k <= 52,
    ;
    assert((shifted as u32) as nat == shifted as nat % 0x1_0000_0000) by (bit_vector);
}

/// Encodes a `u32` as the bits of the exactly equal double.
///
/// The IEEE-754 representation of an integer is unique, so the four
/// clauses pin the result: non-negative, not NaN, integral, and with
/// integer part exactly `n`.
pub fn from_u32_bits(n: u32) -> (r: u64)
    ensures
        sign_of(r) == 0,
        !spec_is_nan(r),
        abs_int_part(r) == n,
        spec_is_integral(r),
{
    if n == 0 {
        assert(exp_of(0) == 0 && frac_of(0) == 0) by (bit_vector);
        assert(sign_of(0) == 0) by (bit_vector);
        return 0;
    }
    // find the position of the highest set bit
    assert((n as u64) >> 32u64 == 0) by (bit_vector);
    let mut p: u32 = 31;
    while (n >> p) & 1 == 0
        invariant
            p < 32,
            n != 0,
            (n as u64) >> (p as u64 + 1) == 0,
        decreases p,
    {
        assert(p != 0 && ((n as u64) >> (p as u64)) == 0) by (bit_vector)
            requires
                n != 0,
                p < 32,
                (n >> p) & 1 == 0,
                (n as u64) >> (p as u64 + 1) == 0,
        ;
        p -= 1;
    }
    assert(n >> p == 1) by (bit_vector)
        requires
            p < 32,
            (n >> p) & 1 != 0,
            (n as u64) >> (p as u64 + 1) == 0,
    ;
    let e: u64 = 1023 + p as u64;
    let shifted: u64 = (n as u64) << ((52 - p) as u64);
    let r: u64 = (e << 52) | (shifted & 0xF_FFFF_FFFF_FFFF);
    proof {
        lemma_from_u32_fields(n, p, r);
        lemma_from_u32_shifted(n, p, shifted);
        lemma_from_u32_value(n, p, r);
    }
    r
}

/// The field split of the encoding: sign 0, exponent `1023 + p`,
/// fraction = the shifted value without its leading bit.
#[verifier::rlimit(60)]
proof fn lemma_from_u32_fields(n: u32, p: u32, r: u64)
    by (bit_vector)
    requires
        n != 0,
        p < 32,
        n >> p == 1,
        r == (((1023 + p as u64) as u64) << 52u64) | ((((n as u64) << ((52 - p) as u64))) & 0xF_FFFF_FFFF_FFFF),
    ensures
        r >> 63 == 0,
        (r >> 52) & 0x7FF == 1023 + p as u64,
        r & 0xF_FFFF_FFFF_FFFF == ((n as u64) << ((52 - p) as u64)) & 0xF_FFFF_FFFF_FFFF,
        (1023 + p as u64) < 0x7FF,
{
}

/// Properties of the shifted significand: its top bit is bit 52, the
/// shift is undone by the matching right shift, and the low bits below
/// the binary point are clear.
#[verifier::rlimit(60)]
proof fn lemma_from_u32_shifted(n: u32, p: u32, sh: u64)
    by (bit_vector)
    requires
        n != 0,
        p < 32,
        n >> p == 1,
        sh == (n as u64) << ((52 - p) as u64),
    ensures
        (0x10_0000_0000_0000 + (sh & 0xF_FFFF_FFFF_FFFF)) as u64 == sh,
        sh >> ((52 - p) as u64) == n as u64,
        sh & (((1u64 << ((52 - p) as u64)) - 1) as u64) == 0,
        (sh & 0xF_FFFF_FFFF_FFFF) & (((1u64 << ((52 - p) as u64)) - 1) as u64) == 0,
{
}

/// Ties the encoded fields to `abs_int_part`: decoding gives back `n`.
proof fn lemma_from_u32_value(n: u32, p: u32, r: u64)
    requires
        n != 0,
        p < 32,
        n >> p == 1,
        r >> 63 == 0,
        (r >> 52) & 0x7FF == 1023 + p as u64,
        r & 0xF_FFFF_FFFF_FFFF == ((n as u64) << ((52 - p) as u64)) & 0xF_FFFF_FFFF_FFFF,
    ensures
        abs_int_part(r) == n,
        spec_is_integral(r),
        !spec_is_nan(r),
{
    let k: u64 = (52 - p) as u64;
    let s: u64 = ((n as u64) << k) as u64;
    let m: u64 = frac_of(r);
    lemma_from_u32_shifted(n, p, s);
    vstd::bits::lemma_u64_shr_is_div(s, k);
    vstd::bits::lemma_u64_pow2_no_overflow(k as nat);
    vstd::bits::lemma_u64_shl_is_mul(1u64, k);
    assert(pow2(k as nat) == 1u64 << k);
    assert(m <= 0xF_FFFF_FFFF_FFFF) by (bit_vector)
        requires
            m == r & 0xF_FFFF_FFFF_FFFF,
    ;
    assert((0x10_0000_0000_0000 + m) as nat == s as nat);
    assert(abs_int_part(r) == s as nat / pow2(k as nat));
    assert(s as nat / pow2(k as nat) == (s >> k) as nat);
    // fraction bits below the binary point are clear
    assert(vstd::bits::low_bits_mask(k as nat) == ((1u64 << k) - 1) as nat);
    vstd::bits::lemma_u64_low_bits_mask_is_mod(m, k as nat);
    assert(m % (pow2(k as nat) as u64) == 0);
}

/// Converting a number to a uint32 and embedding the result as a double
/// is idempotent: converting that double again gives the same uint32.
/// `r` here is any encoding of `spec_to_uint32(x)` as a non-negative
/// double, which is what `from_u32_bits` returns.
pub proof fn lemma_to_uint32_round_trip(x: u64, r: u64)
    requires
        sign_of(r) == 0,
        !spec_is_nan(r),
        abs_int_part(r) == spec_to_uint32(x),
    ensures
        spec_to_uint32(r) == spec_to_uint32(x),
{
    vstd::arithmetic::div_mod::lemma_small_mod(abs_int_part(r), 0x1_0000_0000);
}

/// SameValue on numbers: every NaN equals every NaN; the two zeros
/// differ; otherwise the patterns decide.
pub open spec fn spec_same_value_number(a: u64, b: u64) -> bool {
    if spec_is_nan(a) && spec_is_nan(b) {
        true
    } else {
        a == b
    }
}

pub fn same_value_number(a: u64, b: u64) -> (r: bool)
    ensures
        r == spec_same_value_number(a, b),
{
    if is_nan(a) && is_nan(b) {
        true
    } else {
        a == b
    }
}

/// Strict equality on numbers: NaN equals nothing, the two zeros are
/// equal, otherwise equal doubles have equal patterns.
pub open spec fn spec_strict_eq_number(a: u64, b: u64) -> bool {
    if spec_is_nan(a) || spec_is_nan(b) {
        false
    } else if spec_is_zero(a) && spec_is_zero(b) {
        true
    } else {
        a == b
    }
}

pub fn strict_eq_number(a: u64, b: u64) -> (r: bool)
    ensures
        r == spec_strict_eq_number(a, b),
{
    if is_nan(a) || is_nan(b) {
        false
    } else if is_zero(a) && is_zero(b) {
        true
    } else {
        a == b
    }
}

/// The order key of a non-NaN double: magnitude bits, negated for
/// negative sign.  The key is monotone in the double's numeric value, so
/// `key(a) < key(b)` states `a < b` exactly.
pub open spec fn spec_order_key(bits: u64) -> int {
    let magnitude = (bits & 0x7FFF_FFFF_FFFF_FFFF) as int;
    if sign_of(bits) == 1 {
        -magnitude
    } else {
        magnitude
    }
}

/// The numeric `<` of two doubles; false whenever either is NaN.
pub open spec fn spec_num_lt(a: u64, b: u64) -> bool {
    !spec_is_nan(a) && !spec_is_nan(b) && spec_order_key(a) < spec_order_key(b)
}

pub fn num_lt(a: u64, b: u64) -> (r: bool)
    ensures
        r == spec_num_lt(a, b),
{
    if is_nan(a) || is_nan(b) {
        return false;
    }
    let mag_a = a & 0x7FFF_FFFF_FFFF_FFFF;
    let mag_b = b & 0x7FFF_FFFF_FFFF_FFFF;
    let neg_a = (a >> 63) == 1;
    let neg_b = (b >> 63) == 1;
    if neg_a {
        if neg_b {
            mag_b < mag_a
        } else {
            mag_a != 0 || mag_b != 0
        }
    } else {
        if neg_b {
            false
        } else {
            mag_a < mag_b
        }
    }
}

} // verus!
