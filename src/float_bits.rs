//! The IEEE-754 binary64 model: which bit patterns are NaN (null), and the
//! numeric order of the others.
use vstd::prelude::*;
use vstd::arithmetic::power2::{lemma_pow2_adds, lemma_pow2_strictly_increases, lemma_pow2_pos, lemma_pow2_unfold, lemma2_to64, lemma2_to64_rest, pow2};

verus! {

/// Bits of the quiet NaN that stands for "no value".
pub const NAN_BITS: u64 = 0x7ff8_0000_0000_0000;

pub const SIGN_MASK: u64 = 0x8000_0000_0000_0000;

pub const EXP_MASK: u64 = 0x7ff0_0000_0000_0000;

pub const FRAC_MASK: u64 = 0x000f_ffff_ffff_ffff;

pub const MAGNITUDE_MASK: u64 = 0x7fff_ffff_ffff_ffff;

/// A NaN: all exponent bits set and a nonzero fraction.
pub open spec fn is_nan(b: u64) -> bool {
    b & EXP_MASK == EXP_MASK && b & FRAC_MASK != 0
}

/// The numeric order of non-NaN doubles as an integer: the magnitude bits,
/// negated for a negative sign. Both zeros map to 0, and infinities to the
/// extremes, so `a < b` as doubles exactly when `order_key(a) < order_key(b)`.
pub open spec fn order_key(b: u64) -> int {
    if b & SIGN_MASK != 0 {
        -((b & MAGNITUDE_MASK) as int)
    } else {
        (b & MAGNITUDE_MASK) as int
    }
}

pub fn is_nan_bits(b: u64) -> (r: bool)
    ensures
        r == is_nan(b),
{
    b & EXP_MASK == EXP_MASK && b & FRAC_MASK != 0
}

/// Executable `order_key`; it always fits in an `i64`.
pub fn order_key_of(b: u64) -> (r: i64)
    ensures
        r as int == order_key(b),
{
    let m = b & MAGNITUDE_MASK;
    assert(m <= MAGNITUDE_MASK) by (bit_vector)
        requires
            m == b & MAGNITUDE_MASK,
    ;
    if b & SIGN_MASK != 0 {
        -(m as i64)
    } else {
        m as i64
    }
}

/// Order keys lie strictly within the `i64` range.
pub proof fn lemma_order_key_range(b: u64)
    ensures
        -0x8000_0000_0000_0000 < order_key(b) < 0x8000_0000_0000_0000,
{
    let m = b & MAGNITUDE_MASK;
    assert(m <= MAGNITUDE_MASK) by (bit_vector)
        requires
            m == b & MAGNITUDE_MASK,
    ;
}

/// The exponent `e` with `2^e <= n < 2^(e+1)`, for `n >= 1`.
pub open spec fn log2_floor(n: nat) -> nat
    decreases n,
{
    if n < 2 {
        0
    } else {
        1 + log2_floor(n / 2)
    }
}

/// Bits of the double whose value is the integer `n`, for `n < 2^53` (each
/// such integer is a double): 0 for zero; otherwise sign 0, biased exponent
/// `1023 + e` where `2^e <= n < 2^(e+1)`, and fraction `n * 2^(52 - e) - 2^52`.
pub open spec fn integer_f64_bits(n: nat) -> int {
    if n == 0 {
        0
    } else {
        let e = log2_floor(n);
        (1023 + e) * pow2(52) + n * pow2((52 - e) as nat) - pow2(52)
    }
}

proof fn lemma_halving_step(n: nat, e: nat, m: nat)
    requires
        m >= 2,
        pow2(e) * m <= n,
        n < pow2(e) * (m + 1),
    ensures
        pow2(e + 1) * (m / 2) <= n,
        n < pow2(e + 1) * (m / 2 + 1),
{
    lemma_pow2_unfold(e + 1);
    let p = pow2(e);
    assert(2 * (m / 2) <= m && m + 1 <= 2 * (m / 2 + 1));
    assert(p * (2 * (m / 2)) <= p * m) by (nonlinear_arith)
        requires
            2 * (m / 2) <= m,
    ;
    assert(p * (m + 1) <= p * (2 * (m / 2 + 1))) by (nonlinear_arith)
        requires
            m + 1 <= 2 * (m / 2 + 1),
    ;
    assert(2 * p * (m / 2) == p * (2 * (m / 2))) by (nonlinear_arith);
    assert(2 * p * (m / 2 + 1) == p * (2 * (m / 2 + 1))) by (nonlinear_arith);
}

/// The count `n` as the bits of a double: exact for every count under 2^53;
/// larger counts are rounded toward zero.
pub fn count_to_f64_bits(n: u64) -> (r: u64)
    ensures
        n < pow2(53) ==> r == integer_f64_bits(n as nat),
{
    if n == 0 {
        return 0;
    }
    proof {
        lemma2_to64();
    }
    let mut m: u64 = n;
    let mut e: u64 = 0;
    while m >= 2
        invariant
            1 <= m <= n,
            log2_floor(n as nat) == e + log2_floor(m as nat),
            pow2(e as nat) * m <= n,
            n < pow2(e as nat) * (m + 1),
            e < 64,
        decreases m,
    {
        proof {
            lemma2_to64();
            lemma_halving_step(n as nat, e as nat, m as nat);
            lemma_pow2_strictly_increases(e as nat, 64);
            if e + 1 >= 64 {
                if e + 1 > 64 {
                    lemma_pow2_strictly_increases(64, (e + 1) as nat);
                }
                assert(pow2((e + 1) as nat) * (m / 2) >= pow2((e + 1) as nat)) by (nonlinear_arith)
                    requires
                        m / 2 >= 1,
                ;
            }
        }
        m = m / 2;
        e = e + 1;
    }
    assert(m == 1);
    if e <= 52 {
        let mut scale: u64 = 1;
        let mut k: u64 = 0;
        while k < 52 - e
            invariant
                e <= 52,
                k <= 52 - e,
                scale == pow2(k as nat),
            decreases 52 - e - k,
        {
            proof {
                lemma2_to64_rest();
                lemma_pow2_unfold((k + 1) as nat);
                lemma_pow2_strictly_increases((k + 1) as nat, 53);
            }
            scale = scale * 2;
            k = k + 1;
        }
        proof {
            lemma2_to64();
            lemma2_to64_rest();
            lemma_pow2_pos((52 - e) as nat);
            lemma_pow2_adds(e as nat, (52 - e) as nat);
            lemma_pow2_unfold(53);
            let p = pow2(e as nat);
            assert(n * scale < pow2(53) && n * scale >= pow2(52)) by (nonlinear_arith)
                requires
                    p * 1 <= n,
                    n < p * 2,
                    scale > 0,
                    p * scale == pow2(52),
                    pow2(53) == 2 * pow2(52),
            ;
        }
        let frac = n * scale - 0x10_0000_0000_0000;
        (1023 + e) * 0x10_0000_0000_0000 + frac
    } else {
        let frac = (n >> (e - 52)) & FRAC_MASK;
        proof {
            lemma2_to64_rest();
            let x = n >> (e - 52);
            assert(x & FRAC_MASK <= FRAC_MASK) by (bit_vector);
            lemma_pow2_strictly_increases(52, e as nat);
            assert(n >= pow2(53)) by {
                if e > 53 {
                    lemma_pow2_strictly_increases(53, e as nat);
                }
            }
        }
        (1023 + e) * 0x10_0000_0000_0000 + frac
    }
}

} // verus!
