//! Doubles in their IEEE 754 representation, compared with integers.

use vstd::arithmetic::power2::{
    lemma2_to64, lemma_pow2_adds, lemma_pow2_strictly_increases, lemma_pow2_unfold, pow2,
};
use vstd::prelude::*;

verus! {

/// The parts of a double: its sign bit, its exponent field and its fraction
/// field.
pub open spec fn is_negative(bits: u64) -> bool {
    bits / 0x8000_0000_0000_0000 == 1
}

pub open spec fn exponent_field(bits: u64) -> int {
    ((bits / 0x10_0000_0000_0000) % 2048) as int
}

pub open spec fn fraction_field(bits: u64) -> int {
    (bits % 0x10_0000_0000_0000) as int
}

/// Where the exponent field is not 2047, the value of a double is
/// `significand(bits) * 2^power(bits)`.
pub open spec fn significand(bits: u64) -> int {
    let magnitude = if exponent_field(bits) == 0 {
        fraction_field(bits)
    } else {
        0x10_0000_0000_0000 + fraction_field(bits)
    };
    if is_negative(bits) {
        -magnitude
    } else {
        magnitude
    }
}

pub open spec fn power(bits: u64) -> int {
    if exponent_field(bits) == 0 {
        -1074
    } else {
        exponent_field(bits) - 1075
    }
}

/// Whether a double is at most the integer `n`. Of the infinities only the
/// negative one is, and of what is not a number nothing is.
pub open spec fn at_most(bits: u64, n: int) -> bool {
    if exponent_field(bits) == 2047 {
        is_negative(bits) && fraction_field(bits) == 0
    } else if power(bits) >= 0 {
        significand(bits) * pow2(power(bits) as nat) <= n
    } else {
        significand(bits) <= n * pow2((-power(bits)) as nat)
    }
}

/// Two to the power of `k`.
fn two_to(k: u32) -> (p: i128)
    requires
        k <= 60,
    ensures
        p == pow2(k as nat),
        1 <= p <= 0x1000_0000_0000_0000,
{
    let mut p: i128 = 1;
    let mut i: u32 = 0;
    proof {
        lemma2_to64();
    }
    while i < k
        invariant
            i <= k <= 60,
            p == pow2(i as nat),
            p >= 1,
        decreases k - i,
    {
        proof {
            lemma_pow2_unfold((i + 1) as nat);
            lemma2_to64();
            if i < 59 {
                lemma_pow2_strictly_increases(i as nat, 59);
            }
            assert(pow2(59) == 0x800_0000_0000_0000) by {
                lemma_pow2_adds(32, 27);
                assert(pow2(32) == 0x1_0000_0000);
                assert(pow2(27) == 0x800_0000);
                assert(0x1_0000_0000 * 0x800_0000 == 0x800_0000_0000_0000) by (nonlinear_arith);
            }
        }
        p = p * 2;
        i = i + 1;
    }
    proof {
        if k < 60 {
            lemma_pow2_strictly_increases(k as nat, 60);
        }
        assert(pow2(60) == 0x1000_0000_0000_0000) by {
            lemma_pow2_adds(32, 28);
            lemma2_to64();
            assert(0x1_0000_0000 * 0x1000_0000 == 0x1000_0000_0000_0000) by (nonlinear_arith);
        }
    }
    p
}

/// Whether a double, given by its bits, is at most the integer `n`.
pub fn double_at_most(bits: u64, n: i64) -> (yes: bool)
    ensures
        yes == at_most(bits, n as int),
{
    let negative: bool = bits / 0x8000_0000_0000_0000 == 1;
    let exponent: u64 = (bits / 0x10_0000_0000_0000) % 2048;
    let fraction: u64 = bits % 0x10_0000_0000_0000;
    if exponent == 2047 {
        return negative && fraction == 0;
    }
    let magnitude: u64 = if exponent == 0 {
        fraction
    } else {
        0x10_0000_0000_0000 + fraction
    };
    let signed: i128 = if negative {
        -(magnitude as i128)
    } else {
        magnitude as i128
    };
    let wide: i128 = n as i128;
    assert(signed == significand(bits));
    if exponent >= 1075 {
        let k: u64 = exponent - 1075;
        if k <= 11 {
            let p: i128 = two_to(k as u32);
            assert(-0x40_0000_0000_0000_0000_0000_0000_0000 <= signed * p
                <= 0x40_0000_0000_0000_0000_0000_0000_0000) by (nonlinear_arith)
                requires
                    -0x20_0000_0000_0000 <= signed <= 0x20_0000_0000_0000,
                    1 <= p <= 0x1000_0000_0000_0000,
            ;
            signed * p <= wide
        } else {
            proof {
                lemma_large(signed as int, k as nat, n as int);
            }
            negative
        }
    } else {
        let k: u64 = if exponent == 0 {
            1074
        } else {
            1075 - exponent
        };
        assert(-power(bits) == k);
        if k <= 53 {
            let p: i128 = two_to(k as u32);
            assert(-0x800_0000_0000_0000_0000_0000_0000_0000 <= wide * p
                <= 0x800_0000_0000_0000_0000_0000_0000_0000) by (nonlinear_arith)
                requires
                    -0x8000_0000_0000_0000 <= wide <= 0x8000_0000_0000_0000,
                    1 <= p <= 0x1000_0000_0000_0000,
            ;
            signed <= wide * p
        } else {
            proof {
                lemma_small(signed as int, k as nat, n as int);
            }
            if n == 0 {
                signed <= 0
            } else {
                n > 0
            }
        }
    }
}

/// A double of at least 2^64 is beyond every `i64`.
proof fn lemma_large(signed: int, k: nat, n: int)
    requires
        k >= 12,
        0x10_0000_0000_0000 <= signed || signed <= -0x10_0000_0000_0000,
        i64::MIN <= n <= i64::MAX,
    ensures
        signed * pow2(k) <= n <==> signed < 0,
{
    lemma2_to64();
    if k > 12 {
        lemma_pow2_strictly_increases(12, k);
    }
    let p = pow2(k) as int;
    assert(p >= 4096);
    if signed > 0 {
        assert(signed * p >= 0x1_0000_0000_0000_0000) by (nonlinear_arith)
            requires
                signed >= 0x10_0000_0000_0000,
                p >= 4096,
        ;
    } else {
        assert(signed * p <= -0x1_0000_0000_0000_0000) by (nonlinear_arith)
            requires
                signed <= -0x10_0000_0000_0000,
                p >= 4096,
        ;
    }
}

/// A double of less than one lies next to zero.
proof fn lemma_small(signed: int, k: nat, n: int)
    requires
        k >= 54,
        -0x20_0000_0000_0000 < signed < 0x20_0000_0000_0000,
    ensures
        n > 0 ==> signed <= n * pow2(k),
        n == 0 ==> (signed <= n * pow2(k) <==> signed <= 0),
        n < 0 ==> signed > n * pow2(k),
{
    lemma2_to64();
    assert(pow2(54) == 0x40_0000_0000_0000) by {
        lemma_pow2_adds(32, 22);
        assert(0x1_0000_0000 * 0x40_0000 == 0x40_0000_0000_0000) by (nonlinear_arith);
    }
    if k > 54 {
        lemma_pow2_strictly_increases(54, k);
    }
    let p = pow2(k) as int;
    if n > 0 {
        assert(n * p >= p) by (nonlinear_arith)
            requires
                n >= 1,
                p >= 0,
        ;
    } else if n < 0 {
        assert(n * p <= -p) by (nonlinear_arith)
            requires
                n <= -1,
                p >= 0,
        ;
    } else {
        assert(n * p == 0) by (nonlinear_arith)
            requires
                n == 0,
        ;
    }
}

/// A double that is an integer of 53 bits is at most `n` just where that
/// integer is.
pub proof fn law_integers_compare(fraction: u64, n: int)
    requires
        fraction < 0x10_0000_0000_0000,
    ensures
        at_most((0x4330_0000_0000_0000 + fraction) as u64, n) <==> 0x10_0000_0000_0000 + fraction
            <= n,
        at_most((0xc330_0000_0000_0000 + fraction) as u64, n) <==> -(0x10_0000_0000_0000
            + fraction) <= n,
{
    let a = (0x4330_0000_0000_0000 + fraction) as u64;
    let b = (0xc330_0000_0000_0000 + fraction) as u64;
    lemma2_to64();
    assert(exponent_field(a) == 1075 && fraction_field(a) == fraction && !is_negative(a));
    assert(exponent_field(b) == 1075 && fraction_field(b) == fraction && is_negative(b));
    assert(power(a) == 0 && power(b) == 0);
    assert(pow2(0) == 1);
    assert(significand(a) * 1 == significand(a));
    assert(significand(b) * 1 == significand(b));
}

/// One more in the exponent doubles a double: it is at most `2 * n` just where
/// the double was at most `n`.
pub proof fn law_exponents_double(bits: u64, n: int)
    requires
        0x10_0000_0000_0000 <= bits % 0x8000_0000_0000_0000 < 0x7fe0_0000_0000_0000,
    ensures
        at_most((bits + 0x10_0000_0000_0000) as u64, 2 * n) <==> at_most(bits, n),
{
    let twice = (bits + 0x10_0000_0000_0000) as u64;
    assert(exponent_field(twice) == exponent_field(bits) + 1 && fraction_field(twice)
        == fraction_field(bits) && is_negative(twice) == is_negative(bits));
    let p = power(bits);
    let s = significand(bits);
    assert(power(twice) == p + 1 && significand(twice) == s);
    if p >= 0 {
        lemma_pow2_unfold((p + 1) as nat);
        let q = pow2(p as nat) as int;
        assert(pow2((p + 1) as nat) == 2 * q);
        assert(s * (2 * q) <= 2 * n <==> s * q <= n) by (nonlinear_arith);
        assert(at_most(twice, 2 * n) <==> s * (2 * q) <= 2 * n);
        assert(at_most(bits, n) <==> s * q <= n);
    } else {
        lemma_pow2_unfold((-p) as nat);
        let q = pow2((-p - 1) as nat) as int;
        assert(pow2((-p) as nat) == 2 * q);
        assert((2 * n) * q == n * (2 * q)) by (nonlinear_arith);
        assert(at_most(bits, n) <==> s <= n * (2 * q));
        if p == -1 {
            lemma2_to64();
            assert(q == 1);
            assert(n * (2 * q) == 2 * n) by (nonlinear_arith)
                requires
                    q == 1,
            ;
            assert(s * pow2(0) == s);
            assert(at_most(twice, 2 * n) <==> s <= 2 * n);
        } else {
            assert(-power(twice) == -p - 1);
            assert(at_most(twice, 2 * n) <==> s <= (2 * n) * q);
        }
    }
}

/// A double next to zero lies below every positive integer and above every
/// negative one. It is at most zero where it is zero or has the sign.
pub proof fn law_smallest_compare(bits: u64, n: int)
    requires
        bits % 0x8000_0000_0000_0000 < 0x10_0000_0000_0000,
    ensures
        n > 0 ==> at_most(bits, n),
        n < 0 ==> !at_most(bits, n),
        at_most(bits, 0) <==> bits >= 0x8000_0000_0000_0000 || bits == 0,
{
    lemma_small(significand(bits), 1074, n);
    lemma_small(significand(bits), 1074, 0);
}

/// Of what is no finite double only the negative infinity is at most an
/// integer.
pub proof fn law_not_finite(bits: u64, n: int)
    requires
        bits % 0x8000_0000_0000_0000 >= 0x7ff0_0000_0000_0000,
    ensures
        at_most(bits, n) <==> bits == 0xfff0_0000_0000_0000,
{
}

} // verus!
