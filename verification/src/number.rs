//! Lua floats as IEEE-754 binary64 bit patterns.
//!
//! A float is held as its 64 bits: one sign bit, eleven exponent bits and
//! fifty-two fraction bits. What the runtime asks of a float is whether it is a
//! NaN and which integer, if any, it equals; both are integer arithmetic.
use vstd::arithmetic::div_mod::*;
use vstd::arithmetic::mul::*;
use vstd::arithmetic::power2::*;
use vstd::bits::*;
use vstd::prelude::*;

verus! {

/// Two to the power of fifty-two: the weight of the hidden leading bit.
pub const HIDDEN: u64 = 0x0010_0000_0000_0000;

/// The fraction field.
pub open spec fn fraction(bits: u64) -> int {
    bits as int % 0x0010_0000_0000_0000
}

/// The biased exponent field.
pub open spec fn exponent(bits: u64) -> int {
    (bits as int / 0x0010_0000_0000_0000) % 2048
}

/// Whether the sign bit is set.
pub open spec fn negative(bits: u64) -> bool {
    bits >= 0x8000_0000_0000_0000
}

/// Whether the pattern stands for no number.
pub open spec fn is_nan_spec(bits: u64) -> bool {
    exponent(bits) == 2047 && fraction(bits) != 0
}

/// The integer significand of a finite float.
pub open spec fn significand(bits: u64) -> int {
    if exponent(bits) == 0 {
        fraction(bits)
    } else {
        fraction(bits) + 0x0010_0000_0000_0000
    }
}

/// The power of two that scales the significand of a finite float.
pub open spec fn scale(bits: u64) -> int {
    if exponent(bits) == 0 {
        -1074
    } else {
        exponent(bits) - 1075
    }
}

/// The magnitude of a finite float where it is an integer.
pub open spec fn integer_magnitude(bits: u64) -> Option<int> {
    if exponent(bits) == 2047 {
        None
    } else if scale(bits) >= 0 {
        Some(significand(bits) * pow2(scale(bits) as nat) as int)
    } else if significand(bits) % pow2((-scale(bits)) as nat) as int == 0 {
        Some(significand(bits) / pow2((-scale(bits)) as nat) as int)
    } else {
        None
    }
}

/// The integer that a float equals, if it equals one.
pub open spec fn exact_integer(bits: u64) -> Option<int> {
    match integer_magnitude(bits) {
        Some(m) => Some(
            if negative(bits) {
                -m
            } else {
                m
            },
        ),
        None => None,
    }
}

/// The 64-bit integer that a float equals, if it equals one.
pub open spec fn float_integer(bits: u64) -> Option<i64> {
    match exact_integer(bits) {
        Some(n) => if i64::MIN <= n <= i64::MAX {
            Some(n as i64)
        } else {
            None
        },
        None => None,
    }
}

/// Whether the pattern stands for no number.
pub fn is_nan(bits: u64) -> (r: bool)
    ensures
        r == is_nan_spec(bits),
{
    (bits / HIDDEN) % 2048 == 2047 && bits % HIDDEN != 0
}

fn power(k: u32) -> (r: u64)
    requires
        k < 64,
    ensures
        r == pow2(k as nat),
{
    proof {
        lemma_u64_pow2_no_overflow(k as nat);
        lemma_u64_shl_is_mul(1, k as u64);
        lemma_pow2(k as nat);
    }
    1u64 << (k as u64)
}

/// The magnitude of a finite float where it is an integer below `2^63 + 1`.
fn magnitude_of(bits: u64) -> (r: Option<u64>)
    ensures
        r matches Some(x) ==> integer_magnitude(bits) == Some(x as int) && x
            <= 0x8000_0000_0000_0000,
        r is None ==> (integer_magnitude(bits) matches Some(m) ==> m > 0x8000_0000_0000_0000),
{
    let exp: u64 = (bits / HIDDEN) % 2048;
    let frac: u64 = bits % HIDDEN;
    if exp == 2047 {
        return None;
    }
    let sig: u64 = if exp == 0 {
        frac
    } else {
        frac + HIDDEN
    };
    proof {
        lemma2_to64();
        lemma2_to64_rest();
    }
    if exp >= 1075 {
        if exp > 1086 {
            proof {
                lemma_pow2_strictly_increases(11, (exp - 1075) as nat);
                assert(sig as int * pow2((exp - 1075) as nat) as int > 0x8000_0000_0000_0000)
                    by (nonlinear_arith)
                    requires
                        sig >= 0x0010_0000_0000_0000,
                        pow2((exp - 1075) as nat) >= 2049,
                ;
            }
            return None;
        }
        let k: u32 = (exp - 1075) as u32;
        let p: u64 = power(k);
        proof {
            if k < 11 {
                lemma_pow2_strictly_increases(k as nat, 11);
            }
            lemma_pow2_pos(k as nat);
            assert(sig * p <= 0xffff_ffff_ffff_ffff) by (nonlinear_arith)
                requires
                    sig < 0x0020_0000_0000_0000,
                    0 < p <= 2048,
            ;
        }
        let m: u64 = sig * p;
        if m <= 0x8000_0000_0000_0000 {
            Some(m)
        } else {
            None
        }
    } else {
        let k: u32 = if exp == 0 {
            1074
        } else {
            (1075 - exp) as u32
        };
        if k > 53 {
            proof {
                lemma_pow2_strictly_increases(53, k as nat);
                lemma_small_mod(sig as nat, pow2(k as nat));
                lemma_basic_div(sig as int, pow2(k as nat) as int);
            }
            if sig == 0 {
                Some(0)
            } else {
                None
            }
        } else {
            let p: u64 = power(k);
            proof {
                lemma_pow2_pos(k as nat);
            }
            if sig % p == 0 {
                proof {
                    assert(sig / p <= sig) by (nonlinear_arith)
                        requires
                            p >= 1,
                    ;
                }
                Some(sig / p)
            } else {
                None
            }
        }
    }
}

/// The 64-bit integer that a float equals, if it equals one.
pub fn number_to_integer(bits: u64) -> (r: Option<i64>)
    ensures
        r == float_integer(bits),
{
    match magnitude_of(bits) {
        None => None,
        Some(m) => {
            if bits >= 0x8000_0000_0000_0000 {
                if m == 0x8000_0000_0000_0000 {
                    Some(i64::MIN)
                } else {
                    Some(-(m as i64))
                }
            } else if m < 0x8000_0000_0000_0000 {
                Some(m as i64)
            } else {
                None
            }
        },
    }
}

/// How many bits of `m` lie beyond the fifty-three that a float keeps.
pub open spec fn excess_bits(m: nat) -> nat
    decreases m,
{
    if m < 0x0020_0000_0000_0000 {
        0
    } else {
        1 + excess_bits(m / 2)
    }
}

/// `m` rounded to a multiple of `unit`, to the even multiple on a tie.
pub open spec fn round_half_even(m: nat, unit: nat) -> nat {
    let q = m / unit;
    let r = m % unit;
    if 2 * r < unit || (2 * r == unit && q % 2 == 0) {
        q * unit
    } else {
        (q + 1) * unit
    }
}

/// The magnitude of the float nearest to an integer of magnitude `m`.
pub open spec fn nearest_float(m: nat) -> nat {
    round_half_even(m, pow2(excess_bits(m)))
}

pub proof fn lemma_excess(m: nat, k: nat)
    requires
        m / pow2(k) < 0x0020_0000_0000_0000,
        k > 0 ==> m / pow2((k - 1) as nat) >= 0x0020_0000_0000_0000,
    ensures
        excess_bits(m) == k,
    decreases k,
{
    lemma2_to64();
    if k == 0 {
    } else {
        lemma_pow2_pos((k - 1) as nat);
        lemma_pow2_unfold(k);
        lemma_div_denominator(m as int, 2, pow2((k - 1) as nat) as int);
        assert(pow2(k) == 2 * pow2((k - 1) as nat));
        assert((m / 2) / pow2((k - 1) as nat) == m / pow2(k));
        if k > 1 {
            lemma_pow2_pos((k - 2) as nat);
            lemma_pow2_unfold((k - 1) as nat);
            lemma_div_denominator(m as int, 2, pow2((k - 2) as nat) as int);
        }
        lemma_div_is_ordered_by_denominator(m as int, 1, pow2((k - 1) as nat) as int);
        lemma_div_basics(m as int);
        assert(m as int / 1 == m);
        assert(m >= 0x0020_0000_0000_0000);
        lemma_excess(m / 2, (k - 1) as nat);
        assert(excess_bits(m) == 1 + excess_bits(m / 2));
    }
}

/// The magnitude of the float nearest to an integer of magnitude `m`.
pub fn nearest_float_magnitude(m: u64) -> (r: u64)
    requires
        m <= 0x8000_0000_0000_0000,
    ensures
        r == nearest_float(m as nat),
        r <= 0x8000_0000_0000_0000,
        m > 0 ==> r > 0,
{
    let mut unit: u64 = 1;
    let ghost mut k: nat = 0;
    proof {
        lemma2_to64();
        lemma2_to64_rest();
    }
    while m / unit >= 0x0020_0000_0000_0000
        invariant
            unit == pow2(k),
            1 <= unit <= 2048,
            k <= 11,
            m <= 0x8000_0000_0000_0000,
            k > 0 ==> m as nat / pow2((k - 1) as nat) >= 0x0020_0000_0000_0000,
        decreases 4096 - unit,
    {
        proof {
            lemma2_to64();
            lemma_pow2_unfold(k + 1);
            lemma_fundamental_div_mod(m as int, unit as int);
            lemma_mod_bound(m as int, unit as int);
            assert(unit <= 1024) by (nonlinear_arith)
                requires
                    m == unit * (m as int / unit as int) + m as int % unit as int,
                    m as int % unit as int >= 0,
                    m as int / unit as int >= 0x0020_0000_0000_0000,
                    m <= 0x8000_0000_0000_0000,
            ;
            if k == 11 {
                assert(false);
            }
        }
        unit = unit * 2;
        proof {
            k = k + 1;
        }
    }
    proof {
        lemma_excess(m as nat, k);
        lemma_fundamental_div_mod(m as int, unit as int);
        lemma_mod_bound(m as int, unit as int);
    }
    let q: u64 = m / unit;
    let r: u64 = m % unit;
    let n: u64 = if 2 * r < unit || (2 * r == unit && q % 2 == 0) {
        q
    } else {
        q + 1
    };
    proof {
        let t = pow2((63 - k) as nat) as int;
        lemma_pow2_adds(k, (63 - k) as nat);
        if k > 0 {
            lemma_pow2_pos((k - 1) as nat);
            lemma_pow2_unfold(k);
            lemma_div_denominator(m as int, pow2((k - 1) as nat) as int, 2);
            assert(q > 0);
        }
        assert(n * unit <= 0x8000_0000_0000_0000 && (m > 0 ==> n * unit > 0)) by (nonlinear_arith)
            requires
                n == q || (n == q + 1 && r > 0),
                m == unit * q + r,
                0 <= r < unit,
                q == 0 ==> unit == 1,
                unit * t == 0x8000_0000_0000_0000,
                m <= 0x8000_0000_0000_0000,
        ;
    }
    n * unit
}

/// Two's complement of an integer in 64 bits.
pub open spec fn unsigned64(v: int) -> nat {
    (if v < 0 {
        v + 0x1_0000_0000_0000_0000
    } else {
        v
    }) as nat
}

/// The integer that 64 bits stand for.
pub open spec fn signed64(n: nat) -> int {
    if n >= 0x8000_0000_0000_0000 {
        n - 0x1_0000_0000_0000_0000
    } else {
        n as int
    }
}

/// The bits of an integer.
pub fn bits64(v: i64) -> (n: u64)
    ensures
        n == unsigned64(v as int),
{
    if v >= 0 {
        v as u64
    } else {
        (v - i64::MIN) as u64 + 0x8000_0000_0000_0000
    }
}

/// The integer that 64 bits stand for.
pub fn integer64(n: u64) -> (v: i64)
    ensures
        v == signed64(n as nat),
{
    if n < 0x8000_0000_0000_0000 {
        n as i64
    } else {
        (n - 0x8000_0000_0000_0000) as i64 + i64::MIN
    }
}

} // verus!
