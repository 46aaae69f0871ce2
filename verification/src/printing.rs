//! Integers printed as floats.
use vstd::arithmetic::div_mod::*;
use vstd::arithmetic::power2::*;
use vstd::prelude::*;

use crate::number::{excess_bits, lemma_excess, nearest_float, nearest_float_magnitude};

verus! {

/// `10` to the power `k`.
pub open spec fn pow10(k: nat) -> nat
    decreases k,
{
    if k == 0 {
        1
    } else {
        10 * pow10((k - 1) as nat)
    }
}

/// Whether the float nearest to a number that may lie above `2^63` is `2^63`.
proof fn lemma_above(m: nat)
    requires
        0x8000_0000_0000_0000 < m < 0x1_0000_0000_0000_0000,
    ensures
        nearest_float(m) == 0x8000_0000_0000_0000 <==> m - 0x8000_0000_0000_0000 <= 1024,
        nearest_float(m) >= 0x8000_0000_0000_0000,
{
    lemma2_to64();
    assert(pow2(11) == 2048);
    let k: nat = 11;
    assert(pow2((k - 1) as nat) == 1024);
    assert(m / 1024 >= 0x0020_0000_0000_0000);
    lemma_excess(m, k);
}

/// Whether a float is nearest to a number.
fn is_nearest(m: u64, f: u64) -> (r: bool)
    requires
        f <= 0x8000_0000_0000_0000,
    ensures
        r == (nearest_float(m as nat) == f),
{
    if m <= 0x8000_0000_0000_0000 {
        nearest_float_magnitude(m) == f
    } else {
        proof {
            lemma_above(m as nat);
        }
        f == 0x8000_0000_0000_0000 && m - 0x8000_0000_0000_0000 <= 1024
    }
}

proof fn lemma_pow10_18()
    ensures
        pow10(18) == 1_000_000_000_000_000_000,
{
    assert(pow10(9) == 1_000_000_000) by {
        reveal_with_fuel(pow10, 10);
    }
    assert(pow10(12) == 1000 * pow10(9)) by {
        reveal_with_fuel(pow10, 4);
    }
    assert(pow10(15) == 1000 * pow10(12)) by {
        reveal_with_fuel(pow10, 4);
    }
    assert(pow10(18) == 1000 * pow10(15)) by {
        reveal_with_fuel(pow10, 4);
    }
}

proof fn lemma_pow10_grows(k: nat)
    requires
        k > 0,
    ensures
        pow10(k) >= 10,
    decreases k,
{
    if k > 1 {
        lemma_pow10_grows((k - 1) as nat);
    } else {
        assert(pow10(0) == 1);
    }
}

/// The multiple of `p` next to `f` that the same float is nearest to, if there is
/// one; of two the closer, and the larger one on a tie.
pub open spec fn short_at(f: nat, p: nat) -> Option<nat> {
    let low = (f - f % p) as nat;
    let high = low + p;
    let low_fits = nearest_float(low) == f;
    let high_fits = nearest_float(high) == f;
    if low_fits && (!high_fits || 2 * (f % p) < p) {
        Some(low)
    } else if high_fits {
        Some(high)
    } else {
        None
    }
}

/// The integer of the fewest digits before trailing zeros, at most `k` of these,
/// that the float `f` is nearest to.
pub open spec fn shortest(f: nat, k: nat) -> nat
    decreases k,
{
    if k == 0 {
        f
    } else {
        match short_at(f, pow10(k)) {
            Some(n) => n,
            None => shortest(f, (k - 1) as nat),
        }
    }
}

/// The magnitude that an integer of magnitude `m` prints with when it is printed
/// as a float: the shortest that reads back as the float nearest to it.
pub open spec fn printed_magnitude(m: nat) -> nat {
    shortest(nearest_float(m), 18)
}

/// Whether a magnitude is a float's: fifty-three bits, and zeros behind them.
pub open spec fn is_float(x: int) -> bool {
    exists|c: int, e: nat| 0 <= c < 0x20_0000_0000_0000 && x == #[trigger] scaled(c, e)
}

/// `c` with `e` zero bits behind it.
pub open spec fn scaled(c: int, e: nat) -> int {
    c * pow2(e)
}

/// Whether `a` is closer to `f` than `b` is, or as close and no smaller.
pub open spec fn at_least_as_close(a: int, b: int, f: int) -> bool {
    apart(a, f) < apart(b, f) || (apart(a, f) == apart(b, f) && a >= b)
}

/// How far two numbers are apart.
pub open spec fn apart(a: int, b: int) -> int {
    if a < b {
        b - a
    } else {
        a - b
    }
}

proof fn lemma_below_top(m: nat)
    ensures
        m / pow2(excess_bits(m)) < 0x20_0000_0000_0000,
    decreases m,
{
    lemma2_to64();
    if m < 0x20_0000_0000_0000 {
        assert(pow2(0) == 1);
        assert(m / 1 == m) by (nonlinear_arith);
    } else {
        let k = excess_bits(m / 2);
        lemma_pow2_pos(k);
        lemma_pow2_unfold(k + 1);
        lemma_div_denominator(m as int, 2, pow2(k) as int);
        lemma_below_top(m / 2);
    }
}

proof fn lemma_nearest_is_float(m: nat)
    ensures
        is_float(nearest_float(m) as int),
{
    let k = excess_bits(m);
    let unit = pow2(k);
    let q = (m / unit) as int;
    lemma_below_top(m);
    lemma_pow2_pos(k);
    lemma_div_pos_is_pos(m as int, unit as int);
    assert(q * unit == scaled(q, k));
    if q + 1 < 0x20_0000_0000_0000 {
        assert((q + 1) * unit == scaled(q + 1, k));
    } else {
        lemma_pow2_unfold(k + 1);
        assert((q + 1) * unit == scaled(0x10_0000_0000_0000, k + 1)) by (nonlinear_arith)
            requires
                q + 1 == 0x20_0000_0000_0000,
                pow2(k + 1) == 2 * unit,
                scaled(0x10_0000_0000_0000, k + 1) == 0x10_0000_0000_0000 * pow2(k + 1),
        ;
    }
}

proof fn lemma_multiples_apart(m: int, unit: int, q: int, r: int, t: int)
    requires
        unit > 0,
        m == unit * q + r,
        0 <= r < unit,
    ensures
        t <= q ==> apart(t * unit, m) >= r,
        t > q ==> apart(t * unit, m) >= unit - r,
        t < q ==> apart(t * unit, m) >= unit + r,
        t > q + 1 ==> apart(t * unit, m) >= 2 * unit - r,
{
    let d = t - q;
    assert(t * unit == unit * q + d * unit) by (nonlinear_arith)
        requires
            d == t - q,
    ;
    assert((d <= -1 ==> d * unit <= -unit) && (d == 0 ==> d * unit == 0) && (d >= 1 ==> d * unit
        >= unit) && (d >= 2 ==> d * unit >= 2 * unit)) by (nonlinear_arith)
        requires
            unit > 0,
    ;
}

proof fn lemma_nearest(m: nat, c: int, e: nat)
    requires
        0 <= c < 0x20_0000_0000_0000,
    ensures
        apart(nearest_float(m) as int, m as int) <= apart(scaled(c, e), m as int),
{
    let k = excess_bits(m);
    let unit = pow2(k) as int;
    let q = m as int / unit;
    let r = m as int % unit;
    lemma_pow2_pos(k);
    lemma_pow2_pos(e);
    lemma_fundamental_div_mod(m as int, unit);
    lemma_mod_bound(m as int, unit);
    lemma_multiples_apart(m as int, unit, q, r, q);
    assert((q + 1) * unit == unit * q + unit && q * unit == unit * q) by (nonlinear_arith);
    assert(apart(nearest_float(m) as int, m as int) == if 2 * r <= unit {
        r
    } else {
        unit - r
    });
    if e >= k {
        let t = c * pow2((e - k) as nat);
        lemma_pow2_adds(k, (e - k) as nat);
        assert(scaled(c, e) == t * unit) by (nonlinear_arith)
            requires
                scaled(c, e) == c * pow2(e),
                t == c * pow2((e - k) as nat),
                pow2(e) == unit * pow2((e - k) as nat),
        ;
        lemma_multiples_apart(m as int, unit, q, r, t);
    } else {
        if m < 0x20_0000_0000_0000 {
            assert(k == 0);
        }
        lemma_top_bits(m);
        let h = pow2((k - 1) as nat) as int;
        lemma_pow2_unfold(k);
        lemma_pow2_pos((k - 1) as nat);
        if e < k - 1 {
            lemma_pow2_strictly_increases(e, (k - 1) as nat);
        }
        assert(scaled(c, e) <= unit * q) by (nonlinear_arith)
            requires
                scaled(c, e) == c * pow2(e),
                0 <= c < 0x20_0000_0000_0000,
                0 < pow2(e) <= h,
                unit == 2 * h,
                q >= 0x10_0000_0000_0000,
        ;
    }
}

/// The float of an integer is one of those closest to it: no other lies nearer.
/// A float is its own.
pub proof fn law_nearest_floats_are_nearest(m: nat, x: int)
    requires
        is_float(x),
    ensures
        is_float(nearest_float(m) as int),
        apart(nearest_float(m) as int, m as int) <= apart(x, m as int),
        x == m ==> nearest_float(m) == m,
{
    let (c, e) = choose|c: int, e: nat|
        0 <= c < 0x20_0000_0000_0000 && x == #[trigger] scaled(c, e);
    lemma_nearest_is_float(m);
    lemma_nearest(m, c, e);
}

/// Larger integers have no smaller floats.
pub proof fn law_nearest_floats_keep_the_order(a: nat, b: nat)
    requires
        a <= b,
    ensures
        nearest_float(a) <= nearest_float(b),
{
    lemma_nearest_is_float(a);
    lemma_nearest_is_float(b);
    law_nearest_floats_are_nearest(a, nearest_float(b) as int);
    law_nearest_floats_are_nearest(b, nearest_float(a) as int);
}

/// Halfway between two floats the one with the even last bit is taken.
pub proof fn law_ties_go_to_even(q: int, e: nat)
    requires
        0x10_0000_0000_0000 <= q < 0x20_0000_0000_0000,
    ensures
        nearest_float((scaled(q, e + 1) + pow2(e)) as nat) == scaled(
            if q % 2 == 0 {
                q
            } else {
                q + 1
            },
            e + 1,
        ),
{
    let unit = pow2(e + 1) as int;
    let h = pow2(e) as int;
    let m = q * unit + h;
    lemma_pow2_pos(e);
    lemma_pow2_unfold(e + 1);
    assert(m >= 0) by (nonlinear_arith)
        requires
            m == q * unit + h,
            unit > 0,
            h > 0,
            q >= 0,
    ;
    assert(m == unit * q + h && m == h * (2 * q + 1)) by (nonlinear_arith)
        requires
            m == q * unit + h,
            unit == 2 * h,
    ;
    lemma_fundamental_div_mod_converse(m, unit, q, h);
    lemma_fundamental_div_mod_converse(m, h, 2 * q + 1, 0);
    lemma_excess(m as nat, e + 1);
}

proof fn lemma_small_is_float(m: nat)
    requires
        m < 0x20_0000_0000_0000,
    ensures
        nearest_float(m) == m,
{
    lemma2_to64();
    assert(pow2(0) == 1);
    assert(m / 1 == m && m % 1 == 0) by (nonlinear_arith);
    assert(m * 1 == m) by (nonlinear_arith);
}

proof fn lemma_top_bits(m: nat)
    requires
        m >= 0x20_0000_0000_0000,
    ensures
        excess_bits(m) >= 1,
        m / pow2(excess_bits(m)) >= 0x10_0000_0000_0000,
    decreases m,
{
    lemma2_to64();
    let k = excess_bits(m / 2);
    lemma_pow2_pos(k);
    lemma_pow2_unfold(k + 1);
    lemma_div_denominator(m as int, 2, pow2(k) as int);
    if m / 2 >= 0x20_0000_0000_0000 {
        lemma_top_bits(m / 2);
    } else {
        assert(pow2(0) == 1);
        assert((m / 2) / 1 == m / 2) by (nonlinear_arith);
    }
}

proof fn lemma_large_stays_large(m: nat)
    requires
        m >= 0x20_0000_0000_0000,
    ensures
        nearest_float(m) >= 0x20_0000_0000_0000,
{
    lemma_top_bits(m);
    let k = excess_bits(m);
    lemma_pow2_pos((k - 1) as nat);
    lemma_pow2_unfold(k);
    let unit = pow2(k);
    let q = m / unit;
    assert(q * unit >= 0x20_0000_0000_0000 && (q + 1) * unit >= 0x20_0000_0000_0000)
        by (nonlinear_arith)
        requires
            q >= 0x10_0000_0000_0000,
            unit >= 2,
    ;
}

proof fn lemma_shortest_small(f: nat, k: nat)
    requires
        f < 0x20_0000_0000_0000,
    ensures
        shortest(f, k) == f,
    decreases k,
{
    if k > 0 {
        let p = pow10(k);
        lemma_pow10_grows(k);
        lemma_mod_bound(f as int, p as int);
        lemma_mod_decreases(f, p);
        let low = (f - f % p) as nat;
        let high = low + p;
        lemma_small_is_float(low);
        if high < 0x20_0000_0000_0000 {
            lemma_small_is_float(high);
        } else {
            lemma_large_stays_large(high);
        }
        lemma_shortest_small(f, (k - 1) as nat);
    }
}

proof fn lemma_shortest_reads_back(f: nat, k: nat)
    ensures
        shortest(f, k) == f || nearest_float(shortest(f, k)) == f,
    decreases k,
{
    if k > 0 {
        lemma_shortest_reads_back(f, (k - 1) as nat);
    }
}

/// An integer prints as itself as long as floats tell it from its neighbours, and
/// always as one that is read back as the float nearest to it.
pub proof fn law_integers_print_as_themselves(m: nat)
    ensures
        m < 0x20_0000_0000_0000 ==> printed_magnitude(m) == m,
        nearest_float(printed_magnitude(m)) == nearest_float(m),
{
    if m < 0x20_0000_0000_0000 {
        lemma_small_is_float(m);
        lemma_shortest_small(m, 18);
    }
    lemma_nearest_is_float(m);
    law_nearest_floats_are_nearest(nearest_float(m), nearest_float(m) as int);
    lemma_shortest_reads_back(nearest_float(m), 18);
}

/// Whether a number that ends in `k` zeros is read back as the float `f`.
pub open spec fn reads_back(n: nat, k: nat, f: nat) -> bool {
    n % pow10(k) == 0 && nearest_float(n) == f
}

proof fn lemma_pow10_pos(k: nat)
    ensures
        pow10(k) > 0,
{
    if k > 0 {
        lemma_pow10_grows(k);
    }
}

proof fn lemma_zeros_fewer(n: nat, j: nat, k: nat)
    requires
        n % pow10(k) == 0,
        j <= k,
    ensures
        n % pow10(j) == 0,
    decreases k,
{
    if j < k {
        let p = pow10((k - 1) as nat);
        lemma_pow10_pos((k - 1) as nat);
        lemma_mod_mod(n as int, p as int, 10);
        assert(p * 10 == 10 * p);
        lemma_small_mod(0, p);
        lemma_zeros_fewer(n, j, (k - 1) as nat);
    }
}

proof fn lemma_short_at(f: nat, k: nat, n: nat)
    requires
        nearest_float(f) == f,
        reads_back(n, k, f),
    ensures
        short_at(f, pow10(k)) matches Some(s) && reads_back(s, k, f) && at_least_as_close(
            s as int,
            n as int,
            f as int,
        ),
{
    let p = pow10(k) as int;
    lemma_pow10_pos(k);
    let q = f as int / p;
    let r = f as int % p;
    let t = n as int / p;
    lemma_fundamental_div_mod(f as int, p);
    lemma_mod_bound(f as int, p);
    lemma_fundamental_div_mod(n as int, p);
    assert(t * p == p * t && p * (q + 1) == p * q + p) by (nonlinear_arith);
    lemma_multiples_apart(f as int, p, q, r, t);
    let low = p * q;
    let high = p * (q + 1);
    lemma_mod_multiples_basic(q, p);
    lemma_mod_multiples_basic(q + 1, p);
    assert(q * p == p * q && (q + 1) * p == p * (q + 1)) by (nonlinear_arith);
    if t <= q {
        assert(p * t <= p * q) by (nonlinear_arith)
            requires
                t <= q,
                p > 0,
        ;
        law_nearest_floats_keep_the_order(n, low as nat);
        law_nearest_floats_keep_the_order(low as nat, f);
    } else {
        assert(p * t >= p * (q + 1)) by (nonlinear_arith)
            requires
                t >= q + 1,
                p > 0,
        ;
        law_nearest_floats_keep_the_order(high as nat, n);
        law_nearest_floats_keep_the_order(f, high as nat);
    }
}

proof fn lemma_short_reads_back(f: nat, k: nat)
    ensures
        short_at(f, pow10(k)) matches Some(s) ==> reads_back(s, k, f),
{
    let p = pow10(k) as int;
    lemma_pow10_pos(k);
    let q = f as int / p;
    lemma_fundamental_div_mod(f as int, p);
    lemma_mod_multiples_basic(q, p);
    lemma_mod_multiples_basic(q + 1, p);
    assert(q * p == p * q && (q + 1) * p == p * q + p) by (nonlinear_arith);
}

proof fn lemma_shortest(f: nat, top: nat, n: nat, k: nat)
    requires
        nearest_float(f) == f,
        reads_back(n, k, f),
        k <= top,
    ensures
        reads_back(shortest(f, top), k, f),
        at_least_as_close(shortest(f, top) as int, n as int, f as int) || (k < top && shortest(
            f,
            top,
        ) % pow10(k + 1) == 0),
    decreases top,
{
    if top == 0 {
        assert(f % 1 == 0) by (nonlinear_arith);
    } else {
        if k == top {
            lemma_short_at(f, k, n);
        } else {
            match short_at(f, pow10(top)) {
                Some(s) => {
                    lemma_short_reads_back(f, top);
                    lemma_zeros_fewer(s, k, top);
                    lemma_zeros_fewer(s, k + 1, top);
                },
                None => {
                    lemma_shortest(f, (top - 1) as nat, n, k);
                },
            }
        }
    }
}

/// What an integer prints as ends in as many zeros as any number that is read back
/// as the same float, up to eighteen; and of those with as many zeros it is the
/// closest to the float, the larger of two that are as close.
pub proof fn law_integers_print_shortest(m: nat, n: nat, k: nat)
    requires
        reads_back(n, k, nearest_float(m)),
        k <= 18,
    ensures
        reads_back(printed_magnitude(m), k, nearest_float(m)),
        at_least_as_close(
            printed_magnitude(m) as int,
            n as int,
            nearest_float(m) as int,
        ) || (k < 18 && printed_magnitude(m) % pow10(k + 1) == 0),
{
    let f = nearest_float(m);
    lemma_nearest_is_float(m);
    law_nearest_floats_are_nearest(f, f as int);
    lemma_shortest(f, 18, n, k);
}

/// What [`short_at`] finds.
fn find_short(f: u64, p: u64) -> (r: Option<u64>)
    requires
        f <= 0x8000_0000_0000_0000,
        0 < p <= 1_000_000_000_000_000_000,
    ensures
        match r {
            Some(n) => short_at(f as nat, p as nat) == Some(n as nat),
            None => short_at(f as nat, p as nat) is None,
        },
        f > 0 ==> r != Some(0u64),
{
    proof {
        lemma_mod_decreases(f as nat, p as nat);
        lemma_mod_bound(f as int, p as int);
        lemma2_to64();
        assert(nearest_float(0) == 0);
    }
    let rest: u64 = f % p;
    let low: u64 = f - rest;
    let high: u64 = low + p;
    let high_fits = is_nearest(high, f);
    if is_nearest(low, f) && (!high_fits || 2 * rest < p) {
        Some(low)
    } else if high_fits {
        Some(high)
    } else {
        None
    }
}

/// The magnitude that an integer of magnitude `m` prints with as a float.
pub fn print_magnitude(m: u64) -> (r: u64)
    requires
        m <= 0x8000_0000_0000_0000,
    ensures
        r == printed_magnitude(m as nat),
        m > 0 ==> r > 0,
{
    let f = nearest_float_magnitude(m);
    let mut p: u64 = 1_000_000_000_000_000_000;
    let ghost mut k: nat = 18;
    proof {
        lemma_pow10_18();
    }
    while p > 1
        invariant
            f <= 0x8000_0000_0000_0000,
            m > 0 ==> f > 0,
            p == pow10(k),
            1 <= p <= 1_000_000_000_000_000_000,
            printed_magnitude(m as nat) == shortest(f as nat, k),
        decreases p,
    {
        match find_short(f, p) {
            Some(n) => {
                return n;
            },
            None => {},
        }
        proof {
            k = (k - 1) as nat;
        }
        p = p / 10;
    }
    proof {
        if k > 0 {
            lemma_pow10_grows(k);
        }
    }
    f
}

} // verus!
