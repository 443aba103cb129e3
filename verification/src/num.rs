//! Double-precision numbers as bit patterns.
//!
//! The engine never computes with machine floats: a number is carried as the
//! 64-bit IEEE-754 encoding of its double-precision value, and every finite
//! encoding denotes the exact dyadic rational `sign * mantissa * 2^(p-1074)`.
//! Working on that grid (units of `2^-1074`), comparison with the tolerance
//! `f64::EPSILON = 2^-52` is stated and proved over plain integers.

use vstd::prelude::*;
use vstd::arithmetic::power2::*;

verus! {

/// Bit pattern of the canonical quiet NaN.
pub const NAN_BITS: u64 = 0x7FF8000000000000;

/// Bit pattern of positive infinity.
pub const INF_BITS: u64 = 0x7FF0000000000000;

/// Bit pattern of negative infinity.
pub const NEG_INF_BITS: u64 = 0xFFF0000000000000;

/// Sign field of an encoding: 0 for positive, 1 for negative.
pub open spec fn sign_of(b: u64) -> int {
    b as int / 0x8000000000000000
}

/// Biased exponent field (11 bits).
pub open spec fn exp_of(b: u64) -> int {
    (b as int / 0x10000000000000) % 0x800
}

/// Fraction field (52 bits).
pub open spec fn frac_of(b: u64) -> int {
    b as int % 0x10000000000000
}

pub open spec fn is_nan(b: u64) -> bool {
    exp_of(b) == 0x7FF && frac_of(b) != 0
}

pub open spec fn is_inf(b: u64) -> bool {
    exp_of(b) == 0x7FF && frac_of(b) == 0
}

pub open spec fn is_finite(b: u64) -> bool {
    exp_of(b) != 0x7FF
}

/// Integer mantissa: the fraction with the implicit bit added for normals.
pub open spec fn mant_of(b: u64) -> int {
    if exp_of(b) == 0 {
        frac_of(b)
    } else {
        frac_of(b) + 0x10000000000000
    }
}

/// Power of two that scales the mantissa, counted on the `2^-1074` grid.
pub open spec fn gexp_of(b: u64) -> nat {
    if exp_of(b) == 0 {
        0
    } else {
        (exp_of(b) - 1) as nat
    }
}

/// Exact value of a finite encoding, in units of `2^-1074`.
pub open spec fn units_of(b: u64) -> int {
    (if sign_of(b) == 1 {
        -1
    } else {
        1
    }) * mant_of(b) * pow2(gexp_of(b))
}

/// Value extended to infinities: an infinity is strictly beyond every
/// finite encoding, so a sentinel power of two far above the finite range
/// (which stays below `2^2046` units) gives the IEEE order on non-NaN values.
pub open spec fn xunits_of(b: u64) -> int {
    if is_inf(b) {
        (if sign_of(b) == 1 {
            -1
        } else {
            1
        }) * pow2(3000)
    } else {
        units_of(b)
    }
}

/// The tolerance `f64::EPSILON = 2^-52`, in units of `2^-1074`.
pub open spec fn eps_units() -> int {
    pow2(1022) as int
}

/// Approximate equality of two finite encodings: the exact values differ
/// by at most the tolerance.
pub open spec fn approx_eq(l: u64, r: u64) -> bool {
    -eps_units() <= units_of(l) - units_of(r) <= eps_units()
}

/// Comparison semantics of the engine:
/// any NaN operand makes every operator false; an infinite operand is
/// compared strictly; otherwise two values within the tolerance count as
/// equal for all five operators.
pub open spec fn spec_compare(l: u64, r: u64, op: crate::ast::Operator) -> bool {
    if is_nan(l) || is_nan(r) {
        false
    } else if is_inf(l) || is_inf(r) {
        match op {
            crate::ast::Operator::Eq => xunits_of(l) == xunits_of(r),
            crate::ast::Operator::Lt => xunits_of(l) < xunits_of(r),
            crate::ast::Operator::Gt => xunits_of(l) > xunits_of(r),
            crate::ast::Operator::Le => xunits_of(l) <= xunits_of(r),
            crate::ast::Operator::Ge => xunits_of(l) >= xunits_of(r),
        }
    } else {
        match op {
            crate::ast::Operator::Eq => approx_eq(l, r),
            crate::ast::Operator::Lt => units_of(l) < units_of(r) && !approx_eq(l, r),
            crate::ast::Operator::Gt => units_of(l) > units_of(r) && !approx_eq(l, r),
            crate::ast::Operator::Le => units_of(l) <= units_of(r) || approx_eq(l, r),
            crate::ast::Operator::Ge => units_of(l) >= units_of(r) || approx_eq(l, r),
        }
    }
}

/// Law: a NaN operand makes every comparison false.
pub proof fn lemma_nan_compares_false(l: u64, r: u64, op: crate::ast::Operator)
    ensures
        is_nan(l) || is_nan(r) ==> !spec_compare(l, r, op),
{
}

fn fsign(b: u64) -> (s: u64)
    ensures
        s as int == sign_of(b),
        s <= 1,
{
    b / 0x8000000000000000
}

fn fexp(b: u64) -> (e: u64)
    ensures
        e as int == exp_of(b),
        e <= 2047,
{
    (b / 0x10000000000000) % 0x800
}

fn ffrac(b: u64) -> (f: u64)
    ensures
        f as int == frac_of(b),
        f < 0x10000000000000,
{
    b % 0x10000000000000
}

fn fmant(b: u64) -> (m: u64)
    ensures
        m as int == mant_of(b),
        m < 0x20000000000000,
        exp_of(b) >= 1 ==> m >= 0x10000000000000,
{
    if fexp(b) == 0 {
        ffrac(b)
    } else {
        ffrac(b) + 0x10000000000000
    }
}

fn fgexp(b: u64) -> (p: u64)
    requires
        is_finite(b),
    ensures
        p as nat == gexp_of(b),
        p <= 2045,
        p >= 1 ==> exp_of(b) >= 1,
{
    let e = fexp(b);
    if e == 0 {
        0
    } else {
        e - 1
    }
}

fn is_nan_x(b: u64) -> (r: bool)
    ensures
        r == is_nan(b),
{
    fexp(b) == 2047 && ffrac(b) != 0
}

fn is_inf_x(b: u64) -> (r: bool)
    ensures
        r == is_inf(b),
{
    fexp(b) == 2047 && ffrac(b) == 0
}

/// `2^e` as a `u128`.
fn pow2_u128(e: u64) -> (r: u128)
    requires
        e <= 127,
    ensures
        r as int == pow2(e as nat),
{
    let mut r: u128 = 1;
    let mut i: u64 = 0;
    proof {
        lemma2_to64();
        lemma2_to64_rest();
    }
    while i < e
        invariant
            i <= e,
            e <= 127,
            r as int == pow2(i as nat),
        decreases e - i,
    {
        proof {
            lemma_pow2_adds(i as nat, 1);
            lemma_pow2_strictly_increases(i as nat + 1, 128);
            lemma2_to64();
        lemma2_to64_rest();
            lemma_pow2_adds(64, 64);
        }
        r = r * 2;
        i = i + 1;
    }
    r
}

/// The magnitude of a finite encoding, as mantissa times power of two.
pub open spec fn dval(m: u64, p: u64) -> int {
    m as int * pow2(p as nat)
}

proof fn lemma_dval_bound(m: u64, p: u64)
    requires
        m < 0x20000000000000,
        p <= 2045,
    ensures
        dval(m, p) < pow2((p + 53) as nat),
{
    lemma2_to64();
    lemma2_to64_rest();
    lemma_pow2_adds(53, p as nat);
    lemma_pow2_pos(p as nat);
    assert(dval(m, p) < pow2(53) * pow2(p as nat)) by (nonlinear_arith)
        requires
            m < 0x20000000000000,
            0x20000000000000 == pow2(53),
            pow2(p as nat) > 0,
            dval(m, p) == m as int * pow2(p as nat),
    ;
}

/// Value order of two magnitudes is the lexicographic order on
/// (power, mantissa), given well-formed mantissas.
proof fn lemma_mag_order(m1: u64, p1: u64, m2: u64, p2: u64)
    requires
        0 < m1 < 0x20000000000000,
        0 < m2 < 0x20000000000000,
        p1 >= 1 ==> m1 >= 0x10000000000000,
        p2 >= 1 ==> m2 >= 0x10000000000000,
    ensures
        (dval(m1, p1) < dval(m2, p2)) <==> (p1 < p2 || (p1 == p2 && m1 < m2)),
        (dval(m1, p1) == dval(m2, p2)) <==> (p1 == p2 && m1 == m2),
{
    lemma2_to64();
        lemma2_to64_rest();
    lemma_pow2_pos(p1 as nat);
    lemma_pow2_pos(p2 as nat);
    if p1 == p2 {
        assert((m1 as int * pow2(p1 as nat) < m2 as int * pow2(p2 as nat)) <==> m1 < m2)
            by (nonlinear_arith)
            requires
                p1 == p2,
                pow2(p1 as nat) > 0,
                pow2(p1 as nat) == pow2(p2 as nat),
        ;
        assert((m1 as int * pow2(p1 as nat) == m2 as int * pow2(p2 as nat)) <==> m1 == m2)
            by (nonlinear_arith)
            requires
                p1 == p2,
                pow2(p1 as nat) > 0,
                pow2(p1 as nat) == pow2(p2 as nat),
        ;
    } else if p1 < p2 {
        lemma_strict_between(m1, p1, m2, p2);
    } else {
        lemma_strict_between(m2, p2, m1, p1);
    }
}

/// When the powers differ, the magnitude with the larger power is strictly
/// larger: `m1 * 2^p1 < 2^(p1+53) <= 2^(p2+52) <= m2 * 2^p2`.
proof fn lemma_strict_between(m1: u64, p1: u64, m2: u64, p2: u64)
    requires
        m1 < 0x20000000000000,
        0 < m2 < 0x20000000000000,
        p1 < p2,
        p2 >= 1 ==> m2 >= 0x10000000000000,
    ensures
        dval(m1, p1) < dval(m2, p2),
{
    lemma2_to64();
        lemma2_to64_rest();
    lemma_pow2_adds(53, p1 as nat);
    lemma_pow2_adds(52, p2 as nat);
    lemma_pow2_pos(p1 as nat);
    lemma_pow2_pos(p2 as nat);
    assert(dval(m1, p1) < pow2(53) * pow2(p1 as nat)) by (nonlinear_arith)
        requires
            m1 < 0x20000000000000,
            0x20000000000000 == pow2(53),
            pow2(p1 as nat) > 0,
            dval(m1, p1) == m1 as int * pow2(p1 as nat),
    ;
    if p1 as nat + 53 <= p2 as nat + 52 {
        if p1 as nat + 53 < p2 as nat + 52 {
            lemma_pow2_strictly_increases(p1 as nat + 53, p2 as nat + 52);
        }
    }
    assert(pow2(52) * pow2(p2 as nat) <= dval(m2, p2)) by (nonlinear_arith)
        requires
            m2 >= 0x10000000000000,
            0x10000000000000 == pow2(52),
            pow2(p2 as nat) > 0,
            dval(m2, p2) == m2 as int * pow2(p2 as nat),
    ;
}

/// Decides `n * 2^p <= 2^1022` for `n` held in a `u128`.
fn grid_leq(n: u128, p: u64) -> (res: bool)
    requires
        p <= 2045,
    ensures
        res <==> n as int * pow2(p as nat) <= pow2(1022),
{
    proof {
        lemma_pow2_pos(p as nat);
        lemma2_to64();
        lemma2_to64_rest();
        lemma_pow2_adds(64, 64);
    }
    if p > 1022 {
        proof {
            if n >= 1 {
                lemma_pow2_strictly_increases(1022, p as nat);
                assert(n as int * pow2(p as nat) >= pow2(p as nat)) by (nonlinear_arith)
                    requires
                        n >= 1,
                        pow2(p as nat) > 0,
                ;
            }
        }
        n == 0
    } else {
        let sh = 1022 - p;
        proof {
            lemma_pow2_adds(sh as nat, p as nat);
        }
        if sh >= 128 {
            proof {
                if sh > 128 {
                    lemma_pow2_strictly_increases(128, sh as nat);
                }
                assert(pow2(128) == pow2(64) * pow2(64));
                assert((n as int) < pow2(128));
                assert(n as int * pow2(p as nat) < pow2(sh as nat) * pow2(p as nat))
                    by (nonlinear_arith)
                    requires
                        (n as int) < pow2(sh as nat),
                        pow2(p as nat) > 0,
                ;
            }
            true
        } else {
            let lim = pow2_u128(sh);
            proof {
                assert((n as int * pow2(p as nat) <= pow2(sh as nat) * pow2(p as nat)) <==> n
                    as int <= pow2(sh as nat)) by (nonlinear_arith)
                    requires
                        pow2(p as nat) > 0,
                ;
            }
            n <= lim
        }
    }
}

/// Decides `m1*2^p1 - m2*2^p2 <= 2^1022`, given `m2*2^p2 <= m1*2^p1`.
fn dyadic_diff_leq(m1: u64, p1: u64, m2: u64, p2: u64) -> (res: bool)
    requires
        m1 < 0x20000000000000,
        m2 < 0x20000000000000,
        p1 <= 2045,
        p2 <= 2045,
        p1 >= 1 ==> m1 >= 0x10000000000000,
        dval(m2, p2) <= dval(m1, p1),
    ensures
        res <==> dval(m1, p1) - dval(m2, p2) <= pow2(1022),
{
    proof {
        lemma2_to64();
        lemma2_to64_rest();
        lemma_pow2_pos(p1 as nat);
        lemma_pow2_pos(p2 as nat);
    }
    if m2 == 0 {
        proof {
            assert(dval(m2, p2) == 0) by (nonlinear_arith)
                requires
                    m2 == 0,
                    dval(m2, p2) == m2 as int * pow2(p2 as nat),
            ;
        }
        grid_leq(m1 as u128, p1)
    } else if p1 >= p2 {
        let d = p1 - p2;
        if d <= 74 {
            let f = pow2_u128(d);
            proof {
                lemma_pow2_adds(d as nat, p2 as nat);
                lemma_pow2_pos(d as nat);
                if d < 74 {
                    lemma_pow2_strictly_increases(d as nat, 74);
                }
                lemma_pow2_adds(53, 74);
                lemma_pow2_adds(64, 64);
                lemma_pow2_strictly_increases(127, 128);
                assert(m1 as int * pow2(d as nat) < pow2(53) * pow2(74)) by (nonlinear_arith)
                    requires
                        m1 < 0x20000000000000,
                        0x20000000000000 == pow2(53),
                        0 < pow2(d as nat) <= pow2(74),
                ;
                assert(pow2(128) == pow2(64) * pow2(64));
                assert(pow2(53) * pow2(74) == pow2(127));
                // m2 <= m1 * 2^d since m2*2^p2 <= m1*2^p1 = (m1*2^d)*2^p2
                assert(m1 as int * pow2(d as nat) * pow2(p2 as nat) == dval(m1, p1))
                    by (nonlinear_arith)
                    requires
                        pow2(d as nat) * pow2(p2 as nat) == pow2(p1 as nat),
                        dval(m1, p1) == m1 as int * pow2(p1 as nat),
                ;
                assert(m2 as int <= m1 as int * pow2(d as nat)) by (nonlinear_arith)
                    requires
                        m2 as int * pow2(p2 as nat) <= m1 as int * pow2(d as nat) * pow2(
                            p2 as nat,
                        ),
                        pow2(p2 as nat) > 0,
                ;
            }
            let n: u128 = (m1 as u128) * f - (m2 as u128);
            proof {
                assert(n as int * pow2(p2 as nat) == dval(m1, p1) - dval(m2, p2))
                    by (nonlinear_arith)
                    requires
                        n as int == m1 as int * pow2(d as nat) - m2 as int,
                        m1 as int * pow2(d as nat) * pow2(p2 as nat) == dval(m1, p1),
                        dval(m2, p2) == m2 as int * pow2(p2 as nat),
                ;
            }
            grid_leq(n, p2)
        } else {
            // p1 = p2 + d >= 75, so m1 is a normal mantissa and the
            // difference is pinned between 2^(p1+51) and 2^(p1+53).
            proof {
                lemma_pow2_adds(52, p1 as nat);
                lemma_pow2_adds(53, p1 as nat);
                lemma_dval_bound(m2, p2);
                // dval(m2,p2) < 2^(p2+53) <= 2^(p1-22)
                if p2 as nat + 53 < p1 as nat - 22 {
                    lemma_pow2_strictly_increases(p2 as nat + 53, (p1 - 22) as nat);
                }
                assert(pow2(52) * pow2(p1 as nat) <= dval(m1, p1)) by (nonlinear_arith)
                    requires
                        m1 >= 0x10000000000000,
                        0x10000000000000 == pow2(52),
                        pow2(p1 as nat) > 0,
                ;
            }
            if p1 + 53 <= 1022 {
                proof {
                    if ((p1 + 53) as nat) < 1022 {
                        lemma_pow2_strictly_increases((p1 + 53) as nat, 1022);
                    }
                    assert(dval(m1, p1) < pow2((p1 + 53) as nat)) by (nonlinear_arith)
                        requires
                            m1 < 0x20000000000000,
                            0x20000000000000 == pow2(53),
                            pow2(53) * pow2(p1 as nat) == pow2((p1 + 53) as nat),
                            pow2(p1 as nat) > 0,
                    ;
                }
                true
            } else if p1 + 52 == 1022 {
                // diff <= 2^(p1+52)  iff  (m1 - 2^52) * 2^p1 <= m2 * 2^p2
                proof {
                    lemma_pow2_adds((p1 - 22) as nat, 22);
                    lemma_pow2_strictly_increases((p1 - 22) as nat, p1 as nat);
                    if m1 == 0x10000000000000 {
                        assert(dval(m1, p1) == pow2((p1 + 52) as nat)) by (nonlinear_arith)
                            requires
                                m1 as int == pow2(52),
                                pow2(52) * pow2(p1 as nat) == pow2((p1 + 52) as nat),
                                dval(m1, p1) == m1 as int * pow2(p1 as nat),
                        ;
                    } else {
                        assert(dval(m1, p1) >= pow2((p1 + 52) as nat) + pow2(p1 as nat))
                            by (nonlinear_arith)
                            requires
                                m1 as int >= pow2(52) + 1,
                                pow2(52) * pow2(p1 as nat) == pow2((p1 + 52) as nat),
                                dval(m1, p1) == m1 as int * pow2(p1 as nat),
                                pow2(p1 as nat) > 0,
                        ;
                    }
                }
                m1 == 0x10000000000000
            } else {
                // p1 + 51 >= 1022: the difference exceeds the tolerance.
                proof {
                    lemma_pow2_adds(51, p1 as nat);
                    lemma_pow2_adds((p1 - 22) as nat, 73);
                    assert(pow2((p1 + 51) as nat) >= pow2(1022)) by {
                        if (p1 + 51) as nat > 1022 {
                            lemma_pow2_strictly_increases(1022, (p1 + 51) as nat);
                        }
                    }
                    // 2^(p1+52) - 2^(p1-22) >= 2^(p1+51), since 2^(p1-22) <= 2^(p1+51)
                    assert(pow2((p1 - 22) as nat) <= pow2((p1 + 51) as nat)) by {
                        lemma_pow2_strictly_increases((p1 - 22) as nat, (p1 + 51) as nat);
                    }
                    assert(pow2((p1 + 52) as nat) == pow2((p1 + 51) as nat) + pow2(
                        (p1 + 51) as nat,
                    )) by {
                        lemma_pow2_adds((p1 + 51) as nat, 1);
                        lemma2_to64();
        lemma2_to64_rest();
                    }
                    assert(dval(m1, p1) - dval(m2, p2) > pow2(1022));
                }
                false
            }
        }
    } else {
        let d = p2 - p1;
        proof {
            lemma_pow2_adds(d as nat, p1 as nat);
            lemma_pow2_pos(d as nat);
            // m2 * 2^d <= m1 < 2^53, so d <= 52 and everything fits
            assert(m2 as int * pow2(d as nat) * pow2(p1 as nat) == dval(m2, p2))
                by (nonlinear_arith)
                requires
                    pow2(d as nat) * pow2(p1 as nat) == pow2(p2 as nat),
                    dval(m2, p2) == m2 as int * pow2(p2 as nat),
            ;
            assert(m2 as int * pow2(d as nat) <= m1 as int) by (nonlinear_arith)
                requires
                    m2 as int * pow2(d as nat) * pow2(p1 as nat) <= m1 as int * pow2(p1 as nat),
                    pow2(p1 as nat) > 0,
            ;
            assert(pow2(d as nat) <= m2 as int * pow2(d as nat)) by (nonlinear_arith)
                requires
                    m2 >= 1,
                    pow2(d as nat) > 0,
            ;
            if d > 52 {
                if d > 53 {
                    lemma_pow2_strictly_increases(53, d as nat);
                }
                assert(pow2(53) <= pow2(d as nat));
                assert(false);
            }
            lemma_pow2_strictly_increases(d as nat, 127);
        }
        let f = pow2_u128(d);
        let n: u128 = (m1 as u128) - (m2 as u128) * f;
        proof {
            assert(n as int * pow2(p1 as nat) == dval(m1, p1) - dval(m2, p2))
                by (nonlinear_arith)
                requires
                    n as int == m1 as int - m2 as int * pow2(d as nat),
                    m2 as int * pow2(d as nat) * pow2(p1 as nat) == dval(m2, p2),
                    dval(m1, p1) == m1 as int * pow2(p1 as nat),
            ;
        }
        grid_leq(n, p1)
    }
}

/// Decides `m1*2^p1 + m2*2^p2 <= 2^1022`.
fn dyadic_sum_leq(am1: u64, ap1: u64, am2: u64, ap2: u64) -> (res: bool)
    requires
        am1 < 0x20000000000000,
        am2 < 0x20000000000000,
        ap1 <= 2045,
        ap2 <= 2045,
        ap1 >= 1 ==> am1 >= 0x10000000000000,
        ap2 >= 1 ==> am2 >= 0x10000000000000,
    ensures
        res <==> dval(am1, ap1) + dval(am2, ap2) <= pow2(1022),
{
    let (m1, p1, m2, p2) = if ap1 >= ap2 {
        (am1, ap1, am2, ap2)
    } else {
        (am2, ap2, am1, ap1)
    };
    proof {
        lemma2_to64();
        lemma2_to64_rest();
        lemma_pow2_pos(p1 as nat);
        lemma_pow2_pos(p2 as nat);
    }
    let d = p1 - p2;
    if d <= 74 {
        let f = pow2_u128(d);
        proof {
            lemma_pow2_adds(d as nat, p2 as nat);
            lemma_pow2_adds(53, 74);
            lemma_pow2_adds(64, 64);
            lemma_pow2_pos(d as nat);
            if d < 74 {
                lemma_pow2_strictly_increases(d as nat, 74);
            }
            assert(m1 as int * pow2(d as nat) < pow2(127)) by (nonlinear_arith)
                requires
                    m1 < 0x20000000000000,
                    0x20000000000000 == pow2(53),
                    0 < pow2(d as nat) <= pow2(74),
                    pow2(53) * pow2(74) == pow2(127),
            ;
            lemma_pow2_strictly_increases(127, 128);
            lemma_pow2_strictly_increases(53, 127);
            lemma_pow2_adds(127, 1);
            assert(pow2(128) == pow2(64) * pow2(64));
            assert((m1 as int) * pow2(d as nat) + m2 < pow2(128));
        }
        let n: u128 = (m1 as u128) * f + (m2 as u128);
        proof {
            assert(n as int * pow2(p2 as nat) == dval(m1, p1) + dval(m2, p2))
                by (nonlinear_arith)
                requires
                    n as int == m1 as int * pow2(d as nat) + m2 as int,
                    pow2(d as nat) * pow2(p2 as nat) == pow2(p1 as nat),
                    dval(m1, p1) == m1 as int * pow2(p1 as nat),
                    dval(m2, p2) == m2 as int * pow2(p2 as nat),
            ;
        }
        grid_leq(n, p2)
    } else {
        // p1 >= 75, so m1 is normal: the sum lies in [2^(p1+52), 2^(p1+54)).
        proof {
            lemma_pow2_adds(52, p1 as nat);
            lemma_pow2_adds(53, p1 as nat);
            lemma_dval_bound(m2, p2);
            lemma_dval_bound(m1, p1);
            if p2 as nat + 53 < p1 as nat {
                lemma_pow2_strictly_increases(p2 as nat + 53, p1 as nat);
            }
            assert(pow2(52) * pow2(p1 as nat) <= dval(m1, p1)) by (nonlinear_arith)
                requires
                    m1 >= 0x10000000000000,
                    0x10000000000000 == pow2(52),
                    pow2(p1 as nat) > 0,
            ;
            // dval(m2,p2) < 2^(p2+53) <= 2^p1 <= 2^(p1+52)
            lemma_pow2_strictly_increases(p1 as nat, (p1 + 52) as nat);
        }
        if p1 + 54 <= 1022 {
            proof {
                lemma_pow2_adds((p1 + 53) as nat, 1);
                lemma2_to64();
        lemma2_to64_rest();
                if ((p1 + 54) as nat) < 1022 {
                    lemma_pow2_strictly_increases((p1 + 54) as nat, 1022);
                }
                lemma_pow2_strictly_increases(p1 as nat, (p1 + 53) as nat);
            }
            true
        } else if p1 + 53 == 1022 {
            // sum <= 2^(p1+53) always: the small side is below the slack.
            proof {
                assert(dval(m1, p1) <= pow2((p1 + 53) as nat) - pow2(p1 as nat))
                    by (nonlinear_arith)
                    requires
                        m1 as int <= pow2(53) - 1,
                        pow2(53) * pow2(p1 as nat) == pow2((p1 + 53) as nat),
                        dval(m1, p1) == m1 as int * pow2(p1 as nat),
                        pow2(p1 as nat) > 0,
                ;
            }
            true
        } else if p1 + 52 == 1022 {
            proof {
                if am2 >= 1 || am1 >= 1 {
                }
                if m1 == 0x10000000000000 {
                    assert(dval(m1, p1) == pow2((p1 + 52) as nat)) by (nonlinear_arith)
                        requires
                            m1 as int == pow2(52),
                            pow2(52) * pow2(p1 as nat) == pow2((p1 + 52) as nat),
                            dval(m1, p1) == m1 as int * pow2(p1 as nat),
                    ;
                } else {
                    assert(dval(m1, p1) >= pow2((p1 + 52) as nat) + pow2(p1 as nat))
                        by (nonlinear_arith)
                        requires
                            m1 as int >= pow2(52) + 1,
                            pow2(52) * pow2(p1 as nat) == pow2((p1 + 52) as nat),
                            dval(m1, p1) == m1 as int * pow2(p1 as nat),
                            pow2(p1 as nat) > 0,
                    ;
                    lemma_pow2_strictly_increases((p1 - 22) as nat, p1 as nat);
                }
                if m2 >= 1 {
                    assert(dval(m2, p2) >= pow2(p2 as nat)) by (nonlinear_arith)
                        requires
                            m2 >= 1,
                            pow2(p2 as nat) > 0,
                    ;
                }
            }
            m1 == 0x10000000000000 && m2 == 0
        } else {
            // p1 + 51 >= 1022: already the large side exceeds the tolerance.
            proof {
                lemma_pow2_strictly_increases(1022, (p1 + 52) as nat);
                assert(dval(m2, p2) >= 0) by (nonlinear_arith)
                    requires
                        pow2(p2 as nat) > 0,
                ;
            }
            false
        }
    }
}

/// Compares two encodings under the engine's semantics; the result agrees
/// with [`spec_compare`] for every pair of bit patterns and every operator.
pub fn compare_bits(l: u64, r: u64, op: crate::ast::Operator) -> (res: bool)
    ensures
        res == spec_compare(l, r, op),
{
    if is_nan_x(l) || is_nan_x(r) {
        return false;
    }
    let sl = fsign(l);
    let sr = fsign(r);
    if is_inf_x(l) || is_inf_x(r) {
        let linf = is_inf_x(l);
        let rinf = is_inf_x(r);
        proof {
            lemma2_to64();
        lemma2_to64_rest();
            if !linf {
                lemma_units_small(l);
            }
            if !rinf {
                lemma_units_small(r);
            }
            lemma_pow2_pos(3000);
        }
        let x_eq = linf && rinf && sl == sr;
        let x_lt = (linf && sl == 1 && !(rinf && sr == 1)) || (!linf && rinf && sr == 0);
        let x_gt = (rinf && sr == 1 && !(linf && sl == 1)) || (!rinf && linf && sl == 0);
        proof {
            let s3: int = pow2(3000) as int;
            assert((-1int) * pow2(3000) == -s3) by (nonlinear_arith)
                requires
                    s3 == pow2(3000) as int,
            ;
            assert((1int) * pow2(3000) == s3) by (nonlinear_arith)
                requires
                    s3 == pow2(3000) as int,
            ;
            assert(linf ==> xunits_of(l) == (if sl == 1 {
                -s3
            } else {
                s3
            }));
            assert(rinf ==> xunits_of(r) == (if sr == 1 {
                -s3
            } else {
                s3
            }));
            assert(!linf ==> xunits_of(l) == units_of(l) && -s3 < xunits_of(l) < s3);
            assert(!rinf ==> xunits_of(r) == units_of(r) && -s3 < xunits_of(r) < s3);
            assert(x_eq == (xunits_of(l) == xunits_of(r)));
            assert(x_lt == (xunits_of(l) < xunits_of(r)));
            assert(x_gt == (xunits_of(l) > xunits_of(r)));
        }
        match op {
            crate::ast::Operator::Eq => x_eq,
            crate::ast::Operator::Lt => x_lt,
            crate::ast::Operator::Gt => x_gt,
            crate::ast::Operator::Le => x_lt || x_eq,
            crate::ast::Operator::Ge => x_gt || x_eq,
        }
    } else {
        let ml = fmant(l);
        let pl = fgexp(l);
        let mr = fmant(r);
        let pr = fgexp(r);
        proof {
            lemma_pow2_pos(pl as nat);
            lemma_pow2_pos(pr as nat);
            lemma_units_shape(l);
            lemma_units_shape(r);
            assert(units_of(l) == if sl == 1 {
                -dval(ml, pl)
            } else {
                dval(ml, pl)
            });
            assert(units_of(r) == if sr == 1 {
                -dval(mr, pr)
            } else {
                dval(mr, pr)
            });
            assert(dval(ml, pl) == 0 <==> ml == 0) by (nonlinear_arith)
                requires
                    pow2(pl as nat) > 0,
                    dval(ml, pl) == ml as int * pow2(pl as nat),
            ;
            assert(dval(mr, pr) == 0 <==> mr == 0) by (nonlinear_arith)
                requires
                    pow2(pr as nat) > 0,
                    dval(mr, pr) == mr as int * pow2(pr as nat),
            ;
            if ml != 0 && mr != 0 {
                lemma_mag_order(ml, pl, mr, pr);
            }
        }
        let mag_lt = pl < pr || (pl == pr && ml < mr);
        let mag_gt = pr < pl || (pl == pr && mr < ml);
        let u_lt = if ml == 0 && mr == 0 {
            false
        } else if ml == 0 {
            sr == 0
        } else if mr == 0 {
            sl == 1
        } else if sl != sr {
            sl == 1
        } else if sl == 0 {
            mag_lt
        } else {
            mag_gt
        };
        let u_eq = (ml == 0 && mr == 0) || (sl == sr && pl == pr && ml == mr);
        let apx = if sl == sr || ml == 0 || mr == 0 {
            if mag_lt {
                dyadic_diff_leq(mr, pr, ml, pl)
            } else {
                dyadic_diff_leq(ml, pl, mr, pr)
            }
        } else {
            dyadic_sum_leq(ml, pl, mr, pr)
        };
        proof {
            assert(u_lt == (units_of(l) < units_of(r)));
            assert(u_eq == (units_of(l) == units_of(r)));
            assert(apx == approx_eq(l, r));
        }
        match op {
            crate::ast::Operator::Eq => apx,
            crate::ast::Operator::Lt => u_lt && !apx,
            crate::ast::Operator::Gt => !u_lt && !u_eq && !apx,
            crate::ast::Operator::Le => u_lt || u_eq || apx,
            crate::ast::Operator::Ge => !u_lt || apx,
        }
    }
}

/// A finite encoding stays strictly below the infinity sentinel.
proof fn lemma_units_small(b: u64)
    requires
        is_finite(b),
    ensures
        -pow2(3000) < units_of(b) < pow2(3000),
{
    lemma2_to64();
        lemma2_to64_rest();
    assert(mant_of(b) < 0x20000000000000);
    assert(gexp_of(b) <= 2045);
    let m = mant_of(b);
    let p = gexp_of(b);
    lemma_pow2_pos(p);
    lemma_pow2_adds(53, p);
    assert(m * pow2(p) < pow2(53) * pow2(p)) by (nonlinear_arith)
        requires
            0 <= m < 0x20000000000000,
            0x20000000000000 == pow2(53),
            pow2(p) > 0,
    ;
    lemma_pow2_strictly_increases(53 + p, 3000);
    assert(m * pow2(p) >= 0) by (nonlinear_arith)
        requires
            m >= 0,
            pow2(p) > 0,
    ;
    assert(((-1) * m) * pow2(p) == -(m * pow2(p))) by (nonlinear_arith);
    assert((1 * m) * pow2(p) == m * pow2(p)) by (nonlinear_arith);
}

/// The sign, mantissa and power fields determine the exact value.
proof fn lemma_units_shape(b: u64)
    requires
        is_finite(b),
    ensures
        sign_of(b) == 1 ==> units_of(b) == -(mant_of(b) * pow2(gexp_of(b))),
        sign_of(b) != 1 ==> units_of(b) == mant_of(b) * pow2(gexp_of(b)),
        mant_of(b) * pow2(gexp_of(b)) >= 0,
        mant_of(b) == 0 <==> units_of(b) == 0,
{
    lemma_pow2_pos(gexp_of(b));
    let m = mant_of(b);
    let p = gexp_of(b);
    assert(((-1) * m) * pow2(p) == -(m * pow2(p))) by (nonlinear_arith);
    assert((1 * m) * pow2(p) == m * pow2(p)) by (nonlinear_arith);
    assert(m * pow2(p) >= 0 && (m * pow2(p) == 0 <==> m == 0)) by (nonlinear_arith)
        requires
            m >= 0,
            pow2(p) > 0,
    ;
}


/// A decimal digit.
pub open spec fn is_digit(c: char) -> bool {
    48 <= c as u32 <= 57
}

pub open spec fn all_digits(s: Seq<char>) -> bool {
    forall|i: int| 0 <= i < s.len() ==> is_digit(s[i])
}

/// Position of the first `'.'` at or after `i`, or the length.
pub open spec fn dot_pos(s: Seq<char>, i: int) -> int
    decreases s.len() - i,
{
    if i < 0 || i >= s.len() {
        s.len() as int
    } else if s[i] == '.' {
        i
    } else {
        dot_pos(s, i + 1)
    }
}

/// Position of the first character at or after `i` that is not `'0'`,
/// or the length.
pub open spec fn nonzero_pos(s: Seq<char>, i: int) -> int
    decreases s.len() - i,
{
    if i < 0 || i >= s.len() {
        s.len() as int
    } else if s[i] != '0' {
        i
    } else {
        nonzero_pos(s, i + 1)
    }
}

pub open spec fn sign_seq(neg: bool) -> Seq<char> {
    if neg {
        seq!['-']
    } else {
        Seq::<char>::empty()
    }
}

/// Integer part with leading zeros removed, keeping a single zero.
pub open spec fn strip_zeros(ip: Seq<char>) -> Seq<char> {
    let z = nonzero_pos(ip, 0);
    if z == ip.len() {
        seq!['0']
    } else {
        ip.skip(z)
    }
}

/// Canonical JSON spelling of a decimal token `[+-] digits [ '.' digits ]`,
/// or `None` when the token does not fit that grammar.
pub open spec fn spec_canonical_decimal(s: Seq<char>) -> Option<Seq<char>> {
    let neg = s.len() > 0 && s[0] == '-';
    let body = if s.len() > 0 && (s[0] == '-' || s[0] == '+') {
        s.skip(1)
    } else {
        s
    };
    let d = dot_pos(body, 0);
    let ip = body.take(d);
    if d == body.len() {
        if ip.len() >= 1 && all_digits(ip) {
            Some(sign_seq(neg) + strip_zeros(ip))
        } else {
            None
        }
    } else {
        let fp = body.skip(d + 1);
        if ip.len() >= 1 && fp.len() >= 1 && all_digits(ip) && all_digits(fp) {
            Some(sign_seq(neg) + strip_zeros(ip) + seq!['.'] + fp)
        } else {
            None
        }
    }
}

/// Decomposition of a text as a JSON number without exponent:
/// an optional minus, an integer part without a spurious leading zero,
/// and an optional non-empty fraction.
pub open spec fn json_number_parts(s: Seq<char>, neg: bool, ip: Seq<char>, fp: Seq<char>) -> bool {
    &&& s == sign_seq(neg) + ip + (if fp.len() == 0 {
        Seq::<char>::empty()
    } else {
        seq!['.'] + fp
    })
    &&& ip.len() >= 1
    &&& all_digits(ip)
    &&& (ip.len() == 1 || ip[0] != '0')
    &&& all_digits(fp)
}

/// The text is a JSON number without exponent.
pub open spec fn is_json_number(s: Seq<char>) -> bool {
    exists|neg: bool, ip: Seq<char>, fp: Seq<char>| json_number_parts(s, neg, ip, fp)
}

/// What serde_json returns for a JSON number text: the bit pattern of its
/// double-precision value, or nothing when the value overflows the double
/// range.
pub uninterp spec fn json_number_bits(s: Seq<char>) -> Option<u64>;

/// Relies on serde_json: `from_str::<serde_json::Number>` accepts every JSON
/// number text, yields the double-precision value of the decimal (declining
/// it only when that value falls outside the finite double range), and
/// `as_f64` hands the value out so its bit pattern can be taken.
#[verifier::external_body]
fn parse_number_bits(s: &str) -> (r: Option<u64>)
    ensures
        is_json_number(s@) ==> r == json_number_bits(s@),
{
    match serde_json::from_str::<serde_json::Number>(s) {
        Ok(n) => n.as_f64().map(|x| x.to_bits()),
        Err(_) => None,
    }
}

/// Value of a canonical decimal text: what the JSON parser returns, or the
/// infinity of the proper sign when the value overflows the double range.
pub open spec fn spec_decimal_bits(c: Seq<char>) -> u64 {
    match json_number_bits(c) {
        Some(b) => b,
        None => if c.len() > 0 && c[0] == '-' {
            NEG_INF_BITS
        } else {
            INF_BITS
        },
    }
}

fn char_is_digit(c: char) -> (r: bool)
    ensures
        r == is_digit(c),
{
    let u = c as u32;
    48 <= u && u <= 57
}

/// `dot_pos` stays within bounds, the run before it is dot-free, and it
/// lands on a dot when it is not the length.
proof fn lemma_dot_pos_bounds(s: Seq<char>, i: int)
    requires
        0 <= i <= s.len(),
    ensures
        i <= dot_pos(s, i) <= s.len(),
        dot_pos(s, i) < s.len() ==> s[dot_pos(s, i)] == '.',
    decreases s.len() - i,
{
    if i < s.len() && s[i] != '.' {
        lemma_dot_pos_bounds(s, i + 1);
    }
}

/// Scans `[i, to)` of `s` up to the first `'.'`, checking for digits;
/// returns the dot position (or `to`) and whether all scanned were digits.
fn scan_digits_to_dot(s: &str, i: usize, to: usize) -> (r: (usize, bool))
    requires
        i <= to <= s@.len(),
    ensures
        ({
            let sub = s@.subrange(i as int, to as int);
            let d = dot_pos(sub, 0);
            &&& r.0 == i + d
            &&& r.1 == all_digits(sub.take(d))
        }),
{
    let ghost sub = s@.subrange(i as int, to as int);
    let mut j = i;
    let mut ok = true;
    while j < to && s.get_char(j) != '.'
        invariant
            i <= j <= to <= s@.len(),
            sub == s@.subrange(i as int, to as int),
            forall|k: int| i <= k < j ==> s@[k] != '.',
            ok <==> (forall|k: int| i <= k < j ==> is_digit(s@[k])),
        decreases to - j,
    {
        if !char_is_digit(s.get_char(j)) {
            ok = false;
        }
        j = j + 1;
    }
    proof {
        let d = j - i;
        assert forall|k: int| 0 <= k < sub.len() implies sub[k] == s@[i + k] by {}
        lemma_dot_pos_run(sub, 0, d);
        assert(dot_pos(sub, 0) == d);
        if ok {
            assert forall|m: int| 0 <= m < d implies is_digit(sub.take(d)[m]) by {
                assert(sub.take(d)[m] == s@[i + m]);
            }
        } else {
            let k = choose|k: int| i <= k < j && !is_digit(s@[k]);
            assert(sub.take(d)[k - i] == s@[k]);
            assert(!all_digits(sub.take(d)));
        }
    }
    (j, ok)
}

/// When no dot stands in `[i, j)` and `j` is the end or a dot, the first
/// dot from `i` is at `j`.
proof fn lemma_dot_pos_run(s: Seq<char>, i: int, j: int)
    requires
        0 <= i <= j <= s.len(),
        forall|k: int| i <= k < j ==> s[k] != '.',
        j == s.len() || s[j] == '.',
    ensures
        dot_pos(s, i) == j,
    decreases j - i,
{
    if i < j {
        lemma_dot_pos_run(s, i + 1, j);
    }
}

/// Checks that `[i, to)` holds one or more digits.
fn scan_all_digits(s: &str, i: usize, to: usize) -> (r: bool)
    requires
        i <= to <= s@.len(),
    ensures
        r == (to - i >= 1 && all_digits(s@.subrange(i as int, to as int))),
{
    let ghost sub = s@.subrange(i as int, to as int);
    if i == to {
        return false;
    }
    let mut j = i;
    let mut ok = true;
    while j < to
        invariant
            i <= j <= to <= s@.len(),
            ok <==> (forall|k: int| i <= k < j ==> is_digit(s@[k])),
        decreases to - j,
    {
        if !char_is_digit(s.get_char(j)) {
            ok = false;
        }
        j = j + 1;
    }
    proof {
        assert forall|k: int| 0 <= k < sub.len() implies sub[k] == s@[i + k] by {}
        if ok {
            assert forall|m: int| 0 <= m < sub.len() implies is_digit(sub[m]) by {
                assert(sub[m] == s@[i + m]);
            }
        } else {
            let k = choose|k: int| i <= k < to && !is_digit(s@[k]);
            assert(sub[k - i] == s@[k]);
            assert(!all_digits(sub));
        }
    }
    ok
}

/// Canonicalizes the decimal token in `[from, to)` of `s`:
/// drops a `'+'`, strips leading zeros of the integer part, and keeps the
/// fraction, yielding the canonical JSON spelling of the same value.
fn canonical_decimal(s: &str, from: usize, to: usize) -> (r: Option<String>)
    requires
        from <= to <= s@.len(),
    ensures
        ({
            let c = spec_canonical_decimal(s@.subrange(from as int, to as int));
            match r {
                Some(out) => c == Some(out@),
                None => c is None,
            }
        }),
{
    let ghost sub = s@.subrange(from as int, to as int);
    let mut i = from;
    let mut neg = false;
    if i < to {
        let c0 = s.get_char(i);
        if c0 == '-' || c0 == '+' {
            neg = c0 == '-';
            i = i + 1;
        }
    }
    let ghost body = if sub.len() > 0 && (sub[0] == '-' || sub[0] == '+') {
        sub.skip(1)
    } else {
        sub
    };
    proof {
        assert(body =~= s@.subrange(i as int, to as int));
        lemma_dot_pos_bounds(body, 0);
    }
    let (dot, ip_ok) = scan_digits_to_dot(s, i, to);
    proof {
        assert(body.take(dot_pos(body, 0)) =~= s@.subrange(i as int, dot as int));
    }
    if !ip_ok || dot == i {
        proof {
            let d = dot_pos(body, 0);
            assert(body.take(d) =~= s@.subrange(i as int, dot as int));
            if dot == i {
                assert(body.take(d).len() == 0);
            } else {
                assert(body.take(d) == s@.subrange(i as int, to as int).take(d));
                assert(!all_digits(body.take(d)));
            }
        }
        return None;
    }
    // strip leading zeros of the integer part, keeping one digit
    let ghost ipseq = s@.subrange(i as int, dot as int);
    let mut z = i;
    while z < dot && s.get_char(z) == '0'
        invariant
            i <= z <= dot,
            dot <= to <= s@.len(),
            i <= to,
            ipseq == s@.subrange(i as int, dot as int),
            forall|k: int| i <= k < z ==> s@[k] == '0',
        decreases dot - z,
    {
        z = z + 1;
    }
    proof {
        assert forall|k: int| 0 <= k < ipseq.len() implies ipseq[k] == s@[i + k] by {}
        lemma_nonzero_pos_run(ipseq, 0, z - i);
        assert(nonzero_pos(ipseq, 0) == z - i);
    }
    let mut out = String::new();
    if neg {
        out.append("-");
    }
    if z == dot {
        out.append("0");
    } else {
        out.append(s.substring_char(z, dot));
    }
    proof {
        reveal_strlit("-");
        reveal_strlit("0");
        if z == dot {
            assert(strip_zeros(ipseq) =~= seq!['0']);
        } else {
            assert(strip_zeros(ipseq) =~= s@.subrange(z as int, dot as int)) by {
                assert(ipseq.skip(z - i) =~= s@.subrange(z as int, dot as int));
            }
        }
        assert(out@ =~= sign_seq(neg) + strip_zeros(ipseq));
    }
    if dot == to {
        proof {
            assert(out@ =~= sign_seq(neg) + strip_zeros(body.take(dot_pos(body, 0))));
        }
        return Some(out);
    }
    // fraction part
    if !scan_all_digits(s, dot + 1, to) {
        proof {
            assert(body.skip(dot_pos(body, 0) + 1) =~= s@.subrange((dot + 1) as int, to as int));
        }
        return None;
    }
    out.append(".");
    out.append(s.substring_char(dot + 1, to));
    proof {
        reveal_strlit(".");
        assert(body.skip(dot_pos(body, 0) + 1) =~= s@.subrange((dot + 1) as int, to as int));
        assert(out@ =~= sign_seq(neg) + strip_zeros(body.take(dot_pos(body, 0))) + seq!['.']
            + body.skip(dot_pos(body, 0) + 1));
    }
    Some(out)
}

/// When only zeros stand in `[i, j)` and `j` is the end or a non-zero,
/// the first non-zero from `i` is at `j`.
proof fn lemma_nonzero_pos_run(s: Seq<char>, i: int, j: int)
    requires
        0 <= i <= j <= s.len(),
        forall|k: int| i <= k < j ==> s[k] == '0',
        j == s.len() || s[j] != '0',
    ensures
        nonzero_pos(s, i) == j,
    decreases j - i,
{
    if i < j {
        lemma_nonzero_pos_run(s, i + 1, j);
    }
}

/// A canonical decimal spelling is a JSON number.
proof fn lemma_canonical_is_json(s: Seq<char>, c: Seq<char>)
    requires
        spec_canonical_decimal(s) == Some(c),
    ensures
        is_json_number(c),
        c.len() >= 1,
        c[0] == '-' <==> (s.len() > 0 && s[0] == '-'),
{
    let neg = s.len() > 0 && s[0] == '-';
    let body = if s.len() > 0 && (s[0] == '-' || s[0] == '+') {
        s.skip(1)
    } else {
        s
    };
    let d = dot_pos(body, 0);
    let ip = body.take(d);
    let ip2 = strip_zeros(ip);
    let z = nonzero_pos(ip, 0);
    lemma_nonzero_pos_bounds(ip, 0);
    if z == ip.len() {
        assert(ip2 =~= seq!['0']);
        assert(is_digit('0'));
    } else {
        assert(ip2 =~= ip.skip(z));
        assert(ip2[0] == ip[z]);
        assert(ip[z] != '0');
        assert(forall|k: int| 0 <= k < ip2.len() ==> ip2[k] == ip[k + z]);
    }
    if d == body.len() {
        let fp = Seq::<char>::empty();
        assert(c =~= sign_seq(neg) + ip2 + (if fp.len() == 0 {
            Seq::<char>::empty()
        } else {
            seq!['.'] + fp
        }));
        assert(json_number_parts(c, neg, ip2, fp));
    } else {
        let fp = body.skip(d + 1);
        assert(c =~= sign_seq(neg) + ip2 + (if fp.len() == 0 {
            Seq::<char>::empty()
        } else {
            seq!['.'] + fp
        }));
        assert(json_number_parts(c, neg, ip2, fp));
    }
}

/// `nonzero_pos` stays within the bounds and marks a run of zeros.
proof fn lemma_nonzero_pos_bounds(s: Seq<char>, i: int)
    requires
        0 <= i <= s.len(),
    ensures
        i <= nonzero_pos(s, i) <= s.len(),
        nonzero_pos(s, i) < s.len() ==> s[nonzero_pos(s, i)] != '0',
    decreases s.len() - i,
{
    if i < s.len() && s[i] == '0' {
        lemma_nonzero_pos_bounds(s, i + 1);
    }
}

/// Reads the decimal token in `[from, to)` of `s` as a number: canonical
/// text plus the bit pattern of its double-precision value.
pub fn decimal_number(s: &str, from: usize, to: usize) -> (r: Option<crate::ast::Number>)
    requires
        from <= to <= s@.len(),
    ensures
        ({
            let c = spec_canonical_decimal(s@.subrange(from as int, to as int));
            match r {
                Some(n) => c == Some(n.text@) && n.bits == spec_decimal_bits(n.text@),
                None => c is None,
            }
        }),
{
    match canonical_decimal(s, from, to) {
        None => None,
        Some(text) => {
            proof {
                lemma_canonical_is_json(s@.subrange(from as int, to as int), text@);
            }
            let bits = match parse_number_bits(text.as_str()) {
                Some(b) => b,
                None => {
                    if text.as_str().get_char(0) == '-' {
                        NEG_INF_BITS
                    } else {
                        INF_BITS
                    }
                },
            };
            Some(crate::ast::Number { bits, text })
        },
    }
}

/// Numeric value of a digit string.
pub open spec fn digits_val(s: Seq<char>) -> int
    decreases s.len(),
{
    if s.len() == 0 {
        0
    } else {
        digits_val(s.drop_last()) * 10 + (s.last() as u32 - 48)
    }
}

proof fn lemma_digits_val_grows(s: Seq<char>, i: int)
    requires
        0 <= i <= s.len(),
        all_digits(s),
    ensures
        0 <= digits_val(s.take(i)) <= digits_val(s),
    decreases s.len() - i,
{
    if i == s.len() {
        assert(s.take(i) == s);
        lemma_digits_val_nonneg(s);
    } else {
        lemma_digits_val_grows(s, i + 1);
        lemma_digits_val_nonneg(s.take(i));
        assert(s.take(i + 1).drop_last() == s.take(i));
        assert(digits_val(s.take(i + 1)) == digits_val(s.take(i)) * 10 + (s[i] as u32 - 48));
    }
}

proof fn lemma_digits_val_nonneg(s: Seq<char>)
    ensures
        digits_val(s) >= 0 || !all_digits(s),
        all_digits(s) ==> digits_val(s) >= 0,
    decreases s.len(),
{
    if s.len() > 0 {
        lemma_digits_val_nonneg(s.drop_last());
        assert(all_digits(s) ==> all_digits(s.drop_last())) by {
            if all_digits(s) {
                assert(forall|k: int| 0 <= k < s.len() - 1 ==> s.drop_last()[k] == s[k]);
            }
        }
    }
}

/// Reads the digit run `[from, to)` of `s` as a `u64`; `None` when the
/// value exceeds the `u64` range.
pub fn parse_u64_digits(s: &str, from: usize, to: usize) -> (r: Option<u64>)
    requires
        from <= to <= s@.len(),
        all_digits(s@.subrange(from as int, to as int)),
    ensures
        ({
            let v = digits_val(s@.subrange(from as int, to as int));
            match r {
                Some(n) => n == v,
                None => v > u64::MAX,
            }
        }),
{
    let ghost sub = s@.subrange(from as int, to as int);
    let mut acc: u64 = 0;
    let mut j = from;
    while j < to
        invariant
            from <= j <= to <= s@.len(),
            sub == s@.subrange(from as int, to as int),
            all_digits(sub),
            acc == digits_val(sub.take(j - from)),
        decreases to - j,
    {
        proof {
            assert(sub[j - from] == s@[j as int]);
            assert(sub.take(j - from + 1).drop_last() == sub.take(j - from));
            lemma_digits_val_grows(sub, j - from + 1);
        }
        let c = s.get_char(j);
        let d = (c as u32) - 48;
        let step = match acc.checked_mul(10) {
            Some(m) => m.checked_add(d as u64),
            None => None,
        };
        match step {
            Some(n) => {
                acc = n;
            },
            None => {
                proof {
                    assert(digits_val(sub.take(j - from + 1)) > u64::MAX);
                }
                return None;
            },
        }
        j = j + 1;
    }
    proof {
        assert(sub.take(to - from) == sub);
    }
    Some(acc)
}


impl crate::ast::Number {
    /// Reads a decimal literal: the canonical text and the bit pattern of
    /// its double-precision value.
    pub fn from_decimal(s: &str) -> (r: Option<crate::ast::Number>)
        ensures
            ({
                let c = spec_canonical_decimal(s@);
                match r {
                    Some(n) => c == Some(n.text@) && n.bits == spec_decimal_bits(n.text@),
                    None => c is None,
                }
            }),
    {
        let n = s.unicode_len();
        proof {
            assert(s@.subrange(0, s@.len() as int) =~= s@);
        }
        decimal_number(s, 0, n)
    }
}

} // verus!
