//! Divisibility and greatest common divisors.
//!
//! The scalar type of this crate keeps every fraction in reduced form, and
//! the contracts of its arithmetic speak of that reduced form.  This module
//! supplies the number theory those contracts rest on: Euclid's recursion,
//! the fact that the gcd divides both arguments, Bézout coefficients, and
//! the uniqueness of a reduced fraction.

use vstd::arithmetic::div_mod::lemma_div_multiples_vanish;
use vstd::arithmetic::div_mod::lemma_fundamental_div_mod;
use vstd::math::abs;
use vstd::prelude::*;

verus! {

/// `d` divides `n` exactly: some integer multiple of `d` equals `n`.
pub open spec fn divides(d: int, n: int) -> bool {
    exists|k: int| n == #[trigger] (d * k)
}

/// Greatest common divisor by Euclid's recursion; `gcd(a, 0) == a`.
pub open spec fn gcd(a: nat, b: nat) -> nat
    decreases b,
{
    if b == 0 {
        a
    } else {
        gcd(b, a % b)
    }
}

/// Anything divides zero, and every number divides itself.
pub proof fn lemma_divides_basics(d: int)
    ensures
        divides(d, 0),
        divides(d, d),
{
    assert(0 == d * 0);
    assert(d == d * 1);
}

/// Divisibility is indifferent to the sign of the dividend.
pub proof fn lemma_divides_neg(d: int, n: int)
    requires
        divides(d, n),
    ensures
        divides(d, -n),
{
    let k = choose|k: int| n == #[trigger] (d * k);
    assert(-n == d * (-k)) by (nonlinear_arith)
        requires
            n == d * k,
    ;
}

/// A divisor of two numbers divides any integer combination of them.
pub proof fn lemma_divides_combo(d: int, a: int, b: int, x: int, y: int)
    requires
        divides(d, a),
        divides(d, b),
    ensures
        divides(d, a * x + b * y),
{
    let ka = choose|k: int| a == #[trigger] (d * k);
    let kb = choose|k: int| b == #[trigger] (d * k);
    assert(a * x + b * y == d * (ka * x + kb * y)) by (nonlinear_arith)
        requires
            a == d * ka,
            b == d * kb,
    ;
}

/// The gcd divides both of its arguments.
pub proof fn lemma_gcd_divides(a: nat, b: nat)
    ensures
        divides(gcd(a, b) as int, a as int),
        divides(gcd(a, b) as int, b as int),
    decreases b,
{
    if b == 0 {
        lemma_divides_basics(a as int);
    } else {
        lemma_gcd_divides(b, a % b);
        let g = gcd(b, a % b) as int;
        let k1 = choose|k: int| b as int == #[trigger] (g * k);
        let k2 = choose|k: int| (a % b) as int == #[trigger] (g * k);
        lemma_fundamental_div_mod(a as int, b as int);
        assert(a as int == g * (k1 * (a as int / b as int) + k2)) by (nonlinear_arith)
            requires
                a as int == b as int * (a as int / b as int) + (a % b) as int,
                b as int == g * k1,
                (a % b) as int == g * k2,
        ;
    }
}

/// The gcd is positive as soon as one argument is.
pub proof fn lemma_gcd_pos(a: nat, b: nat)
    requires
        a > 0 || b > 0,
    ensures
        gcd(a, b) > 0,
    decreases b,
{
    if b > 0 {
        lemma_gcd_pos(b, a % b);
    }
}

/// Bézout coefficients: returns `(x, y)` with `a * x + b * y == gcd(a, b)`.
pub proof fn lemma_bezout(a: nat, b: nat) -> (r: (int, int))
    ensures
        a as int * r.0 + b as int * r.1 == gcd(a, b) as int,
    decreases b,
{
    if b == 0 {
        (1, 0)
    } else {
        let (x, y) = lemma_bezout(b, a % b);
        let q = a as int / b as int;
        lemma_fundamental_div_mod(a as int, b as int);
        assert(a as int * y + b as int * (x - q * y) == gcd(b, a % b) as int)
            by (nonlinear_arith)
            requires
                a as int == b as int * q + (a % b) as int,
                b as int * x + (a % b) as int * y == gcd(b, a % b) as int,
        ;
        (y, x - q * y)
    }
}

/// A common divisor of `a` and `b` divides their gcd.
pub proof fn lemma_divisor_of_gcd(c: int, a: nat, b: nat)
    requires
        divides(c, a as int),
        divides(c, b as int),
    ensures
        divides(c, gcd(a, b) as int),
{
    let (x, y) = lemma_bezout(a, b);
    lemma_divides_combo(c, a as int, b as int, x, y);
}

/// Euclid's lemma for coprime factors: if `b` divides `a * d` and shares no
/// factor with `a`, then `b` divides `d` itself.
pub proof fn lemma_coprime_divides(a: nat, b: nat, d: nat)
    requires
        gcd(a, b) == 1,
        divides(b as int, a as int * d as int),
    ensures
        divides(b as int, d as int),
{
    let (x, y) = lemma_bezout(a, b);
    let k = choose|k: int| a as int * d as int == #[trigger] (b as int * k);
    assert(d as int == b as int * (k * x + d as int * y)) by (nonlinear_arith)
        requires
            a as int * x + b as int * y == 1,
            a as int * d as int == b as int * k,
    ;
}

/// Exact division: if `g` divides `m`, the quotient times `g` gives `m` back.
pub proof fn lemma_div_exact(m: int, g: int)
    requires
        g >= 1,
        divides(g, m),
    ensures
        g * (m / g) == m,
{
    let k = choose|k: int| m == #[trigger] (g * k);
    lemma_div_multiples_vanish(k, g);
}

/// The gcd does not depend on the order of its arguments.
pub proof fn lemma_gcd_comm(a: nat, b: nat)
    ensures
        gcd(a, b) == gcd(b, a),
{
    if a == 0 && b == 0 {
        reveal_with_fuel(gcd, 2);
    } else {
        lemma_gcd_divides(a, b);
        lemma_gcd_divides(b, a);
        lemma_divisor_of_gcd(gcd(a, b) as int, b, a);
        lemma_divisor_of_gcd(gcd(b, a) as int, a, b);
        lemma_gcd_pos(a, b);
        lemma_gcd_pos(b, a);
        lemma_mutual_divides(gcd(a, b) as int, gcd(b, a) as int);
    }
}

/// Two positive numbers that divide each other are equal.
pub proof fn lemma_mutual_divides(a: int, b: int)
    requires
        a >= 1,
        b >= 1,
        divides(a, b),
        divides(b, a),
    ensures
        a == b,
{
    let k1 = choose|k: int| b == #[trigger] (a * k);
    let k2 = choose|k: int| a == #[trigger] (b * k);
    assert(a == b) by (nonlinear_arith)
        requires
            a >= 1,
            b >= 1,
            b == a * k1,
            a == b * k2,
    ;
}

/// A fraction in reduced form is unique: two reduced fractions with positive
/// denominators that represent the same value are equal componentwise.
pub proof fn lemma_reduced_unique(pn: int, pd: int, qn: int, qd: int)
    requires
        pd >= 1,
        qd >= 1,
        gcd(abs(pn), pd as nat) == 1,
        gcd(abs(qn), qd as nat) == 1,
        pn * qd == qn * pd,
    ensures
        pn == qn,
        pd == qd,
{
    lemma_divides_on_cross(pn, pd, qn, qd);
    lemma_divides_on_cross(qn, qd, pn, pd);
    lemma_mutual_divides(pd, qd);
    assert(pn == qn) by (nonlinear_arith)
        requires
            pd == qd,
            pd >= 1,
            pn * qd == qn * pd,
    ;
}

/// Helper for uniqueness: the denominator of one reduced fraction divides
/// the denominator of any equal fraction.
proof fn lemma_divides_on_cross(pn: int, pd: int, qn: int, qd: int)
    requires
        pd >= 1,
        qd >= 1,
        gcd(abs(pn), pd as nat) == 1,
        pn * qd == qn * pd,
    ensures
        divides(pd, qd),
{
    assert(pn * qd == pd * qn) by (nonlinear_arith)
        requires
            pn * qd == qn * pd,
    ;
    assert(divides(pd, pn * qd));
    if pn >= 0 {
        lemma_coprime_divides(abs(pn), pd as nat, qd as nat);
    } else {
        lemma_divides_neg(pd, pn * qd);
        assert(-(pn * qd) == abs(pn) as int * qd) by (nonlinear_arith)
            requires
                pn < 0,
                abs(pn) == -pn,
        ;
        lemma_coprime_divides(abs(pn), pd as nat, qd as nat);
    }
}

} // verus!
