//! The mathematical model of a scalar: a fraction of unbounded integers.
//!
//! Every executable scalar of this crate ([`crate::rat::Rat`]) is viewed as a
//! [`Frac`].  A well-formed value is kept *canonical*: the denominator is
//! positive and the fraction is fully reduced.  Canonical form makes value
//! equality coincide with structural equality, so the laws of this module —
//! commutativity, associativity, distributivity, inverses — are stated as
//! plain equalities between fractions.
//!
//! The operations first combine the two fractions into a raw pair
//! ([`addp`], [`mulp`]) and then reduce it with [`fnorm`].

use crate::gcd::divides;
use crate::gcd::gcd;
use crate::gcd::lemma_div_exact;
use crate::gcd::lemma_divides_neg;
use crate::gcd::lemma_divisor_of_gcd;
use crate::gcd::lemma_gcd_divides;
use crate::gcd::lemma_gcd_pos;
use crate::gcd::lemma_reduced_unique;
use vstd::arithmetic::div_mod::lemma_div_multiples_vanish;
use vstd::math::abs;
use vstd::prelude::*;

verus! {

/// A fraction `n / d` of unbounded integers.
pub ghost struct Frac {
    pub n: int,
    pub d: int,
}

/// A fraction whose denominator is positive.
pub open spec fn fwf(f: Frac) -> bool {
    f.d >= 1
}

/// Canonical form: positive denominator and no common factor.
pub open spec fn canonical(f: Frac) -> bool {
    &&& f.d >= 1
    &&& gcd(abs(f.n), f.d as nat) == 1
}

/// Value equality of two fractions, by cross-multiplication.
pub open spec fn veq(a: Frac, b: Frac) -> bool {
    a.n * b.d == b.n * a.d
}

/// The reduced form of a fraction with a positive denominator.
pub open spec fn fnorm(f: Frac) -> Frac {
    let g = gcd(abs(f.n), f.d as nat) as int;
    Frac { n: f.n / g, d: f.d / g }
}

/// The zero fraction.
pub open spec fn fzero() -> Frac {
    Frac { n: 0, d: 1 }
}

/// The unit fraction.
pub open spec fn fone() -> Frac {
    Frac { n: 1, d: 1 }
}

/// The fraction representing the integer `i`.
pub open spec fn ffrom_int(i: int) -> Frac {
    Frac { n: i, d: 1 }
}

/// Raw sum of two fractions, before reduction.
pub open spec fn addp(a: Frac, b: Frac) -> Frac {
    Frac { n: a.n * b.d + b.n * a.d, d: a.d * b.d }
}

/// Raw product of two fractions, before reduction.
pub open spec fn mulp(a: Frac, b: Frac) -> Frac {
    Frac { n: a.n * b.n, d: a.d * b.d }
}

/// Sum, in canonical form.
pub open spec fn fadd(a: Frac, b: Frac) -> Frac {
    fnorm(addp(a, b))
}

/// Negation; canonical form is preserved without renormalizing.
pub open spec fn fneg(a: Frac) -> Frac {
    Frac { n: -a.n, d: a.d }
}

/// Difference, in canonical form.
pub open spec fn fsub(a: Frac, b: Frac) -> Frac {
    fadd(a, fneg(b))
}

/// Product, in canonical form.
pub open spec fn fmul(a: Frac, b: Frac) -> Frac {
    fnorm(mulp(a, b))
}

/// Reciprocal of a non-zero fraction, in canonical form.
pub open spec fn finv(a: Frac) -> Frac {
    if a.n < 0 {
        fnorm(Frac { n: -a.d, d: -a.n })
    } else {
        fnorm(Frac { n: a.d, d: a.n })
    }
}

/// Quotient by a non-zero fraction, in canonical form.
pub open spec fn fdiv(a: Frac, b: Frac) -> Frac {
    fmul(a, finv(b))
}

/// The constants are canonical.
pub proof fn lemma_consts_canonical()
    ensures
        canonical(fzero()),
        canonical(fone()),
        fneg(fzero()) == fzero(),
{
    reveal_with_fuel(gcd, 3);
}

/// An integer embeds as a canonical fraction.
pub proof fn lemma_from_int_canonical(i: int)
    ensures
        canonical(ffrom_int(i)),
{
    reveal_with_fuel(gcd, 3);
    assert(abs(i) % 1 == 0);
}

/// Reduction yields a canonical fraction equal in value to its input.
pub proof fn lemma_fnorm(f: Frac)
    requires
        fwf(f),
    ensures
        canonical(fnorm(f)),
        veq(fnorm(f), f),
        fwf(fnorm(f)),
        fnorm(f).n == 0 <==> f.n == 0,
{
    let g = gcd(abs(f.n), f.d as nat) as int;
    lemma_gcd_pos(abs(f.n), f.d as nat);
    lemma_gcd_divides(abs(f.n), f.d as nat);
    lemma_abs_divides(g, f.n);
    lemma_div_exact(f.n, g);
    lemma_div_exact(f.d, g);
    let r = fnorm(f);
    assert(g * r.n == f.n && g * r.d == f.d);
    assert(r.d >= 1) by (nonlinear_arith)
        requires
            g >= 1,
            g * r.d == f.d,
            f.d >= 1,
    ;
    assert(veq(r, f)) by (nonlinear_arith)
        requires
            g * r.n == f.n,
            g * r.d == f.d,
    ;
    assert(r.n == 0 <==> f.n == 0) by (nonlinear_arith)
        requires
            g >= 1,
            g * r.n == f.n,
    ;
    lemma_fnorm_reduced(f, g, r);
}

/// Helper: the quotient by the gcd is fully reduced.
proof fn lemma_fnorm_reduced(f: Frac, g: int, r: Frac)
    requires
        fwf(f),
        g == gcd(abs(f.n), f.d as nat) as int,
        r == fnorm(f),
        g >= 1,
        r.d >= 1,
        g * r.n == f.n,
        g * r.d == f.d,
    ensures
        gcd(abs(r.n), r.d as nat) == 1,
{
    let e = gcd(abs(r.n), r.d as nat) as int;
    lemma_gcd_pos(abs(r.n), r.d as nat);
    lemma_gcd_divides(abs(r.n), r.d as nat);
    lemma_abs_divides(e, r.n);
    let kn = choose|k: int| r.n == #[trigger] (e * k);
    let kd = choose|k: int| r.d as int == #[trigger] (e * k);
    assert(abs(f.n) as int == (e * g) * (if f.n >= 0 { kn } else { -kn })) by (nonlinear_arith)
        requires
            r.n == e * kn,
            g * r.n == f.n,
    ;
    assert(f.d == (e * g) * kd) by (nonlinear_arith)
        requires
            r.d as int == e * kd,
            g * r.d == f.d,
    ;
    assert(divides(e * g, abs(f.n) as int));
    assert(divides(e * g, f.d));
    lemma_divisor_of_gcd(e * g, abs(f.n), f.d as nat);
    let kg = choose|k: int| g == #[trigger] ((e * g) * k);
    assert(e == 1) by (nonlinear_arith)
        requires
            e >= 1,
            g >= 1,
            g == (e * g) * kg,
    ;
}

/// A divisor of `abs(n)` divides `n`.
proof fn lemma_abs_divides(e: int, n: int)
    requires
        divides(e, abs(n) as int),
    ensures
        divides(e, n),
{
    if n < 0 {
        lemma_divides_neg(e, abs(n) as int);
        assert(-(abs(n) as int) == n);
    }
}

/// Value equality is transitive across a well-formed middle term.
pub proof fn lemma_veq_trans(a: Frac, b: Frac, c: Frac)
    requires
        fwf(a),
        fwf(b),
        fwf(c),
        veq(a, b),
        veq(b, c),
    ensures
        veq(a, c),
{
    assert(a.n * c.d == c.n * a.d) by (nonlinear_arith)
        requires
            a.n * b.d == b.n * a.d,
            b.n * c.d == c.n * b.d,
            b.d >= 1,
    ;
}

/// Canonical fractions equal in value are equal.
pub proof fn lemma_veq_canonical(a: Frac, b: Frac)
    requires
        canonical(a),
        canonical(b),
        veq(a, b),
    ensures
        a == b,
{
    lemma_reduced_unique(a.n, a.d, b.n, b.d);
}

/// A canonical fraction with a zero numerator is the zero fraction.
pub proof fn lemma_canonical_zero(f: Frac)
    requires
        canonical(f),
    ensures
        f.n == 0 <==> f == fzero(),
{
    lemma_consts_canonical();
    if f.n == 0 {
        lemma_veq_canonical(f, fzero());
    }
}

/// Reducing two fractions of equal value gives the same canonical result.
pub proof fn lemma_fnorm_veq(a: Frac, b: Frac)
    requires
        fwf(a),
        fwf(b),
        veq(a, b),
    ensures
        fnorm(a) == fnorm(b),
{
    lemma_fnorm(a);
    lemma_fnorm(b);
    assert(veq(b, fnorm(b))) by (nonlinear_arith)
        requires
            veq(fnorm(b), b),
    ;
    lemma_veq_trans(fnorm(a), a, b);
    lemma_veq_trans(fnorm(a), b, fnorm(b));
    lemma_veq_canonical(fnorm(a), fnorm(b));
}

/// A canonical fraction reduces to itself.
pub proof fn lemma_fnorm_id(a: Frac)
    requires
        canonical(a),
    ensures
        fnorm(a) == a,
{
    lemma_fnorm(a);
    lemma_veq_canonical(fnorm(a), a);
}

/// The raw pair operations keep denominators positive.
pub proof fn lemma_pair_wf(a: Frac, b: Frac)
    requires
        fwf(a),
        fwf(b),
    ensures
        fwf(addp(a, b)),
        fwf(mulp(a, b)),
{
    assert(a.d * b.d >= 1) by (nonlinear_arith)
        requires
            a.d >= 1,
            b.d >= 1,
    ;
}

/// Sums and products of well-formed fractions are canonical.
pub proof fn lemma_ops_canonical(a: Frac, b: Frac)
    requires
        fwf(a),
        fwf(b),
    ensures
        canonical(fadd(a, b)),
        canonical(fmul(a, b)),
{
    lemma_pair_wf(a, b);
    lemma_fnorm(addp(a, b));
    lemma_fnorm(mulp(a, b));
}

/// Value equality preserves being zero.
pub proof fn lemma_veq_zero(a: Frac, b: Frac)
    requires
        fwf(a),
        fwf(b),
        veq(a, b),
    ensures
        a.n == 0 <==> b.n == 0,
{
    assert(a.n == 0 <==> b.n == 0) by (nonlinear_arith)
        requires
            a.n * b.d == b.n * a.d,
            a.d >= 1,
            b.d >= 1,
    ;
}

/// Replacing the left operand of a raw sum by an equal value keeps the value.
proof fn lemma_addp_cong_left(a: Frac, a2: Frac, b: Frac)
    requires
        fwf(a),
        fwf(a2),
        fwf(b),
        veq(a, a2),
    ensures
        veq(addp(a, b), addp(a2, b)),
{
    assert((a.n * b.d + b.n * a.d) * (a2.d * b.d) == (a2.n * b.d + b.n * a2.d) * (a.d * b.d))
        by (nonlinear_arith)
        requires
            a.n * a2.d == a2.n * a.d,
    ;
}

/// Replacing the right operand of a raw sum by an equal value keeps the value.
proof fn lemma_addp_cong_right(a: Frac, b: Frac, b2: Frac)
    requires
        fwf(a),
        fwf(b),
        fwf(b2),
        veq(b, b2),
    ensures
        veq(addp(a, b), addp(a, b2)),
{
    assert((a.n * b.d + b.n * a.d) * (a.d * b2.d) == (a.n * b2.d + b2.n * a.d) * (a.d * b.d))
        by (nonlinear_arith)
        requires
            b.n * b2.d == b2.n * b.d,
    ;
}

/// Replacing the right operand of a raw product by an equal value keeps the value.
proof fn lemma_mulp_cong_right(a: Frac, b: Frac, b2: Frac)
    requires
        fwf(a),
        fwf(b),
        fwf(b2),
        veq(b, b2),
    ensures
        veq(mulp(a, b), mulp(a, b2)),
{
    assert((a.n * b.n) * (a.d * b2.d) == (a.n * b2.n) * (a.d * b.d)) by (nonlinear_arith)
        requires
            b.n * b2.d == b2.n * b.d,
    ;
}

/// Addition is commutative.
pub proof fn lemma_fadd_comm(a: Frac, b: Frac)
    requires
        fwf(a),
        fwf(b),
    ensures
        fadd(a, b) == fadd(b, a),
{
    assert(addp(a, b) == addp(b, a)) by (nonlinear_arith);
}

/// Zero is the identity of addition.
pub proof fn lemma_fadd_zero(a: Frac)
    requires
        canonical(a),
    ensures
        fadd(a, fzero()) == a,
        fadd(fzero(), a) == a,
{
    assert(addp(a, fzero()) == a);
    assert(addp(fzero(), a) == a);
    lemma_fnorm_id(a);
}

/// Addition is associative.
pub proof fn lemma_fadd_assoc(a: Frac, b: Frac, c: Frac)
    requires
        fwf(a),
        fwf(b),
        fwf(c),
    ensures
        fadd(fadd(a, b), c) == fadd(a, fadd(b, c)),
{
    let ab = addp(a, b);
    let bc = addp(b, c);
    lemma_pair_wf(a, b);
    lemma_pair_wf(b, c);
    lemma_fnorm(ab);
    lemma_fnorm(bc);
    lemma_pair_wf(fnorm(ab), c);
    lemma_pair_wf(ab, c);
    lemma_pair_wf(a, fnorm(bc));
    lemma_pair_wf(a, bc);
    lemma_addp_cong_left(fnorm(ab), ab, c);
    lemma_addp_cong_right(a, fnorm(bc), bc);
    assert((a.n * b.d + b.n * a.d) * c.d + c.n * (a.d * b.d) == a.n * (b.d * c.d) + (b.n * c.d
        + c.n * b.d) * a.d) by (nonlinear_arith);
    assert((a.d * b.d) * c.d == a.d * (b.d * c.d)) by (nonlinear_arith);
    assert(addp(ab, c) == addp(a, bc));
    lemma_fnorm_veq(addp(fnorm(ab), c), addp(ab, c));
    lemma_fnorm_veq(addp(a, fnorm(bc)), addp(a, bc));
}

/// Multiplication is commutative.
pub proof fn lemma_fmul_comm(a: Frac, b: Frac)
    requires
        fwf(a),
        fwf(b),
    ensures
        fmul(a, b) == fmul(b, a),
{
    assert(mulp(a, b) == mulp(b, a)) by (nonlinear_arith);
}

/// One is the identity of multiplication, and zero annihilates.
pub proof fn lemma_fmul_one_zero(a: Frac)
    requires
        canonical(a),
    ensures
        fmul(a, fone()) == a,
        fmul(fone(), a) == a,
        fmul(a, fzero()) == fzero(),
        fmul(fzero(), a) == fzero(),
{
    lemma_consts_canonical();
    lemma_fnorm_id(a);
    assert(mulp(a, fone()) == a);
    assert(mulp(fone(), a) == a);
    assert(mulp(a, fzero()) == (Frac { n: 0, d: a.d * 1 }));
    assert(mulp(fzero(), a) == (Frac { n: 0, d: 1 * a.d }));
    assert(a.d * 1 >= 1 && 1 * a.d >= 1);
    assert(veq(Frac { n: 0, d: a.d * 1 }, fzero()));
    assert(veq(Frac { n: 0, d: 1 * a.d }, fzero()));
    lemma_fnorm_veq(Frac { n: 0, d: a.d * 1 }, fzero());
    lemma_fnorm_veq(Frac { n: 0, d: 1 * a.d }, fzero());
    lemma_fnorm_id(fzero());
}

/// Multiplication is associative.
pub proof fn lemma_fmul_assoc(a: Frac, b: Frac, c: Frac)
    requires
        fwf(a),
        fwf(b),
        fwf(c),
    ensures
        fmul(fmul(a, b), c) == fmul(a, fmul(b, c)),
{
    let ab = mulp(a, b);
    let bc = mulp(b, c);
    lemma_pair_wf(a, b);
    lemma_pair_wf(b, c);
    lemma_fnorm(ab);
    lemma_fnorm(bc);
    lemma_pair_wf(fnorm(ab), c);
    lemma_pair_wf(ab, c);
    lemma_pair_wf(a, fnorm(bc));
    lemma_pair_wf(a, bc);
    lemma_mulp_cong_left_local(fnorm(ab), ab, c);
    lemma_mulp_cong_right(a, fnorm(bc), bc);
    assert((a.n * b.n) * c.n == a.n * (b.n * c.n)) by (nonlinear_arith);
    assert((a.d * b.d) * c.d == a.d * (b.d * c.d)) by (nonlinear_arith);
    assert(mulp(ab, c) == mulp(a, bc));
    lemma_fnorm_veq(mulp(fnorm(ab), c), mulp(ab, c));
    lemma_fnorm_veq(mulp(a, fnorm(bc)), mulp(a, bc));
}

/// Replacing the left operand of a raw product by an equal value keeps the value.
proof fn lemma_mulp_cong_left_local(a: Frac, a2: Frac, b: Frac)
    requires
        fwf(a),
        fwf(a2),
        fwf(b),
        veq(a, a2),
    ensures
        veq(mulp(a, b), mulp(a2, b)),
{
    assert((a.n * b.n) * (a2.d * b.d) == (a2.n * b.n) * (a.d * b.d)) by (nonlinear_arith)
        requires
            a.n * a2.d == a2.n * a.d,
    ;
}

/// Multiplication distributes over addition.
pub proof fn lemma_fdistrib(a: Frac, b: Frac, c: Frac)
    requires
        fwf(a),
        fwf(b),
        fwf(c),
    ensures
        fmul(a, fadd(b, c)) == fadd(fmul(a, b), fmul(a, c)),
{
    let bc = addp(b, c);
    let m = mulp(a, bc);
    let r = addp(mulp(a, b), mulp(a, c));
    lemma_pair_wf(b, c);
    lemma_fnorm(bc);
    lemma_pair_wf(a, fnorm(bc));
    lemma_pair_wf(a, bc);
    lemma_pair_wf(a, b);
    lemma_pair_wf(a, c);
    lemma_fnorm(mulp(a, b));
    lemma_fnorm(mulp(a, c));
    lemma_pair_wf(fnorm(mulp(a, b)), fnorm(mulp(a, c)));
    lemma_pair_wf(mulp(a, b), mulp(a, c));
    lemma_mulp_cong_right(a, fnorm(bc), bc);
    lemma_pair_wf(mulp(a, b), fnorm(mulp(a, c)));
    lemma_addp_cong_left(fnorm(mulp(a, b)), mulp(a, b), fnorm(mulp(a, c)));
    lemma_addp_cong_right(mulp(a, b), fnorm(mulp(a, c)), mulp(a, c));
    lemma_veq_trans(
        addp(fnorm(mulp(a, b)), fnorm(mulp(a, c))),
        addp(mulp(a, b), fnorm(mulp(a, c))),
        r,
    );
    assert((a.n * b.n) * (a.d * c.d) == a.d * (a.n * (b.n * c.d))) by (nonlinear_arith);
    assert((a.n * c.n) * (a.d * b.d) == a.d * (a.n * (c.n * b.d))) by (nonlinear_arith);
    assert(a.d * (a.n * (b.n * c.d)) + a.d * (a.n * (c.n * b.d)) == a.d * (a.n * (b.n * c.d + c.n
        * b.d))) by (nonlinear_arith);
    assert((a.d * b.d) * (a.d * c.d) == a.d * (a.d * (b.d * c.d))) by (nonlinear_arith);
    assert(r.n == a.d * m.n && r.d == a.d * m.d);
    assert(veq(r, m)) by (nonlinear_arith)
        requires
            r.n == a.d * m.n,
            r.d == a.d * m.d,
    ;
    lemma_fnorm_veq(mulp(a, fnorm(bc)), m);
    assert(fwf(r)) by (nonlinear_arith)
        requires
            r.d == a.d * m.d,
            a.d >= 1,
            m.d >= 1,
    ;
    lemma_fnorm_veq(addp(fnorm(mulp(a, b)), fnorm(mulp(a, c))), r);
    lemma_fnorm_veq(r, m);
}

/// Negation is canonical, involutive, and inverse to addition.
pub proof fn lemma_fneg(a: Frac)
    requires
        canonical(a),
    ensures
        canonical(fneg(a)),
        fneg(fneg(a)) == a,
        fadd(a, fneg(a)) == fzero(),
        fadd(fneg(a), a) == fzero(),
{
    lemma_consts_canonical();
    let p = addp(a, fneg(a));
    assert(a.n * a.d + (-a.n) * a.d == 0) by (nonlinear_arith);
    assert(a.d * a.d >= 1) by (nonlinear_arith)
        requires
            a.d >= 1,
    ;
    assert(p.n == 0 && p.d == a.d * a.d);
    assert(veq(p, fzero()));
    lemma_fnorm_veq(p, fzero());
    lemma_fnorm_id(fzero());
    lemma_fadd_comm(a, fneg(a));
}

/// Reduction commutes with negation.
pub proof fn lemma_fnorm_neg(f: Frac)
    requires
        fwf(f),
    ensures
        fnorm(fneg(f)) == fneg(fnorm(f)),
{
    let g = gcd(abs(f.n), f.d as nat) as int;
    lemma_gcd_pos(abs(f.n), f.d as nat);
    lemma_gcd_divides(abs(f.n), f.d as nat);
    lemma_abs_divides(g, f.n);
    lemma_div_exact(f.n, g);
    assert(abs(-f.n) == abs(f.n));
    assert(-f.n == g * (-(f.n / g))) by (nonlinear_arith)
        requires
            g * (f.n / g) == f.n,
    ;
    lemma_div_multiples_vanish(-(f.n / g), g);
}

/// Multiplying by a negated factor negates the product.
pub proof fn lemma_fmul_neg(a: Frac, b: Frac)
    requires
        fwf(a),
        fwf(b),
    ensures
        fmul(fneg(a), b) == fneg(fmul(a, b)),
        fmul(a, fneg(b)) == fneg(fmul(a, b)),
{
    lemma_pair_wf(a, b);
    assert(mulp(fneg(a), b) == fneg(mulp(a, b))) by (nonlinear_arith);
    assert(mulp(a, fneg(b)) == fneg(mulp(a, b))) by (nonlinear_arith);
    lemma_fnorm_neg(mulp(a, b));
}

/// A product is zero exactly when one factor is.
pub proof fn lemma_fmul_zero_iff(a: Frac, b: Frac)
    requires
        fwf(a),
        fwf(b),
    ensures
        fmul(a, b).n == 0 <==> a.n == 0 || b.n == 0,
{
    lemma_pair_wf(a, b);
    lemma_fnorm(mulp(a, b));
    assert(a.n * b.n == 0 <==> a.n == 0 || b.n == 0) by (nonlinear_arith);
}

/// The reciprocal of a non-zero canonical fraction is its multiplicative
/// inverse.
pub proof fn lemma_finv(a: Frac)
    requires
        canonical(a),
        a.n != 0,
    ensures
        canonical(finv(a)),
        finv(a).n != 0,
        fmul(a, finv(a)) == fone(),
        fmul(finv(a), a) == fone(),
{
    lemma_consts_canonical();
    let s = if a.n < 0 {
        Frac { n: -a.d, d: -a.n }
    } else {
        Frac { n: a.d, d: a.n }
    };
    assert(fwf(s));
    lemma_fnorm(s);
    lemma_pair_wf(a, fnorm(s));
    lemma_pair_wf(a, s);
    lemma_mulp_cong_right(a, fnorm(s), s);
    if a.n < 0 {
        assert(a.n * -a.d == a.d * -a.n) by (nonlinear_arith);
    } else {
        assert(a.n * a.d == a.d * a.n) by (nonlinear_arith);
    }
    assert(veq(mulp(a, s), fone()));
    lemma_fnorm_veq(mulp(a, fnorm(s)), mulp(a, s));
    lemma_fnorm_veq(mulp(a, s), fone());
    lemma_fnorm_id(fone());
    lemma_fmul_comm(a, finv(a));
}

} // verus!
