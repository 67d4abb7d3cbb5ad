//! The executable scalar: an exact rational held in canonical form.
//!
//! A [`Rat`] is a fraction of two `i64` values with a positive denominator
//! and no common factor, so equal values are structurally equal.  Arithmetic
//! is exact: addition, subtraction and multiplication compute through `i128`
//! intermediates, reduce the result, and return `None` when the reduced
//! result does not fit back into `i64` — overflow is reported, never
//! wrapped or rounded.  Negation and the reciprocal of a non-zero value
//! always fit and are total.

use crate::frac::canonical;
use crate::frac::fadd;
use crate::frac::fdiv;
use crate::frac::finv;
use crate::frac::fmul;
use crate::frac::fneg;
use crate::frac::fnorm;
use crate::frac::fone;
use crate::frac::fsub;
use crate::frac::fzero;
use crate::frac::lemma_consts_canonical;
use crate::frac::lemma_fnorm;
use crate::frac::lemma_from_int_canonical;
use crate::frac::lemma_pair_wf;
use crate::frac::Frac;
use crate::gcd::gcd;
use crate::gcd::lemma_div_exact;
use crate::gcd::lemma_gcd_comm;
use crate::gcd::lemma_gcd_divides;
use crate::gcd::lemma_gcd_pos;
use vstd::arithmetic::div_mod::lemma_div_multiples_vanish;
use vstd::math::abs;
use vstd::prelude::*;

verus! {

/// An exact rational number in canonical form.
#[derive(Clone, Copy, Debug, PartialEq, Eq, Structural)]
pub struct Rat {
    num: i64,
    den: i64,
}

impl View for Rat {
    type V = Frac;

    closed spec fn view(&self) -> Frac {
        Frac { n: self.num as int, d: self.den as int }
    }
}

/// A fraction that fits the executable representation: the numerator's
/// magnitude and the (positive) denominator both fit in an `i64`.
pub open spec fn fits(f: Frac) -> bool {
    &&& abs(f.n) <= i64::MAX as int
    &&& 1 <= f.d <= i64::MAX as int
}

/// The value of a well-formed scalar: canonical and representable.
pub open spec fn rat_wf(f: Frac) -> bool {
    &&& canonical(f)
    &&& fits(f)
}

/// Checked sum: the exact sum when it fits, absent otherwise.
pub open spec fn cadd(a: Frac, b: Frac) -> Option<Frac> {
    if fits(fadd(a, b)) {
        Some(fadd(a, b))
    } else {
        None
    }
}

/// Checked difference: the exact difference when it fits, absent otherwise.
pub open spec fn csub(a: Frac, b: Frac) -> Option<Frac> {
    if fits(fsub(a, b)) {
        Some(fsub(a, b))
    } else {
        None
    }
}

/// Checked product: the exact product when it fits, absent otherwise.
pub open spec fn cmul(a: Frac, b: Frac) -> Option<Frac> {
    if fits(fmul(a, b)) {
        Some(fmul(a, b))
    } else {
        None
    }
}

/// Checked quotient by a non-zero divisor.
pub open spec fn cdiv(a: Frac, b: Frac) -> Option<Frac> {
    if fits(fdiv(a, b)) {
        Some(fdiv(a, b))
    } else {
        None
    }
}

/// The canonical fraction denoted by an arbitrary numerator/denominator
/// pair with a non-zero denominator.
pub open spec fn fred(f: Frac) -> Frac {
    if f.d < 0 {
        fnorm(Frac { n: -f.n, d: -f.d })
    } else {
        fnorm(f)
    }
}

impl Rat {
    /// Well-formed: canonical and within the executable range.
    pub open spec fn wf(self) -> bool {
        rat_wf(self@)
    }

    /// The rational `num / den`.  Returns `None` when `den` is zero or when
    /// the reduced fraction does not fit the executable range.
    pub fn new(num: i64, den: i64) -> (r: Option<Rat>)
        ensures
            den == 0 ==> r is None,
            den != 0 ==> {
                let f = fred(Frac { n: num as int, d: den as int });
                &&& r is Some <==> fits(f)
                &&& (r is Some ==> r.unwrap().wf() && r.unwrap()@ == f)
            },
    {
        if den == 0 {
            return None;
        }
        let mut n128: i128 = num as i128;
        let mut d128: i128 = den as i128;
        if d128 < 0 {
            n128 = -n128;
            d128 = -d128;
        }
        reduce_i128(n128, d128)
    }

    /// The rational equal to the integer `n`.
    pub fn from_int(n: i64) -> (r: Rat)
        requires
            n > i64::MIN,
        ensures
            r.wf(),
            r@ == (Frac { n: n as int, d: 1 }),
    {
        proof {
            lemma_from_int_canonical(n as int);
        }
        Rat { num: n, den: 1 }
    }

    /// The zero rational.
    pub fn zero() -> (r: Rat)
        ensures
            r.wf(),
            r@ == fzero(),
    {
        proof {
            lemma_consts_canonical();
        }
        Rat { num: 0, den: 1 }
    }

    /// The unit rational.
    pub fn one() -> (r: Rat)
        ensures
            r.wf(),
            r@ == fone(),
    {
        proof {
            lemma_consts_canonical();
        }
        Rat { num: 1, den: 1 }
    }

    /// The numerator of the canonical form.
    pub fn numer(&self) -> (r: i64)
        ensures
            r as int == self@.n,
    {
        self.num
    }

    /// The denominator of the canonical form; positive for well-formed
    /// values.
    pub fn denom(&self) -> (r: i64)
        ensures
            r as int == self@.d,
    {
        self.den
    }

    /// Whether the value is exactly zero.
    pub fn is_zero(&self) -> (r: bool)
        ensures
            r <==> self@.n == 0,
    {
        self.num == 0
    }

    /// Exact negation; canonical form is preserved.
    pub fn neg(self) -> (r: Rat)
        requires
            self.wf(),
        ensures
            r.wf(),
            r@ == fneg(self@),
    {
        proof {
            assert(abs(-self@.n) == abs(self@.n));
        }
        Rat { num: -self.num, den: self.den }
    }

    /// Exact reciprocal of a non-zero value; always fits.
    pub fn recip(self) -> (r: Rat)
        requires
            self.wf(),
            self@.n != 0,
        ensures
            r.wf(),
            r@ == finv(self@),
            r@.n != 0,
    {
        let r = if self.num < 0 {
            Rat { num: -self.den, den: -self.num }
        } else {
            Rat { num: self.den, den: self.num }
        };
        proof {
            lemma_gcd_comm(abs(self@.n), self@.d as nat);
            assert(canonical(r@));
            lemma_fnorm(r@);
            crate::frac::lemma_fnorm_id(r@);
            assert(finv(self@) == fnorm(r@));
        }
        r
    }

    /// Checked exact sum.
    pub fn add(self, rhs: Rat) -> (r: Option<Rat>)
        requires
            self.wf(),
            rhs.wf(),
        ensures
            r is Some <==> cadd(self@, rhs@) is Some,
            r is Some ==> r.unwrap().wf() && r.unwrap()@ == cadd(self@, rhs@).unwrap(),
    {
        let a = self;
        let b = rhs;
        proof {
            lemma_i64_prod_bounds(a.num as int, b.den as int);
            lemma_i64_prod_bounds(b.num as int, a.den as int);
            lemma_i64_prod_bounds(a.den as int, b.den as int);
        }
        let n: i128 = a.num as i128 * b.den as i128 + b.num as i128 * a.den as i128;
        let d: i128 = a.den as i128 * b.den as i128;
        proof {
            lemma_pair_wf(a@, b@);
        }
        reduce_i128(n, d)
    }

    /// Checked exact difference.
    pub fn sub(self, rhs: Rat) -> (r: Option<Rat>)
        requires
            self.wf(),
            rhs.wf(),
        ensures
            r is Some <==> csub(self@, rhs@) is Some,
            r is Some ==> r.unwrap().wf() && r.unwrap()@ == csub(self@, rhs@).unwrap(),
    {
        self.add(rhs.neg())
    }

    /// Checked exact product.
    pub fn mul(self, rhs: Rat) -> (r: Option<Rat>)
        requires
            self.wf(),
            rhs.wf(),
        ensures
            r is Some <==> cmul(self@, rhs@) is Some,
            r is Some ==> r.unwrap().wf() && r.unwrap()@ == cmul(self@, rhs@).unwrap(),
    {
        let a = self;
        let b = rhs;
        proof {
            lemma_i64_prod_bounds(a.num as int, b.num as int);
            lemma_i64_prod_bounds(a.den as int, b.den as int);
        }
        let n: i128 = a.num as i128 * b.num as i128;
        let d: i128 = a.den as i128 * b.den as i128;
        proof {
            lemma_pair_wf(a@, b@);
        }
        reduce_i128(n, d)
    }

    /// Checked exact quotient by a non-zero divisor.
    pub fn div(self, rhs: Rat) -> (r: Option<Rat>)
        requires
            self.wf(),
            rhs.wf(),
            rhs@.n != 0,
        ensures
            r is Some <==> cdiv(self@, rhs@) is Some,
            r is Some ==> r.unwrap().wf() && r.unwrap()@ == cdiv(self@, rhs@).unwrap(),
    {
        self.mul(rhs.recip())
    }
}

/// Bounds of a product of two `i64`-range factors.
proof fn lemma_i64_prod_bounds(x: int, y: int)
    requires
        -(i64::MAX as int) <= x <= i64::MAX as int,
        -(i64::MAX as int) <= y <= i64::MAX as int,
    ensures
        -(i64::MAX as int * i64::MAX as int) <= x * y <= i64::MAX as int * i64::MAX as int,
        x >= 1 && y >= 1 ==> x * y >= 1,
{
    assert(-(i64::MAX as int * i64::MAX as int) <= x * y <= i64::MAX as int * i64::MAX as int)
        by (nonlinear_arith)
        requires
            -(i64::MAX as int) <= x <= i64::MAX as int,
            -(i64::MAX as int) <= y <= i64::MAX as int,
    ;
    assert(x >= 1 && y >= 1 ==> x * y >= 1) by (nonlinear_arith);
}

/// Euclid's algorithm on unsigned 128-bit integers.
fn gcd_u128(a0: u128, b0: u128) -> (g: u128)
    ensures
        g as nat == gcd(a0 as nat, b0 as nat),
{
    let mut a = a0;
    let mut b = b0;
    while b != 0
        invariant
            gcd(a as nat, b as nat) == gcd(a0 as nat, b0 as nat),
        decreases b,
    {
        let t = a % b;
        a = b;
        b = t;
    }
    a
}

/// Reduce a fraction of `i128` values with a positive denominator to
/// canonical form, if the result fits an `i64` pair.
fn reduce_i128(n: i128, d: i128) -> (r: Option<Rat>)
    requires
        1 <= d,
        n > i128::MIN,
    ensures
        r is Some <==> fits(fnorm(Frac { n: n as int, d: d as int })),
        r is Some ==> r.unwrap().wf() && r.unwrap()@ == fnorm(Frac { n: n as int, d: d as int }),
{
    let ghost f = Frac { n: n as int, d: d as int };
    proof {
        lemma_fnorm(f);
    }
    let neg = n < 0;
    let mag: u128 = if neg {
        (-n) as u128
    } else {
        n as u128
    };
    let du: u128 = d as u128;
    let g = gcd_u128(mag, du);
    proof {
        assert(mag as nat == abs(f.n));
        lemma_gcd_pos(abs(f.n), f.d as nat);
        lemma_gcd_divides(abs(f.n), f.d as nat);
    }
    let nq = mag / g;
    let dq = du / g;
    proof {
        let gi = g as int;
        lemma_div_exact(mag as int, gi);
        lemma_div_exact(du as int, gi);
        assert(nq as int == mag as int / gi);
        assert(dq as int == du as int / gi);
        if neg {
            assert(f.n == gi * (-(mag as int / gi))) by (nonlinear_arith)
                requires
                    gi * (mag as int / gi) == mag as int,
                    f.n == -(mag as int),
            ;
            lemma_div_multiples_vanish(-(mag as int / gi), gi);
            assert(f.n / gi == -(nq as int));
        } else {
            assert(f.n / gi == nq as int);
        }
        assert(fnorm(f).d == dq as int);
        assert(abs(fnorm(f).n) == nq as int);
    }
    if nq <= i64::MAX as u128 && dq <= i64::MAX as u128 {
        let num: i64 = if neg {
            -(nq as i64)
        } else {
            nq as i64
        };
        let den: i64 = dq as i64;
        Some(Rat { num, den })
    } else {
        None
    }
}

} // verus!
