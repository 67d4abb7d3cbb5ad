//! The quadratic-form capability and the shapes built on it.
//!
//! A shape supplies one symmetric `4 x 4` matrix `Q`; the implicit surface
//! is the set of homogeneous points `u` with `u^T Q u == 0`.  The derived
//! behaviors — implicit value, surface membership, surface gradient — are
//! implemented once, for every type supplying the capability.
//!
//! With exact arithmetic, surface membership is an exact test of the
//! residual against zero: it answers whether a point lies **on** the
//! surface, not inside the solid.

use crate::affine::column_spec;
use crate::affine::Point;
use crate::affine::Vector;
use crate::frac::finv;
use crate::frac::fmul;
use crate::frac::fneg;
use crate::frac::fone;
use crate::frac::fzero;
use crate::frac::lemma_canonical_zero;
use crate::frac::lemma_consts_canonical;
use crate::frac::lemma_fmul_zero_iff;
use crate::frac::Frac;
use crate::matrix::mat_add;
use crate::matrix::mat_add_ok;
use crate::matrix::mat_diagonal;
use crate::matrix::mat_mul;
use crate::matrix::mat_mul_ok;
use crate::matrix::mat_transpose;
use crate::matrix::rvec_view;
use crate::matrix::Matrix;
use crate::rat::cmul;
use crate::rat::Rat;
use vstd::prelude::*;

verus! {

/// A shape with an implicit-form residual.
pub trait ImplicitForm {
    /// The shape is fit to be evaluated.
    spec fn implicit_wf(&self) -> bool;

    /// The model of the residual at a homogeneous point.
    spec fn implicit_value_spec(&self, u: Seq<Seq<Frac>>) -> Frac;

    /// Whether the residual at `u` is representable.
    spec fn implicit_ok(&self, u: Seq<Seq<Frac>>) -> bool;

    /// The residual of the shape's implicit equation at `u`: negative
    /// inside, zero on the surface, positive outside for a standard
    /// ellipsoid form.  Absent exactly when an intermediate overflows.
    fn implicit_form_value(&self, u: &Point) -> (r: Option<Rat>)
        requires
            self.implicit_wf(),
            u.wf(),
        ensures
            r is Some <==> self.implicit_ok(u@),
            r is Some ==> r.unwrap().wf() && r.unwrap()@ == self.implicit_value_spec(u@),
    ;

    /// Whether `u` lies exactly on the surface: the residual is zero.
    fn contains_point(&self, u: &Point) -> (r: Option<bool>)
        requires
            self.implicit_wf(),
            u.wf(),
        ensures
            r is Some <==> self.implicit_ok(u@),
            r is Some ==> (r.unwrap() <==> self.implicit_value_spec(u@) == fzero()),
    ;
}

/// A shape with a surface gradient.
pub trait DifferentialForm {
    /// The shape is fit to be evaluated.
    spec fn differential_wf(&self) -> bool;

    /// The model of the gradient row `u^T (Q + Q^T)` at a homogeneous
    /// point.
    spec fn derivative_spec(&self, u: Seq<Seq<Frac>>) -> Seq<Seq<Frac>>;

    /// Whether the gradient at `u` is representable.
    spec fn derivative_ok(&self, u: Seq<Seq<Frac>>) -> bool;

    /// The surface gradient at `u`, as a displacement: the first three
    /// components of `u^T (Q + Q^T)`.
    fn derivative_at(&self, u: &Point) -> (r: Option<Vector>)
        requires
            self.differential_wf(),
            u.wf(),
        ensures
            r is Some <==> self.derivative_ok(u@),
            r is Some ==> ({
                let v = r.unwrap();
                &&& v.wf()
                &&& v@ == column_spec(
                    self.derivative_spec(u@)[0][0],
                    self.derivative_spec(u@)[0][1],
                    self.derivative_spec(u@)[0][2],
                    fzero(),
                )
            }),
    ;
}

/// A shape defined by one symmetric matrix in homogeneous coordinates.
pub trait QuadraticForm {
    /// The shape's parameters are well-formed.
    spec fn qform_wf(&self) -> bool;

    /// The model of the defining matrix.
    spec fn qform_spec(&self) -> Seq<Seq<Frac>>;

    /// The defining matrix `Q` of the surface `{u : u^T Q u == 0}`.
    fn quadratic_form_matrix(&self) -> (m: Matrix)
        requires
            self.qform_wf(),
        ensures
            m.wf(),
            m.nrows() == 4,
            m.ncols() == 4,
            m@ == self.qform_spec(),
    ;
}

impl<T: QuadraticForm> ImplicitForm for T {
    open spec fn implicit_wf(&self) -> bool {
        self.qform_wf()
    }

    open spec fn implicit_value_spec(&self, u: Seq<Seq<Frac>>) -> Frac {
        mat_mul(mat_mul(mat_transpose(u), self.qform_spec()), u)[0][0]
    }

    open spec fn implicit_ok(&self, u: Seq<Seq<Frac>>) -> bool {
        &&& mat_mul_ok(mat_transpose(u), self.qform_spec())
        &&& mat_mul_ok(mat_mul(mat_transpose(u), self.qform_spec()), u)
    }

    fn implicit_form_value(&self, u: &Point) -> (r: Option<Rat>) {
        let q = self.quadratic_form_matrix();
        let t = u.as_transpose();
        let tq = match t.mul(&q) {
            None => {
                return None;
            },
            Some(m) => m,
        };
        let m = match tq.mul(&u.as_matrix()) {
            None => {
                return None;
            },
            Some(m) => m,
        };
        Some(m.num())
    }

    fn contains_point(&self, u: &Point) -> (r: Option<bool>) {
        match self.implicit_form_value(u) {
            None => None,
            Some(v) => {
                proof {
                    lemma_canonical_zero(v@);
                }
                Some(v.is_zero())
            },
        }
    }
}

impl<T: QuadraticForm> DifferentialForm for T {
    open spec fn differential_wf(&self) -> bool {
        self.qform_wf()
    }

    open spec fn derivative_spec(&self, u: Seq<Seq<Frac>>) -> Seq<Seq<Frac>> {
        mat_mul(mat_transpose(u), mat_add(self.qform_spec(), mat_transpose(self.qform_spec())))
    }

    open spec fn derivative_ok(&self, u: Seq<Seq<Frac>>) -> bool {
        &&& mat_add_ok(self.qform_spec(), mat_transpose(self.qform_spec()))
        &&& mat_mul_ok(
            mat_transpose(u),
            mat_add(self.qform_spec(), mat_transpose(self.qform_spec())),
        )
    }

    fn derivative_at(&self, u: &Point) -> (r: Option<Vector>) {
        let q = self.quadratic_form_matrix();
        let qsum = match q.add(&q.transpose()) {
            None => {
                return None;
            },
            Some(m) => m,
        };
        let t = u.as_transpose();
        let row = match t.mul(&qsum) {
            None => {
                return None;
            },
            Some(m) => m,
        };
        Some(Vector::new(row.at(0, 0), row.at(0, 1), row.at(0, 2)))
    }
}

/// An axis-aligned ellipsoid centered at the origin, described by its
/// three curvature coefficients (the reciprocal squared radii).
pub struct Ellipsoid {
    a: Rat,
    b: Rat,
    c: Rat,
}

impl Ellipsoid {
    /// Well-formed: three well-formed curvature coefficients.
    pub open spec fn wf(self) -> bool {
        &&& self.ca().wf()
        &&& self.cb().wf()
        &&& self.cc().wf()
    }

    /// The first curvature coefficient.
    pub closed spec fn ca(self) -> Rat {
        self.a
    }

    /// The second curvature coefficient.
    pub closed spec fn cb(self) -> Rat {
        self.b
    }

    /// The third curvature coefficient.
    pub closed spec fn cc(self) -> Rat {
        self.c
    }

    /// An ellipsoid from its three curvature coefficients.
    pub fn with_curvatures(a: Rat, b: Rat, c: Rat) -> (r: Ellipsoid)
        requires
            a.wf(),
            b.wf(),
            c.wf(),
        ensures
            r.wf(),
            r.ca() == a,
            r.cb() == b,
            r.cc() == c,
    {
        Ellipsoid { a, b, c }
    }

    /// An ellipsoid from its three radii: the curvatures are the
    /// reciprocal squared radii.  A zero radius is rejected, and so is a
    /// radius whose square overflows.
    pub fn with_radii(rx: Rat, ry: Rat, rz: Rat) -> (r: Option<Ellipsoid>)
        requires
            rx.wf(),
            ry.wf(),
            rz.wf(),
        ensures
            r is Some <==> rx@.n != 0 && ry@.n != 0 && rz@.n != 0 && cmul(rx@, rx@) is Some && cmul(
                ry@,
                ry@,
            ) is Some && cmul(rz@, rz@) is Some,
            r is Some ==> ({
                let e = r.unwrap();
                &&& e.wf()
                &&& e.ca()@ == finv(fmul(rx@, rx@))
                &&& e.cb()@ == finv(fmul(ry@, ry@))
                &&& e.cc()@ == finv(fmul(rz@, rz@))
            }),
    {
        if rx.is_zero() || ry.is_zero() || rz.is_zero() {
            return None;
        }
        let sx = match rx.mul(rx) {
            None => {
                return None;
            },
            Some(v) => v,
        };
        let sy = match ry.mul(ry) {
            None => {
                return None;
            },
            Some(v) => v,
        };
        let sz = match rz.mul(rz) {
            None => {
                return None;
            },
            Some(v) => v,
        };
        proof {
            lemma_fmul_zero_iff(rx@, rx@);
            lemma_fmul_zero_iff(ry@, ry@);
            lemma_fmul_zero_iff(rz@, rz@);
        }
        Some(Ellipsoid { a: sx.recip(), b: sy.recip(), c: sz.recip() })
    }
}

impl QuadraticForm for Ellipsoid {
    open spec fn qform_wf(&self) -> bool {
        self.wf()
    }

    open spec fn qform_spec(&self) -> Seq<Seq<Frac>> {
        mat_diagonal(seq![self.ca()@, self.cb()@, self.cc()@, fneg(fone())])
    }

    /// The defining matrix `diag(a, b, c, -1)`.
    fn quadratic_form_matrix(&self) -> (m: Matrix) {
        let mut values: Vec<Rat> = Vec::new();
        values.push(self.a);
        values.push(self.b);
        values.push(self.c);
        values.push(Rat::one().neg());
        proof {
            lemma_consts_canonical();
        }
        let m = Matrix::diagonal(&values);
        proof {
            assert(rvec_view(values@) =~= seq![self.ca()@, self.cb()@, self.cc()@, fneg(fone())]);
        }
        m
    }
}

} // verus!
