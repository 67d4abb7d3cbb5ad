//! Homogeneous-coordinate points, vectors, and affine transforms.
//!
//! A [`Point`] is a `4 x 1` column whose homogeneous (fourth) component is
//! exactly one; a [`Vector`]'s is exactly zero.  The distinction is an
//! invariant enforced at construction, and it is what makes
//! `point + vector`, `vector + vector` and `transform * point` well-typed
//! under affine maps.  An [`AffineTransform`] is a `4 x 4` matrix; the
//! named constructors ([`rotate_x`], [`rotate_y`], [`rotate_z`],
//! [`translate`], [`scale`]) fix its last row to `(0, 0, 0, 1)`, which is
//! exactly what preserves the homogeneous invariant when transforming.
//!
//! Rotations take the cosine and sine of the angle as exact scalars;
//! computing them from an angle is the caller's concern, outside the exact
//! core.

use crate::frac::canonical;
use crate::frac::fadd;
use crate::frac::fmul;
use crate::frac::fneg;
use crate::frac::fone;
use crate::frac::fzero;
use crate::frac::lemma_consts_canonical;
use crate::frac::lemma_fadd_comm;
use crate::frac::lemma_fadd_zero;
use crate::frac::lemma_fmul_comm;
use crate::frac::lemma_fmul_neg;
use crate::frac::lemma_fmul_one_zero;
use crate::frac::lemma_fneg;
use crate::frac::lemma_ops_canonical;
use crate::frac::Frac;
use crate::laws::lemma_dot4;
use crate::matrix::col;
use crate::matrix::dot;
use crate::matrix::mat_add;
use crate::matrix::mat_add_ok;
use crate::matrix::mat_identity;
use crate::matrix::mat_mul;
use crate::matrix::mat_mul_ok;
use crate::matrix::Matrix;
use crate::rat::cadd;
use crate::rat::cmul;
use crate::rat::Rat;
use vstd::prelude::*;

verus! {

/// A `4 x 4` transform in homogeneous coordinates.
pub type AffineTransform = Matrix;

/// A `4 x 1` column model with the given components.
pub open spec fn column_spec(x: Frac, y: Frac, z: Frac, h: Frac) -> Seq<Seq<Frac>> {
    seq![seq![x], seq![y], seq![z], seq![h]]
}

/// The last row of a transform is `(0, 0, 0, 1)`: the transform maps
/// affine elements to affine elements.
pub open spec fn last_row_affine(t: Seq<Seq<Frac>>) -> bool {
    forall|q: int| 0 <= q < 4 ==> #[trigger] t[3][q] == (if q == 3 {
        fone()
    } else {
        fzero()
    })
}

/// A position in homogeneous coordinates; the fourth component is one.
pub struct Point {
    affine: Matrix,
}

/// A displacement in homogeneous coordinates; the fourth component is
/// zero.
pub struct Vector {
    affine: Matrix,
}

impl View for Point {
    type V = Seq<Seq<Frac>>;

    closed spec fn view(&self) -> Seq<Seq<Frac>> {
        self.affine@
    }
}

impl View for Vector {
    type V = Seq<Seq<Frac>>;

    closed spec fn view(&self) -> Seq<Seq<Frac>> {
        self.affine@
    }
}

impl Point {
    /// Well-formed: a `4 x 1` column of well-formed scalars whose
    /// homogeneous component is one.
    pub open spec fn wf(self) -> bool {
        &&& self.minv().wf()
        &&& self.minv().nrows() == 4
        &&& self.minv().ncols() == 1
        &&& self@ == self.minv()@
        &&& self@[3][0] == fone()
    }

    /// The wrapped column matrix, for specification purposes.
    pub closed spec fn minv(self) -> Matrix {
        self.affine
    }

    /// The point `(x, y, z)`.
    pub fn new(x: Rat, y: Rat, z: Rat) -> (r: Point)
        requires
            x.wf(),
            y.wf(),
            z.wf(),
        ensures
            r.wf(),
            r@ == column_spec(x@, y@, z@, fone()),
    {
        let mut data: Vec<Vec<Rat>> = Vec::new();
        data.push(vec![x]);
        data.push(vec![y]);
        data.push(vec![z]);
        data.push(vec![Rat::one()]);
        let m = Matrix::from_data(data);
        let r = Point { affine: m };
        proof {
            assert(r@ =~~= column_spec(x@, y@, z@, fone()));
        }
        r
    }

    /// Wrap a raw `4 x 1` affine element; the homogeneous component must
    /// already be exactly one.
    pub fn from_affine(affine: Matrix) -> (r: Point)
        requires
            affine.wf(),
            affine.nrows() == 4,
            affine.ncols() == 1,
            affine@[3][0] == fone(),
        ensures
            r.wf(),
            r@ == affine@,
    {
        Point { affine }
    }

    /// Component `i`: indices 0 to 2 are spatial, 3 is homogeneous.
    pub fn at(&self, i: usize) -> (r: Rat)
        requires
            self.wf(),
            i < 4,
        ensures
            r.wf(),
            r@ == self@[i as int][0],
    {
        self.affine.at(i, 0)
    }

    /// Overwrite a spatial component.
    pub fn at_mut(&mut self, i: usize, value: Rat)
        requires
            old(self).wf(),
            i < 3,
            value.wf(),
        ensures
            final(self).wf(),
            final(self)@ == old(self)@.update(i as int, old(self)@[i as int].update(0, value@)),
    {
        self.affine.at_mut(i, 0, value);
    }

    /// The underlying `4 x 1` column.
    pub fn as_matrix(&self) -> (r: Matrix)
        requires
            self.wf(),
        ensures
            r.wf(),
            r.nrows() == 4,
            r.ncols() == 1,
            r@ == self@,
    {
        self.affine.duplicate()
    }

    /// The `1 x 4` row view.
    pub fn as_transpose(&self) -> (r: Matrix)
        requires
            self.wf(),
        ensures
            r.wf(),
            r.nrows() == 1,
            r.ncols() == 4,
            r@ == crate::matrix::mat_transpose(self@),
            forall|q: int| 0 <= q < 4 ==> #[trigger] r@[0][q] == self@[q][0],
    {
        self.affine.transpose()
    }

    /// The point with all spatial components negated; the homogeneous
    /// component stays one.  A componentwise convenience, not an affine
    /// map.
    pub fn neg(&self) -> (r: Point)
        requires
            self.wf(),
        ensures
            r.wf(),
            r@ == column_spec(
                fneg(self@[0][0]),
                fneg(self@[1][0]),
                fneg(self@[2][0]),
                fone(),
            ),
    {
        Point::new(self.at(0).neg(), self.at(1).neg(), self.at(2).neg())
    }

    /// Translate a point by a displacement.  The homogeneous component of
    /// the sum is exactly one.  Absent when a component overflows.
    pub fn add(&self, rhs: &Vector) -> (r: Option<Point>)
        requires
            self.wf(),
            rhs.wf(),
        ensures
            r is Some <==> mat_add_ok(self@, rhs@),
            r is Some ==> ({
                let p = r.unwrap();
                &&& p.wf()
                &&& p@ == mat_add(self@, rhs@)
                &&& p@[3][0] == fone()
            }),
    {
        match self.affine.add(&rhs.affine) {
            None => None,
            Some(m) => {
                proof {
                    lemma_consts_canonical();
                    lemma_fadd_zero(fone());
                    assert(m@[3][0] == fadd(fone(), fzero()));
                }
                Some(Point { affine: m })
            },
        }
    }
}

impl Vector {
    /// Well-formed: a `4 x 1` column of well-formed scalars whose
    /// homogeneous component is zero.
    pub open spec fn wf(self) -> bool {
        &&& self.minv().wf()
        &&& self.minv().nrows() == 4
        &&& self.minv().ncols() == 1
        &&& self@ == self.minv()@
        &&& self@[3][0] == fzero()
    }

    /// The wrapped column matrix, for specification purposes.
    pub closed spec fn minv(self) -> Matrix {
        self.affine
    }

    /// The displacement `(x, y, z)`.
    pub fn new(x: Rat, y: Rat, z: Rat) -> (r: Vector)
        requires
            x.wf(),
            y.wf(),
            z.wf(),
        ensures
            r.wf(),
            r@ == column_spec(x@, y@, z@, fzero()),
    {
        let mut data: Vec<Vec<Rat>> = Vec::new();
        data.push(vec![x]);
        data.push(vec![y]);
        data.push(vec![z]);
        data.push(vec![Rat::zero()]);
        let m = Matrix::from_data(data);
        let r = Vector { affine: m };
        proof {
            assert(r@ =~~= column_spec(x@, y@, z@, fzero()));
        }
        r
    }

    /// The displacement from the origin to a point.
    pub fn to_point(point: Point) -> (r: Vector)
        requires
            point.wf(),
        ensures
            r.wf(),
            r@ == column_spec(point@[0][0], point@[1][0], point@[2][0], fzero()),
    {
        Vector::new(point.at(0), point.at(1), point.at(2))
    }

    /// Wrap a raw `4 x 1` affine element; the homogeneous component must
    /// already be exactly zero.
    pub fn from_affine(affine: Matrix) -> (r: Vector)
        requires
            affine.wf(),
            affine.nrows() == 4,
            affine.ncols() == 1,
            affine@[3][0] == fzero(),
        ensures
            r.wf(),
            r@ == affine@,
    {
        Vector { affine }
    }

    /// Component `i`: indices 0 to 2 are spatial, 3 is homogeneous.
    pub fn at(&self, i: usize) -> (r: Rat)
        requires
            self.wf(),
            i < 4,
        ensures
            r.wf(),
            r@ == self@[i as int][0],
    {
        self.affine.at(i, 0)
    }

    /// Overwrite a spatial component.
    pub fn at_mut(&mut self, i: usize, value: Rat)
        requires
            old(self).wf(),
            i < 3,
            value.wf(),
        ensures
            final(self).wf(),
            final(self)@ == old(self)@.update(i as int, old(self)@[i as int].update(0, value@)),
    {
        self.affine.at_mut(i, 0, value);
    }

    /// The underlying `4 x 1` column.
    pub fn as_matrix(&self) -> (r: Matrix)
        requires
            self.wf(),
        ensures
            r.wf(),
            r.nrows() == 4,
            r.ncols() == 1,
            r@ == self@,
    {
        self.affine.duplicate()
    }

    /// The `1 x 4` row view.
    pub fn as_transpose(&self) -> (r: Matrix)
        requires
            self.wf(),
        ensures
            r.wf(),
            r.nrows() == 1,
            r.ncols() == 4,
            r@ == crate::matrix::mat_transpose(self@),
            forall|q: int| 0 <= q < 4 ==> #[trigger] r@[0][q] == self@[q][0],
    {
        self.affine.transpose()
    }

    /// The opposite displacement; exact and total.
    pub fn neg(&self) -> (r: Vector)
        requires
            self.wf(),
        ensures
            r.wf(),
            r@ == column_spec(
                fneg(self@[0][0]),
                fneg(self@[1][0]),
                fneg(self@[2][0]),
                fzero(),
            ),
    {
        Vector::new(self.at(0).neg(), self.at(1).neg(), self.at(2).neg())
    }

    /// The sum of two displacements.  The homogeneous component of the sum
    /// is exactly zero.  Absent when a component overflows.
    pub fn add(&self, rhs: &Vector) -> (r: Option<Vector>)
        requires
            self.wf(),
            rhs.wf(),
        ensures
            r is Some <==> mat_add_ok(self@, rhs@),
            r is Some ==> ({
                let v = r.unwrap();
                &&& v.wf()
                &&& v@ == mat_add(self@, rhs@)
                &&& v@[3][0] == fzero()
            }),
    {
        match self.affine.add(&rhs.affine) {
            None => None,
            Some(m) => {
                proof {
                    lemma_consts_canonical();
                    lemma_fadd_zero(fzero());
                    assert(m@[3][0] == fadd(fzero(), fzero()));
                }
                Some(Vector { affine: m })
            },
        }
    }

    /// Translate a point by this displacement.
    pub fn add_point(&self, rhs: &Point) -> (r: Option<Point>)
        requires
            self.wf(),
            rhs.wf(),
        ensures
            r is Some <==> mat_add_ok(self@, rhs@),
            r is Some ==> ({
                let p = r.unwrap();
                &&& p.wf()
                &&& p@ == mat_add(self@, rhs@)
                &&& p@[3][0] == fone()
            }),
    {
        match self.affine.add(&rhs.affine) {
            None => None,
            Some(m) => {
                proof {
                    lemma_consts_canonical();
                    lemma_fadd_zero(fone());
                    crate::frac::lemma_fadd_comm(fzero(), fone());
                    assert(m@[3][0] == fadd(fzero(), fone()));
                }
                Some(Point { affine: m })
            },
        }
    }

    /// The dot product `self . rhs`, computed as the `1 x 4` by `4 x 1`
    /// product.  Absent when an intermediate value overflows.
    pub fn dot(&self, rhs: &Vector) -> (r: Option<Rat>)
        requires
            self.wf(),
            rhs.wf(),
        ensures
            r is Some <==> mat_mul_ok(crate::matrix::mat_transpose(self@), rhs@),
            r is Some ==> r.unwrap().wf() && r.unwrap()@ == mat_mul(
                crate::matrix::mat_transpose(self@),
                rhs@,
            )[0][0],
    {
        let t = self.as_transpose();
        match t.mul(&rhs.affine) {
            None => None,
            Some(m) => Some(m.num()),
        }
    }
}

/// Apply a transform whose last row is `(0, 0, 0, 1)` to a point; the
/// result is again a point.  Absent when an intermediate value overflows.
pub fn transform_point(t: &Matrix, p: &Point) -> (r: Option<Point>)
    requires
        t.wf(),
        t.nrows() == 4,
        t.ncols() == 4,
        last_row_affine(t@),
        p.wf(),
    ensures
        r is Some <==> mat_mul_ok(t@, p@),
        r is Some ==> ({
            let q = r.unwrap();
            &&& q.wf()
            &&& q@ == mat_mul(t@, p@)
            &&& q@[3][0] == fone()
        }),
{
    match t.mul(&p.as_matrix()) {
        None => None,
        Some(m) => {
            proof {
                lemma_transform_last(t@, p@, fone());
            }
            Some(Point::from_affine(m))
        },
    }
}

/// Apply a transform whose last row is `(0, 0, 0, 1)` to a displacement;
/// the result is again a displacement.
pub fn transform_vector(t: &Matrix, v: &Vector) -> (r: Option<Vector>)
    requires
        t.wf(),
        t.nrows() == 4,
        t.ncols() == 4,
        last_row_affine(t@),
        v.wf(),
    ensures
        r is Some <==> mat_mul_ok(t@, v@),
        r is Some ==> ({
            let w = r.unwrap();
            &&& w.wf()
            &&& w@ == mat_mul(t@, v@)
            &&& w@[3][0] == fzero()
        }),
{
    match t.mul(&v.as_matrix()) {
        None => None,
        Some(m) => {
            proof {
                lemma_transform_last(t@, v@, fzero());
            }
            Some(Vector::from_affine(m))
        },
    }
}

/// The model of a rotation about the x axis with the given cosine and
/// sine.
pub open spec fn rotate_x_spec(c: Frac, s: Frac) -> Seq<Seq<Frac>> {
    seq![
        seq![fone(), fzero(), fzero(), fzero()],
        seq![fzero(), c, fneg(s), fzero()],
        seq![fzero(), s, c, fzero()],
        seq![fzero(), fzero(), fzero(), fone()],
    ]
}

/// The model of a rotation about the y axis.
pub open spec fn rotate_y_spec(c: Frac, s: Frac) -> Seq<Seq<Frac>> {
    seq![
        seq![c, fzero(), s, fzero()],
        seq![fzero(), fone(), fzero(), fzero()],
        seq![fneg(s), fzero(), c, fzero()],
        seq![fzero(), fzero(), fzero(), fone()],
    ]
}

/// The model of a rotation about the z axis.
pub open spec fn rotate_z_spec(c: Frac, s: Frac) -> Seq<Seq<Frac>> {
    seq![
        seq![c, fneg(s), fzero(), fzero()],
        seq![s, c, fzero(), fzero()],
        seq![fzero(), fzero(), fone(), fzero()],
        seq![fzero(), fzero(), fzero(), fone()],
    ]
}

/// The model of a translation by `(x, y, z)`.
pub open spec fn translate_spec(x: Frac, y: Frac, z: Frac) -> Seq<Seq<Frac>> {
    seq![
        seq![fone(), fzero(), fzero(), x],
        seq![fzero(), fone(), fzero(), y],
        seq![fzero(), fzero(), fone(), z],
        seq![fzero(), fzero(), fzero(), fone()],
    ]
}

/// The model of an axis-aligned scaling.
pub open spec fn scale_spec(sx: Frac, sy: Frac, sz: Frac) -> Seq<Seq<Frac>> {
    seq![
        seq![sx, fzero(), fzero(), fzero()],
        seq![fzero(), sy, fzero(), fzero()],
        seq![fzero(), fzero(), sz, fzero()],
        seq![fzero(), fzero(), fzero(), fone()],
    ]
}

/// A right-handed rotation about the x axis, given the cosine and sine of
/// the angle.
pub fn rotate_x(cos_t: Rat, sin_t: Rat) -> (r: Matrix)
    requires
        cos_t.wf(),
        sin_t.wf(),
    ensures
        r.wf(),
        r.nrows() == 4,
        r.ncols() == 4,
        last_row_affine(r@),
        r@ == rotate_x_spec(cos_t@, sin_t@),
{
    let o = Rat::one();
    let z = Rat::zero();
    let mut data: Vec<Vec<Rat>> = Vec::new();
    data.push(vec![o, z, z, z]);
    data.push(vec![z, cos_t, sin_t.neg(), z]);
    data.push(vec![z, sin_t, cos_t, z]);
    data.push(vec![z, z, z, o]);
    let r = Matrix::from_data(data);
    proof {
        assert(r@ =~~= rotate_x_spec(cos_t@, sin_t@));
    }
    r
}

/// A right-handed rotation about the y axis, given the cosine and sine of
/// the angle.
pub fn rotate_y(cos_t: Rat, sin_t: Rat) -> (r: Matrix)
    requires
        cos_t.wf(),
        sin_t.wf(),
    ensures
        r.wf(),
        r.nrows() == 4,
        r.ncols() == 4,
        last_row_affine(r@),
        r@ == rotate_y_spec(cos_t@, sin_t@),
{
    let o = Rat::one();
    let z = Rat::zero();
    let mut data: Vec<Vec<Rat>> = Vec::new();
    data.push(vec![cos_t, z, sin_t, z]);
    data.push(vec![z, o, z, z]);
    data.push(vec![sin_t.neg(), z, cos_t, z]);
    data.push(vec![z, z, z, o]);
    let r = Matrix::from_data(data);
    proof {
        assert(r@ =~~= rotate_y_spec(cos_t@, sin_t@));
    }
    r
}

/// A right-handed rotation about the z axis, given the cosine and sine of
/// the angle.
pub fn rotate_z(cos_t: Rat, sin_t: Rat) -> (r: Matrix)
    requires
        cos_t.wf(),
        sin_t.wf(),
    ensures
        r.wf(),
        r.nrows() == 4,
        r.ncols() == 4,
        last_row_affine(r@),
        r@ == rotate_z_spec(cos_t@, sin_t@),
{
    let o = Rat::one();
    let z = Rat::zero();
    let mut data: Vec<Vec<Rat>> = Vec::new();
    data.push(vec![cos_t, sin_t.neg(), z, z]);
    data.push(vec![sin_t, cos_t, z, z]);
    data.push(vec![z, z, o, z]);
    data.push(vec![z, z, z, o]);
    let r = Matrix::from_data(data);
    proof {
        assert(r@ =~~= rotate_z_spec(cos_t@, sin_t@));
    }
    r
}

/// The translation by a displacement: the identity with the vector's
/// spatial components in the last column.
pub fn translate(vector: &Vector) -> (r: Matrix)
    requires
        vector.wf(),
    ensures
        r.wf(),
        r.nrows() == 4,
        r.ncols() == 4,
        last_row_affine(r@),
        r@ == translate_spec(vector@[0][0], vector@[1][0], vector@[2][0]),
{
    let o = Rat::one();
    let z = Rat::zero();
    let mut data: Vec<Vec<Rat>> = Vec::new();
    data.push(vec![o, z, z, vector.at(0)]);
    data.push(vec![z, o, z, vector.at(1)]);
    data.push(vec![z, z, o, vector.at(2)]);
    data.push(vec![z, z, z, o]);
    let r = Matrix::from_data(data);
    proof {
        assert(r@ =~~= translate_spec(vector@[0][0], vector@[1][0], vector@[2][0]));
    }
    r
}

/// The axis-aligned scaling `diag(sx, sy, sz, 1)`.
pub fn scale(sx: Rat, sy: Rat, sz: Rat) -> (r: Matrix)
    requires
        sx.wf(),
        sy.wf(),
        sz.wf(),
    ensures
        r.wf(),
        r.nrows() == 4,
        r.ncols() == 4,
        last_row_affine(r@),
        r@ == scale_spec(sx@, sy@, sz@),
{
    let o = Rat::one();
    let z = Rat::zero();
    let mut data: Vec<Vec<Rat>> = Vec::new();
    data.push(vec![sx, z, z, z]);
    data.push(vec![z, sy, z, z]);
    data.push(vec![z, z, sz, z]);
    data.push(vec![z, z, z, o]);
    let r = Matrix::from_data(data);
    proof {
        assert(r@ =~~= scale_spec(sx@, sy@, sz@));
    }
    r
}

/// Scalar identities behind the rotation laws: for a cosine/sine pair on
/// the unit circle, the familiar cell values of a rotation times its
/// reverse rotation.
proof fn lemma_rot_cells(c: Frac, s: Frac)
    requires
        canonical(c),
        canonical(s),
        fadd(fmul(c, c), fmul(s, s)) == fone(),
    ensures
        fneg(fneg(s)) == s,
        canonical(fneg(s)),
        fmul(fneg(s), fneg(s)) == fmul(s, s),
        fadd(fmul(c, c), fmul(fneg(s), fneg(s))) == fone(),
        fadd(fmul(s, s), fmul(c, c)) == fone(),
        fadd(fmul(fneg(s), fneg(s)), fmul(c, c)) == fone(),
        fadd(fmul(c, s), fmul(fneg(s), c)) == fzero(),
        fadd(fmul(s, c), fmul(c, fneg(s))) == fzero(),
        fadd(fmul(c, fneg(s)), fmul(s, c)) == fzero(),
        fadd(fmul(fneg(s), c), fmul(c, s)) == fzero(),
{
    lemma_fneg(s);
    lemma_ops_canonical(c, c);
    lemma_ops_canonical(s, s);
    lemma_ops_canonical(c, s);
    lemma_ops_canonical(s, c);
    lemma_fmul_neg(s, fneg(s));
    lemma_fmul_neg(s, s);
    lemma_fneg(fmul(s, s));
    lemma_fadd_comm(fmul(c, c), fmul(s, s));
    lemma_fmul_neg(s, c);
    lemma_fmul_neg(c, s);
    lemma_fmul_comm(c, s);
    lemma_fneg(fmul(c, s));
    lemma_fneg(fmul(s, c));
}

/// One direction of the rotation law about the x axis.
proof fn lemma_rotate_x_once(c: Frac, s: Frac)
    requires
        canonical(c),
        canonical(s),
        fadd(fmul(c, c), fmul(s, s)) == fone(),
    ensures
        mat_mul(rotate_x_spec(c, s), rotate_x_spec(c, fneg(s))) == mat_identity(4),
{
    lemma_consts_canonical();
    lemma_rot_cells(c, s);
    let a = rotate_x_spec(c, s);
    let b = rotate_x_spec(c, fneg(s));
    let p = mat_mul(a, b);
    lemma_fmul_one_zero(c);
    lemma_fmul_one_zero(s);
    lemma_fmul_one_zero(fneg(s));
    lemma_fmul_one_zero(fone());
    lemma_fmul_one_zero(fzero());
    lemma_ops_canonical(c, c);
    lemma_ops_canonical(c, s);
    lemma_ops_canonical(s, c);
    lemma_ops_canonical(s, s);
    lemma_ops_canonical(c, fneg(s));
    lemma_ops_canonical(fneg(s), c);
    lemma_ops_canonical(fneg(s), fneg(s));
    lemma_fadd_zero(fmul(c, c));
    lemma_fadd_zero(fmul(c, s));
    lemma_fadd_zero(fmul(s, c));
    lemma_fadd_zero(fmul(s, s));
    lemma_fadd_zero(fmul(c, fneg(s)));
    lemma_fadd_zero(fmul(fneg(s), c));
    lemma_fadd_zero(fmul(fneg(s), fneg(s)));
    lemma_fadd_zero(fzero());
    lemma_fadd_zero(fone());
    assert forall|i: int, j: int| 0 <= i < 4 && 0 <= j < 4 implies p[i][j] == mat_identity(
        4,
    )[i][j] by {
        assert(col(b, j) =~= seq![b[0][j], b[1][j], b[2][j], b[3][j]]);
        assert forall|q: int| 0 <= q < 4 implies canonical(#[trigger] a[i][q]) by {}
        assert forall|q: int| 0 <= q < 4 implies canonical(#[trigger] col(b, j)[q]) by {}
        lemma_dot4(a[i], col(b, j));
        assert(p[i][j] == dot(a[i], col(b, j)));
    }
    assert(p =~~= mat_identity(4));
}

/// Rotating about the x axis and back yields the identity: for any exact
/// cosine/sine pair on the unit circle, the rotation by the angle and the
/// rotation by its negation compose to the identity, both ways around.
pub proof fn lemma_rotate_x_inverse(c: Frac, s: Frac)
    requires
        canonical(c),
        canonical(s),
        fadd(fmul(c, c), fmul(s, s)) == fone(),
    ensures
        mat_mul(rotate_x_spec(c, s), rotate_x_spec(c, fneg(s))) == mat_identity(4),
        mat_mul(rotate_x_spec(c, fneg(s)), rotate_x_spec(c, s)) == mat_identity(4),
{
    lemma_rot_cells(c, s);
    lemma_rotate_x_once(c, s);
    lemma_rotate_x_once(c, fneg(s));
}

/// One direction of the rotation law about the y axis.
proof fn lemma_rotate_y_once(c: Frac, s: Frac)
    requires
        canonical(c),
        canonical(s),
        fadd(fmul(c, c), fmul(s, s)) == fone(),
    ensures
        mat_mul(rotate_y_spec(c, s), rotate_y_spec(c, fneg(s))) == mat_identity(4),
{
    lemma_consts_canonical();
    lemma_rot_cells(c, s);
    let a = rotate_y_spec(c, s);
    let b = rotate_y_spec(c, fneg(s));
    let p = mat_mul(a, b);
    lemma_fmul_one_zero(c);
    lemma_fmul_one_zero(s);
    lemma_fmul_one_zero(fneg(s));
    lemma_fmul_one_zero(fone());
    lemma_fmul_one_zero(fzero());
    lemma_ops_canonical(c, c);
    lemma_ops_canonical(c, s);
    lemma_ops_canonical(s, c);
    lemma_ops_canonical(s, s);
    lemma_ops_canonical(c, fneg(s));
    lemma_ops_canonical(fneg(s), c);
    lemma_ops_canonical(fneg(s), fneg(s));
    lemma_fadd_zero(fmul(c, c));
    lemma_fadd_zero(fmul(c, s));
    lemma_fadd_zero(fmul(s, c));
    lemma_fadd_zero(fmul(s, s));
    lemma_fadd_zero(fmul(c, fneg(s)));
    lemma_fadd_zero(fmul(fneg(s), c));
    lemma_fadd_zero(fmul(fneg(s), fneg(s)));
    lemma_fadd_zero(fzero());
    lemma_fadd_zero(fone());
    assert forall|i: int, j: int| 0 <= i < 4 && 0 <= j < 4 implies p[i][j] == mat_identity(
        4,
    )[i][j] by {
        assert(col(b, j) =~= seq![b[0][j], b[1][j], b[2][j], b[3][j]]);
        assert forall|q: int| 0 <= q < 4 implies canonical(#[trigger] a[i][q]) by {}
        assert forall|q: int| 0 <= q < 4 implies canonical(#[trigger] col(b, j)[q]) by {}
        lemma_dot4(a[i], col(b, j));
        assert(p[i][j] == dot(a[i], col(b, j)));
    }
    assert(p =~~= mat_identity(4));
}

/// Rotating about the y axis and back yields the identity, both ways
/// around.
pub proof fn lemma_rotate_y_inverse(c: Frac, s: Frac)
    requires
        canonical(c),
        canonical(s),
        fadd(fmul(c, c), fmul(s, s)) == fone(),
    ensures
        mat_mul(rotate_y_spec(c, s), rotate_y_spec(c, fneg(s))) == mat_identity(4),
        mat_mul(rotate_y_spec(c, fneg(s)), rotate_y_spec(c, s)) == mat_identity(4),
{
    lemma_rot_cells(c, s);
    lemma_rotate_y_once(c, s);
    lemma_rotate_y_once(c, fneg(s));
}

/// One direction of the rotation law about the z axis.
proof fn lemma_rotate_z_once(c: Frac, s: Frac)
    requires
        canonical(c),
        canonical(s),
        fadd(fmul(c, c), fmul(s, s)) == fone(),
    ensures
        mat_mul(rotate_z_spec(c, s), rotate_z_spec(c, fneg(s))) == mat_identity(4),
{
    lemma_consts_canonical();
    lemma_rot_cells(c, s);
    let a = rotate_z_spec(c, s);
    let b = rotate_z_spec(c, fneg(s));
    let p = mat_mul(a, b);
    lemma_fmul_one_zero(c);
    lemma_fmul_one_zero(s);
    lemma_fmul_one_zero(fneg(s));
    lemma_fmul_one_zero(fone());
    lemma_fmul_one_zero(fzero());
    lemma_ops_canonical(c, c);
    lemma_ops_canonical(c, s);
    lemma_ops_canonical(s, c);
    lemma_ops_canonical(s, s);
    lemma_ops_canonical(c, fneg(s));
    lemma_ops_canonical(fneg(s), c);
    lemma_ops_canonical(fneg(s), fneg(s));
    lemma_fadd_zero(fmul(c, c));
    lemma_fadd_zero(fmul(c, s));
    lemma_fadd_zero(fmul(s, c));
    lemma_fadd_zero(fmul(s, s));
    lemma_fadd_zero(fmul(c, fneg(s)));
    lemma_fadd_zero(fmul(fneg(s), c));
    lemma_fadd_zero(fmul(fneg(s), fneg(s)));
    lemma_fadd_zero(fzero());
    lemma_fadd_zero(fone());
    assert forall|i: int, j: int| 0 <= i < 4 && 0 <= j < 4 implies p[i][j] == mat_identity(
        4,
    )[i][j] by {
        assert(col(b, j) =~= seq![b[0][j], b[1][j], b[2][j], b[3][j]]);
        assert forall|q: int| 0 <= q < 4 implies canonical(#[trigger] a[i][q]) by {}
        assert forall|q: int| 0 <= q < 4 implies canonical(#[trigger] col(b, j)[q]) by {}
        lemma_dot4(a[i], col(b, j));
        assert(p[i][j] == dot(a[i], col(b, j)));
    }
    assert(p =~~= mat_identity(4));
}

/// Rotating about the z axis and back yields the identity, both ways
/// around.
pub proof fn lemma_rotate_z_inverse(c: Frac, s: Frac)
    requires
        canonical(c),
        canonical(s),
        fadd(fmul(c, c), fmul(s, s)) == fone(),
    ensures
        mat_mul(rotate_z_spec(c, s), rotate_z_spec(c, fneg(s))) == mat_identity(4),
        mat_mul(rotate_z_spec(c, fneg(s)), rotate_z_spec(c, s)) == mat_identity(4),
{
    lemma_rot_cells(c, s);
    lemma_rotate_z_once(c, s);
    lemma_rotate_z_once(c, fneg(s));
}

/// The identity transform is the translation by the zero displacement.
#[verifier::spinoff_prover]
proof fn lemma_identity_is_translate_zero()
    ensures
        mat_identity(4) == translate_spec(fzero(), fzero(), fzero()),
{
    assert(mat_identity(4) =~~= translate_spec(fzero(), fzero(), fzero()));
}

/// A translation model is well-formed, in unit row-echelon form, and
/// affine.
#[verifier::spinoff_prover]
proof fn lemma_translate_spec_wf(x: Frac, y: Frac, z: Frac)
    requires
        crate::rat::rat_wf(x),
        crate::rat::rat_wf(y),
        crate::rat::rat_wf(z),
    ensures
        crate::matrix::mat_wf(translate_spec(x, y, z), 4),
        crate::elim::unit_echelon(translate_spec(x, y, z), 4),
        last_row_affine(translate_spec(x, y, z)),
{
    lemma_consts_canonical();
}

/// Adding `k` times the last row of a translation to its first row moves
/// only the first displacement component, by `k`.
#[verifier::spinoff_prover]
proof fn lemma_translate_clear0(a: Frac, b: Frac, c: Frac, k: Frac)
    requires
        crate::rat::rat_wf(a),
        crate::rat::rat_wf(b),
        crate::rat::rat_wf(c),
        crate::rat::rat_wf(k),
        crate::rat::fits(fadd(a, k)),
    ensures
        crate::rowops::capply_op(
            crate::rowops::RowOpSpec::Add(3, 0, k),
            translate_spec(a, b, c),
        ) == Some(translate_spec(fadd(a, k), b, c)),
{
    lemma_consts_canonical();
    let m = translate_spec(a, b, c);
    let op = crate::rowops::RowOpSpec::Add(3, 0, k);
    lemma_fmul_one_zero(k);
    lemma_fadd_zero(fone());
    lemma_fadd_zero(fzero());
    assert forall|w: int| 0 <= w < m[0].len() implies #[trigger] cmul(k, m[3][w]) is Some && cadd(
        m[0][w],
        fmul(k, m[3][w]),
    ) is Some by {
        if w == 3 {
            assert(m[3][w] == fone());
        } else {
            assert(m[3][w] == fzero());
        }
    }
    assert(crate::rowops::op_ok(op, m));
    let m2 = crate::rowops::apply_op(op, m);
    assert forall|w: int| 0 <= w < 4 implies #[trigger] m2[0][w] == translate_spec(
        fadd(a, k),
        b,
        c,
    )[0][w] by {
        if w == 3 {
            assert(m2[0][w] == fadd(a, fmul(k, fone())));
        } else if w == 0 {
            assert(m2[0][w] == fadd(fone(), fmul(k, fzero())));
        } else {
            assert(m2[0][w] == fadd(fzero(), fmul(k, fzero())));
        }
    }
    assert(m2 =~~= translate_spec(fadd(a, k), b, c));
}

/// Adding `k` times the last row of a translation to its second row moves
/// only the second displacement component, by `k`.
#[verifier::spinoff_prover]
proof fn lemma_translate_clear1(a: Frac, b: Frac, c: Frac, k: Frac)
    requires
        crate::rat::rat_wf(a),
        crate::rat::rat_wf(b),
        crate::rat::rat_wf(c),
        crate::rat::rat_wf(k),
        crate::rat::fits(fadd(b, k)),
    ensures
        crate::rowops::capply_op(
            crate::rowops::RowOpSpec::Add(3, 1, k),
            translate_spec(a, b, c),
        ) == Some(translate_spec(a, fadd(b, k), c)),
{
    lemma_consts_canonical();
    let m = translate_spec(a, b, c);
    let op = crate::rowops::RowOpSpec::Add(3, 1, k);
    lemma_fmul_one_zero(k);
    lemma_fadd_zero(fone());
    lemma_fadd_zero(fzero());
    assert forall|w: int| 0 <= w < m[1].len() implies #[trigger] cmul(k, m[3][w]) is Some && cadd(
        m[1][w],
        fmul(k, m[3][w]),
    ) is Some by {
        if w == 3 {
            assert(m[3][w] == fone());
        } else {
            assert(m[3][w] == fzero());
        }
    }
    assert(crate::rowops::op_ok(op, m));
    let m2 = crate::rowops::apply_op(op, m);
    assert forall|w: int| 0 <= w < 4 implies #[trigger] m2[1][w] == translate_spec(
        a,
        fadd(b, k),
        c,
    )[1][w] by {
        if w == 3 {
            assert(m2[1][w] == fadd(b, fmul(k, fone())));
        } else if w == 1 {
            assert(m2[1][w] == fadd(fone(), fmul(k, fzero())));
        } else {
            assert(m2[1][w] == fadd(fzero(), fmul(k, fzero())));
        }
    }
    assert(m2 =~~= translate_spec(a, fadd(b, k), c));
}

/// Adding `k` times the last row of a translation to its third row moves
/// only the third displacement component, by `k`.
#[verifier::spinoff_prover]
proof fn lemma_translate_clear2(a: Frac, b: Frac, c: Frac, k: Frac)
    requires
        crate::rat::rat_wf(a),
        crate::rat::rat_wf(b),
        crate::rat::rat_wf(c),
        crate::rat::rat_wf(k),
        crate::rat::fits(fadd(c, k)),
    ensures
        crate::rowops::capply_op(
            crate::rowops::RowOpSpec::Add(3, 2, k),
            translate_spec(a, b, c),
        ) == Some(translate_spec(a, b, fadd(c, k))),
{
    lemma_consts_canonical();
    let m = translate_spec(a, b, c);
    let op = crate::rowops::RowOpSpec::Add(3, 2, k);
    lemma_fmul_one_zero(k);
    lemma_fadd_zero(fone());
    lemma_fadd_zero(fzero());
    assert forall|w: int| 0 <= w < m[2].len() implies #[trigger] cmul(k, m[3][w]) is Some && cadd(
        m[2][w],
        fmul(k, m[3][w]),
    ) is Some by {
        if w == 3 {
            assert(m[3][w] == fone());
        } else {
            assert(m[3][w] == fzero());
        }
    }
    assert(crate::rowops::op_ok(op, m));
    let m2 = crate::rowops::apply_op(op, m);
    assert forall|w: int| 0 <= w < 4 implies #[trigger] m2[2][w] == translate_spec(
        a,
        b,
        fadd(c, k),
    )[2][w] by {
        if w == 3 {
            assert(m2[2][w] == fadd(c, fmul(k, fone())));
        } else if w == 2 {
            assert(m2[2][w] == fadd(fone(), fmul(k, fzero())));
        } else {
            assert(m2[2][w] == fadd(fzero(), fmul(k, fzero())));
        }
    }
    assert(m2 =~~= translate_spec(a, b, fadd(c, k)));
}

/// Back-substitution on a translation clears its displacement column and
/// stops; replaying the recorded log against the identity writes the
/// negated displacement.
#[verifier::spinoff_prover]
proof fn lemma_back_translate(x: Frac, y: Frac, z: Frac)
    requires
        crate::rat::rat_wf(x),
        crate::rat::rat_wf(y),
        crate::rat::rat_wf(z),
    ensures
        crate::elim::back_spec(translate_spec(x, y, z)) is Some,
        crate::elim::back_spec(translate_spec(x, y, z)).unwrap().0 == translate_spec(
            fzero(),
            fzero(),
            fzero(),
        ),
        crate::rowops::capply_ops(
            crate::elim::back_spec(translate_spec(x, y, z)).unwrap().1,
            mat_identity(4),
        ) == Some(translate_spec(fneg(x), fneg(y), fneg(z))),
{
    lemma_consts_canonical();
    lemma_fneg(x);
    lemma_fneg(y);
    lemma_fneg(z);
    lemma_fadd_zero(fneg(x));
    lemma_fadd_zero(fneg(y));
    lemma_fadd_zero(fneg(z));
    let t = translate_spec(x, y, z);
    let tz = translate_spec(fzero(), fzero(), fzero());
    let tn = translate_spec(fneg(x), fneg(y), fneg(z));
    lemma_translate_spec_wf(x, y, z);
    lemma_translate_spec_wf(fzero(), fzero(), fzero());
    lemma_translate_spec_wf(fneg(x), fneg(y), fneg(z));
    lemma_identity_is_translate_zero();
    let op0 = crate::rowops::RowOpSpec::Add(3, 0, fneg(x));
    let op1 = crate::rowops::RowOpSpec::Add(3, 1, fneg(y));
    let op2 = crate::rowops::RowOpSpec::Add(3, 2, fneg(z));
    // Clearing the displacement column of the translation, row by row.
    let t1 = translate_spec(fzero(), y, z);
    let t2 = translate_spec(fzero(), fzero(), z);
    lemma_translate_clear0(x, y, z, fneg(x));
    lemma_translate_clear1(fzero(), y, z, fneg(y));
    lemma_translate_clear2(fzero(), fzero(), z, fneg(z));
    assert(crate::elim::back_col(t, 3, 0) == Some(
        (t, Seq::<crate::rowops::RowOpSpec>::empty()),
    ));
    assert(t[0][3] == x);
    assert(crate::elim::back_col(t, 3, 1) == Some((t1, Seq::empty().push(op0))));
    assert(t1[1][3] == y);
    assert(crate::elim::back_col(t, 3, 2) == Some((t2, Seq::empty().push(op0).push(op1))));
    assert(t2[2][3] == z);
    assert(crate::elim::back_col(t, 3, 3) == Some(
        (tz, Seq::empty().push(op0).push(op1).push(op2)),
    ));
    let bcol3 = Seq::empty().push(op0).push(op1).push(op2);
    // The remaining columns are already clear.
    assert(crate::elim::back_upto(t, 0) == Some(
        (t, Seq::<crate::rowops::RowOpSpec>::empty()),
    ));
    assert(t.len() == 4);
    assert(crate::elim::back_upto(t, 1) == Some((tz, Seq::empty() + bcol3)));
    crate::elim::lemma_back_col_zero(tz, 2, 2, 4);
    let triv2 = crate::elim::back_col(tz, 2, 2).unwrap().1;
    assert(crate::elim::back_upto(t, 2) == Some((tz, (Seq::empty() + bcol3) + triv2)));
    crate::elim::lemma_back_col_zero(tz, 1, 1, 4);
    let triv1 = crate::elim::back_col(tz, 1, 1).unwrap().1;
    assert(crate::elim::back_upto(t, 3) == Some(
        (tz, ((Seq::empty() + bcol3) + triv2) + triv1),
    ));
    assert(crate::elim::back_col(tz, 0, 0) == Some(
        (tz, Seq::<crate::rowops::RowOpSpec>::empty()),
    ));
    let bops = (((Seq::empty() + bcol3) + triv2) + triv1)
        + Seq::<crate::rowops::RowOpSpec>::empty();
    assert(crate::elim::back_upto(t, 4) == Some((tz, bops)));
    assert(crate::elim::back_spec(t) == Some((tz, bops)));
    // Replaying the log against the identity, which is the zero
    // translation: the three combinations write the negated displacement,
    // the rest change nothing.
    let i1 = translate_spec(fneg(x), fzero(), fzero());
    let i2 = translate_spec(fneg(x), fneg(y), fzero());
    lemma_translate_clear0(fzero(), fzero(), fzero(), fneg(x));
    lemma_translate_clear1(fneg(x), fzero(), fzero(), fneg(y));
    lemma_translate_clear2(fneg(x), fneg(y), fzero(), fneg(z));
    crate::rowops::lemma_capply_ops_snoc(Seq::empty(), op0, tz);
    assert(crate::rowops::capply_ops(Seq::empty().push(op0), tz) == Some(i1));
    crate::rowops::lemma_capply_ops_snoc(Seq::empty().push(op0), op1, tz);
    assert(crate::rowops::capply_ops(Seq::empty().push(op0).push(op1), tz) == Some(i2));
    crate::rowops::lemma_capply_ops_snoc(Seq::empty().push(op0).push(op1), op2, tz);
    assert(crate::rowops::capply_ops(bcol3, tz) == Some(tn));
    crate::rowops::lemma_capply_ops_append(Seq::empty(), bcol3, tz);
    assert(crate::rowops::capply_ops(Seq::empty() + bcol3, tz) == Some(tn));
    crate::rowops::lemma_capply_ops_append(Seq::empty() + bcol3, triv2, tz);
    crate::elim::lemma_capply_trivial(triv2, tn, 4);
    assert(crate::rowops::capply_ops((Seq::empty() + bcol3) + triv2, tz) == Some(tn));
    crate::rowops::lemma_capply_ops_append((Seq::empty() + bcol3) + triv2, triv1, tz);
    crate::elim::lemma_capply_trivial(triv1, tn, 4);
    crate::rowops::lemma_capply_ops_append(
        ((Seq::empty() + bcol3) + triv2) + triv1,
        Seq::empty(),
        tz,
    );
    assert(crate::rowops::capply_ops(bops, tz) == Some(tn));
}

/// Inverting a translation always succeeds and yields exactly the
/// translation by the negated displacement: elimination finds every pivot
/// in place, and the replayed logs turn the identity into the negated
/// translation.
pub proof fn lemma_translate_inverse_spec(x: Frac, y: Frac, z: Frac)
    requires
        crate::rat::rat_wf(x),
        crate::rat::rat_wf(y),
        crate::rat::rat_wf(z),
    ensures
        crate::elim::inverse_spec(translate_spec(x, y, z)) == Some(
            translate_spec(fneg(x), fneg(y), fneg(z)),
        ),
{
    lemma_consts_canonical();
    lemma_fneg(x);
    lemma_fneg(y);
    lemma_fneg(z);
    let t = translate_spec(x, y, z);
    let idm = mat_identity(4);
    lemma_translate_spec_wf(x, y, z);
    lemma_translate_spec_wf(fzero(), fzero(), fzero());
    lemma_identity_is_translate_zero();
    crate::elim::lemma_gauss_echelon(t);
    let gops = crate::elim::gauss_spec(t)->Go_1;
    assert(crate::matrix::mat_wf(idm, 4));
    crate::elim::lemma_capply_trivial(gops, idm, 4);
    lemma_back_translate(x, y, z);
    assert(t.len() == 4);
    assert(crate::elim::inverse_spec(t) == Some(translate_spec(fneg(x), fneg(y), fneg(z))));
}

/// The last row of a product is the right factor's last row when the
/// left factor is affine; so a composition of affine transforms is
/// affine.
pub proof fn lemma_last_row_affine_mul(a: Seq<Seq<Frac>>, b: Seq<Seq<Frac>>)
    requires
        a.len() == 4,
        a[3].len() == 4,
        crate::laws::mat_canon(b, 4),
        b.len() == 4,
        last_row_affine(a),
    ensures
        forall|j: int| 0 <= j < 4 ==> #[trigger] mat_mul(a, b)[3][j] == b[3][j],
        last_row_affine(b) ==> last_row_affine(mat_mul(a, b)),
{
    assert forall|j: int| 0 <= j < 4 implies #[trigger] mat_mul(a, b)[3][j] == b[3][j] by {
        assert forall|q: int| 0 <= q < 4 implies canonical(#[trigger] col(b, j)[q]) by {}
        crate::laws::lemma_dot_unit_left(a[3], col(b, j), 3, 4);
        assert(mat_mul(a, b)[3][j] == dot(a[3], col(b, j)));
        assert(col(b, j)[3] == b[3][j]);
    }
}

/// A right inverse of an affine transform is itself affine: its last row
/// is the identity's.  This discharges [`last_row_affine`] for an
/// inverted camera transform before it is applied to points or vectors.
pub proof fn lemma_last_row_affine_inverse(t: Seq<Seq<Frac>>, x: Seq<Seq<Frac>>)
    requires
        t.len() == 4,
        t[3].len() == 4,
        crate::laws::mat_canon(x, 4),
        x.len() == 4,
        last_row_affine(t),
        mat_mul(t, x) == mat_identity(4),
    ensures
        last_row_affine(x),
{
    lemma_last_row_affine_mul(t, x);
    assert forall|j: int| 0 <= j < 4 implies #[trigger] x[3][j] == (if j == 3 {
        fone()
    } else {
        fzero()
    }) by {
        assert(mat_mul(t, x)[3][j] == x[3][j]);
        assert(mat_identity(4)[3][j] == (if j == 3 {
            fone()
        } else {
            fzero()
        }));
    }
}

/// Translations compose by adding their displacements.
pub proof fn lemma_translate_compose(x1: Frac, y1: Frac, z1: Frac, x2: Frac, y2: Frac, z2: Frac)
    requires
        canonical(x1),
        canonical(y1),
        canonical(z1),
        canonical(x2),
        canonical(y2),
        canonical(z2),
    ensures
        mat_mul(translate_spec(x1, y1, z1), translate_spec(x2, y2, z2)) == translate_spec(
            fadd(x1, x2),
            fadd(y1, y2),
            fadd(z1, z2),
        ),
{
    crate::frac::lemma_consts_canonical();
    let ta = translate_spec(x1, y1, z1);
    let tb = translate_spec(x2, y2, z2);
    let p = mat_mul(ta, tb);
    let ts = translate_spec(fadd(x1, x2), fadd(y1, y2), fadd(z1, z2));
    assert forall|i: int, j: int| 0 <= i < 4 && 0 <= j < 4 implies p[i][j] == ts[i][j] by {
        reveal_with_fuel(crate::matrix::dot_prefix, 6);
        assert(p[i][j] == dot(ta[i], col(tb, j)));
        assert forall|q: int| 0 <= q < 4 implies canonical(#[trigger] ta[i][q]) by {
            crate::frac::lemma_consts_canonical();
        }
        if j < 3 {
            assert forall|q: int| 0 <= q < 4 implies #[trigger] col(tb, j)[q] == (if q == j {
                fone()
            } else {
                fzero()
            }) by {}
            crate::laws::lemma_dot_unit_right(ta[i], col(tb, j), j, 4);
        } else {
            assert(col(tb, 3) =~= seq![x2, y2, z2, fone()]);
            if i == 0 {
                crate::frac::lemma_fmul_one_zero(x2);
                crate::frac::lemma_fmul_one_zero(y2);
                crate::frac::lemma_fmul_one_zero(z2);
                crate::frac::lemma_fmul_one_zero(x1);
                crate::frac::lemma_fadd_zero(x2);
                crate::frac::lemma_fadd_comm(x2, x1);
            } else if i == 1 {
                crate::frac::lemma_fmul_one_zero(x2);
                crate::frac::lemma_fmul_one_zero(y2);
                crate::frac::lemma_fmul_one_zero(z2);
                crate::frac::lemma_fmul_one_zero(y1);
                crate::frac::lemma_fadd_zero(fzero());
                crate::frac::lemma_fadd_zero(y2);
                crate::frac::lemma_fadd_comm(y2, y1);
            } else if i == 2 {
                crate::frac::lemma_fmul_one_zero(x2);
                crate::frac::lemma_fmul_one_zero(y2);
                crate::frac::lemma_fmul_one_zero(z2);
                crate::frac::lemma_fmul_one_zero(z1);
                crate::frac::lemma_fadd_zero(fzero());
                crate::frac::lemma_fadd_zero(z2);
                crate::frac::lemma_fadd_comm(z2, z1);
            } else {
                assert forall|q: int| 0 <= q < 4 implies #[trigger] ta[3][q] == (if q == 3 {
                    fone()
                } else {
                    fzero()
                }) by {}
                assert forall|q: int| 0 <= q < 4 implies canonical(#[trigger] col(tb, 3)[q]) by {
                    crate::frac::lemma_consts_canonical();
                }
                crate::laws::lemma_dot_unit_left(ta[3], col(tb, 3), 3, 4);
            }
        }
    }
    assert(p =~~= ts);
}

/// The inverse of a translation is the translation by the negated
/// displacement: the two compose to the identity either way around.
/// With the uniqueness of a right inverse this pins `translate(v)`'s
/// inverse to `translate(v.neg())`.
pub proof fn lemma_translate_inverse(x: Frac, y: Frac, z: Frac)
    requires
        canonical(x),
        canonical(y),
        canonical(z),
    ensures
        mat_mul(translate_spec(x, y, z), translate_spec(fneg(x), fneg(y), fneg(z)))
            == mat_identity(4),
        mat_mul(translate_spec(fneg(x), fneg(y), fneg(z)), translate_spec(x, y, z))
            == mat_identity(4),
{
    crate::frac::lemma_consts_canonical();
    crate::frac::lemma_fneg(x);
    crate::frac::lemma_fneg(y);
    crate::frac::lemma_fneg(z);
    lemma_translate_compose(x, y, z, fneg(x), fneg(y), fneg(z));
    lemma_translate_compose(fneg(x), fneg(y), fneg(z), x, y, z);
    assert(translate_spec(fzero(), fzero(), fzero()) =~~= mat_identity(4));
}

/// The last entry of an affine product is the last entry of the column.
proof fn lemma_transform_last(t: Seq<Seq<Frac>>, u: Seq<Seq<Frac>>, h: Frac)
    requires
        crate::laws::mat_canon(u, 1),
        u.len() == 4,
        t.len() == 4,
        t[3].len() == 4,
        last_row_affine(t),
        u[3][0] == h,
    ensures
        mat_mul(t, u)[3][0] == h,
{
    assert forall|q: int| 0 <= q < 4 implies canonical(#[trigger] col(u, 0)[q]) by {}
    crate::laws::lemma_dot_unit_left(t[3], col(u, 0), 3, 4);
    assert(mat_mul(t, u)[3][0] == dot(t[3], col(u, 0)));
    assert(col(u, 0)[3] == h);
}

} // verus!
