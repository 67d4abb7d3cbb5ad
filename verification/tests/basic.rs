use proforma::affine::{rotate_x, rotate_y, rotate_z, scale, transform_point, translate, Point, Vector};
use proforma::forms::{Ellipsoid, ImplicitForm, QuadraticForm};
use proforma::matrix::Matrix;
use proforma::rat::Rat;
use proforma::rowops::RowOp;

fn rq(n: i64, d: i64) -> Rat {
    Rat::new(n, d).unwrap()
}

fn ri(n: i64) -> Rat {
    Rat::from_int(n)
}

fn mat(rows: Vec<Vec<i64>>) -> Matrix {
    let data: Vec<Vec<Rat>> = rows
        .into_iter()
        .map(|r| r.into_iter().map(ri).collect())
        .collect();
    Matrix::from_data(data)
}

fn assert_mat_eq(a: &Matrix, b: &Matrix) {
    assert_eq!(a.num_rows(), b.num_rows());
    assert_eq!(a.num_cols(), b.num_cols());
    for i in 0..a.num_rows() {
        for j in 0..a.num_cols() {
            assert_eq!(a.at(i, j), b.at(i, j), "entry ({i}, {j}) differs");
        }
    }
}

#[test]
fn rat_arithmetic_is_exact_and_canonical() {
    let half = rq(1, 2);
    let third = rq(1, 3);
    let sum = half.add(third).unwrap();
    assert_eq!(sum, rq(5, 6));
    let prod = half.mul(third).unwrap();
    assert_eq!(prod, rq(1, 6));
    assert_eq!(rq(2, 4), half);
    assert_eq!(rq(-3, -6), half);
    assert_eq!(rq(3, -6), rq(-1, 2));
    assert_eq!(half.sub(third).unwrap(), rq(1, 6));
    assert_eq!(half.recip(), ri(2));
    assert_eq!(half.div(third).unwrap(), rq(3, 2));
    assert_eq!(ri(7).neg(), ri(-7));
    assert!(Rat::new(1, 0).is_none());
    assert!(Rat::zero().is_zero());
    assert!(!Rat::one().is_zero());
}

#[test]
fn rat_overflow_is_reported_not_wrapped() {
    let big = ri(i64::MAX);
    assert!(big.mul(big).is_none());
    assert!(big.add(ri(1)).is_none());
    assert!(big.add(ri(-1)).is_some());
}

#[test]
fn matrix_construction_and_access() {
    let z = Matrix::zero(2, 3);
    assert_eq!(z.num_rows(), 2);
    assert_eq!(z.num_cols(), 3);
    for i in 0..2 {
        for j in 0..3 {
            assert!(z.at(i, j).is_zero());
        }
    }
    let id = Matrix::identity(3);
    for i in 0..3 {
        for j in 0..3 {
            let expect = if i == j { ri(1) } else { ri(0) };
            assert_eq!(id.at(i, j), expect);
        }
    }
    let d = Matrix::diagonal(&vec![ri(2), ri(5)]);
    assert_eq!(d.at(0, 0), ri(2));
    assert_eq!(d.at(1, 1), ri(5));
    assert!(d.at(0, 1).is_zero());
    let mut m = mat(vec![vec![1, 2], vec![3, 4]]);
    assert_eq!(m.at(1, 0), ri(3));
    m.at_mut(1, 0, ri(9));
    assert_eq!(m.at(1, 0), ri(9));
    assert_eq!(m.num_rows(), 2);
}

#[test]
fn matrix_raw_is_row_major() {
    let m = mat(vec![vec![1, 2, 3], vec![4, 5, 6]]);
    let flat = m.raw();
    assert_eq!(flat.len(), 6);
    let expected = [1i64, 2, 3, 4, 5, 6];
    for (k, v) in expected.iter().enumerate() {
        assert_eq!(flat[k], ri(*v));
    }
}

#[test]
fn matrix_add_and_mul_are_exact() {
    let a = mat(vec![vec![1, 2], vec![3, 4]]);
    let b = mat(vec![vec![5, 6], vec![7, 8]]);
    let s = a.add(&b).unwrap();
    assert_mat_eq(&s, &mat(vec![vec![6, 8], vec![10, 12]]));
    let p = a.mul(&b).unwrap();
    assert_mat_eq(&p, &mat(vec![vec![19, 22], vec![43, 50]]));
    let one_by_one = mat(vec![vec![7]]);
    assert_eq!(one_by_one.num(), ri(7));
}

#[test]
fn transpose_of_product_reverses_factors() {
    let a = mat(vec![vec![1, 2], vec![3, 4]]);
    let b = mat(vec![vec![0, 1], vec![5, -2]]);
    let lhs = a.mul(&b).unwrap().transpose();
    let rhs = b.transpose().mul(&a.transpose()).unwrap();
    assert_mat_eq(&lhs, &rhs);
}

#[test]
fn identity_is_neutral_for_composition() {
    let t = mat(vec![vec![2, 0, 0, 1], vec![0, 3, 0, -1], vec![0, 0, 1, 5], vec![0, 0, 0, 1]]);
    let id = Matrix::identity(4);
    assert_mat_eq(&id.mul(&t).unwrap(), &t);
    assert_mat_eq(&t.mul(&id).unwrap(), &t);
}

#[test]
fn inverse_times_matrix_is_identity() {
    let a = mat(vec![vec![2, 1], vec![1, 1]]);
    let inv = a.inverse().unwrap();
    assert_mat_eq(&inv, &mat(vec![vec![1, -1], vec![-1, 2]]));
    assert_mat_eq(&a.mul(&inv).unwrap(), &Matrix::identity(2));
    assert_mat_eq(&inv.mul(&a).unwrap(), &Matrix::identity(2));
    let b = mat(vec![vec![1, 2, 0], vec![0, 1, 3], vec![4, 0, 1]]);
    let binv = b.inverse().unwrap();
    assert_mat_eq(&b.mul(&binv).unwrap(), &Matrix::identity(3));
    assert_mat_eq(&binv.mul(&b).unwrap(), &Matrix::identity(3));
}

#[test]
fn singular_matrix_has_no_inverse() {
    let s = mat(vec![vec![1, 2], vec![2, 4]]);
    assert!(s.inverse().is_none());
    assert!(s.gaussian_elimination_with_partial_pivoting().is_none());
    let z = Matrix::zero(3, 3);
    assert!(z.inverse().is_none());
}

#[test]
fn solve_linear_system_solves() {
    let a = mat(vec![vec![2, 1], vec![1, 3]]);
    let rhs = mat(vec![vec![5], vec![10]]);
    let x = a.solve_linear_system(rhs.clone()).unwrap();
    assert_eq!(x.at(0, 0), ri(1));
    assert_eq!(x.at(1, 0), ri(3));
    assert_mat_eq(&a.mul(&x).unwrap(), &rhs);
}

#[test]
fn elimination_on_diagonal_keeps_structure() {
    let d = Matrix::diagonal(&vec![ri(2), ri(-3), ri(5)]);
    let (u, ops) = d.gaussian_elimination_with_partial_pivoting().unwrap();
    assert_mat_eq(&u, &Matrix::identity(3));
    for op in &ops {
        assert!(!matches!(op, RowOp::Swap(_, _)), "no swap expected on a diagonal matrix");
    }
    // The recorded scalings normalize each pivot to one.
    let mut replay = d.duplicate();
    assert!(replay.apply_row_ops(&ops));
    assert_mat_eq(&replay, &Matrix::identity(3));
}

#[test]
fn row_operations_mutate_in_place() {
    let mut m = mat(vec![vec![1, 2], vec![3, 4]]);
    m.swap_rows(0, 1);
    assert_mat_eq(&m, &mat(vec![vec![3, 4], vec![1, 2]]));
    assert!(m.mutiply_row(0, rq(1, 3)));
    assert_eq!(m.at(0, 0), ri(1));
    assert_eq!(m.at(0, 1), rq(4, 3));
    assert!(m.add_row1_to_row2(0, 1, ri(-1)));
    assert_eq!(m.at(1, 0), ri(0));
    assert_eq!(m.at(1, 1), rq(2, 3));
    let ops = vec![RowOp::Swap(0, 1), RowOp::Mul(0, ri(2)), RowOp::Add(0, 1, ri(1))];
    let mut n = mat(vec![vec![1, 0], vec![0, 1]]);
    assert!(n.apply_row_ops(&ops));
    assert_eq!(n.at(0, 0), ri(0));
    assert_eq!(n.at(0, 1), ri(2));
    assert_eq!(n.at(1, 0), ri(1));
    assert_eq!(n.at(1, 1), ri(2));
}

#[test]
fn point_and_vector_keep_homogeneous_coordinates() {
    let p = Point::new(ri(1), ri(2), ri(3));
    let v = Vector::new(ri(4), ri(5), ri(6));
    assert_eq!(p.at(3), ri(1));
    assert_eq!(v.at(3), ri(0));
    let q = p.add(&v).unwrap();
    assert_eq!(q.at(0), ri(5));
    assert_eq!(q.at(3), ri(1));
    let w = v.add(&v).unwrap();
    assert_eq!(w.at(1), ri(10));
    assert_eq!(w.at(3), ri(0));
    let pv = v.add_point(&p).unwrap();
    assert_eq!(pv.at(2), ri(9));
    assert_eq!(pv.at(3), ri(1));
    let nv = v.neg();
    assert_eq!(nv.at(0), ri(-4));
    assert_eq!(nv.at(3), ri(0));
    let np = p.neg();
    assert_eq!(np.at(1), ri(-2));
    assert_eq!(np.at(3), ri(1));
    let d = v.dot(&v).unwrap();
    assert_eq!(d, ri(16 + 25 + 36));
    let vp = Vector::to_point(p);
    assert_eq!(vp.at(0), ri(1));
    assert_eq!(vp.at(3), ri(0));
}

#[test]
fn rotations_compose_to_identity() {
    // (cos, sin) = (3/5, 4/5) lies on the unit circle exactly.
    let c = rq(3, 5);
    let s = rq(4, 5);
    let id = Matrix::identity(4);
    let rx = rotate_x(c, s).mul(&rotate_x(c, s.neg())).unwrap();
    assert_mat_eq(&rx, &id);
    let ry = rotate_y(c, s).mul(&rotate_y(c, s.neg())).unwrap();
    assert_mat_eq(&ry, &id);
    let rz = rotate_z(c, s).mul(&rotate_z(c, s.neg())).unwrap();
    assert_mat_eq(&rz, &id);
}

#[test]
fn translation_inverse_is_negated_translation() {
    let v = Vector::new(ri(2), ri(-3), rq(1, 2));
    let t = translate(&v);
    let tinv = t.inverse().unwrap();
    let texp = translate(&v.neg());
    assert_mat_eq(&tinv, &texp);
}

#[test]
fn transforms_move_points_and_vectors() {
    let v = Vector::new(ri(1), ri(2), ri(3));
    let t = translate(&v);
    let p = Point::new(ri(10), ri(20), ri(30));
    let q = transform_point(&t, &p).unwrap();
    assert_eq!(q.at(0), ri(11));
    assert_eq!(q.at(1), ri(22));
    assert_eq!(q.at(2), ri(33));
    assert_eq!(q.at(3), ri(1));
    let sc = scale(ri(2), ri(3), ri(4));
    let sp = transform_point(&sc, &p).unwrap();
    assert_eq!(sp.at(0), ri(20));
    assert_eq!(sp.at(2), ri(120));
    assert_eq!(sp.at(3), ri(1));
    // Rotation about z by the exact (3/5, 4/5) angle.
    let r = rotate_z(rq(3, 5), rq(4, 5));
    let w = proforma::affine::transform_vector(&r, &Vector::new(ri(5), ri(0), ri(0))).unwrap();
    assert_eq!(w.at(0), ri(3));
    assert_eq!(w.at(1), ri(4));
    assert_eq!(w.at(3), ri(0));
}

#[test]
fn ellipsoid_round_trip() {
    let unit = Ellipsoid::with_radii(ri(1), ri(1), ri(1)).unwrap();
    let q = unit.quadratic_form_matrix();
    assert_mat_eq(&q, &mat(vec![
        vec![1, 0, 0, 0],
        vec![0, 1, 0, 0],
        vec![0, 0, 1, 0],
        vec![0, 0, 0, -1],
    ]));
    let e = Ellipsoid::with_radii(ri(2), ri(1), ri(1)).unwrap();
    let qe = e.quadratic_form_matrix();
    assert_eq!(qe.at(0, 0), rq(1, 4));
    assert_eq!(qe.at(1, 1), ri(1));
    assert_eq!(qe.at(2, 2), ri(1));
    assert_eq!(qe.at(3, 3), ri(-1));
    assert!(Ellipsoid::with_radii(ri(0), ri(1), ri(1)).is_none());
}

#[test]
fn unit_sphere_surface_membership() {
    let unit = Ellipsoid::with_radii(ri(1), ri(1), ri(1)).unwrap();
    let on_surface = Point::new(ri(1), ri(0), ri(0));
    assert_eq!(unit.contains_point(&on_surface).unwrap(), true);
    let center = Point::new(ri(0), ri(0), ri(0));
    assert_eq!(unit.contains_point(&center).unwrap(), false);
    let outside = Point::new(ri(2), ri(0), ri(0));
    assert_eq!(unit.contains_point(&outside).unwrap(), false);
    assert_eq!(unit.implicit_form_value(&center).unwrap(), ri(-1));
    assert_eq!(unit.implicit_form_value(&outside).unwrap(), ri(3));
}

#[test]
fn gradient_points_outward() {
    let unit = Ellipsoid::with_radii(ri(1), ri(1), ri(1)).unwrap();
    let p = Point::new(ri(1), ri(0), ri(0));
    let g = proforma::forms::DifferentialForm::derivative_at(&unit, &p).unwrap();
    assert_eq!(g.at(0), ri(2));
    assert_eq!(g.at(1), ri(0));
    assert_eq!(g.at(2), ri(0));
    assert_eq!(g.at(3), ri(0));
}
