//! The algebraic laws of the matrix layer.
//!
//! Everything here is stated over the mathematical models alone: matrix
//! models are sequences of rows of canonical fractions, and the laws are
//! exact equalities — transposition reverses products, the identity is
//! neutral on both sides, an elementary row operation commutes with right
//! multiplication and can be undone, and a replayed elimination log turns
//! a solved right-hand side into a genuine solution.

use crate::frac::canonical;
use crate::frac::fadd;
use crate::frac::finv;
use crate::frac::fmul;
use crate::frac::fneg;
use crate::frac::fone;
use crate::frac::fzero;
use crate::frac::lemma_consts_canonical;
use crate::frac::lemma_fadd_assoc;
use crate::frac::lemma_fadd_comm;
use crate::frac::lemma_fadd_zero;
use crate::frac::lemma_fdistrib;
use crate::frac::lemma_finv;
use crate::frac::lemma_fmul_assoc;
use crate::frac::lemma_fmul_comm;
use crate::frac::lemma_fmul_neg;
use crate::frac::lemma_fmul_one_zero;
use crate::frac::lemma_fneg;
use crate::frac::lemma_ops_canonical;
use crate::frac::Frac;
use crate::matrix::col;
use crate::matrix::dot;
use crate::matrix::dot_prefix;
use crate::matrix::mat_identity;
use crate::matrix::mat_mul;
use crate::matrix::mat_transpose;
use crate::matrix::mat_wf;
use crate::rowops::apply_op;
use crate::rowops::capply_ops;
use crate::rowops::op_in_range;
use crate::rowops::op_wf;
use crate::rowops::ops_wf;
use crate::rowops::RowOpSpec;
use vstd::prelude::*;

verus! {

/// A matrix model fit for algebra: uniform dimensions and canonical
/// entries.  Weaker than [`mat_wf`]: the entries need not fit the
/// executable range.
pub open spec fn mat_canon(a: Seq<Seq<Frac>>, cc: int) -> bool {
    &&& a.len() >= 1
    &&& cc >= 1
    &&& forall|i: int| 0 <= i < a.len() ==> (#[trigger] a[i]).len() == cc
    &&& forall|i: int, j: int| 0 <= i < a.len() && 0 <= j < cc ==> canonical(#[trigger] a[i][j])
}

/// Executable well-formedness implies algebraic well-formedness.
pub proof fn lemma_wf_canon(a: Seq<Seq<Frac>>, cc: int)
    requires
        mat_wf(a, cc),
    ensures
        mat_canon(a, cc),
{
}

/// The identity model is algebraically well-formed.
pub proof fn lemma_identity_canon(n: int)
    requires
        n >= 1,
    ensures
        mat_canon(mat_identity(n), n),
{
    lemma_consts_canonical();
}

/// An inner product of canonical entries is canonical.
pub proof fn lemma_dot_canon(r: Seq<Frac>, c: Seq<Frac>, k: int)
    requires
        forall|q: int| 0 <= q < k ==> canonical(#[trigger] r[q]),
        forall|q: int| 0 <= q < k ==> canonical(#[trigger] c[q]),
    ensures
        canonical(dot_prefix(r, c, k)),
    decreases k,
{
    lemma_consts_canonical();
    if k > 0 {
        lemma_dot_canon(r, c, k - 1);
        lemma_ops_canonical(r[k - 1], c[k - 1]);
        lemma_ops_canonical(dot_prefix(r, c, k - 1), fmul(r[k - 1], c[k - 1]));
    }
}

/// A product of algebraically well-formed matrices is one.
pub proof fn lemma_mat_mul_canon(a: Seq<Seq<Frac>>, b: Seq<Seq<Frac>>, cc: int)
    requires
        mat_canon(a, b.len() as int),
        mat_canon(b, cc),
    ensures
        mat_canon(mat_mul(a, b), cc),
        mat_mul(a, b).len() == a.len(),
        forall|i: int| 0 <= i < a.len() ==> (#[trigger] mat_mul(a, b)[i]).len() == cc,
{
    assert forall|i: int, j: int|
        0 <= i < a.len() && 0 <= j < cc implies canonical(#[trigger] mat_mul(a, b)[i][j]) by {
        lemma_dot_canon(a[i], col(b, j), b.len() as int);
    }
}

/// Exact replay of a log, front to back, with no range checks.
pub open spec fn apply_ops(ops: Seq<RowOpSpec>, m: Seq<Seq<Frac>>) -> Seq<Seq<Frac>>
    decreases ops.len(),
{
    if ops.len() == 0 {
        m
    } else {
        apply_ops(ops.drop_first(), apply_op(ops[0], m))
    }
}

/// A checked replay that succeeds computes the exact replay.
pub proof fn lemma_capply_total(ops: Seq<RowOpSpec>, m: Seq<Seq<Frac>>)
    requires
        capply_ops(ops, m) is Some,
    ensures
        capply_ops(ops, m) == Some(apply_ops(ops, m)),
    decreases ops.len(),
{
    if ops.len() > 0 {
        lemma_capply_total(ops.drop_first(), apply_op(ops[0], m));
    }
}

/// One row operation preserves algebraic well-formedness.
pub proof fn lemma_apply_op_canon(op: RowOpSpec, m: Seq<Seq<Frac>>, cc: int)
    requires
        mat_canon(m, cc),
        op_in_range(op, m.len() as int),
    ensures
        mat_canon(apply_op(op, m), cc),
        apply_op(op, m).len() == m.len(),
{
    let m2 = apply_op(op, m);
    match op {
        RowOpSpec::Swap(r1, r2) => {},
        RowOpSpec::Add(r1, r2, k) => {
            assert forall|i: int, j: int|
                0 <= i < m2.len() && 0 <= j < cc implies canonical(#[trigger] m2[i][j]) by {
                if i == r2 {
                    lemma_ops_canonical(k, m[r1][j]);
                    lemma_ops_canonical(m[r2][j], fmul(k, m[r1][j]));
                }
            }
        },
        RowOpSpec::Mul(r, k) => {
            assert forall|i: int, j: int|
                0 <= i < m2.len() && 0 <= j < cc implies canonical(#[trigger] m2[i][j]) by {
                if i == r {
                    lemma_ops_canonical(k, m[r][j]);
                }
            }
        },
    }
}

/// A whole log preserves algebraic well-formedness.
pub proof fn lemma_apply_ops_canon(ops: Seq<RowOpSpec>, m: Seq<Seq<Frac>>, cc: int)
    requires
        mat_canon(m, cc),
        ops_wf(ops, m.len() as int),
    ensures
        mat_canon(apply_ops(ops, m), cc),
        apply_ops(ops, m).len() == m.len(),
    decreases ops.len(),
{
    if ops.len() > 0 {
        assert(op_wf(ops[0], m.len() as int));
        lemma_apply_op_canon(ops[0], m, cc);
        assert forall|i: int|
            0 <= i < ops.drop_first().len() implies op_wf(
            #[trigger] ops.drop_first()[i],
            apply_op(ops[0], m).len() as int,
        ) by {
            assert(ops.drop_first()[i] == ops[i + 1]);
            assert(op_wf(ops[i + 1], m.len() as int));
        }
        lemma_apply_ops_canon(ops.drop_first(), apply_op(ops[0], m), cc);
    }
}

/// The inner product against a unit row selects one entry of the column.
pub proof fn lemma_dot_unit_left(u: Seq<Frac>, c: Seq<Frac>, i: int, k: int)
    requires
        forall|q: int| 0 <= q < k ==> #[trigger] u[q] == (if q == i {
            fone()
        } else {
            fzero()
        }),
        forall|q: int| 0 <= q < k ==> canonical(#[trigger] c[q]),
        0 <= i,
    ensures
        dot_prefix(u, c, k) == (if i < k {
            c[i]
        } else {
            fzero()
        }),
    decreases k,
{
    lemma_consts_canonical();
    if k > 0 {
        lemma_dot_unit_left(u, c, i, k - 1);
        if k - 1 == i {
            lemma_fmul_one_zero(c[i]);
            lemma_fmul_comm(fone(), c[i]);
            lemma_fadd_comm(fzero(), c[i]);
            lemma_fadd_zero(c[i]);
        } else {
            lemma_fmul_one_zero(c[k - 1]);
            lemma_fmul_comm(fzero(), c[k - 1]);
            lemma_dot_canon(u, c, k - 1);
            lemma_fadd_zero(dot_prefix(u, c, k - 1));
        }
    }
}

/// The inner product against a unit column selects one entry of the row.
pub proof fn lemma_dot_unit_right(r: Seq<Frac>, u: Seq<Frac>, j: int, k: int)
    requires
        forall|q: int| 0 <= q < k ==> #[trigger] u[q] == (if q == j {
            fone()
        } else {
            fzero()
        }),
        forall|q: int| 0 <= q < k ==> canonical(#[trigger] r[q]),
        0 <= j,
    ensures
        dot_prefix(r, u, k) == (if j < k {
            r[j]
        } else {
            fzero()
        }),
    decreases k,
{
    lemma_consts_canonical();
    if k > 0 {
        lemma_dot_unit_right(r, u, j, k - 1);
        if k - 1 == j {
            lemma_fmul_one_zero(r[j]);
            lemma_fadd_comm(fzero(), r[j]);
            lemma_fadd_zero(r[j]);
        } else {
            lemma_fmul_one_zero(r[k - 1]);
            lemma_dot_canon(r, u, k - 1);
            lemma_fadd_zero(dot_prefix(r, u, k - 1));
        }
    }
}

/// Multiplying by the identity on the left leaves a matrix unchanged.
pub proof fn lemma_mul_identity_left(a: Seq<Seq<Frac>>, cc: int)
    requires
        mat_canon(a, cc),
    ensures
        mat_mul(mat_identity(a.len() as int), a) == a,
{
    let n = a.len() as int;
    let p = mat_mul(mat_identity(n), a);
    assert forall|i: int, j: int| 0 <= i < n && 0 <= j < cc implies p[i][j] == a[i][j] by {
        assert forall|q: int| 0 <= q < n implies #[trigger] mat_identity(n)[i][q] == (if q == i {
            fone()
        } else {
            fzero()
        }) by {}
        assert forall|q: int| 0 <= q < n implies canonical(#[trigger] col(a, j)[q]) by {}
        lemma_dot_unit_left(mat_identity(n)[i], col(a, j), i, n);
        assert(col(a, j)[i] == a[i][j]);
    }
    assert(p =~~= a);
}

/// Multiplying by the identity on the right leaves a matrix unchanged.
pub proof fn lemma_mul_identity_right(a: Seq<Seq<Frac>>, cc: int)
    requires
        mat_canon(a, cc),
    ensures
        mat_mul(a, mat_identity(cc)) == a,
{
    let p = mat_mul(a, mat_identity(cc));
    assert forall|i: int, j: int| 0 <= i < a.len() && 0 <= j < cc implies p[i][j] == a[i][j] by {
        assert forall|q: int| 0 <= q < cc implies #[trigger] col(mat_identity(cc), j)[q] == (
        if q == j {
            fone()
        } else {
            fzero()
        }) by {}
        lemma_dot_unit_right(a[i], col(mat_identity(cc), j), j, cc);
    }
    assert(p =~~= a);
}

/// The inner product does not depend on the order of its arguments.
proof fn lemma_dot_comm(r: Seq<Frac>, c: Seq<Frac>, k: int)
    requires
        forall|q: int| 0 <= q < k ==> canonical(#[trigger] r[q]),
        forall|q: int| 0 <= q < k ==> canonical(#[trigger] c[q]),
    ensures
        dot_prefix(r, c, k) == dot_prefix(c, r, k),
    decreases k,
{
    if k > 0 {
        lemma_dot_comm(r, c, k - 1);
        lemma_fmul_comm(r[k - 1], c[k - 1]);
    }
}

/// Four summands can be regrouped pairwise.
proof fn lemma_fadd_rearrange(a: Frac, b: Frac, c: Frac, d: Frac)
    requires
        canonical(a),
        canonical(b),
        canonical(c),
        canonical(d),
    ensures
        fadd(fadd(a, b), fadd(c, d)) == fadd(fadd(a, c), fadd(b, d)),
{
    lemma_ops_canonical(c, d);
    lemma_ops_canonical(b, c);
    lemma_ops_canonical(b, d);
    lemma_fadd_assoc(a, b, fadd(c, d));
    lemma_fadd_assoc(b, c, d);
    lemma_fadd_comm(b, c);
    lemma_fadd_assoc(c, b, d);
    lemma_fadd_assoc(a, c, fadd(b, d));
}

/// Scaling a row scales its inner products.
proof fn lemma_dot_scale(k: Frac, r: Seq<Frac>, sr: Seq<Frac>, c: Seq<Frac>, kk: int)
    requires
        canonical(k),
        forall|q: int| 0 <= q < kk ==> canonical(#[trigger] r[q]),
        forall|q: int| 0 <= q < kk ==> canonical(#[trigger] c[q]),
        forall|q: int| 0 <= q < kk ==> #[trigger] sr[q] == fmul(k, r[q]),
    ensures
        dot_prefix(sr, c, kk) == fmul(k, dot_prefix(r, c, kk)),
    decreases kk,
{
    lemma_consts_canonical();
    if kk <= 0 {
        lemma_fmul_one_zero(k);
    } else {
        lemma_dot_scale(k, r, sr, c, kk - 1);
        let x = r[kk - 1];
        let y = c[kk - 1];
        let d = dot_prefix(r, c, kk - 1);
        lemma_dot_canon(r, c, kk - 1);
        lemma_ops_canonical(x, y);
        lemma_fmul_assoc(k, x, y);
        lemma_fdistrib(k, d, fmul(x, y));
    }
}

/// A linear combination of rows gives the same combination of inner
/// products.
proof fn lemma_dot_linear(k: Frac, r1: Seq<Frac>, r2: Seq<Frac>, nr: Seq<Frac>, c: Seq<Frac>, kk: int)
    requires
        canonical(k),
        forall|q: int| 0 <= q < kk ==> canonical(#[trigger] r1[q]),
        forall|q: int| 0 <= q < kk ==> canonical(#[trigger] r2[q]),
        forall|q: int| 0 <= q < kk ==> canonical(#[trigger] c[q]),
        forall|q: int| 0 <= q < kk ==> #[trigger] nr[q] == fadd(r2[q], fmul(k, r1[q])),
    ensures
        dot_prefix(nr, c, kk) == fadd(
            dot_prefix(r2, c, kk),
            fmul(k, dot_prefix(r1, c, kk)),
        ),
    decreases kk,
{
    lemma_consts_canonical();
    if kk <= 0 {
        lemma_fmul_one_zero(k);
        lemma_fadd_zero(fzero());
    } else {
        lemma_dot_linear(k, r1, r2, nr, c, kk - 1);
        let x1 = r1[kk - 1];
        let x2 = r2[kk - 1];
        let y = c[kk - 1];
        let d1 = dot_prefix(r1, c, kk - 1);
        let d2 = dot_prefix(r2, c, kk - 1);
        lemma_dot_canon(r1, c, kk - 1);
        lemma_dot_canon(r2, c, kk - 1);
        lemma_ops_canonical(k, x1);
        lemma_ops_canonical(x2, fmul(k, x1));
        lemma_ops_canonical(k, d1);
        lemma_ops_canonical(x1, y);
        lemma_ops_canonical(x2, y);
        lemma_ops_canonical(k, fmul(x1, y));
        // Split the new term into its two parts.
        lemma_fmul_comm(fadd(x2, fmul(k, x1)), y);
        lemma_fdistrib(y, x2, fmul(k, x1));
        lemma_fmul_comm(y, x2);
        lemma_fmul_comm(y, fmul(k, x1));
        lemma_fmul_assoc(k, x1, y);
        assert(fmul(fadd(x2, fmul(k, x1)), y) == fadd(fmul(x2, y), fmul(k, fmul(x1, y))));
        // Regroup the four summands.
        lemma_fadd_rearrange(d2, fmul(k, d1), fmul(x2, y), fmul(k, fmul(x1, y)));
        lemma_fdistrib(k, d1, fmul(x1, y));
    }
}

/// An elementary row operation on the left factor commutes with matrix
/// multiplication.
pub proof fn lemma_op_commute(op: RowOpSpec, a: Seq<Seq<Frac>>, b: Seq<Seq<Frac>>, cc: int)
    requires
        mat_canon(a, b.len() as int),
        mat_canon(b, cc),
        op_in_range(op, a.len() as int),
    ensures
        mat_mul(apply_op(op, a), b) == apply_op(op, mat_mul(a, b)),
{
    let n = b.len() as int;
    let p = mat_mul(a, b);
    let lhs = mat_mul(apply_op(op, a), b);
    let rhs = apply_op(op, p);
    lemma_mat_mul_canon(a, b, cc);
    match op {
        RowOpSpec::Swap(r1, r2) => {
            assert forall|i: int, j: int|
                0 <= i < a.len() && 0 <= j < cc implies lhs[i][j] == rhs[i][j] by {
                if i == r1 {
                    assert(apply_op(op, a)[i] == a[r2]);
                } else if i == r2 {
                    assert(apply_op(op, a)[i] == a[r1]);
                } else {
                    assert(apply_op(op, a)[i] == a[i]);
                }
            }
            assert(lhs =~~= rhs);
        },
        RowOpSpec::Mul(r, k) => {
            assert forall|i: int, j: int|
                0 <= i < a.len() && 0 <= j < cc implies lhs[i][j] == rhs[i][j] by {
                if i == r {
                    assert forall|q: int|
                        0 <= q < n implies #[trigger] apply_op(op, a)[r][q] == fmul(
                        k,
                        a[r][q],
                    ) by {}
                    lemma_dot_scale(k, a[r], apply_op(op, a)[r], col(b, j), n);
                } else {
                    assert(apply_op(op, a)[i] == a[i]);
                }
            }
            assert(lhs =~~= rhs);
        },
        RowOpSpec::Add(r1, r2, k) => {
            assert forall|i: int, j: int|
                0 <= i < a.len() && 0 <= j < cc implies lhs[i][j] == rhs[i][j] by {
                if i == r2 {
                    assert forall|q: int|
                        0 <= q < n implies #[trigger] apply_op(op, a)[r2][q] == fadd(
                        a[r2][q],
                        fmul(k, a[r1][q]),
                    ) by {}
                    lemma_dot_linear(k, a[r1], a[r2], apply_op(op, a)[r2], col(b, j), n);
                } else {
                    assert(apply_op(op, a)[i] == a[i]);
                }
            }
            assert(lhs =~~= rhs);
        },
    }
}

/// The inverse of an elementary row operation.
pub open spec fn inv_op(op: RowOpSpec) -> RowOpSpec {
    match op {
        RowOpSpec::Swap(r1, r2) => RowOpSpec::Swap(r1, r2),
        RowOpSpec::Add(r1, r2, k) => RowOpSpec::Add(r1, r2, fneg(k)),
        RowOpSpec::Mul(r, k) => RowOpSpec::Mul(r, finv(k)),
    }
}

/// An invertible elementary row operation can be undone.
pub proof fn lemma_op_inverse(op: RowOpSpec, m: Seq<Seq<Frac>>, cc: int)
    requires
        mat_canon(m, cc),
        op_wf(op, m.len() as int),
    ensures
        apply_op(inv_op(op), apply_op(op, m)) == m,
{
    let m1 = apply_op(op, m);
    let m2 = apply_op(inv_op(op), m1);
    match op {
        RowOpSpec::Swap(r1, r2) => {
            assert(m2 =~~= m);
        },
        RowOpSpec::Mul(r, k) => {
            lemma_finv(k);
            assert forall|i: int, j: int|
                0 <= i < m.len() && 0 <= j < cc implies m2[i][j] == m[i][j] by {
                if i == r {
                    let x = m[r][j];
                    assert(m1[r][j] == fmul(k, x));
                    assert(m2[r][j] == fmul(finv(k), fmul(k, x)));
                    lemma_fmul_assoc(finv(k), k, x);
                    lemma_fmul_one_zero(x);
                    lemma_fmul_comm(fone(), x);
                }
            }
            assert(m2 =~~= m);
        },
        RowOpSpec::Add(r1, r2, k) => {
            lemma_fneg(k);
            assert forall|i: int, j: int|
                0 <= i < m.len() && 0 <= j < cc implies m2[i][j] == m[i][j] by {
                if i == r2 {
                    let x = m[r2][j];
                    let y = m[r1][j];
                    assert(m1[r2][j] == fadd(x, fmul(k, y)));
                    assert(m1[r1][j] == y);
                    assert(m2[r2][j] == fadd(fadd(x, fmul(k, y)), fmul(fneg(k), y)));
                    lemma_fmul_neg(k, y);
                    lemma_ops_canonical(k, y);
                    lemma_fmul_neg(k, y);
                    lemma_fadd_assoc(x, fmul(k, y), fneg(fmul(k, y)));
                    lemma_fneg(fmul(k, y));
                    lemma_fadd_zero(x);
                }
            }
            assert(m2 =~~= m);
        },
    }
}

/// If a log turns `a` into `u` and `b` into `v`, a solution of
/// `u * x == v` solves `a * x == b`.
pub proof fn lemma_mul_cancel_ops(
    ops: Seq<RowOpSpec>,
    a: Seq<Seq<Frac>>,
    b: Seq<Seq<Frac>>,
    x: Seq<Seq<Frac>>,
    cc: int,
)
    requires
        ops_wf(ops, a.len() as int),
        mat_canon(a, x.len() as int),
        mat_canon(x, cc),
        mat_canon(b, cc),
        b.len() == a.len(),
        mat_mul(apply_ops(ops, a), x) == apply_ops(ops, b),
    ensures
        mat_mul(a, x) == b,
    decreases ops.len(),
{
    if ops.len() == 0 {
    } else {
        let op = ops[0];
        assert(op_wf(op, a.len() as int));
        let a1 = apply_op(op, a);
        let b1 = apply_op(op, b);
        lemma_apply_op_canon(op, a, x.len() as int);
        lemma_apply_op_canon(op, b, cc);
        assert forall|i: int|
            0 <= i < ops.drop_first().len() implies op_wf(
            #[trigger] ops.drop_first()[i],
            a1.len() as int,
        ) by {
            assert(ops.drop_first()[i] == ops[i + 1]);
            assert(op_wf(ops[i + 1], a.len() as int));
        }
        lemma_mul_cancel_ops(ops.drop_first(), a1, b1, x, cc);
        lemma_op_commute(op, a, x, cc);
        lemma_mat_mul_canon(a, x, cc);
        lemma_op_inverse(op, mat_mul(a, x), cc);
        lemma_op_inverse(op, b, cc);
    }
}

/// Replaying a log on the left factor commutes with multiplication.
pub proof fn lemma_apply_ops_mul(
    ops: Seq<RowOpSpec>,
    a: Seq<Seq<Frac>>,
    b: Seq<Seq<Frac>>,
    cc: int,
)
    requires
        ops_wf(ops, a.len() as int),
        mat_canon(a, b.len() as int),
        mat_canon(b, cc),
    ensures
        mat_mul(apply_ops(ops, a), b) == apply_ops(ops, mat_mul(a, b)),
    decreases ops.len(),
{
    if ops.len() > 0 {
        let op = ops[0];
        assert(op_wf(op, a.len() as int));
        let a1 = apply_op(op, a);
        lemma_apply_op_canon(op, a, b.len() as int);
        assert forall|i: int|
            0 <= i < ops.drop_first().len() implies op_wf(
            #[trigger] ops.drop_first()[i],
            a1.len() as int,
        ) by {
            assert(ops.drop_first()[i] == ops[i + 1]);
            assert(op_wf(ops[i + 1], a.len() as int));
        }
        lemma_apply_ops_mul(ops.drop_first(), a1, b, cc);
        lemma_op_commute(op, a, b, cc);
        lemma_mat_mul_canon(a, b, cc);
        lemma_apply_op_canon(op, mat_mul(a, b), cc);
    }
}

/// A length-four inner product, written out as its four summands.
pub proof fn lemma_dot4(r: Seq<Frac>, c: Seq<Frac>)
    requires
        r.len() == 4,
        c.len() >= 4,
        forall|q: int| 0 <= q < 4 ==> canonical(#[trigger] r[q]),
        forall|q: int| 0 <= q < 4 ==> canonical(#[trigger] c[q]),
    ensures
        dot(r, c) == fadd(
            fadd(fadd(fmul(r[0], c[0]), fmul(r[1], c[1])), fmul(r[2], c[2])),
            fmul(r[3], c[3]),
        ),
{
    reveal_with_fuel(dot_prefix, 5);
    lemma_ops_canonical(r[0], c[0]);
    lemma_fadd_zero(fmul(r[0], c[0]));
}

/// A right inverse is unique, pinned by any elimination log that reduces
/// the matrix to the identity: the log applied to the identity is the one
/// inverse.  Together with the identity `T(v) * T(-v) == identity` this
/// pins the inverse of a translation to the negated translation.
pub proof fn lemma_right_inverse_unique(
    log: Seq<RowOpSpec>,
    a: Seq<Seq<Frac>>,
    x: Seq<Seq<Frac>>,
    y: Seq<Seq<Frac>>,
    n: int,
)
    requires
        n >= 1,
        a.len() == n,
        y.len() == n,
        ops_wf(log, n),
        mat_canon(a, n),
        mat_canon(y, n),
        apply_ops(log, a) == mat_identity(n),
        apply_ops(log, mat_identity(n)) == x,
        mat_mul(a, y) == mat_identity(n),
    ensures
        y == x,
{
    lemma_identity_canon(n);
    lemma_apply_ops_mul(log, a, y, n);
    lemma_mul_identity_left(y, n);
}

/// Transposition reverses a product: `(A B)^T == B^T A^T`.
pub proof fn lemma_mul_transpose(a: Seq<Seq<Frac>>, b: Seq<Seq<Frac>>, cc: int)
    requires
        mat_canon(a, b.len() as int),
        mat_canon(b, cc),
    ensures
        mat_transpose(mat_mul(a, b)) == mat_mul(mat_transpose(b), mat_transpose(a)),
{
    let n = b.len() as int;
    let lhs = mat_transpose(mat_mul(a, b));
    let rhs = mat_mul(mat_transpose(b), mat_transpose(a));
    lemma_mat_mul_canon(a, b, cc);
    assert forall|j: int, i: int| 0 <= j < cc && 0 <= i < a.len() implies lhs[j][i]
        == rhs[j][i] by {
        assert(lhs[j][i] == dot(a[i], col(b, j)));
        assert(col(mat_transpose(a), i) =~= a[i]);
        assert(mat_transpose(b)[j] =~= col(b, j));
        assert(rhs[j][i] == dot(col(b, j), a[i]));
        assert forall|q: int|
            0 <= q < n implies canonical(#[trigger] a[i][q]) && canonical(
            #[trigger] col(b, j)[q],
        ) by {}
        lemma_dot_comm(a[i], col(b, j), n);
    }
    assert(lhs =~~= rhs);
}

} // verus!
