//! Gaussian elimination with partial pivoting, back-substitution, linear
//! solving and inversion.
//!
//! Pivoting selects, in each pivot column, the **first** row at or below
//! the pivot position with a non-zero entry — a non-zero test, not a
//! magnitude comparison; with exact rational arithmetic this choice is
//! always sound.  Every step is recorded as a row operation, and the log
//! replayed against any right-hand side performs the same transformation.
//!
//! The functions are deterministic refinements of the spec-level mirror
//! [`gauss_spec`]: elimination returns a result exactly when the mirror
//! does, so a caller knows from the model alone whether a matrix is
//! reported singular ([`Gauss::Sing`]) or an intermediate value left the
//! representable range ([`Gauss::Ovf`]).

use crate::frac::fadd;
use crate::frac::finv;
use crate::frac::fmul;
use crate::frac::fneg;
use crate::frac::fone;
use crate::frac::fzero;
use crate::frac::lemma_consts_canonical;
use crate::frac::lemma_fadd_zero;
use crate::frac::lemma_finv;
use crate::frac::lemma_fmul_one_zero;
use crate::frac::lemma_fneg;
use crate::frac::Frac;
use crate::laws::apply_ops;
use crate::laws::lemma_capply_total;
use crate::laws::lemma_identity_canon;
use crate::laws::lemma_mul_cancel_ops;
use crate::laws::lemma_mul_identity_left;
use crate::laws::lemma_apply_ops_mul;
use crate::laws::lemma_wf_canon;
use crate::matrix::mat_identity;
use crate::matrix::mat_mul;
use crate::matrix::mat_wf;
use crate::matrix::Matrix;
use crate::rowops::lemma_capply_ops_append;
use crate::rat::cadd;
use crate::rat::cmul;
use crate::rat::rat_wf;
use crate::rowops::apply_op;
use crate::rowops::capply_op;
use crate::rowops::capply_ops;
use crate::rowops::lemma_capply_ops_snoc;
use crate::rowops::op_ok;
use crate::rowops::op_wf;
use crate::rowops::ops_view;
use crate::rowops::ops_wf;
use crate::rowops::RowOp;
use crate::rowops::RowOpSpec;
use vstd::math::min;
use vstd::prelude::*;

verus! {

/// Outcome of the elimination mirror: a reduced matrix with its operation
/// log, a singularity report, or an unrepresentable intermediate value.
pub ghost enum Gauss {
    Go(Seq<Seq<Frac>>, Seq<RowOpSpec>),
    Sing,
    Ovf,
}

/// The first row at or below `r` whose entry in column `i` is non-zero,
/// or `-1` if the column has none.
pub open spec fn find_pivot(m: Seq<Seq<Frac>>, i: int, r: int) -> int
    decreases m.len() - r,
{
    if r < 0 || r >= m.len() {
        -1
    } else if m[r][i].n != 0 {
        r
    } else {
        find_pivot(m, i, r + 1)
    }
}

/// Eliminate column `i` from rows `i + 1` up to `r`, front to back,
/// recording one combination per row.
pub open spec fn elim_below(m: Seq<Seq<Frac>>, i: int, r: int) -> Option<
    (Seq<Seq<Frac>>, Seq<RowOpSpec>),
>
    decreases r - i,
{
    if r <= i + 1 {
        Some((m, Seq::empty()))
    } else {
        match elim_below(m, i, r - 1) {
            None => None,
            Some((m2, ops)) => {
                let op = RowOpSpec::Add(i, r - 1, fneg(m2[r - 1][i]));
                match capply_op(op, m2) {
                    None => None,
                    Some(m3) => Some((m3, ops.push(op))),
                }
            },
        }
    }
}

/// One column of the elimination: pivot search, optional swap, pivot
/// normalization, elimination below.
pub open spec fn gauss_col(m: Seq<Seq<Frac>>, ops: Seq<RowOpSpec>, i: int) -> Gauss {
    let p = find_pivot(m, i, i);
    if p < 0 {
        Gauss::Sing
    } else {
        let m1 = if p != i {
            apply_op(RowOpSpec::Swap(i, p), m)
        } else {
            m
        };
        let ops1 = if p != i {
            ops.push(RowOpSpec::Swap(i, p))
        } else {
            ops
        };
        let mulop = RowOpSpec::Mul(i, finv(m1[i][i]));
        match capply_op(mulop, m1) {
            None => Gauss::Ovf,
            Some(m2) => match elim_below(m2, i, m.len() as int) {
                None => Gauss::Ovf,
                Some((m3, ops3)) => Gauss::Go(m3, ops1.push(mulop) + ops3),
            },
        }
    }
}

/// The elimination mirror after the first `i` columns.
pub open spec fn gauss_upto(a: Seq<Seq<Frac>>, i: int) -> Gauss
    decreases i,
{
    if i <= 0 {
        Gauss::Go(a, Seq::empty())
    } else {
        match gauss_upto(a, i - 1) {
            Gauss::Go(m, ops) => gauss_col(m, ops, i - 1),
            s => s,
        }
    }
}

/// The full elimination mirror of a matrix model.
pub open spec fn gauss_spec(a: Seq<Seq<Frac>>) -> Gauss {
    gauss_upto(a, min(a.len() as int, a[0].len() as int))
}

/// Unit row-echelon shape over the first `k` columns: ones on the
/// diagonal, zeros below it.
pub open spec fn unit_echelon(m: Seq<Seq<Frac>>, k: int) -> bool {
    &&& forall|c: int| 0 <= c < k ==> #[trigger] m[c][c] == fone()
    &&& forall|c: int, r: int| 0 <= c < k && c < r < m.len() ==> #[trigger] m[r][c] == fzero()
}

/// Pivot search characterization: skipping a prefix of zeros does not
/// change the outcome.
proof fn lemma_find_pivot(m: Seq<Seq<Frac>>, i: int, r0: int, r: int)
    requires
        0 <= r0 <= r <= m.len(),
        forall|q: int| r0 <= q < r ==> (#[trigger] m[q][i]).n == 0,
        r < m.len() ==> m[r][i].n != 0,
    ensures
        find_pivot(m, i, r0) == (if r == m.len() {
            -1 as int
        } else {
            r
        }),
    decreases r - r0,
{
    if r0 < r {
        lemma_find_pivot(m, i, r0 + 1, r);
    }
}

/// A mirror that has failed stays failed through later columns.
proof fn lemma_gauss_absorb(a: Seq<Seq<Frac>>, i: int, j: int)
    requires
        0 <= i <= j,
        !(gauss_upto(a, i) is Go),
    ensures
        gauss_upto(a, j) == gauss_upto(a, i),
    decreases j - i,
{
    if i < j {
        lemma_gauss_absorb(a, i, j - 1);
    }
}

impl Matrix {
    /// Reduce to unit row-echelon form, recording every operation.
    ///
    /// Returns the reduced matrix and the replayable log, or `None` when a
    /// pivot column has no non-zero entry at or below the pivot position
    /// (the matrix is reported singular over the worked columns) or when an
    /// intermediate value cannot be represented.
    #[verifier::rlimit(100)]
    pub fn gaussian_elimination_with_partial_pivoting(&self) -> (r: Option<(Matrix, Vec<RowOp>)>)
        requires
            self.wf(),
        ensures
            r is Some <==> gauss_spec(self@) is Go,
            r is Some ==> ({
                let (u, ops) = r.unwrap();
                &&& u.wf()
                &&& u.nrows() == self.nrows()
                &&& u.ncols() == self.ncols()
                &&& gauss_spec(self@) == Gauss::Go(u@, ops_view(ops@))
                &&& capply_ops(ops_view(ops@), self@) == Some(u@)
                &&& ops_wf(ops_view(ops@), self.nrows())
                &&& unit_echelon(u@, min(self.nrows(), self.ncols()))
            }),
    {
        let rows = self.num_rows();
        let cols = self.num_cols();
        let lim = if rows < cols {
            rows
        } else {
            cols
        };
        let mut cur = self.duplicate();
        let mut ops: Vec<RowOp> = Vec::new();
        proof {
            assert(ops_view(ops@) =~= Seq::<RowOpSpec>::empty());
        }
        let mut i: usize = 0;
        while i < lim
            invariant
                self.wf(),
                rows as int == self.nrows(),
                cols as int == self.ncols(),
                lim as int == min(self.nrows(), self.ncols()),
                i <= lim,
                cur.wf(),
                cur.nrows() == self.nrows(),
                cur.ncols() == self.ncols(),
                gauss_upto(self@, i as int) == Gauss::Go(cur@, ops_view(ops@)),
                capply_ops(ops_view(ops@), self@) == Some(cur@),
                ops_wf(ops_view(ops@), self.nrows()),
                unit_echelon(cur@, i as int),
            decreases lim - i,
        {
            let ghost m0 = cur@;
            let ghost ops0 = ops_view(ops@);
            // Find the first non-zero entry in column i, at or below row i.
            let mut p: usize = i;
            while p < rows && cur.at(p, i).is_zero()
                invariant
                    cur.wf(),
                    rows as int == cur.nrows(),
                    i < lim,
                    lim as int <= cur.nrows(),
                    lim as int <= cur.ncols(),
                    i <= p <= rows,
                    forall|q: int| i as int <= q < p as int ==> (#[trigger] cur@[q][i as int]).n == 0,
                decreases rows - p,
            {
                p += 1;
            }
            if p == rows {
                proof {
                    lemma_find_pivot(cur@, i as int, i as int, rows as int);
                    assert(gauss_col(m0, ops0, i as int) == Gauss::Sing);
                    assert(gauss_upto(self@, i as int + 1) == Gauss::Sing);
                    lemma_gauss_absorb(self@, i as int + 1, lim as int);
                }
                return None;
            }
            proof {
                lemma_find_pivot(cur@, i as int, i as int, p as int);
            }
            if p != i {
                ops.push(RowOp::Swap(i, p));
                proof {
                    lemma_capply_ops_snoc(ops0, RowOpSpec::Swap(i as int, p as int), self@);
                    assert(ops_view(ops@) =~= ops0.push(RowOpSpec::Swap(i as int, p as int)));
                }
                cur.swap_rows(i, p);
                proof {
                    assert forall|c: int| 0 <= c < i as int implies #[trigger] cur@[c][c]
                        == fone() by {
                        assert(cur@[c] == m0[c]);
                    }
                    assert forall|c: int, r2: int|
                        0 <= c < i as int && c < r2 < cur@.len() implies #[trigger] cur@[r2][c]
                        == fzero() by {
                        if r2 == i as int {
                            assert(cur@[r2] == m0[p as int]);
                        } else if r2 == p as int {
                            assert(cur@[r2] == m0[i as int]);
                        } else {
                            assert(cur@[r2] == m0[r2]);
                        }
                    }
                }
            }
            let ghost m1 = cur@;
            let ghost ops1 = ops_view(ops@);
            proof {
                assert(find_pivot(m0, i as int, i as int) == p as int);
                if p != i {
                    assert(m1 == apply_op(RowOpSpec::Swap(i as int, p as int), m0));
                    assert(m1[i as int] == m0[p as int]);
                } else {
                    assert(m1 == m0);
                }
                assert(m1[i as int][i as int].n != 0);
                assert(unit_echelon(m1, i as int));
            }
            let pivot = cur.at(i, i);
            let k = pivot.recip();
            ops.push(RowOp::Mul(i, k));
            proof {
                lemma_capply_ops_snoc(ops1, RowOpSpec::Mul(i as int, k@), self@);
                assert(ops_view(ops@) =~= ops1.push(RowOpSpec::Mul(i as int, k@)));
            }
            if !cur.mutiply_row(i, k) {
                proof {
                    assert(k@ == finv(m1[i as int][i as int]));
                    assert(capply_op(RowOpSpec::Mul(i as int, k@), m1) is None);
                    assert(gauss_col(m0, ops0, i as int) == Gauss::Ovf);
                    assert(gauss_upto(self@, i as int + 1) == Gauss::Ovf);
                    lemma_gauss_absorb(self@, i as int + 1, lim as int);
                }
                return None;
            }
            let ghost m2 = cur@;
            let ghost base = ops_view(ops@);
            proof {
                lemma_finv(pivot@);
                assert(cur@[i as int][i as int] == fmul(finv(pivot@), pivot@));
                assert forall|c: int| 0 <= c < i as int implies #[trigger] cur@[c][c]
                    == fone() by {
                    assert(cur@[c] == m1[c]);
                }
                assert forall|c: int, r2: int|
                    0 <= c < i as int && c < r2 < cur@.len() implies #[trigger] cur@[r2][c]
                    == fzero() by {
                    if r2 == i as int {
                        lemma_fmul_one_zero(k@);
                        assert(cur@[r2][c] == fmul(k@, m1[r2][c]));
                    } else {
                        assert(cur@[r2] == m1[r2]);
                    }
                }
            }
            let mut r: usize = i + 1;
            while r < rows
                invariant
                    self.wf(),
                    rows as int == self.nrows(),
                    cols as int == self.ncols(),
                    i < lim,
                    lim as int == min(self.nrows(), self.ncols()),
                    i as int + 1 <= r as int <= rows as int,
                    cur.wf(),
                    cur.nrows() == self.nrows(),
                    cur.ncols() == self.ncols(),
                    i <= p < rows,
                    m0.len() == rows as int,
                    gauss_upto(self@, i as int) == Gauss::Go(m0, ops0),
                    find_pivot(m0, i as int, i as int) == p as int,
                    m1 == (if p != i {
                        apply_op(RowOpSpec::Swap(i as int, p as int), m0)
                    } else {
                        m0
                    }),
                    ops1 == (if p != i {
                        ops0.push(RowOpSpec::Swap(i as int, p as int))
                    } else {
                        ops0
                    }),
                    k@ == finv(m1[i as int][i as int]),
                    capply_op(RowOpSpec::Mul(i as int, k@), m1) == Some(m2),
                    base == ops1.push(RowOpSpec::Mul(i as int, k@)),
                    elim_below(m2, i as int, r as int) == Some(
                        (cur@, ops_view(ops@).skip(base.len() as int)),
                    ),
                    ops_view(ops@).take(base.len() as int) =~= base,
                    ops_view(ops@).len() >= base.len(),
                    capply_ops(ops_view(ops@), self@) == Some(cur@),
                    ops_wf(ops_view(ops@), self.nrows()),
                    unit_echelon(cur@, i as int),
                    cur@[i as int][i as int] == fone(),
                    forall|q: int|
                        (i as int) < q && q < r as int ==> (#[trigger] cur@[q][i as int])
                            == fzero(),
                decreases rows - r,
            {
                let ghost mprev = cur@;
                let ghost opsprev = ops_view(ops@);
                let mult = cur.at(r, i).neg();
                let ghost x = cur@[r as int][i as int];
                ops.push(RowOp::Add(i, r, mult));
                proof {
                    lemma_capply_ops_snoc(
                        opsprev,
                        RowOpSpec::Add(i as int, r as int, mult@),
                        self@,
                    );
                    assert(ops_view(ops@) =~= opsprev.push(
                        RowOpSpec::Add(i as int, r as int, mult@),
                    ));
                }
                if !cur.add_row1_to_row2(i, r, mult) {
                    proof {
                        assert(elim_below(m2, i as int, r as int + 1) is None);
                        lemma_elim_below_none(m2, i as int, r as int + 1, rows as int);
                        assert(gauss_col(m0, ops0, i as int) == Gauss::Ovf);
                        assert(gauss_upto(self@, i as int + 1) == Gauss::Ovf);
                        lemma_gauss_absorb(self@, i as int + 1, lim as int);
                    }
                    return None;
                }
                proof {
                    assert(ops_view(ops@).skip(base.len() as int) =~= opsprev.skip(
                        base.len() as int,
                    ).push(RowOpSpec::Add(i as int, r as int, mult@)));
                    assert(ops_view(ops@).take(base.len() as int) =~= base);
                    // The new row r: zeros in earlier columns are preserved,
                    // and column i is cleared.
                    lemma_fneg(x);
                    lemma_fmul_one_zero(fneg(x));
                    assert(cur@[r as int][i as int] == fadd(x, fmul(fneg(x), fone())));
                    assert(cur@[r as int][i as int] == fzero());
                    assert forall|c: int| 0 <= c < i as int implies #[trigger] cur@[c][c]
                        == fone() by {
                        assert(cur@[c] == mprev[c]);
                    }
                    assert forall|c: int, r2: int|
                        0 <= c < i as int && c < r2 < cur@.len() implies #[trigger] cur@[r2][c]
                        == fzero() by {
                        if r2 == r as int {
                            lemma_fmul_one_zero(fneg(x));
                            lemma_consts_canonical();
                            lemma_fadd_zero(fzero());
                            assert(cur@[r2][c] == fadd(mprev[r2][c], fmul(fneg(x), mprev[i as int][c])));
                        } else {
                            assert(cur@[r2] == mprev[r2]);
                        }
                    }
                    assert forall|q: int|
                        (i as int) < q < r as int + 1 implies (#[trigger] cur@[q][i as int])
                        == fzero() by {
                        if q < r as int {
                            assert(cur@[q] == mprev[q]);
                        }
                    }
                }
                r += 1;
            }
            proof {
                assert(gauss_col(m0, ops0, i as int) == Gauss::Go(
                    cur@,
                    ops1.push(RowOpSpec::Mul(i as int, k@)) + ops_view(ops@).skip(
                        base.len() as int,
                    ),
                ));
                assert(ops_view(ops@) =~= base + ops_view(ops@).skip(base.len() as int));
                assert(gauss_upto(self@, i as int + 1) == Gauss::Go(cur@, ops_view(ops@)));
                assert forall|c: int| 0 <= c < i as int + 1 implies #[trigger] cur@[c][c]
                    == fone() by {}
                assert(unit_echelon(cur@, i as int + 1));
            }
            i += 1;
        }
        Some((cur, ops))
    }
}

/// Clear column `i` above the diagonal, for rows `0` up to `j`, front to
/// back, recording one combination per row.
pub open spec fn back_col(m: Seq<Seq<Frac>>, i: int, j: int) -> Option<
    (Seq<Seq<Frac>>, Seq<RowOpSpec>),
>
    decreases j,
{
    if j <= 0 {
        Some((m, Seq::empty()))
    } else {
        match back_col(m, i, j - 1) {
            None => None,
            Some((m2, ops)) => {
                let op = RowOpSpec::Add(i, j - 1, fneg(m2[j - 1][i]));
                match capply_op(op, m2) {
                    None => None,
                    Some(m3) => Some((m3, ops.push(op))),
                }
            },
        }
    }
}

/// The back-substitution mirror after the last `c` columns, processed from
/// the last column backward.
pub open spec fn back_upto(m: Seq<Seq<Frac>>, c: int) -> Option<(Seq<Seq<Frac>>, Seq<RowOpSpec>)>
    decreases c,
{
    if c <= 0 {
        Some((m, Seq::empty()))
    } else {
        match back_upto(m, c - 1) {
            None => None,
            Some((m2, ops)) => {
                let i = m.len() - c;
                match back_col(m2, i, i) {
                    None => None,
                    Some((m3, ops3)) => Some((m3, ops + ops3)),
                }
            },
        }
    }
}

/// The full back-substitution mirror of a square matrix model.
pub open spec fn back_spec(m: Seq<Seq<Frac>>) -> Option<(Seq<Seq<Frac>>, Seq<RowOpSpec>)> {
    back_upto(m, m.len() as int)
}

/// The solving mirror: eliminate, back-substitute, and replay both logs
/// against the right-hand side.
pub open spec fn solve_spec(a: Seq<Seq<Frac>>, b: Seq<Seq<Frac>>) -> Option<Seq<Seq<Frac>>> {
    match gauss_spec(a) {
        Gauss::Go(u, ops1) => match back_spec(u) {
            None => None,
            Some((d, ops2)) => match capply_ops(ops1, b) {
                None => None,
                Some(b1) => capply_ops(ops2, b1),
            },
        },
        _ => None,
    }
}

/// The inversion mirror: solve against the identity.
pub open spec fn inverse_spec(a: Seq<Seq<Frac>>) -> Option<Seq<Seq<Frac>>> {
    solve_spec(a, mat_identity(a.len() as int))
}

/// A failed back column stays failed as more rows are processed.
proof fn lemma_back_col_none(m: Seq<Seq<Frac>>, i: int, j: int, j2: int)
    requires
        j <= j2,
        back_col(m, i, j) is None,
    ensures
        back_col(m, i, j2) is None,
    decreases j2 - j,
{
    if j < j2 {
        lemma_back_col_none(m, i, j, j2 - 1);
    }
}

/// A failed back-substitution stays failed as more columns are processed.
proof fn lemma_back_upto_none(m: Seq<Seq<Frac>>, c: int, c2: int)
    requires
        c <= c2,
        back_upto(m, c) is None,
    ensures
        back_upto(m, c2) is None,
    decreases c2 - c,
{
    if c < c2 {
        lemma_back_upto_none(m, c, c2 - 1);
    }
}

impl Matrix {
    /// Clear everything above the diagonal of an upper-triangular matrix,
    /// column by column from the last row backward, returning the recorded
    /// operation log; `None` reports an unrepresentable intermediate value.
    ///
    /// When the input is in unit row-echelon form the recorded operations
    /// reduce it to the identity.
    #[verifier::rlimit(100)]
    pub fn diagonalization_of_gaussed(&self) -> (r: Option<Vec<RowOp>>)
        requires
            self.wf(),
            self.nrows() == self.ncols(),
        ensures
            r is Some <==> back_spec(self@) is Some,
            r is Some ==> ({
                let ops = r.unwrap();
                let (mf, opsv) = back_spec(self@).unwrap();
                &&& opsv == ops_view(ops@)
                &&& ops_wf(ops_view(ops@), self.nrows())
                &&& capply_ops(ops_view(ops@), self@) == Some(mf)
                &&& (unit_echelon(self@, self.nrows()) ==> mf == mat_identity(self.nrows()))
            }),
    {
        let n = self.num_rows();
        let mut cur = self.duplicate();
        let mut ops: Vec<RowOp> = Vec::new();
        proof {
            assert(ops_view(ops@) =~= Seq::<RowOpSpec>::empty());
        }
        let mut i: usize = n;
        while i > 0
            invariant
                self.wf(),
                self.nrows() == self.ncols(),
                n as int == self.nrows(),
                i <= n,
                cur.wf(),
                cur.nrows() == self.nrows(),
                cur.ncols() == self.ncols(),
                back_upto(self@, n as int - i as int) == Some((cur@, ops_view(ops@))),
                capply_ops(ops_view(ops@), self@) == Some(cur@),
                ops_wf(ops_view(ops@), self.nrows()),
                unit_echelon(self@, n as int) ==> ({
                    &&& forall|c: int, q: int|
                        i as int <= c < n as int && 0 <= q < n as int ==> (#[trigger] cur@[q][c])
                            == (if q == c {
                            fone()
                        } else {
                            fzero()
                        })
                    &&& forall|c: int, q: int|
                        0 <= c < i as int && 0 <= q < n as int ==> (#[trigger] cur@[q][c])
                            == self@[q][c]
                }),
            decreases i,
        {
            i -= 1;
            let ghost mcol = cur@;
            let ghost base = ops_view(ops@);
            let mut j: usize = 0;
            while j < i
                invariant
                    self.wf(),
                    self.nrows() == self.ncols(),
                    n as int == self.nrows(),
                    i < n,
                    j <= i,
                    cur.wf(),
                    cur.nrows() == self.nrows(),
                    cur.ncols() == self.ncols(),
                    back_upto(self@, n as int - i as int - 1) == Some((mcol, base)),
                    back_col(mcol, i as int, j as int) == Some(
                        (cur@, ops_view(ops@).skip(base.len() as int)),
                    ),
                    ops_view(ops@).take(base.len() as int) =~= base,
                    ops_view(ops@).len() >= base.len(),
                    capply_ops(ops_view(ops@), self@) == Some(cur@),
                    ops_wf(ops_view(ops@), self.nrows()),
                    unit_echelon(self@, n as int) ==> ({
                        &&& forall|c: int, q: int|
                            (i as int) < c < n as int && 0 <= q < n as int ==> (
                            #[trigger] cur@[q][c]) == (if q == c {
                                fone()
                            } else {
                                fzero()
                            })
                        &&& forall|c: int, q: int|
                            0 <= c <= i as int && 0 <= q < n as int ==> (#[trigger] cur@[q][c]) == (
                            if c == i as int && q < j as int {
                                fzero()
                            } else {
                                self@[q][c]
                            })
                    }),
                decreases i - j,
            {
                let ghost mprev = cur@;
                let ghost opsprev = ops_view(ops@);
                let mult = cur.at(j, i).neg();
                let ghost x = cur@[j as int][i as int];
                ops.push(RowOp::Add(i, j, mult));
                proof {
                    lemma_capply_ops_snoc(opsprev, RowOpSpec::Add(i as int, j as int, mult@), self@);
                    assert(ops_view(ops@) =~= opsprev.push(
                        RowOpSpec::Add(i as int, j as int, mult@),
                    ));
                }
                if !cur.add_row1_to_row2(i, j, mult) {
                    proof {
                        assert(back_col(mcol, i as int, j as int + 1) is None);
                        lemma_back_col_none(mcol, i as int, j as int + 1, i as int);
                        assert(back_upto(self@, n as int - i as int) is None);
                        lemma_back_upto_none(self@, n as int - i as int, n as int);
                    }
                    return None;
                }
                proof {
                    assert(ops_view(ops@).skip(base.len() as int) =~= opsprev.skip(
                        base.len() as int,
                    ).push(RowOpSpec::Add(i as int, j as int, mult@)));
                    assert(ops_view(ops@).take(base.len() as int) =~= base);
                    if unit_echelon(self@, n as int) {
                        lemma_fneg(x);
                        lemma_fmul_one_zero(fneg(x));
                        lemma_consts_canonical();
                        // Row i of the working matrix is the i-th unit row.
                        assert forall|c: int| 0 <= c < n as int implies mprev[i as int][c] == (
                        if c == i as int {
                            fone()
                        } else {
                            fzero()
                        }) by {
                            if c < i as int {
                                assert(mprev[i as int][c] == self@[i as int][c]);
                            } else if c == i as int {
                                assert(mprev[i as int][c] == self@[i as int][c]);
                            }
                        }
                        assert(cur@[j as int][i as int] == fadd(x, fmul(fneg(x), fone())));
                        assert(cur@[j as int][i as int] == fzero());
                        assert forall|c: int, q: int|
                            (i as int) < c < n as int && 0 <= q < n as int implies (
                        #[trigger] cur@[q][c]) == (if q == c {
                            fone()
                        } else {
                            fzero()
                        }) by {
                            if q == j as int {
                                assert(rat_wf(mprev[q][c]));
                                lemma_fadd_zero(mprev[q][c]);
                                assert(cur@[q][c] == fadd(mprev[q][c], fmul(fneg(x), fzero())));
                            } else {
                                assert(cur@[q] == mprev[q]);
                            }
                        }
                        assert forall|c: int, q: int|
                            0 <= c <= i as int && 0 <= q < n as int implies (#[trigger] cur@[q][c])
                            == (if c == i as int && q < j as int + 1 {
                            fzero()
                        } else {
                            self@[q][c]
                        }) by {
                            if q == j as int {
                                if c < i as int {
                                    assert(rat_wf(mprev[q][c]));
                                    lemma_fadd_zero(mprev[q][c]);
                                    assert(cur@[q][c] == fadd(mprev[q][c], fmul(fneg(x), fzero())));
                                }
                            } else {
                                assert(cur@[q] == mprev[q]);
                            }
                        }
                    }
                }
                j += 1;
            }
            proof {
                assert(back_col(mcol, i as int, i as int) == Some(
                    (cur@, ops_view(ops@).skip(base.len() as int)),
                ));
                assert(ops_view(ops@) =~= base + ops_view(ops@).skip(base.len() as int));
                assert(back_upto(self@, n as int - i as int) == Some((cur@, ops_view(ops@))));
            }
        }
        proof {
            if unit_echelon(self@, n as int) {
                assert(cur@ =~~= mat_identity(n as int));
            }
        }
        Some(ops)
    }

    /// Solve `self * x == constant_terms` for square `self` by replaying
    /// both elimination logs against the right-hand side.
    pub fn solve_linear_system(&self, constant_terms: Matrix) -> (r: Option<Matrix>)
        requires
            self.wf(),
            self.nrows() == self.ncols(),
            constant_terms.wf(),
            constant_terms.nrows() == self.nrows(),
        ensures
            r is Some <==> solve_spec(self@, constant_terms@) is Some,
            r is Some ==> ({
                let x = r.unwrap();
                &&& x.wf()
                &&& x.nrows() == constant_terms.nrows()
                &&& x.ncols() == constant_terms.ncols()
                &&& Some(x@) == solve_spec(self@, constant_terms@)
                &&& mat_mul(self@, x@) == constant_terms@
                &&& exists|log: Seq<RowOpSpec>|
                    ops_wf(log, self.nrows()) && #[trigger] apply_ops(log, self@) == mat_identity(
                        self.nrows(),
                    ) && apply_ops(log, constant_terms@) == x@
            }),
    {
        let gauss = match self.gaussian_elimination_with_partial_pivoting() {
            None => {
                return None;
            },
            Some(g) => g,
        };
        let (upper_triangular, gauss_ops) = gauss;
        let solution_ops = match upper_triangular.diagonalization_of_gaussed() {
            None => {
                return None;
            },
            Some(ops) => ops,
        };
        let mut x = constant_terms;
        if !x.apply_row_ops(&gauss_ops) {
            return None;
        }
        if !x.apply_row_ops(&solution_ops) {
            return None;
        }
        proof {
            let n = self.nrows();
            let cc = constant_terms.ncols();
            let a = self@;
            let b = constant_terms@;
            let ops1 = ops_view(gauss_ops@);
            let ops2 = ops_view(solution_ops@);
            let log = ops1 + ops2;
            lemma_capply_ops_append(ops1, ops2, a);
            lemma_capply_ops_append(ops1, ops2, b);
            assert(capply_ops(log, a) == Some(mat_identity(n)));
            assert(capply_ops(log, b) == Some(x@));
            lemma_capply_total(log, a);
            lemma_capply_total(log, b);
            assert forall|q: int| 0 <= q < log.len() implies op_wf(#[trigger] log[q], n) by {
                if q < ops1.len() {
                    assert(log[q] == ops1[q]);
                } else {
                    assert(log[q] == ops2[q - ops1.len()]);
                }
            }
            lemma_wf_canon(a, n);
            lemma_wf_canon(b, cc);
            lemma_wf_canon(x@, cc);
            lemma_mul_identity_left(x@, cc);
            lemma_mul_cancel_ops(log, a, b, x@, cc);
        }
        Some(x)
    }

    /// The inverse of a square matrix: solve against the identity.
    /// Absent when elimination reports the matrix singular or an
    /// intermediate value is unrepresentable.
    pub fn inverse(&self) -> (r: Option<Matrix>)
        requires
            self.wf(),
            self.nrows() == self.ncols(),
        ensures
            r is Some <==> inverse_spec(self@) is Some,
            r is Some ==> ({
                let x = r.unwrap();
                &&& x.wf()
                &&& x.nrows() == self.nrows()
                &&& x.ncols() == self.nrows()
                &&& Some(x@) == inverse_spec(self@)
                &&& mat_mul(self@, x@) == mat_identity(self.nrows())
                &&& mat_mul(x@, self@) == mat_identity(self.nrows())
            }),
    {
        let n = self.num_rows();
        let r = self.solve_linear_system(Matrix::identity(n));
        proof {
            if r is Some {
                let x = r.unwrap();
                let log = choose|log: Seq<RowOpSpec>|
                    ops_wf(log, self.nrows()) && #[trigger] apply_ops(log, self@)
                        == mat_identity(self.nrows()) && apply_ops(log, mat_identity(n as int))
                        == x@;
                lemma_identity_canon(n as int);
                lemma_wf_canon(self@, self.ncols());
                lemma_apply_ops_mul(log, mat_identity(n as int), self@, self.ncols());
                lemma_mul_identity_left(self@, self.ncols());
            }
        }
        r
    }
}

/// A square model whose off-diagonal entries are all zero.
pub open spec fn mat_is_diagonal(a: Seq<Seq<Frac>>) -> bool {
    forall|i: int, j: int|
        0 <= i < a.len() && 0 <= j < a.len() && i != j ==> #[trigger] a[i][j] == fzero()
}

/// A log that contains no row exchange.
pub open spec fn no_swaps(ops: Seq<RowOpSpec>) -> bool {
    forall|q: int| 0 <= q < ops.len() ==> !((#[trigger] ops[q]) is Swap)
}

/// Eliminating below a pivot over rows that are already zero in the pivot
/// column changes nothing: every recorded combination has a zero
/// multiplier.
/// A log of operations that change nothing: scalings by one and
/// combinations with a zero multiplier.
pub open spec fn trivial_ops(ops: Seq<RowOpSpec>) -> bool {
    forall|q: int|
        0 <= q < ops.len() ==> match #[trigger] ops[q] {
            RowOpSpec::Swap(r1, r2) => false,
            RowOpSpec::Add(r1, r2, k) => k == fzero(),
            RowOpSpec::Mul(r, k) => k == fone(),
        }
}

/// Replaying a log of trivial operations leaves any well-formed matrix
/// unchanged.
#[verifier::spinoff_prover]
pub proof fn lemma_capply_trivial(ops: Seq<RowOpSpec>, m: Seq<Seq<Frac>>, cc: int)
    requires
        mat_wf(m, cc),
        trivial_ops(ops),
        crate::rowops::ops_in_range(ops, m.len() as int),
    ensures
        capply_ops(ops, m) == Some(m),
    decreases ops.len(),
{
    lemma_consts_canonical();
    if ops.len() > 0 {
        let op = ops[0];
        match op {
            RowOpSpec::Swap(r1, r2) => {},
            RowOpSpec::Add(r1, r2, k) => {
                assert forall|j: int| 0 <= j < m[r2].len() implies #[trigger] cmul(
                    fzero(),
                    m[r1][j],
                ) is Some && cadd(m[r2][j], fmul(fzero(), m[r1][j])) is Some by {
                    assert(rat_wf(m[r1][j]));
                    assert(rat_wf(m[r2][j]));
                    lemma_fmul_one_zero(m[r1][j]);
                    lemma_fadd_zero(m[r2][j]);
                }
                assert(op_ok(op, m));
                assert forall|j: int| 0 <= j < cc implies #[trigger] apply_op(op, m)[r2][j]
                    == m[r2][j] by {
                    assert(rat_wf(m[r1][j]));
                    assert(rat_wf(m[r2][j]));
                    lemma_fmul_one_zero(m[r1][j]);
                    lemma_fadd_zero(m[r2][j]);
                }
                assert(apply_op(op, m) =~~= m);
            },
            RowOpSpec::Mul(r, k) => {
                assert forall|j: int| 0 <= j < m[r].len() implies #[trigger] cmul(
                    fone(),
                    m[r][j],
                ) is Some by {
                    assert(rat_wf(m[r][j]));
                    lemma_fmul_one_zero(m[r][j]);
                }
                assert(op_ok(op, m));
                assert forall|j: int| 0 <= j < cc implies #[trigger] apply_op(op, m)[r][j]
                    == m[r][j] by {
                    assert(rat_wf(m[r][j]));
                    lemma_fmul_one_zero(m[r][j]);
                }
                assert(apply_op(op, m) =~~= m);
            },
        }
        assert forall|q: int|
            0 <= q < ops.drop_first().len() implies crate::rowops::op_in_range(
            #[trigger] ops.drop_first()[q],
            m.len() as int,
        ) && match ops.drop_first()[q] {
            RowOpSpec::Swap(r1, r2) => false,
            RowOpSpec::Add(r1, r2, k) => k == fzero(),
            RowOpSpec::Mul(r, k) => k == fone(),
        } by {
            assert(ops.drop_first()[q] == ops[q + 1]);
        }
        lemma_capply_trivial(ops.drop_first(), m, cc);
    }
}

proof fn lemma_elim_below_zero(m: Seq<Seq<Frac>>, i: int, r: int, cc: int)
    requires
        mat_wf(m, cc),
        0 <= i < m.len(),
        i + 1 <= r <= m.len(),
        forall|q: int| i < q < m.len() ==> #[trigger] m[q][i] == fzero(),
    ensures
        elim_below(m, i, r) is Some,
        elim_below(m, i, r).unwrap().0 == m,
        no_swaps(elim_below(m, i, r).unwrap().1),
        trivial_ops(elim_below(m, i, r).unwrap().1),
        crate::rowops::ops_in_range(elim_below(m, i, r).unwrap().1, m.len() as int),
    decreases r - i,
{
    lemma_consts_canonical();
    if r <= i + 1 {
    } else {
        lemma_elim_below_zero(m, i, r - 1, cc);
        let op = RowOpSpec::Add(i, r - 1, fneg(m[r - 1][i]));
        assert(fneg(m[r - 1][i]) == fzero());
        assert forall|j: int| 0 <= j < m[r - 1].len() implies #[trigger] cmul(
            fzero(),
            m[i][j],
        ) is Some && cadd(m[r - 1][j], fmul(fzero(), m[i][j])) is Some by {
            assert(rat_wf(m[i][j]));
            assert(rat_wf(m[r - 1][j]));
            lemma_fmul_one_zero(m[i][j]);
            lemma_fadd_zero(m[r - 1][j]);
        }
        assert(op_ok(op, m));
        let m2 = apply_op(op, m);
        assert forall|j: int| 0 <= j < cc implies #[trigger] m2[r - 1][j] == m[r - 1][j] by {
            assert(rat_wf(m[i][j]));
            assert(rat_wf(m[r - 1][j]));
            lemma_fmul_one_zero(m[i][j]);
            lemma_fadd_zero(m[r - 1][j]);
        }
        assert(m2 =~~= m);
        assert(elim_below(m, i, r).unwrap().1 =~= elim_below(m, i, r - 1).unwrap().1.push(op));
    }
}

/// Partially eliminated state of a diagonal matrix: still diagonal, the
/// first `i` pivots normalized to one, the rest untouched.
spec fn diag_progress(a: Seq<Seq<Frac>>, m: Seq<Seq<Frac>>, i: int) -> bool {
    &&& m.len() == a.len()
    &&& mat_is_diagonal(m)
    &&& forall|q: int| 0 <= q < i ==> #[trigger] m[q][q] == fone()
    &&& forall|q: int| i <= q < m.len() ==> #[trigger] m[q][q] == a[q][q]
}

/// The elimination mirror on a diagonal matrix with non-zero diagonal:
/// it swaps nothing and normalizes each pivot in place.
proof fn lemma_gauss_upto_diagonal(a: Seq<Seq<Frac>>, i: int)
    requires
        mat_wf(a, a.len() as int),
        mat_is_diagonal(a),
        forall|q: int| 0 <= q < a.len() ==> (#[trigger] a[q][q]).n != 0,
        0 <= i <= a.len(),
    ensures
        ({
            &&& gauss_upto(a, i) matches Gauss::Go(m, ops)
            &&& diag_progress(a, gauss_upto(a, i)->Go_0, i)
            &&& no_swaps(gauss_upto(a, i)->Go_1)
            &&& mat_wf(gauss_upto(a, i)->Go_0, a.len() as int)
        }),
    decreases i,
{
    lemma_consts_canonical();
    let n = a.len() as int;
    if i <= 0 {
        assert(no_swaps(Seq::<RowOpSpec>::empty()));
    } else {
        lemma_gauss_upto_diagonal(a, i - 1);
        let m = gauss_upto(a, i - 1)->Go_0;
        let ops = gauss_upto(a, i - 1)->Go_1;
        let c = i - 1;
        // The pivot is already in place: no swap is recorded.
        assert(m[c][c] == a[c][c]);
        lemma_find_pivot(m, c, c, c);
        assert(find_pivot(m, c, c) == c);
        let pivot = m[c][c];
        assert(rat_wf(pivot));
        let k = finv(pivot);
        lemma_finv(pivot);
        // Scaling the pivot row only normalizes the pivot.
        assert forall|j: int| 0 <= j < m[c].len() implies #[trigger] cmul(k, m[c][j]) is Some by {
            if j == c {
                assert(fmul(k, pivot) == fone());
            } else {
                lemma_fmul_one_zero(k);
                assert(fmul(k, m[c][j]) == fzero());
            }
        }
        let mulop = RowOpSpec::Mul(c, k);
        assert(op_ok(mulop, m));
        let m2 = apply_op(mulop, m);
        assert forall|q: int, w: int|
            0 <= q < n && 0 <= w < n implies #[trigger] m2[q][w] == (if q == c && w == c {
            fone()
        } else {
            m[q][w]
        }) by {
            if q == c {
                if w == c {
                    assert(m2[q][w] == fmul(k, pivot));
                } else {
                    lemma_fmul_one_zero(k);
                    assert(m2[q][w] == fmul(k, m[q][w]));
                }
            } else {
                assert(m2[q] == m[q]);
            }
        }
        assert(mat_wf(m2, n));
        lemma_elim_below_zero(m2, c, n, n);
        let m3 = elim_below(m2, c, n).unwrap().0;
        let ops3 = elim_below(m2, c, n).unwrap().1;
        assert(gauss_col(m, ops, c) == Gauss::Go(m3, ops.push(mulop) + ops3));
        assert forall|q: int|
            0 <= q < (ops.push(mulop) + ops3).len() implies !((#[trigger] (ops.push(mulop)
            + ops3)[q]) is Swap) by {
            if q < ops.len() {
                assert((ops.push(mulop) + ops3)[q] == ops[q]);
            } else if q == ops.len() {
                assert((ops.push(mulop) + ops3)[q] == mulop);
            } else {
                assert((ops.push(mulop) + ops3)[q] == ops3[q - ops.len() - 1]);
            }
        }
    }
}

/// Elimination is a no-op on a matrix already in unit row-echelon form:
/// every pivot is found in place, every scaling is by one, every recorded
/// combination has a zero multiplier.
#[verifier::spinoff_prover]
proof fn lemma_gauss_upto_echelon(a: Seq<Seq<Frac>>, i: int)
    requires
        mat_wf(a, a.len() as int),
        unit_echelon(a, a.len() as int),
        0 <= i <= a.len(),
    ensures
        ({
            &&& gauss_upto(a, i) matches Gauss::Go(m, ops)
            &&& gauss_upto(a, i)->Go_0 == a
            &&& trivial_ops(gauss_upto(a, i)->Go_1)
            &&& crate::rowops::ops_in_range(gauss_upto(a, i)->Go_1, a.len() as int)
        }),
    decreases i,
{
    lemma_consts_canonical();
    let n = a.len() as int;
    if i <= 0 {
    } else {
        lemma_gauss_upto_echelon(a, i - 1);
        let ops = gauss_upto(a, i - 1)->Go_1;
        let c = i - 1;
        assert(a[c][c] == fone());
        lemma_find_pivot(a, c, c, c);
        assert(find_pivot(a, c, c) == c);
        let k = finv(a[c][c]);
        crate::frac::lemma_fnorm_id(fone());
        assert(k == fone());
        let mulop = RowOpSpec::Mul(c, k);
        assert forall|j: int| 0 <= j < a[c].len() implies #[trigger] cmul(k, a[c][j]) is Some by {
            assert(rat_wf(a[c][j]));
            lemma_fmul_one_zero(a[c][j]);
        }
        assert(op_ok(mulop, a));
        let m2 = apply_op(mulop, a);
        assert forall|j: int| 0 <= j < n implies #[trigger] m2[c][j] == a[c][j] by {
            assert(rat_wf(a[c][j]));
            lemma_fmul_one_zero(a[c][j]);
        }
        assert(m2 =~~= a);
        lemma_elim_below_zero(a, c, n, n);
        let ops3 = elim_below(a, c, n).unwrap().1;
        assert(gauss_col(a, ops, c) == Gauss::Go(a, ops.push(mulop) + ops3));
        assert forall|q: int|
            0 <= q < (ops.push(mulop) + ops3).len() implies (match #[trigger] (ops.push(mulop)
            + ops3)[q] {
            RowOpSpec::Swap(r1, r2) => false,
            RowOpSpec::Add(r1, r2, kk) => kk == fzero(),
            RowOpSpec::Mul(r, kk) => kk == fone(),
        }) && crate::rowops::op_in_range((ops.push(mulop) + ops3)[q], n) by {
            if q < ops.len() {
                assert((ops.push(mulop) + ops3)[q] == ops[q]);
            } else if q == ops.len() {
                assert((ops.push(mulop) + ops3)[q] == mulop);
            } else {
                assert((ops.push(mulop) + ops3)[q] == ops3[q - ops.len() - 1]);
            }
        }
    }
}

/// Elimination succeeds without changing anything on a matrix already in
/// unit row-echelon form.
pub proof fn lemma_gauss_echelon(a: Seq<Seq<Frac>>)
    requires
        mat_wf(a, a.len() as int),
        unit_echelon(a, a.len() as int),
    ensures
        gauss_spec(a) is Go,
        gauss_spec(a)->Go_0 == a,
        trivial_ops(gauss_spec(a)->Go_1),
        crate::rowops::ops_in_range(gauss_spec(a)->Go_1, a.len() as int),
{
    lemma_gauss_upto_echelon(a, a.len() as int);
    assert(min(a.len() as int, a.len() as int) == a.len() as int);
}

/// Clearing above a pivot over rows that are already zero in the pivot
/// column changes nothing.
#[verifier::spinoff_prover]
pub proof fn lemma_back_col_zero(m: Seq<Seq<Frac>>, i: int, j: int, cc: int)
    requires
        mat_wf(m, cc),
        0 <= i < m.len(),
        0 <= j <= i,
        forall|q: int| 0 <= q < j ==> #[trigger] m[q][i] == fzero(),
    ensures
        back_col(m, i, j) is Some,
        back_col(m, i, j).unwrap().0 == m,
        trivial_ops(back_col(m, i, j).unwrap().1),
        crate::rowops::ops_in_range(back_col(m, i, j).unwrap().1, m.len() as int),
    decreases j,
{
    lemma_consts_canonical();
    if j <= 0 {
    } else {
        lemma_back_col_zero(m, i, j - 1, cc);
        let op = RowOpSpec::Add(i, j - 1, fneg(m[j - 1][i]));
        assert(fneg(m[j - 1][i]) == fzero());
        assert forall|w: int| 0 <= w < m[j - 1].len() implies #[trigger] cmul(
            fzero(),
            m[i][w],
        ) is Some && cadd(m[j - 1][w], fmul(fzero(), m[i][w])) is Some by {
            assert(rat_wf(m[i][w]));
            assert(rat_wf(m[j - 1][w]));
            lemma_fmul_one_zero(m[i][w]);
            lemma_fadd_zero(m[j - 1][w]);
        }
        assert(op_ok(op, m));
        let m2 = apply_op(op, m);
        assert forall|w: int| 0 <= w < cc implies #[trigger] m2[j - 1][w] == m[j - 1][w] by {
            assert(rat_wf(m[i][w]));
            assert(rat_wf(m[j - 1][w]));
            lemma_fmul_one_zero(m[i][w]);
            lemma_fadd_zero(m[j - 1][w]);
        }
        assert(m2 =~~= m);
        assert(back_col(m, i, j).unwrap().1 =~= back_col(m, i, j - 1).unwrap().1.push(op));
    }
}

/// Elimination on a diagonal matrix with a non-zero diagonal keeps the
/// diagonal structure: it records no row exchange, normalizes every pivot
/// to one, and yields exactly the identity.
pub proof fn lemma_gauss_diagonal(a: Seq<Seq<Frac>>)
    requires
        mat_wf(a, a.len() as int),
        mat_is_diagonal(a),
        forall|q: int| 0 <= q < a.len() ==> (#[trigger] a[q][q]).n != 0,
    ensures
        gauss_spec(a) is Go,
        gauss_spec(a)->Go_0 == mat_identity(a.len() as int),
        no_swaps(gauss_spec(a)->Go_1),
{
    let n = a.len() as int;
    lemma_gauss_upto_diagonal(a, n);
    assert(min(n, n) == n);
    assert(gauss_spec(a)->Go_0 =~~= mat_identity(n));
}

/// A failed row elimination stays failed as more rows are processed.
proof fn lemma_elim_below_none(m: Seq<Seq<Frac>>, i: int, r: int, r2: int)
    requires
        r <= r2,
        elim_below(m, i, r) is None,
    ensures
        elim_below(m, i, r2) is None,
    decreases r2 - r,
{
    if r < r2 {
        lemma_elim_below_none(m, i, r, r2 - 1);
    }
}

} // verus!
