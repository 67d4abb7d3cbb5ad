//! Dense rectangular matrices over the exact scalar [`Rat`].
//!
//! A [`Matrix`] owns its elements row-major and never changes its dimensions
//! after construction; every operation states its dimension requirements as
//! a precondition, so no runtime dimension error exists in verified callers.
//! The mathematical model of a matrix is a sequence of rows of [`Frac`]
//! values; [`mat_wf`] is the well-formedness invariant every operation
//! preserves.
//!
//! Addition and multiplication are exact and checked: they return `None`
//! exactly when some entry of the result (or an intermediate running sum)
//! leaves the representable range.

use crate::frac::fadd;
use crate::frac::fmul;
use crate::frac::fone;
use crate::frac::fzero;
use crate::frac::lemma_consts_canonical;
use crate::frac::Frac;
use crate::rat::cadd;
use crate::rat::cmul;
use crate::rat::rat_wf;
use crate::rat::Rat;
use crate::rowops::apply_op;
use crate::rowops::capply_op;
use crate::rowops::capply_ops;
use crate::rowops::lemma_capply_ops_prefix_none;
use crate::rowops::lemma_capply_ops_snoc;
use crate::rowops::op_ok;
use crate::rowops::ops_in_range;
use crate::rowops::ops_view;
use crate::rowops::RowOp;
use crate::rowops::RowOpSpec;
use vstd::prelude::*;

verus! {

/// The model of a row or column: the values of a sequence of scalars.
pub open spec fn rvec_view(s: Seq<Rat>) -> Seq<Frac> {
    s.map_values(|x: Rat| x@)
}

/// The model of row-major storage: the values of a sequence of rows.
pub open spec fn vv_view(d: Seq<Vec<Rat>>) -> Seq<Seq<Frac>> {
    d.map_values(|row: Vec<Rat>| rvec_view(row@))
}

/// Well-formed model: at least one row, `cc >= 1` columns, uniform row
/// length, and every entry canonical and representable.
pub open spec fn mat_wf(a: Seq<Seq<Frac>>, cc: int) -> bool {
    &&& a.len() >= 1
    &&& cc >= 1
    &&& forall|i: int| 0 <= i < a.len() ==> (#[trigger] a[i]).len() == cc
    &&& forall|i: int, j: int|
        0 <= i < a.len() && 0 <= j < cc ==> rat_wf(#[trigger] a[i][j])
}

/// The all-zero model of the given dimensions.
pub open spec fn mat_zero(rc: int, cc: int) -> Seq<Seq<Frac>> {
    Seq::new(rc as nat, |i: int| Seq::new(cc as nat, |j: int| fzero()))
}

/// The square model with the given diagonal and zeros elsewhere.
pub open spec fn mat_diagonal(d: Seq<Frac>) -> Seq<Seq<Frac>> {
    Seq::new(
        d.len(),
        |i: int| Seq::new(d.len(), |j: int| if i == j { d[i] } else { fzero() }),
    )
}

/// The identity model of dimension `n`.
pub open spec fn mat_identity(n: int) -> Seq<Seq<Frac>> {
    Seq::new(n as nat, |i: int| Seq::new(n as nat, |j: int| if i == j { fone() } else { fzero() }))
}

/// The transposed model.
pub open spec fn mat_transpose(a: Seq<Seq<Frac>>) -> Seq<Seq<Frac>> {
    Seq::new(a[0].len(), |j: int| Seq::new(a.len(), |i: int| a[i][j]))
}

/// Column `j` of a model.
pub open spec fn col(a: Seq<Seq<Frac>>, j: int) -> Seq<Frac> {
    Seq::new(a.len(), |i: int| a[i][j])
}

/// The sum of the first `k` products `r[i] * c[i]`, accumulated left to
/// right exactly as the executable inner product does.
pub open spec fn dot_prefix(r: Seq<Frac>, c: Seq<Frac>, k: int) -> Frac
    decreases k,
{
    if k <= 0 {
        fzero()
    } else {
        fadd(dot_prefix(r, c, k - 1), fmul(r[k - 1], c[k - 1]))
    }
}

/// The inner product of two equal-length sequences.
pub open spec fn dot(r: Seq<Frac>, c: Seq<Frac>) -> Frac {
    dot_prefix(r, c, r.len() as int)
}

/// The model of pointwise matrix addition.
pub open spec fn mat_add(a: Seq<Seq<Frac>>, b: Seq<Seq<Frac>>) -> Seq<Seq<Frac>> {
    Seq::new(a.len(), |i: int| Seq::new(a[i].len(), |j: int| fadd(a[i][j], b[i][j])))
}

/// The model of matrix multiplication: entry `(i, j)` is the inner product
/// of row `i` of `a` with column `j` of `b`.
pub open spec fn mat_mul(a: Seq<Seq<Frac>>, b: Seq<Seq<Frac>>) -> Seq<Seq<Frac>> {
    Seq::new(a.len(), |i: int| Seq::new(b[0].len(), |j: int| dot(a[i], col(b, j))))
}

/// Checked inner product over the first `k` entries; absent as soon as a
/// product or a running sum leaves the representable range.
pub open spec fn cdot(r: Seq<Frac>, c: Seq<Frac>, k: int) -> Option<Frac>
    decreases k,
{
    if k <= 0 {
        Some(fzero())
    } else {
        match cdot(r, c, k - 1) {
            None => None,
            Some(acc) => match cmul(r[k - 1], c[k - 1]) {
                None => None,
                Some(t) => cadd(acc, t),
            },
        }
    }
}

/// Whether every entry of the product of `a` and `b` is representable.
pub open spec fn mat_mul_ok(a: Seq<Seq<Frac>>, b: Seq<Seq<Frac>>) -> bool {
    forall|i: int, j: int|
        0 <= i < a.len() && 0 <= j < b[0].len() ==> #[trigger] cdot(a[i], col(b, j), b.len() as int)
            is Some
}

/// Whether every entry of the sum of `a` and `b` is representable.
pub open spec fn mat_add_ok(a: Seq<Seq<Frac>>, b: Seq<Seq<Frac>>) -> bool {
    forall|i: int, j: int|
        0 <= i < a.len() && 0 <= j < a[i].len() ==> #[trigger] cadd(a[i][j], b[i][j]) is Some
}

/// A fixed-dimension dense matrix of exact rationals.
#[derive(Clone, Debug)]
pub struct Matrix {
    rows: usize,
    cols: usize,
    data: Vec<Vec<Rat>>,
}

impl View for Matrix {
    type V = Seq<Seq<Frac>>;

    closed spec fn view(&self) -> Seq<Seq<Frac>> {
        vv_view(self.data@)
    }
}

impl Matrix {
    /// The number of rows of the model.
    pub open spec fn nrows(self) -> int {
        self@.len() as int
    }

    /// The number of columns of the model.
    pub closed spec fn ncols(self) -> int {
        self.cols as int
    }

    /// The stored dimensions agree with the storage.
    pub closed spec fn dims_ok(self) -> bool {
        &&& self.rows as int == self.data@.len()
        &&& forall|i: int|
            0 <= i < self.data@.len() ==> (#[trigger] self.data@[i])@.len() == self.cols as int
    }

    /// Well-formed: consistent dimensions and a well-formed model.
    pub open spec fn wf(self) -> bool {
        &&& self.dims_ok()
        &&& mat_wf(self@, self.ncols())
    }

    /// The number of rows.
    pub fn num_rows(&self) -> (r: usize)
        requires
            self.wf(),
        ensures
            r as int == self.nrows(),
    {
        self.rows
    }

    /// The number of columns.
    pub fn num_cols(&self) -> (r: usize)
        requires
            self.wf(),
        ensures
            r as int == self.ncols(),
    {
        self.cols
    }

    /// The all-zero matrix of the given dimensions.
    pub fn zero(rows: usize, cols: usize) -> (r: Matrix)
        requires
            rows >= 1,
            cols >= 1,
        ensures
            r.wf(),
            r.nrows() == rows as int,
            r.ncols() == cols as int,
            r@ == mat_zero(rows as int, cols as int),
    {
        let mut data: Vec<Vec<Rat>> = Vec::new();
        let mut i: usize = 0;
        while i < rows
            invariant
                i <= rows,
                data@.len() == i as int,
                forall|ii: int|
                    0 <= ii < i as int ==> (#[trigger] data@[ii])@.len() == cols as int,
                forall|ii: int, jj: int|
                    0 <= ii < i as int && 0 <= jj < cols as int ==> (#[trigger] data@[ii]@[jj])@
                        == fzero() && data@[ii]@[jj].wf(),
            decreases rows - i,
        {
            let mut row: Vec<Rat> = Vec::new();
            let mut j: usize = 0;
            while j < cols
                invariant
                    j <= cols,
                    row@.len() == j as int,
                    forall|jj: int|
                        0 <= jj < j as int ==> (#[trigger] row@[jj])@ == fzero() && row@[jj].wf(),
                decreases cols - j,
            {
                row.push(Rat::zero());
                j += 1;
            }
            data.push(row);
            i += 1;
        }
        let r = Matrix { rows, cols, data };
        proof {
            lemma_consts_canonical();
            assert(r@ =~~= mat_zero(rows as int, cols as int));
        }
        r
    }

    /// A matrix from row-major data: every row must have the same non-zero
    /// length and hold well-formed scalars.
    pub fn from_data(data: Vec<Vec<Rat>>) -> (r: Matrix)
        requires
            data@.len() >= 1,
            data@[0]@.len() >= 1,
            forall|i: int| 0 <= i < data@.len() ==> (#[trigger] data@[i])@.len() == data@[0]@.len(),
            forall|i: int, j: int|
                0 <= i < data@.len() && 0 <= j < data@[0]@.len() ==> (#[trigger] data@[i]@[j]).wf(),
        ensures
            r.wf(),
            r@ == vv_view(data@),
            r.nrows() == data@.len(),
            r.ncols() == data@[0]@.len(),
    {
        let rows = data.len();
        let cols = data[0].len();
        Matrix { rows, cols, data }
    }

    /// The entry at `(row, col)`.
    pub fn at(&self, row: usize, col: usize) -> (r: Rat)
        requires
            self.wf(),
            row < self.nrows(),
            col < self.ncols(),
        ensures
            r.wf(),
            r@ == self@[row as int][col as int],
    {
        let r = self.data[row][col];
        proof {
            assert(r@ == self@[row as int][col as int]);
            assert(rat_wf(self@[row as int][col as int]));
        }
        r
    }

    /// Overwrite the entry at `(row, col)`; the in-place update primitive.
    pub fn at_mut(&mut self, row: usize, col: usize, value: Rat)
        requires
            old(self).wf(),
            row < old(self).nrows(),
            col < old(self).ncols(),
            value.wf(),
        ensures
            final(self).wf(),
            final(self).ncols() == old(self).ncols(),
            final(self)@ == old(self)@.update(
                row as int,
                old(self)@[row as int].update(col as int, value@),
            ),
    {
        self.data[row][col] = value;
        proof {
            assert(self@ =~~= old(self)@.update(
                row as int,
                old(self)@[row as int].update(col as int, value@),
            ));
        }
    }

    /// The transpose; pure and exact.
    pub fn transpose(&self) -> (r: Matrix)
        requires
            self.wf(),
        ensures
            r.wf(),
            r.nrows() == self.ncols(),
            r.ncols() == self.nrows(),
            r@ == mat_transpose(self@),
    {
        let mut data: Vec<Vec<Rat>> = Vec::new();
        let mut j: usize = 0;
        while j < self.cols
            invariant
                self.wf(),
                j <= self.cols,
                data@.len() == j as int,
                forall|jj: int| 0 <= jj < j as int ==> (#[trigger] data@[jj])@.len() == self.nrows(),
                forall|jj: int, i: int|
                    0 <= jj < j as int && 0 <= i < self.nrows() ==> (#[trigger] data@[jj]@[i])@
                        == self@[i][jj],
            decreases self.cols - j,
        {
            let mut row: Vec<Rat> = Vec::new();
            let mut i: usize = 0;
            while i < self.rows
                invariant
                    self.wf(),
                    j < self.cols,
                    i <= self.rows,
                    row@.len() == i as int,
                    forall|ii: int| 0 <= ii < i as int ==> (#[trigger] row@[ii])@ == self@[ii][j as int],
                decreases self.rows - i,
            {
                row.push(self.data[i][j]);
                i += 1;
            }
            data.push(row);
            j += 1;
        }
        let r = Matrix { rows: self.cols, cols: self.rows, data };
        proof {
            assert(r@ =~~= mat_transpose(self@));
        }
        r
    }

    /// The single entry of a `1 x 1` matrix.
    pub fn num(&self) -> (r: Rat)
        requires
            self.wf(),
            self.nrows() == 1,
            self.ncols() == 1,
        ensures
            r.wf(),
            r@ == self@[0][0],
    {
        self.at(0, 0)
    }

    /// The elements in row-major order, for handing the matrix across the
    /// crate boundary; entry `(i, j)` is at index `i * cols + j`.
    pub fn raw(&self) -> (r: Vec<Rat>)
        requires
            self.wf(),
            self.nrows() * self.ncols() <= usize::MAX as int,
        ensures
            r@.len() == self.nrows() * self.ncols(),
            forall|i: int, j: int|
                0 <= i < self.nrows() && 0 <= j < self.ncols() ==> r@[i * self.ncols() + j]@
                    == self@[i][j],
    {
        let mut flat: Vec<Rat> = Vec::new();
        let mut i: usize = 0;
        proof {
            lemma_rect_bound(self.nrows(), self.ncols());
        }
        while i < self.rows
            invariant
                self.wf(),
                self.nrows() * self.ncols() <= usize::MAX as int,
                i <= self.rows,
                flat@.len() == i as int * self.ncols(),
                forall|ii: int, jj: int|
                    0 <= ii < i as int && 0 <= jj < self.ncols() ==> #[trigger] flat@[ii
                        * self.ncols() + jj]@ == self@[ii][jj],
            decreases self.rows - i,
        {
            let mut j: usize = 0;
            proof {
                lemma_rect_step(i as int, self.nrows(), self.ncols());
            }
            while j < self.cols
                invariant
                    self.wf(),
                    i < self.rows,
                    j <= self.cols,
                    (i as int + 1) * self.ncols() <= usize::MAX as int,
                    flat@.len() == i as int * self.ncols() + j as int,
                    forall|ii: int, jj: int|
                        0 <= ii < i as int && 0 <= jj < self.ncols() ==> #[trigger] flat@[ii
                            * self.ncols() + jj]@ == self@[ii][jj],
                    forall|jj: int|
                        0 <= jj < j as int ==> #[trigger] flat@[i as int * self.ncols() + jj]@
                            == self@[i as int][jj],
                decreases self.cols - j,
            {
                proof {
                    assert(i as int * self.ncols() + j as int + 1 <= (i as int + 1) * self.ncols())
                        by (nonlinear_arith)
                        requires
                            j as int + 1 <= self.ncols(),
                    ;
                    assert forall|ii: int, jj: int|
                        0 <= ii < i as int && 0 <= jj < self.ncols() implies 0 <= #[trigger] (ii
                        * self.ncols() + jj) < i as int * self.ncols() by {
                        assert(0 <= ii * self.ncols() + jj < i as int * self.ncols())
                            by (nonlinear_arith)
                            requires
                                0 <= ii < i as int,
                                0 <= jj < self.ncols(),
                        ;
                    }
                }
                flat.push(self.data[i][j]);
                j += 1;
            }
            i += 1;
            proof {
                assert(flat@.len() == i as int * self.ncols()) by (nonlinear_arith)
                    requires
                        flat@.len() == (i as int - 1) * self.ncols() + self.ncols(),
                ;
            }
        }
        flat
    }
}

/// A failed checked inner product stays failed as more terms are added.
pub proof fn lemma_cdot_none(r: Seq<Frac>, c: Seq<Frac>, k: int, m: int)
    requires
        cdot(r, c, k) is None,
        k <= m,
    ensures
        cdot(r, c, m) is None,
    decreases m,
{
    if k < m {
        lemma_cdot_none(r, c, k, m - 1);
    }
}

/// A successful checked inner product computes the exact inner product.
pub proof fn lemma_cdot_some(r: Seq<Frac>, c: Seq<Frac>, k: int)
    requires
        cdot(r, c, k) is Some,
    ensures
        cdot(r, c, k).unwrap() == dot_prefix(r, c, k),
    decreases k,
{
    if k > 0 {
        if cdot(r, c, k - 1) is None {
            lemma_cdot_none(r, c, k - 1, k);
        }
        lemma_cdot_some(r, c, k - 1);
    }
}

impl Matrix {
    /// Checked exact matrix addition; absent exactly when some entry of the
    /// sum is not representable.
    pub fn add(&self, rhs: &Matrix) -> (r: Option<Matrix>)
        requires
            self.wf(),
            rhs.wf(),
            self.nrows() == rhs.nrows(),
            self.ncols() == rhs.ncols(),
        ensures
            r is Some <==> mat_add_ok(self@, rhs@),
            r is Some ==> {
                let m = r.unwrap();
                &&& m.wf()
                &&& m.nrows() == self.nrows()
                &&& m.ncols() == self.ncols()
                &&& m@ == mat_add(self@, rhs@)
            },
    {
        let rows = self.num_rows();
        let cols = self.num_cols();
        let mut data: Vec<Vec<Rat>> = Vec::new();
        let mut i: usize = 0;
        while i < rows
            invariant
                self.wf(),
                rhs.wf(),
                self.nrows() == rhs.nrows(),
                self.ncols() == rhs.ncols(),
                rows as int == self.nrows(),
                cols as int == self.ncols(),
                i <= rows,
                data@.len() == i as int,
                forall|ii: int| 0 <= ii < i as int ==> (#[trigger] data@[ii])@.len() == cols as int,
                forall|ii: int, jj: int|
                    0 <= ii < i as int && 0 <= jj < cols as int ==> #[trigger] cadd(
                        self@[ii][jj],
                        rhs@[ii][jj],
                    ) is Some,
                forall|ii: int, jj: int|
                    0 <= ii < i as int && 0 <= jj < cols as int ==> (#[trigger] data@[ii]@[jj])@
                        == fadd(self@[ii][jj], rhs@[ii][jj]) && data@[ii]@[jj].wf(),
            decreases rows - i,
        {
            let mut row: Vec<Rat> = Vec::new();
            let mut j: usize = 0;
            while j < cols
                invariant
                    self.wf(),
                    rhs.wf(),
                    self.nrows() == rhs.nrows(),
                    self.ncols() == rhs.ncols(),
                    rows as int == self.nrows(),
                    cols as int == self.ncols(),
                    i < rows,
                    j <= cols,
                    row@.len() == j as int,
                    forall|jj: int|
                        0 <= jj < j as int ==> #[trigger] cadd(
                            self@[i as int][jj],
                            rhs@[i as int][jj],
                        ) is Some,
                    forall|jj: int|
                        0 <= jj < j as int ==> (#[trigger] row@[jj])@ == fadd(
                            self@[i as int][jj],
                            rhs@[i as int][jj],
                        ) && row@[jj].wf(),
                decreases cols - j,
            {
                match self.at(i, j).add(rhs.at(i, j)) {
                    None => {
                        return None;
                    },
                    Some(v) => {
                        row.push(v);
                    },
                }
                j += 1;
            }
            data.push(row);
            i += 1;
        }
        let m = Matrix { rows, cols, data };
        proof {
            assert(m@ =~~= mat_add(self@, rhs@));
        }
        Some(m)
    }

    /// Checked exact matrix multiplication: `self` is `M x N`, `rhs` is
    /// `N x L`, the product is `M x L`.  Absent exactly when some running
    /// sum of some entry leaves the representable range.
    pub fn mul(&self, rhs: &Matrix) -> (r: Option<Matrix>)
        requires
            self.wf(),
            rhs.wf(),
            self.ncols() == rhs.nrows(),
        ensures
            r is Some <==> mat_mul_ok(self@, rhs@),
            r is Some ==> {
                let m = r.unwrap();
                &&& m.wf()
                &&& m.nrows() == self.nrows()
                &&& m.ncols() == rhs.ncols()
                &&& m@ == mat_mul(self@, rhs@)
            },
    {
        let rows = self.num_rows();
        let inner = self.num_cols();
        let cols = rhs.num_cols();
        let mut data: Vec<Vec<Rat>> = Vec::new();
        let mut i: usize = 0;
        while i < rows
            invariant
                self.wf(),
                rhs.wf(),
                self.ncols() == rhs.nrows(),
                rows as int == self.nrows(),
                inner as int == self.ncols(),
                cols as int == rhs.ncols(),
                i <= rows,
                data@.len() == i as int,
                forall|ii: int| 0 <= ii < i as int ==> (#[trigger] data@[ii])@.len() == cols as int,
                forall|ii: int, jj: int|
                    0 <= ii < i as int && 0 <= jj < cols as int ==> #[trigger] cdot(
                        self@[ii],
                        col(rhs@, jj),
                        inner as int,
                    ) is Some,
                forall|ii: int, jj: int|
                    0 <= ii < i as int && 0 <= jj < cols as int ==> (#[trigger] data@[ii]@[jj])@
                        == dot_prefix(self@[ii], col(rhs@, jj), inner as int)
                        && data@[ii]@[jj].wf(),
            decreases rows - i,
        {
            let mut row: Vec<Rat> = Vec::new();
            let mut j: usize = 0;
            while j < cols
                invariant
                    self.wf(),
                    rhs.wf(),
                    self.ncols() == rhs.nrows(),
                    rows as int == self.nrows(),
                    inner as int == self.ncols(),
                    cols as int == rhs.ncols(),
                    i < rows,
                    j <= cols,
                    row@.len() == j as int,
                    forall|jj: int|
                        0 <= jj < j as int ==> #[trigger] cdot(
                            self@[i as int],
                            col(rhs@, jj),
                            inner as int,
                        ) is Some,
                    forall|jj: int|
                        0 <= jj < j as int ==> (#[trigger] row@[jj])@ == dot_prefix(
                            self@[i as int],
                            col(rhs@, jj),
                            inner as int,
                        ) && row@[jj].wf(),
                decreases cols - j,
            {
                let mut acc = Rat::zero();
                let mut k: usize = 0;
                while k < inner
                    invariant
                        self.wf(),
                        rhs.wf(),
                        self.ncols() == rhs.nrows(),
                        rows as int == self.nrows(),
                        inner as int == self.ncols(),
                        cols as int == rhs.ncols(),
                        i < rows,
                        j < cols,
                        k <= inner,
                        acc.wf(),
                        cdot(self@[i as int], col(rhs@, j as int), k as int) == Some(acc@),
                    decreases inner - k,
                {
                    let t = match self.at(i, k).mul(rhs.at(k, j)) {
                        None => {
                            proof {
                                lemma_cdot_none(
                                    self@[i as int],
                                    col(rhs@, j as int),
                                    k as int + 1,
                                    inner as int,
                                );
                            }
                            return None;
                        },
                        Some(t) => t,
                    };
                    let next = match acc.add(t) {
                        None => {
                            proof {
                                lemma_cdot_none(
                                    self@[i as int],
                                    col(rhs@, j as int),
                                    k as int + 1,
                                    inner as int,
                                );
                            }
                            return None;
                        },
                        Some(v) => v,
                    };
                    acc = next;
                    k += 1;
                }
                proof {
                    lemma_cdot_some(self@[i as int], col(rhs@, j as int), inner as int);
                }
                row.push(acc);
                j += 1;
            }
            data.push(row);
            i += 1;
        }
        let m = Matrix { rows, cols, data };
        proof {
            assert(m@ =~~= mat_mul(self@, rhs@));
        }
        Some(m)
    }
}

impl Matrix {
    /// The identity matrix of dimension `n`.
    pub fn identity(n: usize) -> (r: Matrix)
        requires
            n >= 1,
        ensures
            r.wf(),
            r.nrows() == n as int,
            r.ncols() == n as int,
            r@ == mat_identity(n as int),
    {
        let mut data: Vec<Vec<Rat>> = Vec::new();
        let mut i: usize = 0;
        while i < n
            invariant
                i <= n,
                data@.len() == i as int,
                forall|ii: int| 0 <= ii < i as int ==> (#[trigger] data@[ii])@.len() == n as int,
                forall|ii: int, jj: int|
                    0 <= ii < i as int && 0 <= jj < n as int ==> (#[trigger] data@[ii]@[jj])@ == (
                    if ii == jj {
                        fone()
                    } else {
                        fzero()
                    }) && data@[ii]@[jj].wf(),
            decreases n - i,
        {
            let mut row: Vec<Rat> = Vec::new();
            let mut j: usize = 0;
            while j < n
                invariant
                    i < n,
                    j <= n,
                    row@.len() == j as int,
                    forall|jj: int|
                        0 <= jj < j as int ==> (#[trigger] row@[jj])@ == (
                        if i as int == jj {
                            fone()
                        } else {
                            fzero()
                        }) && row@[jj].wf(),
                decreases n - j,
            {
                if i == j {
                    row.push(Rat::one());
                } else {
                    row.push(Rat::zero());
                }
                j += 1;
            }
            data.push(row);
            i += 1;
        }
        let r = Matrix { rows: n, cols: n, data };
        proof {
            assert(r@ =~~= mat_identity(n as int));
        }
        r
    }

    /// The square matrix with the given diagonal and zeros elsewhere.
    pub fn diagonal(values: &Vec<Rat>) -> (r: Matrix)
        requires
            values@.len() >= 1,
            forall|i: int| 0 <= i < values@.len() ==> (#[trigger] values@[i]).wf(),
        ensures
            r.wf(),
            r.nrows() == values@.len(),
            r.ncols() == values@.len(),
            r@ == mat_diagonal(rvec_view(values@)),
    {
        let n = values.len();
        let mut data: Vec<Vec<Rat>> = Vec::new();
        let mut i: usize = 0;
        while i < n
            invariant
                n == values@.len(),
                forall|ii: int| 0 <= ii < n as int ==> (#[trigger] values@[ii]).wf(),
                i <= n,
                data@.len() == i as int,
                forall|ii: int| 0 <= ii < i as int ==> (#[trigger] data@[ii])@.len() == n as int,
                forall|ii: int, jj: int|
                    0 <= ii < i as int && 0 <= jj < n as int ==> (#[trigger] data@[ii]@[jj])@ == (
                    if ii == jj {
                        values@[ii]@
                    } else {
                        fzero()
                    }) && data@[ii]@[jj].wf(),
            decreases n - i,
        {
            let mut row: Vec<Rat> = Vec::new();
            let mut j: usize = 0;
            while j < n
                invariant
                    n == values@.len(),
                    forall|ii: int| 0 <= ii < n as int ==> (#[trigger] values@[ii]).wf(),
                    i < n,
                    j <= n,
                    row@.len() == j as int,
                    forall|jj: int|
                        0 <= jj < j as int ==> (#[trigger] row@[jj])@ == (
                        if i as int == jj {
                            values@[i as int]@
                        } else {
                            fzero()
                        }) && row@[jj].wf(),
                decreases n - j,
            {
                if i == j {
                    row.push(values[i]);
                } else {
                    row.push(Rat::zero());
                }
                j += 1;
            }
            data.push(row);
            i += 1;
        }
        let r = Matrix { rows: n, cols: n, data };
        proof {
            assert(r@ =~~= mat_diagonal(rvec_view(values@)));
        }
        r
    }

    /// An owned copy of one row.
    fn copy_row(&self, row: usize) -> (r: Vec<Rat>)
        requires
            self.wf(),
            row < self.nrows(),
        ensures
            r@.len() == self.ncols(),
            rvec_view(r@) == self@[row as int],
            forall|j: int| 0 <= j < r@.len() ==> (#[trigger] r@[j]).wf(),
    {
        let cols = self.num_cols();
        let mut r: Vec<Rat> = Vec::new();
        let mut j: usize = 0;
        while j < cols
            invariant
                self.wf(),
                row < self.nrows(),
                cols as int == self.ncols(),
                j <= cols,
                r@.len() == j as int,
                forall|jj: int|
                    0 <= jj < j as int ==> (#[trigger] r@[jj])@ == self@[row as int][jj]
                        && r@[jj].wf(),
            decreases cols - j,
        {
            r.push(self.at(row, j));
            j += 1;
        }
        proof {
            assert(rvec_view(r@) =~= self@[row as int]);
        }
        r
    }

    /// An owned copy of the whole matrix.
    pub fn duplicate(&self) -> (r: Matrix)
        requires
            self.wf(),
        ensures
            r.wf(),
            r.nrows() == self.nrows(),
            r.ncols() == self.ncols(),
            r@ == self@,
    {
        let rows = self.num_rows();
        let mut data: Vec<Vec<Rat>> = Vec::new();
        let mut i: usize = 0;
        while i < rows
            invariant
                self.wf(),
                rows as int == self.nrows(),
                i <= rows,
                data@.len() == i as int,
                forall|ii: int|
                    0 <= ii < i as int ==> rvec_view((#[trigger] data@[ii])@) == self@[ii],
                forall|ii: int| 0 <= ii < i as int ==> (#[trigger] data@[ii])@.len() == self.ncols(),
                forall|ii: int, jj: int|
                    0 <= ii < i as int && 0 <= jj < self.ncols() ==> (#[trigger] data@[ii]@[jj]).wf(),
            decreases rows - i,
        {
            let row = self.copy_row(i);
            data.push(row);
            i += 1;
        }
        let r = Matrix { rows, cols: self.cols, data };
        proof {
            assert(r@ =~~= self@);
        }
        r
    }

    /// Exchange two rows in place.
    pub fn swap_rows(&mut self, row1: usize, row2: usize)
        requires
            old(self).wf(),
            row1 < old(self).nrows(),
            row2 < old(self).nrows(),
        ensures
            final(self).wf(),
            final(self).ncols() == old(self).ncols(),
            final(self)@ == apply_op(RowOpSpec::Swap(row1 as int, row2 as int), old(self)@),
    {
        let r1 = self.copy_row(row1);
        let r2 = self.copy_row(row2);
        self.data[row1] = r2;
        self.data[row2] = r1;
        proof {
            assert(self@ =~~= apply_op(RowOpSpec::Swap(row1 as int, row2 as int), old(self)@));
        }
    }

    /// Scale one row in place; `false` reports an unrepresentable entry and
    /// leaves the matrix unchanged.
    pub fn mutiply_row(&mut self, row: usize, multiplier: Rat) -> (ok: bool)
        requires
            old(self).wf(),
            row < old(self).nrows(),
            multiplier.wf(),
        ensures
            final(self).wf(),
            final(self).ncols() == old(self).ncols(),
            final(self)@.len() == old(self)@.len(),
            ok ==> capply_op(RowOpSpec::Mul(row as int, multiplier@), old(self)@) == Some(
                final(self)@,
            ),
            !ok ==> capply_op(RowOpSpec::Mul(row as int, multiplier@), old(self)@) is None
                && final(self)@ == old(self)@,
    {
        let cols = self.num_cols();
        let mut newrow: Vec<Rat> = Vec::new();
        let mut j: usize = 0;
        while j < cols
            invariant
                self.wf(),
                self == old(self),
                row < self.nrows(),
                multiplier.wf(),
                cols as int == self.ncols(),
                j <= cols,
                newrow@.len() == j as int,
                forall|jj: int|
                    0 <= jj < j as int ==> #[trigger] cmul(multiplier@, self@[row as int][jj])
                        is Some,
                forall|jj: int|
                    0 <= jj < j as int ==> (#[trigger] newrow@[jj])@ == fmul(
                        multiplier@,
                        self@[row as int][jj],
                    ) && newrow@[jj].wf(),
            decreases cols - j,
        {
            match multiplier.mul(self.at(row, j)) {
                None => {
                    return false;
                },
                Some(v) => {
                    newrow.push(v);
                },
            }
            j += 1;
        }
        self.data[row] = newrow;
        proof {
            assert(op_ok(RowOpSpec::Mul(row as int, multiplier@), old(self)@));
            assert(self@ =~~= apply_op(RowOpSpec::Mul(row as int, multiplier@), old(self)@));
        }
        true
    }

    /// Add `multiplier` times `row1` to `row2` in place; `false` reports an
    /// unrepresentable entry and leaves the matrix unchanged.
    pub fn add_row1_to_row2(&mut self, row1: usize, row2: usize, multiplier: Rat) -> (ok: bool)
        requires
            old(self).wf(),
            row1 < old(self).nrows(),
            row2 < old(self).nrows(),
            multiplier.wf(),
        ensures
            final(self).wf(),
            final(self).ncols() == old(self).ncols(),
            final(self)@.len() == old(self)@.len(),
            ok ==> capply_op(
                RowOpSpec::Add(row1 as int, row2 as int, multiplier@),
                old(self)@,
            ) == Some(final(self)@),
            !ok ==> capply_op(RowOpSpec::Add(row1 as int, row2 as int, multiplier@), old(self)@)
                is None && final(self)@ == old(self)@,
    {
        let cols = self.num_cols();
        let mut newrow: Vec<Rat> = Vec::new();
        let mut j: usize = 0;
        while j < cols
            invariant
                self.wf(),
                self == old(self),
                row1 < self.nrows(),
                row2 < self.nrows(),
                multiplier.wf(),
                cols as int == self.ncols(),
                j <= cols,
                newrow@.len() == j as int,
                forall|jj: int|
                    0 <= jj < j as int ==> #[trigger] cmul(multiplier@, self@[row1 as int][jj])
                        is Some && cadd(
                        self@[row2 as int][jj],
                        fmul(multiplier@, self@[row1 as int][jj]),
                    ) is Some,
                forall|jj: int|
                    0 <= jj < j as int ==> (#[trigger] newrow@[jj])@ == fadd(
                        self@[row2 as int][jj],
                        fmul(multiplier@, self@[row1 as int][jj]),
                    ) && newrow@[jj].wf(),
            decreases cols - j,
        {
            let t = match multiplier.mul(self.at(row1, j)) {
                None => {
                    return false;
                },
                Some(t) => t,
            };
            match self.at(row2, j).add(t) {
                None => {
                    return false;
                },
                Some(v) => {
                    newrow.push(v);
                },
            }
            j += 1;
        }
        self.data[row2] = newrow;
        proof {
            assert(op_ok(RowOpSpec::Add(row1 as int, row2 as int, multiplier@), old(self)@));
            assert(self@ =~~= apply_op(
                RowOpSpec::Add(row1 as int, row2 as int, multiplier@),
                old(self)@,
            ));
        }
        true
    }

    /// Replay a recorded log of row operations, front to back; `false`
    /// reports an unrepresentable intermediate entry.
    pub fn apply_row_ops(&mut self, row_ops: &Vec<RowOp>) -> (ok: bool)
        requires
            old(self).wf(),
            ops_in_range(ops_view(row_ops@), old(self).nrows()),
        ensures
            final(self).wf(),
            final(self).ncols() == old(self).ncols(),
            final(self)@.len() == old(self)@.len(),
            ok ==> capply_ops(ops_view(row_ops@), old(self)@) == Some(final(self)@),
            !ok ==> capply_ops(ops_view(row_ops@), old(self)@) is None,
    {
        let n = row_ops.len();
        let mut idx: usize = 0;
        while idx < n
            invariant
                n == row_ops@.len(),
                ops_in_range(ops_view(row_ops@), old(self).nrows()),
                idx <= n,
                self.wf(),
                self.ncols() == old(self).ncols(),
                self@.len() == old(self)@.len(),
                capply_ops(ops_view(row_ops@).take(idx as int), old(self)@) == Some(self@),
            decreases n - idx,
        {
            let ghost prefix = ops_view(row_ops@).take(idx as int);
            let ghost opspec = ops_view(row_ops@)[idx as int];
            proof {
                lemma_capply_ops_snoc(prefix, opspec, old(self)@);
                assert(ops_view(row_ops@).take(idx as int + 1) =~= prefix.push(opspec));
            }
            let op = row_ops[idx];
            proof {
                assert(op@ == opspec);
            }
            match op {
                RowOp::Swap(r1, r2) => {
                    self.swap_rows(r1, r2);
                },
                RowOp::Add(r1, r2, k) => {
                    if !self.add_row1_to_row2(r1, r2, k) {
                        proof {
                            lemma_capply_ops_prefix_none(
                                ops_view(row_ops@),
                                idx as int + 1,
                                old(self)@,
                            );
                        }
                        return false;
                    }
                },
                RowOp::Mul(r, k) => {
                    if !self.mutiply_row(r, k) {
                        proof {
                            lemma_capply_ops_prefix_none(
                                ops_view(row_ops@),
                                idx as int + 1,
                                old(self)@,
                            );
                        }
                        return false;
                    }
                },
            }
            idx += 1;
        }
        proof {
            assert(ops_view(row_ops@).take(n as int) =~= ops_view(row_ops@));
        }
        true
    }
}

/// A rectangle of fixed width grows by one row within its total size.
proof fn lemma_rect_step(i: int, rc: int, cc: int)
    requires
        0 <= i < rc,
        cc >= 0,
        rc * cc <= usize::MAX as int,
    ensures
        (i + 1) * cc <= usize::MAX as int,
        i * cc + cc == (i + 1) * cc,
{
    assert((i + 1) * cc <= rc * cc && i * cc + cc == (i + 1) * cc) by (nonlinear_arith)
        requires
            0 <= i < rc,
            cc >= 0,
    ;
}

/// A rectangle's size bounds each row-start offset.
proof fn lemma_rect_bound(rc: int, cc: int)
    requires
        rc >= 1,
        cc >= 1,
    ensures
        0 * cc == 0,
        rc * cc >= 0,
{
    assert(rc * cc >= 0) by (nonlinear_arith)
        requires
            rc >= 1,
            cc >= 1,
    ;
}

} // verus!
