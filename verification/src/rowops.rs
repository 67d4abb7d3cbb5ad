//! Elementary row operations and their replayable log.
//!
//! Gaussian elimination records every row operation it performs as a
//! [`RowOp`]; replaying the log against a right-hand side, in the exact
//! order recorded, performs the same linear transformation.  The model of
//! a log is a sequence of [`RowOpSpec`] values; [`apply_op`] is the exact
//! effect of one operation on a matrix model, and [`capply_ops`] is the
//! checked replay of a whole log, absent as soon as any intermediate entry
//! leaves the representable range.

use crate::frac::fadd;
use crate::frac::fmul;
use crate::frac::fneg;
use crate::frac::Frac;
use crate::rat::cadd;
use crate::rat::cmul;
use crate::rat::rat_wf;
use crate::rat::Rat;
use vstd::prelude::*;

verus! {

/// One elementary row operation over the executable scalar.
#[derive(Clone, Copy, Debug)]
pub enum RowOp {
    /// Exchange two rows.
    Swap(usize, usize),
    /// Add a multiple of the first row to the second row.
    Add(usize, usize, Rat),
    /// Scale a row by a factor.
    Mul(usize, Rat),
}

/// The model of one elementary row operation.
pub ghost enum RowOpSpec {
    Swap(int, int),
    Add(int, int, Frac),
    Mul(int, Frac),
}

impl View for RowOp {
    type V = RowOpSpec;

    open spec fn view(&self) -> RowOpSpec {
        match *self {
            RowOp::Swap(r1, r2) => RowOpSpec::Swap(r1 as int, r2 as int),
            RowOp::Add(r1, r2, k) => RowOpSpec::Add(r1 as int, r2 as int, k@),
            RowOp::Mul(r, k) => RowOpSpec::Mul(r as int, k@),
        }
    }
}

/// Applicable operation on a matrix of `nr` rows: indices in range and a
/// well-formed multiplier.
pub open spec fn op_in_range(op: RowOpSpec, nr: int) -> bool {
    match op {
        RowOpSpec::Swap(r1, r2) => 0 <= r1 < nr && 0 <= r2 < nr,
        RowOpSpec::Add(r1, r2, k) => 0 <= r1 < nr && 0 <= r2 < nr && rat_wf(k),
        RowOpSpec::Mul(r, k) => 0 <= r < nr && rat_wf(k),
    }
}

/// Invertible operation: in range, scaling by a non-zero factor only, and a
/// combination never targets its source row.
pub open spec fn op_wf(op: RowOpSpec, nr: int) -> bool {
    &&& op_in_range(op, nr)
    &&& match op {
        RowOpSpec::Swap(r1, r2) => true,
        RowOpSpec::Add(r1, r2, k) => r1 != r2,
        RowOpSpec::Mul(r, k) => k.n != 0,
    }
}

/// Every operation of a log is applicable.
pub open spec fn ops_in_range(ops: Seq<RowOpSpec>, nr: int) -> bool {
    forall|i: int| 0 <= i < ops.len() ==> op_in_range(#[trigger] ops[i], nr)
}

/// Every operation of a log is invertible.
pub open spec fn ops_wf(ops: Seq<RowOpSpec>, nr: int) -> bool {
    forall|i: int| 0 <= i < ops.len() ==> op_wf(#[trigger] ops[i], nr)
}

/// The model of a log of executable row operations.
pub open spec fn ops_view(ops: Seq<RowOp>) -> Seq<RowOpSpec> {
    ops.map_values(|op: RowOp| op@)
}

/// The exact effect of one row operation on a matrix model.
pub open spec fn apply_op(op: RowOpSpec, m: Seq<Seq<Frac>>) -> Seq<Seq<Frac>> {
    match op {
        RowOpSpec::Swap(r1, r2) => m.update(r1, m[r2]).update(r2, m[r1]),
        RowOpSpec::Add(r1, r2, k) => m.update(
            r2,
            Seq::new(m[r2].len(), |j: int| fadd(m[r2][j], fmul(k, m[r1][j]))),
        ),
        RowOpSpec::Mul(r, k) => m.update(r, Seq::new(m[r].len(), |j: int| fmul(k, m[r][j]))),
    }
}

/// Whether one row operation stays within the representable range on `m`.
pub open spec fn op_ok(op: RowOpSpec, m: Seq<Seq<Frac>>) -> bool {
    match op {
        RowOpSpec::Swap(r1, r2) => true,
        RowOpSpec::Add(r1, r2, k) => forall|j: int|
            0 <= j < m[r2].len() ==> cmul(k, m[r1][j]) is Some && cadd(
                m[r2][j],
                fmul(k, m[r1][j]),
            ) is Some,
        RowOpSpec::Mul(r, k) => forall|j: int| 0 <= j < m[r].len() ==> cmul(k, m[r][j]) is Some,
    }
}

/// Checked application of one row operation.
pub open spec fn capply_op(op: RowOpSpec, m: Seq<Seq<Frac>>) -> Option<Seq<Seq<Frac>>> {
    if op_ok(op, m) {
        Some(apply_op(op, m))
    } else {
        None
    }
}

/// Checked replay of a whole log, front to back.
pub open spec fn capply_ops(ops: Seq<RowOpSpec>, m: Seq<Seq<Frac>>) -> Option<Seq<Seq<Frac>>>
    decreases ops.len(),
{
    if ops.len() == 0 {
        Some(m)
    } else {
        match capply_op(ops[0], m) {
            None => None,
            Some(m2) => capply_ops(ops.drop_first(), m2),
        }
    }
}

/// Replaying a log extended by one operation replays the log, then the
/// operation.
pub proof fn lemma_capply_ops_snoc(ops: Seq<RowOpSpec>, op: RowOpSpec, m: Seq<Seq<Frac>>)
    ensures
        capply_ops(ops.push(op), m) == (if capply_ops(ops, m) is Some {
            capply_op(op, capply_ops(ops, m).unwrap())
        } else {
            None
        }),
    decreases ops.len(),
{
    if ops.len() == 0 {
        reveal_with_fuel(capply_ops, 2);
        assert(ops.push(op).drop_first() =~= Seq::<RowOpSpec>::empty());
        assert(ops.push(op)[0] == op);
        assert(capply_ops(ops, m) == Some(m));
    } else {
        assert(ops.push(op)[0] == ops[0]);
        assert(ops.push(op).drop_first() =~= ops.drop_first().push(op));
        match capply_op(ops[0], m) {
            None => {},
            Some(m2) => {
                lemma_capply_ops_snoc(ops.drop_first(), op, m2);
            },
        }
    }
}

/// Replaying a concatenation replays the first log, then the second.
pub proof fn lemma_capply_ops_append(ops1: Seq<RowOpSpec>, ops2: Seq<RowOpSpec>, m: Seq<Seq<Frac>>)
    ensures
        capply_ops(ops1 + ops2, m) == match capply_ops(ops1, m) {
            None => None,
            Some(m2) => capply_ops(ops2, m2),
        },
    decreases ops1.len(),
{
    if ops1.len() == 0 {
        assert(ops1 + ops2 =~= ops2);
    } else {
        assert((ops1 + ops2)[0] == ops1[0]);
        assert((ops1 + ops2).drop_first() =~= ops1.drop_first() + ops2);
        match capply_op(ops1[0], m) {
            None => {},
            Some(m2) => {
                lemma_capply_ops_append(ops1.drop_first(), ops2, m2);
            },
        }
    }
}

/// A replay that fails on a prefix fails on the whole log.
pub proof fn lemma_capply_ops_prefix_none(ops: Seq<RowOpSpec>, k: int, m: Seq<Seq<Frac>>)
    requires
        0 <= k <= ops.len(),
        capply_ops(ops.take(k), m) is None,
    ensures
        capply_ops(ops, m) is None,
{
    assert(ops =~= ops.take(k) + ops.skip(k));
    lemma_capply_ops_append(ops.take(k), ops.skip(k), m);
}

} // verus!
