//! The simplex driver: validates the caller's buffers, then repeats the
//! optimality test, entering/leaving selection and the pivot row-reduction
//! until the tableau is optimal, the problem proves unbounded, or the
//! iteration cap is reached.  All three buffers are mutated in place.

use vstd::prelude::*;
use vstd::pervasive::VecAdditionalExecFns;
use crate::rational::{
    Q, Rat, q_div, q_eq, q_fits, q_le, q_lt, q_mul, q_one, q_sub, q_wf, q_zero, lemma_q_div_nonneg,
    lemma_q_div_wf, lemma_q_eq_trans, lemma_q_le_congr, lemma_q_mul_congr, lemma_q_ops_wf,
    lemma_q_sub_congr, rat_div, rat_mul, rat_sub,
};
use crate::tableau::{
    dims_ok, ent, lemma_rowmajor_in_bounds, lemma_rows_disjoint, tab_get, tab_set,
    tableau_dims_valid,
};
use crate::pivot::{choose_entering_column, choose_leaving_row, pivot_ratio, PivotFailure};
use crate::vector_ops::{all_nonneg, all_wf, check_non_negative};

verus! {

/// Terminal classification of a run of the solver.
#[derive(Clone, Copy, Debug, PartialEq, Eq, Structural)]
pub enum Status {
    /// Every reduced cost is nonnegative: the current basic solution is
    /// the answer.
    Optimal,
    /// Some improving column has no positive entry: the objective grows
    /// without bound.
    Unbounded,
    /// The iteration cap was reached before either of the above, the
    /// safety valve against cycling on degenerate tableaux.
    MaxIterationsExceeded,
}

/// Rejection of a call, detected eagerly or during exact arithmetic.
#[derive(Clone, Copy, Debug, PartialEq, Eq, Structural)]
pub enum SimplexError {
    /// A buffer length does not match the declared dimensions, or a
    /// dimension is zero.
    InvalidDimensions,
    /// The initial solution vector holds a negative entry: no feasible
    /// starting basis was supplied.
    Infeasible,
    /// An exact intermediate value does not fit the rational
    /// representation.
    ArithmeticOverflow,
}

/// Feasibility preservation: the row-elimination step of a pivot keeps a
/// solution entry nonnegative.  Row `i` of the basic solution becomes
/// `bi - f * (bp / p)`; when the leaving row was chosen by the minimum
/// positive ratio test (`f > 0` implies `bp / p <= bi / f`), that new value
/// is `>= 0` again.
pub proof fn lemma_pivot_keeps_feasible(bi: Q, bp: Q, f: Q, p: Q)
    requires
        q_wf(bi),
        q_wf(bp),
        q_wf(f),
        q_wf(p),
        q_le(q_zero(), bi),
        q_le(q_zero(), bp),
        q_lt(q_zero(), p),
        q_lt(q_zero(), f) ==> q_le(q_div(bp, p), q_div(bi, f)),
    ensures
        q_le(q_zero(), q_sub(bi, q_mul(f, q_div(bp, p)))),
{
    assert(bi.n * (f.d * (bp.d * p.n)) - (f.n * (bp.n * p.d)) * bi.d >= 0)
        by (nonlinear_arith)
        requires
            bi.d >= 1,
            bp.d >= 1,
            f.d >= 1,
            p.d >= 1,
            bi.n >= 0,
            bp.n >= 0,
            p.n >= 1,
            f.n >= 1 ==> (bp.n * p.d) * (bi.d * f.n) <= (bi.n * f.d) * (bp.d * p.n),
    ;
}

/// Optimality monotonicity: one pivot moves the objective value from `z`
/// to `z - c * t`, where `c < 0` is the entering column's reduced cost and
/// `t >= 0` is the ratio of the leaving row; the value never decreases
/// (strictly increases unless the ratio is a degenerate zero).
pub proof fn lemma_objective_monotone(z: Q, c: Q, t: Q)
    requires
        q_wf(z),
        q_wf(c),
        q_wf(t),
        q_lt(c, q_zero()),
        q_le(q_zero(), t),
    ensures
        q_le(z, q_sub(z, q_mul(c, t))),
{
    assert(z.n * (z.d * (c.d * t.d)) <= (z.n * (c.d * t.d) - (c.n * t.n) * z.d) * z.d)
        by (nonlinear_arith)
        requires
            z.d >= 1,
            c.d >= 1,
            t.d >= 1,
            c.n <= -1,
            t.n >= 0,
    ;
}

/// Optimality monotonicity, stated over the engine's own state: when the
/// entering column `pcol` has a negative reduced cost, the leaving row
/// `prow` holds a nonnegative basic value and a positive pivot element,
/// then one pivot moves any objective value `z` to
/// `z - obj[pcol] * ratio(prow)`, which is never smaller than `z`.
pub proof fn lemma_engine_objective_monotone(
    t: Seq<Rat>,
    cols: int,
    sol: Seq<Rat>,
    obj: Seq<Rat>,
    prow: int,
    pcol: int,
    z: Q,
)
    requires
        q_wf(z),
        obj[pcol].wf(),
        sol[prow].wf(),
        t[prow * cols + pcol].wf(),
        q_lt(obj[pcol]@, q_zero()),
        q_le(q_zero(), sol[prow]@),
        q_lt(q_zero(), ent(t, cols, prow, pcol)),
    ensures
        q_le(z, q_sub(z, q_mul(obj[pcol]@, pivot_ratio(t, cols, sol, prow, pcol)))),
{
    lemma_q_div_wf(sol[prow]@, ent(t, cols, prow, pcol));
    lemma_q_div_nonneg(sol[prow]@, ent(t, cols, prow, pcol));
    lemma_objective_monotone(z, obj[pcol]@, pivot_ratio(t, cols, sol, prow, pcol));
}

/// Divides every entry of the pivot row by the pivot element `p`, leaving
/// all other rows untouched.  Returns `false` when an exact quotient does
/// not fit; the buffer then still has its length and well-formed entries.
#[verifier::loop_isolation(false)]
fn scale_pivot_row(
    tableau: &mut Vec<Rat>,
    rows: usize,
    cols: usize,
    prow: usize,
    p: Rat,
) -> (ok: bool)
    requires
        dims_ok(old(tableau)@.len() as int, rows as int, cols as int),
        prow < rows,
        all_wf(old(tableau)@, old(tableau)@.len() as int),
        p.wf(),
        q_lt(q_zero(), p@),
    ensures
        final(tableau)@.len() == old(tableau)@.len(),
        all_wf(final(tableau)@, final(tableau)@.len() as int),
        ok ==> forall|j: int| 0 <= j < cols ==> q_eq(
            ent(final(tableau)@, cols as int, prow as int, j),
            q_div(#[trigger] ent(old(tableau)@, cols as int, prow as int, j), p@),
        ),
        ok ==> forall|i: int, j: int|
            0 <= i < rows && i != prow && 0 <= j < cols
                ==> final(tableau)@[i * cols as int + j] == old(tableau)@[
                #[trigger] (i * cols as int + j)
            ],
{
    let ghost t0 = old(tableau)@;
    let mut j: usize = 0;
    while j < cols
        invariant
            j <= cols,
            prow < rows,
            p.wf(),
            q_lt(q_zero(), p@),
            dims_ok(t0.len() as int, rows as int, cols as int),
            tableau@.len() == t0.len(),
            all_wf(t0, t0.len() as int),
            all_wf(tableau@, tableau@.len() as int),
            forall|jj: int| 0 <= jj < j ==> q_eq(
                ent(tableau@, cols as int, prow as int, jj),
                q_div(#[trigger] ent(t0, cols as int, prow as int, jj), p@),
            ),
            forall|k: int|
                0 <= k < t0.len() && !(prow as int * cols as int <= k < prow as int * cols as int
                    + j) ==> tableau@[k] == t0[k],
        decreases cols - j,
    {
        proof {
            lemma_rowmajor_in_bounds(prow as int, j as int, rows as int, cols as int);
        }
        let v = tab_get(tableau, rows, cols, prow, j);
        let nv = match rat_div(&v, &p) {
            Some(nv) => nv,
            None => {
                return false;
            },
        };
        proof {
            lemma_q_div_wf(v@, p@);
        }
        tab_set(tableau, rows, cols, prow, j, nv);
        j += 1;
    }
    proof {
        assert forall|i: int, j: int|
            0 <= i < rows && i != prow && 0 <= j < cols implies tableau@[i * cols as int + j]
            == t0[#[trigger] (i * cols as int + j)] by {
            lemma_rowmajor_in_bounds(i, j, rows as int, cols as int);
            lemma_rows_disjoint(i, prow as int, j, cols as int);
        }
    }
    true
}

/// Subtracts `factor` times the (already scaled) pivot row from row
/// `target`, leaving every other row untouched.  Returns `false` when an
/// exact value does not fit; the buffer then still has its length and
/// well-formed entries.
#[verifier::loop_isolation(false)]
fn eliminate_row(
    tableau: &mut Vec<Rat>,
    rows: usize,
    cols: usize,
    target: usize,
    factor: Rat,
    prow: usize,
) -> (ok: bool)
    requires
        dims_ok(old(tableau)@.len() as int, rows as int, cols as int),
        target < rows,
        prow < rows,
        target != prow,
        all_wf(old(tableau)@, old(tableau)@.len() as int),
        factor.wf(),
    ensures
        final(tableau)@.len() == old(tableau)@.len(),
        all_wf(final(tableau)@, final(tableau)@.len() as int),
        ok ==> forall|j: int| 0 <= j < cols ==> q_eq(
            ent(final(tableau)@, cols as int, target as int, j),
            q_sub(
                #[trigger] ent(old(tableau)@, cols as int, target as int, j),
                q_mul(factor@, ent(old(tableau)@, cols as int, prow as int, j)),
            ),
        ),
        ok ==> forall|i: int, j: int|
            0 <= i < rows && i != target && 0 <= j < cols
                ==> final(tableau)@[i * cols as int + j] == old(tableau)@[
                #[trigger] (i * cols as int + j)
            ],
{
    let ghost t0 = old(tableau)@;
    let mut j: usize = 0;
    while j < cols
        invariant
            j <= cols,
            target < rows,
            prow < rows,
            target != prow,
            factor.wf(),
            dims_ok(t0.len() as int, rows as int, cols as int),
            tableau@.len() == t0.len(),
            all_wf(t0, t0.len() as int),
            all_wf(tableau@, tableau@.len() as int),
            forall|jj: int| 0 <= jj < j ==> q_eq(
                ent(tableau@, cols as int, target as int, jj),
                q_sub(
                    #[trigger] ent(t0, cols as int, target as int, jj),
                    q_mul(factor@, ent(t0, cols as int, prow as int, jj)),
                ),
            ),
            forall|k: int|
                0 <= k < t0.len() && !(target as int * cols as int <= k < target as int
                    * cols as int + j) ==> tableau@[k] == t0[k],
        decreases cols - j,
    {
        proof {
            lemma_rowmajor_in_bounds(target as int, j as int, rows as int, cols as int);
            lemma_rowmajor_in_bounds(prow as int, j as int, rows as int, cols as int);
            lemma_rows_disjoint(prow as int, target as int, j as int, cols as int);
        }
        let tv = tab_get(tableau, rows, cols, target, j);
        let pv = tab_get(tableau, rows, cols, prow, j);
        let m = match rat_mul(&factor, &pv) {
            Some(m) => m,
            None => {
                return false;
            },
        };
        let nv = match rat_sub(&tv, &m) {
            Some(nv) => nv,
            None => {
                return false;
            },
        };
        proof {
            lemma_q_ops_wf(factor@, pv@);
            lemma_q_ops_wf(tv@, m@);
            lemma_q_sub_congr(tv@, m@, q_mul(factor@, pv@));
            lemma_q_eq_trans(nv@, q_sub(tv@, m@), q_sub(tv@, q_mul(factor@, pv@)));
        }
        tab_set(tableau, rows, cols, target, j, nv);
        j += 1;
    }
    proof {
        assert forall|i: int, j: int|
            0 <= i < rows && i != target && 0 <= j < cols implies tableau@[i * cols as int + j]
            == t0[#[trigger] (i * cols as int + j)] by {
            lemma_rowmajor_in_bounds(i, j, rows as int, cols as int);
            lemma_rows_disjoint(i, target as int, j, cols as int);
        }
    }
    true
}

/// Subtracts `factor` times the (already scaled) pivot row of the tableau
/// from the objective row, the textbook elimination that keeps the reduced
/// costs meaningful after the pivot.  Returns `false` when an exact value
/// does not fit; the row then still has its length and well-formed entries.
#[verifier::loop_isolation(false)]
fn eliminate_objective(
    objective: &mut Vec<Rat>,
    cols: usize,
    factor: Rat,
    tableau: &Vec<Rat>,
    rows: usize,
    prow: usize,
) -> (ok: bool)
    requires
        dims_ok(tableau@.len() as int, rows as int, cols as int),
        prow < rows,
        old(objective)@.len() == cols,
        all_wf(tableau@, tableau@.len() as int),
        all_wf(old(objective)@, cols as int),
        factor.wf(),
    ensures
        final(objective)@.len() == cols,
        all_wf(final(objective)@, cols as int),
        ok ==> forall|j: int| 0 <= j < cols ==> q_eq(
            (#[trigger] final(objective)@[j])@,
            q_sub(
                old(objective)@[j]@,
                q_mul(factor@, ent(tableau@, cols as int, prow as int, j)),
            ),
        ),
{
    let ghost o0 = old(objective)@;
    let mut j: usize = 0;
    while j < cols
        invariant
            j <= cols,
            objective@.len() == cols,
            all_wf(objective@, cols as int),
            forall|jj: int| 0 <= jj < j ==> q_eq(
                (#[trigger] objective@[jj])@,
                q_sub(o0[jj]@, q_mul(factor@, ent(tableau@, cols as int, prow as int, jj))),
            ),
            forall|jj: int| j <= jj < cols ==> objective@[jj] == o0[jj],
        decreases cols - j,
    {
        proof {
            lemma_rowmajor_in_bounds(prow as int, j as int, rows as int, cols as int);
        }
        let ov = objective[j];
        let pv = tab_get(tableau, rows, cols, prow, j);
        let m = match rat_mul(&factor, &pv) {
            Some(m) => m,
            None => {
                return false;
            },
        };
        let nv = match rat_sub(&ov, &m) {
            Some(nv) => nv,
            None => {
                return false;
            },
        };
        proof {
            lemma_q_ops_wf(factor@, pv@);
            lemma_q_ops_wf(ov@, m@);
            lemma_q_sub_congr(ov@, m@, q_mul(factor@, pv@));
            lemma_q_eq_trans(nv@, q_sub(ov@, m@), q_sub(ov@, q_mul(factor@, pv@)));
        }
        objective.set(j, nv);
        j += 1;
    }
    true
}

/// Entry `(i, j)` of the tableau after a pivot on `(prow, pcol)`: the
/// pivot row is divided by the pivot element, every other row has
/// `tableau[i][pcol]` times the scaled pivot row subtracted, so that the
/// pivot column becomes a unit basis vector.
pub open spec fn pivoted_entry(t: Seq<Rat>, cols: int, prow: int, pcol: int, i: int, j: int) -> Q {
    if i == prow {
        q_div(ent(t, cols, prow, j), ent(t, cols, prow, pcol))
    } else {
        q_sub(
            ent(t, cols, i, j),
            q_mul(ent(t, cols, i, pcol), q_div(ent(t, cols, prow, j), ent(t, cols, prow, pcol))),
        )
    }
}

/// Entry `i` of the basic solution after a pivot on `(prow, pcol)`.
pub open spec fn pivoted_solution(
    t: Seq<Rat>,
    cols: int,
    sol: Seq<Rat>,
    prow: int,
    pcol: int,
    i: int,
) -> Q {
    if i == prow {
        q_div(sol[prow]@, ent(t, cols, prow, pcol))
    } else {
        q_sub(
            sol[i]@,
            q_mul(ent(t, cols, i, pcol), q_div(sol[prow]@, ent(t, cols, prow, pcol))),
        )
    }
}

/// Entry `j` of the objective row after a pivot on `(prow, pcol)`.
pub open spec fn pivoted_objective(
    t: Seq<Rat>,
    cols: int,
    obj: Seq<Rat>,
    prow: int,
    pcol: int,
    j: int,
) -> Q {
    q_sub(
        obj[j]@,
        q_mul(obj[pcol]@, q_div(ent(t, cols, prow, j), ent(t, cols, prow, pcol))),
    )
}

/// One full pivot on `(prow, pcol)`: scales the pivot row (tableau and
/// solution entry) by the pivot element and eliminates the pivot column
/// from every other row, the solution vector and the objective row.
/// Returns `false` when an exact value does not fit; all three buffers
/// then still have their lengths and well-formed entries.
#[verifier::loop_isolation(false)]
fn do_pivot(
    tableau: &mut Vec<Rat>,
    rows: usize,
    cols: usize,
    solution: &mut Vec<Rat>,
    objective: &mut Vec<Rat>,
    prow: usize,
    pcol: usize,
) -> (ok: bool)
    requires
        dims_ok(old(tableau)@.len() as int, rows as int, cols as int),
        prow < rows,
        pcol < cols,
        old(solution)@.len() == rows,
        old(objective)@.len() == cols,
        all_wf(old(tableau)@, old(tableau)@.len() as int),
        all_wf(old(solution)@, rows as int),
        all_wf(old(objective)@, cols as int),
        q_lt(q_zero(), ent(old(tableau)@, cols as int, prow as int, pcol as int)),
    ensures
        final(tableau)@.len() == old(tableau)@.len(),
        final(solution)@.len() == rows,
        final(objective)@.len() == cols,
        all_wf(final(tableau)@, final(tableau)@.len() as int),
        all_wf(final(solution)@, rows as int),
        all_wf(final(objective)@, cols as int),
        ok ==> forall|i: int, j: int| 0 <= i < rows && 0 <= j < cols ==> q_eq(
            #[trigger] ent(final(tableau)@, cols as int, i, j),
            pivoted_entry(old(tableau)@, cols as int, prow as int, pcol as int, i, j),
        ),
        ok ==> forall|i: int| 0 <= i < rows ==> q_eq(
            (#[trigger] final(solution)@[i])@,
            pivoted_solution(
                old(tableau)@,
                cols as int,
                old(solution)@,
                prow as int,
                pcol as int,
                i,
            ),
        ),
        ok ==> forall|j: int| 0 <= j < cols ==> q_eq(
            (#[trigger] final(objective)@[j])@,
            pivoted_objective(
                old(tableau)@,
                cols as int,
                old(objective)@,
                prow as int,
                pcol as int,
                j,
            ),
        ),
{
    let ghost t0 = old(tableau)@;
    let ghost s0 = old(solution)@;
    let ghost o0 = old(objective)@;
    proof {
        lemma_rowmajor_in_bounds(prow as int, pcol as int, rows as int, cols as int);
    }
    let p = tab_get(tableau, rows, cols, prow, pcol);
    if !scale_pivot_row(tableau, rows, cols, prow, p) {
        return false;
    }
    let sp_old = solution[prow];
    let sp = match rat_div(&sp_old, &p) {
        Some(v) => v,
        None => {
            return false;
        },
    };
    proof {
        lemma_q_div_wf(s0[prow as int]@, p@);
    }
    solution.set(prow, sp);
    let mut i: usize = 0;
    while i < rows
        invariant
            i <= rows,
            tableau@.len() == t0.len(),
            solution@.len() == rows,
            objective@ == o0,
            all_wf(tableau@, tableau@.len() as int),
            all_wf(solution@, rows as int),
            forall|jj: int| 0 <= jj < cols ==> q_eq(
                #[trigger] ent(tableau@, cols as int, prow as int, jj),
                q_div(ent(t0, cols as int, prow as int, jj), p@),
            ),
            solution@[prow as int] == sp,
            forall|ii: int, jj: int|
                0 <= ii < i && ii != prow && 0 <= jj < cols ==> q_eq(
                    #[trigger] ent(tableau@, cols as int, ii, jj),
                    pivoted_entry(t0, cols as int, prow as int, pcol as int, ii, jj),
                ),
            forall|ii: int| 0 <= ii < i && ii != prow ==> q_eq(
                (#[trigger] solution@[ii])@,
                pivoted_solution(t0, cols as int, s0, prow as int, pcol as int, ii),
            ),
            forall|ii: int, jj: int|
                i <= ii < rows && ii != prow && 0 <= jj < cols
                    ==> tableau@[ii * cols as int + jj] == t0[#[trigger] (ii * cols as int + jj)],
            forall|ii: int| i <= ii < rows && ii != prow ==> solution@[ii] == s0[ii],
        decreases rows - i,
    {
        if i != prow {
            proof {
                lemma_rowmajor_in_bounds(i as int, pcol as int, rows as int, cols as int);
            }
            let f = tab_get(tableau, rows, cols, i, pcol);
            proof {
                assert(f@ == ent(t0, cols as int, i as int, pcol as int));
            }
            let ghost t_prev = tableau@;
            if !eliminate_row(tableau, rows, cols, i, f, prow) {
                return false;
            }
            proof {
                assert forall|ii: int, jj: int|
                    0 <= ii < rows && ii != i && 0 <= jj < cols
                        implies tableau@[ii * cols as int + jj] == t_prev[
                        #[trigger] (ii * cols as int + jj)
                    ] by {
                    lemma_rowmajor_in_bounds(ii, jj, rows as int, cols as int);
                }
                assert forall|jj: int| 0 <= jj < cols implies #[trigger] ent(
                    tableau@,
                    cols as int,
                    prow as int,
                    jj,
                ) == ent(t_prev, cols as int, prow as int, jj) by {
                    lemma_rowmajor_in_bounds(prow as int, jj, rows as int, cols as int);
                    assert(tableau@[prow as int * cols as int + jj] == t_prev[prow as int
                        * cols as int + jj]);
                }
                assert forall|ii: int, jj: int|
                    0 <= ii < i && ii != prow && 0 <= jj < cols implies #[trigger] ent(
                    tableau@,
                    cols as int,
                    ii,
                    jj,
                ) == ent(t_prev, cols as int, ii, jj) by {
                    lemma_rowmajor_in_bounds(ii, jj, rows as int, cols as int);
                    assert(tableau@[ii * cols as int + jj] == t_prev[ii * cols as int + jj]);
                }
                assert forall|jj: int| 0 <= jj < cols implies q_eq(
                    #[trigger] ent(tableau@, cols as int, i as int, jj),
                    pivoted_entry(t0, cols as int, prow as int, pcol as int, i as int, jj),
                ) by {
                    lemma_rowmajor_in_bounds(i as int, jj, rows as int, cols as int);
                    lemma_rowmajor_in_bounds(prow as int, jj, rows as int, cols as int);
                    assert(t_prev[i as int * cols as int + jj] == t0[i as int * cols as int + jj]);
                    assert(ent(t_prev, cols as int, i as int, jj) == ent(
                        t0,
                        cols as int,
                        i as int,
                        jj,
                    ));
                    lemma_q_div_wf(ent(t0, cols as int, prow as int, jj), p@);
                    lemma_q_ops_wf(f@, ent(t_prev, cols as int, prow as int, jj));
                    lemma_q_ops_wf(
                        ent(t_prev, cols as int, i as int, jj),
                        q_mul(f@, ent(t_prev, cols as int, prow as int, jj)),
                    );
                    lemma_q_ops_wf(f@, q_div(ent(t0, cols as int, prow as int, jj), p@));
                    lemma_q_mul_congr(
                        f@,
                        ent(t_prev, cols as int, prow as int, jj),
                        q_div(ent(t0, cols as int, prow as int, jj), p@),
                    );
                    lemma_q_sub_congr(
                        ent(t_prev, cols as int, i as int, jj),
                        q_mul(f@, ent(t_prev, cols as int, prow as int, jj)),
                        q_mul(f@, q_div(ent(t0, cols as int, prow as int, jj), p@)),
                    );
                    lemma_q_eq_trans(
                        ent(tableau@, cols as int, i as int, jj),
                        q_sub(
                            ent(t_prev, cols as int, i as int, jj),
                            q_mul(f@, ent(t_prev, cols as int, prow as int, jj)),
                        ),
                        q_sub(
                            ent(t_prev, cols as int, i as int, jj),
                            q_mul(f@, q_div(ent(t0, cols as int, prow as int, jj), p@)),
                        ),
                    );
                }
            }
            let sv = solution[i];
            proof {
                assert(sv == s0[i as int]);
            }
            let m = match rat_mul(&f, &sp) {
                Some(m) => m,
                None => {
                    return false;
                },
            };
            let nv = match rat_sub(&sv, &m) {
                Some(nv) => nv,
                None => {
                    return false;
                },
            };
            proof {
                lemma_q_div_wf(s0[prow as int]@, p@);
                lemma_q_ops_wf(f@, sp@);
                lemma_q_ops_wf(sv@, m@);
                lemma_q_ops_wf(f@, q_div(s0[prow as int]@, p@));
                lemma_q_mul_congr(f@, sp@, q_div(s0[prow as int]@, p@));
                lemma_q_sub_congr(sv@, m@, q_mul(f@, sp@));
                lemma_q_eq_trans(nv@, q_sub(sv@, m@), q_sub(sv@, q_mul(f@, sp@)));
                lemma_q_ops_wf(sv@, q_mul(f@, sp@));
                lemma_q_sub_congr(
                    sv@,
                    q_mul(f@, sp@),
                    q_mul(f@, q_div(s0[prow as int]@, p@)),
                );
                lemma_q_eq_trans(
                    nv@,
                    q_sub(sv@, q_mul(f@, sp@)),
                    q_sub(sv@, q_mul(f@, q_div(s0[prow as int]@, p@))),
                );
            }
            solution.set(i, nv);
        }
        i += 1;
    }
    let fobj = objective[pcol];
    let ghost t_scaled = tableau@;
    if !eliminate_objective(objective, cols, fobj, tableau, rows, prow) {
        return false;
    }
    proof {
        assert forall|j: int| 0 <= j < cols implies q_eq(
            (#[trigger] objective@[j])@,
            pivoted_objective(t0, cols as int, o0, prow as int, pcol as int, j),
        ) by {
            lemma_rowmajor_in_bounds(prow as int, j, rows as int, cols as int);
            lemma_q_div_wf(ent(t0, cols as int, prow as int, j), p@);
            lemma_q_ops_wf(fobj@, ent(t_scaled, cols as int, prow as int, j));
            lemma_q_ops_wf(o0[j]@, q_mul(fobj@, ent(t_scaled, cols as int, prow as int, j)));
            lemma_q_ops_wf(fobj@, q_div(ent(t0, cols as int, prow as int, j), p@));
            lemma_q_mul_congr(
                fobj@,
                ent(t_scaled, cols as int, prow as int, j),
                q_div(ent(t0, cols as int, prow as int, j), p@),
            );
            lemma_q_sub_congr(
                o0[j]@,
                q_mul(fobj@, ent(t_scaled, cols as int, prow as int, j)),
                q_mul(fobj@, q_div(ent(t0, cols as int, prow as int, j), p@)),
            );
            lemma_q_eq_trans(
                objective@[j]@,
                q_sub(o0[j]@, q_mul(fobj@, ent(t_scaled, cols as int, prow as int, j))),
                q_sub(o0[j]@, q_mul(fobj@, q_div(ent(t0, cols as int, prow as int, j), p@))),
            );
        }
    }
    true
}

/// One pivot of a run: the four buffers as they stood before the pivot,
/// and the chosen pivot position.
pub struct PivotRecord {
    pub tableau: Seq<Rat>,
    pub solution: Seq<Rat>,
    pub objective: Seq<Rat>,
    pub basis: Seq<usize>,
    pub prow: usize,
    pub pcol: usize,
}

/// The entering-column rule: `pcol` carries a strictly negative reduced
/// cost, no coefficient is smaller, and no earlier column ties.
pub open spec fn entering_ok(obj: Seq<Rat>, cols: int, pcol: int) -> bool {
    &&& 0 <= pcol < cols
    &&& q_lt(obj[pcol]@, q_zero())
    &&& forall|j: int| 0 <= j < cols ==> q_le(obj[pcol]@, (#[trigger] obj[j])@)
    &&& forall|j: int| 0 <= j < pcol ==> q_lt(obj[pcol]@, (#[trigger] obj[j])@)
}

/// The leaving-row rule: a strictly positive coefficient in the pivot
/// column whose row attains the minimum ratio, the lowest such row on
/// ties.
pub open spec fn leaving_ok(
    t: Seq<Rat>,
    cols: int,
    sol: Seq<Rat>,
    rows: int,
    prow: int,
    pcol: int,
) -> bool {
    &&& 0 <= prow < rows
    &&& q_lt(q_zero(), ent(t, cols, prow, pcol))
    &&& forall|i: int|
        0 <= i < rows && q_lt(q_zero(), ent(t, cols, i, pcol)) ==> q_le(
            pivot_ratio(t, cols, sol, prow, pcol),
            #[trigger] pivot_ratio(t, cols, sol, i, pcol),
        )
    &&& forall|i: int|
        0 <= i < prow && q_lt(q_zero(), ent(t, cols, i, pcol)) ==> q_lt(
            pivot_ratio(t, cols, sol, prow, pcol),
            #[trigger] pivot_ratio(t, cols, sol, i, pcol),
        )
}

/// The buffers of a record agree with the declared dimensions.
pub open spec fn record_dims_ok(rec: PivotRecord, rows: int, cols: int) -> bool {
    &&& rec.tableau.len() == rows * cols
    &&& rec.solution.len() == rows
    &&& rec.objective.len() == cols
    &&& rec.basis.len() == rows
}

/// One recorded pivot carries the buffers from the record's pre-state to
/// the given post-state: the position obeys the entering and leaving
/// rules, every post-state entry is the pivoted pre-state, and the
/// basic-variable index is updated at the leaving row.
pub open spec fn pivot_step_ok(
    rec: PivotRecord,
    rows: int,
    cols: int,
    t2: Seq<Rat>,
    s2: Seq<Rat>,
    o2: Seq<Rat>,
    b2: Seq<usize>,
) -> bool {
    &&& record_dims_ok(rec, rows, cols)
    &&& t2.len() == rows * cols
    &&& s2.len() == rows
    &&& o2.len() == cols
    &&& b2.len() == rows
    &&& all_nonneg(rec.solution, rows)
    &&& entering_ok(rec.objective, cols, rec.pcol as int)
    &&& leaving_ok(rec.tableau, cols, rec.solution, rows, rec.prow as int, rec.pcol as int)
    &&& forall|i: int, j: int|
        0 <= i < rows && 0 <= j < cols ==> q_eq(
            #[trigger] ent(t2, cols, i, j),
            pivoted_entry(rec.tableau, cols, rec.prow as int, rec.pcol as int, i, j),
        )
    &&& forall|i: int|
        0 <= i < rows ==> q_eq(
            (#[trigger] s2[i])@,
            pivoted_solution(rec.tableau, cols, rec.solution, rec.prow as int, rec.pcol as int, i),
        )
    &&& forall|j: int|
        0 <= j < cols ==> q_eq(
            (#[trigger] o2[j])@,
            pivoted_objective(
                rec.tableau,
                cols,
                rec.objective,
                rec.prow as int,
                rec.pcol as int,
                j,
            ),
        )
    &&& b2 == rec.basis.update(rec.prow as int, rec.pcol)
}

/// A chain of recorded pivots out of the given initial buffers: the
/// first record starts there, and each pivot produces the next record's
/// pre-state.
pub open spec fn pivot_chain_ok(
    trace: Seq<PivotRecord>,
    rows: int,
    cols: int,
    t0: Seq<Rat>,
    s0: Seq<Rat>,
    o0: Seq<Rat>,
    b0: Seq<usize>,
) -> bool {
    &&& (trace.len() > 0 ==> trace[0].tableau == t0 && trace[0].solution == s0
        && trace[0].objective == o0 && trace[0].basis == b0)
    &&& forall|k: int|
        0 <= k < trace.len() - 1 ==> pivot_step_ok(
            #[trigger] trace[k],
            rows,
            cols,
            trace[k + 1].tableau,
            trace[k + 1].solution,
            trace[k + 1].objective,
            trace[k + 1].basis,
        )
}

/// A complete pivot history from the initial buffers to the final ones:
/// a chain whose last pivot lands exactly on the final state, or no
/// pivot at all and the buffers untouched.
pub open spec fn pivot_trace_ok(
    trace: Seq<PivotRecord>,
    rows: int,
    cols: int,
    t0: Seq<Rat>,
    s0: Seq<Rat>,
    o0: Seq<Rat>,
    b0: Seq<usize>,
    t1: Seq<Rat>,
    s1: Seq<Rat>,
    o1: Seq<Rat>,
    b1: Seq<usize>,
) -> bool {
    &&& pivot_chain_ok(trace, rows, cols, t0, s0, o0, b0)
    &&& (trace.len() == 0 ==> t1 == t0 && s1 == s0 && o1 == o0 && b1 == b0)
    &&& (trace.len() > 0 ==> pivot_step_ok(trace.last(), rows, cols, t1, s1, o1, b1))
}

/// A positive value divided by itself is one.
proof fn lemma_q_self_div_one(p: Q)
    by (nonlinear_arith)
    ensures
        q_eq(q_div(p, p), q_one()),
{
}

/// Subtracting `f` times `p / p` from `f` gives zero.
proof fn lemma_q_cancel_zero(f: Q, p: Q)
    by (nonlinear_arith)
    ensures
        q_eq(q_sub(f, q_mul(f, q_div(p, p))), q_zero()),
{
}

/// A zero-valued numerator makes the quotient zero-valued.
proof fn lemma_q_zero_div(z: Q, p: Q)
    by (nonlinear_arith)
    requires
        q_eq(z, q_zero()),
    ensures
        q_eq(q_div(z, p), q_zero()),
{
}

/// Subtracting a multiple of a zero-valued quotient changes nothing.
proof fn lemma_q_sub_zero_term(a: Q, f: Q, z: Q, p: Q)
    by (nonlinear_arith)
    requires
        q_eq(z, q_zero()),
    ensures
        q_eq(q_sub(a, q_mul(f, q_div(z, p))), a),
{
}

/// Column `c` is the unit vector of row `r`: one there, zero in every
/// other row and in the objective row.
pub open spec fn unit_column(
    t: Seq<Rat>,
    rows: int,
    cols: int,
    obj: Seq<Rat>,
    r: int,
    c: int,
) -> bool {
    &&& q_eq(ent(t, cols, r, c), q_one())
    &&& forall|i: int| 0 <= i < rows && i != r ==> q_eq(#[trigger] ent(t, cols, i, c), q_zero())
    &&& q_eq(obj[c]@, q_zero())
}

/// Canonical form for the current basis: each row's basic column is that
/// row's unit vector.
pub open spec fn basis_canonical(
    t: Seq<Rat>,
    rows: int,
    cols: int,
    obj: Seq<Rat>,
    basis: Seq<usize>,
) -> bool {
    forall|r: int|
        0 <= r < rows ==> unit_column(t, rows, cols, obj, r, (#[trigger] basis[r]) as int)
}

/// Every entry of the basic-variable index is a valid column.
fn basis_in_range(basis: &Vec<usize>, cols: usize) -> (r: bool)
    ensures
        r == forall|i: int| 0 <= i < basis@.len() ==> (#[trigger] basis@[i]) < cols,
{
    let mut i: usize = 0;
    let len = basis.len();
    while i < len
        invariant
            i <= len,
            len == basis@.len(),
            forall|j: int| 0 <= j < i ==> (#[trigger] basis@[j]) < cols,
        decreases len - i,
    {
        if basis[i] >= cols {
            return false;
        }
        i += 1;
    }
    true
}

/// The caller's buffers agree with the declared dimensions: a positive
/// `rows` by `cols` tableau, an objective row of `cols` coefficients, a
/// solution vector of `rows` basic values, and a basic-variable index of
/// `rows` valid columns.
pub open spec fn simplex_dims_ok(
    tlen: int,
    rows: int,
    cols: int,
    slen: int,
    olen: int,
    basis: Seq<usize>,
) -> bool {
    &&& dims_ok(tlen, rows, cols)
    &&& olen == cols
    &&& slen == rows
    &&& basis.len() == rows
    &&& forall|i: int| 0 <= i < rows ==> (#[trigger] basis[i]) < cols
}

/// Runs the primal simplex maximizer in place on caller-owned buffers:
/// `tableau` is the `rows` by `cols` constraint matrix in standard form,
/// `solution` the basic values of each row, `objective` the reduced costs,
/// and `basis` records which column is basic in each row.  The loop
/// repeats the optimality test, the entering/leaving selection and the
/// pivot until every reduced cost is nonnegative (`Optimal`), an
/// improving column has no positive entry (`Unbounded`), or
/// `max_iterations` pivots have been performed.  Bad dimensions and a
/// negative initial solution entry are rejected before any computation;
/// all entries of `solution` stay nonnegative through every pivot.
#[verifier::loop_isolation(false)]
#[verifier::rlimit(90)]
#[verifier::spinoff_prover]
pub fn simplex_method_max(
    tableau: &mut Vec<Rat>,
    rows: usize,
    cols: usize,
    solution: &mut Vec<Rat>,
    objective: &mut Vec<Rat>,
    basis: &mut Vec<usize>,
    max_iterations: usize,
) -> (r: Result<Status, SimplexError>)
    requires
        all_wf(old(tableau)@, old(tableau)@.len() as int),
        all_wf(old(solution)@, old(solution)@.len() as int),
        all_wf(old(objective)@, old(objective)@.len() as int),
    ensures
        r == Result::<Status, SimplexError>::Err(SimplexError::InvalidDimensions)
            <==> !simplex_dims_ok(
            old(tableau)@.len() as int,
            rows as int,
            cols as int,
            old(solution)@.len() as int,
            old(objective)@.len() as int,
            old(basis)@,
        ),
        r == Result::<Status, SimplexError>::Err(SimplexError::Infeasible) <==> {
            &&& simplex_dims_ok(
                old(tableau)@.len() as int,
                rows as int,
                cols as int,
                old(solution)@.len() as int,
                old(objective)@.len() as int,
                old(basis)@,
            )
            &&& !all_nonneg(old(solution)@, rows as int)
        },
        (r == Result::<Status, SimplexError>::Err(SimplexError::InvalidDimensions) || r
            == Result::<Status, SimplexError>::Err(SimplexError::Infeasible)) ==> {
            &&& final(tableau)@ == old(tableau)@
            &&& final(solution)@ == old(solution)@
            &&& final(objective)@ == old(objective)@
            &&& final(basis)@ == old(basis)@
        },
        final(tableau)@.len() == old(tableau)@.len(),
        final(solution)@.len() == old(solution)@.len(),
        final(objective)@.len() == old(objective)@.len(),
        final(basis)@.len() == old(basis)@.len(),
        all_wf(final(tableau)@, final(tableau)@.len() as int),
        all_wf(final(solution)@, final(solution)@.len() as int),
        all_wf(final(objective)@, final(objective)@.len() as int),
        r is Ok ==> all_nonneg(final(solution)@, rows as int),
        r == Result::<Status, SimplexError>::Ok(Status::Optimal) ==> all_nonneg(
            final(objective)@,
            cols as int,
        ),
        r == Result::<Status, SimplexError>::Ok(Status::MaxIterationsExceeded) ==> (exists|
            c: int,
        |
            #![trigger entering_ok(final(objective)@, cols as int, c)]
            entering_ok(final(objective)@, cols as int, c)),
        r == Result::<Status, SimplexError>::Ok(Status::Unbounded) ==> (exists|c: int|
            #![trigger entering_ok(final(objective)@, cols as int, c)]
            entering_ok(final(objective)@, cols as int, c) && forall|i: int|
                0 <= i < rows ==> !q_lt(
                    q_zero(),
                    ent(final(tableau)@, cols as int, i, c),
                )),
        (basis_canonical(old(tableau)@, rows as int, cols as int, old(objective)@, old(basis)@)
            && r is Ok) ==> basis_canonical(
            final(tableau)@,
            rows as int,
            cols as int,
            final(objective)@,
            final(basis)@,
        ),
        r is Ok ==> (exists|trace: Seq<PivotRecord>|
            #![trigger trace.len()]
        {
            &&& pivot_trace_ok(
                trace,
                rows as int,
                cols as int,
                old(tableau)@,
                old(solution)@,
                old(objective)@,
                old(basis)@,
                final(tableau)@,
                final(solution)@,
                final(objective)@,
                final(basis)@,
            )
            &&& trace.len() <= max_iterations
            &&& (r == Result::<Status, SimplexError>::Ok(Status::MaxIterationsExceeded)
                ==> trace.len() == max_iterations)
        }),
        r == Result::<Status, SimplexError>::Err(SimplexError::ArithmeticOverflow) ==> (exists|
            trace: Seq<PivotRecord>, rec: PivotRecord,
        |
            #![trigger trace.len(), record_dims_ok(rec, rows as int, cols as int)]
        {
            &&& pivot_trace_ok(
                trace,
                rows as int,
                cols as int,
                old(tableau)@,
                old(solution)@,
                old(objective)@,
                old(basis)@,
                rec.tableau,
                rec.solution,
                rec.objective,
                rec.basis,
            )
            &&& record_dims_ok(rec, rows as int, cols as int)
            &&& trace.len() < max_iterations
            &&& entering_ok(rec.objective, cols as int, rec.pcol as int)
            &&& (leaving_ok(
                rec.tableau,
                cols as int,
                rec.solution,
                rows as int,
                rec.prow as int,
                rec.pcol as int,
            ) || (exists|i: int|
                0 <= i < rows && q_lt(
                    q_zero(),
                    #[trigger] ent(rec.tableau, cols as int, i, rec.pcol as int),
                ) && !q_fits(
                    pivot_ratio(rec.tableau, cols as int, rec.solution, i, rec.pcol as int),
                )))
        }),
        ({
            &&& simplex_dims_ok(
                old(tableau)@.len() as int,
                rows as int,
                cols as int,
                old(solution)@.len() as int,
                old(objective)@.len() as int,
                old(basis)@,
            )
            &&& all_nonneg(old(solution)@, rows as int)
            &&& all_nonneg(old(objective)@, cols as int)
        }) ==> {
            &&& r == Result::<Status, SimplexError>::Ok(Status::Optimal)
            &&& final(tableau)@ == old(tableau)@
            &&& final(solution)@ == old(solution)@
            &&& final(objective)@ == old(objective)@
            &&& final(basis)@ == old(basis)@
        },
{
    let ghost t0 = old(tableau)@;
    let ghost s0 = old(solution)@;
    let ghost o0 = old(objective)@;
    let ghost b0 = old(basis)@;
    let dims_valid = tableau_dims_valid(tableau.len(), rows, cols) && objective.len() == cols
        && solution.len() == rows && basis.len() == rows && basis_in_range(basis, cols);
    if !dims_valid {
        return Err(SimplexError::InvalidDimensions);
    }
    if !check_non_negative(solution, rows) {
        return Err(SimplexError::Infeasible);
    }
    let mut iter: usize = 0;
    let ghost mut trace: Seq<PivotRecord> = Seq::empty();
    loop
        invariant
            iter <= max_iterations,
            trace.len() == iter,
            pivot_trace_ok(
                trace,
                rows as int,
                cols as int,
                t0,
                s0,
                o0,
                b0,
                tableau@,
                solution@,
                objective@,
                basis@,
            ),
            tableau@.len() == t0.len(),
            solution@.len() == rows,
            objective@.len() == cols,
            basis@.len() == rows,
            forall|i: int| 0 <= i < rows ==> (#[trigger] basis@[i]) < cols,
            all_wf(tableau@, tableau@.len() as int),
            all_wf(solution@, rows as int),
            all_wf(objective@, cols as int),
            all_nonneg(solution@, rows as int),
            basis_canonical(t0, rows as int, cols as int, o0, b0) ==> basis_canonical(
                tableau@,
                rows as int,
                cols as int,
                objective@,
                basis@,
            ),
            (all_nonneg(s0, rows as int) && all_nonneg(o0, cols as int)) ==> {
                &&& tableau@ == t0
                &&& solution@ == s0
                &&& objective@ == o0
                &&& basis@ == b0
            },
        decreases max_iterations - iter,
    {
        let ghost t_b = tableau@;
        let ghost s_b = solution@;
        let ghost o_b = objective@;
        let ghost b_b = basis@;
        match choose_entering_column(objective) {
            None => {
                proof {
                    assert(trace.len() <= max_iterations);
                }
                return Ok(Status::Optimal);
            },
            Some(col) => {
                proof {
                    assert(entering_ok(objective@, cols as int, col as int));
                }
                if iter == max_iterations {
                    proof {
                        assert(trace.len() == max_iterations);
                    }
                    return Ok(Status::MaxIterationsExceeded);
                }
                match choose_leaving_row(tableau, rows, cols, col, solution) {
                    Err(PivotFailure::Unbounded) => {
                        proof {
                            assert(forall|i: int|
                                0 <= i < rows ==> !q_lt(
                                    q_zero(),
                                    ent(tableau@, cols as int, i, col as int),
                                ));
                            assert(trace.len() <= max_iterations);
                        }
                        return Ok(Status::Unbounded);
                    },
                    Err(PivotFailure::ArithmeticOverflow) => {
                        proof {
                            let rec = PivotRecord {
                                tableau: t_b,
                                solution: s_b,
                                objective: o_b,
                                basis: b_b,
                                prow: 0,
                                pcol: col,
                            };
                            assert(record_dims_ok(rec, rows as int, cols as int));
                            assert(trace.len() < max_iterations);
                        }
                        return Err(SimplexError::ArithmeticOverflow);
                    },
                    Ok(prow) => {
                        proof {
                            assert(leaving_ok(
                                t_b,
                                cols as int,
                                s_b,
                                rows as int,
                                prow as int,
                                col as int,
                            ));
                        }
                        if !do_pivot(tableau, rows, cols, solution, objective, prow, col) {
                            proof {
                                let rec = PivotRecord {
                                    tableau: t_b,
                                    solution: s_b,
                                    objective: o_b,
                                    basis: b_b,
                                    prow,
                                    pcol: col,
                                };
                                assert(record_dims_ok(rec, rows as int, cols as int));
                                assert(trace.len() < max_iterations);
                            }
                            return Err(SimplexError::ArithmeticOverflow);
                        }
                        proof {
                            lemma_rowmajor_in_bounds(
                                prow as int,
                                col as int,
                                rows as int,
                                cols as int,
                            );
                            assert forall|i: int| 0 <= i < rows implies q_le(
                                q_zero(),
                                (#[trigger] solution@[i])@,
                            ) by {
                                lemma_rowmajor_in_bounds(i, col as int, rows as int, cols as int);
                                let bp = s_b[prow as int]@;
                                let p = ent(t_b, cols as int, prow as int, col as int);
                                lemma_q_div_wf(bp, p);
                                if i == prow as int {
                                    lemma_q_div_nonneg(bp, p);
                                    lemma_q_le_congr(
                                        q_zero(),
                                        q_zero(),
                                        q_div(bp, p),
                                        solution@[i]@,
                                    );
                                } else {
                                    let bi = s_b[i]@;
                                    let fi = ent(t_b, cols as int, i, col as int);
                                    assert(pivot_ratio(t_b, cols as int, s_b, prow as int, col as int)
                                        == q_div(bp, p));
                                    assert(pivot_ratio(t_b, cols as int, s_b, i, col as int)
                                        == q_div(bi, fi));
                                    lemma_pivot_keeps_feasible(bi, bp, fi, p);
                                    lemma_q_ops_wf(fi, q_div(bp, p));
                                    lemma_q_ops_wf(bi, q_mul(fi, q_div(bp, p)));
                                    lemma_q_le_congr(
                                        q_zero(),
                                        q_zero(),
                                        q_sub(bi, q_mul(fi, q_div(bp, p))),
                                        solution@[i]@,
                                    );
                                }
                            }
                        }
                        basis.set(prow, col);
                        proof {
                            let rec = PivotRecord {
                                tableau: t_b,
                                solution: s_b,
                                objective: o_b,
                                basis: b_b,
                                prow,
                                pcol: col,
                            };
                            let tpre = trace;
                            trace = trace.push(rec);
                            assert(pivot_step_ok(
                                rec,
                                rows as int,
                                cols as int,
                                tableau@,
                                solution@,
                                objective@,
                                basis@,
                            ));
                            assert forall|k: int|
                                0 <= k < trace.len() - 1 implies pivot_step_ok(
                                #[trigger] trace[k],
                                rows as int,
                                cols as int,
                                trace[k + 1].tableau,
                                trace[k + 1].solution,
                                trace[k + 1].objective,
                                trace[k + 1].basis,
                            ) by {
                                if k < tpre.len() - 1 {
                                    assert(trace[k] == tpre[k]);
                                    assert(trace[k + 1] == tpre[k + 1]);
                                } else {
                                    assert(trace[k] == tpre[k]);
                                    assert(trace[k + 1] == rec);
                                }
                            }
                        }
                        proof {
                            if basis_canonical(t0, rows as int, cols as int, o0, b0) {
                                lemma_rowmajor_in_bounds(
                                    prow as int,
                                    col as int,
                                    rows as int,
                                    cols as int,
                                );
                                let p = ent(t_b, cols as int, prow as int, col as int);
                                assert forall|r: int| 0 <= r < rows implies unit_column(
                                    tableau@,
                                    rows as int,
                                    cols as int,
                                    objective@,
                                    r,
                                    (#[trigger] basis@[r]) as int,
                                ) by {
                                    lemma_q_div_wf(p, p);
                                    lemma_q_self_div_one(p);
                                    if r == prow as int {
                                        let c = col as int;
                                        lemma_q_eq_trans(
                                            ent(tableau@, cols as int, r, c),
                                            q_div(p, p),
                                            q_one(),
                                        );
                                        assert forall|i: int|
                                            0 <= i < rows && i != r implies q_eq(
                                            #[trigger] ent(tableau@, cols as int, i, c),
                                            q_zero(),
                                        ) by {
                                            lemma_rowmajor_in_bounds(
                                                i,
                                                c,
                                                rows as int,
                                                cols as int,
                                            );
                                            let f = ent(t_b, cols as int, i, c);
                                            lemma_q_cancel_zero(f, p);
                                            lemma_q_ops_wf(f, q_div(p, p));
                                            lemma_q_ops_wf(f, q_mul(f, q_div(p, p)));
                                            lemma_q_eq_trans(
                                                ent(tableau@, cols as int, i, c),
                                                q_sub(f, q_mul(f, q_div(p, p))),
                                                q_zero(),
                                            );
                                        }
                                        let fo = o_b[c]@;
                                        lemma_q_cancel_zero(fo, p);
                                        lemma_q_ops_wf(fo, q_div(p, p));
                                        lemma_q_ops_wf(fo, q_mul(fo, q_div(p, p)));
                                        lemma_q_eq_trans(
                                            objective@[c]@,
                                            q_sub(fo, q_mul(fo, q_div(p, p))),
                                            q_zero(),
                                        );
                                    } else {
                                        let c = b_b[r] as int;
                                        assert(basis@[r] == b_b[r]);
                                        lemma_rowmajor_in_bounds(r, c, rows as int, cols as int);
                                        let z = ent(t_b, cols as int, prow as int, c);
                                        lemma_rowmajor_in_bounds(
                                            prow as int,
                                            c,
                                            rows as int,
                                            cols as int,
                                        );
                                        assert(q_eq(z, q_zero()));
                                        let a1 = ent(t_b, cols as int, r, c);
                                        let f1 = ent(t_b, cols as int, r, col as int);
                                        lemma_rowmajor_in_bounds(
                                            r,
                                            col as int,
                                            rows as int,
                                            cols as int,
                                        );
                                        lemma_q_sub_zero_term(a1, f1, z, p);
                                        lemma_q_div_wf(z, p);
                                        lemma_q_ops_wf(f1, q_div(z, p));
                                        lemma_q_ops_wf(a1, q_mul(f1, q_div(z, p)));
                                        lemma_q_eq_trans(
                                            ent(tableau@, cols as int, r, c),
                                            q_sub(a1, q_mul(f1, q_div(z, p))),
                                            a1,
                                        );
                                        lemma_q_eq_trans(
                                            ent(tableau@, cols as int, r, c),
                                            a1,
                                            q_one(),
                                        );
                                        assert forall|i: int|
                                            0 <= i < rows && i != r implies q_eq(
                                            #[trigger] ent(tableau@, cols as int, i, c),
                                            q_zero(),
                                        ) by {
                                            lemma_rowmajor_in_bounds(
                                                i,
                                                c,
                                                rows as int,
                                                cols as int,
                                            );
                                            if i == prow as int {
                                                lemma_q_zero_div(z, p);
                                                lemma_q_div_wf(z, p);
                                                lemma_q_eq_trans(
                                                    ent(tableau@, cols as int, i, c),
                                                    q_div(z, p),
                                                    q_zero(),
                                                );
                                            } else {
                                                let ai = ent(t_b, cols as int, i, c);
                                                let fi = ent(t_b, cols as int, i, col as int);
                                                lemma_rowmajor_in_bounds(
                                                    i,
                                                    col as int,
                                                    rows as int,
                                                    cols as int,
                                                );
                                                lemma_q_sub_zero_term(ai, fi, z, p);
                                                lemma_q_div_wf(z, p);
                                                lemma_q_ops_wf(fi, q_div(z, p));
                                                lemma_q_ops_wf(ai, q_mul(fi, q_div(z, p)));
                                                lemma_q_eq_trans(
                                                    ent(tableau@, cols as int, i, c),
                                                    q_sub(ai, q_mul(fi, q_div(z, p))),
                                                    ai,
                                                );
                                                lemma_q_eq_trans(
                                                    ent(tableau@, cols as int, i, c),
                                                    ai,
                                                    q_zero(),
                                                );
                                            }
                                        }
                                        let ao = o_b[c]@;
                                        let fo = o_b[col as int]@;
                                        lemma_q_sub_zero_term(ao, fo, z, p);
                                        lemma_q_div_wf(z, p);
                                        lemma_q_ops_wf(fo, q_div(z, p));
                                        lemma_q_ops_wf(ao, q_mul(fo, q_div(z, p)));
                                        lemma_q_eq_trans(
                                            objective@[c]@,
                                            q_sub(ao, q_mul(fo, q_div(z, p))),
                                            ao,
                                        );
                                        lemma_q_eq_trans(objective@[c]@, ao, q_zero());
                                    }
                                }
                            }
                        }
                        iter += 1;
                    },
                }
            },
        }
    }
}

} // verus!
