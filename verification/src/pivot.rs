//! Pivot selection for the simplex maximizer: the entering column is the
//! one with the most negative reduced cost, and the leaving row is found by
//! the minimum positive ratio test.  Ties are always broken by the lowest
//! index, a deterministic, Bland's-rule-like anti-cycling choice.

use vstd::prelude::*;
use crate::rational::{
    Q, Rat, q_div, q_eq, q_fits, q_le, q_lt, q_wf, q_zero, lemma_q_div_wf, lemma_q_le_congr,
    lemma_q_le_lt_trans, lemma_q_le_trans, lemma_q_lt_congr, lemma_q_lt_le_trans, rat_div,
    rat_is_nonneg, rat_is_pos, rat_lt,
};
use crate::tableau::{dims_ok, ent, tab_get};
use crate::vector_ops::{all_nonneg, all_wf};

verus! {

/// Failure of the leaving-row search.
#[derive(Clone, Copy, Debug, PartialEq, Eq, Structural)]
pub enum PivotFailure {
    /// No row has a strictly positive coefficient in the pivot column: the
    /// objective grows without bound along that direction.
    Unbounded,
    /// An exact intermediate ratio does not fit the rational representation.
    ArithmeticOverflow,
}

/// The ratio of the ratio test: `solution[i] / tableau[i][col]`.
pub open spec fn pivot_ratio(t: Seq<Rat>, cols: int, sol: Seq<Rat>, i: int, col: int) -> Q {
    q_div(sol[i]@, ent(t, cols, i, col))
}

/// Chooses the entering column: the lowest index of a most negative
/// objective coefficient, or `None` when every coefficient is `>= 0`,
/// which signals optimality.
pub fn choose_entering_column(objective_row: &Vec<Rat>) -> (r: Option<usize>)
    requires
        all_wf(objective_row@, objective_row@.len() as int),
    ensures
        r is None <==> all_nonneg(objective_row@, objective_row@.len() as int),
        r matches Some(c) ==> {
            &&& c < objective_row@.len()
            &&& q_lt(objective_row@[c as int]@, q_zero())
            &&& forall|j: int| 0 <= j < objective_row@.len() ==> q_le(
                objective_row@[c as int]@,
                (#[trigger] objective_row@[j])@,
            )
            &&& forall|j: int| 0 <= j < c ==> q_lt(
                objective_row@[c as int]@,
                (#[trigger] objective_row@[j])@,
            )
        },
{
    let len = objective_row.len();
    if len == 0 {
        return None;
    }
    let mut best: usize = 0;
    let mut i: usize = 1;
    while i < len
        invariant
            1 <= i <= len,
            best < i,
            len == objective_row@.len(),
            all_wf(objective_row@, len as int),
            forall|j: int| 0 <= j < i ==> q_le(
                objective_row@[best as int]@,
                (#[trigger] objective_row@[j])@,
            ),
            forall|j: int| 0 <= j < best ==> q_lt(
                objective_row@[best as int]@,
                (#[trigger] objective_row@[j])@,
            ),
        decreases len - i,
    {
        if rat_lt(&objective_row[i], &objective_row[best]) {
            proof {
                assert forall|j: int| 0 <= j < i implies q_lt(
                    objective_row@[i as int]@,
                    (#[trigger] objective_row@[j])@,
                ) by {
                    lemma_q_lt_le_trans(
                        objective_row@[i as int]@,
                        objective_row@[best as int]@,
                        objective_row@[j]@,
                    );
                }
            }
            best = i;
        }
        i += 1;
    }
    if rat_is_nonneg(&objective_row[best]) {
        proof {
            assert forall|j: int| 0 <= j < len implies q_le(
                q_zero(),
                (#[trigger] objective_row@[j])@,
            ) by {
                lemma_q_le_trans(q_zero(), objective_row@[best as int]@, objective_row@[j]@);
            }
        }
        None
    } else {
        Some(best)
    }
}

/// Chooses the leaving row for the given pivot column: among the rows with
/// a strictly positive coefficient there, the lowest index of a minimal
/// ratio `solution[i] / tableau[i][col]`.  When no coefficient in the
/// column is positive the problem is unbounded in that direction.
pub fn choose_leaving_row(
    tableau: &Vec<Rat>,
    rows: usize,
    cols: usize,
    col: usize,
    solution: &Vec<Rat>,
) -> (r: Result<usize, PivotFailure>)
    requires
        dims_ok(tableau@.len() as int, rows as int, cols as int),
        col < cols,
        solution@.len() == rows,
        all_wf(tableau@, tableau@.len() as int),
        all_wf(solution@, rows as int),
    ensures
        r == Result::<usize, PivotFailure>::Err(PivotFailure::Unbounded) <==> (forall|i: int|
            0 <= i < rows ==> !q_lt(q_zero(), ent(tableau@, cols as int, i, col as int))),
        r == Result::<usize, PivotFailure>::Err(PivotFailure::ArithmeticOverflow) ==> exists|
            i: int,
        |
            0 <= i < rows && q_lt(q_zero(), #[trigger] ent(tableau@, cols as int, i, col as int))
                && !q_fits(pivot_ratio(tableau@, cols as int, solution@, i, col as int)),
        r matches Ok(k) ==> {
            &&& k < rows
            &&& q_lt(q_zero(), ent(tableau@, cols as int, k as int, col as int))
            &&& forall|i: int|
                0 <= i < rows && q_lt(q_zero(), ent(tableau@, cols as int, i, col as int))
                    ==> q_le(
                    pivot_ratio(tableau@, cols as int, solution@, k as int, col as int),
                    #[trigger] pivot_ratio(tableau@, cols as int, solution@, i, col as int),
                )
            &&& forall|i: int|
                0 <= i < k && q_lt(q_zero(), ent(tableau@, cols as int, i, col as int))
                    ==> q_lt(
                    pivot_ratio(tableau@, cols as int, solution@, k as int, col as int),
                    #[trigger] pivot_ratio(tableau@, cols as int, solution@, i, col as int),
                )
        },
{
    let ghost tq = tableau@;
    let ghost sq = solution@;
    let mut best: usize = rows;
    let mut best_ratio: Rat = Rat::zero();
    let mut i: usize = 0;
    while i < rows
        invariant
            i <= rows,
            rows <= best || best < i,
            tq == tableau@,
            sq == solution@,
            dims_ok(tableau@.len() as int, rows as int, cols as int),
            col < cols,
            solution@.len() == rows,
            all_wf(tableau@, tableau@.len() as int),
            all_wf(solution@, rows as int),
            best == rows || best < rows,
            best == rows ==> forall|j: int|
                0 <= j < i ==> !q_lt(q_zero(), ent(tq, cols as int, j, col as int)),
            best < rows ==> {
                &&& q_lt(q_zero(), ent(tq, cols as int, best as int, col as int))
                &&& best_ratio.wf()
                &&& q_wf(pivot_ratio(tq, cols as int, sq, best as int, col as int))
                &&& q_eq(best_ratio@, pivot_ratio(tq, cols as int, sq, best as int, col as int))
                &&& forall|j: int|
                    0 <= j < i && q_lt(q_zero(), ent(tq, cols as int, j, col as int)) ==> q_le(
                        pivot_ratio(tq, cols as int, sq, best as int, col as int),
                        #[trigger] pivot_ratio(tq, cols as int, sq, j, col as int),
                    )
                &&& forall|j: int|
                    0 <= j < best && q_lt(q_zero(), ent(tq, cols as int, j, col as int)) ==> q_lt(
                        pivot_ratio(tq, cols as int, sq, best as int, col as int),
                        #[trigger] pivot_ratio(tq, cols as int, sq, j, col as int),
                    )
            },
        decreases rows - i,
    {
        let a = tab_get(tableau, rows, cols, i, col);
        proof {
            crate::tableau::lemma_rowmajor_in_bounds(i as int, col as int, rows as int, cols as int);
        }
        if rat_is_pos(&a) {
            let s = solution[i];
            let q = match rat_div(&s, &a) {
                Some(q) => q,
                None => {
                    proof {
                        assert(q_lt(q_zero(), ent(tq, cols as int, i as int, col as int)));
                        lemma_q_div_wf(sq[i as int]@, ent(tq, cols as int, i as int, col as int));
                        // a refused quotient by a positive divisor means the
                        // exact ratio does not fit the representation
                        assert(!q_fits(pivot_ratio(tq, cols as int, sq, i as int, col as int)));
                    }
                    return Err(PivotFailure::ArithmeticOverflow);
                },
            };
            proof {
                lemma_q_div_wf(sq[i as int]@, ent(tq, cols as int, i as int, col as int));
            }
            if best == rows {
                best = i;
                best_ratio = q;
            } else if rat_lt(&q, &best_ratio) {
                proof {
                    lemma_q_lt_congr(
                        q@,
                        pivot_ratio(tq, cols as int, sq, i as int, col as int),
                        best_ratio@,
                        pivot_ratio(tq, cols as int, sq, best as int, col as int),
                    );
                    assert forall|j: int|
                        0 <= j < i && q_lt(q_zero(), ent(tq, cols as int, j, col as int))
                            implies q_lt(
                        pivot_ratio(tq, cols as int, sq, i as int, col as int),
                        #[trigger] pivot_ratio(tq, cols as int, sq, j, col as int),
                    ) by {
                        crate::tableau::lemma_rowmajor_in_bounds(j, col as int, rows as int, cols as int);
                        lemma_q_div_wf(sq[j]@, ent(tq, cols as int, j, col as int));
                        lemma_q_lt_le_trans(
                            pivot_ratio(tq, cols as int, sq, i as int, col as int),
                            pivot_ratio(tq, cols as int, sq, best as int, col as int),
                            pivot_ratio(tq, cols as int, sq, j, col as int),
                        );
                    }
                }
                best = i;
                best_ratio = q;
            } else {
                proof {
                    lemma_q_le_congr(
                        best_ratio@,
                        pivot_ratio(tq, cols as int, sq, best as int, col as int),
                        q@,
                        pivot_ratio(tq, cols as int, sq, i as int, col as int),
                    );
                }
            }
        }
        i += 1;
    }
    if best == rows {
        Err(PivotFailure::Unbounded)
    } else {
        Ok(best)
    }
}

} // verus!
