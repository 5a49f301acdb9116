//! Stateless helpers over a flat buffer of rationals: index of the element
//! of extreme magnitude (ties broken by the lowest index) and a
//! non-negativity check.  All of them borrow the buffer read-only and
//! inspect its first `len` elements.

use vstd::prelude::*;
use crate::rational::{
    Rat, q_abs, q_le, q_lt, q_zero, lemma_q_le_lt_trans, lemma_q_lt_le_trans, rat_abs_lt,
    rat_is_nonneg,
};

verus! {

/// Failure of a buffer helper.
#[derive(Clone, Copy, Debug, PartialEq, Eq, Structural)]
pub enum VectorError {
    /// The caller asked about an empty range of the buffer.
    InvalidLength,
}

/// All elements of the first `len` positions are well formed.
pub open spec fn all_wf(v: Seq<Rat>, len: int) -> bool {
    forall|i: int| 0 <= i < len ==> (#[trigger] v[i]).wf()
}

/// Every element of the first `len` positions is `>= 0`.
pub open spec fn all_nonneg(v: Seq<Rat>, len: int) -> bool {
    forall|i: int| 0 <= i < len ==> q_le(q_zero(), (#[trigger] v[i])@)
}

/// Index of the element of greatest absolute value among the first `len`,
/// the lowest such index when several are tied.  An empty range is refused.
pub fn idxmax(vector: &Vec<Rat>, len: usize) -> (r: Result<usize, VectorError>)
    requires
        len <= vector@.len(),
        all_wf(vector@, len as int),
    ensures
        r is Err <==> len == 0,
        r matches Err(e) ==> e == VectorError::InvalidLength,
        r matches Ok(k) ==> {
            &&& k < len
            &&& forall|i: int| 0 <= i < len ==> q_le(
                q_abs(vector@[i]@),
                q_abs(vector@[k as int]@),
            )
            &&& forall|i: int| 0 <= i < k ==> q_lt(
                q_abs(vector@[i]@),
                q_abs(vector@[k as int]@),
            )
        },
{
    if len == 0 {
        return Err(VectorError::InvalidLength);
    }
    let mut best: usize = 0;
    let mut i: usize = 1;
    while i < len
        invariant
            1 <= i <= len,
            best < i,
            len <= vector@.len(),
            all_wf(vector@, len as int),
            forall|j: int| 0 <= j < i ==> q_le(q_abs(vector@[j]@), q_abs(vector@[best as int]@)),
            forall|j: int| 0 <= j < best ==> q_lt(
                q_abs(vector@[j]@),
                q_abs(vector@[best as int]@),
            ),
        decreases len - i,
    {
        if rat_abs_lt(&vector[best], &vector[i]) {
            proof {
                assert forall|j: int| 0 <= j < i implies q_lt(
                    q_abs(vector@[j]@),
                    q_abs(vector@[i as int]@),
                ) by {
                    lemma_q_le_lt_trans(
                        q_abs(vector@[j]@),
                        q_abs(vector@[best as int]@),
                        q_abs(vector@[i as int]@),
                    );
                }
            }
            best = i;
        }
        i += 1;
    }
    Ok(best)
}

/// Index of the element of least absolute value among the first `len`, the
/// lowest such index when several are tied.  An empty range is refused.
pub fn idxmin(vector: &Vec<Rat>, len: usize) -> (r: Result<usize, VectorError>)
    requires
        len <= vector@.len(),
        all_wf(vector@, len as int),
    ensures
        r is Err <==> len == 0,
        r matches Err(e) ==> e == VectorError::InvalidLength,
        r matches Ok(k) ==> {
            &&& k < len
            &&& forall|i: int| 0 <= i < len ==> q_le(
                q_abs(vector@[k as int]@),
                q_abs(vector@[i]@),
            )
            &&& forall|i: int| 0 <= i < k ==> q_lt(
                q_abs(vector@[k as int]@),
                q_abs(vector@[i]@),
            )
        },
{
    if len == 0 {
        return Err(VectorError::InvalidLength);
    }
    let mut best: usize = 0;
    let mut i: usize = 1;
    while i < len
        invariant
            1 <= i <= len,
            best < i,
            len <= vector@.len(),
            all_wf(vector@, len as int),
            forall|j: int| 0 <= j < i ==> q_le(q_abs(vector@[best as int]@), q_abs(vector@[j]@)),
            forall|j: int| 0 <= j < best ==> q_lt(
                q_abs(vector@[best as int]@),
                q_abs(vector@[j]@),
            ),
        decreases len - i,
    {
        if rat_abs_lt(&vector[i], &vector[best]) {
            proof {
                assert forall|j: int| 0 <= j < i implies q_lt(
                    q_abs(vector@[i as int]@),
                    q_abs(vector@[j]@),
                ) by {
                    lemma_q_lt_le_trans(
                        q_abs(vector@[i as int]@),
                        q_abs(vector@[best as int]@),
                        q_abs(vector@[j]@),
                    );
                }
            }
            best = i;
        }
        i += 1;
    }
    Ok(best)
}

/// Whether every element of the first `len` positions is `>= 0`.
pub fn check_non_negative(vector: &Vec<Rat>, len: usize) -> (r: bool)
    requires
        len <= vector@.len(),
        all_wf(vector@, len as int),
    ensures
        r == all_nonneg(vector@, len as int),
{
    let mut i: usize = 0;
    while i < len
        invariant
            i <= len,
            len <= vector@.len(),
            all_wf(vector@, len as int),
            forall|j: int| 0 <= j < i ==> q_le(q_zero(), (#[trigger] vector@[j])@),
        decreases len - i,
    {
        if !rat_is_nonneg(&vector[i]) {
            return false;
        }
        i += 1;
    }
    true
}

/// Builds the `shape` by `shape` identity matrix as nested vectors of
/// rationals: one on the diagonal, zero elsewhere.
pub fn make_eye_vector(shape: usize) -> (r: Vec<Vec<Rat>>)
    ensures
        r@.len() == shape,
        forall|i: int| 0 <= i < shape ==> (#[trigger] r@[i])@.len() == shape,
        forall|i: int, j: int|
            0 <= i < shape && 0 <= j < shape ==> {
                &&& (#[trigger] r@[i]@[j]).wf()
                &&& r@[i]@[j]@ == (if i == j {
                    crate::rational::q_one()
                } else {
                    q_zero()
                })
            },
{
    let mut rows: Vec<Vec<Rat>> = Vec::new();
    let mut i: usize = 0;
    while i < shape
        invariant
            i <= shape,
            rows@.len() == i,
            forall|a: int| 0 <= a < i ==> (#[trigger] rows@[a])@.len() == shape,
            forall|a: int, b: int|
                0 <= a < i && 0 <= b < shape ==> {
                    &&& (#[trigger] rows@[a]@[b]).wf()
                    &&& rows@[a]@[b]@ == (if a == b {
                        crate::rational::q_one()
                    } else {
                        q_zero()
                    })
                },
        decreases shape - i,
    {
        let mut row: Vec<Rat> = Vec::new();
        let mut j: usize = 0;
        while j < shape
            invariant
                j <= shape,
                row@.len() == j,
                forall|b: int| 0 <= b < j ==> {
                    &&& (#[trigger] row@[b]).wf()
                    &&& row@[b]@ == (if i as int == b {
                        crate::rational::q_one()
                    } else {
                        q_zero()
                    })
                },
            decreases shape - j,
        {
            if j == i {
                row.push(Rat::one());
            } else {
                row.push(Rat::zero());
            }
            j += 1;
        }
        rows.push(row);
        i += 1;
    }
    rows
}

} // verus!
