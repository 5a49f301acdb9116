//! Row-major addressing over a single flat buffer of rationals.  Element
//! `(r, c)` of an `rows` by `cols` matrix lives at offset `r * cols + c`;
//! every access of the solver goes through the accessors here, which
//! validate the bounds, so that row/column confusion is impossible.

use vstd::prelude::*;
use vstd::pervasive::VecAdditionalExecFns;
use crate::rational::{Q, Rat};

verus! {

/// A flat buffer of length `len` is a valid `rows` by `cols` matrix.
pub open spec fn dims_ok(len: int, rows: int, cols: int) -> bool {
    &&& rows > 0
    &&& cols > 0
    &&& len == rows * cols
}

/// Mathematical value of entry `(r, c)` of the matrix laid out row-major
/// over `t` with `cols` columns.
pub open spec fn ent(t: Seq<Rat>, cols: int, r: int, c: int) -> Q {
    t[r * cols + c]@
}

/// A row-major offset stays inside the buffer.
pub proof fn lemma_rowmajor_in_bounds(r: int, c: int, rows: int, cols: int)
    by (nonlinear_arith)
    requires
        0 <= r < rows,
        0 <= c < cols,
    ensures
        0 <= r * cols,
        0 <= r * cols + c < rows * cols,
{
}

/// Offsets of entries in different rows never collide: an entry of another
/// row lies outside the half-open offset range of row `r0`.
pub proof fn lemma_rows_disjoint(i: int, r0: int, j: int, cols: int)
    by (nonlinear_arith)
    requires
        0 <= j < cols,
        i != r0,
        0 <= i,
        0 <= r0,
    ensures
        i * cols + j < r0 * cols || i * cols + j >= r0 * cols + cols,
{
}

/// Any product of two machine-word-sized factors fits a `u128`.
proof fn lemma_mul_word_fits(x: int, y: int)
    by (nonlinear_arith)
    requires
        0 <= x <= 0xffffffffffffffff,
        0 <= y <= 0xffffffffffffffff,
    ensures
        0 <= x * y <= 0xfffffffffffffffffffffffffffffffe,
{
}

/// Checks the addressing contract: positive dimensions and a buffer of
/// exactly `rows * cols` elements.
pub fn tableau_dims_valid(len: usize, rows: usize, cols: usize) -> (r: bool)
    ensures
        r == dims_ok(len as int, rows as int, cols as int),
{
    proof {
        lemma_mul_word_fits(rows as int, cols as int);
    }
    rows > 0 && cols > 0 && (len as u128) == (rows as u128) * (cols as u128)
}

/// Bounds-checked read of entry `(r, c)`.
pub fn tab_get(t: &Vec<Rat>, rows: usize, cols: usize, r: usize, c: usize) -> (v: Rat)
    requires
        dims_ok(t@.len() as int, rows as int, cols as int),
        r < rows,
        c < cols,
    ensures
        v == t@[r as int * cols as int + c as int],
        v@ == ent(t@, cols as int, r as int, c as int),
{
    let _n = t.len();
    proof {
        lemma_rowmajor_in_bounds(r as int, c as int, rows as int, cols as int);
    }
    t[r * cols + c]
}

/// Bounds-checked write of entry `(r, c)`; every other entry is untouched.
pub fn tab_set(t: &mut Vec<Rat>, rows: usize, cols: usize, r: usize, c: usize, v: Rat)
    requires
        dims_ok(old(t)@.len() as int, rows as int, cols as int),
        r < rows,
        c < cols,
    ensures
        final(t)@ == old(t)@.update(r as int * cols as int + c as int, v),
        final(t)@.len() == old(t)@.len(),
{
    let _n = t.len();
    proof {
        lemma_rowmajor_in_bounds(r as int, c as int, rows as int, cols as int);
    }
    t.set(r * cols + c, v);
}

} // verus!
