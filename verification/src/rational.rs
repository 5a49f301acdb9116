//! Exact rational scalars: the number type every routine of this crate
//! computes with.  An executable value is a pair of `i64`s with a positive
//! denominator; its mathematical meaning is the quotient of the pair, modeled
//! by the ghost type `Q`.  Arithmetic is checked: an operation reduces its
//! result by a common divisor and reports `None` only when even the reduced
//! value does not fit the machine representation.

use vstd::prelude::*;
use vstd::arithmetic::div_mod::lemma_fundamental_div_mod;

verus! {

/// Mathematical value of a rational: numerator `n` over denominator `d`.
/// Meaningful (and ordered by the spec functions below) when `d > 0`.
pub struct Q {
    pub n: int,
    pub d: int,
}

/// A mathematical rational is well formed when its denominator is positive.
pub open spec fn q_wf(q: Q) -> bool {
    q.d > 0
}

/// The rational zero.
pub open spec fn q_zero() -> Q {
    Q { n: 0, d: 1 }
}

/// The rational one.
pub open spec fn q_one() -> Q {
    Q { n: 1, d: 1 }
}

/// Value equality of two fractions, by cross multiplication.
pub open spec fn q_eq(a: Q, b: Q) -> bool {
    a.n * b.d == b.n * a.d
}

/// `a <= b` as rational values; assumes positive denominators.
pub open spec fn q_le(a: Q, b: Q) -> bool {
    a.n * b.d <= b.n * a.d
}

/// `a < b` as rational values; assumes positive denominators.
pub open spec fn q_lt(a: Q, b: Q) -> bool {
    a.n * b.d < b.n * a.d
}

/// Sum of two fractions, as an unreduced fraction.
pub open spec fn q_add(a: Q, b: Q) -> Q {
    Q { n: a.n * b.d + b.n * a.d, d: a.d * b.d }
}

/// Difference of two fractions, as an unreduced fraction.
pub open spec fn q_sub(a: Q, b: Q) -> Q {
    Q { n: a.n * b.d - b.n * a.d, d: a.d * b.d }
}

/// Product of two fractions, as an unreduced fraction.
pub open spec fn q_mul(a: Q, b: Q) -> Q {
    Q { n: a.n * b.n, d: a.d * b.d }
}

/// Quotient of two fractions, as an unreduced fraction; well formed
/// exactly when the divisor is positive.
pub open spec fn q_div(a: Q, b: Q) -> Q {
    Q { n: a.n * b.d, d: a.d * b.n }
}

/// Negation of a fraction.
pub open spec fn q_neg(a: Q) -> Q {
    Q { n: -a.n, d: a.d }
}

/// Absolute value of a fraction with a positive denominator.
pub open spec fn q_abs(a: Q) -> Q {
    Q { n: if a.n < 0 { -a.n } else { a.n }, d: a.d }
}

/// Whether a fraction fits the executable representation as it stands,
/// without any reduction.
pub open spec fn q_fits(q: Q) -> bool {
    &&& -0x8000000000000000 <= q.n <= 0x7fffffffffffffff
    &&& 1 <= q.d <= 0x7fffffffffffffff
}

/// The same fraction with its denominator made positive, by flipping both
/// signs when the denominator is negative.
pub open spec fn q_norm(q: Q) -> Q {
    if q.d < 0 {
        Q { n: -q.n, d: -q.d }
    } else {
        q
    }
}

/// An executable rational: a numerator and a positive denominator.
#[derive(Clone, Copy, Debug, PartialEq, Eq, Structural)]
pub struct Rat {
    pub num: i64,
    pub den: i64,
}

impl View for Rat {
    type V = Q;

    open spec fn view(&self) -> Q {
        Q { n: self.num as int, d: self.den as int }
    }
}

impl Rat {
    /// Well-formedness of the executable representation.
    pub open spec fn wf(&self) -> bool {
        self.den > 0
    }

    /// Builds the rational `num / den` from a positive denominator.
    pub fn new(num: i64, den: i64) -> (r: Rat)
        requires
            den > 0,
        ensures
            r.wf(),
            r@ == (Q { n: num as int, d: den as int }),
    {
        Rat { num, den }
    }

    /// Builds the rational `n / 1`.
    pub fn from_int(n: i64) -> (r: Rat)
        ensures
            r.wf(),
            r@ == (Q { n: n as int, d: 1 }),
    {
        Rat { num: n, den: 1 }
    }

    /// The rational zero.
    pub fn zero() -> (r: Rat)
        ensures
            r.wf(),
            r@ == q_zero(),
    {
        Rat { num: 0, den: 1 }
    }

    /// The rational one.
    pub fn one() -> (r: Rat)
        ensures
            r.wf(),
            r@ == q_one(),
    {
        Rat { num: 1, den: 1 }
    }
}

/// Any product of two `i64`-range factors stays well inside the `i128` range.
proof fn lemma_mul_i64_fits(x: int, y: int)
    by (nonlinear_arith)
    requires
        -0x8000000000000000 <= x <= 0x7fffffffffffffff,
        -0x8000000000000000 <= y <= 0x7fffffffffffffff,
    ensures
        -0x40000000000000000000000000000000 <= x * y
            <= 0x40000000000000000000000000000000,
{
}

/// A product with one factor in the positive denominator range is bounded
/// away from the `i128` limits, and positive factors give a positive product.
pub proof fn lemma_mul_den_fits(x: int, y: int)
    by (nonlinear_arith)
    requires
        -0x8000000000000000 <= x <= 0x7fffffffffffffff,
        1 <= y <= 0x7fffffffffffffff,
    ensures
        -0x3fffffffffffffff8000000000000000 <= x * y
            <= 0x3fffffffffffffff8000000000000000,
        x >= 1 ==> x * y >= 1,
        x == 0 ==> x * y == 0,
        x < 0 ==> x * y < 0,
        x > 0 ==> x * y > 0,
{
}

/// A nonnegative factor no larger than `2^63` times a positive denominator
/// stays inside the `i128` range.
proof fn lemma_mul_abs_fits(x: int, y: int)
    by (nonlinear_arith)
    requires
        0 <= x <= 0x8000000000000000,
        1 <= y <= 0x7fffffffffffffff,
    ensures
        0 <= x * y <= 0x40000000000000000000000000000000,
{
}

/// Dividing numerator and denominator by a common factor keeps the value:
/// the reduced and the original fraction cross-multiply equally, whatever
/// the shared sign flip.
proof fn lemma_reduce_keeps_value(neg: bool, g: int, nm: int, dd: int, an: int, du: int)
    by (nonlinear_arith)
    requires
        an == g * nm,
        du == g * dd,
    ensures
        (if neg { -nm } else { nm }) * du == (if neg { -an } else { an }) * dd,
{
}

/// Greatest common divisor by Euclid's algorithm; only positivity is
/// claimed, divisibility is re-checked where it matters.
fn gcd_u128(a: u128, b: u128) -> (g: u128)
    requires
        a > 0,
    ensures
        g > 0,
{
    let mut x: u128 = a;
    let mut y: u128 = b;
    while y != 0
        invariant
            x > 0,
        decreases y,
    {
        let r: u128 = x % y;
        x = y;
        y = r;
    }
    x
}

/// Brings an exact `i128` fraction with a positive denominator back into the
/// `i64` representation, dividing out a common factor first.  Returns `None`
/// only when neither the reduced nor the original pair fits.
fn reduce(n: i128, d: i128) -> (r: Option<Rat>)
    requires
        d >= 1,
        n > -0x80000000000000000000000000000000,
    ensures
        r matches Some(v) ==> v.wf() && q_eq(v@, Q { n: n as int, d: d as int }),
        q_fits(Q { n: n as int, d: d as int }) ==> r is Some,
{
    let neg = n < 0;
    let an: u128 = if neg { (-n) as u128 } else { n as u128 };
    let du: u128 = d as u128;
    let g = gcd_u128(du, an);
    if an % g == 0 && du % g == 0 {
        let nm = an / g;
        let dd = du / g;
        if nm <= 0x7fffffffffffffff && 1 <= dd && dd <= 0x7fffffffffffffff {
            let num: i64 = if neg { -(nm as i64) } else { nm as i64 };
            let v = Rat { num, den: dd as i64 };
            proof {
                lemma_fundamental_div_mod(an as int, g as int);
                lemma_fundamental_div_mod(du as int, g as int);
                lemma_reduce_keeps_value(neg, g as int, nm as int, dd as int, an as int, du as int);
            }
            return Some(v);
        }
    }
    if -0x8000000000000000 <= n && n <= 0x7fffffffffffffff && d <= 0x7fffffffffffffff {
        return Some(Rat { num: n as i64, den: d as i64 });
    }
    None
}

/// Checked addition: any `Some` result is exactly the sum, and a sum whose
/// textbook fraction fits `i64` is never refused.
pub fn rat_add(a: &Rat, b: &Rat) -> (r: Option<Rat>)
    requires
        a.wf(),
        b.wf(),
    ensures
        r matches Some(v) ==> v.wf() && q_eq(v@, q_add(a@, b@)),
        q_fits(q_add(a@, b@)) ==> r is Some,
{
    proof {
        lemma_mul_den_fits(a.num as int, b.den as int);
        lemma_mul_den_fits(b.num as int, a.den as int);
        lemma_mul_den_fits(a.den as int, b.den as int);
    }
    let n = (a.num as i128) * (b.den as i128) + (b.num as i128) * (a.den as i128);
    let d = (a.den as i128) * (b.den as i128);
    reduce(n, d)
}

/// Checked subtraction: any `Some` result is exactly the difference, and a
/// difference whose textbook fraction fits `i64` is never refused.
pub fn rat_sub(a: &Rat, b: &Rat) -> (r: Option<Rat>)
    requires
        a.wf(),
        b.wf(),
    ensures
        r matches Some(v) ==> v.wf() && q_eq(v@, q_sub(a@, b@)),
        q_fits(q_sub(a@, b@)) ==> r is Some,
{
    proof {
        lemma_mul_den_fits(a.num as int, b.den as int);
        lemma_mul_den_fits(b.num as int, a.den as int);
        lemma_mul_den_fits(a.den as int, b.den as int);
    }
    let n = (a.num as i128) * (b.den as i128) - (b.num as i128) * (a.den as i128);
    let d = (a.den as i128) * (b.den as i128);
    reduce(n, d)
}

/// Checked multiplication: any `Some` result is exactly the product, and a
/// product whose textbook fraction fits `i64` is never refused.
pub fn rat_mul(a: &Rat, b: &Rat) -> (r: Option<Rat>)
    requires
        a.wf(),
        b.wf(),
    ensures
        r matches Some(v) ==> v.wf() && q_eq(v@, q_mul(a@, b@)),
        q_fits(q_mul(a@, b@)) ==> r is Some,
{
    proof {
        lemma_mul_i64_fits(a.num as int, b.num as int);
        lemma_mul_den_fits(a.den as int, b.den as int);
    }
    let n = (a.num as i128) * (b.num as i128);
    let d = (a.den as i128) * (b.den as i128);
    reduce(n, d)
}

/// Multiplication of mathematical integers is commutative.
proof fn lemma_mul_comm(x: int, y: int)
    by (nonlinear_arith)
    ensures
        x * y == y * x,
{
}

/// Sign flips on both sides of a fraction cancel in a cross multiplication.
proof fn lemma_flip_sign(xn: int, xd: int, n0: int, d0: int)
    by (nonlinear_arith)
    requires
        xn * (-d0) == (-n0) * xd,
    ensures
        xn * d0 == n0 * xd,
{
}

/// Checked division: refuses a zero divisor, and any `Some` result is
/// exactly the quotient.
pub fn rat_div(a: &Rat, b: &Rat) -> (r: Option<Rat>)
    requires
        a.wf(),
        b.wf(),
    ensures
        r matches Some(v) ==> v.wf() && q_eq(v@, q_div(a@, b@)),
        b.num == 0 ==> r is None,
        (b.num != 0 && q_fits(q_norm(q_div(a@, b@)))) ==> r is Some,
{
    if b.num == 0 {
        return None;
    }
    proof {
        lemma_mul_den_fits(a.num as int, b.den as int);
        lemma_mul_den_fits(b.num as int, a.den as int);
        lemma_mul_comm(a.den as int, b.num as int);
    }
    let mut n = (a.num as i128) * (b.den as i128);
    let mut d = (a.den as i128) * (b.num as i128);
    let ghost n0 = n as int;
    let ghost d0 = d as int;
    if d < 0 {
        n = -n;
        d = -d;
    }
    match reduce(n, d) {
        Some(v) => {
            proof {
                if d0 < 0 {
                    lemma_flip_sign(v@.n, v@.d, n0, d0);
                }
            }
            Some(v)
        },
        None => None,
    }
}

/// Checked negation: any `Some` result is exactly the opposite value, and a
/// representable opposite is never refused.
pub fn rat_neg(a: &Rat) -> (r: Option<Rat>)
    requires
        a.wf(),
    ensures
        r matches Some(v) ==> v.wf() && q_eq(v@, q_neg(a@)),
        q_fits(q_neg(a@)) ==> r is Some,
{
    reduce(-(a.num as i128), a.den as i128)
}

/// Exact order test: `a <= b` as rational values.
pub fn rat_le(a: &Rat, b: &Rat) -> (r: bool)
    requires
        a.wf(),
        b.wf(),
    ensures
        r == q_le(a@, b@),
{
    proof {
        lemma_mul_den_fits(a.num as int, b.den as int);
        lemma_mul_den_fits(b.num as int, a.den as int);
    }
    (a.num as i128) * (b.den as i128) <= (b.num as i128) * (a.den as i128)
}

/// Exact order test: `a < b` as rational values.
pub fn rat_lt(a: &Rat, b: &Rat) -> (r: bool)
    requires
        a.wf(),
        b.wf(),
    ensures
        r == q_lt(a@, b@),
{
    proof {
        lemma_mul_den_fits(a.num as int, b.den as int);
        lemma_mul_den_fits(b.num as int, a.den as int);
    }
    (a.num as i128) * (b.den as i128) < (b.num as i128) * (a.den as i128)
}

/// Exact value-equality test of two representations.
pub fn rat_eq(a: &Rat, b: &Rat) -> (r: bool)
    requires
        a.wf(),
        b.wf(),
    ensures
        r == q_eq(a@, b@),
{
    proof {
        lemma_mul_den_fits(a.num as int, b.den as int);
        lemma_mul_den_fits(b.num as int, a.den as int);
    }
    (a.num as i128) * (b.den as i128) == (b.num as i128) * (a.den as i128)
}

/// Whether the value is `>= 0`; with a positive denominator this is the sign
/// of the numerator.
pub fn rat_is_nonneg(a: &Rat) -> (r: bool)
    requires
        a.wf(),
    ensures
        r == q_le(q_zero(), a@),
{
    a.num >= 0
}

/// Whether the value is `> 0`.
pub fn rat_is_pos(a: &Rat) -> (r: bool)
    requires
        a.wf(),
    ensures
        r == q_lt(q_zero(), a@),
{
    a.num > 0
}

/// The rational order is transitive.
pub proof fn lemma_q_le_trans(a: Q, b: Q, c: Q)
    by (nonlinear_arith)
    requires
        q_wf(a),
        q_wf(b),
        q_wf(c),
        q_le(a, b),
        q_le(b, c),
    ensures
        q_le(a, c),
{
}

/// A strict step followed by a weak step stays strict.
pub proof fn lemma_q_lt_le_trans(a: Q, b: Q, c: Q)
    by (nonlinear_arith)
    requires
        q_wf(a),
        q_wf(b),
        q_wf(c),
        q_lt(a, b),
        q_le(b, c),
    ensures
        q_lt(a, c),
{
}

/// A weak step followed by a strict step stays strict.
pub proof fn lemma_q_le_lt_trans(a: Q, b: Q, c: Q)
    by (nonlinear_arith)
    requires
        q_wf(a),
        q_wf(b),
        q_wf(c),
        q_le(a, b),
        q_lt(b, c),
    ensures
        q_lt(a, c),
{
}

/// Value equality is transitive across a middle term with a nonzero
/// denominator.
pub proof fn lemma_q_eq_trans(a: Q, b: Q, c: Q)
    by (nonlinear_arith)
    requires
        b.d != 0,
        q_eq(a, b),
        q_eq(b, c),
    ensures
        q_eq(a, c),
{
}

/// The order respects value equality on both sides.
pub proof fn lemma_q_le_congr(a: Q, a2: Q, b: Q, b2: Q)
    by (nonlinear_arith)
    requires
        q_wf(a),
        q_wf(a2),
        q_wf(b),
        q_wf(b2),
        q_eq(a, a2),
        q_eq(b, b2),
        q_le(a, b),
    ensures
        q_le(a2, b2),
{
}

/// The strict order respects value equality on both sides.
pub proof fn lemma_q_lt_congr(a: Q, a2: Q, b: Q, b2: Q)
    by (nonlinear_arith)
    requires
        q_wf(a),
        q_wf(a2),
        q_wf(b),
        q_wf(b2),
        q_eq(a, a2),
        q_eq(b, b2),
        q_lt(a, b),
    ensures
        q_lt(a2, b2),
{
}

/// Sums, differences and products of well-formed fractions are well formed.
pub proof fn lemma_q_ops_wf(a: Q, b: Q)
    by (nonlinear_arith)
    requires
        q_wf(a),
        q_wf(b),
    ensures
        q_wf(q_add(a, b)),
        q_wf(q_sub(a, b)),
        q_wf(q_mul(a, b)),
{
}

/// A quotient by a positive value has a positive denominator.
pub proof fn lemma_q_div_wf(a: Q, b: Q)
    by (nonlinear_arith)
    requires
        q_wf(a),
        q_wf(b),
        q_lt(q_zero(), b),
    ensures
        q_wf(q_div(a, b)),
{
}

/// A quotient of a nonnegative value by a positive one is nonnegative.
pub proof fn lemma_q_div_nonneg(a: Q, b: Q)
    by (nonlinear_arith)
    requires
        q_wf(a),
        q_wf(b),
        q_le(q_zero(), a),
        q_lt(q_zero(), b),
    ensures
        q_le(q_zero(), q_div(a, b)),
{
}

/// Multiplication respects value equality in its second factor.
pub proof fn lemma_q_mul_congr(a: Q, b: Q, b2: Q)
    by (nonlinear_arith)
    requires
        q_wf(a),
        q_wf(b),
        q_wf(b2),
        q_eq(b, b2),
    ensures
        q_eq(q_mul(a, b), q_mul(a, b2)),
{
}

/// Subtraction respects value equality in its second operand.
#[verifier::rlimit(100)]
pub proof fn lemma_q_sub_congr(a: Q, b: Q, b2: Q)
    requires
        q_wf(a),
        q_wf(b),
        q_wf(b2),
        q_eq(b, b2),
    ensures
        q_eq(q_sub(a, b), q_sub(a, b2)),
{
    assert((a.n * b.d - b.n * a.d) * (a.d * b2.d) == (a.n * b2.d - b2.n * a.d) * (a.d * b.d))
        by (nonlinear_arith)
        requires
            b.n * b2.d == b2.n * b.d,
    ;
}

/// The `e`-th power of a fraction.
pub open spec fn q_pow(b: Q, e: nat) -> Q
    decreases e,
{
    if e == 0 {
        q_one()
    } else {
        q_mul(q_pow(b, (e - 1) as nat), b)
    }
}

/// Powers of well-formed fractions are well formed.
pub proof fn lemma_q_pow_wf(b: Q, e: nat)
    requires
        q_wf(b),
    ensures
        q_wf(q_pow(b, e)),
    decreases e,
{
    if e > 0 {
        lemma_q_pow_wf(b, (e - 1) as nat);
        lemma_q_ops_wf(q_pow(b, (e - 1) as nat), b);
    }
}

/// The floor of a fraction with a positive denominator.
pub open spec fn q_floor(q: Q) -> int {
    q.n / q.d
}

/// Addition respects value equality in its second operand.
pub proof fn lemma_q_add_congr_r(a: Q, b: Q, b2: Q)
    by (nonlinear_arith)
    requires
        q_wf(a),
        q_wf(b),
        q_wf(b2),
        q_eq(b, b2),
    ensures
        q_eq(q_add(a, b), q_add(a, b2)),
{
}

/// Addition respects value equality in its first operand.
pub proof fn lemma_q_add_congr_l(a: Q, a2: Q, b: Q)
    by (nonlinear_arith)
    requires
        q_wf(a),
        q_wf(a2),
        q_wf(b),
        q_eq(a, a2),
    ensures
        q_eq(q_add(a, b), q_add(a2, b)),
{
}

/// Multiplication respects value equality in its first factor.
pub proof fn lemma_q_mul_congr_l(a: Q, a2: Q, b: Q)
    by (nonlinear_arith)
    requires
        q_wf(a),
        q_wf(a2),
        q_wf(b),
        q_eq(a, a2),
    ensures
        q_eq(q_mul(a, b), q_mul(a2, b)),
{
}

/// Addition respects value equality in both operands.
pub proof fn lemma_q_add_congr2(a: Q, a2: Q, b: Q, b2: Q)
    requires
        q_wf(a),
        q_wf(a2),
        q_wf(b),
        q_wf(b2),
        q_eq(a, a2),
        q_eq(b, b2),
    ensures
        q_eq(q_add(a, b), q_add(a2, b2)),
{
    lemma_q_add_congr_l(a, a2, b);
    lemma_q_add_congr_r(a2, b, b2);
    lemma_q_ops_wf(a2, b);
    lemma_q_eq_trans(q_add(a, b), q_add(a2, b), q_add(a2, b2));
}

/// Multiplication respects value equality in both factors.
pub proof fn lemma_q_mul_congr2(a: Q, a2: Q, b: Q, b2: Q)
    requires
        q_wf(a),
        q_wf(a2),
        q_wf(b),
        q_wf(b2),
        q_eq(a, a2),
        q_eq(b, b2),
    ensures
        q_eq(q_mul(a, b), q_mul(a2, b2)),
{
    lemma_q_mul_congr_l(a, a2, b);
    lemma_q_mul_congr(a2, b, b2);
    lemma_q_ops_wf(a2, b);
    lemma_q_eq_trans(q_mul(a, b), q_mul(a2, b), q_mul(a2, b2));
}

/// Multiplication of fractions is associative up to value equality.
pub proof fn lemma_q_mul_assoc(a: Q, b: Q, c: Q)
    by (nonlinear_arith)
    ensures
        q_eq(q_mul(q_mul(a, b), c), q_mul(a, q_mul(b, c))),
{
}

/// Division respects value equality in its dividend.
pub proof fn lemma_q_div_congr_l(a: Q, a2: Q, b: Q)
    by (nonlinear_arith)
    requires
        q_wf(a),
        q_wf(a2),
        q_eq(a, a2),
    ensures
        q_eq(q_div(a, b), q_div(a2, b)),
{
}

/// Division respects value equality in its divisor.
pub proof fn lemma_q_div_congr_r(a: Q, b: Q, b2: Q)
    by (nonlinear_arith)
    requires
        q_eq(b, b2),
    ensures
        q_eq(q_div(a, b), q_div(a, b2)),
{
}

/// A quotient by a value with a nonzero numerator has a nonzero
/// denominator.
pub proof fn lemma_q_div_nz(a: Q, b: Q)
    by (nonlinear_arith)
    requires
        q_wf(a),
        b.n != 0,
    ensures
        (q_div(a, b)).d != 0,
{
}

/// A value equal to one with a nonzero numerator has a nonzero numerator
/// itself.
pub proof fn lemma_q_eq_nonzero(a: Q, b: Q)
    by (nonlinear_arith)
    requires
        a.d >= 1,
        b.d >= 1,
        q_eq(a, b),
        a.n != 0,
    ensures
        b.n != 0,
{
}

/// A negative fraction with a positive denominator has a negative floor.
pub proof fn lemma_q_floor_neg(q: Q)
    requires
        q.d >= 1,
        q.n < 0,
    ensures
        q_floor(q) < 0,
{
    let x = q.n / q.d;
    vstd::arithmetic::div_mod::lemma_fundamental_div_mod(q.n, q.d);
    vstd::arithmetic::div_mod::lemma_mod_bound(q.n, q.d);
    assert(x < 0) by (nonlinear_arith)
        requires
            q.n == q.d * x + (q.n % q.d),
            0 <= q.n % q.d < q.d,
            q.n < 0,
            q.d >= 1,
    ;
}

/// The sign-normalized quotient by a nonzero divisor has a positive
/// denominator and the same value as the plain quotient.
pub proof fn lemma_q_norm_div(a: Q, b: Q)
    requires
        q_wf(a),
        q_wf(b),
        b.n != 0,
    ensures
        (q_div(a, b)).d != 0,
        (q_norm(q_div(a, b))).d >= 1,
        q_eq(q_div(a, b), q_norm(q_div(a, b))),
{
    assert((b.n >= 1 ==> a.d * b.n >= 1) && (b.n <= -1 ==> a.d * b.n <= -1)) by (nonlinear_arith)
        requires
            a.d >= 1,
    ;
    if (q_div(a, b)).d < 0 {
        assert((a.n * b.d) * (-(a.d * b.n)) == (-(a.n * b.d)) * (a.d * b.n)) by (nonlinear_arith);
    }
}

/// Equal values have equal floors: the floor is a property of the
/// rational, not of its representation.
pub proof fn lemma_q_floor_congr(a: Q, b: Q)
    requires
        a.d >= 1,
        b.d >= 1,
        q_eq(a, b),
    ensures
        q_floor(a) == q_floor(b),
{
    let x = a.n / a.d;
    let ra = a.n % a.d;
    vstd::arithmetic::div_mod::lemma_fundamental_div_mod(a.n, a.d);
    vstd::arithmetic::div_mod::lemma_mod_bound(a.n, a.d);
    let y = b.n / b.d;
    let rb = b.n % b.d;
    vstd::arithmetic::div_mod::lemma_fundamental_div_mod(b.n, b.d);
    vstd::arithmetic::div_mod::lemma_mod_bound(b.n, b.d);
    assert(b.d * x <= b.n < b.d * (x + 1)) by (nonlinear_arith)
        requires
            a.n == a.d * x + ra,
            0 <= ra < a.d,
            a.n * b.d == b.n * a.d,
            a.d >= 1,
            b.d >= 1,
    ;
    assert(y == x) by (nonlinear_arith)
        requires
            b.n == b.d * y + rb,
            0 <= rb < b.d,
            b.d * x <= b.n < b.d * (x + 1),
            b.d >= 1,
    ;
}

/// Magnitude order test: `|a| <= |b|`.
pub fn rat_abs_le(a: &Rat, b: &Rat) -> (r: bool)
    requires
        a.wf(),
        b.wf(),
    ensures
        r == q_le(q_abs(a@), q_abs(b@)),
{
    let an: i128 = if a.num < 0 { -(a.num as i128) } else { a.num as i128 };
    let bn: i128 = if b.num < 0 { -(b.num as i128) } else { b.num as i128 };
    proof {
        lemma_mul_abs_fits(an as int, b.den as int);
        lemma_mul_abs_fits(bn as int, a.den as int);
    }
    an * (b.den as i128) <= bn * (a.den as i128)
}

/// Magnitude order test: `|a| < |b|`.
pub fn rat_abs_lt(a: &Rat, b: &Rat) -> (r: bool)
    requires
        a.wf(),
        b.wf(),
    ensures
        r == q_lt(q_abs(a@), q_abs(b@)),
{
    let an: i128 = if a.num < 0 { -(a.num as i128) } else { a.num as i128 };
    let bn: i128 = if b.num < 0 { -(b.num as i128) } else { b.num as i128 };
    proof {
        lemma_mul_abs_fits(an as int, b.den as int);
        lemma_mul_abs_fits(bn as int, a.den as int);
    }
    an * (b.den as i128) < bn * (a.den as i128)
}

/// The value nearest to `a` among the fractions with denominator `den`,
/// halves rounded away from zero.
pub open spec fn q_round(a: Q, den: int) -> Q {
    if a.n >= 0 {
        Q { n: (2 * a.n * den + a.d) / (2 * a.d), d: den }
    } else {
        Q { n: -((2 * (-a.n) * den + a.d) / (2 * a.d)), d: den }
    }
}

/// Rounding is a property of the value, not of its representation.
pub proof fn lemma_q_round_congr(a: Q, b: Q, den: int)
    requires
        a.d >= 1,
        b.d >= 1,
        den >= 1,
        q_eq(a, b),
    ensures
        q_round(a, den) == q_round(b, den),
{
    assert(a.n >= 0 <==> b.n >= 0) by (nonlinear_arith)
        requires
            a.d >= 1,
            b.d >= 1,
            a.n * b.d == b.n * a.d,
    ;
    if a.n >= 0 {
        assert((2 * a.n * den + a.d) * (2 * b.d) == (2 * b.n * den + b.d) * (2 * a.d))
            by (nonlinear_arith)
            requires
                a.n * b.d == b.n * a.d,
        ;
        lemma_q_floor_congr(
            Q { n: 2 * a.n * den + a.d, d: 2 * a.d },
            Q { n: 2 * b.n * den + b.d, d: 2 * b.d },
        );
    } else {
        assert((2 * (-a.n) * den + a.d) * (2 * b.d) == (2 * (-b.n) * den + b.d) * (2 * a.d))
            by (nonlinear_arith)
            requires
                a.n * b.d == b.n * a.d,
        ;
        lemma_q_floor_congr(
            Q { n: 2 * (-a.n) * den + a.d, d: 2 * a.d },
            Q { n: 2 * (-b.n) * den + b.d, d: 2 * b.d },
        );
    }
}

/// The rounded value differs from the original by at most `1 / (2 den)`.
pub proof fn lemma_q_round_close(a: Q, den: int)
    requires
        q_wf(a),
        den >= 1,
    ensures
        q_wf(q_round(a, den)),
        q_le(q_abs(q_sub(q_round(a, den), a)), (Q { n: 1, d: 2 * den })),
{
    if a.n >= 0 {
        let q = (2 * a.n * den + a.d) / (2 * a.d);
        vstd::arithmetic::div_mod::lemma_fundamental_div_mod(2 * a.n * den + a.d, 2 * a.d);
        vstd::arithmetic::div_mod::lemma_mod_bound(2 * a.n * den + a.d, 2 * a.d);
        assert((if q * a.d - a.n * den < 0 {
            -(q * a.d - a.n * den)
        } else {
            q * a.d - a.n * den
        }) * (2 * den) <= den * a.d) by (nonlinear_arith)
            requires
                2 * a.n * den + a.d == 2 * a.d * q + (2 * a.n * den + a.d) % (2 * a.d),
                0 <= (2 * a.n * den + a.d) % (2 * a.d) < 2 * a.d,
                a.d >= 1,
                den >= 1,
        ;
    } else {
        let q = (2 * (-a.n) * den + a.d) / (2 * a.d);
        vstd::arithmetic::div_mod::lemma_fundamental_div_mod(2 * (-a.n) * den + a.d, 2 * a.d);
        vstd::arithmetic::div_mod::lemma_mod_bound(2 * (-a.n) * den + a.d, 2 * a.d);
        assert((if -q * a.d - a.n * den < 0 {
            -(-q * a.d - a.n * den)
        } else {
            -q * a.d - a.n * den
        }) * (2 * den) <= den * a.d) by (nonlinear_arith)
            requires
                2 * (-a.n) * den + a.d == 2 * a.d * q + (2 * (-a.n) * den + a.d) % (2 * a.d),
                0 <= (2 * (-a.n) * den + a.d) % (2 * a.d) < 2 * a.d,
                a.d >= 1,
                den >= 1,
        ;
    }
}

/// Rounds a value to the nearest fraction with the given denominator,
/// halves away from zero.  Refused exactly when the rounded numerator
/// leaves the `i64` range.
pub fn rat_round(a: &Rat, den: i64) -> (r: Option<Rat>)
    requires
        a.wf(),
        1 <= den <= 0x7fffffff,
    ensures
        r matches Some(v) ==> v.wf() && v.den == den && v@ == q_round(a@, den as int),
        r is Some <==> -0x8000000000000000 <= (q_round(a@, den as int)).n
            <= 0x7fffffffffffffff,
{
    let neg = a.num < 0;
    let am: i128 = if neg {
        -(a.num as i128)
    } else {
        a.num as i128
    };
    proof {
        assert(0 <= (2 * am as int) * (den as int) <= 0x800000000000000000000000)
            by (nonlinear_arith)
            requires
                0 <= 2 * am as int <= 0x10000000000000000,
                1 <= den as int <= 0x7fffffff,
        ;
    }
    let num2: i128 = 2 * am * (den as i128) + (a.den as i128);
    let den2: i128 = 2 * (a.den as i128);
    let q: i128 = num2 / den2;
    if (!neg && q <= 0x7fffffffffffffff) || (neg && q <= 0x8000000000000000) {
        let num: i64 = if neg {
            (-q) as i64
        } else {
            q as i64
        };
        Some(Rat { num, den })
    } else {
        None
    }
}

} // verus!
